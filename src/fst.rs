//! Weighted automata of rustfst, reached through the functions of this module:
//! lattices (acceptors over the log semiring, where each arc's input label equals
//! its output label) and transducers over the tropical semiring. Each is seen by
//! the library as the list of its states, each with its outgoing arcs and its
//! final weight, and its start state. rustfst's `VectorFst` is generic over a
//! semiring trait, so each kind is kept in a private field of a struct of this
//! module.
use rustfst::algorithms::weight_converters::SimpleWeightConverter;
use rustfst::algorithms::compose::compose;
use rustfst::algorithms::tr_compares::ILabelCompare;
use rustfst::algorithms::{connect, shortest_distance, shortest_path, tr_sort, weight_convert};
use rustfst::fst_impls::VectorFst;
use rustfst::fst_traits::{CoreFst, ExpandedFst, Fst, MutableFst, SerializableFst};
use rustfst::semirings::{LogWeight, Semiring, SerializableSemiring, TropicalWeight};
use rustfst::utils::{acceptor, decode_linear_fst};
use rustfst::{SymbolTable, Tr, Trs};
use crate::symbols::symbol_list;
use crate::weight::{is_nan_bits, same_weight};
use vstd::prelude::*;

verus! {

/// A lattice: an acyclic acceptor over the log semiring, kept in rustfst's
/// `VectorFst` and reached only through the functions of this module.
#[verifier::external_body]
pub struct Lattice {
    fst: VectorFst<LogWeight>,
}

impl Lattice {
    /// Number of states of the lattice.
    pub fn num_states(&self) -> (r: usize)
        ensures
            r == fst_states(*self).len(),
    {
        num_states(self)
    }
}

/// An arc: its label, its weight (see `weight`) and its destination state.
pub type ArcModel = (u32, u32, u32);

/// A state: its outgoing arcs in order and its final weight, if it is final.
pub type StateModel = (Seq<ArcModel>, Option<u32>);

/// What a lattice holds: its states in order of their ids.
pub uninterp spec fn fst_states(f: Lattice) -> Seq<StateModel>;

/// The start state of a lattice, if it has one.
pub uninterp spec fn fst_start(f: Lattice) -> Option<u32>;

/// The property bits that a lattice has recorded about itself (rustfst's
/// `FstProperties`); rustfst picks the state queue of its algorithms by them.
pub uninterp spec fn fst_props(f: Lattice) -> u64;

/// Every arc of the lattice leads to a state of it.
pub open spec fn arcs_in_range(states: Seq<StateModel>) -> bool {
    forall|q: int, x: int|
        0 <= q < states.len() && 0 <= x < states[q].0.len() ==> (#[trigger] states[q].0[x]).2
            < states.len()
}

/// Every arc leads to a state of higher id, so the lattice has no cycle.
pub open spec fn arcs_ascend(states: Seq<StateModel>) -> bool {
    forall|q: int, x: int| 0 <= q < states.len() && 0 <= x < states[q].0.len() ==> (#[trigger] states[q].0[x]).2 > q
}

/// The start state, if any, is a state of the lattice.
pub open spec fn start_in_range(states: Seq<StateModel>, start: Option<u32>) -> bool {
    start is None || (start->Some_0 as int) < states.len()
}

/// The labels that occur on arcs of the lattice.
pub open spec fn arc_labels(states: Seq<StateModel>) -> Set<u32> {
    Set::new(|l: u32| exists|q: int, x: int| 0 <= q < states.len() && 0 <= x < states[q].0.len() && #[trigger] states[q].0[x].0 == l)
}

/// There is an arc from `p` to `q`.
pub open spec fn has_arc(states: Seq<StateModel>, p: int, q: int) -> bool {
    0 <= p < states.len() && exists|x: int| 0 <= x < states[p].0.len() && states[p].0[x].2 == q
}

/// `path` is a run of states from `start` to a final state along arcs.
pub open spec fn is_accepting_path(states: Seq<StateModel>, start: int, path: Seq<int>) -> bool {
    &&& path.len() >= 1
    &&& path[0] == start
    &&& forall|t: int| 0 <= t < path.len() - 1 ==> has_arc(states, #[trigger] path[t], path[t + 1])
    &&& 0 <= path.last() < states.len()
    &&& states[path.last()].1 is Some
}

/// Some path leads from the start state to a final state.
pub open spec fn has_accepting_path(states: Seq<StateModel>, start: Option<u32>) -> bool {
    start is Some && exists|path: Seq<int>| is_accepting_path(states, start->Some_0 as int, path)
}

/// Relies on `VectorFst::new`: no state and no start.
#[verifier::external_body]
pub(crate) fn new_lattice() -> (r: Lattice)
    ensures
        fst_states(r) == Seq::<StateModel>::empty(),
        fst_start(r) is None,
{
    Lattice { fst: VectorFst::new() }
}

/// Relies on `VectorFst::add_state`: a new state, with no arc and not final, takes
/// the next id.
#[verifier::external_body]
pub(crate) fn add_state(f: &mut Lattice) -> (r: u32)
    requires
        fst_states(*old(f)).len() < u32::MAX,
    ensures
        r == fst_states(*old(f)).len(),
        fst_states(*final(f)) == fst_states(*old(f)).push((Seq::<ArcModel>::empty(), None::<u32>)),
        fst_start(*final(f)) == fst_start(*old(f)),
{
    f.fst.add_state()
}

/// Relies on `VectorFst::add_tr`: appends the arc to the arcs of `source`.
#[verifier::external_body]
pub(crate) fn add_arc(f: &mut Lattice, source: u32, label: u32, weight: u32, next: u32)
    requires
        (source as int) < fst_states(*old(f)).len(),
    ensures
        fst_states(*final(f)) == fst_states(*old(f)).update(
            source as int,
            (fst_states(*old(f))[source as int].0.push((label, weight, next)), fst_states(*old(f))[source as int].1),
        ),
        fst_start(*final(f)) == fst_start(*old(f)),
{
    let w = LogWeight::parse_binary(&weight.to_le_bytes()).unwrap().1;
    f.fst.add_tr(source, Tr::new(label, label, w, next)).unwrap()
}

/// Relies on `VectorFst::set_start`.
#[verifier::external_body]
pub(crate) fn set_start(f: &mut Lattice, q: u32)
    requires
        (q as int) < fst_states(*old(f)).len(),
    ensures
        fst_states(*final(f)) == fst_states(*old(f)),
        fst_start(*final(f)) == Some(q),
{
    f.fst.set_start(q).unwrap()
}

/// Relies on `VectorFst::set_final`: `q` becomes final with the given weight.
#[verifier::external_body]
pub(crate) fn set_final(f: &mut Lattice, q: u32, weight: u32)
    requires
        (q as int) < fst_states(*old(f)).len(),
    ensures
        fst_states(*final(f)) == fst_states(*old(f)).update(
            q as int,
            (fst_states(*old(f))[q as int].0, Some(weight)),
        ),
        fst_start(*final(f)) == fst_start(*old(f)),
{
    let w = LogWeight::parse_binary(&weight.to_le_bytes()).unwrap().1;
    f.fst.set_final(q, w).unwrap()
}

/// State `q` lies on some path from the start to a final state: it is both
/// reachable from the start and able to reach a final state.
pub open spec fn useful(states: Seq<StateModel>, start: Option<u32>, q: int) -> bool {
    start is Some && exists|p: Seq<int>| #[trigger] is_accepting_path(states, start->Some_0 as int, p) && p.contains(q)
}

/// The ids below `q` of useful states, in order.
pub open spec fn useful_below(states: Seq<StateModel>, start: Option<u32>, q: int) -> Seq<int> {
    Seq::new(q as nat, |p: int| p).filter(|p: int| useful(states, start, p))
}

/// The lattice that keeps exactly its useful states, in order, renumbered from
/// 0; each keeps its final weight and, in order, the arcs that lead to useful
/// states, redirected to their new ids.
pub open spec fn connected(states: Seq<StateModel>, start: Option<u32>) -> Seq<StateModel> {
    useful_below(states, start, states.len() as int).map_values(
        |q: int|
            (
                states[q].0.filter(|a: ArcModel| useful(states, start, a.2 as int)).map_values(
                    |a: ArcModel| (a.0, a.1, useful_below(states, start, a.2 as int).len() as u32),
                ),
                states[q].1,
            ),
    )
}

/// The start after trimming: its new id if it is useful, else none.
pub open spec fn connected_start(states: Seq<StateModel>, start: Option<u32>) -> Option<u32> {
    if start is Some && useful(states, start, start->Some_0 as int) {
        Some(useful_below(states, start, start->Some_0 as int).len() as u32)
    } else {
        None
    }
}

/// Relies on `connect`: removes every state that is not both reachable from the
/// start and able to reach a final state, so nothing is left exactly when no path
/// leads from the start to a final state. The arcs kept are arcs of the input,
/// redirected to the new ids of their destinations; the states kept keep their
/// order, so arcs that led to higher ids still do.
#[verifier::external_body]
pub(crate) fn trim(f: &mut Lattice)
    requires
        arcs_in_range(fst_states(*old(f))),
        start_in_range(fst_states(*old(f)), fst_start(*old(f))),
    ensures
        fst_states(*final(f)).len() == 0 <==> !has_accepting_path(fst_states(*old(f)), fst_start(*old(f))),
        arc_labels(fst_states(*final(f))).subset_of(arc_labels(fst_states(*old(f)))),
        arcs_in_range(fst_states(*final(f))),
        fst_states(*final(f)).len() <= fst_states(*old(f)).len(),
        arcs_ascend(fst_states(*old(f))) ==> arcs_ascend(fst_states(*final(f))),
        start_in_range(fst_states(*final(f)), fst_start(*final(f))),
        fst_states(*final(f)) == connected(fst_states(*old(f)), fst_start(*old(f))),
        fst_start(*final(f)) == connected_start(fst_states(*old(f)), fst_start(*old(f))),
{
    connect(&mut f.fst).unwrap()
}

/// Relies on `ExpandedFst::num_states`.
#[verifier::external_body]
pub(crate) fn num_states(f: &Lattice) -> (r: usize)
    ensures
        r == fst_states(*f).len(),
{
    f.fst.num_states()
}

/// Relies on `CoreFst::get_trs`: the arcs of `q`, each as label, weight and destination.
#[verifier::external_body]
pub(crate) fn arcs_of(f: &Lattice, q: u32) -> (r: Vec<ArcModel>)
    requires
        (q as int) < fst_states(*f).len(),
    ensures
        r@ == fst_states(*f)[q as int].0,
{
    f.fst.get_trs(q).unwrap().trs().iter().map(|t| (t.ilabel, t.weight.value().to_bits(), t.nextstate)).collect()
}

/// Relies on `TrsIterMut::set_weight`: the weight of arc `idx` of `q` is replaced.
#[verifier::external_body]
pub(crate) fn set_arc_weight(f: &mut Lattice, q: u32, idx: usize, weight: u32)
    requires
        (q as int) < fst_states(*old(f)).len(),
        idx < fst_states(*old(f))[q as int].0.len(),
    ensures
        fst_states(*final(f)) == fst_states(*old(f)).update(
            q as int,
            (
                fst_states(*old(f))[q as int].0.update(
                    idx as int,
                    (fst_states(*old(f))[q as int].0[idx as int].0, weight, fst_states(*old(f))[q as int].0[idx as int].2),
                ),
                fst_states(*old(f))[q as int].1,
            ),
        ),
        fst_start(*final(f)) == fst_start(*old(f)),
{
    let w = LogWeight::parse_binary(&weight.to_le_bytes()).unwrap().1;
    f.fst.tr_iter_mut(q).unwrap().set_weight(idx, w).unwrap()
}

/// Relies on `shortest_distance`: forward (or, with `reverse`, backward)
/// potentials, one for each state up to the last one reached. The sums use
/// float `exp` and `ln_1p`, whose precision std leaves to the platform, so their
/// values are not stated. On an acyclic lattice whose arcs lead to its own states no step of
/// it fails (the log semiring is right-distributive and its reverse is itself),
/// and each state is relaxed from its predecessors only, so it ends.
#[verifier::external_body]
pub(crate) fn distances(f: &Lattice, reverse: bool) -> (r: Vec<u32>)
    requires
        arcs_in_range(fst_states(*f)),
        arcs_ascend(fst_states(*f)),
        start_in_range(fst_states(*f), fst_start(*f)),
    ensures
        r@.len() <= fst_states(*f).len(),
{
    shortest_distance(&f.fst, reverse).unwrap().iter().map(|w| w.value().to_bits()).collect()
}

/// A transducer over the tropical semiring: a G2P model, a word graph or what
/// is computed from them. Kept in rustfst's `VectorFst`.
#[verifier::external_body]
pub struct Transducer {
    fst: VectorFst<TropicalWeight>,
}

/// A transducer arc: input label, output label, weight (see `weight`) and destination.
pub type TropicalArc = (u32, u32, u32, u32);

/// A transducer state: its outgoing arcs in order and its final weight, if final.
pub type TropicalState = (Seq<TropicalArc>, Option<u32>);

/// What a transducer holds: its states in order of their ids.
pub uninterp spec fn transducer_states(t: Transducer) -> Seq<TropicalState>;

/// The start state of a transducer, if it has one.
pub uninterp spec fn transducer_start(t: Transducer) -> Option<u32>;

/// The property bits that a transducer has recorded about itself.
pub uninterp spec fn transducer_props(t: Transducer) -> u64;

/// The property bits that `weight_convert` records on the transducer it makes
/// from a lattice with these bits, states and start.
pub uninterp spec fn converted_props(props: u64, states: Seq<StateModel>, start: Option<u32>) -> u64;

/// The input and output symbol tables that a transducer carries, if any.
pub uninterp spec fn transducer_tables(t: Transducer) -> (Option<Seq<Seq<char>>>, Option<Seq<Seq<char>>>);

/// Result of rustfst's `SerializableFst::load`: the states, start and symbol
/// tables of the transducer that the bytes hold, if they parse.
pub uninterp spec fn parsed_transducer(bytes: Seq<u8>) -> Option<
    (Seq<TropicalState>, Option<u32>, (Option<Seq<Seq<char>>>, Option<Seq<Seq<char>>>)),
>;

/// Result of rustfst's `tr_sort` by input label: the states with their arcs in
/// order of input label.
pub uninterp spec fn input_sorted(states: Seq<TropicalState>) -> Seq<TropicalState>;

/// Result of rustfst's `compose` of a word graph with a model: whether it
/// succeeds (it fails, for one, when the model's arcs are not sorted for its
/// matcher), and the states, start and property bits of the composition.
pub uninterp spec fn composed_of(
    w_states: Seq<TropicalState>,
    w_start: Option<u32>,
    w_props: u64,
    m_states: Seq<TropicalState>,
    m_start: Option<u32>,
    m_props: u64,
) -> (bool, Seq<TropicalState>, Option<u32>, u64);

/// Result of rustfst's `shortest_path`: the states and start of the transducer
/// that holds the single lowest-cost path (among equal costs, the one that the
/// queue selected by the property bits reaches first).
pub uninterp spec fn shortest_of(states: Seq<TropicalState>, start: Option<u32>, props: u64) -> (Seq<TropicalState>, Option<u32>);

/// Result of rustfst's `decode_linear_fst`: input labels, output labels and weight
/// of the path of a linear transducer (the weight up to the pattern of a NaN).
pub uninterp spec fn decoded_of(states: Seq<TropicalState>, start: Option<u32>) -> (Seq<u32>, Seq<u32>, u32);

/// Every transducer arc leads to a state of it, and the start is one of its states.
pub open spec fn t_well_formed(states: Seq<TropicalState>, start: Option<u32>) -> bool {
    &&& states.len() <= u32::MAX
    &&& forall|q: int, x: int| 0 <= q < states.len() && 0 <= x < states[q].0.len() ==> (#[trigger] states[q].0[x]).3 < states.len()
    &&& (start is None || (start->Some_0 as int) < states.len())
}

/// Every transducer arc leads to a state of higher id.
pub open spec fn t_ascend(states: Seq<TropicalState>) -> bool {
    forall|q: int, x: int| 0 <= q < states.len() && 0 <= x < states[q].0.len() ==> (#[trigger] states[q].0[x]).3 > q
}

/// A weight pattern that is neither negative nor NaN (positive infinity included).
pub open spec fn non_negative(w: u32) -> bool {
    w <= 0x7f80_0000u32
}

/// Every arc weight is neither negative nor NaN.
pub open spec fn t_non_negative(states: Seq<TropicalState>) -> bool {
    forall|q: int, x: int| 0 <= q < states.len() && 0 <= x < states[q].0.len() ==> non_negative((#[trigger] states[q].0[x]).2)
}

/// No arc weight and no final weight is NaN.
pub open spec fn t_no_nan(states: Seq<TropicalState>) -> bool {
    &&& forall|q: int, x: int| 0 <= q < states.len() && 0 <= x < states[q].0.len() ==> !is_nan_bits((#[trigger] states[q].0[x]).2)
    &&& forall|q: int| 0 <= q < states.len() && (#[trigger] states[q]).1 is Some ==> !is_nan_bits(states[q].1->Some_0)
}

/// Every arc of `res` carries the labels of some arc of `inp`.
pub open spec fn t_labels_from(res: Seq<TropicalState>, inp: Seq<TropicalState>) -> bool {
    forall|q: int, x: int|
        0 <= q < res.len() && 0 <= x < res[q].0.len() ==> exists|p: int, y: int|
            0 <= p < inp.len() && 0 <= y < inp[p].0.len() && (#[trigger] inp[p].0[y]).0 == (#[trigger] res[q].0[x]).0
                && inp[p].0[y].1 == res[q].0[x].1
}

/// Every label of `labels` is the input label (or, with `output`, the output
/// label) of some arc of `states`.
pub open spec fn labels_on_arcs(labels: Seq<u32>, states: Seq<TropicalState>, output: bool) -> bool {
    forall|t: int|
        0 <= t < labels.len() ==> exists|q: int, x: int|
            0 <= q < states.len() && 0 <= x < states[q].0.len() && #[trigger] labels[t] == (if output {
                (#[trigger] states[q].0[x]).1
            } else {
                states[q].0[x].0
            })
}

/// A single chain, as `shortest_path` builds it: every state has at most one arc,
/// which leads to the state just below it; only state 0 may be final; the start
/// is a state of it.
pub open spec fn is_chain(states: Seq<TropicalState>, start: Option<u32>) -> bool {
    &&& forall|q: int| 0 <= q < states.len() ==> (#[trigger] states[q]).0.len() <= 1
    &&& forall|q: int| 0 < q < states.len() ==> (#[trigger] states[q]).1 is None
    &&& forall|q: int, x: int| 0 <= q < states.len() && 0 <= x < states[q].0.len() ==> (#[trigger] states[q].0[x]).3 + 1 == q
    &&& (start is None || (start->Some_0 as int) < states.len())
}

/// The lattice read in the tropical semiring: the same states, arcs, weights and
/// final weights, each acceptor arc with its label on both sides.
pub open spec fn tropical_of(states: Seq<StateModel>) -> Seq<TropicalState> {
    Seq::new(
        states.len(),
        |q: int| (states[q].0.map_values(|a: ArcModel| (a.0, a.0, a.1, a.2)), states[q].1),
    )
}

/// The linear acceptor of `labels`: state `t` has a single arc of weight one,
/// labelled `labels[t]`, to state `t + 1`; the last state is final with weight one.
pub open spec fn linear_states(labels: Seq<u32>) -> Seq<TropicalState> {
    Seq::new(
        labels.len() + 1,
        |t: int|
            if t < labels.len() {
                (seq![(labels[t], labels[t], 0u32, (t + 1) as u32)], None::<u32>)
            } else {
                (Seq::<TropicalArc>::empty(), Some(0u32))
            },
    )
}

/// Relies on `weight_convert` with `SimpleWeightConverter`: the same states, arcs
/// and final weights with each value carried over unchanged, or nothing at all
/// when the lattice has no start.
#[verifier::external_body]
pub(crate) fn to_tropical(l: &Lattice) -> (r: Transducer)
    ensures
        fst_start(*l) is Some ==> transducer_states(r) == tropical_of(fst_states(*l)),
        fst_start(*l) is None ==> transducer_states(r) == Seq::<TropicalState>::empty(),
        transducer_start(r) == fst_start(*l),
        transducer_props(r) == converted_props(fst_props(*l), fst_states(*l), fst_start(*l)),
{
    Transducer { fst: weight_convert(&l.fst, &mut SimpleWeightConverter {}).unwrap() }
}

/// Relies on `SerializableFst::load`: reads a transducer in rustfst's binary
/// format; its result depends on the bytes alone.
#[verifier::external_body]
pub(crate) fn load_transducer(bytes: &Vec<u8>) -> (r: Result<Transducer, String>)
    ensures
        r is Ok <==> parsed_transducer(bytes@) is Some,
        r is Ok ==> parsed_transducer(bytes@) == Some(
            (transducer_states(r->Ok_0), transducer_start(r->Ok_0), transducer_tables(r->Ok_0)),
        ),
{
    VectorFst::load(bytes.as_slice()).map(|fst| Transducer { fst }).map_err(|e| e.to_string())
}

/// Relies on `SerializableFst::store`: writes a transducer in rustfst's binary
/// format into memory, where no write fails.
#[verifier::external_body]
pub(crate) fn store_transducer(t: &Transducer) -> (r: Vec<u8>) {
    let mut out: Vec<u8> = Vec::new();
    t.fst.store(&mut out).unwrap();
    out
}

/// Relies on `Fst::input_symbols`: a copy of the input symbol table, if any; a
/// symbol table never holds a string twice.
#[verifier::external_body]
pub(crate) fn input_symbols(t: &Transducer) -> (r: Option<SymbolTable>)
    ensures
        r is Some <==> transducer_tables(*t).0 is Some,
        r is Some ==> symbol_list(r->Some_0) == transducer_tables(*t).0->Some_0,
        r is Some ==> symbol_list(r->Some_0).no_duplicates(),
{
    t.fst.input_symbols().map(|s| (**s).clone())
}

/// Relies on `Fst::output_symbols`: a copy of the output symbol table, if any; a
/// symbol table never holds a string twice.
#[verifier::external_body]
pub(crate) fn output_symbols(t: &Transducer) -> (r: Option<SymbolTable>)
    ensures
        r is Some <==> transducer_tables(*t).1 is Some,
        r is Some ==> symbol_list(r->Some_0) == transducer_tables(*t).1->Some_0,
        r is Some ==> symbol_list(r->Some_0).no_duplicates(),
{
    t.fst.output_symbols().map(|s| (**s).clone())
}

/// Relies on `tr_sort` with `ILabelCompare`: the arcs of each state are put in
/// order of input label; start and symbol tables stay.
#[verifier::external_body]
pub(crate) fn sort_by_input(t: &mut Transducer)
    ensures
        transducer_states(*final(t)) == input_sorted(transducer_states(*old(t))),
        transducer_start(*final(t)) == transducer_start(*old(t)),
        transducer_tables(*final(t)) == transducer_tables(*old(t)),
{
    tr_sort(&mut t.fst, ILabelCompare {})
}

/// Relies on `Fst::set_input_symbols` and `Fst::set_output_symbols`: the table
/// is attached on both sides; states, start and property bits stay.
#[verifier::external_body]
pub(crate) fn attach_symbols(t: &mut Transducer, syms: &SymbolTable)
    ensures
        transducer_states(*final(t)) == transducer_states(*old(t)),
        transducer_start(*final(t)) == transducer_start(*old(t)),
        transducer_props(*final(t)) == transducer_props(*old(t)),
        transducer_tables(*final(t)) == (Some(symbol_list(*syms)), Some(symbol_list(*syms))),
{
    let shared = std::sync::Arc::new(syms.clone());
    t.fst.set_input_symbols(shared.clone());
    t.fst.set_output_symbols(shared);
}

/// Relies on `ExpandedFst::num_states`.
#[verifier::external_body]
pub(crate) fn transducer_size(t: &Transducer) -> (r: usize)
    ensures
        r == transducer_states(*t).len(),
{
    t.fst.num_states()
}

/// Relies on `CoreFst::start`.
#[verifier::external_body]
pub(crate) fn transducer_start_state(t: &Transducer) -> (r: Option<u32>)
    ensures
        r == transducer_start(*t),
{
    t.fst.start()
}

/// Relies on `CoreFst::final_weight`: the final weight of `q`, if it is final.
#[verifier::external_body]
pub(crate) fn transducer_final(t: &Transducer, q: u32) -> (r: Option<u32>)
    requires
        (q as int) < transducer_states(*t).len(),
    ensures
        r == transducer_states(*t)[q as int].1,
{
    t.fst.final_weight(q).unwrap().map(|w| w.value().to_bits())
}

/// Relies on `CoreFst::get_trs`: the arcs of `q`, each as input label, output
/// label, weight and destination.
#[verifier::external_body]
pub(crate) fn transducer_arcs(t: &Transducer, q: u32) -> (r: Vec<TropicalArc>)
    requires
        (q as int) < transducer_states(*t).len(),
    ensures
        r@ == transducer_states(*t)[q as int].0,
{
    t.fst.get_trs(q).unwrap().trs().iter().map(|a| (a.ilabel, a.olabel, a.weight.value().to_bits(), a.nextstate)).collect()
}

/// Relies on `acceptor`: the linear acceptor of the labels, every weight one.
#[verifier::external_body]
pub(crate) fn linear_acceptor(labels: &Vec<u32>) -> (r: Transducer)
    requires
        labels.len() < u32::MAX,
    ensures
        transducer_states(r) == linear_states(labels@),
        transducer_start(r) == Some(0u32),
{
    Transducer { fst: acceptor(labels.as_slice(), TropicalWeight::one()) }
}

/// Relies on `VectorFst::new`: a transducer with no state and no start.
#[verifier::external_body]
pub(crate) fn empty_transducer() -> (r: Transducer)
    ensures
        transducer_states(r) == Seq::<TropicalState>::empty(),
        transducer_start(r) is None,
{
    Transducer { fst: VectorFst::new() }
}

/// Relies on `compose`: the composition of the word graph with the model. Its
/// success depends on the two transducers alone; its weights are float sums,
/// exact unless a weight is NaN, so the result is stated for NaN-free inputs.
#[verifier::external_body]
pub(crate) fn compose_with(word: &Transducer, model: &Transducer) -> (r: Result<Transducer, String>)
    requires
        t_well_formed(transducer_states(*word), transducer_start(*word)),
        t_well_formed(transducer_states(*model), transducer_start(*model)),
    ensures
        r is Ok <==> composed_of(
            transducer_states(*word),
            transducer_start(*word),
            transducer_props(*word),
            transducer_states(*model),
            transducer_start(*model),
            transducer_props(*model),
        ).0,
        r is Ok && t_no_nan(transducer_states(*word)) && t_no_nan(transducer_states(*model)) ==> (transducer_states(r->Ok_0), transducer_start(r->Ok_0), transducer_props(r->Ok_0)) == (
            composed_of(
            transducer_states(*word),
            transducer_start(*word),
            transducer_props(*word),
            transducer_states(*model),
            transducer_start(*model),
            transducer_props(*model),
        ).1,
            composed_of(
            transducer_states(*word),
            transducer_start(*word),
            transducer_props(*word),
            transducer_states(*model),
            transducer_start(*model),
            transducer_props(*model),
        ).2,
            composed_of(
            transducer_states(*word),
            transducer_start(*word),
            transducer_props(*word),
            transducer_states(*model),
            transducer_start(*model),
            transducer_props(*model),
        ).3,
        ),
{
    compose::<TropicalWeight, VectorFst<TropicalWeight>, VectorFst<TropicalWeight>, _, _, _>(word.fst.clone(), &model.fst)
        .map(|fst| Transducer { fst })
        .map_err(|e| e.to_string())
}

/// Relies on `shortest_path`: the single lowest-cost path, as the chain that it
/// builds back from the best final state, each arc a copy of an input arc. With arcs inside the transducer and
/// either no cycle or no negative or NaN weight, every relaxation lowers a
/// distance, so it ends, and no step of it fails in the tropical semiring.
#[verifier::external_body]
pub(crate) fn shortest(t: &Transducer) -> (r: Transducer)
    requires
        t_well_formed(transducer_states(*t), transducer_start(*t)),
        t_ascend(transducer_states(*t)) || t_non_negative(transducer_states(*t)),
    ensures
        (transducer_states(r), transducer_start(r)) == shortest_of(
            transducer_states(*t),
            transducer_start(*t),
            transducer_props(*t),
        ),
        is_chain(transducer_states(r), transducer_start(r)),
        t_labels_from(transducer_states(r), transducer_states(*t)),
{
    Transducer { fst: shortest_path(&t.fst).unwrap() }
}

/// Relies on `decode_linear_fst`: the input labels, output labels and weight of
/// the path of a chain (a chain has at most one path, so this does not fail);
/// each label is a non-epsilon label of an arc on that path.
#[verifier::external_body]
pub(crate) fn decode(t: &Transducer) -> (r: (Vec<u32>, Vec<u32>, u32))
    requires
        is_chain(transducer_states(*t), transducer_start(*t)),
    ensures
        r.0@ == decoded_of(transducer_states(*t), transducer_start(*t)).0,
        r.1@ == decoded_of(transducer_states(*t), transducer_start(*t)).1,
        same_weight(r.2, decoded_of(transducer_states(*t), transducer_start(*t)).2),
        labels_on_arcs(r.0@, transducer_states(*t), false),
        labels_on_arcs(r.1@, transducer_states(*t), true),
{
    let p = decode_linear_fst(&t.fst).unwrap();
    (p.ilabels, p.olabels, p.weight.value().to_bits())
}

} // verus!
