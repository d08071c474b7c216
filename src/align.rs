//! The EM aligner: one lattice per training pair, a shared symbol table, and the
//! alignment model that expectation and maximization steps refine.
use crate::dict::{entry_fields, fields, parse_entry};
use crate::fst::{
    arc_labels, arcs_ascend, arcs_in_range, arcs_of, start_in_range, t_ascend, t_well_formed, converted_props,
    decode, decoded_of, transducer_states, distances, fst_props, fst_start,
    fst_states,
    num_states, set_arc_weight, shortest, shortest_of, to_tropical, trim, tropical_of, connected, connected_start,
    ArcModel, Lattice,
    StateModel, TropicalState,
};
use crate::lattice::{
    build_lattice, extends, grid_has_path, grid_size, is_grid_lattice, join, join_chunk, lemma_grid_lattice,
    lemma_shorter_input_infeasible, lemma_shorter_output_infeasible, lemma_state_count, make_token, views,
    AlignError, Config,
};
use crate::model::{cleared, count_added, normalized, plus_result, AlignmentModel};
use crate::symbols::{add_symbol, empty_table, get_label, get_symbol, label_in, symbol_list, table_len, with_symbol};
use crate::weight::{
    abs_bits, divide, divide_of, is_finite, is_finite_bits, lemma_divide_same, lemma_times_same, same_weight, times,
    times_of, WEIGHT_ZERO,
};
use rustfst::SymbolTable;
use vstd::prelude::*;

verus! {

/// The text of a digit.
pub open spec fn digit_text(d: int) -> Seq<char> {
    "0123456789"@.subrange(d, d + 1)
}

/// Decimal text of a natural number.
pub open spec fn decimal(n: nat) -> Seq<char>
    decreases n,
{
    if n < 10 {
        digit_text(n as int)
    } else {
        decimal(n / 10) + digit_text((n % 10) as int)
    }
}

/// Text of a boolean.
pub open spec fn bool_text(b: bool) -> Seq<char> {
    if b { "true"@ } else { "false"@ }
}

/// The book-keeping symbol that records the lattice shape options.
pub open spec fn config_tag(c: Config) -> Seq<char> {
    bool_text(c.seq1_del) + "_"@ + bool_text(c.seq2_del) + "_"@ + decimal(c.seq1_max as nat) + "_"@ + decimal(
        c.seq2_max as nat,
    )
}

/// The symbols a new aligner starts with: epsilon (label 0), skip (label 1) and
/// three book-keeping strings (the two chunk joiners around the skip string, the
/// token separator, and the lattice shape options), each added unless already there.
pub open spec fn reserved_symbols(c: Config) -> Seq<Seq<char>> {
    with_symbol(
        with_symbol(
            with_symbol(
                with_symbol(with_symbol(Seq::empty(), c.eps@), c.skip@),
                c.seq1_sep@ + "_"@ + c.seq2_sep@,
            ),
            c.s1s2_sep@,
        ),
        config_tag(c),
    )
}

/// A lattice as the aligner sees it: its states, its start and its property bits.
pub type LatticeModel = (Seq<StateModel>, Option<u32>, u64);

/// Value of a potential vector at `q`; states past its end are at semiring zero.
pub open spec fn potential(d: Seq<u32>, q: int) -> u32 {
    if 0 <= q < d.len() { d[q] } else { WEIGHT_ZERO }
}

/// Expected count of an arc leaving `q`: `alpha[q] * w * beta[next] / beta[0]`
/// (every NaN taken as one).
pub open spec fn gamma(alpha: Seq<u32>, beta: Seq<u32>, q: int, a: ArcModel) -> u32 {
    divide_of(times_of(times_of(potential(alpha, q), a.1), potential(beta, a.2 as int)), potential(beta, 0))
}

/// Partial counts and their total.
pub type Counts = (Map<u32, u32>, u32);

/// `acc2` is `acc` with `w` added into the count of `label` and into the total.
pub open spec fn counts_added(acc: Counts, label: u32, w: u32, acc2: Counts) -> bool {
    count_added(acc.0, label, w, acc2.0) && plus_result(acc.1, w, acc2.1)
}

/// `acc2` is `acc` with `g` added into the count of `label` and into the total,
/// or `acc` itself when `g` is not finite.
pub open spec fn gamma_added(acc: Counts, label: u32, g: u32, acc2: Counts) -> bool {
    if !is_finite_bits(g) {
        acc2 == acc
    } else {
        counts_added(acc, label, g, acc2)
    }
}

/// `tr` runs through the counts while the expected counts of the arcs of state
/// `q` are added in order, under potentials `alpha` and `beta`.
pub open spec fn arcs_trace(tr: Seq<Counts>, arcs: Seq<ArcModel>, alpha: Seq<u32>, beta: Seq<u32>, q: int) -> bool {
    &&& tr.len() == arcs.len() + 1
    &&& forall|i: int|
        0 <= i < arcs.len() ==> gamma_added(#[trigger] tr[i], arcs[i].0, gamma(alpha, beta, q, arcs[i]), tr[i + 1])
}

/// `acc2` is reached from `acc` by adding the expected counts of the arcs of
/// state `q`, in order.
pub open spec fn arcs_counts(acc: Counts, arcs: Seq<ArcModel>, alpha: Seq<u32>, beta: Seq<u32>, q: int, acc2: Counts) -> bool {
    exists|tr: Seq<Counts>| #[trigger] arcs_trace(tr, arcs, alpha, beta, q) && tr[0] == acc && tr.last() == acc2
}

/// `tr` runs through the counts state by state, over the first `tr.len() - 1` states.
pub open spec fn states_trace(tr: Seq<Counts>, states: Seq<StateModel>, alpha: Seq<u32>, beta: Seq<u32>) -> bool {
    forall|i: int|
        0 <= i < tr.len() - 1 ==> arcs_counts(#[trigger] tr[i], states[i].0, alpha, beta, i, tr[i + 1])
}

/// `acc2` is reached from `acc` by adding the expected counts of the arcs of the
/// first `n` states, in order.
pub open spec fn states_counts(acc: Counts, states: Seq<StateModel>, alpha: Seq<u32>, beta: Seq<u32>, n: int, acc2: Counts) -> bool {
    exists|tr: Seq<Counts>|
        #[trigger] states_trace(tr, states, alpha, beta) && tr.len() == n + 1 && tr[0] == acc && tr.last() == acc2
}

/// `tr` runs through the counts lattice by lattice.
pub open spec fn corpus_trace(tr: Seq<Counts>, lats: Seq<LatticeModel>, pots: Seq<(Seq<u32>, Seq<u32>)>) -> bool {
    &&& tr.len() == lats.len() + 1
    &&& forall|k: int|
        0 <= k < lats.len() ==> states_counts(
            #[trigger] tr[k],
            lats[k].0,
            pots[k].0,
            pots[k].1,
            lats[k].0.len() as int,
            tr[k + 1],
        )
}

/// `acc2` is what an E-step gathers from `acc` over the lattices in order, the
/// lattice `k` under the forward and backward potentials `pots[k]`.
pub open spec fn corpus_counts(acc: Counts, lats: Seq<LatticeModel>, pots: Seq<(Seq<u32>, Seq<u32>)>, acc2: Counts) -> bool {
    exists|tr: Seq<Counts>| #[trigger] corpus_trace(tr, lats, pots) && tr[0] == acc && tr.last() == acc2
}

/// The lattice with every arc weight replaced by the estimate of its label.
pub open spec fn reweighted(states: Seq<StateModel>, est: Map<u32, u32>) -> Seq<StateModel> {
    Seq::new(
        states.len(),
        |q: int|
            (
                Seq::new(
                    states[q].0.len(),
                    |x: int| (states[q].0[x].0, est[states[q].0[x].0], states[q].0[x].2),
                ),
                states[q].1,
            ),
    )
}

/// `tr` runs through the counts while the arc weights are added in order.
pub open spec fn seed_arcs_trace(tr: Seq<Counts>, arcs: Seq<ArcModel>) -> bool {
    &&& tr.len() == arcs.len() + 1
    &&& forall|i: int| 0 <= i < arcs.len() ==> counts_added(#[trigger] tr[i], arcs[i].0, arcs[i].1, tr[i + 1])
}

/// `acc2` is reached from `acc` by adding each arc weight, in order, into the
/// count of its label and into the total.
pub open spec fn seed_arcs(acc: Counts, arcs: Seq<ArcModel>, acc2: Counts) -> bool {
    exists|tr: Seq<Counts>| #[trigger] seed_arcs_trace(tr, arcs) && tr[0] == acc && tr.last() == acc2
}

/// `tr` runs through the counts state by state while seeding.
pub open spec fn seed_states_trace(tr: Seq<Counts>, states: Seq<StateModel>) -> bool {
    forall|i: int| 0 <= i < tr.len() - 1 ==> seed_arcs(#[trigger] tr[i], states[i].0, tr[i + 1])
}

/// `acc2` is reached from `acc` by seeding with the arcs of the first `n` states.
pub open spec fn seed_states(acc: Counts, states: Seq<StateModel>, n: int, acc2: Counts) -> bool {
    exists|tr: Seq<Counts>|
        #[trigger] seed_states_trace(tr, states) && tr.len() == n + 1 && tr[0] == acc && tr.last() == acc2
}

proof fn lemma_arcs_trace_push(tr: Seq<Counts>, arcs: Seq<ArcModel>, alpha: Seq<u32>, beta: Seq<u32>, q: int, x: int, next: Counts)
    requires
        0 <= x < arcs.len(),
        arcs_trace(tr, arcs.take(x), alpha, beta, q),
        gamma_added(tr.last(), arcs[x].0, gamma(alpha, beta, q, arcs[x]), next),
    ensures
        arcs_trace(tr.push(next), arcs.take(x + 1), alpha, beta, q),
{
    let t2 = tr.push(next);
    let a2 = arcs.take(x + 1);
    assert forall|i: int| 0 <= i < a2.len() implies gamma_added(#[trigger] t2[i], a2[i].0, gamma(alpha, beta, q, a2[i]), t2[i + 1]) by {
        if i < x {
            assert(t2[i] == tr[i] && t2[i + 1] == tr[i + 1] && a2[i] == arcs.take(x)[i]);
        } else {
            assert(t2[i] == tr.last() && t2[i + 1] == next && a2[i] == arcs[x]);
        }
    }
}

proof fn lemma_states_trace_push(tr: Seq<Counts>, states: Seq<StateModel>, alpha: Seq<u32>, beta: Seq<u32>, next: Counts)
    requires
        tr.len() >= 1,
        states_trace(tr, states, alpha, beta),
        arcs_counts(tr.last(), states[tr.len() - 1].0, alpha, beta, tr.len() - 1, next),
    ensures
        states_trace(tr.push(next), states, alpha, beta),
{
    let t2 = tr.push(next);
    assert forall|i: int| 0 <= i < t2.len() - 1 implies arcs_counts(#[trigger] t2[i], states[i].0, alpha, beta, i, t2[i + 1]) by {
        if i < tr.len() - 1 {
            assert(t2[i] == tr[i] && t2[i + 1] == tr[i + 1]);
        } else {
            assert(t2[i] == tr.last() && t2[i + 1] == next);
        }
    }
}

proof fn lemma_corpus_trace_push(tr: Seq<Counts>, lats: Seq<LatticeModel>, pots: Seq<(Seq<u32>, Seq<u32>)>, k: int, lat: LatticeModel, pot: (Seq<u32>, Seq<u32>), next: Counts)
    requires
        corpus_trace(tr, lats.take(k), pots),
        0 <= k < lats.len(),
        pots.len() == k,
        lat == lats[k],
        states_counts(tr.last(), lat.0, pot.0, pot.1, lat.0.len() as int, next),
    ensures
        corpus_trace(tr.push(next), lats.take(k + 1), pots.push(pot)),
{
    let t2 = tr.push(next);
    let l2 = lats.take(k + 1);
    let p2 = pots.push(pot);
    assert forall|j: int| 0 <= j < l2.len() implies states_counts(#[trigger] t2[j], l2[j].0, p2[j].0, p2[j].1, l2[j].0.len() as int, t2[j + 1]) by {
        if j < k {
            assert(t2[j] == tr[j] && t2[j + 1] == tr[j + 1] && l2[j] == lats.take(k)[j] && p2[j] == pots[j]);
        } else {
            assert(t2[j] == tr.last() && t2[j + 1] == next && l2[j] == lat && p2[j] == pot);
        }
    }
}

proof fn lemma_seed_arcs_trace_push(tr: Seq<Counts>, arcs: Seq<ArcModel>, x: int, next: Counts)
    requires
        0 <= x < arcs.len(),
        seed_arcs_trace(tr, arcs.take(x)),
        counts_added(tr.last(), arcs[x].0, arcs[x].1, next),
    ensures
        seed_arcs_trace(tr.push(next), arcs.take(x + 1)),
{
    let t2 = tr.push(next);
    let a2 = arcs.take(x + 1);
    assert forall|i: int| 0 <= i < a2.len() implies counts_added(#[trigger] t2[i], a2[i].0, a2[i].1, t2[i + 1]) by {
        if i < x {
            assert(t2[i] == tr[i] && t2[i + 1] == tr[i + 1] && a2[i] == arcs.take(x)[i]);
        } else {
            assert(t2[i] == tr.last() && t2[i + 1] == next && a2[i] == arcs[x]);
        }
    }
}

proof fn lemma_seed_states_trace_push(tr: Seq<Counts>, states: Seq<StateModel>, next: Counts)
    requires
        tr.len() >= 1,
        seed_states_trace(tr, states),
        seed_arcs(tr.last(), states[tr.len() - 1].0, next),
    ensures
        seed_states_trace(tr.push(next), states),
{
    let t2 = tr.push(next);
    assert forall|i: int| 0 <= i < t2.len() - 1 implies seed_arcs(#[trigger] t2[i], states[i].0, t2[i + 1]) by {
        if i < tr.len() - 1 {
            assert(t2[i] == tr[i] && t2[i + 1] == tr[i + 1]);
        } else {
            assert(t2[i] == tr.last() && t2[i + 1] == next);
        }
    }
}

/// Two patterns for the same weight are finite together, and then equal.
proof fn lemma_same_weight_finite(a: u32, b: u32)
    requires
        same_weight(a, b),
    ensures
        is_finite_bits(a) == is_finite_bits(b),
        is_finite_bits(a) ==> a == b,
{
    if a != b {
        assert(!is_finite_bits(a) && !is_finite_bits(b)) by (bit_vector)
            requires (a & 0x7fff_ffffu32) > 0x7f80_0000u32, (b & 0x7fff_ffffu32) > 0x7f80_0000u32;
    }
}

/// The lattice read in the tropical semiring, as `to_tropical` gives it: states
/// and start.
pub open spec fn tropical_lattice(lat: LatticeModel) -> (Seq<TropicalState>, Option<u32>) {
    if lat.1 is Some {
        (tropical_of(lat.0), lat.1)
    } else {
        (Seq::empty(), None)
    }
}

/// Labels of the single best path of a lattice: its lowest-cost path in the
/// tropical semiring, decoded.
pub open spec fn best_labels(lat: LatticeModel) -> Seq<u32> {
    let t = tropical_lattice(lat);
    let p = shortest_of(t.0, t.1, converted_props(lat.2, lat.0, lat.1));
    decoded_of(p.0, p.1).0
}

/// Every label is below `n`, so it names a symbol of a table of `n` symbols.
pub open spec fn labels_named(labels: Seq<u32>, n: int) -> bool {
    forall|t: int| 0 <= t < labels.len() ==> (#[trigger] labels[t] as int) < n
}

/// The tropical reading of a lattice without cycles is a transducer without
/// cycles, with its arcs and start inside it.
proof fn lemma_tropical_well_formed(states: Seq<StateModel>, start: Option<u32>)
    requires
        arcs_in_range(states),
        arcs_ascend(states),
        start_in_range(states, start),
        states.len() <= u32::MAX,
    ensures
        t_well_formed(tropical_of(states), start),
        t_ascend(tropical_of(states)),
{
    let t = tropical_of(states);
    assert forall|q: int, x: int| 0 <= q < t.len() && 0 <= x < t[q].0.len() implies (#[trigger] t[q].0[x]).3 < t.len()
        && t[q].0[x].3 > q by {
        assert(t[q].0[x].3 == states[q].0[x].2);
    }
}

/// Lattices with the same states, start and property bits decode to the same
/// labels.
pub proof fn lemma_same_lattice_same_alignment(a: LatticeModel, b: LatticeModel)
    requires
        a.0 == b.0,
        a.1 == b.1,
        a.2 == b.2,
    ensures
        best_labels(a) == best_labels(b),
{
}

/// An alignment line: the symbols of the labels, space-separated.
pub open spec fn rendered(syms: Seq<Seq<char>>, labels: Seq<u32>) -> Seq<char> {
    join(labels.map_values(|l: u32| syms[l as int]), " "@)
}

/// Decimal text of a byte.
fn decimal_text(n: u8) -> (r: String)
    ensures
        r@ == decimal(n as nat),
{
    let digits = "0123456789";
    proof {
        reveal_strlit("0123456789");
        reveal_with_fuel(decimal, 3);
    }
    let ones = (n % 10) as usize;
    if n < 10 {
        String::from_str(digits.substring_char(ones, ones + 1))
    } else if n < 100 {
        let tens = (n / 10) as usize;
        let mut r = String::from_str(digits.substring_char(tens, tens + 1));
        r.append(digits.substring_char(ones, ones + 1));
        r
    } else {
        let hundreds = (n / 100) as usize;
        let tens = ((n / 10) % 10) as usize;
        let mut r = String::from_str(digits.substring_char(hundreds, hundreds + 1));
        r.append(digits.substring_char(tens, tens + 1));
        r.append(digits.substring_char(ones, ones + 1));
        proof {
            assert((n / 10) as nat / 10 == n / 100);
            assert(decimal((n / 10) as nat) == decimal((n / 100) as nat) + digit_text(((n / 10) % 10) as int));
        }
        r
    }
}

/// Text of a boolean.
fn bool_string(b: bool) -> (r: &'static str)
    ensures
        r@ == bool_text(b),
{
    if b { "true" } else { "false" }
}

/// The book-keeping symbol that records the lattice shape options.
fn config_tag_text(c: &Config) -> (r: String)
    ensures
        r@ == config_tag(*c),
{
    let mut r = String::from_str(bool_string(c.seq1_del));
    r.append("_");
    r.append(bool_string(c.seq2_del));
    r.append("_");
    let a = decimal_text(c.seq1_max);
    r.append(a.as_str());
    r.append("_");
    let b = decimal_text(c.seq2_max);
    r.append(b.as_str());
    r
}

/// The tokens of `v` joined with `sep`.
fn join_all(v: &Vec<String>, sep: &str) -> (r: String)
    ensures
        r@ == join(views(v@), sep@),
{
    if v.len() == 0 {
        String::new()
    } else {
        proof {
            assert(views(v@).subrange(0, v.len() as int) =~= views(v@));
        }
        join_chunk(v, 0, v.len(), sep)
    }
}

/// How messages name a training pair: each side joined with its chunk joiner.
pub open spec fn entry_name(c: Config, s1: Seq<Seq<char>>, s2: Seq<Seq<char>>) -> Seq<char> {
    join(s1, c.seq1_sep@) + " to "@ + join(s2, c.seq2_sep@)
}

/// Names a training pair in messages.
fn describe(c: &Config, seq1: &Vec<String>, seq2: &Vec<String>) -> (r: String)
    ensures
        r@ == entry_name(*c, views(seq1@), views(seq2@)),
{
    let left = join_all(seq1, c.seq1_sep.as_str());
    let right = join_all(seq2, c.seq2_sep.as_str());
    make_token(left.as_str(), " to ", right.as_str())
}

/// Value of a potential vector at `q`, semiring zero past its end.
fn potential_at(d: &Vec<u32>, q: usize) -> (r: u32)
    ensures
        r == potential(d@, q as int),
{
    if q < d.len() { d[q] } else { WEIGHT_ZERO }
}

/// E-step on one lattice: adds the expected count of each arc (if finite) into the
/// count of its label and into the total.
fn accumulate_lattice(model: &mut AlignmentModel, f: &Lattice, alpha: &Vec<u32>, beta: &Vec<u32>)
    requires
        arcs_in_range(fst_states(*f)),
        fst_states(*f).len() <= u32::MAX,
        arc_labels(fst_states(*f)).subset_of(old(model).accum@.dom()),
    ensures
        final(model).accum@.dom() == old(model).accum@.dom(),
        states_counts(
            (old(model).accum@, old(model).total),
            fst_states(*f),
            alpha@,
            beta@,
            fst_states(*f).len() as int,
            (final(model).accum@, final(model).total),
        ),
        final(model).estimate@ == old(model).estimate@,
        final(model).prev_total == old(model).prev_total,
{
    let ghost states = fst_states(*f);
    let ghost acc0: Counts = (model.accum@, model.total);
    let ghost mut str: Seq<Counts> = seq![acc0];
    let n = num_states(f);
    let b0 = potential_at(beta, 0);
    let mut q: usize = 0;
    while q < n
        invariant
            n == states.len(),
            n <= u32::MAX,
            states == fst_states(*f),
            q <= n,
            arcs_in_range(states),
            arc_labels(states).subset_of(old(model).accum@.dom()),
            model.accum@.dom() == old(model).accum@.dom(),
            b0 == potential(beta@, 0),
            states_trace(str, states, alpha@, beta@),
            str.len() == q + 1,
            str[0] == acc0,
            str.last() == (model.accum@, model.total),
            model.estimate@ == old(model).estimate@,
            model.prev_total == old(model).prev_total,
        decreases n - q,
    {
        let arcs = arcs_of(f, q as u32);
        let ghost before: Counts = (model.accum@, model.total);
        let ghost mut atr: Seq<Counts> = seq![before];
        let pa = potential_at(alpha, q);
        let mut x: usize = 0;
        while x < arcs.len()
            invariant
                n == states.len(),
                states == fst_states(*f),
                q < n,
                arcs@ == states[q as int].0,
                x <= arcs.len(),
                arc_labels(states).subset_of(old(model).accum@.dom()),
                model.accum@.dom() == old(model).accum@.dom(),
                b0 == potential(beta@, 0),
                pa == potential(alpha@, q as int),
                states_trace(str, states, alpha@, beta@),
                str.len() == q + 1,
                str[0] == acc0,
                str.last() == before,
                arcs_trace(atr, arcs@.take(x as int), alpha@, beta@, q as int),
                atr[0] == before,
                atr.last() == (model.accum@, model.total),
                model.estimate@ == old(model).estimate@,
                model.prev_total == old(model).prev_total,
            decreases arcs.len() - x,
        {
            let a = arcs[x];
            proof {
                assert(arc_labels(states).contains(states[q as int].0[x as int].0));
                assert(arcs@.take(x + 1).drop_last() =~= arcs@.take(x as int));
            }
            let pb = potential_at(beta, a.2 as usize);
            let t1 = times(pa, a.1);
            let t2 = times(t1, pb);
            let g = divide(t2, b0);
            let ghost cur: Counts = (model.accum@, model.total);
            proof {
                let s1 = times_of(pa, a.1);
                let s2 = times_of(s1, pb);
                lemma_times_same(t1, s1, pb, pb);
                assert(same_weight(t2, s2));
                lemma_divide_same(t2, s2, b0, b0);
                assert(same_weight(g, gamma(alpha@, beta@, q as int, a)));
                lemma_same_weight_finite(g, gamma(alpha@, beta@, q as int, a));
                assert(arcs@.take(x + 1).last() == a);
            }
            if is_finite(g) {
                model.accumulate(a.0, g);
                proof {
                    assert(model.accum@.dom() =~= old(model).accum@.dom());
                }
            }
            proof {
                assert(gamma_added(cur, a.0, gamma(alpha@, beta@, q as int, a), (model.accum@, model.total)));
                assert(arcs@[x as int] == a);
                lemma_arcs_trace_push(atr, arcs@, alpha@, beta@, q as int, x as int, (model.accum@, model.total));
                atr = atr.push((model.accum@, model.total));
            }
            x = x + 1;
        }
        proof {
            assert(arcs@.take(x as int) =~= arcs@);
            assert(arcs_trace(atr, states[q as int].0, alpha@, beta@, q as int));
            assert(arcs_counts(before, states[q as int].0, alpha@, beta@, q as int, (model.accum@, model.total)));
            lemma_states_trace_push(str, states, alpha@, beta@, (model.accum@, model.total));
            str = str.push((model.accum@, model.total));
        }
        q = q + 1;
    }
    proof {
        assert(states_trace(str, states, alpha@, beta@));
    }
}

/// Sets every arc weight of the lattice to the estimate of its label.
fn reweight(f: &mut Lattice, model: &AlignmentModel)
    requires
        arc_labels(fst_states(*old(f))).subset_of(model.estimate@.dom()),
        fst_states(*old(f)).len() <= u32::MAX,
    ensures
        fst_states(*final(f)) == reweighted(fst_states(*old(f)), model.estimate@),
        fst_start(*final(f)) == fst_start(*old(f)),
{
    let ghost states = fst_states(*f);
    let ghost est = model.estimate@;
    let n = num_states(f);
    let mut q: usize = 0;
    while q < n
        invariant
            n == states.len(),
            n <= u32::MAX,
            q <= n,
            est == model.estimate@,
            arc_labels(states).subset_of(est.dom()),
            fst_start(*f) == fst_start(*old(f)),
            states == fst_states(*old(f)),
            fst_states(*f).len() == n,
            forall|p: int| 0 <= p < q ==> #[trigger] fst_states(*f)[p] == reweighted(states, est)[p],
            forall|p: int| q <= p < n ==> #[trigger] fst_states(*f)[p] == states[p],
        decreases n - q,
    {
        let arcs = arcs_of(f, q as u32);
        let mut idx: usize = 0;
        while idx < arcs.len()
            invariant
                n == states.len(),
                n <= u32::MAX,
                q < n,
                est == model.estimate@,
                arcs@ == states[q as int].0,
                idx <= arcs.len(),
                arc_labels(states).subset_of(est.dom()),
                fst_start(*f) == fst_start(*old(f)),
                states == fst_states(*old(f)),
                fst_states(*f).len() == n,
                forall|p: int| 0 <= p < q ==> #[trigger] fst_states(*f)[p] == reweighted(states, est)[p],
                forall|p: int| q < p < n ==> #[trigger] fst_states(*f)[p] == states[p],
                fst_states(*f)[q as int].0.len() == arcs.len(),
                fst_states(*f)[q as int].1 == states[q as int].1,
                forall|y: int| 0 <= y < idx ==> #[trigger] fst_states(*f)[q as int].0[y] == (arcs@[y].0, est[arcs@[y].0], arcs@[y].2),
                forall|y: int| idx <= y < arcs.len() ==> #[trigger] fst_states(*f)[q as int].0[y] == arcs@[y],
            decreases arcs.len() - idx,
        {
            proof {
                assert(arc_labels(states).contains(states[q as int].0[idx as int].0));
            }
            match model.get(arcs[idx].0) {
                Some(w) => {
                    set_arc_weight(f, q as u32, idx, w);
                },
                None => {},
            }
            idx = idx + 1;
        }
        proof {
            assert(fst_states(*f)[q as int].0 =~= reweighted(states, est)[q as int].0);
        }
        q = q + 1;
    }
    proof {
        assert(fst_states(*f) =~= reweighted(states, est));
    }
}

/// Rewriting weights keeps arcs, destinations and labels.
proof fn lemma_reweighted(states: Seq<StateModel>, est: Map<u32, u32>)
    ensures
        arcs_in_range(states) ==> arcs_in_range(reweighted(states, est)),
        arcs_ascend(states) ==> arcs_ascend(reweighted(states, est)),
        reweighted(states, est).len() == states.len(),
        arc_labels(reweighted(states, est)) == arc_labels(states),
{
    let r = reweighted(states, est);
    assert forall|l: u32| arc_labels(r).contains(l) implies arc_labels(states).contains(l) by {
        let (q, x) = choose|q: int, x: int| 0 <= q < r.len() && 0 <= x < r[q].0.len() && #[trigger] r[q].0[x].0 == l;
        assert(states[q].0[x].0 == l);
    }
    assert forall|l: u32| arc_labels(states).contains(l) implies arc_labels(r).contains(l) by {
        let (q, x) = choose|q: int, x: int| 0 <= q < states.len() && 0 <= x < states[q].0.len() && #[trigger] states[q].0[x].0 == l;
        assert(r[q].0[x].0 == l);
    }
    assert(arc_labels(r) =~= arc_labels(states));
}

/// One alignment line: the symbols of the labels, space-separated.
fn render(syms: &SymbolTable, labels: &Vec<u32>) -> (r: Result<String, AlignError>)
    ensures
        r is Ok ==> r->Ok_0@ == rendered(symbol_list(*syms), labels@),
        r is Ok <==> labels_named(labels@, symbol_list(*syms).len() as int),
        r is Err ==> exists|t: int| 0 <= t < labels.len() && r == Err::<String, AlignError>(AlignError::MissingSymbol(labels@[t]))
            && labels@[t] as int >= symbol_list(*syms).len(),
{
    let ghost list = symbol_list(*syms);
    let mut r = String::new();
    let mut t: usize = 0;
    while t < labels.len()
        invariant
            t <= labels.len(),
            list == symbol_list(*syms),
            forall|y: int| 0 <= y < t ==> (#[trigger] labels@[y] as int) < list.len(),
            r@ == join(labels@.take(t as int).map_values(|l: u32| list[l as int]), " "@),
        decreases labels.len() - t,
    {
        let label = labels[t];
        match get_symbol(syms, label) {
            Some(sym) => {
                if t > 0 {
                    r.append(" ");
                }
                r.append(sym);
                proof {
                    let parts = labels@.take(t + 1).map_values(|l: u32| list[l as int]);
                    assert(parts.drop_last() =~= labels@.take(t as int).map_values(|l: u32| list[l as int]));
                    if t == 0 {
                        assert(r@ =~= parts[0]);
                    }
                }
            },
            None => {
                return Err(AlignError::MissingSymbol(label));
            },
        }
        t = t + 1;
    }
    proof {
        assert(labels@.take(t as int) =~= labels@);
    }
    Ok(r)
}

/// What adding the training pair `(s1, s2)` to aligner `a` gives: aligner `b`
/// and result `r`.
pub open spec fn entry_outcome(a: Aligner, s1: Seq<Seq<char>>, s2: Seq<Seq<char>>, b: Aligner, r: Result<(), AlignError>) -> bool {
    &&& (b.configuration() == a.configuration())
    &&& (extends(b.symbols(), a.symbols()))
    &&& (b.alignment_model().estimate@ == a.alignment_model().estimate@)
    &&& (b.alignment_model().prev_total == a.alignment_model().prev_total)
    &&& (s1.len() == 0 || s2.len() == 0 ==> r matches Err(AlignError::InfeasibleAlignment(_)))
    &&& (s1.len() > 0 && s2.len() > 0 && !(r matches Err(AlignError::SymbolOverflow)) ==> {
                &&& (r matches Err(AlignError::LatticeTooLarge) <==> grid_size(s1, s2) > u32::MAX)
                &&& (r is Ok <==> grid_size(s1, s2) <= u32::MAX && (
                    (a.configuration().seq1_del && a.configuration().seq2_del)
                    || grid_has_path(a.configuration(), s1, s2)))
            })
    &&& (r matches Err(AlignError::SymbolOverflow) ==> b.symbols().len() == u32::MAX)
    &&& (a.symbols().len() + grid_size(s1, s2) * 65535 <= u32::MAX ==> !(r matches Err(
                AlignError::SymbolOverflow,
            )))
    &&& (r is Err ==> (r->Err_0 is InfeasibleAlignment || r->Err_0 is SymbolOverflow || r->Err_0 is LatticeTooLarge))
    &&& (r matches Err(AlignError::InfeasibleAlignment(m)) ==> m@ == entry_name(
                a.configuration(),
                s1,
                s2,
            ))
    &&& (!(r matches Err(AlignError::SymbolOverflow)) ==> (r matches Err(AlignError::InfeasibleAlignment(_)) <==> (
            s1.len() == 0 || s2.len() == 0 || (grid_size(s1, s2) <= u32::MAX && !(
            a.configuration().seq1_del && a.configuration().seq2_del) && !grid_has_path(
                a.configuration(),
                s1,
                s2,
            )))))
    &&& (!a.configuration().seq1_del && a.configuration().seq2_max == 1 && s1.len() < s2.len()
                ==> r is Err)
    &&& (!a.configuration().seq2_del && a.configuration().seq1_max == 1 && s2.len() < s1.len()
                ==> r is Err)
    &&& (r is Err ==> b.lattices() == a.lattices() && b.alignment_model()
                == a.alignment_model())
    &&& (r is Ok ==> {
                &&& b.lattices().len() == a.lattices().len() + 1
                &&& b.lattices().drop_last() == a.lattices()
                &&& seed_states(
                    (a.alignment_model().accum@, a.alignment_model().total),
                    b.lattices().last().0,
                    b.lattices().last().0.len() as int,
                    (b.alignment_model().accum@, b.alignment_model().total),
                )
                &&& exists|pre: Seq<StateModel>|
                    #[trigger] is_grid_lattice(
                        pre,
                        Some(0u32),
                        a.configuration(),
                        s1,
                        s2,
                        b.symbols(),
                    ) && if a.configuration().seq1_del && a.configuration().seq2_del {
                        b.lattices().last().0 == pre && b.lattices().last().1 == Some(0u32)
                    } else {
                        b.lattices().last().0 == connected(pre, Some(0u32))
                            && b.lattices().last().1 == connected_start(pre, Some(0u32))
                    }
                &&& a.configuration().seq1_del && a.configuration().seq2_del ==> is_grid_lattice(
                    b.lattices().last().0,
                    b.lattices().last().1,
                    a.configuration(),
                    s1,
                    s2,
                    b.symbols(),
                )
            })
}

/// What an E-step leads from aligner `a` to: aligner `b`.
pub open spec fn e_step(a: Aligner, b: Aligner) -> bool {
    &&& (b.configuration() == a.configuration())
    &&& (b.symbols() == a.symbols())
    &&& (b.lattices() == a.lattices())
    &&& (b.alignment_model().estimate@ == a.alignment_model().estimate@)
    &&& (b.alignment_model().prev_total == a.alignment_model().prev_total)
    &&& (b.alignment_model().accum@.dom() == a.alignment_model().accum@.dom())
    &&& (exists|pots: Seq<(Seq<u32>, Seq<u32>)>|
                pots.len() == a.lattices().len() && #[trigger] corpus_counts(
                    (a.alignment_model().accum@, a.alignment_model().total),
                    a.lattices(),
                    pots,
                    (b.alignment_model().accum@, b.alignment_model().total),
                ))
}

/// What an M-step leads from aligner `a` to: aligner `b`, reporting `change`.
pub open spec fn m_step(a: Aligner, b: Aligner, change: u32) -> bool {
    &&& (b.configuration() == a.configuration())
    &&& (b.symbols() == a.symbols())
    &&& (same_weight(change, abs_bits(divide_of(a.alignment_model().total, a.alignment_model().prev_total))))
    &&& (b.alignment_model().prev_total == a.alignment_model().total)
    &&& (b.alignment_model().total == WEIGHT_ZERO)
    &&& (normalized(
                a.alignment_model().estimate@,
                a.alignment_model().accum@,
                a.alignment_model().total,
                b.alignment_model().estimate@,
            ))
    &&& (b.alignment_model().accum@ == cleared(a.alignment_model().accum@))
    &&& (b.lattices().len() == a.lattices().len())
    &&& (forall|k: int|
                0 <= k < a.lattices().len() ==> (#[trigger] b.lattices()[k]).0 == reweighted(
                    a.lattices()[k].0,
                    b.alignment_model().estimate@,
                ) && b.lattices()[k].1 == a.lattices()[k].1)
}

/// `trace` runs through the aligners of a training run: a first M-step, then
/// for each reported change an E-step and an M-step that reports it.
pub open spec fn em_rounds(trace: Seq<Aligner>, changes: Seq<u32>) -> bool {
    &&& trace.len() == 2 * changes.len() + 2
    &&& exists|c: u32| m_step(trace[0], trace[1], c)
    &&& forall|j: int|
        0 <= j < changes.len() ==> e_step(#[trigger] trace[2 * j + 1], trace[2 * j + 2]) && m_step(
            trace[2 * j + 2],
            trace[2 * j + 3],
            changes[j],
        )
}

/// The training pair that dictionary line `line` holds under configuration `c`.
pub open spec fn line_pair(c: Config, line: Seq<char>) -> (Seq<Seq<char>>, Seq<Seq<char>>) {
    (fields(entry_fields(line)[0], c.s1_char_delim@), fields(entry_fields(line)[1], c.s2_char_delim@))
}

/// `trace` runs through the aligners while the pairs of the first `m` lines are
/// added in order, `outs` holding what each addition returned.
pub open spec fn lines_added(trace: Seq<Aligner>, outs: Seq<Result<(), AlignError>>, lines: Seq<String>, m: int) -> bool {
    &&& trace.len() == m + 1
    &&& outs.len() == m
    &&& forall|k: int|
        0 <= k < m ==> entry_outcome(
            #[trigger] trace[k],
            line_pair(trace[k].configuration(), lines[k]@).0,
            line_pair(trace[k].configuration(), lines[k]@).1,
            trace[k + 1],
            outs[k],
        )
}

/// The errors among the outcomes, in order.
pub open spec fn errors_of(outs: Seq<Result<(), AlignError>>) -> Seq<AlignError>
    decreases outs.len(),
{
    if outs.len() == 0 {
        Seq::empty()
    } else {
        errors_of(outs.drop_last()) + match outs.last() {
            Ok(_) => Seq::<AlignError>::empty(),
            Err(e) => seq![e],
        }
    }
}

proof fn lemma_lines_added_push(
    trace: Seq<Aligner>,
    outs: Seq<Result<(), AlignError>>,
    lines: Seq<String>,
    k: int,
    next: Aligner,
    res: Result<(), AlignError>,
)
    requires
        0 <= k < lines.len(),
        lines_added(trace, outs, lines, k),
        entry_outcome(
            trace.last(),
            line_pair(trace.last().configuration(), lines[k]@).0,
            line_pair(trace.last().configuration(), lines[k]@).1,
            next,
            res,
        ),
    ensures
        lines_added(trace.push(next), outs.push(res), lines, k + 1),
{
    let t2 = trace.push(next);
    let o2 = outs.push(res);
    assert forall|j: int| 0 <= j < k + 1 implies entry_outcome(
        #[trigger] t2[j],
        line_pair(t2[j].configuration(), lines[j]@).0,
        line_pair(t2[j].configuration(), lines[j]@).1,
        t2[j + 1],
        o2[j],
    ) by {
        if j < k {
            assert(t2[j] == trace[j] && t2[j + 1] == trace[j + 1] && o2[j] == outs[j]);
        } else {
            assert(t2[j] == trace.last() && t2[j + 1] == next && o2[j] == res);
        }
    }
}

/// Grapheme-to-phoneme EM aligner.
pub struct Aligner {
    pub config: Config,
    isyms: SymbolTable,
    fsas: Vec<Lattice>,
    model: AlignmentModel,
}

impl Aligner {
    /// A new aligner: no lattice, an empty model, and the reserved symbols.
    pub fn new(config: Config) -> (r: Aligner)
        ensures
            r.wf(),
            r.configuration() == config,
            r.symbols() == reserved_symbols(config),
            r.lattices().len() == 0,
            r.alignment_model().estimate@ == Map::<u32, u32>::empty(),
            r.alignment_model().accum@ == Map::<u32, u32>::empty(),
            r.alignment_model().total == WEIGHT_ZERO,
            r.alignment_model().prev_total == WEIGHT_ZERO,
    {
        let mut isyms = empty_table();
        add_symbol(&mut isyms, config.eps.as_str());
        add_symbol(&mut isyms, config.skip.as_str());
        let pair = make_token(config.seq1_sep.as_str(), "_", config.seq2_sep.as_str());
        add_symbol(&mut isyms, pair.as_str());
        add_symbol(&mut isyms, config.s1s2_sep.as_str());
        let tag = config_tag_text(&config);
        add_symbol(&mut isyms, tag.as_str());
        let r = Aligner { config, isyms, fsas: Vec::new(), model: AlignmentModel::new() };
        proof {
            assert(r.lattices() =~= Seq::<LatticeModel>::empty());
        }
        r
    }

    /// The configuration.
    pub closed spec fn configuration(&self) -> Config {
        self.config
    }

    /// The symbols, label `i` at index `i`.
    pub closed spec fn symbols(&self) -> Seq<Seq<char>> {
        symbol_list(self.isyms)
    }

    /// The stored lattices, in order of their training pairs.
    pub closed spec fn lattices(&self) -> Seq<LatticeModel> {
        self.fsas@.map_values(|f: Lattice| (fst_states(f), fst_start(f), fst_props(f)))
    }

    /// The alignment model.
    pub closed spec fn alignment_model(&self) -> AlignmentModel {
        self.model
    }

    /// Symbols are distinct and numbered by `u32`; every label on a lattice arc has
    /// a partial-count entry, and every such entry names a symbol.
    pub closed spec fn wf(&self) -> bool {
        &&& symbol_list(self.isyms).no_duplicates()
        &&& symbol_list(self.isyms).len() <= u32::MAX
        &&& forall|l: u32| self.model.accum@.contains_key(l) ==> (l as int) < symbol_list(self.isyms).len()
        &&& forall|k: int|
            0 <= k < self.fsas.len() ==> {
                &&& arcs_in_range(fst_states(#[trigger] self.fsas@[k]))
                &&& arcs_ascend(fst_states(self.fsas@[k]))
                &&& start_in_range(fst_states(self.fsas@[k]), fst_start(self.fsas@[k]))
                &&& fst_states(self.fsas@[k]).len() <= u32::MAX
                &&& arc_labels(fst_states(self.fsas@[k])).subset_of(self.model.accum@.dom())
            }
    }

    /// Adds the training pair `(seq1, seq2)`: builds its lattice, trims it unless
    /// both insertions and deletions are allowed, seeds the partial counts with
    /// its arc weights and stores it. A pair with an empty side, or whose lattice
    /// keeps no path from start to accept, is infeasible and changes no lattice and
    /// no count (its tokens may stay in the symbol table).
    pub fn add_entry(&mut self, seq1: &Vec<String>, seq2: &Vec<String>) -> (r: Result<(), AlignError>)
        requires
            old(self).wf(),
        ensures
            final(self).wf(),
            entry_outcome(*old(self), views(seq1@), views(seq2@), *final(self), r),
    {
        let ghost v1 = views(seq1@);
        let ghost v2 = views(seq2@);
        proof {
            let c = self.config;
            if !c.seq1_del && c.seq2_max == 1 && v1.len() < v2.len() {
                lemma_shorter_input_infeasible(c, v1, v2);
            }
            if !c.seq2_del && c.seq1_max == 1 && v2.len() < v1.len() {
                lemma_shorter_output_infeasible(c, v1, v2);
            }
        }
        if seq1.len() == 0 || seq2.len() == 0 {
            proof {
                assert(self.symbols().subrange(0, self.symbols().len() as int) =~= self.symbols());
            }
            return Err(AlignError::InfeasibleAlignment(describe(&self.config, seq1, seq2)));
        }
        let built = build_lattice(&self.config, &mut self.isyms, seq1, seq2);
        let mut f = match built {
            Ok(f) => f,
            Err(e) => {
                proof {
                    assert(self.lattices() =~= old(self).lattices());
                }
                return Err(e);
            },
        };
        let ghost built_states = fst_states(f);
        let ghost built_start = fst_start(f);
        proof {
            lemma_grid_lattice(fst_states(f), fst_start(f), self.config, v1, v2, symbol_list(self.isyms));
            lemma_state_count(v1, v2);
        }
        if !(self.config.seq1_del && self.config.seq2_del) {
            trim(&mut f);
        }
        let n = num_states(&f);
        if n == 0 {
            proof {
                assert(self.lattices() =~= old(self).lattices());
            }
            return Err(AlignError::InfeasibleAlignment(describe(&self.config, seq1, seq2)));
        }
        let ghost states = fst_states(f);
        let ghost acc0: Counts = (self.model.accum@, self.model.total);
        let ghost nsyms = symbol_list(self.isyms).len();
        let ghost isyms1 = self.isyms;
        let ghost config1 = self.config;
        let ghost mut str: Seq<Counts> = seq![acc0];
        assert(arc_labels(states).subset_of(arc_labels(built_states)));
        let mut q: usize = 0;
        while q < n
            invariant
                n == states.len(),
                states == fst_states(f),
                arcs_in_range(states),
                n <= u32::MAX,
                q <= n,
                nsyms == symbol_list(self.isyms).len(),
                forall|l: u32| arc_labels(states).contains(l) ==> (l as int) < nsyms,
                seed_states_trace(str, states),
                str.len() == q + 1,
                str[0] == acc0,
                str.last() == (self.model.accum@, self.model.total),
                forall|l: u32| acc0.0.contains_key(l) ==> self.model.accum@.contains_key(l),
                forall|l: u32| self.model.accum@.contains_key(l) ==> (l as int) < nsyms,
                forall|p: int, x: int|
                    0 <= p < q && 0 <= x < states[p].0.len() ==> self.model.accum@.contains_key(
                        #[trigger] states[p].0[x].0,
                    ),
                self.model.estimate@ == old(self).model.estimate@,
                self.model.prev_total == old(self).model.prev_total,
                self.fsas@ == old(self).fsas@,
                self.isyms == isyms1,
                self.config == config1,
            decreases n - q,
        {
            let arcs = arcs_of(&f, q as u32);
            let ghost before: Counts = (self.model.accum@, self.model.total);
            let ghost mut atr: Seq<Counts> = seq![before];
            let mut x: usize = 0;
            while x < arcs.len()
                invariant
                    n == states.len(),
                    states == fst_states(f),
                    q < n,
                    arcs@ == states[q as int].0,
                    x <= arcs.len(),
                    nsyms == symbol_list(self.isyms).len(),
                    forall|l: u32| arc_labels(states).contains(l) ==> (l as int) < nsyms,
                    seed_states_trace(str, states),
                    str.len() == q + 1,
                    str[0] == acc0,
                    str.last() == before,
                    seed_arcs_trace(atr, arcs@.take(x as int)),
                    atr[0] == before,
                    atr.last() == (self.model.accum@, self.model.total),
                    forall|l: u32| acc0.0.contains_key(l) ==> self.model.accum@.contains_key(l),
                    forall|l: u32| self.model.accum@.contains_key(l) ==> (l as int) < nsyms,
                    forall|p: int, y: int|
                        0 <= p < q && 0 <= y < states[p].0.len() ==> self.model.accum@.contains_key(
                            #[trigger] states[p].0[y].0,
                        ),
                    forall|y: int| 0 <= y < x ==> self.model.accum@.contains_key(#[trigger] states[q as int].0[y].0),
                    self.model.estimate@ == old(self).model.estimate@,
                    self.model.prev_total == old(self).model.prev_total,
                    self.fsas@ == old(self).fsas@,
                    self.isyms == isyms1,
                    self.config == config1,
                decreases arcs.len() - x,
            {
                let a = arcs[x];
                proof {
                    assert(arc_labels(states).contains(states[q as int].0[x as int].0));
                    assert(arcs@.take(x + 1).drop_last() =~= arcs@.take(x as int));
                    assert(arcs@.take(x + 1).last() == a);
                }
                let ghost cur: Counts = (self.model.accum@, self.model.total);
                self.model.accumulate(a.0, a.1);
                proof {
                    assert(arcs@[x as int] == a);
                    lemma_seed_arcs_trace_push(atr, arcs@, x as int, (self.model.accum@, self.model.total));
                    atr = atr.push((self.model.accum@, self.model.total));
                }
                x = x + 1;
            }
            proof {
                assert(arcs@.take(x as int) =~= arcs@);
                assert(seed_arcs_trace(atr, states[q as int].0));
                assert(seed_arcs(before, states[q as int].0, (self.model.accum@, self.model.total)));
                lemma_seed_states_trace_push(str, states, (self.model.accum@, self.model.total));
                str = str.push((self.model.accum@, self.model.total));
            }
            q = q + 1;
        }
        proof {
            assert(seed_states_trace(str, states));
            assert(arc_labels(states).subset_of(self.model.accum@.dom()));
            assert(built_start == Some(0u32));
            assert(is_grid_lattice(built_states, Some(0u32), self.config, v1, v2, symbol_list(self.isyms)));
        }
        let ghost fin = (fst_states(f), fst_start(f));
        let ghost fsas0 = self.fsas@;
        self.fsas.push(f);
        proof {
            assert(self.fsas@ == fsas0.push(f));
            assert(fsas0 == old(self).fsas@);
            assert(self.lattices().len() == fsas0.len() + 1);
            assert forall|k: int| 0 <= k < fsas0.len() implies self.lattices()[k] == old(self).lattices()[k] by {
                assert(self.fsas@[k] == fsas0[k]);
            }
            assert(self.lattices().drop_last() =~= old(self).lattices());
            assert(self.lattices().last().0 == fin.0 && self.lattices().last().1 == fin.1);
            if self.config.seq1_del && self.config.seq2_del {
                assert(fin.0 == built_states && fin.1 == Some(0u32));
            } else {
                assert(fin.0 == connected(built_states, Some(0u32)));
            }
            assert(is_grid_lattice(built_states, Some(0u32), self.config, v1, v2, self.symbols()));
            assert forall|k: int| 0 <= k < self.fsas.len() implies {
                &&& arcs_in_range(fst_states(#[trigger] self.fsas@[k]))
                &&& arcs_ascend(fst_states(self.fsas@[k]))
                &&& start_in_range(fst_states(self.fsas@[k]), fst_start(self.fsas@[k]))
                &&& fst_states(self.fsas@[k]).len() <= u32::MAX
                &&& arc_labels(fst_states(self.fsas@[k])).subset_of(self.model.accum@.dom())
            } by {
                if k < fsas0.len() {
                    assert(self.fsas@[k] == old(self).fsas@[k]);
                    assert(arc_labels(fst_states(old(self).fsas@[k])).subset_of(old(self).model.accum@.dom()));
                    assert(acc0.0 == old(self).model.accum@);
                    assert forall|l: u32| arc_labels(fst_states(self.fsas@[k])).contains(l) implies self.model.accum@.dom().contains(l) by {
                        assert(old(self).model.accum@.contains_key(l));
                    }
                } else {
                    assert(self.fsas@[k] == f);
                }
            }
        }
        Ok(())
    }

    /// E-step: for every lattice, in order, computes forward and backward
    /// potentials and adds the expected count of each arc (if it is finite) into
    /// the count of its label and into the total. Lattices and estimates are left
    /// as they are.
    pub fn expectation(&mut self) -> (r: Result<(), AlignError>)
        requires
            old(self).wf(),
        ensures
            final(self).wf(),
            r is Ok,
            e_step(*old(self), *final(self)),
    {
        let ghost acc0: Counts = (self.model.accum@, self.model.total);
        let ghost lats = self.lattices();
        let ghost mut pots: Seq<(Seq<u32>, Seq<u32>)> = Seq::empty();
        let ghost mut ctr: Seq<Counts> = seq![acc0];
        let mut k: usize = 0;
        while k < self.fsas.len()
            invariant
                k <= self.fsas.len(),
                self.fsas@ == old(self).fsas@,
                self.isyms == old(self).isyms,
                self.config == old(self).config,
                lats == self.lattices(),
                self.model.accum@.dom() == old(self).model.accum@.dom(),
                self.model.estimate@ == old(self).model.estimate@,
                self.model.prev_total == old(self).model.prev_total,
                old(self).wf(),
                pots.len() == k,
                corpus_trace(ctr, lats.take(k as int), pots),
                ctr[0] == acc0,
                ctr.last() == (self.model.accum@, self.model.total),
            decreases self.fsas.len() - k,
        {
            proof {
                assert(arcs_in_range(fst_states(self.fsas@[k as int])));
            }
            let alpha = distances(&self.fsas[k], false);
            let beta = distances(&self.fsas[k], true);
            proof {
                assert(lats.take(k + 1).drop_last() =~= lats.take(k as int));
                assert(lats[k as int] == (fst_states(self.fsas@[k as int]), fst_start(self.fsas@[k as int]), fst_props(self.fsas@[k as int])));
                assert(arc_labels(fst_states(self.fsas@[k as int])).subset_of(self.model.accum@.dom()));
            }
            let ghost cur: Counts = (self.model.accum@, self.model.total);
            accumulate_lattice(&mut self.model, &self.fsas[k], &alpha, &beta);
            proof {
                lemma_corpus_trace_push(ctr, lats, pots, k as int, lats[k as int], (alpha@, beta@), (self.model.accum@, self.model.total));
                ctr = ctr.push((self.model.accum@, self.model.total));
                pots = pots.push((alpha@, beta@));
            }
            k = k + 1;
        }
        proof {
            assert(lats.take(k as int) =~= lats);
            assert(corpus_trace(ctr, lats, pots));
            assert(corpus_counts(acc0, lats, pots, (self.model.accum@, self.model.total)));
            assert(lats == old(self).lattices());
            assert(acc0 == (old(self).model.accum@, old(self).model.total));
        }
        Ok(())
    }

    /// M-step: returns the change of the total since the previous M-step,
    /// `|total - prev_total|`; turns every partial count into an estimate (count
    /// divided by total), clears counts and total to semiring zero, and sets every
    /// arc weight of every lattice to the estimate of its label.
    pub fn maximization(&mut self) -> (change: u32)
        requires
            old(self).wf(),
        ensures
            final(self).wf(),
            m_step(*old(self), *final(self), change),
    {
        let n = table_len(&self.isyms);
        let change = self.model.normalize_and_reset(n as u32);
        proof {
            assert(self.model.accum@.dom() =~= old(self).model.accum@.dom());
        }
        let mut k: usize = 0;
        while k < self.fsas.len()
            invariant
                k <= self.fsas.len(),
                self.fsas.len() == old(self).fsas.len(),
                self.isyms == old(self).isyms,
                self.config == old(self).config,
                old(self).wf(),
                self.model.accum@ == cleared(old(self).model.accum@),
                normalized(old(self).model.estimate@, old(self).model.accum@, old(self).model.total, self.model.estimate@),
                self.model.total == WEIGHT_ZERO,
                self.model.prev_total == old(self).model.total,
                forall|j: int| 0 <= j < k ==> {
                    &&& fst_states(#[trigger] self.fsas@[j]) == reweighted(fst_states(old(self).fsas@[j]), self.model.estimate@)
                    &&& fst_start(self.fsas@[j]) == fst_start(old(self).fsas@[j])
                },
                forall|j: int| k <= j < self.fsas.len() ==> #[trigger] self.fsas@[j] == old(self).fsas@[j],
            decreases self.fsas.len() - k,
        {
            proof {
                assert(arc_labels(fst_states(old(self).fsas@[k as int])).subset_of(old(self).model.accum@.dom()));
                assert(arc_labels(fst_states(self.fsas@[k as int])).subset_of(self.model.estimate@.dom()));
            }
            reweight(&mut self.fsas[k], &self.model);
            k = k + 1;
        }
        proof {
            assert forall|j: int| 0 <= j < self.fsas.len() implies {
                &&& arcs_in_range(fst_states(#[trigger] self.fsas@[j]))
                &&& arcs_ascend(fst_states(self.fsas@[j]))
                &&& start_in_range(fst_states(self.fsas@[j]), fst_start(self.fsas@[j]))
                &&& fst_states(self.fsas@[j]).len() <= u32::MAX
                &&& arc_labels(fst_states(self.fsas@[j])).subset_of(self.model.accum@.dom())
            } by {
                lemma_reweighted(fst_states(old(self).fsas@[j]), self.model.estimate@);
            }
            assert forall|j: int| 0 <= j < old(self).lattices().len() implies (#[trigger] self.lattices()[j]).0
                == reweighted(old(self).lattices()[j].0, self.model.estimate@) && self.lattices()[j].1
                == old(self).lattices()[j].1 by {}
        }
        change
    }

    /// Runs EM: one M-step to turn the seeded counts into the first estimates,
    /// then `iter` rounds of an E-step followed by an M-step, then one closing
    /// round. Hands back the change that each round's M-step reports, in order
    /// (`iter + 1` values).
    pub fn train(&mut self, iter: u8) -> (r: Result<Vec<u32>, AlignError>)
        requires
            old(self).wf(),
        ensures
            final(self).wf(),
            r is Ok,
            r->Ok_0.len() == iter + 1,
            exists|trace: Seq<Aligner>| #[trigger] em_rounds(trace, r->Ok_0@) && trace[0] == *old(self) && trace.last()
                == *final(self),
    {
        let ghost first = *self;
        let c0 = self.maximization();
        let rounds: usize = iter as usize + 1;
        let mut deltas: Vec<u32> = Vec::new();
        let ghost mut trace: Seq<Aligner> = seq![first, *self];
        proof {
            assert(m_step(first, *self, c0));
        }
        let mut k: usize = 0;
        while k < rounds
            invariant
                self.wf(),
                rounds == iter + 1,
                k <= rounds,
                deltas.len() == k,
                trace.len() == 2 * k + 2,
                trace[0] == *old(self),
                trace.last() == *self,
                exists|c: u32| m_step(trace[0], trace[1], c),
                forall|j: int|
                    0 <= j < k ==> e_step(#[trigger] trace[2 * j + 1], trace[2 * j + 2]) && m_step(
                        trace[2 * j + 2],
                        trace[2 * j + 3],
                        deltas@[j],
                    ),
            decreases rounds - k,
        {
            let ghost s1 = *self;
            match self.expectation() {
                Ok(()) => {},
                Err(e) => return Err(e),
            }
            let ghost s2 = *self;
            let d = self.maximization();
            let ghost t0 = trace;
            let ghost d0 = deltas@;
            deltas.push(d);
            proof {
                trace = trace.push(s2).push(*self);
                assert forall|j: int|
                    0 <= j < k + 1 implies e_step(#[trigger] trace[2 * j + 1], trace[2 * j + 2]) && m_step(
                        trace[2 * j + 2],
                        trace[2 * j + 3],
                        deltas@[j],
                    ) by {
                    if j < k {
                        assert(trace[2 * j + 1] == t0[2 * j + 1] && trace[2 * j + 2] == t0[2 * j + 2]
                            && trace[2 * j + 3] == t0[2 * j + 3] && deltas@[j] == d0[j]);
                    } else {
                        assert(trace[2 * j + 1] == s1 && trace[2 * j + 2] == s2 && trace[2 * j + 3] == *self);
                    }
                }
                assert(trace[0] == t0[0] && trace[1] == t0[1]);
            }
            k = k + 1;
        }
        proof {
            assert(em_rounds(trace, deltas@));
        }
        Ok(deltas)
    }

    /// The single best alignment of every lattice, in order: the lowest-cost path
    /// (weights read in the tropical semiring) as its labels' symbols,
    /// space-separated.
    pub fn alignments(&self) -> (r: Result<Vec<String>, AlignError>)
        requires
            self.wf(),
        ensures
            r is Ok,
            r is Ok <==> forall|k: int|
                0 <= k < self.lattices().len() ==> labels_named(
                    #[trigger] best_labels(self.lattices()[k]),
                    self.symbols().len() as int,
                ),
            r is Ok ==> r->Ok_0.len() == self.lattices().len(),
            r is Ok ==> forall|k: int|
                0 <= k < self.lattices().len() ==> (#[trigger] r->Ok_0@[k])@ == rendered(
                    self.symbols(),
                    best_labels(self.lattices()[k]),
                ),
            r is Err ==> exists|k: int, t: int|
                0 <= k < self.lattices().len() && 0 <= t < best_labels(self.lattices()[k]).len() && r
                    == Err::<Vec<String>, AlignError>(AlignError::MissingSymbol(#[trigger] best_labels(self.lattices()[k])[t]))
                    && best_labels(self.lattices()[k])[t] as int >= self.symbols().len() && forall|j: int|
                    0 <= j < k ==> labels_named(#[trigger] best_labels(self.lattices()[j]), self.symbols().len() as int),
    {
        let mut lines: Vec<String> = Vec::new();
        let mut k: usize = 0;
        while k < self.fsas.len()
            invariant
                k <= self.fsas.len(),
                lines.len() == k,
                self.wf(),
                forall|j: int|
                    0 <= j < k ==> labels_named(#[trigger] best_labels(self.lattices()[j]), self.symbols().len() as int),
                forall|j: int|
                    0 <= j < k ==> (#[trigger] lines@[j])@ == rendered(
                        self.symbols(),
                        best_labels(self.lattices()[j]),
                    ),
            decreases self.fsas.len() - k,
        {
            proof {
                lemma_tropical_well_formed(fst_states(self.fsas@[k as int]), fst_start(self.fsas@[k as int]));
                assert(self.lattices()[k as int] == (fst_states(self.fsas@[k as int]), fst_start(self.fsas@[k as int]), fst_props(self.fsas@[k as int])));
            }
            let tropical = to_tropical(&self.fsas[k]);
            let path = shortest(&tropical);
            let labels = decode(&path).0;
            proof {
                let st = fst_states(self.fsas@[k as int]);
                let tst = transducer_states(tropical);
                let pst = transducer_states(path);
                assert forall|t: int| 0 <= t < labels@.len() implies (#[trigger] labels@[t] as int) < self.symbols().len() by {
                    let (q, x) = choose|q: int, x: int|
                        0 <= q < pst.len() && 0 <= x < pst[q].0.len() && #[trigger] labels@[t] == (if false {
                            (#[trigger] pst[q].0[x]).1
                        } else {
                            pst[q].0[x].0
                        });
                    let (p, y) = choose|p: int, y: int|
                        0 <= p < tst.len() && 0 <= y < tst[p].0.len() && (#[trigger] tst[p].0[y]).0 == (#[trigger] pst[q].0[x]).0
                            && tst[p].0[y].1 == pst[q].0[x].1;
                    assert(tst == tropical_of(st));
                    assert(tst[p].0[y].0 == st[p].0[y].0);
                    assert(arc_labels(st).contains(st[p].0[y].0));
                    assert(self.model.accum@.contains_key(st[p].0[y].0));
                }
                assert(labels_named(labels@, self.symbols().len() as int));
            }
            let line = match render(&self.isyms, &labels) {
                Ok(s) => s,
                Err(e) => {
                    proof {
                        let t = choose|t: int| 0 <= t < labels.len() && Err::<String, AlignError>(e) == Err::<String, AlignError>(AlignError::MissingSymbol(labels@[t]))
                            && labels@[t] as int >= symbol_list(self.isyms).len();
                        assert(best_labels(self.lattices()[k as int])[t] == labels@[t]);
                    }
                    return Err(e);
                },
            };
            lines.push(line);
            k = k + 1;
        }
        Ok(lines)
    }

    /// Loads dictionary lines in order: each is split into its two token
    /// sequences and added as a training pair. A malformed line stops the load
    /// with `MalformedEntry`; the pairs added before it stay. Pairs that cannot be
    /// added are skipped, and their errors are returned in order.
    pub fn load_dictionary(&mut self, lines: &Vec<String>) -> (r: Result<Vec<AlignError>, AlignError>)
        requires
            old(self).wf(),
        ensures
            final(self).wf(),
            final(self).configuration() == old(self).configuration(),
            r is Ok <==> forall|k: int| 0 <= k < lines.len() ==> entry_fields((#[trigger] lines@[k])@).len() == 2,
            r is Err ==> r->Err_0 is MalformedEntry,
            r is Ok ==> exists|trace: Seq<Aligner>, outs: Seq<Result<(), AlignError>>|
                #[trigger] lines_added(trace, outs, lines@, lines.len() as int) && trace[0] == *old(self)
                    && trace.last() == *final(self) && r->Ok_0@ == errors_of(outs),
            r matches Err(AlignError::MalformedEntry(m)) ==> exists|
                k: int,
                trace: Seq<Aligner>,
                outs: Seq<Result<(), AlignError>>,
            |
                0 <= k < lines.len() && m@ == lines@[k]@ && entry_fields(lines@[k]@).len() != 2
                    && #[trigger] lines_added(trace, outs, lines@, k) && trace[0] == *old(self) && trace.last()
                    == *final(self),
    {
        let mut skipped: Vec<AlignError> = Vec::new();
        let ghost mut trace: Seq<Aligner> = seq![*self];
        let ghost mut outs: Seq<Result<(), AlignError>> = Seq::empty();
        let mut k: usize = 0;
        while k < lines.len()
            invariant
                self.wf(),
                self.configuration() == old(self).configuration(),
                k <= lines.len(),
                forall|j: int| 0 <= j < k ==> entry_fields((#[trigger] lines@[j])@).len() == 2,
                lines_added(trace, outs, lines@, k as int),
                trace[0] == *old(self),
                trace.last() == *self,
                skipped@ == errors_of(outs),
            decreases lines.len() - k,
        {
            let ghost before = *self;
            match parse_entry(&self.config, lines[k].as_str()) {
                Ok((seq1, seq2)) => {
                    let res = self.add_entry(&seq1, &seq2);
                    proof {
                        assert(before.configuration() == self.config);
                        lemma_lines_added_push(trace, outs, lines@, k as int, *self, res);
                        assert(errors_of(outs.push(res)).len() >= 0);
                        assert(outs.push(res).drop_last() =~= outs);
                    }
                    match res {
                        Ok(()) => {},
                        Err(e) => {
                            skipped.push(e);
                        },
                    }
                    proof {
                        trace = trace.push(*self);
                        outs = outs.push(res);
                    }
                },
                Err(e) => {
                    proof {
                        assert(lines_added(trace, outs, lines@, k as int));
                    }
                    return Err(e);
                },
            }
            k = k + 1;
        }
        Ok(skipped)
    }

    /// The symbol table is one to one: distinct labels have distinct symbols, so
    /// each symbol has a single label. Every operation keeps this.
    pub proof fn lemma_symbols_one_to_one(&self)
        requires
            self.wf(),
        ensures
            forall|a: int, b: int|
                0 <= a < self.symbols().len() && 0 <= b < self.symbols().len() && a != b ==> #[trigger] self.symbols()[a]
                    != #[trigger] self.symbols()[b],
    {
    }

    /// The symbol table, with labels in `0..len()`.
    pub fn len(&self) -> (r: usize)
        ensures
            r == self.symbols().len(),
    {
        table_len(&self.isyms)
    }

    /// The symbol of `label`, if it has one.
    pub fn get_symbol(&self, label: u32) -> (r: Option<&str>)
        ensures
            (label as int) < self.symbols().len() <==> r is Some,
            r is Some ==> r->Some_0@ == self.symbols()[label as int],
    {
        get_symbol(&self.isyms, label)
    }

    /// The label of `s`, if it is a symbol.
    pub fn get_label(&self, s: &str) -> (r: Option<u32>)
        ensures
            self.symbols().contains(s@) <==> r is Some,
            r is Some ==> label_in(self.symbols(), s@, r->Some_0 as int),
    {
        get_label(&self.isyms, s)
    }

    /// Number of stored lattices.
    pub fn num_lattices(&self) -> (r: usize)
        ensures
            r == self.lattices().len(),
    {
        self.fsas.len()
    }

    /// The current estimate of `label`, if it has one.
    pub fn estimate(&self, label: u32) -> (r: Option<u32>)
        ensures
            r == (if self.alignment_model().estimate@.contains_key(label) {
                Some(self.alignment_model().estimate@[label])
            } else {
                None::<u32>
            }),
    {
        self.model.get(label)
    }
}

} // verus!
