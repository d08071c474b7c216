//! Alignment lattices: for one training pair, the acceptor whose paths are all
//! admissible joint segmentations of the two token sequences.
//!
//! The grid state `(i, j)` (the first `i` input tokens and the first `j` output
//! tokens consumed) has id `i * (|seq2| + 1) + j`.
use crate::fst::{
    add_arc, add_state, arc_labels, arcs_ascend, arcs_in_range, start_in_range, has_accepting_path, has_arc, is_accepting_path, new_lattice,
    set_final, set_start, fst_start, fst_states, Lattice, StateModel,
};
use crate::symbols::{add_symbol, label_in, symbol_list, table_len};
use crate::weight::{DELETION_SEED, WEIGHT_ONE};
use rustfst::SymbolTable;
use vstd::arithmetic::div_mod::{lemma_fundamental_div_mod, lemma_fundamental_div_mod_converse, lemma_mod_pos_bound};
use crate::fst::{connected, connected_start, useful, useful_below, ArcModel};
use vstd::prelude::*;

verus! {

/// Configuration of the aligner.
pub struct Config {
    /// Maximum length of an input chunk
    pub seq1_max: u8,
    /// Maximum length of an output chunk
    pub seq2_max: u8,
    /// Allow insertions (the skip string on the input side)
    pub seq1_del: bool,
    /// Allow deletions (the skip string on the output side)
    pub seq2_del: bool,
    /// Forbid joint arcs that take more than one token on both sides
    pub restrict: bool,
    /// Joiner of the tokens of an input chunk
    pub seq1_sep: String,
    /// Joiner of the tokens of an output chunk
    pub seq2_sep: String,
    /// Separator between the two sides of an alignment token
    pub s1s2_sep: String,
    /// Epsilon symbol
    pub eps: String,
    /// Skip symbol, distinct from epsilon
    pub skip: String,
    /// Splitter of the input field of a dictionary line
    pub s1_char_delim: String,
    /// Splitter of the output field of a dictionary line
    pub s2_char_delim: String,
}

/// What can go wrong while aligning.
#[derive(Debug, PartialEq, Eq)]
pub enum AlignError {
    /// A dictionary line that does not hold exactly two TAB-separated fields
    MalformedEntry(String),
    /// A training pair whose lattice keeps no path from start to accept
    InfeasibleAlignment(String),
    /// The symbol table has no label left
    SymbolOverflow,
    /// The grid of a training pair has more states than a state id can number
    LatticeTooLarge,
    /// A label with no symbol met while decoding
    MissingSymbol(u32),
    /// An operation of the WFST library failed
    FstOperation(String),
}

pub open spec fn min(a: int, b: int) -> int {
    if a <= b { a } else { b }
}

/// The views of a sequence of strings.
pub open spec fn views(v: Seq<String>) -> Seq<Seq<char>> {
    v.map_values(|s: String| s@)
}

/// The parts joined with `sep` between each two.
pub open spec fn join(parts: Seq<Seq<char>>, sep: Seq<char>) -> Seq<char>
    decreases parts.len(),
{
    if parts.len() <= 1 {
        if parts.len() == 0 { Seq::empty() } else { parts[0] }
    } else {
        join(parts.drop_last(), sep) + sep + parts.last()
    }
}

/// The `len` tokens of `s` from `from`, joined with `sep`.
pub open spec fn chunk(s: Seq<Seq<char>>, from: int, len: int, sep: Seq<char>) -> Seq<char> {
    join(s.subrange(from, from + len), sep)
}

/// An alignment token: the two sides around the separator.
pub open spec fn token(c: Config, left: Seq<char>, right: Seq<char>) -> Seq<char> {
    left + c.s1s2_sep@ + right
}

/// Width of a grid row: one more than the output length.
pub open spec fn width(s2: Seq<Seq<char>>) -> int {
    s2.len() + 1int
}

/// Id of grid state `(i, j)`.
pub open spec fn state_id(s2: Seq<Seq<char>>, i: int, j: int) -> int {
    i * width(s2) + j
}

/// Number of grid states.
pub open spec fn grid_size(s1: Seq<Seq<char>>, s2: Seq<Seq<char>>) -> int {
    (s1.len() + 1int) * (s2.len() + 1int)
}

/// Longest input chunk that can leave row `i`.
pub open spec fn k_max(c: Config, s1: Seq<Seq<char>>, i: int) -> int {
    min(c.seq1_max as int, s1.len() - i)
}

/// Longest output chunk that can leave column `j`.
pub open spec fn l_max(c: Config, s2: Seq<Seq<char>>, j: int) -> int {
    min(c.seq2_max as int, s2.len() - j)
}

/// A grid arc: its token, its seed weight and its destination id.
pub type GridArc = (Seq<char>, u32, int);

/// Insertion arcs of `(i, j)`: skip against `l` output tokens.
pub open spec fn insertion_arcs(c: Config, s1: Seq<Seq<char>>, s2: Seq<Seq<char>>, i: int, j: int) -> Seq<GridArc> {
    if c.seq1_del {
        Seq::new(
            l_max(c, s2, j) as nat,
            |x: int| (token(c, c.skip@, chunk(s2, j, x + 1, c.seq2_sep@)), DELETION_SEED, state_id(s2, i, j + x + 1)),
        )
    } else {
        Seq::empty()
    }
}

/// Deletion arcs of `(i, j)`: `k` input tokens against skip.
pub open spec fn deletion_arcs(c: Config, s1: Seq<Seq<char>>, s2: Seq<Seq<char>>, i: int, j: int) -> Seq<GridArc> {
    if c.seq2_del {
        Seq::new(
            k_max(c, s1, i) as nat,
            |x: int| (token(c, chunk(s1, i, x + 1, c.seq1_sep@), c.skip@), DELETION_SEED, state_id(s2, i + x + 1, j)),
        )
    } else {
        Seq::empty()
    }
}

/// Number of output lengths paired with input length `k` from `(i, j)`.
pub open spec fn row_len(c: Config, s2: Seq<Seq<char>>, j: int, k: int) -> int {
    if c.restrict && k > 1 { min(1, l_max(c, s2, j)) } else { l_max(c, s2, j) }
}

/// Substitution arcs of `(i, j)` that take exactly `k` input tokens.
pub open spec fn substitution_row(c: Config, s1: Seq<Seq<char>>, s2: Seq<Seq<char>>, i: int, j: int, k: int) -> Seq<GridArc> {
    Seq::new(
        row_len(c, s2, j, k) as nat,
        |x: int|
            (
                token(c, chunk(s1, i, k, c.seq1_sep@), chunk(s2, j, x + 1, c.seq2_sep@)),
                WEIGHT_ONE,
                state_id(s2, i + k, j + x + 1),
            ),
    )
}

/// Substitution arcs of `(i, j)` that take from 1 to `k` input tokens, by input length.
pub open spec fn substitution_rows(c: Config, s1: Seq<Seq<char>>, s2: Seq<Seq<char>>, i: int, j: int, k: int) -> Seq<GridArc>
    decreases k,
{
    if k <= 0 {
        Seq::empty()
    } else {
        substitution_rows(c, s1, s2, i, j, k - 1) + substitution_row(c, s1, s2, i, j, k)
    }
}

/// All arcs of grid state `(i, j)`, in order: insertions, deletions, substitutions.
pub open spec fn grid_arcs(c: Config, s1: Seq<Seq<char>>, s2: Seq<Seq<char>>, i: int, j: int) -> Seq<GridArc> {
    insertion_arcs(c, s1, s2, i, j) + deletion_arcs(c, s1, s2, i, j) + substitution_rows(
        c,
        s1,
        s2,
        i,
        j,
        k_max(c, s1, i),
    )
}

/// The executable form of a list of grid arcs, viewed.
pub open spec fn arcs_view(v: Seq<(String, u32, u32)>) -> Seq<GridArc> {
    v.map_values(|a: (String, u32, u32)| (a.0@, a.1, a.2 as int))
}

proof fn lemma_state_id_bounds(s1: Seq<Seq<char>>, s2: Seq<Seq<char>>, i: int, j: int)
    requires
        0 <= i <= s1.len(),
        0 <= j <= s2.len(),
    ensures
        0 <= state_id(s2, i, j) < grid_size(s1, s2),
        state_id(s2, i, j) == i * width(s2) + j,
{
    assert(0 <= i * (s2.len() + 1)) by (nonlinear_arith)
        requires 0 <= i, 0 <= s2.len();
    assert(i * (s2.len() + 1) + j < (s1.len() + 1) * (s2.len() + 1)) by (nonlinear_arith)
        requires 0 <= i <= s1.len(), 0 <= j <= s2.len();
}

/// Joins `len` tokens of `v` from `from` with `sep`.
pub(crate) fn join_chunk(v: &Vec<String>, from: usize, len: usize, sep: &str) -> (r: String)
    requires
        1 <= len,
        from + len <= v.len(),
    ensures
        r@ == chunk(views(v@), from as int, len as int, sep@),
{
    let mut r = v[from].clone();
    let mut t: usize = 1;
    proof {
        assert(views(v@).subrange(from as int, from + 1) =~= seq![v@[from as int]@]);
    }
    while t < len
        invariant
            1 <= t <= len,
            from + len <= v.len(),
            r@ == chunk(views(v@), from as int, t as int, sep@),
        decreases len - t,
    {
        r.append(sep);
        r.append(v[from + t].as_str());
        proof {
            let s = views(v@).subrange(from as int, from + t + 1);
            assert(s.drop_last() =~= views(v@).subrange(from as int, from + t));
        }
        t = t + 1;
    }
    r
}

/// Builds an alignment token from its two sides.
pub(crate) fn make_token(left: &str, sep: &str, right: &str) -> (r: String)
    ensures
        r@ == left@ + sep@ + right@,
{
    let mut r = String::from_str(left);
    r.append(sep);
    r.append(right);
    r
}

/// Id of grid state `(i, j)`, as a state id.
fn grid_id(s1: &Vec<String>, s2: &Vec<String>, i: usize, j: usize) -> (r: u32)
    requires
        i <= s1.len(),
        j <= s2.len(),
        grid_size(views(s1@), views(s2@)) <= u32::MAX,
    ensures
        r == state_id(views(s2@), i as int, j as int),
        (r as int) < grid_size(views(s1@), views(s2@)),
{
    proof {
        lemma_state_id_bounds(views(s1@), views(s2@), i as int, j as int);
        let n1 = s1.len() as int;
        let n2 = s2.len() as int;
        assert(n2 + 1 <= (n1 + 1) * (n2 + 1)) by (nonlinear_arith)
            requires 0 <= n1, 0 <= n2;
    }
    (i * (s2.len() + 1) + j) as u32
}

/// The arcs of grid state `(i, j)`, each as token, seed weight and destination id.
fn grid_arcs_of(c: &Config, s1: &Vec<String>, s2: &Vec<String>, i: usize, j: usize) -> (r: Vec<(String, u32, u32)>)
    requires
        i <= s1.len(),
        j <= s2.len(),
        grid_size(views(s1@), views(s2@)) <= u32::MAX,
    ensures
        arcs_view(r@) == grid_arcs(*c, views(s1@), views(s2@), i as int, j as int),
{
    let ghost v1 = views(s1@);
    let ghost v2 = views(s2@);
    let kmax: usize = if (c.seq1_max as usize) < s1.len() - i { c.seq1_max as usize } else { s1.len() - i };
    let lmax: usize = if (c.seq2_max as usize) < s2.len() - j { c.seq2_max as usize } else { s2.len() - j };
    let mut r: Vec<(String, u32, u32)> = Vec::new();
    if c.seq1_del {
        let mut x: usize = 0;
        while x < lmax
            invariant
                x <= lmax,
                lmax == l_max(*c, v2, j as int),
                i <= s1.len(),
                j <= s2.len(),
                c.seq1_del,
                v1 == views(s1@),
                v2 == views(s2@),
                grid_size(v1, v2) <= u32::MAX,
                arcs_view(r@) == insertion_arcs(*c, v1, v2, i as int, j as int).take(x as int),
            decreases lmax - x,
        {
            let part = join_chunk(s2, j, x + 1, c.seq2_sep.as_str());
            let t = make_token(c.skip.as_str(), c.s1s2_sep.as_str(), part.as_str());
            let next = grid_id(s1, s2, i, j + x + 1);
            let ghost before = r@;
            r.push((t, DELETION_SEED, next));
            proof {
                assert(arcs_view(r@) =~= arcs_view(before).push((t@, DELETION_SEED, next as int)));
                assert(arcs_view(r@) =~= insertion_arcs(*c, v1, v2, i as int, j as int).take(x + 1));
            }
            x = x + 1;
        }
        proof {
            assert(insertion_arcs(*c, v1, v2, i as int, j as int).take(x as int)
                =~= insertion_arcs(*c, v1, v2, i as int, j as int));
        }
    }
    assert(arcs_view(r@) =~= insertion_arcs(*c, v1, v2, i as int, j as int));
    let ghost ins = r@;
    if c.seq2_del {
        let mut x: usize = 0;
        while x < kmax
            invariant
                x <= kmax,
                kmax == k_max(*c, v1, i as int),
                i <= s1.len(),
                j <= s2.len(),
                c.seq2_del,
                v1 == views(s1@),
                v2 == views(s2@),
                grid_size(v1, v2) <= u32::MAX,
                arcs_view(r@) == insertion_arcs(*c, v1, v2, i as int, j as int)
                    + deletion_arcs(*c, v1, v2, i as int, j as int).take(x as int),
            decreases kmax - x,
        {
            let part = join_chunk(s1, i, x + 1, c.seq1_sep.as_str());
            let t = make_token(part.as_str(), c.s1s2_sep.as_str(), c.skip.as_str());
            let next = grid_id(s1, s2, i + x + 1, j);
            let ghost before = r@;
            r.push((t, DELETION_SEED, next));
            proof {
                assert(arcs_view(r@) =~= arcs_view(before).push((t@, DELETION_SEED, next as int)));
                assert(arcs_view(r@) =~= insertion_arcs(*c, v1, v2, i as int, j as int)
                    + deletion_arcs(*c, v1, v2, i as int, j as int).take(x + 1));
            }
            x = x + 1;
        }
        proof {
            assert(deletion_arcs(*c, v1, v2, i as int, j as int).take(x as int)
                =~= deletion_arcs(*c, v1, v2, i as int, j as int));
        }
    }
    assert(arcs_view(r@) =~= insertion_arcs(*c, v1, v2, i as int, j as int)
        + deletion_arcs(*c, v1, v2, i as int, j as int) + substitution_rows(*c, v1, v2, i as int, j as int, 0));
    let mut k: usize = 1;
    while k <= kmax
        invariant
            1 <= k <= kmax + 1,
            kmax == k_max(*c, v1, i as int),
            lmax == l_max(*c, v2, j as int),
            i <= s1.len(),
            j <= s2.len(),
            v1 == views(s1@),
            v2 == views(s2@),
            grid_size(v1, v2) <= u32::MAX,
            arcs_view(r@) == insertion_arcs(*c, v1, v2, i as int, j as int)
                + deletion_arcs(*c, v1, v2, i as int, j as int)
                + substitution_rows(*c, v1, v2, i as int, j as int, k - 1),
        decreases kmax + 1 - k,
    {
        let rl: usize = if c.restrict && k > 1 { if lmax >= 1 { 1 } else { 0 } } else { lmax };
        let left = join_chunk(s1, i, k, c.seq1_sep.as_str());
        let ghost head = arcs_view(r@);
        let mut x: usize = 0;
        while x < rl
            invariant
                x <= rl,
                rl == row_len(*c, v2, j as int, k as int),
                1 <= k <= kmax,
                kmax == k_max(*c, v1, i as int),
                i <= s1.len(),
                j <= s2.len(),
                v1 == views(s1@),
                v2 == views(s2@),
                left@ == chunk(v1, i as int, k as int, c.seq1_sep@),
                grid_size(v1, v2) <= u32::MAX,
                arcs_view(r@) == head + substitution_row(*c, v1, v2, i as int, j as int, k as int).take(x as int),
            decreases rl - x,
        {
            let right = join_chunk(s2, j, x + 1, c.seq2_sep.as_str());
            let t = make_token(left.as_str(), c.s1s2_sep.as_str(), right.as_str());
            let next = grid_id(s1, s2, i + k, j + x + 1);
            let ghost before = r@;
            r.push((t, WEIGHT_ONE, next));
            proof {
                assert(arcs_view(r@) =~= arcs_view(before).push((t@, WEIGHT_ONE, next as int)));
                assert(arcs_view(r@) =~= head + substitution_row(*c, v1, v2, i as int, j as int, k as int).take(x + 1));
            }
            x = x + 1;
        }
        proof {
            assert(substitution_row(*c, v1, v2, i as int, j as int, k as int).take(x as int)
                =~= substitution_row(*c, v1, v2, i as int, j as int, k as int));
            assert(arcs_view(r@) =~= insertion_arcs(*c, v1, v2, i as int, j as int)
                + deletion_arcs(*c, v1, v2, i as int, j as int)
                + substitution_rows(*c, v1, v2, i as int, j as int, k as int));
        }
        k = k + 1;
    }
    r
}

/// Arc `a` of a lattice stands for grid arc `g`: the label names the token.
pub open spec fn arc_matches(a: (u32, u32, u32), g: GridArc, syms: Seq<Seq<char>>) -> bool {
    label_in(syms, g.0, a.0 as int) && a.1 == g.1 && a.2 as int == g.2
}

/// State `st` of a lattice stands for a grid state with arcs `g` and final weight `fin`.
pub open spec fn state_matches(st: StateModel, g: Seq<GridArc>, fin: Option<u32>, syms: Seq<Seq<char>>) -> bool {
    &&& st.0.len() == g.len()
    &&& forall|x: int| 0 <= x < g.len() ==> arc_matches(#[trigger] st.0[x], g[x], syms)
    &&& st.1 == fin
}

/// Final weight of grid state `(i, j)`: semiring one at the accepting corner.
pub open spec fn grid_final(s1: Seq<Seq<char>>, s2: Seq<Seq<char>>, i: int, j: int) -> Option<u32> {
    if i == s1.len() && j == s2.len() { Some(WEIGHT_ONE) } else { None }
}

/// `i` and `j` name a state of the grid of `(s1, s2)`.
pub open spec fn in_grid(s1: Seq<Seq<char>>, s2: Seq<Seq<char>>, i: int, j: int) -> bool {
    0 <= i <= s1.len() && 0 <= j <= s2.len()
}

/// The lattice is the grid of `(s1, s2)` under configuration `c`, each label naming
/// its token in `syms`: one state per grid cell, start at `(0, 0)`, accept at the
/// far corner.
pub open spec fn is_grid_lattice(
    states: Seq<StateModel>,
    start: Option<u32>,
    c: Config,
    s1: Seq<Seq<char>>,
    s2: Seq<Seq<char>>,
    syms: Seq<Seq<char>>,
) -> bool {
    &&& states.len() == grid_size(s1, s2)
    &&& start == Some(0u32)
    &&& forall|i: int, j: int|
        #![trigger state_id(s2, i, j)]
        in_grid(s1, s2, i, j) ==> state_matches(
            states[state_id(s2, i, j)],
            grid_arcs(c, s1, s2, i, j),
            grid_final(s1, s2, i, j),
            syms,
        )
}

/// `a` is `b` with possibly more symbols after it.
pub open spec fn extends(a: Seq<Seq<char>>, b: Seq<Seq<char>>) -> bool {
    b.len() <= a.len() && a.subrange(0, b.len() as int) == b
}

proof fn lemma_rows_len(c: Config, s1: Seq<Seq<char>>, s2: Seq<Seq<char>>, i: int, j: int, k: int)
    requires
        0 <= k,
        0 <= j <= s2.len(),
    ensures
        substitution_rows(c, s1, s2, i, j, k).len() <= k * 255,
    decreases k,
{
    if k > 0 {
        lemma_rows_len(c, s1, s2, i, j, k - 1);
        assert(row_len(c, s2, j, k) <= 255);
        assert((k - 1) * 255 + 255 == k * 255) by (nonlinear_arith);
    }
}

/// A grid state has at most 65535 arcs.
proof fn lemma_grid_arcs_len(c: Config, s1: Seq<Seq<char>>, s2: Seq<Seq<char>>, i: int, j: int)
    requires
        in_grid(s1, s2, i, j),
    ensures
        grid_arcs(c, s1, s2, i, j).len() <= 65535,
{
    let km = k_max(c, s1, i);
    lemma_rows_len(c, s1, s2, i, j, km);
    assert(km * 255 <= 255 * 255) by (nonlinear_arith)
        requires 0 <= km <= 255;
}

proof fn lemma_state_id_injective(s2: Seq<Seq<char>>, i: int, j: int, i2: int, j2: int)
    requires
        0 <= j <= s2.len(),
        0 <= j2 <= s2.len(),
        state_id(s2, i, j) == state_id(s2, i2, j2),
    ensures
        i == i2,
        j == j2,
{
    let x = state_id(s2, i, j);
    lemma_fundamental_div_mod_converse(x, width(s2), i, j);
    lemma_fundamental_div_mod_converse(x, width(s2), i2, j2);
}

proof fn lemma_labels_kept(a: Seq<Seq<char>>, b: Seq<Seq<char>>)
    requires
        extends(b, a),
    ensures
        forall|s: Seq<char>, l: int| label_in(a, s, l) ==> #[trigger] label_in(b, s, l),
{
    assert forall|s: Seq<char>, l: int| label_in(a, s, l) implies #[trigger] label_in(b, s, l) by {
        assert(b.subrange(0, a.len() as int)[l] == b[l]);
    }
}

proof fn lemma_extends_trans(a: Seq<Seq<char>>, b: Seq<Seq<char>>, c: Seq<Seq<char>>)
    requires
        extends(b, a),
        extends(c, b),
    ensures
        extends(c, a),
{
    assert(c.subrange(0, a.len() as int) =~= c.subrange(0, b.len() as int).subrange(0, a.len() as int));
}

/// Adds to state `q` one arc for each entry of `arcs`, labelled with its token.
fn add_token_arcs(f: &mut Lattice, syms: &mut SymbolTable, q: u32, arcs: &Vec<(String, u32, u32)>) -> (r: Result<(), AlignError>)
    requires
        (q as int) < fst_states(*old(f)).len(),
        fst_states(*old(f))[q as int].0.len() == 0,
    ensures
        extends(symbol_list(*final(syms)), symbol_list(*old(syms))),
        symbol_list(*old(syms)).no_duplicates() ==> symbol_list(*final(syms)).no_duplicates(),
        symbol_list(*old(syms)).len() <= u32::MAX ==> symbol_list(*final(syms)).len() <= u32::MAX,
        fst_start(*final(f)) == fst_start(*old(f)),
        r is Ok ==> fst_states(*final(f)).len() == fst_states(*old(f)).len(),
        r is Ok ==> forall|p: int| 0 <= p < fst_states(*old(f)).len() && p != q
            ==> #[trigger] fst_states(*final(f))[p] == fst_states(*old(f))[p],
        r is Ok ==> state_matches(
            fst_states(*final(f))[q as int],
            arcs_view(arcs@),
            fst_states(*old(f))[q as int].1,
            symbol_list(*final(syms)),
        ),
        r is Err ==> r == Err::<(), AlignError>(AlignError::SymbolOverflow) && symbol_list(*final(syms)).len() >= u32::MAX,
        r is Err ==> symbol_list(*old(syms)).len() + arcs.len() > u32::MAX,
        symbol_list(*final(syms)).len() <= symbol_list(*old(syms)).len() + arcs.len(),
{
    let ghost old_states = fst_states(*f);
    let ghost old_syms = symbol_list(*syms);
    assert(old_syms.subrange(0, old_syms.len() as int) =~= old_syms);
    let mut x: usize = 0;
    while x < arcs.len()
        invariant
            x <= arcs.len(),
            (q as int) < old_states.len(),
            old_syms == symbol_list(*old(syms)),
            extends(symbol_list(*syms), old_syms),
            old_syms.no_duplicates() ==> symbol_list(*syms).no_duplicates(),
            old_syms.len() <= u32::MAX ==> symbol_list(*syms).len() <= u32::MAX,
            symbol_list(*syms).len() <= old_syms.len() + x,
            fst_start(*f) == fst_start(*old(f)),
            fst_states(*f).len() == old_states.len(),
            forall|p: int| 0 <= p < old_states.len() && p != q ==> #[trigger] fst_states(*f)[p] == old_states[p],
            fst_states(*f)[q as int].0.len() == x,
            fst_states(*f)[q as int].1 == old_states[q as int].1,
            forall|y: int| 0 <= y < x ==> arc_matches(#[trigger] fst_states(*f)[q as int].0[y], arcs_view(arcs@)[y], symbol_list(*syms)),
        decreases arcs.len() - x,
    {
        if table_len(syms) >= 0xffff_ffffusize {
            return Err(AlignError::SymbolOverflow);
        }
        let ghost before = symbol_list(*syms);
        let label = add_symbol(syms, arcs[x].0.as_str());
        proof {
            assert(symbol_list(*syms).subrange(0, before.len() as int) =~= before);
            lemma_labels_kept(before, symbol_list(*syms));
            assert(symbol_list(*syms).subrange(0, old_syms.len() as int) =~= before.subrange(0, old_syms.len() as int));
        }
        add_arc(f, q, label, arcs[x].1, arcs[x].2);
        x = x + 1;
    }
    proof {
        assert(arcs_view(arcs@).len() == arcs@.len());
    }
    Ok(())
}

/// Builds the grid lattice of the training pair `(seq1, seq2)`, before any trimming:
/// one state per grid cell, the arcs that the configuration admits, each labelled
/// with its token in `syms` (tokens not yet there are added), start at `(0, 0)`
/// and accept, with weight one, at `(|seq1|, |seq2|)`.
pub fn build_lattice(c: &Config, syms: &mut SymbolTable, seq1: &Vec<String>, seq2: &Vec<String>) -> (r: Result<Lattice, AlignError>)
    ensures
        extends(symbol_list(*final(syms)), symbol_list(*old(syms))),
        symbol_list(*old(syms)).no_duplicates() ==> symbol_list(*final(syms)).no_duplicates(),
        symbol_list(*old(syms)).len() <= u32::MAX ==> symbol_list(*final(syms)).len() <= u32::MAX,
        r is Ok ==> is_grid_lattice(
            fst_states(r->Ok_0),
            fst_start(r->Ok_0),
            *c,
            views(seq1@),
            views(seq2@),
            symbol_list(*final(syms)),
        ),
        r matches Err(AlignError::LatticeTooLarge) <==> grid_size(views(seq1@), views(seq2@)) > u32::MAX,
        r is Err ==> (r matches Err(AlignError::LatticeTooLarge) || (r matches Err(AlignError::SymbolOverflow)
            && symbol_list(*final(syms)).len() >= u32::MAX)),
        r matches Err(AlignError::SymbolOverflow) ==> symbol_list(*old(syms)).len() + grid_size(views(seq1@), views(seq2@))
            * 65535 > u32::MAX,
{
    let ghost v1 = views(seq1@);
    let ghost v2 = views(seq2@);
    let ghost old_syms = symbol_list(*syms);
    assert(old_syms.subrange(0, old_syms.len() as int) =~= old_syms);
    let n1 = seq1.len();
    let n2 = seq2.len();
    if n1 as u64 >= 0xffff_ffffu64 || n2 as u64 >= 0xffff_ffffu64 {
        proof {
            let a = n1 as int;
            let b = n2 as int;
            assert((a + 1) * (b + 1) > 0xffff_ffff) by (nonlinear_arith)
                requires a >= 0, b >= 0, a >= 0xffff_ffff || b >= 0xffff_ffff;
        }
        return Err(AlignError::LatticeTooLarge);
    }
    assert((n1 as u64 + 1) * (n2 as u64 + 1) <= 0xffff_ffff_ffff_ffff) by (nonlinear_arith)
        requires n1 < 0xffff_ffff, n2 < 0xffff_ffff;
    let cells: u64 = (n1 as u64 + 1) * (n2 as u64 + 1);
    if cells > 0xffff_ffffu64 {
        return Err(AlignError::LatticeTooLarge);
    }
    let mut f = new_lattice();
    let mut i: usize = 0;
    while i <= n1
        invariant
            v1 == views(seq1@),
            v2 == views(seq2@),
            n1 == seq1.len(),
            n2 == seq2.len(),
            n1 < 0xffff_ffff,
            n2 < 0xffff_ffff,
            cells == grid_size(v1, v2),
            grid_size(v1, v2) <= u32::MAX,
            i <= n1 + 1,
            fst_states(f).len() == state_id(v2, i as int, 0),
            symbol_list(*syms).len() <= old_syms.len() + state_id(v2, i as int, 0) * 65535,
            fst_start(f) is None,
            old_syms == symbol_list(*old(syms)),
            extends(symbol_list(*syms), old_syms),
            old_syms.no_duplicates() ==> symbol_list(*syms).no_duplicates(),
            old_syms.len() <= u32::MAX ==> symbol_list(*syms).len() <= u32::MAX,
            forall|a: int, b: int|
                #![trigger state_id(v2, a, b)]
                in_grid(v1, v2, a, b) && a < i ==> state_matches(
                    fst_states(f)[state_id(v2, a, b)],
                    grid_arcs(*c, v1, v2, a, b),
                    None,
                    symbol_list(*syms),
                ),
        decreases n1 + 1 - i,
    {
        let mut j: usize = 0;
        while j <= n2
            invariant
                v1 == views(seq1@),
                v2 == views(seq2@),
                n1 == seq1.len(),
                n2 == seq2.len(),
                n1 < 0xffff_ffff,
                n2 < 0xffff_ffff,
                cells == grid_size(v1, v2),
                grid_size(v1, v2) <= u32::MAX,
                i <= n1,
                j <= n2 + 1,
                fst_states(f).len() == state_id(v2, i as int, j as int),
                symbol_list(*syms).len() <= old_syms.len() + state_id(v2, i as int, j as int) * 65535,
                fst_start(f) is None,
                old_syms == symbol_list(*old(syms)),
                extends(symbol_list(*syms), old_syms),
                old_syms.no_duplicates() ==> symbol_list(*syms).no_duplicates(),
                old_syms.len() <= u32::MAX ==> symbol_list(*syms).len() <= u32::MAX,
                forall|a: int, b: int|
                    #![trigger state_id(v2, a, b)]
                    in_grid(v1, v2, a, b) && (a < i || (a == i && b < j)) ==> state_matches(
                        fst_states(f)[state_id(v2, a, b)],
                        grid_arcs(*c, v1, v2, a, b),
                        None,
                        symbol_list(*syms),
                    ),
            decreases n2 + 1 - j,
        {
            proof {
                lemma_state_id_bounds(v1, v2, i as int, j as int);
            }
            let ghost states_before = fst_states(f);
            let ghost syms_before = symbol_list(*syms);
            let q = add_state(&mut f);
            let arcs = grid_arcs_of(c, seq1, seq2, i, j);
            let res = add_token_arcs(&mut f, syms, q, &arcs);
            proof {
                lemma_extends_trans(old_syms, syms_before, symbol_list(*syms));
                lemma_grid_arcs_len(*c, v1, v2, i as int, j as int);
                assert(arcs_view(arcs@).len() == arcs@.len());
                let sid = state_id(v2, i as int, j as int);
                assert(sid * 65535 + 65535 == (sid + 1) * 65535) by (nonlinear_arith);
                assert(sid + 1 <= grid_size(v1, v2));
                assert((sid + 1) * 65535 <= grid_size(v1, v2) * 65535) by (nonlinear_arith)
                    requires sid + 1 <= grid_size(v1, v2);
            }
            if res.is_err() {
                return Err(AlignError::SymbolOverflow);
            }
            proof {
                lemma_labels_kept(syms_before, symbol_list(*syms));
                assert forall|a: int, b: int|
                    #![trigger state_id(v2, a, b)]
                    in_grid(v1, v2, a, b) && (a < i || (a == i && b < j + 1)) implies state_matches(
                        fst_states(f)[state_id(v2, a, b)],
                        grid_arcs(*c, v1, v2, a, b),
                        None,
                        symbol_list(*syms),
                    ) by {
                    if a == i && b == j {
                    } else {
                        if state_id(v2, a, b) == q as int {
                            lemma_state_id_injective(v2, a, b, i as int, j as int);
                        }
                        if a < i {
                            assert(state_id(v2, a, b) < state_id(v2, i as int, 0)) by (nonlinear_arith)
                                requires a < i, 0 <= b <= n2, state_id(v2, a, b) == a * width(v2) + b,
                                    state_id(v2, i as int, 0) == i * width(v2) + 0, width(v2) == n2 + 1;
                        }
                        let st = fst_states(f)[state_id(v2, a, b)];
                        assert(st == states_before[state_id(v2, a, b)]);
                        assert forall|x: int| 0 <= x < grid_arcs(*c, v1, v2, a, b).len() implies arc_matches(
                            #[trigger] st.0[x],
                            grid_arcs(*c, v1, v2, a, b)[x],
                            symbol_list(*syms),
                        ) by {
                            assert(arc_matches(st.0[x], grid_arcs(*c, v1, v2, a, b)[x], syms_before));
                        }
                    }
                }
            }
            j = j + 1;
        }
        proof {
            assert(state_id(v2, i as int, (n2 + 1) as int) == state_id(v2, i + 1, 0)) by (nonlinear_arith)
                requires width(v2) == n2 + 1, state_id(v2, i as int, n2 + 1) == i * width(v2) + n2 + 1,
                    state_id(v2, i + 1, 0) == (i + 1) * width(v2) + 0;
        }
        i = i + 1;
    }
    proof {
        assert(state_id(v2, n1 + 1, 0) == grid_size(v1, v2)) by (nonlinear_arith)
            requires width(v2) == n2 + 1, state_id(v2, n1 + 1, 0) == (n1 + 1) * width(v2) + 0,
                grid_size(v1, v2) == (n1 + 1) * (n2 + 1);
        lemma_state_id_bounds(v1, v2, n1 as int, n2 as int);
        assert(state_id(v2, n1 as int, n2 as int) == grid_size(v1, v2) - 1) by (nonlinear_arith)
            requires width(v2) == n2 + 1, state_id(v2, n1 as int, n2 as int) == n1 * width(v2) + n2,
                grid_size(v1, v2) == (n1 + 1) * (n2 + 1);
    }
    set_start(&mut f, 0);
    let last = (cells - 1) as u32;
    let ghost states_before = fst_states(f);
    set_final(&mut f, last, WEIGHT_ONE);
    proof {
        assert forall|a: int, b: int|
            #![trigger state_id(v2, a, b)]
            in_grid(v1, v2, a, b) implies state_matches(
                fst_states(f)[state_id(v2, a, b)],
                grid_arcs(*c, v1, v2, a, b),
                grid_final(v1, v2, a, b),
                symbol_list(*syms),
            ) by {
            lemma_state_id_bounds(v1, v2, a, b);
            if state_id(v2, a, b) == last as int {
                lemma_state_id_injective(v2, a, b, n1 as int, n2 as int);
            }
            assert(state_matches(states_before[state_id(v2, a, b)], grid_arcs(*c, v1, v2, a, b), None, symbol_list(*syms)));
        }
    }
    Ok(f)
}

/// A grid has at least one state.
pub(crate) proof fn lemma_state_count(s1: Seq<Seq<char>>, s2: Seq<Seq<char>>)
    ensures
        grid_size(s1, s2) >= 1,
{
    assert((s1.len() + 1) * (s2.len() + 1) >= 1) by (nonlinear_arith);
}

/// Row of state id `q`: input tokens consumed.
pub open spec fn row_of(s2: Seq<Seq<char>>, q: int) -> int {
    q / width(s2)
}

/// Column of state id `q`: output tokens consumed.
pub open spec fn col_of(s2: Seq<Seq<char>>, q: int) -> int {
    q % width(s2)
}

/// Id of the state `k` rows and `l` columns past `(i, j)`.
pub open spec fn target(s2: Seq<Seq<char>>, i: int, j: int, k: int, l: int) -> int {
    state_id(s2, i + k, j + l)
}

/// One admissible move from `(i, j)`: `k` input and `l` output tokens.
pub open spec fn step_ok(c: Config, s1: Seq<Seq<char>>, s2: Seq<Seq<char>>, i: int, j: int, k: int, l: int) -> bool {
    &&& 0 <= k <= k_max(c, s1, i)
    &&& 0 <= l <= l_max(c, s2, j)
    &&& k + l >= 1
    &&& k == 0 ==> c.seq1_del
    &&& l == 0 ==> c.seq2_del
    &&& c.restrict && k > 1 ==> l <= 1
}

/// The grid has an arc from id `p` to id `q`.
pub open spec fn grid_step(c: Config, s1: Seq<Seq<char>>, s2: Seq<Seq<char>>, p: int, q: int) -> bool {
    &&& 0 <= p < grid_size(s1, s2)
    &&& exists|x: int|
        0 <= x < grid_arcs(c, s1, s2, row_of(s2, p), col_of(s2, p)).len()
            && #[trigger] grid_arcs(c, s1, s2, row_of(s2, p), col_of(s2, p))[x].2 == q
}

/// `path` runs along grid arcs from the start `(0, 0)` to the accepting corner.
pub open spec fn is_grid_path(c: Config, s1: Seq<Seq<char>>, s2: Seq<Seq<char>>, path: Seq<int>) -> bool {
    &&& path.len() >= 1
    &&& path[0] == 0
    &&& path.last() == grid_size(s1, s2) - 1
    &&& forall|t: int| 0 <= t < path.len() - 1 ==> grid_step(c, s1, s2, #[trigger] path[t], path[t + 1])
}

/// Some path of the grid leads from start to accept.
pub open spec fn grid_has_path(c: Config, s1: Seq<Seq<char>>, s2: Seq<Seq<char>>) -> bool {
    exists|path: Seq<int>| is_grid_path(c, s1, s2, path)
}

proof fn lemma_decode(s1: Seq<Seq<char>>, s2: Seq<Seq<char>>, q: int)
    requires
        0 <= q < grid_size(s1, s2),
    ensures
        in_grid(s1, s2, row_of(s2, q), col_of(s2, q)),
        state_id(s2, row_of(s2, q), col_of(s2, q)) == q,
{
    let w = width(s2);
    lemma_fundamental_div_mod(q, w);
    lemma_mod_pos_bound(q, w);
    let r = q / w;
    let n1 = s1.len() as int;
    assert(0 <= r <= n1) by (nonlinear_arith)
        requires q == w * r + q % w, 0 <= q % w < w, 0 <= q, q < (n1 + 1) * w, w >= 1;
    assert(state_id(s2, r, q % w) == r * w + q % w);
    assert(r * w == w * r) by (nonlinear_arith);
}

proof fn lemma_rows_shape(c: Config, s1: Seq<Seq<char>>, s2: Seq<Seq<char>>, i: int, j: int, k: int, x: int)
    requires
        0 <= x < substitution_rows(c, s1, s2, i, j, k).len(),
        k <= k_max(c, s1, i),
        in_grid(s1, s2, i, j),
    ensures
        exists|kk: int, l: int|
            1 <= kk <= k && 1 <= l <= l_max(c, s2, j) && (c.restrict && kk > 1 ==> l <= 1)
                && substitution_rows(c, s1, s2, i, j, k)[x].2 == #[trigger] target(s2, i, j, kk, l),
    decreases k,
{
    if k <= 0 {
    } else {
        let head = substitution_rows(c, s1, s2, i, j, k - 1);
        if x < head.len() {
            lemma_rows_shape(c, s1, s2, i, j, k - 1, x);
            let (kk, l) = choose|kk: int, l: int|
                1 <= kk <= k - 1 && 1 <= l <= l_max(c, s2, j) && (c.restrict && kk > 1 ==> l <= 1)
                    && substitution_rows(c, s1, s2, i, j, k - 1)[x].2 == #[trigger] target(s2, i, j, kk, l);
            assert(substitution_rows(c, s1, s2, i, j, k)[x] == head[x]);
            assert(substitution_rows(c, s1, s2, i, j, k)[x].2 == target(s2, i, j, kk, l));
        } else {
            let y = x - head.len();
            assert(substitution_rows(c, s1, s2, i, j, k)[x] == substitution_row(c, s1, s2, i, j, k)[y]);
            assert(substitution_rows(c, s1, s2, i, j, k)[x].2 == target(s2, i, j, k, y + 1));
            assert(y < row_len(c, s2, j, k));
            assert(1 <= y + 1 <= l_max(c, s2, j));
            assert(c.restrict && k > 1 ==> y + 1 <= 1);
        }
    }
}

/// Every arc of grid state `(i, j)` is an admissible move.
pub proof fn lemma_arc_shape(c: Config, s1: Seq<Seq<char>>, s2: Seq<Seq<char>>, i: int, j: int, x: int)
    requires
        in_grid(s1, s2, i, j),
        0 <= x < grid_arcs(c, s1, s2, i, j).len(),
    ensures
        exists|k: int, l: int|
            step_ok(c, s1, s2, i, j, k, l) && grid_arcs(c, s1, s2, i, j)[x].2 == #[trigger] target(s2, i, j, k, l),
{
    let ins = insertion_arcs(c, s1, s2, i, j);
    let del = deletion_arcs(c, s1, s2, i, j);
    let sub = substitution_rows(c, s1, s2, i, j, k_max(c, s1, i));
    let g = grid_arcs(c, s1, s2, i, j);
    if x < ins.len() {
        assert(g[x] == ins[x]);
        assert(step_ok(c, s1, s2, i, j, 0, x + 1));
        assert(g[x].2 == target(s2, i, j, 0, x + 1));
    } else if x < ins.len() + del.len() {
        let y = x - ins.len();
        assert(g[x] == del[y]);
        assert(step_ok(c, s1, s2, i, j, y + 1, 0));
        assert(g[x].2 == target(s2, i, j, y + 1, 0));
    } else {
        let y = x - ins.len() - del.len();
        assert(g[x] == sub[y]);
        lemma_rows_shape(c, s1, s2, i, j, k_max(c, s1, i), y);
        let (k, l) = choose|kk: int, l: int|
            1 <= kk <= k_max(c, s1, i) && 1 <= l <= l_max(c, s2, j) && (c.restrict && kk > 1 ==> l <= 1)
                && sub[y].2 == #[trigger] target(s2, i, j, kk, l);
        assert(step_ok(c, s1, s2, i, j, k, l));
    }
}

/// A grid arc from `p` to `q` is an admissible move between their grid states.
proof fn lemma_step(c: Config, s1: Seq<Seq<char>>, s2: Seq<Seq<char>>, p: int, q: int)
    requires
        grid_step(c, s1, s2, p, q),
    ensures
        0 <= q < grid_size(s1, s2),
        step_ok(c, s1, s2, row_of(s2, p), col_of(s2, p), row_of(s2, q) - row_of(s2, p), col_of(s2, q) - col_of(s2, p)),
{
    lemma_decode(s1, s2, p);
    let i = row_of(s2, p);
    let j = col_of(s2, p);
    let x = choose|x: int|
        0 <= x < grid_arcs(c, s1, s2, i, j).len() && #[trigger] grid_arcs(c, s1, s2, i, j)[x].2 == q;
    lemma_arc_shape(c, s1, s2, i, j, x);
    let (k, l) = choose|k: int, l: int|
        step_ok(c, s1, s2, i, j, k, l) && grid_arcs(c, s1, s2, i, j)[x].2 == #[trigger] target(s2, i, j, k, l);
    lemma_state_id_bounds(s1, s2, i + k, j + l);
    lemma_decode(s1, s2, q);
    lemma_state_id_injective(s2, i + k, j + l, row_of(s2, q), col_of(s2, q));
}

/// A lattice built from the grid keeps its arcs inside, its labels inside the
/// symbol table, and has a path from start to accept exactly when the grid has one.
pub proof fn lemma_grid_lattice(
    states: Seq<StateModel>,
    start: Option<u32>,
    c: Config,
    s1: Seq<Seq<char>>,
    s2: Seq<Seq<char>>,
    syms: Seq<Seq<char>>,
)
    requires
        is_grid_lattice(states, start, c, s1, s2, syms),
    ensures
        arcs_in_range(states),
        arcs_ascend(states),
        start_in_range(states, start),
        forall|l: u32| arc_labels(states).contains(l) ==> (l as int) < syms.len(),
        has_accepting_path(states, start) <==> grid_has_path(c, s1, s2),
{
    lemma_state_count(s1, s2);
    assert forall|q: int, x: int| 0 <= q < states.len() && 0 <= x < states[q].0.len() implies
        (#[trigger] states[q].0[x]).2 < states.len() && (states[q].0[x].0 as int) < syms.len()
        && grid_step(c, s1, s2, q, states[q].0[x].2 as int) && states[q].0[x].2 > q by {
        lemma_decode(s1, s2, q);
        let i = row_of(s2, q);
        let j = col_of(s2, q);
        assert(state_matches(states[state_id(s2, i, j)], grid_arcs(c, s1, s2, i, j), grid_final(s1, s2, i, j), syms));
        assert(arc_matches(states[q].0[x], grid_arcs(c, s1, s2, i, j)[x], syms));
        lemma_arc_shape(c, s1, s2, i, j, x);
        let (k, l) = choose|k: int, l: int|
            step_ok(c, s1, s2, i, j, k, l) && grid_arcs(c, s1, s2, i, j)[x].2 == #[trigger] target(s2, i, j, k, l);
        lemma_state_id_bounds(s1, s2, i + k, j + l);
        let w = width(s2);
        assert(target(s2, i, j, k, l) > state_id(s2, i, j)) by (nonlinear_arith)
            requires target(s2, i, j, k, l) == (i + k) * w + (j + l), state_id(s2, i, j) == i * w + j,
                k >= 0, l >= 0, k + l >= 1, w >= 1;
    }
    assert forall|l: u32| arc_labels(states).contains(l) implies (l as int) < syms.len() by {
        let (q, x) = choose|q: int, x: int| 0 <= q < states.len() && 0 <= x < states[q].0.len() && #[trigger] states[q].0[x].0 == l;
        assert((states[q].0[x].0 as int) < syms.len());
    }
    let last = grid_size(s1, s2) - 1;
    lemma_state_id_bounds(s1, s2, s1.len() as int, s2.len() as int);
    assert(state_id(s2, s1.len() as int, s2.len() as int) == last) by (nonlinear_arith)
        requires state_id(s2, s1.len() as int, s2.len() as int) == s1.len() * width(s2) + s2.len(),
            width(s2) == s2.len() + 1, last == (s1.len() + 1) * (s2.len() + 1) - 1;
    assert forall|q: int| 0 <= q < states.len() implies (states[q].1 is Some <==> q == last) by {
        lemma_decode(s1, s2, q);
        let i = row_of(s2, q);
        let j = col_of(s2, q);
        assert(state_matches(states[state_id(s2, i, j)], grid_arcs(c, s1, s2, i, j), grid_final(s1, s2, i, j), syms));
        if q == last {
            lemma_state_id_injective(s2, i, j, s1.len() as int, s2.len() as int);
        }
    }
    if has_accepting_path(states, start) {
        let path = choose|path: Seq<int>| is_accepting_path(states, 0, path);
        assert forall|t: int| 0 <= t < path.len() - 1 implies grid_step(c, s1, s2, #[trigger] path[t], path[t + 1]) by {
            assert(has_arc(states, path[t], path[t + 1]));
            let x = choose|x: int| 0 <= x < states[path[t]].0.len() && states[path[t]].0[x].2 == path[t + 1];
            assert(grid_step(c, s1, s2, path[t], states[path[t]].0[x].2 as int));
        }
        assert(is_grid_path(c, s1, s2, path));
    }
    if grid_has_path(c, s1, s2) {
        let path = choose|path: Seq<int>| is_grid_path(c, s1, s2, path);
        assert forall|t: int| 0 <= t < path.len() - 1 implies has_arc(states, #[trigger] path[t], path[t + 1]) by {
            let p = path[t];
            assert(grid_step(c, s1, s2, p, path[t + 1]));
            lemma_decode(s1, s2, p);
            let i = row_of(s2, p);
            let j = col_of(s2, p);
            let x = choose|x: int|
                0 <= x < grid_arcs(c, s1, s2, i, j).len() && #[trigger] grid_arcs(c, s1, s2, i, j)[x].2 == path[t + 1];
            assert(state_matches(states[state_id(s2, i, j)], grid_arcs(c, s1, s2, i, j), grid_final(s1, s2, i, j), syms));
            assert(arc_matches(states[p].0[x], grid_arcs(c, s1, s2, i, j)[x], syms));
        }
        assert(is_accepting_path(states, 0, path));
        assert(is_accepting_path(states, start->Some_0 as int, path));
    }
}

/// The grid lattice of a pair is unique: two lattices built for the same pair
/// under the same configuration, the second with a symbol table that extends the
/// first's (as the shared table does over time) and holds no string twice, have
/// the same states, arcs, labels, weights and start.
pub proof fn lemma_same_pair_same_lattice(
    a: Seq<StateModel>,
    a_start: Option<u32>,
    b: Seq<StateModel>,
    b_start: Option<u32>,
    c: Config,
    s1: Seq<Seq<char>>,
    s2: Seq<Seq<char>>,
    syms_a: Seq<Seq<char>>,
    syms_b: Seq<Seq<char>>,
)
    requires
        is_grid_lattice(a, a_start, c, s1, s2, syms_a),
        is_grid_lattice(b, b_start, c, s1, s2, syms_b),
        extends(syms_b, syms_a),
        syms_b.no_duplicates(),
    ensures
        a == b,
        a_start == b_start,
{
    assert forall|q: int| 0 <= q < a.len() implies #[trigger] a[q] == b[q] by {
        lemma_decode(s1, s2, q);
        let i = row_of(s2, q);
        let j = col_of(s2, q);
        let g = grid_arcs(c, s1, s2, i, j);
        assert(state_matches(a[state_id(s2, i, j)], g, grid_final(s1, s2, i, j), syms_a));
        assert(state_matches(b[state_id(s2, i, j)], g, grid_final(s1, s2, i, j), syms_b));
        assert forall|x: int| 0 <= x < g.len() implies #[trigger] a[q].0[x] == b[q].0[x] by {
            assert(arc_matches(a[q].0[x], g[x], syms_a));
            assert(arc_matches(b[q].0[x], g[x], syms_b));
            let la = a[q].0[x].0 as int;
            assert(syms_b.subrange(0, syms_a.len() as int)[la] == syms_b[la]);
        }
        assert(a[q].0 =~= b[q].0);
    }
    assert(a =~= b);
}

/// Every accepting path of a lattice built from the grid is a path of the grid.
pub proof fn lemma_lattice_path_on_grid(
    states: Seq<StateModel>,
    start: Option<u32>,
    c: Config,
    s1: Seq<Seq<char>>,
    s2: Seq<Seq<char>>,
    syms: Seq<Seq<char>>,
    path: Seq<int>,
)
    requires
        is_grid_lattice(states, start, c, s1, s2, syms),
        is_accepting_path(states, 0, path),
    ensures
        is_grid_path(c, s1, s2, path),
{
    lemma_grid_lattice(states, start, c, s1, s2, syms);
    assert forall|t: int| 0 <= t < path.len() - 1 implies grid_step(c, s1, s2, #[trigger] path[t], path[t + 1]) by {
        let p = path[t];
        assert(has_arc(states, p, path[t + 1]));
        let x = choose|x: int| 0 <= x < states[p].0.len() && states[p].0[x].2 == path[t + 1];
        lemma_decode(s1, s2, p);
        let i = row_of(s2, p);
        let j = col_of(s2, p);
        assert(state_matches(states[state_id(s2, i, j)], grid_arcs(c, s1, s2, i, j), grid_final(s1, s2, i, j), syms));
        assert(arc_matches(states[p].0[x], grid_arcs(c, s1, s2, i, j)[x], syms));
    }
    let q = path.last();
    lemma_decode(s1, s2, q);
    let i = row_of(s2, q);
    let j = col_of(s2, q);
    assert(state_matches(states[state_id(s2, i, j)], grid_arcs(c, s1, s2, i, j), grid_final(s1, s2, i, j), syms));
    lemma_state_id_bounds(s1, s2, s1.len() as int, s2.len() as int);
    assert(state_id(s2, s1.len() as int, s2.len() as int) == grid_size(s1, s2) - 1) by (nonlinear_arith)
        requires state_id(s2, s1.len() as int, s2.len() as int) == s1.len() * width(s2) + s2.len(),
            width(s2) == s2.len() + 1, grid_size(s1, s2) == (s1.len() + 1) * (s2.len() + 1);
}

/// Grid coordinates of the two ends of a grid path.
proof fn lemma_path_ends(c: Config, s1: Seq<Seq<char>>, s2: Seq<Seq<char>>, path: Seq<int>)
    requires
        is_grid_path(c, s1, s2, path),
    ensures
        row_of(s2, path[0]) == 0,
        col_of(s2, path[0]) == 0,
        row_of(s2, path.last()) == s1.len(),
        col_of(s2, path.last()) == s2.len(),
{
    lemma_state_count(s1, s2);
    lemma_decode(s1, s2, 0);
    assert(state_id(s2, 0, 0) == 0);
    lemma_state_id_injective(s2, row_of(s2, 0), col_of(s2, 0), 0, 0);
    let last = grid_size(s1, s2) - 1;
    lemma_decode(s1, s2, last);
    assert(state_id(s2, s1.len() as int, s2.len() as int) == last) by (nonlinear_arith)
        requires state_id(s2, s1.len() as int, s2.len() as int) == s1.len() * width(s2) + s2.len(),
            width(s2) == s2.len() + 1, last == (s1.len() + 1) * (s2.len() + 1) - 1;
    lemma_state_id_injective(s2, row_of(s2, last), col_of(s2, last), s1.len() as int, s2.len() as int);
}

/// With neither insertions nor deletions and chunks of one token on each side,
/// every path from start to accept of the lattice built for a pair takes exactly
/// `max(|seq1|, |seq2|)` arcs (and such a path exists only when both lengths agree).
pub proof fn lemma_one_to_one_path_length(
    states: Seq<StateModel>,
    start: Option<u32>,
    c: Config,
    s1: Seq<Seq<char>>,
    s2: Seq<Seq<char>>,
    syms: Seq<Seq<char>>,
    path: Seq<int>,
)
    requires
        !c.seq1_del,
        !c.seq2_del,
        c.seq1_max == 1,
        c.seq2_max == 1,
        is_grid_lattice(states, start, c, s1, s2, syms),
        is_accepting_path(states, 0, path),
    ensures
        path.len() - 1 == s1.len(),
        path.len() - 1 == s2.len(),
{
    lemma_lattice_path_on_grid(states, start, c, s1, s2, syms, path);
    lemma_path_ends(c, s1, s2, path);
    lemma_diagonal(c, s1, s2, path, path.len() - 1);
}

proof fn lemma_diagonal(c: Config, s1: Seq<Seq<char>>, s2: Seq<Seq<char>>, path: Seq<int>, t: int)
    requires
        !c.seq1_del,
        !c.seq2_del,
        c.seq1_max == 1,
        c.seq2_max == 1,
        is_grid_path(c, s1, s2, path),
        0 <= t < path.len(),
    ensures
        row_of(s2, path[t]) == t,
        col_of(s2, path[t]) == t,
    decreases t,
{
    if t == 0 {
        lemma_path_ends(c, s1, s2, path);
    } else {
        lemma_diagonal(c, s1, s2, path, t - 1);
        lemma_step(c, s1, s2, path[t - 1], path[t]);
    }
}

proof fn lemma_below_diagonal(c: Config, s1: Seq<Seq<char>>, s2: Seq<Seq<char>>, path: Seq<int>, t: int)
    requires
        !c.seq1_del,
        c.seq2_max == 1,
        is_grid_path(c, s1, s2, path),
        0 <= t < path.len(),
    ensures
        col_of(s2, path[t]) <= row_of(s2, path[t]),
    decreases t,
{
    if t == 0 {
        lemma_path_ends(c, s1, s2, path);
    } else {
        lemma_below_diagonal(c, s1, s2, path, t - 1);
        lemma_step(c, s1, s2, path[t - 1], path[t]);
    }
}

proof fn lemma_above_diagonal(c: Config, s1: Seq<Seq<char>>, s2: Seq<Seq<char>>, path: Seq<int>, t: int)
    requires
        !c.seq2_del,
        c.seq1_max == 1,
        is_grid_path(c, s1, s2, path),
        0 <= t < path.len(),
    ensures
        row_of(s2, path[t]) <= col_of(s2, path[t]),
    decreases t,
{
    if t == 0 {
        lemma_path_ends(c, s1, s2, path);
    } else {
        lemma_above_diagonal(c, s1, s2, path, t - 1);
        lemma_step(c, s1, s2, path[t - 1], path[t]);
    }
}

proof fn lemma_useful_below_step(states: Seq<StateModel>, start: Option<u32>, n: int)
    requires
        n >= 1,
    ensures
        useful_below(states, start, n) == if useful(states, start, n - 1) {
            useful_below(states, start, n - 1).push(n - 1)
        } else {
            useful_below(states, start, n - 1)
        },
{
    reveal(Seq::filter);
    let all = Seq::new(n as nat, |p: int| p);
    assert(all.drop_last() =~= Seq::new((n - 1) as nat, |p: int| p));
    assert(all.last() == n - 1);
}

/// The useful state `v` sits in the list of useful ids at its new id.
proof fn lemma_useful_index(states: Seq<StateModel>, start: Option<u32>, n: int, v: int)
    requires
        0 <= v < n,
        useful(states, start, v),
    ensures
        useful_below(states, start, v).len() < useful_below(states, start, n).len(),
        useful_below(states, start, n)[useful_below(states, start, v).len() as int] == v,
    decreases n,
{
    lemma_useful_below_step(states, start, n);
    if n - 1 > v {
        lemma_useful_index(states, start, n - 1, v);
    }
}

/// Every entry of the list of useful ids is a useful id below `n`.
proof fn lemma_useful_entry(states: Seq<StateModel>, start: Option<u32>, n: int, r: int)
    requires
        0 <= n,
        0 <= r < useful_below(states, start, n).len(),
    ensures
        0 <= useful_below(states, start, n)[r] < n,
        useful(states, start, useful_below(states, start, n)[r]),
    decreases n,
{
    if n > 0 {
        lemma_useful_below_step(states, start, n);
        if r < useful_below(states, start, n - 1).len() {
            lemma_useful_entry(states, start, n - 1, r);
        }
    } else {
        reveal(Seq::filter);
    }
}

/// An accepting path of the trimmed lattice, read through the old ids of its
/// states, is an accepting path of the lattice before trimming.
pub proof fn lemma_trimmed_path(states: Seq<StateModel>, start: Option<u32>, path: Seq<int>)
    requires
        arcs_in_range(states),
        connected_start(states, start) is Some,
        is_accepting_path(connected(states, start), connected_start(states, start)->Some_0 as int, path),
    ensures
        is_accepting_path(
            states,
            start->Some_0 as int,
            path.map_values(|r: int| useful_below(states, start, states.len() as int)[r]),
        ),
{
    let n = states.len() as int;
    let ids = useful_below(states, start, n);
    let c = connected(states, start);
    let orig = path.map_values(|r: int| ids[r]);
    let s0 = start->Some_0 as int;
    lemma_useful_index(states, start, n, s0);
    assert forall|t: int| 0 <= t < orig.len() - 1 implies has_arc(states, #[trigger] orig[t], orig[t + 1]) by {
        let r = path[t];
        assert(has_arc(c, r, path[t + 1]));
        let x = choose|x: int| 0 <= x < c[r].0.len() && c[r].0[x].2 == path[t + 1];
        lemma_useful_entry(states, start, n, r);
        let u = ids[r];
        let kept = states[u].0.filter(|a: ArcModel| useful(states, start, a.2 as int));
        assert(c[r].0[x] == (kept[x].0, kept[x].1, useful_below(states, start, kept[x].2 as int).len() as u32));
        states[u].0.lemma_filter_pred(|a: ArcModel| useful(states, start, a.2 as int), x);
        assert(useful(states, start, kept[x].2 as int));
        lemma_filter_member(states[u].0, |a: ArcModel| useful(states, start, a.2 as int), x);
        let y = choose|y: int| 0 <= y < states[u].0.len() && states[u].0[y] == kept[x];
        assert(kept[x].2 < n);
        lemma_useful_index(states, start, n, kept[x].2 as int);
        assert(orig[t + 1] == ids[path[t + 1]]);
        assert(path[t + 1] == useful_below(states, start, kept[x].2 as int).len());
    }
    let last = path.last();
    lemma_useful_entry(states, start, n, last);
    assert(orig.last() == ids[last]);
}

proof fn lemma_filter_member<A>(s: Seq<A>, pred: spec_fn(A) -> bool, x: int)
    requires
        0 <= x < s.filter(pred).len(),
    ensures
        exists|y: int| 0 <= y < s.len() && s[y] == s.filter(pred)[x],
    decreases s.len(),
{
    reveal(Seq::filter);
    if s.len() > 0 {
        let sub = s.drop_last().filter(pred);
        if x < sub.len() {
            lemma_filter_member(s.drop_last(), pred, x);
            let y = choose|y: int| 0 <= y < s.drop_last().len() && s.drop_last()[y] == sub[x];
            assert(s[y] == s.drop_last()[y]);
        } else {
            assert(s[s.len() - 1] == s.filter(pred)[x]);
        }
    }
}

/// With neither insertions nor deletions and chunks of one token on each side,
/// every path from start to accept of the stored (trimmed) lattice of a pair
/// also takes exactly `max(|seq1|, |seq2|)` arcs.
pub proof fn lemma_trimmed_one_to_one_path_length(
    pre: Seq<StateModel>,
    c: Config,
    s1: Seq<Seq<char>>,
    s2: Seq<Seq<char>>,
    syms: Seq<Seq<char>>,
    path: Seq<int>,
)
    requires
        !c.seq1_del,
        !c.seq2_del,
        c.seq1_max == 1,
        c.seq2_max == 1,
        is_grid_lattice(pre, Some(0u32), c, s1, s2, syms),
        connected_start(pre, Some(0u32)) is Some,
        is_accepting_path(connected(pre, Some(0u32)), connected_start(pre, Some(0u32))->Some_0 as int, path),
    ensures
        path.len() - 1 == s1.len(),
        path.len() - 1 == s2.len(),
{
    lemma_grid_lattice(pre, Some(0u32), c, s1, s2, syms);
    lemma_trimmed_path(pre, Some(0u32), path);
    let orig = path.map_values(|r: int| useful_below(pre, Some(0u32), pre.len() as int)[r]);
    lemma_one_to_one_path_length(pre, Some(0u32), c, s1, s2, syms, orig);
}

/// Without deletions and with input chunks of one token, an output shorter than
/// the input leaves the grid with no path from start to accept.
pub proof fn lemma_shorter_output_infeasible(c: Config, s1: Seq<Seq<char>>, s2: Seq<Seq<char>>)
    requires
        !c.seq2_del,
        c.seq1_max == 1,
        s2.len() < s1.len(),
    ensures
        !grid_has_path(c, s1, s2),
{
    if grid_has_path(c, s1, s2) {
        let path = choose|path: Seq<int>| is_grid_path(c, s1, s2, path);
        lemma_path_ends(c, s1, s2, path);
        lemma_above_diagonal(c, s1, s2, path, path.len() - 1);
    }
}

/// Without insertions and with output chunks of one token, an input shorter than
/// the output leaves the grid with no path from start to accept.
pub proof fn lemma_shorter_input_infeasible(c: Config, s1: Seq<Seq<char>>, s2: Seq<Seq<char>>)
    requires
        !c.seq1_del,
        c.seq2_max == 1,
        s1.len() < s2.len(),
    ensures
        !grid_has_path(c, s1, s2),
{
    if grid_has_path(c, s1, s2) {
        let path = choose|path: Seq<int>| is_grid_path(c, s1, s2, path);
        lemma_path_ends(c, s1, s2, path);
        lemma_below_diagonal(c, s1, s2, path, path.len() - 1);
    }
}

} // verus!
