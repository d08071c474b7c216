//! Grapheme-to-phoneme conversion with a trained joint-sequence model: the word
//! becomes a graph of its input clusters, composed with the model; the best
//! path's output labels are expanded back into phones.
use crate::dict::{fields, pieces, split_fields, split_pieces};
use crate::fst::{
    add_arc, add_state, attach_symbols, compose_with, composed_of, decode, decoded_of, fst_start, fst_states, input_sorted,
    input_symbols, load_transducer, new_lattice, output_symbols, parsed_transducer, set_final,
    set_start, shortest, shortest_of, sort_by_input, store_transducer, t_ascend,
    t_non_negative, t_well_formed, to_tropical, transducer_arcs, transducer_props, transducer_size,
    transducer_start, transducer_start_state, transducer_states, transducer_tables, tropical_of, ArcModel,
    non_negative, t_no_nan, transducer_final, Lattice, StateModel, TropicalState, Transducer,
};
use crate::weight::{is_nan_bits, same_weight, WEIGHT_ONE};
use crate::lattice::views;
use crate::symbols::{get_label, get_symbol, label_in, symbol_list, table_len};
use rustfst::SymbolTable;
use std::collections::HashMap;
use vstd::prelude::*;

verus! {

broadcast use vstd::std_specs::hash::group_hash_axioms;

/// Configuration of the converter.
pub struct Config {
    /// Grapheme separator
    pub gsep: String,
    /// Phoneme skip marker
    pub skip: String,
    /// Also hand back the intermediate transducers
    pub write_fsts: bool,
}

/// What can go wrong while converting.
#[derive(Debug, PartialEq, Eq)]
pub enum G2pError {
    /// The model has no input symbol table
    NoInputSymbols,
    /// The model has no output symbol table
    NoOutputSymbols,
    /// A symbol table without the cluster separator (label 1)
    NoClusterSeparator,
    /// A symbol table with more labels than a label can number
    TableTooLarge,
    /// A piece of a cluster that is not a symbol
    UnknownClusterPiece(String),
    /// A cluster of more than 255 pieces
    ClusterTooLong,
    /// An input symbol that the model does not know
    UnknownInput(String),
    /// An output label that the model does not know
    UnknownOutput(u32),
    /// The model's arcs or start lie outside it, or one of its weights is NaN
    MalformedModel,
    /// The composition has a cycle with a negative or NaN weight, or arcs
    /// outside it, so no search is made
    UnsearchableLattice,
    /// An operation of the WFST library failed
    FstOperation(String),
}

/// The clusters of a symbol table: each symbol from label 2 on, split at the
/// separator (label 1), as the labels of its pieces.
pub struct Clusters {
    /// Longest cluster, at least 1
    pub maxlen: u8,
    /// Label to the labels of its pieces
    pub map: HashMap<u32, Vec<u32>>,
    /// Pieces to label, in label order
    pub inverse: Vec<(Vec<u32>, u32)>,
}

/// The pieces of symbol `i`, split at the separator.
pub open spec fn cluster_pieces(list: Seq<Seq<char>>, i: int) -> Seq<Seq<char>> {
    pieces(list[i], list[1])
}

/// `labels` are the labels of the pieces of symbol `i`.
pub open spec fn is_cluster(list: Seq<Seq<char>>, i: int, labels: Seq<u32>) -> bool {
    &&& labels.len() == cluster_pieces(list, i).len()
    &&& forall|t: int| 0 <= t < labels.len() ==> label_in(list, cluster_pieces(list, i)[t], #[trigger] labels[t] as int)
}

/// The label that the inverse list gives to `key`: the last entry for it.
pub open spec fn lookup_in(inv: Seq<(Vec<u32>, u32)>, key: Seq<u32>) -> Option<u32>
    decreases inv.len(),
{
    if inv.len() == 0 {
        None
    } else if inv.last().0@ == key {
        Some(inv.last().1)
    } else {
        lookup_in(inv.drop_last(), key)
    }
}

/// Cluster arcs from position `i` of lengths 2 to `j`, in order of length: an
/// arc of weight one for each run that the inverse list knows.
pub open spec fn cluster_arcs(word: Seq<u32>, inv: Seq<(Vec<u32>, u32)>, i: int, j: int) -> Seq<ArcModel>
    decreases j,
{
    if j < 2 {
        Seq::empty()
    } else {
        cluster_arcs(word, inv, i, j - 1) + match lookup_in(inv, word.subrange(i, i + j)) {
            Some(l) => seq![(l, WEIGHT_ONE, (i + j) as u32)],
            None => Seq::empty(),
        }
    }
}

/// Longest cluster that can start at position `i`.
pub open spec fn longest_at(word: Seq<u32>, maxlen: u8, i: int) -> int {
    if (maxlen as int) < word.len() - i { maxlen as int } else { word.len() - i }
}

/// The word graph: a state per position; state `i` has an arc for `word[i]` to
/// `i + 1`, then its cluster arcs; the last state is final with weight one.
pub open spec fn word_states(word: Seq<u32>, maxlen: u8, inv: Seq<(Vec<u32>, u32)>) -> Seq<StateModel> {
    Seq::new(
        word.len() + 1,
        |i: int|
            if i < word.len() {
                (
                    seq![(word[i], WEIGHT_ONE, (i + 1) as u32)] + cluster_arcs(word, inv, i, longest_at(word, maxlen, i)),
                    None::<u32>,
                )
            } else {
                (Seq::<ArcModel>::empty(), Some(WEIGHT_ONE))
            },
    )
}

/// The symbols of an output label: those of its cluster, or its own.
pub open spec fn label_symbols(omap: Map<u32, Vec<u32>>, list: Seq<Seq<char>>, l: u32) -> Seq<Seq<char>> {
    if omap.contains_key(l) {
        omap[l]@.map_values(|c: u32| list[c as int])
    } else {
        seq![list[l as int]]
    }
}

/// The symbols without the skip marker.
pub open spec fn without(syms: Seq<Seq<char>>, skip: Seq<char>) -> Seq<Seq<char>>
    decreases syms.len(),
{
    if syms.len() == 0 {
        Seq::empty()
    } else {
        without(syms.drop_last(), skip) + if syms.last() == skip { Seq::empty() } else { seq![syms.last()] }
    }
}

/// The phones of a path's output labels: their symbols, skip markers left out.
pub open spec fn phones(omap: Map<u32, Vec<u32>>, list: Seq<Seq<char>>, labels: Seq<u32>, skip: Seq<char>) -> Seq<Seq<char>>
    decreases labels.len(),
{
    if labels.len() == 0 {
        Seq::empty()
    } else {
        phones(omap, list, labels.drop_last(), skip) + without(label_symbols(omap, list, labels.last()), skip)
    }
}

/// Phones never hold the skip marker, and each is an output symbol when every
/// label is a cluster of known labels or itself a known label.
pub proof fn lemma_phones_in_table(omap: Map<u32, Vec<u32>>, list: Seq<Seq<char>>, labels: Seq<u32>, skip: Seq<char>)
    requires
        clusters_in(omap, list.len() as int),
        forall|t: int| 0 <= t < labels.len() ==> (omap.contains_key(#[trigger] labels[t]) || (labels[t] as int) < list.len()),
    ensures
        forall|t: int| 0 <= t < phones(omap, list, labels, skip).len() ==> #[trigger] phones(omap, list, labels, skip)[t]
            != skip && list.contains(phones(omap, list, labels, skip)[t]),
    decreases labels.len(),
{
    if labels.len() > 0 {
        let init = labels.drop_last();
        assert forall|t: int| 0 <= t < init.len() implies (omap.contains_key(#[trigger] init[t]) || (init[t] as int) < list.len()) by {
            assert(init[t] == labels[t]);
        }
        lemma_phones_in_table(omap, list, init, skip);
        let l = labels.last();
        assert(omap.contains_key(labels[labels.len() - 1]) || (labels[labels.len() - 1] as int) < list.len());
        let ls = label_symbols(omap, list, l);
        assert forall|x: int| 0 <= x < ls.len() implies list.contains(#[trigger] ls[x]) by {
            if omap.contains_key(l) {
                assert((omap[l]@[x] as int) < list.len());
                assert(ls[x] == list[omap[l]@[x] as int]);
            }
        }
        lemma_without(ls, skip, list);
        let a = phones(omap, list, init, skip);
        let b = without(ls, skip);
        let w = phones(omap, list, labels, skip);
        assert(w == a + b);
        assert forall|t: int| 0 <= t < w.len() implies #[trigger] w[t] != skip && list.contains(w[t]) by {
            if t < a.len() {
                assert(w[t] == a[t]);
            } else {
                assert(w[t] == b[t - a.len()]);
            }
        }
    }
}

proof fn lemma_without(syms: Seq<Seq<char>>, skip: Seq<char>, list: Seq<Seq<char>>)
    requires
        forall|x: int| 0 <= x < syms.len() ==> list.contains(#[trigger] syms[x]),
    ensures
        forall|t: int| 0 <= t < without(syms, skip).len() ==> #[trigger] without(syms, skip)[t] != skip && list.contains(
            without(syms, skip)[t],
        ),
    decreases syms.len(),
{
    if syms.len() > 0 {
        let init = syms.drop_last();
        assert forall|x: int| 0 <= x < init.len() implies list.contains(#[trigger] init[x]) by {
            assert(init[x] == syms[x]);
        }
        lemma_without(init, skip, list);
        assert(list.contains(syms[syms.len() - 1]));
        let a = without(init, skip);
        let w = without(syms, skip);
        let tail = if syms.last() == skip { Seq::<Seq<char>>::empty() } else { seq![syms.last()] };
        assert(w == a + tail);
        assert forall|t: int| 0 <= t < w.len() implies #[trigger] w[t] != skip && list.contains(w[t]) by {
            if t < a.len() {
                assert(w[t] == a[t]);
            } else {
                assert(w[t] == tail[t - a.len()]);
            }
        }
    }
}

/// Every cluster label names a symbol.
pub open spec fn clusters_in(omap: Map<u32, Vec<u32>>, n: int) -> bool {
    forall|l: u32, t: int| omap.contains_key(l) && 0 <= t < omap[l]@.len() ==> (#[trigger] omap[l]@[t] as int) < n
}

/// `p` is a piece of some cluster, and not a symbol.
pub open spec fn unknown_piece(list: Seq<Seq<char>>, p: Seq<char>) -> bool {
    &&& !list.contains(p)
    &&& exists|i: int| 2 <= i < list.len() && #[trigger] cluster_pieces(list, i).contains(p)
}

/// Symbol `i` splits into known pieces, at most 255 of them.
pub open spec fn cluster_ok(list: Seq<Seq<char>>, i: int) -> bool {
    &&& forall|t: int| 0 <= t < cluster_pieces(list, i).len() ==> list.contains(#[trigger] cluster_pieces(list, i)[t])
    &&& cluster_pieces(list, i).len() <= 255
}

/// The clusters of the table can be read: it has a separator, its labels fit
/// in a label, and every symbol from label 2 on is a good cluster.
pub open spec fn clusters_ok(list: Seq<Seq<char>>) -> bool {
    &&& 2 <= list.len() <= 0xffff_ffff
    &&& forall|i: int| 2 <= i < list.len() ==> #[trigger] cluster_ok(list, i)
}

/// `maxlen`, `map` and `inverse` are the clusters of the table: the longest
/// cluster (at least 1), each label from 2 on with the labels of its pieces, and
/// the clusters with their labels in label order.
pub open spec fn clusters_read(list: Seq<Seq<char>>, maxlen: u8, map: Map<u32, Vec<u32>>, inverse: Seq<(Vec<u32>, u32)>) -> bool {
    &&& maxlen >= 1
    &&& (maxlen == 1 || exists|l: u32| 2 <= l < list.len() && #[trigger] map[l]@.len() == maxlen)
    &&& map.dom() == Set::new(|l: u32| 2 <= l < list.len())
    &&& forall|l: u32| 2 <= l < list.len() ==> is_cluster(list, l as int, #[trigger] map[l]@) && map[l]@.len() <= maxlen
    &&& inverse.len() == list.len() - 2
    &&& forall|x: int|
        0 <= x < inverse.len() ==> (#[trigger] inverse[x]).1 == x + 2 && inverse[x].0@ == map[(x + 2) as u32]@
    &&& clusters_in(map, list.len() as int)
}

/// Reads the clusters of a symbol table.
pub fn load_clusters(syms: &SymbolTable) -> (r: Result<Clusters, G2pError>)
    ensures
        r is Ok <==> clusters_ok(symbol_list(*syms)),
        r is Err ==> (r->Err_0 is NoClusterSeparator || r->Err_0 is TableTooLarge || r->Err_0 is UnknownClusterPiece
            || r->Err_0 is ClusterTooLong),
        r matches Err(G2pError::NoClusterSeparator) <==> symbol_list(*syms).len() < 2,
        r matches Err(G2pError::TableTooLarge) <==> symbol_list(*syms).len() >= 2 && symbol_list(*syms).len()
            > 0xffff_ffff,
        r matches Err(G2pError::ClusterTooLong) ==> exists|i: int|
            2 <= i < symbol_list(*syms).len() && #[trigger] cluster_pieces(symbol_list(*syms), i).len() > 255,
        r is Ok ==> clusters_read(symbol_list(*syms), r->Ok_0.maxlen, r->Ok_0.map@, r->Ok_0.inverse@),
        r matches Err(G2pError::UnknownClusterPiece(p)) ==> unknown_piece(symbol_list(*syms), p@),
{
    let ghost list = symbol_list(*syms);
    let n = table_len(syms);
    let tie = match get_symbol(syms, 1) {
        Some(t) => t,
        None => return Err(G2pError::NoClusterSeparator),
    };
    if n > 0xffff_ffff {
        return Err(G2pError::TableTooLarge);
    }
    let mut maxlen: usize = 1;
    let mut map: HashMap<u32, Vec<u32>> = HashMap::new();
    let mut inverse: Vec<(Vec<u32>, u32)> = Vec::new();
    let mut i: usize = 2;
    while i < n
        invariant
            n == list.len(),
            n <= 0xffff_ffff,
            2 <= i <= n,
            list == symbol_list(*syms),
            tie@ == list[1],
            1 <= maxlen <= 255,
            maxlen == 1 || exists|l: u32| 2 <= l < i && #[trigger] map@[l]@.len() == maxlen,
            map@.dom() == Set::new(|l: u32| 2 <= l < i),
            forall|l: u32| 2 <= l < i ==> is_cluster(list, l as int, #[trigger] map@[l]@) && map@[l]@.len() <= maxlen,
            inverse@.len() == i - 2,
            forall|x: int| 0 <= x < inverse@.len() ==> (#[trigger] inverse@[x]).1 == x + 2 && inverse@[x].0@ == map@[(x + 2) as u32]@,
            clusters_in(map@, n as int),
            forall|k: int| 2 <= k < i ==> #[trigger] cluster_ok(list, k),
        decreases n - i,
    {
        let sym = match get_symbol(syms, i as u32) {
            Some(s) => s,
            None => return Err(G2pError::TableTooLarge),
        };
        let parts = split_pieces(sym, tie);
        let mut cluster: Vec<u32> = Vec::new();
        let mut t: usize = 0;
        while t < parts.len()
            invariant
                t <= parts.len(),
                views(parts@) == cluster_pieces(list, i as int),
                list == symbol_list(*syms),
                n == list.len(),
                cluster@.len() == t,
                forall|y: int| 0 <= y < t ==> label_in(list, cluster_pieces(list, i as int)[y], #[trigger] cluster@[y] as int),
                2 <= i < n,
                n <= 0xffff_ffff,
            decreases parts.len() - t,
        {
            match get_label(syms, parts[t].as_str()) {
                Some(l) => cluster.push(l),
                None => {
                    let p = String::from_str(parts[t].as_str());
                    proof {
                        assert(cluster_pieces(list, i as int)[t as int] == parts@[t as int]@);
                        assert(cluster_pieces(list, i as int).contains(p@));
                        assert(!list.contains(p@));
                        assert(2 <= i < symbol_list(*syms).len() && cluster_pieces(symbol_list(*syms), i as int).contains(p@));
                        assert(unknown_piece(list, p@));
                        assert(!cluster_ok(list, i as int));
                    }
                    return Err(G2pError::UnknownClusterPiece(p));
                },
            }
            t = t + 1;
        }
        proof {
            assert(views(parts@).len() == parts@.len());
        }
        if cluster.len() > 255 {
            proof {
                assert(cluster_pieces(list, i as int).len() > 255);
                assert(!cluster_ok(list, i as int));
            }
            return Err(G2pError::ClusterTooLong);
        }
        proof {
            assert forall|y: int| 0 <= y < cluster_pieces(list, i as int).len() implies list.contains(
                #[trigger] cluster_pieces(list, i as int)[y],
            ) by {
                assert(label_in(list, cluster_pieces(list, i as int)[y], cluster@[y] as int));
            }
            assert(cluster_ok(list, i as int));
        }
        let ghost old_max = maxlen;
        if cluster.len() > maxlen {
            maxlen = cluster.len();
        }
        let ghost old_map = map@;
        map.insert(i as u32, cluster.clone());
        inverse.push((cluster, i as u32));
        proof {
            assert(map@.dom() =~= Set::new(|l: u32| 2 <= l < i + 1));
            assert forall|l: u32, y: int| map@.contains_key(l) && 0 <= y < map@[l]@.len() implies (#[trigger] map@[l]@[y] as int) < n by {
                if l != i as u32 {
                    assert(map@[l] == old_map[l]);
                }
            }
            if maxlen != old_max {
                assert(map@[i as u32]@.len() == maxlen);
            } else if maxlen != 1 {
                let l = choose|l: u32| 2 <= l < i && #[trigger] old_map[l]@.len() == old_max;
                assert(map@[l] == old_map[l]);
            }
        }
        i = i + 1;
    }
    Ok(Clusters { maxlen: maxlen as u8, map, inverse })
}

/// The label that the inverse list gives to `word[from..from + len]`.
fn lookup(inv: &Vec<(Vec<u32>, u32)>, word: &Vec<u32>, from: usize, len: usize) -> (r: Option<u32>)
    requires
        from + len <= word.len(),
    ensures
        r == lookup_in(inv@, word@.subrange(from as int, from + len)),
{
    let ghost key = word@.subrange(from as int, from + len);
    let mut x: usize = inv.len();
    proof {
        assert(inv@.take(x as int) =~= inv@);
    }
    while x > 0
        invariant
            x <= inv.len(),
            from + len <= word.len(),
            key == word@.subrange(from as int, from + len),
            lookup_in(inv@, key) == lookup_in(inv@.take(x as int), key),
        decreases x,
    {
        let entry = &inv[x - 1];
        proof {
            assert(inv@.take(x as int).drop_last() =~= inv@.take(x - 1));
            assert(inv@.take(x as int).last() == inv@[x - 1]);
        }
        let mut same = entry.0.len() == len;
        let mut t: usize = 0;
        while same && t < len
            invariant
                same ==> entry.0@.len() == len,
                t <= len,
                from + len <= word.len(),
                same ==> forall|y: int| 0 <= y < t ==> entry.0@[y] == word@[from + y],
                !same ==> entry.0@ != key,
                key == word@.subrange(from as int, from + len),
            decreases len - t,
        {
            if entry.0[t] != word[from + t] {
                same = false;
                proof {
                    assert(key[t as int] == word@[from + t]);
                }
            }
            t = t + 1;
        }
        if same {
            proof {
                assert(entry.0@ =~= key);
            }
            return Some(entry.1);
        }
        x = x - 1;
    }
    None
}

/// A state with no arc that is not final.
pub open spec fn blank_state() -> StateModel {
    (Seq::<ArcModel>::empty(), None::<u32>)
}

/// Adds the arcs of position `i`: the single label, then the clusters of
/// lengths 2 to `longest`.
fn add_position_arcs(f: &mut Lattice, word: &Vec<u32>, inv: &Vec<(Vec<u32>, u32)>, i: usize, longest: usize)
    requires
        i < word.len(),
        word.len() < u32::MAX,
        i + longest <= word.len(),
        fst_states(*old(f)).len() == word.len() + 1,
        fst_states(*old(f))[i as int].0.len() == 0,
    ensures
        fst_states(*final(f)) == fst_states(*old(f)).update(
            i as int,
            (
                seq![(word@[i as int], WEIGHT_ONE, (i + 1) as u32)] + cluster_arcs(word@, inv@, i as int, longest as int),
                fst_states(*old(f))[i as int].1,
            ),
        ),
        fst_start(*final(f)) == fst_start(*old(f)),
{
    let ghost s0 = fst_states(*f);
    add_arc(f, i as u32, word[i], WEIGHT_ONE, (i + 1) as u32);
    let ghost head = seq![(word@[i as int], WEIGHT_ONE, (i + 1) as u32)];
    proof {
        assert(fst_states(*f)[i as int].0 =~= head + cluster_arcs(word@, inv@, i as int, 1));
    }
    let mut j: usize = 2;
    while j <= longest
        invariant
            2 <= j,
            j <= longest + 1 || j == 2,
            i < word.len(),
            i + longest <= word.len(),
            word.len() < u32::MAX,
            s0.len() == word.len() + 1,
            fst_states(*f).len() == s0.len(),
            forall|p: int| 0 <= p < s0.len() && p != i ==> #[trigger] fst_states(*f)[p] == s0[p],
            fst_states(*f)[i as int] == (head + cluster_arcs(word@, inv@, i as int, j - 1), s0[i as int].1),
            fst_start(*f) == fst_start(*old(f)),
        decreases longest + 1 - j,
    {
        match lookup(inv, word, i, j) {
            Some(l) => {
                add_arc(f, i as u32, l, WEIGHT_ONE, (i + j) as u32);
            },
            None => {},
        }
        proof {
            assert(fst_states(*f)[i as int].0 =~= head + cluster_arcs(word@, inv@, i as int, j as int));
        }
        j = j + 1;
    }
    proof {
        if longest < 2 {
            assert(cluster_arcs(word@, inv@, i as int, longest as int) =~= cluster_arcs(word@, inv@, i as int, j - 1));
        }
        assert(fst_states(*f) =~= s0.update(i as int, (head + cluster_arcs(word@, inv@, i as int, longest as int), s0[i as int].1)));
    }
}

/// The word graph: a state per position, an arc for each label and for each
/// run of labels that is a known cluster, read in the tropical semiring.
pub fn entry_to_fsa(word: &Vec<u32>, maxlen: u8, inv: &Vec<(Vec<u32>, u32)>) -> (r: Result<Transducer, G2pError>)
    ensures
        r is Err <==> word.len() >= u32::MAX,
        r is Err ==> r->Err_0 is FstOperation,
        r is Ok ==> transducer_states(r->Ok_0) == tropical_of(word_states(word@, maxlen, inv@)),
        r is Ok ==> transducer_start(r->Ok_0) == Some(0u32),
        r is Ok ==> t_well_formed(transducer_states(r->Ok_0), transducer_start(r->Ok_0)),
{
    let n = word.len();
    if n >= 0xffff_ffff {
        return Err(G2pError::FstOperation(String::from_str("word too long")));
    }
    let ghost blank = blank_state();
    let mut f = new_lattice();
    let mut q: usize = 0;
    while q <= n
        invariant
            q <= n + 1,
            n < u32::MAX,
            fst_states(f) == Seq::new(q as nat, |p: int| blank_state()),
            fst_start(f) is None,
        decreases n + 1 - q,
    {
        add_state(&mut f);
        proof {
            assert(fst_states(f) =~= Seq::new((q + 1) as nat, |p: int| blank_state()));
        }
        q = q + 1;
    }
    set_start(&mut f, 0);
    let ghost target = word_states(word@, maxlen, inv@);
    let mut i: usize = 0;
    while i < n
        invariant
            i <= n,
            n == word.len(),
            n < u32::MAX,
            target == word_states(word@, maxlen, inv@),
            blank == blank_state(),
            fst_states(f).len() == n + 1,
            forall|p: int| 0 <= p < i ==> #[trigger] fst_states(f)[p] == target[p],
            forall|p: int| i <= p <= n ==> #[trigger] fst_states(f)[p] == blank,
            fst_start(f) == Some(0u32),
        decreases n - i,
    {
        let longest = if (maxlen as usize) < n - i { maxlen as usize } else { n - i };
        proof {
            assert(fst_states(f)[i as int] == blank);
            assert(blank.0.len() == 0);
            assert(longest as int == longest_at(word@, maxlen, i as int));
        }
        add_position_arcs(&mut f, word, inv, i, longest);
        proof {
            let want = (
                seq![(word@[i as int], WEIGHT_ONE, (i + 1) as u32)] + cluster_arcs(word@, inv@, i as int, longest_at(word@, maxlen, i as int)),
                None::<u32>,
            );
            assert(target[i as int] == want);
            assert(fst_states(f)[i as int] == want);
        }
        i = i + 1;
    }
    set_final(&mut f, n as u32, WEIGHT_ONE);
    proof {
        assert(fst_states(f) =~= target);
        lemma_word_graph_well_formed(word@, maxlen, inv@);
    }
    Ok(to_tropical(&f))
}

proof fn lemma_cluster_arcs_in(word: Seq<u32>, inv: Seq<(Vec<u32>, u32)>, i: int, j: int)
    requires
        0 <= i,
        i + j <= word.len(),
        word.len() < u32::MAX,
    ensures
        forall|x: int| 0 <= x < cluster_arcs(word, inv, i, j).len() ==> (#[trigger] cluster_arcs(word, inv, i, j)[x]).2
            <= word.len(),
    decreases j,
{
    if j >= 2 {
        lemma_cluster_arcs_in(word, inv, i, j - 1);
        let head = cluster_arcs(word, inv, i, j - 1);
        let all = cluster_arcs(word, inv, i, j);
        assert forall|x: int| 0 <= x < all.len() implies (#[trigger] all[x]).2 <= word.len() by {
            if x < head.len() {
                assert(all[x] == head[x]);
            }
        }
    }
}

proof fn lemma_cluster_arcs_one(word: Seq<u32>, inv: Seq<(Vec<u32>, u32)>, i: int, j: int)
    ensures
        forall|x: int| 0 <= x < cluster_arcs(word, inv, i, j).len() ==> (#[trigger] cluster_arcs(word, inv, i, j)[x]).1
            == WEIGHT_ONE,
    decreases j,
{
    if j >= 2 {
        lemma_cluster_arcs_one(word, inv, i, j - 1);
        let head = cluster_arcs(word, inv, i, j - 1);
        let all = cluster_arcs(word, inv, i, j);
        assert forall|x: int| 0 <= x < all.len() implies (#[trigger] all[x]).1 == WEIGHT_ONE by {
            if x < head.len() {
                assert(all[x] == head[x]);
            }
        }
    }
}

/// The word graph has no NaN weight: every weight is one.
proof fn lemma_word_graph_no_nan(word: Seq<u32>, maxlen: u8, inv: Seq<(Vec<u32>, u32)>)
    ensures
        t_no_nan(tropical_of(word_states(word, maxlen, inv))),
{
    let st = word_states(word, maxlen, inv);
    let t = tropical_of(st);
    assert(!is_nan_bits(WEIGHT_ONE)) by (bit_vector);
    assert forall|q: int, x: int| 0 <= q < t.len() && 0 <= x < t[q].0.len() implies !is_nan_bits((#[trigger] t[q].0[x]).2) by {
        assert(t[q].0[x].2 == st[q].0[x].1);
        if q < word.len() {
            lemma_cluster_arcs_one(word, inv, q, longest_at(word, maxlen, q));
            if x >= 1 {
                assert(st[q].0[x] == cluster_arcs(word, inv, q, longest_at(word, maxlen, q))[x - 1]);
            }
        }
    }
    assert forall|q: int| 0 <= q < t.len() && (#[trigger] t[q]).1 is Some implies !is_nan_bits(t[q].1->Some_0) by {
        assert(t[q].1 == st[q].1);
    }
}

/// The word graph's arcs and start lie inside it.
proof fn lemma_word_graph_well_formed(word: Seq<u32>, maxlen: u8, inv: Seq<(Vec<u32>, u32)>)
    requires
        word.len() < u32::MAX,
    ensures
        t_well_formed(tropical_of(word_states(word, maxlen, inv)), Some(0u32)),
{
    let st = word_states(word, maxlen, inv);
    let t = tropical_of(st);
    assert forall|q: int, x: int| 0 <= q < t.len() && 0 <= x < t[q].0.len() implies (#[trigger] t[q].0[x]).3 < t.len() by {
        assert(t[q].0[x].3 == st[q].0[x].2);
        if q < word.len() {
            lemma_cluster_arcs_in(word, inv, q, longest_at(word, maxlen, q));
            if x >= 1 {
                assert(st[q].0[x] == cluster_arcs(word, inv, q, longest_at(word, maxlen, q))[x - 1]);
            }
        }
    }
}

/// Tells whether a transducer's arcs and start lie inside it and, if so, whether
/// all its arcs lead to higher ids and whether no arc weight is negative or NaN.
pub fn transducer_shape(t: &Transducer) -> (r: (bool, bool, bool, bool))
    ensures
        r.0 == t_well_formed(transducer_states(*t), transducer_start(*t)),
        r.0 ==> r.1 == t_ascend(transducer_states(*t)),
        r.0 ==> r.2 == t_non_negative(transducer_states(*t)),
        r.0 ==> r.3 == t_no_nan(transducer_states(*t)),
{
    let ghost st = transducer_states(*t);
    let n = transducer_size(t);
    if n > 0xffff_ffff {
        return (false, false, false, false);
    }
    let inside = match transducer_start_state(t) {
        None => true,
        Some(s) => (s as usize) < n,
    };
    let mut in_range = true;
    let mut asc = true;
    let mut nonneg = true;
    let mut nonan = true;
    let mut fin_ok = true;
    let mut q: usize = 0;
    while q < n
        invariant
            n == st.len(),
            n <= 0xffff_ffff,
            q <= n,
            st == transducer_states(*t),
            in_range == (forall|p: int, x: int| 0 <= p < q && 0 <= x < st[p].0.len() ==> (#[trigger] st[p].0[x]).3 < n),
            asc == (forall|p: int, x: int| 0 <= p < q && 0 <= x < st[p].0.len() ==> (#[trigger] st[p].0[x]).3 > p),
            nonneg == (forall|p: int, x: int| 0 <= p < q && 0 <= x < st[p].0.len() ==> non_negative((#[trigger] st[p].0[x]).2)),
            nonan == (forall|p: int, x: int| 0 <= p < q && 0 <= x < st[p].0.len() ==> !is_nan_bits((#[trigger] st[p].0[x]).2)),
            fin_ok == (forall|p: int| 0 <= p < q && (#[trigger] st[p]).1 is Some ==> !is_nan_bits(st[p].1->Some_0)),
        decreases n - q,
    {
        let arcs = transducer_arcs(t, q as u32);
        let ghost (r0, a0, n0, z0) = (in_range, asc, nonneg, nonan);
        let mut x: usize = 0;
        while x < arcs.len()
            invariant
                n == st.len(),
                q < n,
                arcs@ == st[q as int].0,
                x <= arcs.len(),
                in_range == (r0 && forall|y: int| 0 <= y < x ==> (#[trigger] arcs@[y]).3 < n),
                asc == (a0 && forall|y: int| 0 <= y < x ==> (#[trigger] arcs@[y]).3 > q),
                nonneg == (n0 && forall|y: int| 0 <= y < x ==> non_negative((#[trigger] arcs@[y]).2)),
                nonan == (z0 && forall|y: int| 0 <= y < x ==> !is_nan_bits((#[trigger] arcs@[y]).2)),
            decreases arcs.len() - x,
        {
            let a = arcs[x];
            if (a.3 as usize) >= n {
                in_range = false;
            }
            if (a.3 as usize) <= q {
                asc = false;
            }
            if a.2 > 0x7f80_0000u32 {
                nonneg = false;
            }
            if (a.2 & 0x7fff_ffffu32) > 0x7f80_0000u32 {
                nonan = false;
            }
            x = x + 1;
        }
        let ghost f0 = fin_ok;
        match transducer_final(t, q as u32) {
            Some(w) => {
                if (w & 0x7fff_ffffu32) > 0x7f80_0000u32 {
                    fin_ok = false;
                }
            },
            None => {},
        }
        proof {
            assert(in_range == (forall|p: int, y: int| 0 <= p < q + 1 && 0 <= y < st[p].0.len() ==> (#[trigger] st[p].0[y]).3 < n)) by {
                if in_range {
                    assert forall|p: int, y: int| 0 <= p < q + 1 && 0 <= y < st[p].0.len() implies (#[trigger] st[p].0[y]).3 < n by {
                        if p == q { assert(arcs@[y] == st[p].0[y]); }
                    }
                } else if !r0 {
                } else {
                    let y = choose|y: int| 0 <= y < x && !((#[trigger] arcs@[y]).3 < n);
                    assert(st[q as int].0[y] == arcs@[y]);
                }
            }
            assert(asc == (forall|p: int, y: int| 0 <= p < q + 1 && 0 <= y < st[p].0.len() ==> (#[trigger] st[p].0[y]).3 > p)) by {
                if asc {
                    assert forall|p: int, y: int| 0 <= p < q + 1 && 0 <= y < st[p].0.len() implies (#[trigger] st[p].0[y]).3 > p by {
                        if p == q { assert(arcs@[y] == st[p].0[y]); }
                    }
                } else if !a0 {
                } else {
                    let y = choose|y: int| 0 <= y < x && !((#[trigger] arcs@[y]).3 > q);
                    assert(st[q as int].0[y] == arcs@[y]);
                }
            }
            assert(nonneg == (forall|p: int, y: int| 0 <= p < q + 1 && 0 <= y < st[p].0.len() ==> non_negative((#[trigger] st[p].0[y]).2))) by {
                if nonneg {
                    assert forall|p: int, y: int| 0 <= p < q + 1 && 0 <= y < st[p].0.len() implies non_negative((#[trigger] st[p].0[y]).2) by {
                        if p == q { assert(arcs@[y] == st[p].0[y]); }
                    }
                } else if !n0 {
                } else {
                    let y = choose|y: int| 0 <= y < x && !non_negative((#[trigger] arcs@[y]).2);
                    assert(st[q as int].0[y] == arcs@[y]);
                }
            }
            let arcs_ok = forall|p: int, y: int| 0 <= p < q + 1 && 0 <= y < st[p].0.len() ==> !is_nan_bits((#[trigger] st[p].0[y]).2);
            assert(nonan == arcs_ok) by {
                if nonan {
                    assert forall|p: int, y: int| 0 <= p < q + 1 && 0 <= y < st[p].0.len() implies !is_nan_bits((#[trigger] st[p].0[y]).2) by {
                        if p == q { assert(arcs@[y] == st[p].0[y]); }
                    }
                } else if !z0 {
                } else {
                    let y = choose|y: int| 0 <= y < x && is_nan_bits((#[trigger] arcs@[y]).2);
                    assert(st[q as int].0[y] == arcs@[y]);
                }
            }
            assert(fin_ok == (forall|p: int| 0 <= p < q + 1 && (#[trigger] st[p]).1 is Some ==> !is_nan_bits(st[p].1->Some_0))) by {
                if fin_ok {
                    assert forall|p: int| 0 <= p < q + 1 && (#[trigger] st[p]).1 is Some implies !is_nan_bits(st[p].1->Some_0) by {}
                }
            }
        }
        q = q + 1;
    }
    (in_range && inside, asc, nonneg, nonan && fin_ok)
}

/// The bytes of a transducer in rustfst's binary format.
pub fn transducer_bytes(t: &Transducer) -> (r: Vec<u8>) {
    store_transducer(t)
}

/// Grapheme-to-phoneme converter.
pub struct G2P {
    pub config: Config,
    model: Transducer,
    imax: u8,
    isyms: SymbolTable,
    osyms: SymbolTable,
    inv_imap: Vec<(Vec<u32>, u32)>,
    omap: HashMap<u32, Vec<u32>>,
}

/// What a conversion hands back.
pub struct Conversion {
    /// The phones of the best path
    pub phones: Vec<String>,
    /// Its weight, as the bit pattern of its negative log-probability
    pub weight: u32,
    /// With `write_fsts`: the word graph, the composed lattice and the best
    /// path, in rustfst's binary format
    pub graphs: Vec<Vec<u8>>,
}

/// The label of a symbol in a list that holds it once.
pub open spec fn label_of(list: Seq<Seq<char>>, s: Seq<char>) -> u32 {
    choose|l: u32| label_in(list, s, l as int)
}

/// A model can serve: it has both symbol tables, its arcs sorted by input label
/// lie inside it, and both tables' clusters can be read.
pub open spec fn model_ok(
    tables: (Option<Seq<Seq<char>>>, Option<Seq<Seq<char>>>),
    states: Seq<TropicalState>,
    start: Option<u32>,
) -> bool {
    &&& tables.0 is Some
    &&& tables.1 is Some
    &&& t_well_formed(input_sorted(states), start)
    &&& t_no_nan(input_sorted(states))
    &&& clusters_ok(tables.0->Some_0)
    &&& clusters_ok(tables.1->Some_0)
}

/// A transducer that the search can take: arcs and start inside it, and either
/// no cycle or no negative or NaN weight.
pub open spec fn searchable(states: Seq<TropicalState>, start: Option<u32>) -> bool {
    t_well_formed(states, start) && (t_ascend(states) || t_non_negative(states))
}

proof fn lemma_label_unique(list: Seq<Seq<char>>, s: Seq<char>, l: u32)
    requires
        list.no_duplicates(),
        label_in(list, s, l as int),
    ensures
        label_of(list, s) == l,
{
    let k = label_of(list, s);
    assert(label_in(list, s, k as int));
}

impl G2P {
    /// Every cluster label is an output symbol, no input symbol is there twice,
    /// and the model's arcs and start lie inside it.
    pub closed spec fn wf(&self) -> bool {
        &&& clusters_in(self.omap@, symbol_list(self.osyms).len() as int)
        &&& symbol_list(self.isyms).no_duplicates()
        &&& t_well_formed(transducer_states(self.model), transducer_start(self.model))
        &&& t_no_nan(transducer_states(self.model))
    }

    /// The configuration.
    pub closed spec fn configuration(&self) -> Config {
        self.config
    }

    /// The model's states and start.
    pub closed spec fn model_view(&self) -> (Seq<TropicalState>, Option<u32>) {
        (transducer_states(self.model), transducer_start(self.model))
    }

    /// The output symbols, label `i` at index `i`.
    pub closed spec fn output_list(&self) -> Seq<Seq<char>> {
        symbol_list(self.osyms)
    }

    /// The longest input cluster.
    pub closed spec fn input_maxlen(&self) -> u8 {
        self.imax
    }

    /// The input clusters with their labels.
    pub closed spec fn inverse(&self) -> Seq<(Vec<u32>, u32)> {
        self.inv_imap@
    }

    /// The grapheme separator.
    pub closed spec fn separator(&self) -> Seq<char> {
        self.config.gsep@
    }

    /// The skip marker.
    pub closed spec fn skip_marker(&self) -> Seq<char> {
        self.config.skip@
    }

    /// The output clusters.
    pub closed spec fn output_clusters(&self) -> Map<u32, Vec<u32>> {
        self.omap@
    }

    /// The input symbols, label `i` at index `i`.
    pub closed spec fn input_list(&self) -> Seq<Seq<char>> {
        symbol_list(self.isyms)
    }

    /// The graphemes of a word: its non-empty pieces between separators.
    pub closed spec fn graphemes(&self, word: Seq<char>) -> Seq<Seq<char>> {
        fields(word, self.config.gsep@)
    }

    /// The word graph of a word whose graphemes are all input symbols.
    pub closed spec fn word_graph(&self, word: Seq<char>) -> Seq<TropicalState> {
        let labels = self.graphemes(word).map_values(|g: Seq<char>| label_of(symbol_list(self.isyms), g));
        tropical_of(word_states(labels, self.imax, self.inv_imap@))
    }

    /// The composition of the word graph, carrying property bits `p`, with the model.
    pub closed spec fn composed(&self, word: Seq<char>, p: u64) -> (bool, Seq<TropicalState>, Option<u32>, u64) {
        let g = self.word_graph(word);
        composed_of(
            g,
            Some(0u32),
            p,
            transducer_states(self.model),
            transducer_start(self.model),
            transducer_props(self.model),
        )
    }

    /// Input labels, output labels and weight of the best path of the composition.
    pub closed spec fn best_path(&self, word: Seq<char>, p: u64) -> (Seq<u32>, Seq<u32>, u32) {
        let c = self.composed(word, p);
        let p = shortest_of(c.1, c.2, c.3);
        decoded_of(p.0, p.1)
    }

    /// What a conversion of `word` gives, the word graph carrying property bits
    /// `p` (rustfst's own bookkeeping over the graph's construction): success
    /// exactly when every grapheme is known, the composition succeeds and can be
    /// searched, and every output label of its best path is known; then the phones
    /// of those labels and the path's weight.
    pub open spec fn converts_as(&self, word: Seq<char>, p: u64, r: Result<Conversion, G2pError>) -> bool {
        &&& r is Ok <==> {
            &&& forall|t: int|
                0 <= t < self.graphemes(word).len() ==> self.input_list().contains(#[trigger] self.graphemes(word)[t])
            &&& self.graphemes(word).len() < u32::MAX
            &&& self.composed(word, p).0
            &&& searchable(self.composed(word, p).1, self.composed(word, p).2)
            &&& self.outputs_known(self.best_path(word, p).1)
        }
        &&& r matches Err(G2pError::UnknownOutput(l)) ==> self.best_path(word, p).1.contains(l)
            && !self.output_clusters().contains_key(l) && l as int >= self.output_list().len()
        &&& r is Ok ==> views(r->Ok_0.phones@) == phones(
            self.output_clusters(),
            self.output_list(),
            self.best_path(word, p).1,
            self.skip_marker(),
        ) && same_weight(r->Ok_0.weight, self.best_path(word, p).2)
    }

    /// Every output label is a cluster or a symbol.
    pub open spec fn outputs_known(&self, olabels: Seq<u32>) -> bool {
        forall|t: int|
            0 <= t < olabels.len() ==> (self.output_clusters().contains_key(#[trigger] olabels[t])
                || (olabels[t] as int) < self.output_list().len())
    }

    /// A converter for the model: takes its symbol tables, sorts its arcs by
    /// input label, checks that they lie inside it, and reads the clusters of
    /// both tables.
    pub fn new(config: Config, model: Transducer) -> (r: Result<G2P, G2pError>)
        ensures
            r matches Err(G2pError::NoInputSymbols) <==> transducer_tables(model).0 is None,
            r matches Err(G2pError::MalformedModel) <==> transducer_tables(model).0 is Some
                && transducer_tables(model).1 is Some && !(t_well_formed(
                input_sorted(transducer_states(model)),
                transducer_start(model),
            ) && t_no_nan(input_sorted(transducer_states(model)))),
            r matches Err(G2pError::NoOutputSymbols) <==> transducer_tables(model).0 is Some
                && transducer_tables(model).1 is None,
            r is Ok <==> model_ok(transducer_tables(model), transducer_states(model), transducer_start(model)),
            r is Ok ==> {
                &&& r->Ok_0.wf()
                &&& r->Ok_0.configuration() == config
                &&& exists|m: Map<u32, Vec<u32>>|
                    #[trigger] clusters_read(r->Ok_0.input_list(), r->Ok_0.input_maxlen(), m, r->Ok_0.inverse())
                &&& exists|mx: u8, inv: Seq<(Vec<u32>, u32)>|
                    #[trigger] clusters_read(r->Ok_0.output_list(), mx, r->Ok_0.output_clusters(), inv)
                &&& r->Ok_0.input_list() == transducer_tables(model).0->Some_0
                &&& r->Ok_0.output_list() == transducer_tables(model).1->Some_0
                &&& r->Ok_0.model_view() == (input_sorted(transducer_states(model)), transducer_start(model))
            },
    {
        let mut model = model;
        let isyms = match input_symbols(&model) {
            Some(s) => s,
            None => return Err(G2pError::NoInputSymbols),
        };
        let osyms = match output_symbols(&model) {
            Some(s) => s,
            None => return Err(G2pError::NoOutputSymbols),
        };
        sort_by_input(&mut model);
        let shape = transducer_shape(&model);
        if !(shape.0 && shape.3) {
            return Err(G2pError::MalformedModel);
        }
        let ic = match load_clusters(&isyms) {
            Ok(c) => c,
            Err(e) => return Err(e),
        };
        let oc = match load_clusters(&osyms) {
            Ok(c) => c,
            Err(e) => return Err(e),
        };
        let ghost im = ic.map@;
        let ghost omx = oc.maxlen;
        let ghost oinv = oc.inverse@;
        let g = G2P { config, model, imax: ic.maxlen, isyms, osyms, inv_imap: ic.inverse, omap: oc.map };
        proof {
            assert(clusters_read(g.input_list(), g.input_maxlen(), im, g.inverse()));
            assert(clusters_read(g.output_list(), omx, g.output_clusters(), oinv));
        }
        Ok(g)
    }

    /// A converter for the model given in rustfst's binary format.
    pub fn load(config: Config, bytes: &Vec<u8>) -> (r: Result<G2P, G2pError>)
        ensures
            parsed_transducer(bytes@) is None ==> r matches Err(G2pError::FstOperation(_)),
            parsed_transducer(bytes@) is Some ==> ({
                let p = parsed_transducer(bytes@)->Some_0;
                &&& (r is Ok <==> model_ok(p.2, p.0, p.1))
                &&& (r matches Err(G2pError::NoInputSymbols) <==> p.2.0 is None)
                &&& r is Ok ==> r->Ok_0.wf() && r->Ok_0.configuration() == config && r->Ok_0.input_list()
                    == p.2.0->Some_0 && r->Ok_0.output_list() == p.2.1->Some_0 && r->Ok_0.model_view() == (
                    input_sorted(p.0),
                    p.1,
                )
            }),
    {
        match load_transducer(bytes) {
            Ok(model) => G2P::new(config, model),
            Err(e) => Err(G2pError::FstOperation(e)),
        }
    }

    /// The phones of a path's output labels: each label's cluster symbols (or its
    /// own symbol), without the skip marker. A label that is neither a cluster nor
    /// a symbol fails.
    pub fn phones_of(&self, olabels: &Vec<u32>) -> (r: Result<Vec<String>, G2pError>)
        requires
            self.wf(),
        ensures
            r is Ok <==> forall|t: int| 0 <= t < olabels.len() ==> (self.output_clusters().contains_key(
                #[trigger] olabels@[t],
            ) || (olabels@[t] as int) < self.output_list().len()),
            r is Ok ==> views(r->Ok_0@) == phones(self.output_clusters(), self.output_list(), olabels@, self.skip_marker()),
            r is Err ==> r->Err_0 is UnknownOutput,
            r matches Err(G2pError::UnknownOutput(l)) ==> !self.output_clusters().contains_key(l) && l as int
                >= self.output_list().len() && olabels@.contains(l),
    {
        let ghost omap = self.omap@;
        let ghost list = symbol_list(self.osyms);
        let ghost skip = self.config.skip@;
        let mut out: Vec<String> = Vec::new();
        let mut t: usize = 0;
        while t < olabels.len()
            invariant
                t <= olabels.len(),
                omap == self.omap@,
                list == symbol_list(self.osyms),
                skip == self.config.skip@,
                clusters_in(omap, list.len() as int),
                forall|y: int| 0 <= y < t ==> (omap.contains_key(#[trigger] olabels@[y]) || (olabels@[y] as int) < list.len()),
                views(out@) == phones(omap, list, olabels@.take(t as int), skip),
            decreases olabels.len() - t,
        {
            let label = olabels[t];
            let ghost prev = views(out@);
            proof {
                assert(olabels@.take(t + 1).drop_last() =~= olabels@.take(t as int));
            }
            match self.omap.get(&label) {
                Some(cluster) => {
                    let mut y: usize = 0;
                    while y < cluster.len()
                        invariant
                            y <= cluster.len(),
                            omap.contains_key(label),
                            cluster@ == omap[label]@,
                            list == symbol_list(self.osyms),
                            skip == self.config.skip@,
                            clusters_in(omap, list.len() as int),
                            views(out@) == prev + without(label_symbols(omap, list, label).take(y as int), skip),
                        decreases cluster.len() - y,
                    {
                        let c = cluster[y];
                        let ghost before_out = views(out@);
                        proof {
                            assert((omap[label]@[y as int] as int) < list.len());
                            assert(label_symbols(omap, list, label)[y as int] == list[c as int]);
                            let syms = label_symbols(omap, list, label);
                            assert(syms.take(y + 1).drop_last() =~= syms.take(y as int));
                        }
                        match get_symbol(&self.osyms, c) {
                            Some(sym) => {
                                if !str_eq(sym, self.config.skip.as_str()) {
                                    out.push(String::from_str(sym));
                                }
                                proof {
                                    let syms = label_symbols(omap, list, label);
                                    assert(syms.take(y + 1).last() == list[c as int]);
                                    assert(sym@ == list[c as int]);
                                    if list[c as int] == skip {
                                        assert(views(out@) =~= before_out);
                                    } else {
                                        assert(views(out@) =~= before_out.push(list[c as int]));
                                    }
                                    assert(without(syms.take(y + 1), skip) == without(syms.take(y as int), skip) + if list[c as int] == skip {
                                        Seq::<Seq<char>>::empty()
                                    } else {
                                        seq![list[c as int]]
                                    });
                                }
                            },
                            None => {},
                        }
                        proof {
                            assert(views(out@) =~= prev + without(label_symbols(omap, list, label).take(y + 1), skip));
                        }
                        y = y + 1;
                    }
                    proof {
                        assert(label_symbols(omap, list, label).take(y as int) =~= label_symbols(omap, list, label));
                    }
                },
                None => {
                    match get_symbol(&self.osyms, label) {
                        Some(sym) => {
                            if !str_eq(sym, self.config.skip.as_str()) {
                                out.push(String::from_str(sym));
                            }
                            proof {
                                let one = label_symbols(omap, list, label);
                                assert(one.drop_last() =~= Seq::<Seq<char>>::empty());
                                assert(without(Seq::<Seq<char>>::empty(), skip) == Seq::<Seq<char>>::empty());
                                assert(views(out@) =~= prev + without(one, skip));
                            }
                        },
                        None => {
                            proof {
                                assert(olabels@[t as int] == label);
                            }
                            return Err(G2pError::UnknownOutput(label));
                        },
                    }
                },
            }
            t = t + 1;
        }
        proof {
            assert(olabels@.take(t as int) =~= olabels@);
        }
        Ok(out)
    }

    /// Converts a word: its graphemes (split at the separator, empty ones dropped)
    /// must all be input symbols; the word graph is composed with the model, the
    /// composition searched for its lowest-cost path, and the phones of that
    /// path's output labels are handed back with its weight.
    pub fn g2p(&self, word: &str) -> (r: Result<Conversion, G2pError>)
        requires
            self.wf(),
        ensures
            r matches Err(G2pError::UnknownInput(g)) ==> exists|t: int|
                0 <= t < self.graphemes(word@).len() && #[trigger] self.graphemes(word@)[t] == g@
                    && !self.input_list().contains(g@) && forall|u: int|
                    0 <= u < t ==> self.input_list().contains(#[trigger] self.graphemes(word@)[u]),
            (forall|t: int|
                0 <= t < self.graphemes(word@).len() ==> self.input_list().contains(#[trigger] self.graphemes(word@)[t]))
                <==> !(r matches Err(G2pError::UnknownInput(_))),
            exists|p: u64| #[trigger] self.converts_as(word@, p, r),
            r is Ok ==> forall|t: int|
                0 <= t < r->Ok_0.phones@.len() ==> (#[trigger] r->Ok_0.phones@[t])@ != self.skip_marker()
                    && self.output_list().contains(r->Ok_0.phones@[t]@),
    {
        let graphemes = split_fields(word, self.config.gsep.as_str());
        let ghost gs = self.graphemes(word@);
        let ghost list = symbol_list(self.isyms);
        let mut labels: Vec<u32> = Vec::new();
        let mut t: usize = 0;
        while t < graphemes.len()
            invariant
                t <= graphemes.len(),
                gs == self.graphemes(word@),
                list == symbol_list(self.isyms),
                list.no_duplicates(),
                views(graphemes@) == gs,
                labels@.len() == t,
                forall|y: int| 0 <= y < t ==> list.contains(#[trigger] gs[y]),
                forall|y: int| 0 <= y < t ==> #[trigger] labels@[y] == label_of(list, gs[y]),
            decreases graphemes.len() - t,
        {
            match get_label(&self.isyms, graphemes[t].as_str()) {
                Some(l) => {
                    proof {
                        assert(gs[t as int] == graphemes@[t as int]@);
                        lemma_label_unique(list, gs[t as int], l);
                    }
                    labels.push(l);
                },
                None => {
                    let g = String::from_str(graphemes[t].as_str());
                    proof {
                        assert(gs[t as int] == g@);
                    }
                    let res: Result<Conversion, G2pError> = Err(G2pError::UnknownInput(g));
                    proof {
                        assert(self.converts_as(word@, 0, res));
                    }
                    return res;
                },
            }
            t = t + 1;
        }
        proof {
            assert(labels@ =~= gs.map_values(|g: Seq<char>| label_of(list, g)));
        }
        let mut graph = match entry_to_fsa(&labels, self.imax, &self.inv_imap) {
            Ok(g) => g,
            Err(e) => {
                let res: Result<Conversion, G2pError> = Err(e);
                proof {
                    assert(self.converts_as(word@, 0, res));
                }
                return res;
            },
        };
        attach_symbols(&mut graph, &self.isyms);
        let ghost wp = transducer_props(graph);
        proof {
            assert(transducer_states(graph) == self.word_graph(word@));
            lemma_word_graph_no_nan(labels@, self.imax, self.inv_imap@);
        }
        let lattice = match compose_with(&graph, &self.model) {
            Ok(l) => l,
            Err(e) => {
                let res: Result<Conversion, G2pError> = Err(G2pError::FstOperation(e));
                proof {
                    assert(self.converts_as(word@, wp, res));
                }
                return res;
            },
        };
        let shape = transducer_shape(&lattice);
        if !(shape.0 && (shape.1 || shape.2)) {
            let res: Result<Conversion, G2pError> = Err(G2pError::UnsearchableLattice);
            proof {
                assert(self.converts_as(word@, wp, res));
            }
            return res;
        }
        let path = shortest(&lattice);
        let (_, olabels, weight) = decode(&path);
        let out = match self.phones_of(&olabels) {
            Ok(p) => p,
            Err(e) => {
                let res: Result<Conversion, G2pError> = Err(e);
                proof {
                    assert(self.converts_as(word@, wp, res));
                }
                return res;
            },
        };
        proof {
            lemma_phones_in_table(self.omap@, symbol_list(self.osyms), olabels@, self.config.skip@);
            assert forall|t: int| 0 <= t < out@.len() implies (#[trigger] out@[t])@ == views(out@)[t] by {}
        }
        let mut graphs: Vec<Vec<u8>> = Vec::new();
        if self.config.write_fsts {
            graphs.push(transducer_bytes(&graph));
            graphs.push(transducer_bytes(&lattice));
            graphs.push(transducer_bytes(&path));
        }
        let res: Result<Conversion, G2pError> = Ok(Conversion { phones: out, weight, graphs });
        proof {
            assert(self.converts_as(word@, wp, res));
        }
        res
    }
}

/// The two texts are equal.
fn str_eq(a: &str, b: &str) -> (r: bool)
    ensures
        r == (a@ == b@),
{
    let x = String::from_str(a);
    let y = String::from_str(b);
    x == y
}

} // verus!
