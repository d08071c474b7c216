use g2p_align::dict::{split_pieces, split_words};
use g2p_align::g2p::{entry_to_fsa, load_clusters, transducer_bytes, Config, G2pError, G2P};
use g2p_align::lattice::AlignError;
use g2p_align::train::ngram::{Config as NGramConfig, NGram};
use rustfst::fst_impls::VectorFst;
use rustfst::fst_traits::{Fst, MutableFst, SerializableFst};
use rustfst::semirings::{Semiring, TropicalWeight};
use rustfst::{SymbolTable, Tr};
use std::sync::Arc;

fn table(syms: &[&str]) -> SymbolTable {
    let mut t = SymbolTable::empty();
    for s in syms {
        t.add_symbol(*s);
    }
    t
}

fn strings(s: &[&str]) -> Vec<String> {
    s.iter().map(|t| t.to_string()).collect()
}

fn config() -> Config {
    Config { gsep: "".to_string(), skip: "_".to_string(), write_fsts: false }
}

/// A one-state model mapping c->k, a->a, t->t, and the cluster "c|a" to "k|_".
fn model_bytes() -> Vec<u8> {
    let isyms = table(&["<eps>", "|", "c", "a", "t", "c|a"]);
    let osyms = table(&["<eps>", "|", "k", "a", "t", "_", "k|_"]);
    let mut fst = VectorFst::<TropicalWeight>::new();
    let s = fst.add_state();
    fst.set_start(s).unwrap();
    fst.set_final(s, TropicalWeight::one()).unwrap();
    fst.add_tr(s, Tr::new(2, 2, TropicalWeight::new(1.0), s)).unwrap();
    fst.add_tr(s, Tr::new(3, 3, TropicalWeight::new(1.0), s)).unwrap();
    fst.add_tr(s, Tr::new(4, 4, TropicalWeight::new(1.0), s)).unwrap();
    fst.add_tr(s, Tr::new(5, 6, TropicalWeight::new(0.5), s)).unwrap();
    fst.set_input_symbols(Arc::new(isyms));
    fst.set_output_symbols(Arc::new(osyms));
    let mut out = Vec::new();
    fst.store(&mut out).unwrap();
    out
}

#[test]
fn clusters_are_split_at_the_separator() {
    let c = load_clusters(&table(&["<eps>", "|", "a", "b", "a|b"])).unwrap();
    assert_eq!(c.maxlen, 2);
    assert_eq!(c.map.get(&2), Some(&vec![2]));
    assert_eq!(c.map.get(&4), Some(&vec![2, 3]));
    assert_eq!(c.inverse, vec![(vec![2], 2), (vec![3], 3), (vec![2, 3], 4)]);
}

#[test]
fn clusters_need_a_separator() {
    assert!(matches!(load_clusters(&table(&["<eps>"])), Err(G2pError::NoClusterSeparator)));
}

#[test]
fn cluster_pieces_must_be_symbols() {
    let r = load_clusters(&table(&["<eps>", "|", "a|c"]));
    assert_eq!(r.err(), Some(G2pError::UnknownClusterPiece("a".to_string())));
}

#[test]
fn word_graph_is_built() {
    assert!(entry_to_fsa(&vec![2, 3, 4], 2, &vec![(vec![2, 3], 5)]).is_ok());
}

#[test]
fn converts_with_clusters_and_skips() {
    let g = G2P::load(config(), &model_bytes()).unwrap();
    let r = g.g2p("cat").unwrap();
    assert_eq!(r.phones, strings(&["k", "t"]));
    assert_eq!(f32::from_bits(r.weight), 1.5);
    assert!(r.graphs.is_empty());
}

#[test]
fn hands_back_graphs_when_asked() {
    let g = G2P::load(Config { write_fsts: true, ..config() }, &model_bytes()).unwrap();
    let r = g.g2p("at").unwrap();
    assert_eq!(r.phones, strings(&["a", "t"]));
    assert_eq!(r.graphs.len(), 3);
}

#[test]
fn unknown_grapheme_fails() {
    let g = G2P::load(config(), &model_bytes()).unwrap();
    assert_eq!(g.g2p("dog").err(), Some(G2pError::UnknownInput("d".to_string())));
}

#[test]
fn output_labels_expand_to_phones() {
    let g = G2P::load(config(), &model_bytes()).unwrap();
    assert_eq!(g.phones_of(&vec![6, 4]).unwrap(), strings(&["k", "t"]));
    assert_eq!(g.phones_of(&vec![5]).unwrap(), strings(&[]));
    assert_eq!(g.phones_of(&vec![2, 99]).err(), Some(G2pError::UnknownOutput(99)));
}

#[test]
fn model_without_symbols_is_refused() {
    let mut fst = VectorFst::<TropicalWeight>::new();
    let s = fst.add_state();
    fst.set_start(s).unwrap();
    let mut out = Vec::new();
    fst.store(&mut out).unwrap();
    assert!(matches!(G2P::load(config(), &out), Err(G2pError::NoInputSymbols)));
}

#[test]
fn alignments_become_acceptors() {
    let mut t = NGram::new(NGramConfig { order: 5, write_fsts: false });
    assert_eq!(t.syms.len(), 1);
    t.load_alignments(&strings(&["a}A b}B ", "  b}B"])).unwrap();
    assert_eq!(t.inputs.len(), 2);
    assert_eq!(t.syms.len(), 3);
    assert_eq!(t.syms.get_label("b}B"), Some(2));
    let model = t.train().unwrap();
    assert!(transducer_bytes(&model).len() > 0);
}

#[test]
fn pieces_keep_empty_ones() {
    assert_eq!(split_pieces("a|b||c", "|"), strings(&["a", "b", "", "c"]));
    assert_eq!(split_pieces("ab", ""), strings(&["", "a", "b", ""]));
    assert_eq!(split_pieces("", "|"), strings(&[""]));
}

#[test]
fn words_are_runs_of_non_space() {
    assert_eq!(split_words(" a  b\tc "), strings(&["a", "b", "c"]));
    assert_eq!(split_words("   "), strings(&[]));
}

#[test]
fn ngram_errors_are_align_errors() {
    let e: Result<(), AlignError> = Err(AlignError::SymbolOverflow);
    assert!(e.is_err());
}

#[test]
fn model_without_output_symbols_is_refused() {
    let mut fst = VectorFst::<TropicalWeight>::new();
    let s = fst.add_state();
    fst.set_start(s).unwrap();
    fst.set_input_symbols(Arc::new(table(&["<eps>", "|"])));
    let mut out = Vec::new();
    fst.store(&mut out).unwrap();
    assert!(matches!(G2P::load(config(), &out), Err(G2pError::NoOutputSymbols)));
}

#[test]
fn overlong_cluster_is_refused() {
    let long = vec!["a"; 256].join("|");
    let r = load_clusters(&table(&["<eps>", "|", "a", &long]));
    assert!(matches!(r, Err(G2pError::ClusterTooLong)));
}

#[test]
fn garbage_model_is_refused() {
    assert!(matches!(G2P::load(config(), &vec![1, 2, 3]), Err(G2pError::FstOperation(_))));
}

#[test]
fn negative_cycle_is_not_searched() {
    let mut fst = VectorFst::<TropicalWeight>::new();
    let s = fst.add_state();
    fst.set_start(s).unwrap();
    fst.set_final(s, TropicalWeight::one()).unwrap();
    fst.add_tr(s, Tr::new(2, 2, TropicalWeight::one(), s)).unwrap();
    // An input-epsilon loop of negative weight: the composition has a negative cycle.
    fst.add_tr(s, Tr::new(0, 2, TropicalWeight::new(-1.0), s)).unwrap();
    fst.set_input_symbols(Arc::new(table(&["<eps>", "|", "a"])));
    fst.set_output_symbols(Arc::new(table(&["<eps>", "|", "A"])));
    let mut out = Vec::new();
    fst.store(&mut out).unwrap();
    let g = G2P::load(config(), &out).unwrap();
    assert_eq!(g.g2p("a").err(), Some(G2pError::UnsearchableLattice));
}

#[test]
fn model_with_arc_outside_is_refused() {
    let mut fst = VectorFst::<TropicalWeight>::new();
    let s = fst.add_state();
    fst.set_start(s).unwrap();
    fst.add_tr(s, Tr::new(2, 2, TropicalWeight::one(), 7)).unwrap();
    fst.set_input_symbols(Arc::new(table(&["<eps>", "|", "a"])));
    fst.set_output_symbols(Arc::new(table(&["<eps>", "|", "A"])));
    let mut out = Vec::new();
    if fst.store(&mut out).is_ok() {
        if let Ok(_) = g2p_align::g2p::G2P::load(config(), &out) {
            panic!("a model with an arc to a missing state was accepted");
        }
    }
}
