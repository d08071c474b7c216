use g2p_align::align::Aligner;
use g2p_align::dict::{parse_entry, split_fields, trim};
use g2p_align::lattice::{build_lattice, AlignError, Config};
use g2p_align::model::AlignmentModel;
use g2p_align::weight::{is_finite, weight_change, DELETION_SEED, WEIGHT_ONE, WEIGHT_ZERO};
use rustfst::SymbolTable;

fn config() -> Config {
    Config {
        seq1_max: 2,
        seq2_max: 2,
        seq1_del: true,
        seq2_del: true,
        restrict: true,
        seq1_sep: "|".to_string(),
        seq2_sep: "|".to_string(),
        s1s2_sep: "}".to_string(),
        eps: "<eps>".to_string(),
        skip: "_".to_string(),
        s1_char_delim: "".to_string(),
        s2_char_delim: " ".to_string(),
    }
}

fn one_to_one() -> Config {
    Config { seq1_max: 1, seq2_max: 1, seq1_del: false, seq2_del: false, ..config() }
}

fn tokens(s: &[&str]) -> Vec<String> {
    s.iter().map(|t| t.to_string()).collect()
}

fn lines(s: &[&str]) -> Vec<String> {
    tokens(s)
}

/// Loads the corpus and trains: one M-step, `iter` rounds, one closing round.
fn train(c: Config, corpus: &[&str], iter: usize) -> Aligner {
    let mut a = Aligner::new(c);
    let skipped = a.load_dictionary(&lines(corpus)).unwrap();
    assert!(skipped.is_empty());
    let deltas = a.train(iter as u8).unwrap();
    assert_eq!(deltas.len(), iter + 1);
    a
}

#[test]
fn cat_aligns_one_to_one() {
    let a = train(one_to_one(), &["cat\tk a t"], 1);
    assert_eq!(a.alignments().unwrap(), vec!["c}k a}a t}t".to_string()]);
}

#[test]
fn cat_lattice_is_a_single_path() {
    let mut syms = SymbolTable::empty();
    let f = build_lattice(&one_to_one(), &mut syms, &tokens(&["c", "a", "t"]), &tokens(&["k", "a", "t"])).unwrap();
    assert_eq!(f.num_states(), 16);
}

#[test]
fn abc_aligns_letter_by_letter() {
    let a = train(one_to_one(), &["abc\tA B C"], 1);
    assert_eq!(a.alignments().unwrap(), vec!["a}A b}B c}C".to_string()]);
}

#[test]
fn single_input_prefers_joint_output() {
    let c = Config { seq2_max: 2, ..config() };
    let a = train(c, &["x\tY Z"], 1);
    assert_eq!(a.alignments().unwrap(), vec!["x}Y|Z".to_string()]);
}

#[test]
fn identical_entries_align_identically() {
    let a = train(config(), &["hello\th e l o", "hello\th e l o", "hello\th e l o"], 2);
    let out = a.alignments().unwrap();
    assert_eq!(out.len(), 3);
    assert_eq!(out[0], out[1]);
    assert_eq!(out[1], out[2]);
}

#[test]
fn missing_tab_is_malformed() {
    let mut a = Aligner::new(config());
    let r = a.load_dictionary(&lines(&["foo bar\n"]));
    assert_eq!(r, Err(AlignError::MalformedEntry("foo bar\n".to_string())));
}

#[test]
fn extra_field_is_malformed() {
    let r = parse_entry(&config(), "a\tb\tc");
    assert!(matches!(r, Err(AlignError::MalformedEntry(_))));
}

#[test]
fn two_inputs_one_output_is_infeasible() {
    let mut a = Aligner::new(one_to_one());
    let r = a.add_entry(&tokens(&["a", "b"]), &tokens(&["C"]));
    assert_eq!(r, Err(AlignError::InfeasibleAlignment("a|b to C".to_string())));
    assert_eq!(a.num_lattices(), 0);
}

#[test]
fn shorter_input_without_insertions_is_infeasible() {
    let c = Config { seq1_del: false, seq2_max: 1, ..config() };
    let mut a = Aligner::new(c);
    let r = a.add_entry(&tokens(&["a"]), &tokens(&["B", "C"]));
    assert!(matches!(r, Err(AlignError::InfeasibleAlignment(_))));
}

#[test]
fn empty_side_is_infeasible() {
    let mut a = Aligner::new(config());
    assert!(matches!(a.add_entry(&tokens(&[]), &tokens(&["A"])), Err(AlignError::InfeasibleAlignment(_))));
    assert!(matches!(a.add_entry(&tokens(&["a"]), &tokens(&[])), Err(AlignError::InfeasibleAlignment(_))));
    assert_eq!(a.num_lattices(), 0);
}

#[test]
fn infeasible_lines_are_skipped() {
    let mut a = Aligner::new(one_to_one());
    let skipped = a.load_dictionary(&lines(&["ab\tC", "ab\tA B"])).unwrap();
    assert_eq!(skipped.len(), 1);
    assert!(matches!(skipped[0], AlignError::InfeasibleAlignment(_)));
    assert_eq!(a.num_lattices(), 1);
}

#[test]
fn symmetric_corpus_gives_equal_estimates() {
    let a = train(config(), &["aa\tA A", "aa\tB B"], 2);
    let la = a.get_label("a}A").unwrap();
    let lb = a.get_label("a}B").unwrap();
    assert_eq!(a.estimate(la), a.estimate(lb));
    assert!(a.estimate(la).is_some());
}

#[test]
fn grid_has_one_state_per_cell() {
    let mut syms = SymbolTable::empty();
    let f = build_lattice(&config(), &mut syms, &tokens(&["a", "b", "c"]), &tokens(&["X", "Y"])).unwrap();
    assert_eq!(f.num_states(), 12);
}

#[test]
fn huge_grid_is_refused() {
    let mut syms = SymbolTable::empty();
    let long: Vec<String> = (0..65536).map(|_| "a".to_string()).collect();
    let r = build_lattice(&config(), &mut syms, &long, &long);
    assert!(matches!(r, Err(AlignError::LatticeTooLarge)));
}

#[test]
fn reserved_symbols_come_first() {
    let a = Aligner::new(config());
    assert_eq!(a.len(), 5);
    assert_eq!(a.get_symbol(0), Some("<eps>"));
    assert_eq!(a.get_symbol(1), Some("_"));
    assert_eq!(a.get_symbol(2), Some("|_|"));
    assert_eq!(a.get_symbol(3), Some("}"));
    assert_eq!(a.get_symbol(4), Some("true_true_2_2"));
    assert_eq!(a.get_symbol(5), None);
}

#[test]
fn config_tag_spells_numbers() {
    let c = Config { seq1_del: false, seq1_max: 12, seq2_max: 255, ..config() };
    let a = Aligner::new(c);
    assert_eq!(a.get_symbol(4), Some("false_true_12_255"));
}

#[test]
fn symbols_stay_distinct() {
    let a = train(config(), &["abc\tA B C", "cab\tC A B"], 1);
    let n = a.len() as u32;
    let mut seen = std::collections::HashSet::new();
    for l in 0..n {
        assert!(seen.insert(a.get_symbol(l).unwrap().to_string()));
    }
    for l in 0..n {
        assert_eq!(a.get_label(a.get_symbol(l).unwrap()), Some(l));
    }
}

#[test]
fn one_to_one_path_has_max_length() {
    let a = train(one_to_one(), &["abcd\tW X Y Z"], 1);
    let out = a.alignments().unwrap();
    assert_eq!(out[0].split(' ').count(), 4);
}

#[test]
fn maximization_clears_counts() {
    let mut m = AlignmentModel::new();
    m.accumulate(7, WEIGHT_ONE);
    m.accumulate(9, DELETION_SEED);
    let total = m.total;
    let change = m.normalize_and_reset(10);
    assert_eq!(change, weight_change(total, WEIGHT_ZERO));
    assert_eq!(m.accum.get(&7), Some(&WEIGHT_ZERO));
    assert_eq!(m.accum.get(&9), Some(&WEIGHT_ZERO));
    assert_eq!(m.total, WEIGHT_ZERO);
    assert_eq!(m.prev_total, total);
    assert_eq!(m.get(7), Some((0.0f32 - f32::from_bits(total)).to_bits()));
    assert!(is_finite(m.get(9).unwrap()));
}

#[test]
fn estimates_after_training_are_finite() {
    let a = train(config(), &["abc\tA B C"], 3);
    for l in 0..a.len() as u32 {
        if let Some(w) = a.estimate(l) {
            assert!(f32::from_bits(w).is_finite());
        }
    }
}

#[test]
fn accumulate_adds_in_log_space() {
    let mut m = AlignmentModel::new();
    m.accumulate(3, WEIGHT_ONE);
    assert_eq!(m.accum.get(&3), Some(&WEIGHT_ONE));
    m.accumulate(3, WEIGHT_ONE);
    let v = f32::from_bits(*m.accum.get(&3).unwrap());
    assert!((v + 2f32.ln()).abs() < 1e-5);
    assert!((f32::from_bits(m.total) + 2f32.ln()).abs() < 1e-5);
}

#[test]
fn weight_bits_and_change() {
    let two = 2.0f32.to_bits();
    let three = 3.0f32.to_bits();
    assert_eq!(weight_change(two, three), 1.0f32.to_bits());
    assert_eq!(weight_change(three, two), 1.0f32.to_bits());
    assert_eq!(weight_change(WEIGHT_ONE, two), 2.0f32.to_bits());
    assert_eq!(f32::from_bits(WEIGHT_ZERO), f32::INFINITY);
    assert_eq!(f32::from_bits(DELETION_SEED), 99.0);
    assert!(!is_finite(f32::NAN.to_bits()));
    assert!(!is_finite(WEIGHT_ZERO));
    assert!(!is_finite(f32::NEG_INFINITY.to_bits()));
    assert!(is_finite(DELETION_SEED));
}

#[test]
fn split_by_characters_and_delimiters() {
    assert_eq!(split_fields("abc", ""), tokens(&["a", "b", "c"]));
    assert_eq!(split_fields("A  B C ", " "), tokens(&["A", "B", "C"]));
    assert_eq!(split_fields("a::b:::c", "::"), tokens(&["a", "b", ":c"]));
    assert_eq!(split_fields("", " "), tokens(&[]));
}

#[test]
fn trim_removes_white_space() {
    assert_eq!(trim("  ab c\t\r\n"), "ab c".to_string());
    assert_eq!(trim("\u{3000}x\u{a0}"), "x".to_string());
    assert_eq!(trim("   "), "".to_string());
}

#[test]
fn entry_is_split_into_tokens() {
    let (s1, s2) = parse_entry(&config(), " cat\t\tk a t \r").unwrap();
    assert_eq!(s1, tokens(&["c", "a", "t"]));
    assert_eq!(s2, tokens(&["k", "a", "t"]));
}

#[test]
fn single_path_estimates_are_uniform() {
    // One path of three arcs: each arc is traversed once, so each token gets a third.
    let a = train(one_to_one(), &["cat\tk a t"], 2);
    for tok in ["c}k", "a}a", "t}t"] {
        let w = f32::from_bits(a.estimate(a.get_label(tok).unwrap()).unwrap());
        assert!((w - 3f32.ln()).abs() < 1e-5, "{} {}", tok, w);
    }
}

#[test]
fn first_maximization_turns_seeds_into_estimates() {
    let mut a = Aligner::new(one_to_one());
    a.add_entry(&tokens(&["a", "b"]), &tokens(&["A", "B"])).unwrap();
    let change = a.maximization();
    // Two arcs seeded with weight one: total is -ln 2, each estimate ln 2; the
    // previous total was semiring zero, so the change is infinite.
    assert_eq!(f32::from_bits(change), f32::INFINITY);
    let w = f32::from_bits(a.estimate(a.get_label("a}A").unwrap()).unwrap());
    assert!((w - 2f32.ln()).abs() < 1e-5);
}

#[test]
fn stepwise_training_matches_train() {
    let mut a = Aligner::new(config());
    a.load_dictionary(&lines(&["abc\tA B C", "ab\tA B"])).unwrap();
    a.maximization();
    a.expectation().unwrap();
    let d1 = a.maximization();
    a.expectation().unwrap();
    let d2 = a.maximization();
    let b = train(config(), &["abc\tA B C", "ab\tA B"], 1);
    let mut c = Aligner::new(config());
    c.load_dictionary(&lines(&["abc\tA B C", "ab\tA B"])).unwrap();
    assert_eq!(c.train(1).unwrap(), vec![d1, d2]);
    assert_eq!(a.alignments().unwrap(), b.alignments().unwrap());
}

#[test]
fn empty_side_after_splitting_is_skipped() {
    let c = Config { s2_char_delim: "x".to_string(), ..config() };
    let mut a = Aligner::new(c);
    let skipped = a.load_dictionary(&lines(&["ab\txx"])).unwrap();
    assert_eq!(skipped, vec![AlignError::InfeasibleAlignment("a|b to ".to_string())]);
    assert_eq!(a.num_lattices(), 0);
}

#[test]
fn infeasible_line_is_the_one_skipped() {
    let c = Config { seq1_max: 1, seq2_max: 2, seq1_del: false, seq2_del: false, ..config() };
    let mut a = Aligner::new(c);
    let skipped = a.load_dictionary(&lines(&["ab\tC", "abc\tA B C"])).unwrap();
    assert_eq!(skipped, vec![AlignError::InfeasibleAlignment("a|b to C".to_string())]);
    assert_eq!(a.num_lattices(), 1);
}
