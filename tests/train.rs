use std::collections::BTreeSet;
use subword_bpe::norm::SPACE_REP;
use subword_bpe::slow::slow_bpe;
use subword_bpe::spec::TrainSpec;
use subword_bpe::train::{get_sentences, train, train_core, TrainError};
use subword_bpe::vocab::{PieceType, Pieces};

fn corpus(lines: &[&str]) -> Vec<Vec<char>> {
    let spec = TrainSpec::default();
    let lines: Vec<String> = lines.iter().map(|s| s.to_string()).collect();
    get_sentences(&lines, &spec)
}

fn base_size(lines: &[&str]) -> usize {
    let mut chars = BTreeSet::new();
    for s in corpus(lines) {
        chars.extend(s);
    }
    3 + chars.len()
}

fn learned(p: &Pieces) -> Vec<String> {
    p.pieces.iter().map(|e| e.piece.clone()).collect()
}

fn learned_set(p: &Pieces) -> BTreeSet<String> {
    learned(p).into_iter().collect()
}

const SAMPLE0: &[&str] = &["ab ab ba", "ba ab"];
const SAMPLE1: &[&str] = &[
    "the quick brown fox jumps over the lazy dog",
    "the five boxing wizards jump quickly",
    "how vexingly quick daft zebras jump",
    "pack my box with five dozen liquor jugs",
    "the dog barks and the fox runs away from the dog",
];
const SAMPLE2: &[&str] = &["aaa", "", "ab"];
const SAMPLE4: &[&str] = &["abc abc", "  abd  "];

#[test]
fn run_samples() {
    for (lines, vocab_size) in &[(SAMPLE0, 8), (SAMPLE1, 100), (SAMPLE2, 6), (SAMPLE4, 9)] {
        let mut spec = TrainSpec::default();
        spec.vocab_size = *vocab_size;
        spec.model_prefix = "/tmp/foo".into();
        let lines: Vec<String> = lines.iter().map(|s| s.to_string()).collect();
        let v = train(&spec, &lines).unwrap();
        assert_eq!(v.len(), *vocab_size);
        println!("ok {:?}", lines);
    }
}

#[test]
fn check_with_slow_algorithm() {
    for (lines, vocab_size) in &[(SAMPLE0, 8), (SAMPLE1, 80), (SAMPLE2, 6)] {
        let sentences = corpus(lines);
        let a = learned_set(&train_core(sentences.clone(), *vocab_size).unwrap());
        let b = learned_set(&slow_bpe(sentences, *vocab_size).unwrap());
        assert_eq!(a, b, "failed with {:?}", lines);
        println!("OK {:?}", lines);
    }
}

#[test]
fn scenario_ab_ab_ab() {
    let lines = &["ab ab ab"];
    let size = base_size(lines) + 1;
    let fast = train_core(corpus(lines), size).unwrap();
    let slow = slow_bpe(corpus(lines), size).unwrap();
    assert_eq!(learned(&fast), learned(&slow));
    // "\u{2581}a" and "ab" occur three times each; the tie goes to the greater
    assert_eq!(learned(&fast), vec!["\u{2581}a".to_string()]);
}

#[test]
fn scenario_overlapping_pairs() {
    let lines = &["aaaa"];
    let size = base_size(lines) + 2;
    let fast = train_core(corpus(lines), size).unwrap();
    let got = learned(&fast);
    assert_eq!(got[0], "aa");
    // after "aa" is merged at positions 1 and 3, "\u{2581}aa" and "aaaa" occur once
    // each, and the tie goes to the lexicographically greater
    assert_eq!(got[1], "\u{2581}aa");
    let slow = slow_bpe(corpus(lines), size).unwrap();
    assert_eq!(learned(&slow), got);
}

#[test]
fn scenario_low_lower_newer() {
    let lines = &["low low low lower newer"];
    let size = base_size(lines) + 2;
    let fast = train_core(corpus(lines), size).unwrap();
    let slow = slow_bpe(corpus(lines), size).unwrap();
    assert_eq!(fast.pieces.len(), 2);
    assert_eq!(learned_set(&fast), learned_set(&slow));
    assert_eq!(learned(&fast), vec!["\u{2581}l".to_string(), "\u{2581}lo".to_string()]);
}

#[test]
fn scenario_single_character() {
    let lines = &["xxxx"];
    let base = base_size(lines);
    assert_eq!(base, 5);
    let fast = train_core(corpus(lines), base + 1).unwrap();
    assert_eq!(learned(&fast), vec!["xx".to_string()]);
    for p in &fast.pieces {
        assert!(!p.piece.ends_with(SPACE_REP));
    }
    let none = train_core(corpus(lines), base).unwrap();
    assert!(none.pieces.is_empty());
}

#[test]
fn scenario_vocab_too_small() {
    let lines = &["hello"];
    let base = base_size(lines);
    let r = train_core(corpus(lines), base - 1);
    assert!(matches!(r, Err(TrainError::VocabTooSmall { min }) if min == base));
    let r = slow_bpe(corpus(lines), base - 1);
    assert!(matches!(r, Err(TrainError::VocabTooSmall { min }) if min == base));
}

#[test]
fn scenario_vocab_too_large() {
    let lines = &["abc"];
    let base = base_size(lines);
    let r = train_core(corpus(lines), base + 10);
    assert!(matches!(r, Err(TrainError::VocabTooLarge { max }) if max == base + 3));
    let r = slow_bpe(corpus(lines), base + 10);
    assert!(matches!(r, Err(TrainError::VocabTooLarge { max }) if max == base + 3));
}

#[test]
fn vocabulary_layout_and_scores() {
    let lines = &["ab ab ab", "ba"];
    let size = base_size(lines) + 2;
    let mut spec = TrainSpec::default();
    spec.vocab_size = size;
    let v = train(&spec, &lines.iter().map(|s| s.to_string()).collect()).unwrap();
    assert_eq!(v.len(), size);
    assert_eq!(v[0].piece, "<unk>");
    assert_eq!(v[0].kind, PieceType::Unknown);
    assert_eq!(v[1].piece, "<s>");
    assert_eq!(v[2].piece, "</s>");
    assert_eq!(v[2].kind, PieceType::Control);
    assert_eq!(v[3].score(), 0);
    assert_eq!(v[4].score(), -1);
    assert!(v[3].score() > v[4].score());
    let chars: BTreeSet<String> = v[5..].iter().map(|e| e.piece.clone()).collect();
    let expected: BTreeSet<String> =
        ["\u{2581}", "a", "b"].iter().map(|s| s.to_string()).collect();
    assert_eq!(chars, expected);
    assert!(v[5..].iter().all(|e| e.kind == PieceType::Normal && e.score() == 0));
}

#[test]
fn slow_flag_uses_reference_trainer() {
    let lines: Vec<String> = SAMPLE1.iter().map(|s| s.to_string()).collect();
    let mut spec = TrainSpec::default();
    spec.vocab_size = 60;
    let fast = train(&spec, &lines).unwrap();
    spec.slow = true;
    let slow = train(&spec, &lines).unwrap();
    let a: BTreeSet<String> = fast.iter().map(|e| e.piece.clone()).collect();
    let b: BTreeSet<String> = slow.iter().map(|e| e.piece.clone()).collect();
    assert_eq!(a, b);
}

#[test]
fn empty_lines_are_dropped() {
    let s = corpus(&["", "   ", "ab"]);
    assert_eq!(s, vec![vec![SPACE_REP, 'a', 'b']]);
}

#[test]
fn no_learned_piece_ends_at_boundary() {
    let lines = &["a b a b a b", "ab ab"];
    let size = base_size(lines) + 3;
    let fast = train_core(corpus(lines), size).unwrap();
    for p in &fast.pieces {
        assert!(!p.piece.ends_with(SPACE_REP), "{}", p.piece);
    }
}

#[test]
fn overlap_runs_match_reference() {
    let lines = &["aaaaaaa", "aa aaa", "aaaa aaaa a", "baaab aab"];
    let size = base_size(lines) + 5;
    let fast = train_core(corpus(lines), size).unwrap();
    let slow = slow_bpe(corpus(lines), size).unwrap();
    assert_eq!(learned(&fast), learned(&slow));
    assert_eq!(fast.pieces.len(), 5);
}

#[test]
fn scenario_overlap_learns_second_piece() {
    // after "aa", the graph is "\u{2581}", "aa", "aa": two pairs, each once
    let lines = &["aaaa"];
    let size = base_size(lines) + 3;
    let fast = train_core(corpus(lines), size).unwrap();
    assert_eq!(learned(&fast), vec!["aa", "\u{2581}aa", "\u{2581}aaaa"]);
    let r = train_core(corpus(lines), size + 1);
    assert!(matches!(r, Err(TrainError::VocabTooLarge { max }) if max == size));
}
