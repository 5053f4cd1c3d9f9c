use subword_bpe::graph::{Documents, NIL};
use subword_bpe::index::{is_valid_piece, lex_less};
use subword_bpe::train::Trainer;

#[test]
fn walks_and_pairs() {
    let d = Documents::new(vec!["abcd".chars().collect()]);
    assert_eq!(d.nth_from((0, 1), 2), Some((0, 3)));
    assert_eq!(d.nth_from((0, 1), 3), Some((0, 4)));
    assert_eq!(d.nth_from((0, 1), 4), None);
    assert_eq!(d.nth_from((0, 0), -1), None);
    assert_eq!(d.nth_from((0, 2), -2), Some((0, 0)));
    assert_eq!(d.pair_words((0, 1), -1, 1), Some(((0, 0), 2)));
}

#[test]
fn remove_node_splices() {
    let mut d = Documents::new(vec!["abcd".chars().collect()]);
    assert_eq!(d.remove_node((0, 0)), None);
    assert_eq!(d.remove_node((0, 2)), Some(()));
    assert_eq!(d.links[0][1], (0, 3));
    assert_eq!(d.links[0][3], (1, 4));
    assert_eq!(d.links[0][2], (NIL, NIL));
    assert_eq!(d.remove_node((0, 2)), None);
    assert_eq!(d.nth_from((0, 1), 1), Some((0, 3)));
}

#[test]
fn step_merges_best_pair() {
    let mut t = Trainer::new(vec!["\u{2581}aaaa".chars().collect()]);
    let p = t.step().unwrap();
    assert_eq!(p, vec!['a', 'a']);
    // "aa" merged at 1 and 3; 2 and 4 are gone
    assert_eq!(t.doc.links[0][1].1, 3);
    assert_eq!(t.doc.links[0][3].1, 5);
    assert_eq!(t.doc.links[0][2], (NIL, NIL));
}

#[test]
fn validity_and_order() {
    assert!(is_valid_piece(&['a', 'b']));
    assert!(!is_valid_piece(&['a', '\u{2581}']));
    assert!(!is_valid_piece(&[]));
    assert!(lex_less(&['a'], &['a', 'b']));
    assert!(lex_less(&['a', 'z'], &['b']));
    assert!(!lex_less(&['\u{2581}'], &['a']));
    assert!(!lex_less(&['a'], &['a']));
}
