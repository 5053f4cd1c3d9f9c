use subword_bpe::norm::{is_white_space, to_chars, SPACE_REP};
use subword_bpe::spec::TrainSpec;

#[test]
fn test_to_chars() {
    let mut spec = TrainSpec::default();
    spec.keep_extra_whitespaces = false;
    let s = "  ab \t c\td  ";
    assert_eq!(
        to_chars(s, &spec),
        vec![SPACE_REP, 'a', 'b', SPACE_REP, 'c', SPACE_REP, 'd']
    );
}

#[test]
fn to_chars_keeps_extra_whitespace() {
    let mut spec = TrainSpec::default();
    spec.keep_extra_whitespaces = true;
    assert_eq!(
        to_chars(" a  b", &spec),
        vec![SPACE_REP, SPACE_REP, 'a', SPACE_REP, SPACE_REP, 'b']
    );
}

#[test]
fn to_chars_empty_line_is_marker_only() {
    let spec = TrainSpec::default();
    assert_eq!(to_chars("", &spec), vec![SPACE_REP]);
    assert_eq!(to_chars(" \t ", &spec), vec![SPACE_REP]);
}

#[test]
fn to_chars_decomposes_compatibility_characters() {
    let spec = TrainSpec::default();
    // U+00E9 decomposes into 'e' and a combining acute accent
    assert_eq!(to_chars("\u{e9}", &spec), vec![SPACE_REP, 'e', '\u{301}']);
    // the ligature U+FB01 decomposes into "fi"
    assert_eq!(to_chars("\u{fb01}x", &spec), vec![SPACE_REP, 'f', 'i', 'x']);
}

#[test]
fn to_chars_unicode_whitespace() {
    let spec = TrainSpec::default();
    assert_eq!(
        to_chars("a\u{3000}b\u{2029}", &spec),
        vec![SPACE_REP, 'a', SPACE_REP, 'b']
    );
}

#[test]
fn white_space_matches_std() {
    for v in 0u32..0x3100 {
        if let Some(c) = char::from_u32(v) {
            assert_eq!(is_white_space(c), c.is_whitespace(), "{:x}", v);
        }
    }
}

#[test]
fn whitespace_after_literal_marker_adds_none() {
    let spec = TrainSpec::default();
    assert_eq!(to_chars("a\u{2581} b", &spec), vec![SPACE_REP, 'a', SPACE_REP, 'b']);
    let mut keep = TrainSpec::default();
    keep.keep_extra_whitespaces = true;
    assert_eq!(
        to_chars("a\u{2581} b", &keep),
        vec![SPACE_REP, 'a', SPACE_REP, SPACE_REP, 'b']
    );
}
