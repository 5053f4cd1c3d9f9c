use crate::spec::TrainSpec;
use unicode_normalization::UnicodeNormalization;
use vstd::prelude::*;

verus! {

/// The character that stands for a word boundary (U+2581).
pub const SPACE_REP: char = '\u{2581}';

/// Unicode's White_Space property, which `char::is_whitespace` and
/// `str::trim` follow.
pub open spec fn white_space(c: char) -> bool {
    let v = c as u32;
    (0x09 <= v <= 0x0d) || v == 0x20 || v == 0x85 || v == 0xa0 || v == 0x1680 || (0x2000 <= v
        <= 0x200a) || v == 0x2028 || v == 0x2029 || v == 0x202f || v == 0x205f || v == 0x3000
}

/// `s` without its leading whitespace.
pub open spec fn trim_start(s: Seq<char>) -> Seq<char>
    decreases s.len(),
{
    if s.len() > 0 && white_space(s[0]) {
        trim_start(s.drop_first())
    } else {
        s
    }
}

/// `s` without its trailing whitespace.
pub open spec fn trim_end(s: Seq<char>) -> Seq<char>
    decreases s.len(),
{
    if s.len() > 0 && white_space(s.last()) {
        trim_end(s.drop_last())
    } else {
        s
    }
}

/// Whitespace encoding of `s`: each whitespace character becomes one
/// `SPACE_REP`, except that with `keep == false` a whitespace character is
/// dropped where the last emitted character is already `SPACE_REP`
/// (`prev_space`).
pub open spec fn ws_encode(s: Seq<char>, prev_space: bool, keep: bool) -> Seq<char>
    decreases s.len(),
{
    if s.len() == 0 {
        Seq::empty()
    } else if white_space(s[0]) {
        if prev_space {
            ws_encode(s.drop_first(), prev_space, keep)
        } else {
            seq![SPACE_REP] + ws_encode(s.drop_first(), !keep, keep)
        }
    } else {
        seq![s[0]] + ws_encode(s.drop_first(), s[0] == SPACE_REP && !keep, keep)
    }
}

/// The compatibility decomposition (NFKD) of a character sequence.
pub uninterp spec fn nfkd_of(s: Seq<char>) -> Seq<char>;

/// The normalized form of a line: a leading boundary marker, then the NFKD
/// form of the (trimmed, unless `keep`) line with its whitespace encoded.
pub open spec fn normalized(s: Seq<char>, keep: bool) -> Seq<char> {
    let t = if keep {
        s
    } else {
        trim_end(trim_start(s))
    };
    seq![SPACE_REP] + ws_encode(nfkd_of(t), !keep, keep)
}

/// Relies on `str::chars`: the characters of the string, in order.
#[verifier::external_body]
fn str_chars(s: &str) -> (r: Vec<char>)
    ensures
        r@ == s@,
{
    s.chars().collect()
}

/// Relies on unicode_normalization's `nfkd` adaptor: the NFKD form of the
/// characters, which depends on them alone.
#[verifier::external_body]
fn nfkd(cs: &[char]) -> (r: Vec<char>)
    ensures
        r@ == nfkd_of(cs@),
{
    cs.iter().copied().nfkd().collect()
}

/// Whether `c` has Unicode's White_Space property.
pub fn is_white_space(c: char) -> (r: bool)
    ensures
        r == white_space(c),
{
    let v = c as u32;
    (0x09 <= v && v <= 0x0d) || v == 0x20 || v == 0x85 || v == 0xa0 || v == 0x1680 || (0x2000
        <= v && v <= 0x200a) || v == 0x2028 || v == 0x2029 || v == 0x202f || v == 0x205f || v
        == 0x3000
}

proof fn lemma_trim_start_skip(s: Seq<char>, i: int)
    requires
        0 <= i <= s.len(),
        forall|j: int| 0 <= j < i ==> white_space(#[trigger] s[j]),
    ensures
        trim_start(s) == trim_start(s.subrange(i, s.len() as int)),
    decreases i,
{
    if i > 0 {
        assert(s.drop_first() == s.subrange(1, s.len() as int));
        lemma_trim_start_skip(s.drop_first(), i - 1);
        assert(s.drop_first().subrange(i - 1, s.drop_first().len() as int) == s.subrange(
            i,
            s.len() as int,
        ));
    } else {
        assert(s.subrange(0, s.len() as int) == s);
    }
}

proof fn lemma_trim_end_skip(s: Seq<char>, j: int)
    requires
        0 <= j <= s.len(),
        forall|k: int| j <= k < s.len() ==> white_space(#[trigger] s[k]),
    ensures
        trim_end(s) == trim_end(s.subrange(0, j)),
    decreases s.len() - j,
{
    if j < s.len() {
        lemma_trim_end_skip(s.drop_last(), j);
        assert(s.drop_last().subrange(0, j) == s.subrange(0, j));
    } else {
        assert(s.subrange(0, j) == s);
    }
}

/// The characters of `s` without leading and trailing whitespace.
fn trim_chars(s: &Vec<char>) -> (r: Vec<char>)
    ensures
        r@ == trim_end(trim_start(s@)),
{
    let n = s.len();
    let mut i: usize = 0;
    while i < n && is_white_space(s[i])
        invariant
            i <= n == s@.len(),
            forall|j: int| 0 <= j < i ==> white_space(#[trigger] s@[j]),
        decreases n - i,
    {
        i = i + 1;
    }
    proof {
        lemma_trim_start_skip(s@, i as int);
    }
    let ghost t = s@.subrange(i as int, n as int);
    let mut j: usize = n;
    while j > i && is_white_space(s[j - 1])
        invariant
            i <= j <= n == s@.len(),
            forall|k: int| j <= k < n ==> white_space(#[trigger] s@[k]),
        decreases j,
    {
        j = j - 1;
    }
    proof {
        if i < n {
            assert(!white_space(t[0]));
        }
        assert(trim_start(t) == t);
        lemma_trim_end_skip(t, j - i);
        assert(t.subrange(0, j - i) == s@.subrange(i as int, j as int));
    }
    let mut r: Vec<char> = Vec::new();
    let mut k: usize = i;
    while k < j
        invariant
            i <= k <= j <= n == s@.len(),
            r@ == s@.subrange(i as int, k as int),
        decreases j - k,
    {
        r.push(s[k]);
        k = k + 1;
        assert(r@ == s@.subrange(i as int, k as int));
    }
    r
}

/// Normalizes one line of text into the character sequence that training
/// works on.
pub fn to_chars(s: &str, spec: &TrainSpec) -> (r: Vec<char>)
    ensures
        r@ == normalized(s@, spec.keep_extra_whitespaces),
        r@.len() >= 1,
        r@[0] == SPACE_REP,
{
    let keep = spec.keep_extra_whitespaces;
    let raw = str_chars(s);
    let src = if keep {
        raw
    } else {
        trim_chars(&raw)
    };
    let cs = nfkd(src.as_slice());
    let mut ret: Vec<char> = vec![SPACE_REP];
    let mut is_prev_space = !keep;
    let n = cs.len();
    let mut i: usize = 0;
    assert(cs@.subrange(0, n as int) == cs@);
    assert(ret@ == seq![SPACE_REP]);
    while i < n
        invariant
            n == cs@.len(),
            i <= n,
            ret@.len() >= 1,
            ret@[0] == SPACE_REP,
            ret@ + ws_encode(cs@.subrange(i as int, n as int), is_prev_space, keep) == seq![
                SPACE_REP,
            ] + ws_encode(cs@, !keep, keep),
        decreases n - i,
    {
        let c = cs[i];
        let ghost rest = cs@.subrange(i as int, n as int);
        let ghost old_ret = ret@;
        assert(rest.drop_first() == cs@.subrange(i + 1, n as int));
        if is_white_space(c) {
            if !is_prev_space {
                ret.push(SPACE_REP);
                is_prev_space = !keep;
                proof {
                    vstd::seq_lib::lemma_concat_associative(
                        old_ret,
                        seq![SPACE_REP],
                        ws_encode(rest.drop_first(), is_prev_space, keep),
                    );
                }
            }
        } else {
            ret.push(c);
            is_prev_space = c == SPACE_REP && !keep;
            proof {
                vstd::seq_lib::lemma_concat_associative(
                    old_ret,
                    seq![c],
                    ws_encode(rest.drop_first(), is_prev_space, keep),
                );
            }
        }
        i = i + 1;
    }
    assert(cs@.subrange(n as int, n as int) == Seq::<char>::empty());
    assert(ret@ + Seq::<char>::empty() == ret@);
    ret
}

} // verus!
