use crate::index::{is_valid_piece, lex_less, slice_eq, valid_piece};
use crate::train::{learned_pieces, learned_valid, training_result, TrainError};
use crate::vocab::{alphabet, char_entries, chars_to_string, Pieces, VocabEntry};
use vstd::prelude::*;

verus! {

/// The symbols of one encoded line.
pub open spec fn sym_views(line: Seq<Vec<char>>) -> Seq<Seq<char>> {
    line.map_values(|s: Vec<char>| s@)
}

/// An encoded corpus: for each sentence, its symbols.
pub open spec fn enc_views(enc: Seq<Vec<Vec<char>>>) -> Seq<Seq<Seq<char>>> {
    enc.map_values(|l: Vec<Vec<char>>| sym_views(l@))
}

/// How often symbol `a` is directly followed by symbol `b` in `line`.
pub open spec fn line_count(line: Seq<Seq<char>>, a: Seq<char>, b: Seq<char>) -> nat
    decreases line.len(),
{
    if line.len() < 2 {
        0
    } else {
        (if line[0] == a && line[1] == b {
            1nat
        } else {
            0nat
        }) + line_count(line.drop_first(), a, b)
    }
}

/// How often symbol `a` is directly followed by symbol `b` in the corpus.
pub open spec fn pair_count(enc: Seq<Seq<Seq<char>>>, a: Seq<char>, b: Seq<char>) -> nat
    decreases enc.len(),
{
    if enc.len() == 0 {
        0
    } else {
        pair_count(enc.drop_last(), a, b) + line_count(enc.last(), a, b)
    }
}

/// Number of symbols of the corpus.
pub open spec fn total_syms(enc: Seq<Seq<Seq<char>>>) -> nat
    decreases enc.len(),
{
    if enc.len() == 0 {
        0
    } else {
        total_syms(enc.drop_last()) + enc.last().len()
    }
}

/// Number of characters of the corpus.
pub open spec fn total_chars(sentences: Seq<Vec<char>>) -> nat
    decreases sentences.len(),
{
    if sentences.len() == 0 {
        0
    } else {
        total_chars(sentences.drop_last()) + sentences.last()@.len()
    }
}

/// `line` with each occurrence of `a` followed by `b` replaced by the single
/// symbol `a + b`, scanning left to right without overlaps.
pub open spec fn merge_line(line: Seq<Seq<char>>, a: Seq<char>, b: Seq<char>) -> Seq<Seq<char>>
    decreases line.len(),
{
    if line.len() == 0 {
        Seq::empty()
    } else if line.len() >= 2 && line[0] == a && line[1] == b {
        seq![a + b] + merge_line(line.subrange(2, line.len() as int), a, b)
    } else {
        seq![line[0]] + merge_line(line.drop_first(), a, b)
    }
}

/// Every line of the corpus merged.
pub open spec fn merge_all(enc: Seq<Seq<Seq<char>>>, a: Seq<char>, b: Seq<char>) -> Seq<
    Seq<Seq<char>>,
> {
    enc.map_values(|l: Seq<Seq<char>>| merge_line(l, a, b))
}

/// The corpus with every character its own symbol.
pub open spec fn initial_encoding(sentences: Seq<Vec<char>>) -> Seq<Seq<Seq<char>>> {
    sentences.map_values(|s: Vec<char>| s@.map_values(|c: char| seq![c]))
}

/// `e2` is `e` after one reference step that merged `a` followed by `b`: the
/// merge is a valid piece, no valid pair occurs more often, and every line is
/// merged left to right.
pub open spec fn slow_merge(
    e: Seq<Seq<Seq<char>>>,
    e2: Seq<Seq<Seq<char>>>,
    a: Seq<char>,
    b: Seq<char>,
) -> bool {
    &&& valid_piece(a + b)
    &&& pair_count(e, a, b) > 0
    &&& forall|a2: Seq<char>, b2: Seq<char>|
        valid_piece(a2 + b2) ==> #[trigger] pair_count(e, a2, b2) <= pair_count(e, a, b)
    &&& e2 == merge_all(e, a, b)
}

/// No valid pair occurs in `e`.
pub open spec fn slow_exhausted(e: Seq<Seq<Seq<char>>>) -> bool {
    forall|a: Seq<char>, b: Seq<char>| valid_piece(a + b) ==> #[trigger] pair_count(e, a, b) == 0
}

/// `encs` are the encodings that the reference trainer went through on
/// `sentences`, `splits` the pairs it merged and `learned` the pieces.
pub open spec fn reference_trace(
    sentences: Seq<Vec<char>>,
    encs: Seq<Seq<Seq<Seq<char>>>>,
    splits: Seq<(Seq<char>, Seq<char>)>,
    learned: Seq<Seq<char>>,
) -> bool {
    &&& encs.len() == learned.len() + 1
    &&& splits.len() == learned.len()
    &&& encs[0] == initial_encoding(sentences)
    &&& forall|k: int|
        0 <= k < learned.len() ==> #[trigger] learned[k] == splits[k].0 + splits[k].1 && slow_merge(
            encs[k],
            encs[k + 1],
            splits[k].0,
            splits[k].1,
        )
}

proof fn lemma_line_count_bound(line: Seq<Seq<char>>, a: Seq<char>, b: Seq<char>)
    ensures
        line_count(line, a, b) <= line.len(),
    decreases line.len(),
{
    if line.len() >= 2 {
        lemma_line_count_bound(line.drop_first(), a, b);
    }
}

proof fn lemma_pair_count_bound(enc: Seq<Seq<Seq<char>>>, a: Seq<char>, b: Seq<char>)
    ensures
        pair_count(enc, a, b) <= total_syms(enc),
    decreases enc.len(),
{
    if enc.len() > 0 {
        lemma_pair_count_bound(enc.drop_last(), a, b);
        lemma_line_count_bound(enc.last(), a, b);
    }
}

proof fn lemma_line_count_witness(line: Seq<Seq<char>>, a: Seq<char>, b: Seq<char>) -> (i: int)
    requires
        line_count(line, a, b) > 0,
    ensures
        0 <= i && i + 1 < line.len() && line[i] == a && line[i + 1] == b,
    decreases line.len(),
{
    if line[0] == a && line[1] == b {
        0
    } else {
        let j = lemma_line_count_witness(line.drop_first(), a, b);
        j + 1
    }
}

proof fn lemma_pair_count_witness(enc: Seq<Seq<Seq<char>>>, a: Seq<char>, b: Seq<char>) -> (r: (
    int,
    int,
))
    requires
        pair_count(enc, a, b) > 0,
    ensures
        0 <= r.0 < enc.len(),
        0 <= r.1 && r.1 + 1 < enc[r.0].len(),
        enc[r.0][r.1] == a,
        enc[r.0][r.1 + 1] == b,
    decreases enc.len(),
{
    if line_count(enc.last(), a, b) > 0 {
        let i = lemma_line_count_witness(enc.last(), a, b);
        ((enc.len() - 1) as int, i)
    } else {
        let (s, i) = lemma_pair_count_witness(enc.drop_last(), a, b);
        (s, i)
    }
}

proof fn lemma_merge_line_len(line: Seq<Seq<char>>, a: Seq<char>, b: Seq<char>)
    ensures
        merge_line(line, a, b).len() <= line.len(),
    decreases line.len(),
{
    if line.len() >= 2 && line[0] == a && line[1] == b {
        lemma_merge_line_len(line.subrange(2, line.len() as int), a, b);
    } else if line.len() > 0 {
        lemma_merge_line_len(line.drop_first(), a, b);
    }
}

proof fn lemma_merge_all_total(enc: Seq<Seq<Seq<char>>>, a: Seq<char>, b: Seq<char>)
    ensures
        total_syms(merge_all(enc, a, b)) <= total_syms(enc),
    decreases enc.len(),
{
    if enc.len() > 0 {
        lemma_merge_all_total(enc.drop_last(), a, b);
        lemma_merge_line_len(enc.last(), a, b);
        assert(merge_all(enc, a, b).drop_last() == merge_all(enc.drop_last(), a, b));
    }
}

proof fn lemma_initial_total(sentences: Seq<Vec<char>>)
    ensures
        total_syms(initial_encoding(sentences)) == total_chars(sentences),
    decreases sentences.len(),
{
    if sentences.len() > 0 {
        lemma_initial_total(sentences.drop_last());
        assert(initial_encoding(sentences).drop_last() == initial_encoding(sentences.drop_last()));
    }
}

/// Whether symbols `x` and `y` are equal.
fn sym_eq(x: &Vec<char>, y: &Vec<char>) -> (r: bool)
    ensures
        r == (x@ == y@),
{
    let r = slice_eq(x, y, 0, y.len());
    assert(y@.subrange(0, y@.len() as int) == y@);
    r
}

/// The symbol `a + b`.
fn concat(a: &Vec<char>, b: &Vec<char>) -> (r: Vec<char>)
    ensures
        r@ == a@ + b@,
{
    let mut r: Vec<char> = a.clone();
    assert(r@ =~= a@);
    let mut i: usize = 0;
    while i < b.len()
        invariant
            i <= b@.len(),
            r@ == a@ + b@.subrange(0, i as int),
        decreases b@.len() - i,
    {
        r.push(b[i]);
        i = i + 1;
        assert(r@ =~= a@ + b@.subrange(0, i as int));
    }
    assert(b@.subrange(0, b@.len() as int) == b@);
    r
}

/// How often `a` is directly followed by `b` in one line.
fn count_line(line: &Vec<Vec<char>>, a: &Vec<char>, b: &Vec<char>) -> (r: usize)
    ensures
        r == line_count(sym_views(line@), a@, b@),
{
    let ghost l = sym_views(line@);
    let n = line.len();
    let mut cnt: usize = 0;
    let mut i: usize = 0;
    assert(l.skip(0) == l);
    while n > 0 && i < n - 1
        invariant
            n == line@.len() == l.len(),
            l == sym_views(line@),
            i <= n,
            cnt <= i,
            cnt + line_count(l.skip(i as int), a@, b@) == line_count(l, a@, b@),
        decreases n - i,
    {
        assert(l.skip(i as int).drop_first() == l.skip(i + 1));
        if sym_eq(&line[i], a) && sym_eq(&line[i + 1], b) {
            cnt = cnt + 1;
        }
        i = i + 1;
    }
    cnt
}

/// How often `a` is directly followed by `b` in the corpus.
fn count_pair(enc: &Vec<Vec<Vec<char>>>, a: &Vec<char>, b: &Vec<char>) -> (r: usize)
    requires
        total_syms(enc_views(enc@)) <= usize::MAX,
    ensures
        r == pair_count(enc_views(enc@), a@, b@),
{
    let ghost e = enc_views(enc@);
    let mut total: usize = 0;
    let mut s: usize = 0;
    while s < enc.len()
        invariant
            e == enc_views(enc@),
            total_syms(e) <= usize::MAX,
            s <= enc@.len(),
            total == pair_count(e.subrange(0, s as int), a@, b@),
        decreases enc@.len() - s,
    {
        let c = count_line(&enc[s], a, b);
        proof {
            let pre = e.subrange(0, s + 1);
            assert(pre.drop_last() == e.subrange(0, s as int));
            lemma_pair_count_bound(pre, a@, b@);
            lemma_total_prefix(e, s + 1);
        }
        total = total + c;
        s = s + 1;
    }
    assert(e.subrange(0, e.len() as int) == e);
    total
}

proof fn lemma_total_prefix(e: Seq<Seq<Seq<char>>>, k: int)
    requires
        0 <= k <= e.len(),
    ensures
        total_syms(e.subrange(0, k)) <= total_syms(e),
    decreases e.len() - k,
{
    if k < e.len() {
        lemma_total_prefix(e, k + 1);
        assert(e.subrange(0, k + 1).drop_last() == e.subrange(0, k));
    } else {
        assert(e.subrange(0, k) == e);
    }
}

/// A copy of symbol `x`.
fn copy_sym(x: &Vec<char>) -> (r: Vec<char>)
    ensures
        r@ == x@,
{
    let r = x.clone();
    assert(r@ =~= x@);
    r
}

/// One line with the pair `a`, `b` merged left to right.
fn merge_line_exec(line: &Vec<Vec<char>>, a: &Vec<char>, b: &Vec<char>) -> (r: Vec<Vec<char>>)
    ensures
        sym_views(r@) == merge_line(sym_views(line@), a@, b@),
{
    let ghost l = sym_views(line@);
    let ab = concat(a, b);
    let n = line.len();
    let mut out: Vec<Vec<char>> = Vec::new();
    let mut i: usize = 0;
    assert(l.skip(0) == l);
    while i < n
        invariant
            n == line@.len() == l.len(),
            l == sym_views(line@),
            ab@ == a@ + b@,
            i <= n,
            sym_views(out@) + merge_line(l.skip(i as int), a@, b@) == merge_line(l, a@, b@),
        decreases n - i,
    {
        let ghost old_out = sym_views(out@);
        let ghost rest = l.skip(i as int);
        if i + 1 < n && sym_eq(&line[i], a) && sym_eq(&line[i + 1], b) {
            out.push(copy_sym(&ab));
            proof {
                assert(rest.subrange(2, rest.len() as int) == l.skip(i + 2));
                assert(sym_views(out@) == old_out.push(a@ + b@));
                vstd::seq_lib::lemma_concat_associative(
                    old_out,
                    seq![a@ + b@],
                    merge_line(l.skip(i + 2), a@, b@),
                );
                assert(old_out.push(a@ + b@) == old_out + seq![a@ + b@]);
            }
            i = i + 2;
        } else {
            out.push(copy_sym(&line[i]));
            proof {
                assert(rest.drop_first() == l.skip(i + 1));
                assert(sym_views(out@) == old_out.push(l[i as int]));
                vstd::seq_lib::lemma_concat_associative(
                    old_out,
                    seq![l[i as int]],
                    merge_line(l.skip(i + 1), a@, b@),
                );
                assert(old_out.push(l[i as int]) == old_out + seq![l[i as int]]);
            }
            i = i + 1;
        }
    }
    assert(l.skip(n as int) == Seq::<Seq<char>>::empty());
    assert(sym_views(out@) + Seq::<Seq<char>>::empty() == sym_views(out@));
    out
}

/// The corpus with every character its own symbol.
fn initial(sentences: &Vec<Vec<char>>) -> (r: Vec<Vec<Vec<char>>>)
    ensures
        enc_views(r@) == initial_encoding(sentences@),
{
    let mut enc: Vec<Vec<Vec<char>>> = Vec::new();
    let mut s: usize = 0;
    while s < sentences.len()
        invariant
            s <= sentences@.len(),
            enc_views(enc@) == initial_encoding(sentences@.subrange(0, s as int)),
        decreases sentences@.len() - s,
    {
        let line = &sentences[s];
        let mut syms: Vec<Vec<char>> = Vec::new();
        let mut i: usize = 0;
        while i < line.len()
            invariant
                line == &sentences@[s as int],
                i <= line@.len(),
                sym_views(syms@) == line@.subrange(0, i as int).map_values(|c: char| seq![c]),
            decreases line@.len() - i,
        {
            let ghost old_syms = syms@;
            let mut sym: Vec<char> = Vec::new();
            sym.push(line[i]);
            assert(sym@ =~= seq![line@[i as int]]);
            syms.push(sym);
            i = i + 1;
            proof {
                let w = seq![line@[i - 1]];
                assert(sym_views(syms@) =~= sym_views(old_syms).push(w));
                assert(line@.subrange(0, i as int).map_values(|c: char| seq![c]) =~= line@.subrange(
                    0,
                    i - 1,
                ).map_values(|c: char| seq![c]).push(w));
            }
        }
        let ghost old_enc = enc@;
        enc.push(syms);
        s = s + 1;
        proof {
            assert(line@.subrange(0, line@.len() as int) == line@);
            let w = line@.map_values(|c: char| seq![c]);
            assert(enc_views(enc@) =~= enc_views(old_enc).push(w));
            assert(initial_encoding(sentences@.subrange(0, s as int)) =~= initial_encoding(
                sentences@.subrange(0, s - 1),
            ).push(w));
        }
    }
    assert(sentences@.subrange(0, sentences@.len() as int) == sentences@);
    enc
}

/// One step of the reference trainer: finds the most frequent pair of
/// adjacent symbols whose merge is a valid piece, and merges it everywhere.
/// Returns the two symbols, or `None` when no valid pair occurs.
pub fn slow_step(enc: &mut Vec<Vec<Vec<char>>>) -> (r: Option<(Vec<char>, Vec<char>)>)
    requires
        total_syms(enc_views(old(enc)@)) <= usize::MAX,
    ensures
        match r {
            None => final(enc)@ == old(enc)@ && slow_exhausted(enc_views(old(enc)@)),
            Some((a, b)) => slow_merge(enc_views(old(enc)@), enc_views(final(enc)@), a@, b@),
        },
{
    let ghost e = enc_views(enc@);
    let mut found = false;
    let mut bs: usize = 0;
    let mut bi: usize = 0;
    let mut best: usize = 0;
    let mut best_ab: Vec<char> = Vec::new();
    let mut s: usize = 0;
    while s < enc.len()
        invariant
            bi < usize::MAX,
            e == enc_views(enc@),
            total_syms(e) <= usize::MAX,
            s <= enc@.len(),
            found ==> bs < enc@.len() && bi + 1 < e[bs as int].len() && valid_piece(
                e[bs as int][bi as int] + e[bs as int][bi + 1],
            ) && best == pair_count(e, e[bs as int][bi as int], e[bs as int][bi + 1]) && best > 0,
            !found ==> best == 0,
            forall|t: int, j: int|
                0 <= t < s && 0 <= j && j + 1 < e[t].len() && valid_piece(
                    #[trigger] e[t][j] + e[t][j + 1],
                ) ==> pair_count(e, e[t][j], e[t][j + 1]) <= best,
        decreases enc@.len() - s,
    {
        let n = enc[s].len();
        let mut i: usize = 0;
        while n > 0 && i < n - 1
            invariant
                bi < usize::MAX,
                e == enc_views(enc@),
                total_syms(e) <= usize::MAX,
                s < enc@.len(),
                n == e[s as int].len(),
                i <= n,
                found ==> bs < enc@.len() && bi + 1 < e[bs as int].len() && valid_piece(
                    e[bs as int][bi as int] + e[bs as int][bi + 1],
                ) && best == pair_count(e, e[bs as int][bi as int], e[bs as int][bi + 1]) && best
                    > 0,
                !found ==> best == 0,
                forall|t: int, j: int|
                    ((0 <= t < s && 0 <= j) || (t == s && 0 <= j < i)) && j + 1 < e[t].len()
                        && valid_piece(#[trigger] e[t][j] + e[t][j + 1]) ==> pair_count(
                        e,
                        e[t][j],
                        e[t][j + 1],
                    ) <= best,
            decreases n - i,
        {
            let ab = concat(&enc[s][i], &enc[s][i + 1]);
            if is_valid_piece(ab.as_slice()) {
                let c = count_pair(enc, &enc[s][i], &enc[s][i + 1]);
                // ties go to the lexicographically greatest merged symbol
                if c > best || (c == best && found && lex_less(best_ab.as_slice(), ab.as_slice())) {
                    found = true;
                    bs = s;
                    bi = i;
                    best = c;
                    best_ab = ab;
                }
            }
            i = i + 1;
        }
        s = s + 1;
    }
    proof {
        assert forall|a: Seq<char>, b: Seq<char>| valid_piece(a + b) implies #[trigger] pair_count(
            e,
            a,
            b,
        ) <= best by {
            if pair_count(e, a, b) > 0 {
                let (t, j) = lemma_pair_count_witness(e, a, b);
                assert(valid_piece(e[t][j] + e[t][j + 1]));
            }
        }
    }
    if !found {
        return None;
    }
    let a = copy_sym(&enc[bs][bi]);
    let b = copy_sym(&enc[bs][bi + 1]);
    let mut next: Vec<Vec<Vec<char>>> = Vec::new();
    let mut s: usize = 0;
    while s < enc.len()
        invariant
            e == enc_views(enc@),
            s <= enc@.len(),
            enc_views(next@) == merge_all(e.subrange(0, s as int), a@, b@),
        decreases enc@.len() - s,
    {
        let line = merge_line_exec(&enc[s], &a, &b);
        let ghost old_next = next@;
        next.push(line);
        s = s + 1;
        proof {
            let w = merge_line(e[s - 1], a@, b@);
            assert(enc_views(next@) =~= enc_views(old_next).push(w));
            assert(merge_all(e.subrange(0, s as int), a@, b@) =~= merge_all(
                e.subrange(0, s - 1),
                a@,
                b@,
            ).push(w));
        }
    }
    assert(e.subrange(0, e.len() as int) == e);
    *enc = next;
    Some((a, b))
}

/// What the reference trainer returns on `sentences`: a result as
/// `training_result` describes it, whose learned pieces are those of a
/// reference trace; where it ran out of pairs, the trace made `max - base`
/// merges and ends with no valid pair left.
pub open spec fn reference_outcome(
    sentences: Seq<Vec<char>>,
    vocab_size: usize,
    r: Result<Pieces, TrainError>,
) -> bool {
    &&& training_result(sentences, vocab_size, r)
    &&& match r {
        Ok(p) => exists|encs: Seq<Seq<Seq<Seq<char>>>>, splits: Seq<(Seq<char>, Seq<char>)>|
            reference_trace(sentences, encs, splits, learned_pieces(&p)),
        Err(TrainError::VocabTooLarge { max }) => exists|
            encs: Seq<Seq<Seq<Seq<char>>>>,
            splits: Seq<(Seq<char>, Seq<char>)>,
            learned: Seq<Seq<char>>,
        |
            reference_trace(sentences, encs, splits, learned) && learned.len() == max - (3
                + alphabet(sentences).len()) && slow_exhausted(encs.last()),
        Err(TrainError::VocabTooSmall { .. }) => true,
    }
}

/// Reference trainer: recounts every pair at every step, on an explicit
/// encoding of the corpus as symbol sequences.
pub fn slow_bpe(sentences: Vec<Vec<char>>, vocab_size: usize) -> (r: Result<Pieces, TrainError>)
    requires
        total_chars(sentences@) <= usize::MAX,
    ensures
        reference_outcome(sentences@, vocab_size, r),
{
    let mut pieces = Pieces::new(&sentences);
    let ghost base = 3 + alphabet(sentences@).len();
    if vocab_size < pieces.len() {
        return Err(TrainError::VocabTooSmall { min: pieces.len() });
    }
    let mut enc = initial(&sentences);
    proof {
        lemma_initial_total(sentences@);
    }
    let ghost mut encs: Seq<Seq<Seq<Seq<char>>>> = seq![enc_views(enc@)];
    let ghost mut splits: Seq<(Seq<char>, Seq<char>)> = Seq::empty();
    while pieces.len() < vocab_size
        invariant
            reference_trace(sentences@, encs, splits, learned_pieces(&pieces)),
            encs.last() == enc_views(enc@),
            pieces.size() == base + pieces.pieces@.len(),
            base == 3 + alphabet(sentences@).len(),
            total_syms(enc_views(enc@)) <= usize::MAX,
            pieces.wf(),
            char_entries(pieces.chars@, sentences@),
            pieces.chars@.len() == alphabet(sentences@).len(),
            base <= pieces.size() <= vocab_size,
            learned_valid(&pieces),
        decreases vocab_size - pieces.size(),
    {
        let ghost e0 = enc_views(enc@);
        let ghost before = pieces.pieces@;
        match slow_step(&mut enc) {
            None => {
                return Err(TrainError::VocabTooLarge { max: pieces.len() });
            },
            Some((a, b)) => {
                proof {
                    lemma_merge_all_total(e0, a@, b@);
                }
                let ab = concat(&a, &b);
                pieces.add_piece(chars_to_string(&ab));
                proof {
                    let learned = learned_pieces(&pieces);
                    assert(learned =~= before.map_values(|e: VocabEntry| e.piece@).push(ab@));
                    let old_encs = encs;
                    let old_splits = splits;
                    encs = encs.push(enc_views(enc@));
                    splits = splits.push((a@, b@));
                    assert forall|k: int| 0 <= k < learned.len() implies #[trigger] learned[k]
                        == splits[k].0 + splits[k].1 && slow_merge(
                        encs[k],
                        encs[k + 1],
                        splits[k].0,
                        splits[k].1,
                    ) by {
                        if k < learned.len() - 1 {
                            assert(encs[k] == old_encs[k]);
                            assert(encs[k + 1] == old_encs[k + 1]);
                            assert(splits[k] == old_splits[k]);
                            assert(learned[k] == before.map_values(|e: VocabEntry| e.piece@)[k]);
                        }
                    }
                }
            },
        }
    }
    Ok(pieces)
}

/// The number of characters of the corpus, where it fits in `usize`.
pub fn corpus_chars(sentences: &Vec<Vec<char>>) -> (r: Option<usize>)
    ensures
        match r {
            Some(n) => n == total_chars(sentences@),
            None => total_chars(sentences@) > usize::MAX,
        },
{
    let mut total: usize = 0;
    let mut s: usize = 0;
    while s < sentences.len()
        invariant
            s <= sentences@.len(),
            total == total_chars(sentences@.subrange(0, s as int)),
        decreases sentences@.len() - s,
    {
        proof {
            assert(sentences@.subrange(0, s + 1).drop_last() == sentences@.subrange(0, s as int));
        }
        let n = sentences[s].len();
        if total > usize::MAX - n {
            proof {
                lemma_total_chars_prefix(sentences@, s + 1);
            }
            return None;
        }
        total = total + n;
        s = s + 1;
    }
    assert(sentences@.subrange(0, sentences@.len() as int) == sentences@);
    Some(total)
}

proof fn lemma_total_chars_prefix(e: Seq<Vec<char>>, k: int)
    requires
        0 <= k <= e.len(),
    ensures
        total_chars(e.subrange(0, k)) <= total_chars(e),
    decreases e.len() - k,
{
    if k < e.len() {
        lemma_total_chars_prefix(e, k + 1);
        assert(e.subrange(0, k + 1).drop_last() == e.subrange(0, k));
    } else {
        assert(e.subrange(0, k) == e);
    }
}

} // verus!
