use crate::graph::{
    initial_cell, lemma_links_determined, lemma_removed_frame, same_graph, Documents, Pos, NIL,
};
use crate::index::{ranks_above, slice_eq, valid_piece, without, CandidateIndex};
use crate::norm::{normalized, to_chars};
use crate::slow::{reference_outcome, total_chars};
use crate::spec::TrainSpec;
use crate::vocab::{alphabet, char_entries, chars_to_string, Pieces, VocabEntry};
use vstd::prelude::*;

verus! {

/// `a` comes no later than `b` in (sentence, index) order.
pub open spec fn pos_le(a: Pos, b: Pos) -> bool {
    a.0 < b.0 || (a.0 == b.0 && a.1 <= b.1)
}

/// Relies on `slice::sort`: the same positions, in ascending order.
#[verifier::external_body]
fn sort_positions(v: &mut Vec<Pos>)
    ensures
        final(v)@.len() == old(v)@.len(),
        final(v)@.to_multiset() == old(v)@.to_multiset(),
        forall|x: Pos| final(v)@.contains(x) <==> old(v)@.contains(x),
        forall|a: int, b: int| 0 <= a < b < final(v)@.len() ==> pos_le(final(v)@[a], final(v)@[b]),
{
    v.sort();
}

/// The positions where pair `p` currently occurs.
pub open spec fn occurrences(doc: &Documents, p: Seq<char>) -> Set<Pos> {
    Set::new(|x: Pos| doc.has_pair(x.0 as int, x.1 as int) && doc.span(x.0 as int, x.1 as int) == p)
}

/// The index holds exactly the pairs of `doc`, except those that start at a
/// position of `ex`, which it does not hold at all.
pub open spec fn index_matches(doc: &Documents, idx: Map<Seq<char>, Set<Pos>>, ex: Set<Pos>) -> bool {
    &&& forall|p: Seq<char>, x: Pos|
        idx.contains_key(p) && #[trigger] idx[p].contains(x) ==> {
            &&& !ex.contains(x)
            &&& doc.has_pair(x.0 as int, x.1 as int)
            &&& doc.span(x.0 as int, x.1 as int) == p
        }
    &&& forall|sid: int, i: int|
        #[trigger] doc.has_pair(sid, i) && !ex.contains((sid as usize, i as usize)) ==> {
            &&& idx.contains_key(doc.span(sid, i))
            &&& idx[doc.span(sid, i)].contains((sid as usize, i as usize))
        }
}

proof fn lemma_remove_entry(
    doc: &Documents,
    idx: Map<Seq<char>, Set<Pos>>,
    ex: Set<Pos>,
    p: Seq<char>,
    x: Pos,
)
    requires
        index_matches(doc, idx, ex),
        idx.contains_key(p),
        idx[p].contains(x),
    ensures
        index_matches(doc, without(idx, p, x), ex.insert(x)),
{
    let idx2 = without(idx, p, x);
    assert forall|p2: Seq<char>, y: Pos| idx2.contains_key(p2) && #[trigger] idx2[p2].contains(
        y,
    ) implies !ex.insert(x).contains(y) && doc.has_pair(y.0 as int, y.1 as int) && doc.span(
        y.0 as int,
        y.1 as int,
    ) == p2 by {
        if p2 != p {
            assert(idx[p2].contains(y));
            assert(idx[p].contains(x));
        } else {
            assert(idx[p].contains(y));
        }
    }
    assert forall|sid: int, i: int| #[trigger]
        doc.has_pair(sid, i) && !ex.insert(x).contains((sid as usize, i as usize)) implies {
        &&& idx2.contains_key(doc.span(sid, i))
        &&& idx2[doc.span(sid, i)].contains((sid as usize, i as usize))
    } by {
        assert(idx[doc.span(sid, i)].contains((sid as usize, i as usize)));
        if doc.span(sid, i) == p {
            assert(idx[p].remove(x).contains((sid as usize, i as usize)));
        }
    }
}

proof fn lemma_insert_entry(
    doc: &Documents,
    idx: Map<Seq<char>, Set<Pos>>,
    ex: Set<Pos>,
    p: Seq<char>,
    x: Pos,
)
    requires
        doc.shape_ok(),
        index_matches(doc, idx, ex),
        ex.contains(x),
        doc.has_pair(x.0 as int, x.1 as int),
        doc.span(x.0 as int, x.1 as int) == p,
    ensures
        index_matches(
            doc,
            idx.insert(
                p,
                if idx.contains_key(p) {
                    idx[p]
                } else {
                    Set::empty()
                }.insert(x),
            ),
            ex.remove(x),
        ),
{
    let old_set = if idx.contains_key(p) {
        idx[p]
    } else {
        Set::empty()
    };
    let idx2 = idx.insert(p, old_set.insert(x));
    assert forall|p2: Seq<char>, y: Pos| idx2.contains_key(p2) && #[trigger] idx2[p2].contains(
        y,
    ) implies !ex.remove(x).contains(y) && doc.has_pair(y.0 as int, y.1 as int) && doc.span(
        y.0 as int,
        y.1 as int,
    ) == p2 by {
        if p2 != p {
            assert(idx[p2].contains(y));
        } else if y != x {
            assert(idx[p].contains(y));
        }
    }
    assert forall|sid: int, i: int| #[trigger]
        doc.has_pair(sid, i) && !ex.remove(x).contains((sid as usize, i as usize)) implies {
        &&& idx2.contains_key(doc.span(sid, i))
        &&& idx2[doc.span(sid, i)].contains((sid as usize, i as usize))
    } by {
        if (sid as usize, i as usize) != x {
            assert(idx[doc.span(sid, i)].contains((sid as usize, i as usize)));
        } else {
            assert(doc.links[sid]@.len() == doc.sentences[sid]@.len());
            assert(x.0 as int == sid && x.1 as int == i);
        }
    }
}

proof fn lemma_release(doc: &Documents, idx: Map<Seq<char>, Set<Pos>>, ex: Set<Pos>, x: Pos)
    requires
        doc.shape_ok(),
        index_matches(doc, idx, ex),
        !doc.has_pair(x.0 as int, x.1 as int),
    ensures
        index_matches(doc, idx, ex.remove(x)),
{
    assert forall|sid: int, i: int| #[trigger]
        doc.has_pair(sid, i) && !ex.remove(x).contains((sid as usize, i as usize)) implies {
        &&& idx.contains_key(doc.span(sid, i))
        &&& idx[doc.span(sid, i)].contains((sid as usize, i as usize))
    } by {
        if (sid as usize, i as usize) == x {
            assert(x.0 as int == sid && x.1 as int == i);
        }
    }
}

/// The positions in `ex` aside, `post` has the pairs of `pre`, at the same
/// places and with the same characters.
pub open spec fn same_pairs_outside(pre: &Documents, post: &Documents, ex: Set<Pos>) -> bool {
    forall|sid: int, i: int|
        #![trigger post.has_pair(sid, i)]
        #![trigger pre.has_pair(sid, i)]
        !ex.contains((sid as usize, i as usize)) ==> post.has_pair(sid, i) == pre.has_pair(sid, i)
            && (pre.has_pair(sid, i) ==> post.span(sid, i) == pre.span(sid, i))
}

proof fn lemma_doc_change(
    pre: &Documents,
    post: &Documents,
    idx: Map<Seq<char>, Set<Pos>>,
    ex: Set<Pos>,
)
    requires
        index_matches(pre, idx, ex),
        same_pairs_outside(pre, post, ex),
    ensures
        index_matches(post, idx, ex),
{
    assert forall|p: Seq<char>, x: Pos| idx.contains_key(p) && #[trigger] idx[p].contains(
        x,
    ) implies !ex.contains(x) && post.has_pair(x.0 as int, x.1 as int) && post.span(
        x.0 as int,
        x.1 as int,
    ) == p by {
        assert(pre.has_pair(x.0 as int, x.1 as int));
    }
    assert forall|sid: int, i: int| #[trigger]
        post.has_pair(sid, i) && !ex.contains((sid as usize, i as usize)) implies {
        &&& idx.contains_key(post.span(sid, i))
        &&& idx[post.span(sid, i)].contains((sid as usize, i as usize))
    } by {
        assert(pre.has_pair(sid, i));
    }
}

/// No valid pair occurs in `d`.
pub open spec fn exhausted(d: &Documents) -> bool {
    forall|q: Seq<char>| valid_piece(q) ==> #[trigger] occurrences(d, q).len() == 0
}

/// `d2` is `d` after one training step that learned `p`: `p` is the valid
/// pair with the most occurrences in `d` (ties to the lexicographically
/// greatest), no occurrence of it is left in `d2`, which is consistent, and
/// the positions that stopped heading a symbol are exactly the successors of
/// the occurrences that the left-to-right scan keeps (`kept`).
pub open spec fn merge_step(d: &Documents, d2: &Documents, p: Seq<char>) -> bool {
    &&& d2.sentences@ == d.sentences@
    &&& valid_piece(p)
    &&& p.len() >= 2
    &&& occurrences(d, p).len() > 0
    &&& forall|q: Seq<char>|
        valid_piece(q) && #[trigger] occurrences(d, q).len() > 0 ==> !ranks_above(
            occurrences(d, q).len(),
            q,
            occurrences(d, p).len(),
            p,
        )
    &&& d2.wf()
    &&& occurrences(d2, p) == Set::<Pos>::empty()
    &&& forall|t: int, i: int| #[trigger] d2.live(t, i) ==> d.live(t, i)
    &&& forall|t: int, i: int|
        #![trigger d2.live(t, i)]
        d.live(t, i) && !d2.live(t, i) ==> i > 0 && kept(d, p, t, d.prev(t, i))
    &&& forall|t: int, j: int| #[trigger] kept(d, p, t, j) ==> !d2.live(t, d.next(t, j))
    &&& forall|t: int, i: int|
        #[trigger] d.live(t, i) && !d2.live(t, i) ==> exists|j: usize|
            #[trigger] occurrences(d, p).contains((t as usize, j)) && j < i < j + p.len()
}

/// Occurrence `j` of pair `p` in sentence `t` of `d` is merged by the left to
/// right scan: it is an occurrence whose predecessor is not itself an
/// occurrence that the scan merged.
pub open spec fn kept(d: &Documents, p: Seq<char>, t: int, j: int) -> bool
    decreases j,
{
    if !(0 <= t < d.sentences.len() && 0 <= j < d.len_of(t)) {
        false
    } else if !occurrences(d, p).contains((t as usize, j as usize)) {
        false
    } else if 0 < j && 0 <= d.prev(t, j) < j {
        !kept(d, p, t, d.prev(t, j))
    } else {
        true
    }
}

/// Position `j` of sentence `t` is among the first `k` entries of `ps`.
pub open spec fn scanned(ps: Seq<Pos>, k: int, t: int, j: int) -> bool {
    exists|m: int| 0 <= m < k && ps[m].0 as int == t && ps[m].1 as int == j
}

/// Occurrence `j` is kept and was already merged by the scan.
pub open spec fn merged_before(
    d0: &Documents,
    p: Seq<char>,
    ps: Seq<Pos>,
    k: int,
    t: int,
    j: int,
) -> bool {
    kept(d0, p, t, j) && scanned(ps, k, t, j)
}

/// After scanning the first `k` occurrences in `ps`, `cur` is `d0` with the
/// successor of each merged occurrence spliced out.
pub open spec fn scan_state(d0: &Documents, cur: &Documents, p: Seq<char>, ps: Seq<Pos>, k: int) -> bool {
    &&& forall|t: int, j: int|
        #[trigger] merged_before(d0, p, ps, k, t, j) ==> !cur.live(t, d0.next(t, j))
    &&& forall|t: int, i: int|
        #![trigger cur.live(t, i)]
        d0.live(t, i) && !cur.live(t, i) ==> i > 0 && merged_before(d0, p, ps, k, t, d0.prev(t, i))
    &&& forall|t: int, y: int|
        #[trigger] cur.live(t, y) ==> cur.next(t, y) == if merged_before(d0, p, ps, k, t, y) {
            d0.next(t, d0.next(t, y))
        } else {
            d0.next(t, y)
        }
}

/// What the scan works through: the occurrences of `p` in `d0`, once each,
/// in ascending order.
pub open spec fn scan_list(d0: &Documents, p: Seq<char>, ps: Seq<Pos>) -> bool {
    &&& ps.no_duplicates()
    &&& forall|a: int, b: int| 0 <= a < b < ps.len() ==> pos_le(ps[a], ps[b])
    &&& forall|m: int| 0 <= m < ps.len() ==> occurrences(d0, p).contains(#[trigger] ps[m])
    &&& forall|y: Pos| occurrences(d0, p).contains(y) ==> #[trigger] ps.contains(y)
}

proof fn lemma_kept_occurrence(d0: &Documents, p: Seq<char>, t: int, j: int)
    requires
        d0.wf(),
        0 <= t < d0.sentences.len(),
        0 <= j < d0.len_of(t),
        occurrences(d0, p).contains((t as usize, j as usize)),
    ensures
        kept(d0, p, t, j) == (j == 0 || !kept(d0, p, t, d0.prev(t, j))),
        j > 0 ==> 0 <= d0.prev(t, j) < j && d0.next(t, d0.prev(t, j)) == j,
{
    assert(d0.has_pair(t, j));
    assert(d0.cell_ok(t, j));
}

/// Whether the scan merges its `k`-th entry: exactly where it is kept, and
/// then the entry's pair is still the one it had in `d0`.
proof fn lemma_scan_decide(d0: &Documents, cur: &Documents, p: Seq<char>, ps: Seq<Pos>, k: int)
    requires
        d0.wf(),
        cur.wf(),
        cur.sentences@ == d0.sentences@,
        scan_list(d0, p, ps),
        scan_state(d0, cur, p, ps, k),
        0 <= k < ps.len(),
    ensures
        ({
            let t = ps[k].0 as int;
            let q = ps[k].1 as int;
            &&& (cur.has_pair(t, q) && cur.span(t, q) == p) == kept(d0, p, t, q)
            &&& kept(d0, p, t, q) ==> cur.next(t, q) == d0.next(t, q)
            &&& !scanned(ps, k, t, q)
        }),
{
    let t = ps[k].0 as int;
    let q = ps[k].1 as int;
    assert(occurrences(d0, p).contains(ps[k]));
    assert(d0.has_pair(t, q));
    assert(d0.links[t]@.len() == d0.sentences[t]@.len());
    assert(ps[k] == (t as usize, q as usize));
    lemma_kept_occurrence(d0, p, t, q);
    if scanned(ps, k, t, q) {
        let m = choose|m: int| 0 <= m < k && ps[m].0 as int == t && ps[m].1 as int == q;
        assert(ps[m] == ps[k]);
    }
    let r = d0.next(t, q);
    assert(d0.cell_ok(t, q));
    assert(d0.cell_ok(t, r));
    if kept(d0, p, t, q) {
        if !cur.live(t, q) {
            assert(d0.live(t, q));
        }
        assert(cur.live(t, q));
        assert(cur.next(t, q) == r);
        assert(cur.cell_ok(t, q));
        assert(cur.live(t, r));
        assert(d0.live(t, r));
        if kept(d0, p, t, r) {
            assert(occurrences(d0, p).contains((t as usize, r as usize)));
            lemma_kept_occurrence(d0, p, t, r);
        }
        assert(!merged_before(d0, p, ps, k, t, r));
        assert(cur.next(t, r) == d0.next(t, r));
        assert(cur.span(t, q) == d0.span(t, q));
    } else {
        let j = d0.prev(t, q);
        assert(q > 0 && kept(d0, p, t, j));
        assert(occurrences(d0, p).contains((t as usize, j as usize)));
        assert(ps.contains((t as usize, j as usize)));
        let m = choose|m: int| 0 <= m < ps.len() && ps[m] == (t as usize, j as usize);
        if m >= k {
            if m > k {
                assert(pos_le(ps[k], ps[m]));
            }
        }
        assert(scanned(ps, k, t, j));
        assert(merged_before(d0, p, ps, k, t, j));
        assert(!cur.live(t, d0.next(t, j)));
    }
}

/// One entry further: the scan state carries over to the graph after the
/// `k`-th entry was merged (if kept) or passed over.
proof fn lemma_scan_advance(
    d0: &Documents,
    cur: &Documents,
    cur2: &Documents,
    p: Seq<char>,
    ps: Seq<Pos>,
    k: int,
)
    requires
        d0.wf(),
        cur.wf(),
        cur2.wf(),
        cur.sentences@ == d0.sentences@,
        cur2.sentences@ == d0.sentences@,
        scan_list(d0, p, ps),
        scan_state(d0, cur, p, ps, k),
        0 <= k < ps.len(),
        kept(d0, p, ps[k].0 as int, ps[k].1 as int) ==> cur2.removed(
            *cur,
            ps[k].0 as int,
            cur.next(ps[k].0 as int, ps[k].1 as int),
        ),
        !kept(d0, p, ps[k].0 as int, ps[k].1 as int) ==> cur2.links@ == cur.links@,
    ensures
        scan_state(d0, cur2, p, ps, k + 1),
{
    let t = ps[k].0 as int;
    let q = ps[k].1 as int;
    lemma_scan_decide(d0, cur, p, ps, k);
    assert(occurrences(d0, p).contains(ps[k]));
    assert(d0.has_pair(t, q));
    assert(d0.links[t]@.len() == d0.sentences[t]@.len());
    assert forall|t2: int, j: int|
        scanned(ps, k + 1, t2, j) <==> scanned(ps, k, t2, j) || (t2 == t && j == q) by {
        if scanned(ps, k + 1, t2, j) && !(t2 == t && j == q) {
            let m = choose|m: int| 0 <= m < k + 1 && ps[m].0 as int == t2 && ps[m].1 as int == j;
            assert(m != k);
        }
        if t2 == t && j == q {
            assert(ps[k].0 as int == t2 && ps[k].1 as int == j);
        }
    }
    if kept(d0, p, t, q) {
        let r = d0.next(t, q);
        assert(cur.next(t, q) == r);
        assert(d0.cell_ok(t, q));
        assert(cur.cell_ok(t, q));
        assert(cur.live(t, r));
        assert(cur.prev(t, r) == q);
        assert(r > 0);
        assert(cur.cell_ok(t, r));
        if kept(d0, p, t, r) {
            assert(occurrences(d0, p).contains((t as usize, r as usize)));
            lemma_kept_occurrence(d0, p, t, r);
        }
        assert(cur.next(t, r) == d0.next(t, r));
        assert forall|t2: int, j: int| #[trigger]
            merged_before(d0, p, ps, k + 1, t2, j) implies !cur2.live(t2, d0.next(t2, j)) by {
            lemma_removed_frame(cur, cur2, t, r, t2, d0.next(t2, j));
            if !(t2 == t && j == q) {
                assert(merged_before(d0, p, ps, k, t2, j));
            }
        }
        assert forall|t2: int, i: int|
            #![trigger cur2.live(t2, i)]
            d0.live(t2, i) && !cur2.live(t2, i) implies i > 0 && merged_before(
                d0,
                p,
                ps,
                k + 1,
                t2,
                d0.prev(t2, i),
            ) by {
            lemma_removed_frame(cur, cur2, t, r, t2, i);
            if t2 == t && i == r {
                assert(d0.prev(t, r) == q);
            } else {
                assert(!cur.live(t2, i));
            }
        }
        assert forall|t2: int, y: int| #[trigger]
            cur2.live(t2, y) implies cur2.next(t2, y) == if merged_before(d0, p, ps, k + 1, t2, y) {
            d0.next(t2, d0.next(t2, y))
        } else {
            d0.next(t2, y)
        } by {
            lemma_removed_frame(cur, cur2, t, r, t2, y);
            assert(cur.live(t2, y));
            if t2 != t {
                assert(cur2.links[t2] == cur.links[t2]);
            } else if y == q {
                assert(merged_before(d0, p, ps, k + 1, t2, y));
            } else {
                assert(merged_before(d0, p, ps, k + 1, t2, y) == merged_before(d0, p, ps, k, t2, y));
                if y != cur.next(t, r) {
                    assert(cur2.links[t]@[y] == cur.links[t]@[y]);
                }
            }
        }
    } else {
        assert forall|t2: int, j: int| #[trigger]
            merged_before(d0, p, ps, k + 1, t2, j) implies !cur2.live(t2, d0.next(t2, j)) by {
            assert(merged_before(d0, p, ps, k, t2, j));
            assert(!cur.live(t2, d0.next(t2, j)));
        }
        assert forall|t2: int, i: int|
            #![trigger cur2.live(t2, i)]
            d0.live(t2, i) && !cur2.live(t2, i) implies i > 0 && merged_before(
                d0,
                p,
                ps,
                k + 1,
                t2,
                d0.prev(t2, i),
            ) by {
            assert(!cur.live(t2, i));
            assert(merged_before(d0, p, ps, k, t2, d0.prev(t2, i)));
        }
        assert forall|t2: int, y: int| #[trigger]
            cur2.live(t2, y) implies cur2.next(t2, y) == if merged_before(d0, p, ps, k + 1, t2, y) {
            d0.next(t2, d0.next(t2, y))
        } else {
            d0.next(t2, y)
        } by {
            assert(cur.live(t2, y));
            assert(merged_before(d0, p, ps, k + 1, t2, y) == merged_before(d0, p, ps, k, t2, y));
        }
    }
}

/// `d` is the graph of `sentences` in which every character is its own
/// symbol.
pub open spec fn initial_graph(d: &Documents, sentences: Seq<Vec<char>>) -> bool {
    &&& d.wf()
    &&& d.sentences@ == sentences
    &&& forall|sid: int, i: int|
        0 <= sid < d.sentences.len() && 0 <= i < d.len_of(sid) ==> #[trigger] d.links[sid]@[i]
            == initial_cell(i)
}

/// `docs` are the graphs that training went through on `sentences`, and
/// `learned` the pieces it learned on the way, one per step.
pub open spec fn training_trace(
    sentences: Seq<Vec<char>>,
    docs: Seq<Documents>,
    learned: Seq<Seq<char>>,
) -> bool {
    &&& docs.len() == learned.len() + 1
    &&& initial_graph(&docs[0], sentences)
    &&& forall|k: int| 0 <= k < learned.len() ==> merge_step(&docs[k], &docs[k + 1], #[trigger] learned[k])
}

/// The characters of the learned pieces, in the order they were found.
pub open spec fn learned_pieces(p: &Pieces) -> Seq<Seq<char>> {
    p.pieces@.map_values(|e: VocabEntry| e.piece@)
}

proof fn lemma_same_graph_pairs(d1: &Documents, d2: &Documents, t: int, i: int)
    requires
        d1.wf(),
        d2.wf(),
        same_graph(d1, d2),
    ensures
        d1.has_pair(t, i) == d2.has_pair(t, i),
        d1.has_pair(t, i) ==> d1.span(t, i) == d2.span(t, i),
        d1.live(t, i) ==> d1.prev(t, i) == d2.prev(t, i) && d1.next(t, i) == d2.next(t, i),
{
    if d1.live(t, i) {
        assert(d1.links[t]@[i] == d2.links[t]@[i]);
        assert(d1.cell_ok(t, i));
        let m = d1.next(t, i);
        if m < d1.len_of(t) {
            assert(d1.live(t, m));
            assert(d1.links[t]@[m] == d2.links[t]@[m]);
        }
    }
}

proof fn lemma_same_graph_occurrences(d1: &Documents, d2: &Documents, p: Seq<char>)
    requires
        d1.wf(),
        d2.wf(),
        same_graph(d1, d2),
    ensures
        occurrences(d1, p) == occurrences(d2, p),
{
    assert forall|x: Pos| occurrences(d1, p).contains(x) == occurrences(d2, p).contains(x) by {
        lemma_same_graph_pairs(d1, d2, x.0 as int, x.1 as int);
    }
    assert(occurrences(d1, p) =~= occurrences(d2, p));
}

proof fn lemma_same_graph_kept(d1: &Documents, d2: &Documents, p: Seq<char>, t: int, j: int)
    requires
        d1.wf(),
        d2.wf(),
        same_graph(d1, d2),
    ensures
        kept(d1, p, t, j) == kept(d2, p, t, j),
    decreases j,
{
    lemma_same_graph_occurrences(d1, d2, p);
    if 0 <= t < d1.sentences.len() && 0 <= j < d1.len_of(t) && occurrences(d1, p).contains(
        (t as usize, j as usize),
    ) {
        assert(d1.links[t]@.len() == d1.sentences[t]@.len());
        assert(d1.has_pair(t, j));
        lemma_same_graph_pairs(d1, d2, t, j);
        if 0 < j && 0 <= d1.prev(t, j) < j {
            lemma_same_graph_kept(d1, d2, p, t, d1.prev(t, j));
        }
    }
}

/// One step from the same graph learns the same pair and leads to the same
/// graph.
pub proof fn lemma_merge_step_determined(
    d1: &Documents,
    d2: &Documents,
    e1: &Documents,
    e2: &Documents,
    p1: Seq<char>,
    p2: Seq<char>,
)
    requires
        d1.wf(),
        d2.wf(),
        same_graph(d1, d2),
        merge_step(d1, e1, p1),
        merge_step(d2, e2, p2),
    ensures
        p1 == p2,
        same_graph(e1, e2),
{
    lemma_same_graph_occurrences(d1, d2, p1);
    lemma_same_graph_occurrences(d1, d2, p2);
    let c1 = occurrences(d1, p1).len();
    let c2 = occurrences(d1, p2).len();
    assert(!ranks_above(c1, p1, c2, p2));
    assert(!ranks_above(c2, p2, c1, p1));
    if p1 != p2 {
        crate::index::lemma_lex_lt_total(p1, p2);
    }
    assert forall|t: int, i: int|
        #![trigger e1.live(t, i)]
        #![trigger e2.live(t, i)]
        e1.live(t, i) == e2.live(t, i) by {
        lemma_same_graph_pairs(d1, d2, t, i);
        if d1.live(t, i) && i > 0 {
            assert(d1.cell_ok(t, i));
            let j = d1.prev(t, i);
            lemma_same_graph_kept(d1, d2, p1, t, j);
            if kept(d1, p1, t, j) {
                assert(!e1.live(t, d1.next(t, j)));
                lemma_same_graph_pairs(d1, d2, t, j);
                assert(!e2.live(t, d2.next(t, j)));
            }
        }
    }
    lemma_links_determined(e1, e2);
}

/// Training is deterministic: two traces on the same sentences that learned
/// the same number of pieces learned the same pieces, in the same order.
pub proof fn lemma_training_deterministic(
    sentences: Seq<Vec<char>>,
    docs1: Seq<Documents>,
    learned1: Seq<Seq<char>>,
    docs2: Seq<Documents>,
    learned2: Seq<Seq<char>>,
)
    requires
        training_trace(sentences, docs1, learned1),
        training_trace(sentences, docs2, learned2),
        learned1.len() == learned2.len(),
    ensures
        learned1 == learned2,
{
    lemma_trace_prefix(sentences, docs1, learned1, docs2, learned2, learned1.len() as int);
    assert(learned1 =~= learned2);
}

proof fn lemma_trace_prefix(
    sentences: Seq<Vec<char>>,
    docs1: Seq<Documents>,
    learned1: Seq<Seq<char>>,
    docs2: Seq<Documents>,
    learned2: Seq<Seq<char>>,
    k: int,
)
    requires
        training_trace(sentences, docs1, learned1),
        training_trace(sentences, docs2, learned2),
        learned1.len() == learned2.len(),
        0 <= k <= learned1.len(),
    ensures
        docs1[k].wf(),
        docs2[k].wf(),
        same_graph(&docs1[k], &docs2[k]),
        forall|m: int| 0 <= m < k ==> learned1[m] == learned2[m],
    decreases k,
{
    if k == 0 {
        let d1 = docs1[0];
        let d2 = docs2[0];
        assert forall|t: int, i: int|
            #![trigger d1.live(t, i)]
            #![trigger d2.live(t, i)]
            d1.live(t, i) == d2.live(t, i) by {
            if 0 <= t < d1.sentences.len() && 0 <= i < d1.len_of(t) {
                assert(d1.links[t]@[i] == initial_cell(i));
                assert(d2.links[t]@[i] == initial_cell(i));
            }
        }
        lemma_links_determined(&d1, &d2);
    } else {
        lemma_trace_prefix(sentences, docs1, learned1, docs2, learned2, k - 1);
        assert(merge_step(&docs1[k - 1], &docs1[k], learned1[k - 1]));
        assert(merge_step(&docs2[k - 1], &docs2[k], learned2[k - 1]));
        lemma_merge_step_determined(
            &docs1[k - 1],
            &docs2[k - 1],
            &docs1[k],
            &docs2[k],
            learned1[k - 1],
            learned2[k - 1],
        );
    }
}

/// The state of incremental training: the document graph and the index of
/// its pairs.
pub struct Trainer {
    pub doc: Documents,
    pub index: CandidateIndex,
}

impl Trainer {
    /// The graph is consistent and the index holds exactly its pairs.
    pub open spec fn wf(&self) -> bool {
        &&& self.doc.wf()
        &&& self.index.wf()
        &&& index_matches(&self.doc, self.index@, Set::empty())
    }
}

/// Every pair in the index has as many positions as it has live
/// occurrences in the graph; a pair outside the index has none.
pub proof fn lemma_frequency_accuracy(t: &Trainer, p: Seq<char>)
    requires
        t.wf(),
    ensures
        t.index@.contains_key(p) ==> t.index@[p] == occurrences(&t.doc, p),
        t.index@.contains_key(p) <==> occurrences(&t.doc, p).len() > 0,
        !t.index@.contains_key(p) ==> occurrences(&t.doc, p) == Set::<Pos>::empty(),
        occurrences(&t.doc, p).finite(),
{
    lemma_index_exact(&t.doc, &t.index, p);
}

/// An index that matches a graph exactly holds, for each pair, its set of
/// occurrences, and holds a pair exactly when it occurs.
pub proof fn lemma_index_exact(doc: &Documents, idx: &CandidateIndex, p: Seq<char>)
    requires
        idx.wf(),
        index_matches(doc, idx@, Set::empty()),
    ensures
        idx@.contains_key(p) ==> idx@[p] == occurrences(doc, p),
        idx@.contains_key(p) <==> occurrences(doc, p).len() > 0,
        !idx@.contains_key(p) ==> occurrences(doc, p) == Set::<Pos>::empty(),
        occurrences(doc, p).finite(),
{
    if idx@.contains_key(p) {
        assert(idx@[p] =~= occurrences(doc, p)) by {
            assert forall|x: Pos| occurrences(doc, p).contains(x) implies idx@[p].contains(x) by {
                assert(doc.has_pair(x.0 as int, x.1 as int));
            }
        }
        idx.lemma_nonempty(p);
    } else {
        assert(occurrences(doc, p) =~= Set::<Pos>::empty()) by {
            assert forall|x: Pos| !occurrences(doc, p).contains(x) by {
                if occurrences(doc, p).contains(x) {
                    assert(doc.has_pair(x.0 as int, x.1 as int));
                }
            }
        }
    }
}

/// Every live position heads a symbol whose neighbours link back to it.
pub proof fn lemma_link_consistency(t: &Trainer, sid: int, i: int)
    requires
        t.wf(),
        t.doc.live(sid, i),
    ensures
        t.doc.next(sid, i) < t.doc.len_of(sid) ==> t.doc.prev(sid, t.doc.next(sid, i)) == i,
        i > 0 ==> t.doc.next(sid, t.doc.prev(sid, i)) == i,
{
    assert(t.doc.cell_ok(sid, i));
}

/// The index of the pairs of a graph in which every character is its own
/// symbol.
pub fn get_candidates(doc: &Documents) -> (r: CandidateIndex)
    requires
        doc.wf(),
        forall|sid: int, i: int|
            0 <= sid < doc.sentences.len() && 0 <= i < doc.len_of(sid) ==> #[trigger] doc.links[sid]@[i]
                == initial_cell(i),
    ensures
        r.wf(),
        index_matches(doc, r@, Set::empty()),
        forall|p: Seq<char>| #[trigger] r@.contains_key(p) <==> occurrences(doc, p).len() > 0,
        forall|p: Seq<char>| #[trigger] r@.contains_key(p) ==> r@[p] == occurrences(doc, p),
{
    let mut idx = CandidateIndex::new();
    let mut sid: usize = 0;
    while sid < doc.sentences.len()
        invariant
            doc.wf(),
            forall|s: int, i: int|
                0 <= s < doc.sentences.len() && 0 <= i < doc.len_of(s) ==> #[trigger] doc.links[s]@[i]
                    == initial_cell(i),
            idx.wf(),
            sid <= doc.sentences.len(),
            forall|p: Seq<char>, x: Pos|
                idx@.contains_key(p) && #[trigger] idx@[p].contains(x) ==> {
                    &&& x.0 < sid
                    &&& doc.has_pair(x.0 as int, x.1 as int)
                    &&& doc.span(x.0 as int, x.1 as int) == p
                },
            forall|s: int, i: int| #[trigger]
                doc.has_pair(s, i) && s < sid ==> {
                    &&& idx@.contains_key(doc.span(s, i))
                    &&& idx@[doc.span(s, i)].contains((s as usize, i as usize))
                },
        decreases doc.sentences.len() - sid,
    {
        let line = &doc.sentences[sid];
        let n = line.len();
        let mut j: usize = 0;
        assert(doc.links[sid as int]@.len() == doc.sentences[sid as int]@.len());
        while n > 0 && j < n - 1
            invariant
                n < NIL,
                doc.wf(),
                forall|s: int, i: int|
                    0 <= s < doc.sentences.len() && 0 <= i < doc.len_of(s) ==> #[trigger] doc.links[s]@[i]
                        == initial_cell(i),
                idx.wf(),
                sid < doc.sentences.len(),
                line == &doc.sentences[sid as int],
                n == line@.len(),
                j < n || n == 0,
                forall|p: Seq<char>, x: Pos|
                    idx@.contains_key(p) && #[trigger] idx@[p].contains(x) ==> {
                        &&& x.0 < sid || (x.0 == sid && x.1 < j)
                        &&& doc.has_pair(x.0 as int, x.1 as int)
                        &&& doc.span(x.0 as int, x.1 as int) == p
                    },
                forall|s: int, i: int| #[trigger]
                    doc.has_pair(s, i) && (s < sid || (s == sid && i < j)) ==> {
                        &&& idx@.contains_key(doc.span(s, i))
                        &&& idx@[doc.span(s, i)].contains((s as usize, i as usize))
                    },
            decreases n - j,
        {
            proof {
                assert(doc.links[sid as int]@[j as int] == initial_cell(j as int));
                assert(doc.links[sid as int]@[j + 1] == initial_cell(j + 1));
                assert(doc.has_pair(sid as int, j as int));
                assert(doc.span(sid as int, j as int) == line@.subrange(j as int, j + 2));
            }
            let ghost pre = idx@;
            idx.insert(line, j, j + 2, (sid, j));
            proof {
                let p = line@.subrange(j as int, j + 2);
                assert forall|p2: Seq<char>, x: Pos|
                    idx@.contains_key(p2) && #[trigger] idx@[p2].contains(x) implies {
                    &&& x.0 < sid || (x.0 == sid && x.1 < j + 1)
                    &&& doc.has_pair(x.0 as int, x.1 as int)
                    &&& doc.span(x.0 as int, x.1 as int) == p2
                } by {
                    if x != (sid, j) || p2 != p {
                        assert(pre.contains_key(p2) && pre[p2].contains(x));
                    }
                }
                assert forall|s: int, i: int| #[trigger]
                    doc.has_pair(s, i) && (s < sid || (s == sid && i < j + 1)) implies {
                    &&& idx@.contains_key(doc.span(s, i))
                    &&& idx@[doc.span(s, i)].contains((s as usize, i as usize))
                } by {
                    if s != sid || i != j {
                        assert(pre[doc.span(s, i)].contains((s as usize, i as usize)));
                    }
                }
            }
            j = j + 1;
        }
        proof {
            assert forall|s: int, i: int| #[trigger] doc.has_pair(s, i) && s < sid + 1 implies {
                &&& idx@.contains_key(doc.span(s, i))
                &&& idx@[doc.span(s, i)].contains((s as usize, i as usize))
            } by {
                if s == sid {
                    assert(doc.links[s]@[i] == initial_cell(i));
                }
            }
        }
        sid = sid + 1;
    }
    proof {
        assert forall|p: Seq<char>| #[trigger] idx@.contains_key(p) <==> occurrences(doc, p).len() > 0 by {
            lemma_index_exact(doc, &idx, p);
        }
        assert forall|p: Seq<char>| #[trigger] idx@.contains_key(p) implies idx@[p] == occurrences(doc, p) by {
            lemma_index_exact(doc, &idx, p);
        }
    }
    idx
}

impl Trainer {
    /// Builds the graph of `sentences`, every character its own symbol, and
    /// the index of its pairs.
    pub fn new(sentences: Vec<Vec<char>>) -> (r: Trainer)
        requires
            forall|sid: int| 0 <= sid < sentences.len() ==> #[trigger] sentences[sid]@.len() < NIL,
        ensures
            r.wf(),
            initial_graph(&r.doc, sentences@),
    {
        let doc = Documents::new(sentences);
        let index = get_candidates(&doc);
        Trainer { doc, index }
    }

    /// Merges the pair that starts at `x` into one symbol, provided `x` is
    /// live and its pair is `p`; otherwise changes nothing. The merge creates
    /// no new occurrence of `p`.
    fn merge_at(&mut self, x: Pos, p: &Vec<char>)
        requires
            old(self).wf(),
            x.0 < old(self).doc.sentences.len(),
        ensures
            final(self).wf(),
            final(self).doc.sentences@ == old(self).doc.sentences@,
            forall|t: int, i: int| #[trigger] final(self).doc.live(t, i) ==> old(self).doc.live(t, i),
            forall|t: int, i: int|
                #[trigger] old(self).doc.live(t, i) && !final(self).doc.live(t, i) ==> {
                    &&& t == x.0
                    &&& x.1 < i < x.1 + p@.len()
                    &&& old(self).doc.has_pair(x.0 as int, x.1 as int)
                    &&& old(self).doc.span(x.0 as int, x.1 as int) == p@
                },
            forall|t: int, i: int|
                #[trigger] final(self).doc.has_pair(t, i) && final(self).doc.span(t, i) == p@ ==> {
                    &&& (t as usize, i as usize) != x
                    &&& old(self).doc.has_pair(t, i)
                    &&& old(self).doc.span(t, i) == p@
                },
            if old(self).doc.has_pair(x.0 as int, x.1 as int) && old(self).doc.span(
                x.0 as int,
                x.1 as int,
            ) == p@ {
                final(self).doc.removed(
                    old(self).doc,
                    x.0 as int,
                    old(self).doc.next(x.0 as int, x.1 as int),
                )
            } else {
                final(self).doc.links@ == old(self).doc.links@
            },
    {
        let sid = x.0;
        let q = x.1;
        let n = self.doc.sentences[sid].len();
        proof {
            assert(self.doc.links[sid as int]@.len() == self.doc.sentences[sid as int]@.len());
        }
        if q >= n {
            return ;
        }
        let r = self.doc.links[sid][q].1;
        if r >= n {
            return ;
        }
        proof {
            assert(self.doc.cell_ok(sid as int, q as int));
            assert(self.doc.cell_ok(sid as int, r as int));
        }
        let s = self.doc.links[sid][r].1;
        if !slice_eq(p, &self.doc.sentences[sid], q, s) {
            return ;
        }
        let ghost d0 = self.doc;
        let ghost mut ex: Set<Pos> = Set::empty();
        // the pairs that the merge changes leave the index
        if q > 0 {
            let q0 = self.doc.links[sid][q].0;
            let ghost i0 = self.index@;
            proof {
                assert(self.doc.cell_ok(sid as int, q0 as int));
                assert(self.doc.has_pair(sid as int, q0 as int));
            }
            self.index.remove(&self.doc.sentences[sid], q0, r, (sid, q0));
            proof {
                lemma_remove_entry(&self.doc, i0, ex, self.doc.span(sid as int, q0 as int), (sid, q0));
                ex = ex.insert((sid, q0));
            }
        }
        let ghost i1 = self.index@;
        assert(self.doc.has_pair(sid as int, q as int));
        self.index.remove(&self.doc.sentences[sid], q, s, (sid, q));
        proof {
            lemma_remove_entry(&self.doc, i1, ex, self.doc.span(sid as int, q as int), (sid, q));
            ex = ex.insert((sid, q));
        }
        if s < n {
            proof {
                assert(self.doc.cell_ok(sid as int, s as int));
                assert(self.doc.has_pair(sid as int, r as int));
            }
            let t = self.doc.links[sid][s].1;
            let ghost i2 = self.index@;
            self.index.remove(&self.doc.sentences[sid], r, t, (sid, r));
            proof {
                lemma_remove_entry(&self.doc, i2, ex, self.doc.span(sid as int, r as int), (sid, r));
                ex = ex.insert((sid, r));
            }
        }
        // the graph changes
        let removed = self.doc.remove_node((sid, r));
        assert(removed is Some);
        proof {
            assert(same_pairs_outside(&d0, &self.doc, ex)) by {
                assert forall|t: int, i: int| !ex.contains((t as usize, i as usize)) implies #[trigger]
                    self.doc.has_pair(t, i) == d0.has_pair(t, i) && (d0.has_pair(t, i) ==> self.doc.span(
                    t,
                    i,
                ) == d0.span(t, i)) by {
                    lemma_removed_frame(&d0, &self.doc, sid as int, r as int, t, i);
                    if 0 <= t < d0.sentences.len() {
                        assert(d0.links[t]@.len() == d0.sentences[t]@.len());
                    }
                }
            }
            lemma_doc_change(&d0, &self.doc, self.index@, ex);
        }
        // the pairs around the merged symbol enter the index
        if q > 0 {
            let q0 = self.doc.links[sid][q].0;
            proof {
                lemma_removed_frame(&d0, &self.doc, sid as int, r as int, sid as int, q0 as int);
                assert(self.doc.has_pair(sid as int, q0 as int));
                assert(self.doc.span(sid as int, q0 as int) == self.doc.sentences[sid as int]@.subrange(
                    q0 as int,
                    s as int,
                ));
                assert(ex.contains((sid, q0)));
            }
            let ghost i3 = self.index@;
            self.index.insert(&self.doc.sentences[sid], q0, s, (sid, q0));
            proof {
                lemma_insert_entry(&self.doc, i3, ex, self.doc.span(sid as int, q0 as int), (sid, q0));
                ex = ex.remove((sid, q0));
            }
        }
        proof {
            lemma_removed_frame(&d0, &self.doc, sid as int, r as int, sid as int, r as int);
            lemma_release(&self.doc, self.index@, ex, (sid, r));
            ex = ex.remove((sid, r));
        }
        if s < n {
            let t = self.doc.links[sid][s].1;
            proof {
                assert(self.doc.has_pair(sid as int, q as int));
                assert(ex.contains((sid, q)));
            }
            let ghost i4 = self.index@;
            self.index.insert(&self.doc.sentences[sid], q, t, (sid, q));
            proof {
                lemma_insert_entry(&self.doc, i4, ex, self.doc.span(sid as int, q as int), (sid, q));
                ex = ex.remove((sid, q));
            }
        } else {
            proof {
                lemma_release(&self.doc, self.index@, ex, (sid, q));
                ex = ex.remove((sid, q));
            }
        }
        proof {
            assert(ex =~= Set::<Pos>::empty());
            assert forall|t: int, i: int| #[trigger] self.doc.live(t, i) implies d0.live(t, i) by {
                lemma_removed_frame(&d0, &self.doc, sid as int, r as int, t, i);
            }
            assert forall|t: int, i: int| #[trigger] d0.live(t, i) && !self.doc.live(t, i) implies {
                &&& t == x.0
                &&& x.1 < i < x.1 + p@.len()
                &&& d0.has_pair(x.0 as int, x.1 as int)
                &&& d0.span(x.0 as int, x.1 as int) == p@
            } by {
                lemma_removed_frame(&d0, &self.doc, sid as int, r as int, t, i);
            }
            assert forall|t: int, i: int|
                #[trigger] self.doc.has_pair(t, i) && self.doc.span(t, i) == p@ implies {
                &&& (t as usize, i as usize) != x
                &&& d0.has_pair(t, i)
                &&& d0.span(t, i) == p@
            } by {
                lemma_removed_frame(&d0, &self.doc, sid as int, r as int, t, i);
                assert(d0.links[t]@.len() == d0.sentences[t]@.len());
                if t == sid && i == q {
                    assert(self.doc.span(t, i).len() != p@.len());
                } else if t == sid && q > 0 && i == d0.prev(sid as int, q as int) {
                    assert(self.doc.span(t, i).len() != p@.len());
                }
            }
        }
    }

    /// One training step: picks the best valid pair (most occurrences, ties
    /// to the lexicographically greatest) and merges its occurrences left to
    /// right, skipping those that overlap an occurrence merged before them.
    /// Returns the pair, or `None` when no valid pair is left.
    pub fn step(&mut self) -> (r: Option<Vec<char>>)
        requires
            old(self).wf(),
        ensures
            final(self).wf(),
            final(self).doc.sentences@ == old(self).doc.sentences@,
            forall|t: int, i: int| #[trigger] final(self).doc.live(t, i) ==> old(self).doc.live(t, i),
            match r {
                None => exhausted(&old(self).doc),
                Some(p) => merge_step(&old(self).doc, &final(self).doc, p@),
            },
    {
        let ghost d0 = self.doc;
        let ghost idx0 = self.index@;
        proof {
            assert forall|q: Seq<char>| #[trigger] occurrences(&d0, q).len() > 0 implies idx0.contains_key(q)
                && idx0[q] == occurrences(&d0, q) by {
                lemma_frequency_accuracy(&*self, q);
            }
        }
        let best = self.index.best();
        let (p, mut ps) = match best {
            None => {
                proof {
                    assert forall|q: Seq<char>| valid_piece(q) implies #[trigger] occurrences(
                        &d0,
                        q,
                    ).len() == 0 by {
                        lemma_frequency_accuracy(&*self, q);
                    }
                }
                return None;
            },
            Some(b) => b,
        };
        proof {
            lemma_frequency_accuracy(&*self, p@);
        }
        let ghost ps0 = ps@;
        sort_positions(&mut ps);
        proof {
            assert forall|t: int, i: int| #[trigger]
                self.doc.has_pair(t, i) && self.doc.span(t, i) == p@ implies exists|m: int|
                0 <= m < ps@.len() && ps@[m] == (t as usize, i as usize) by {
                assert(idx0[p@].contains((t as usize, i as usize)));
                assert(ps0.to_set().contains((t as usize, i as usize)));
                assert(ps@.contains((t as usize, i as usize)));
            }
            assert forall|m: int| 0 <= m < ps@.len() implies (#[trigger] ps@[m]).0
                < d0.sentences@.len() by {
                assert(ps@.contains(ps@[m]));
                assert(ps0.contains(ps@[m]));
                assert(ps0.to_set().contains(ps@[m]));
                assert(idx0[p@].contains(ps@[m]));
            }
            assert forall|m: int| 0 <= m < ps@.len() implies occurrences(&d0, p@).contains(
                #[trigger] ps@[m],
            ) by {
                assert(ps@.contains(ps@[m]));
                assert(ps0.contains(ps@[m]));
                assert(ps0.to_set().contains(ps@[m]));
            }
            ps0.lemma_multiset_has_no_duplicates();
            ps@.lemma_multiset_has_no_duplicates_conv();
            assert forall|y: Pos| occurrences(&d0, p@).contains(y) implies #[trigger] ps@.contains(y) by {
                assert(idx0[p@].contains(y));
                assert(ps0.to_set().contains(y));
            }
            assert(scan_list(&d0, p@, ps@));
            assert(scan_state(&d0, &d0, p@, ps@, 0));
        }
        let mut k: usize = 0;
        while k < ps.len()
            invariant
                self.wf(),
                self.doc.sentences@ == d0.sentences@,
                forall|t: int, i: int| #[trigger] self.doc.live(t, i) ==> d0.live(t, i),
                k <= ps@.len(),
                forall|m: int| 0 <= m < ps@.len() ==> (#[trigger] ps@[m]).0 < d0.sentences@.len(),
                forall|m: int|
                    0 <= m < ps@.len() ==> occurrences(&d0, p@).contains(#[trigger] ps@[m]),
                d0.wf(),
                scan_list(&d0, p@, ps@),
                scan_state(&d0, &self.doc, p@, ps@, k as int),
                forall|t: int, i: int| #[trigger]
                    self.doc.has_pair(t, i) && self.doc.span(t, i) == p@ ==> exists|m: int|
                        k <= m < ps@.len() && ps@[m] == (t as usize, i as usize),
                forall|t: int, i: int|
                    #[trigger] d0.live(t, i) && !self.doc.live(t, i) ==> exists|j: usize|
                        #[trigger] occurrences(&d0, p@).contains((t as usize, j)) && j < i < j
                            + p@.len(),
            decreases ps@.len() - k,
        {
            let x = ps[k];
            let ghost prev_doc = self.doc;
            proof {
                lemma_scan_decide(&d0, &prev_doc, p@, ps@, k as int);
            }
            self.merge_at(x, &p);
            proof {
                lemma_scan_advance(&d0, &prev_doc, &self.doc, p@, ps@, k as int);
                assert forall|t: int, i: int| #[trigger]
                    self.doc.has_pair(t, i) && self.doc.span(t, i) == p@ implies exists|m: int|
                    k + 1 <= m < ps@.len() && ps@[m] == (t as usize, i as usize) by {
                    assert(prev_doc.has_pair(t, i) && prev_doc.span(t, i) == p@);
                    let m = choose|m: int| k <= m < ps@.len() && ps@[m] == (t as usize, i as usize);
                    assert(m != k);
                }
                assert forall|t: int, i: int| #[trigger]
                    d0.live(t, i) && !self.doc.live(t, i) implies exists|j: usize|
                    #[trigger] occurrences(&d0, p@).contains((t as usize, j)) && j < i < j + p@.len() by {
                    if prev_doc.live(t, i) {
                        assert(occurrences(&d0, p@).contains(ps@[k as int]));
                        assert(occurrences(&d0, p@).contains((t as usize, x.1)));
                    }
                }
            }
            k = k + 1;
        }
        proof {
            assert(occurrences(&self.doc, p@) =~= Set::<Pos>::empty()) by {
                assert forall|x: Pos| !occurrences(&self.doc, p@).contains(x) by {
                    if self.doc.has_pair(x.0 as int, x.1 as int) && self.doc.span(x.0 as int, x.1 as int)
                        == p@ {
                        let m = choose|m: int| k <= m < ps@.len() && ps@[m] == (x.0, x.1);
                    }
                }
            }
            assert forall|q: Seq<char>|
                valid_piece(q) && #[trigger] occurrences(&d0, q).len() > 0 implies !ranks_above(
                occurrences(&d0, q).len(),
                q,
                occurrences(&d0, p@).len(),
                p@,
            ) by {
                assert(idx0.contains_key(q));
            }
            let y = occurrences(&d0, p@).choose();
            assert(occurrences(&d0, p@) != Set::<Pos>::empty());
            assert(occurrences(&d0, p@).contains(y));
            assert(d0.cell_ok(y.0 as int, y.1 as int));
            assert(d0.cell_ok(y.0 as int, d0.next(y.0 as int, y.1 as int)));
            assert(p@.len() >= 2);
            assert forall|t: int, j: int| #[trigger] kept(&d0, p@, t, j) implies !self.doc.live(
                t,
                d0.next(t, j),
            ) by {
                assert(d0.links[t]@.len() == d0.sentences[t]@.len());
                assert(ps@.contains((t as usize, j as usize)));
                let m = choose|m: int| 0 <= m < ps@.len() && ps@[m] == (t as usize, j as usize);
                assert(scanned(ps@, k as int, t, j));
                assert(merged_before(&d0, p@, ps@, k as int, t, j));
            }
            assert forall|t: int, i: int|
                #![trigger self.doc.live(t, i)]
                d0.live(t, i) && !self.doc.live(t, i) implies i > 0 && kept(&d0, p@, t, d0.prev(t, i)) by {
                assert(merged_before(&d0, p@, ps@, k as int, t, d0.prev(t, i)));
            }
        }
        Some(p)
    }
}

/// Why training stopped without a vocabulary.
#[derive(Debug, Clone, Copy, PartialEq, Eq, Structural)]
pub enum TrainError {
    /// The requested size is below `min`, the number of reserved symbols and
    /// distinct characters.
    VocabTooSmall { min: usize },
    /// No valid pair was left once the vocabulary had `max` entries, fewer
    /// than requested.
    VocabTooLarge { max: usize },
}

/// Every learned piece is valid.
pub open spec fn learned_valid(p: &Pieces) -> bool {
    forall|k: int| 0 <= k < p.pieces@.len() ==> valid_piece(#[trigger] p.pieces@[k].piece@)
}

/// What a trainer promises about its result on `sentences`.
pub open spec fn training_result(
    sentences: Seq<Vec<char>>,
    vocab_size: usize,
    r: Result<Pieces, TrainError>,
) -> bool {
    let base = 3 + alphabet(sentences).len();
    &&& (r matches Err(TrainError::VocabTooSmall { .. })) <==> vocab_size < base
    &&& match r {
        Ok(p) => {
            &&& p.wf()
            &&& p.size() == vocab_size
            &&& char_entries(p.chars@, sentences)
            &&& learned_valid(&p)
        },
        Err(TrainError::VocabTooSmall { min }) => min == base,
        Err(TrainError::VocabTooLarge { max }) => base <= max < vocab_size,
    }
}

/// What incremental training on `sentences` returns: a result as
/// `training_result` describes it, whose learned pieces are those of a
/// training trace from the initial graph; where it ran out of pairs, the
/// trace made `max - base` merges and ends with no valid pair left.
pub open spec fn incremental_outcome(
    sentences: Seq<Vec<char>>,
    vocab_size: usize,
    r: Result<Pieces, TrainError>,
) -> bool {
    &&& training_result(sentences, vocab_size, r)
    &&& match r {
        Ok(p) => exists|docs: Seq<Documents>| training_trace(sentences, docs, learned_pieces(&p)),
        Err(TrainError::VocabTooLarge { max }) => exists|docs: Seq<Documents>, learned: Seq<Seq<char>>|
            training_trace(sentences, docs, learned) && learned.len() == max - (3 + alphabet(
                sentences,
            ).len()) && exhausted(&docs.last()),
        Err(TrainError::VocabTooSmall { .. }) => true,
    }
}

/// Trains incrementally until the vocabulary has `vocab_size` entries.
pub fn train_core(sentences: Vec<Vec<char>>, vocab_size: usize) -> (r: Result<Pieces, TrainError>)
    requires
        forall|sid: int| 0 <= sid < sentences.len() ==> #[trigger] sentences[sid]@.len() < NIL,
    ensures
        incremental_outcome(sentences@, vocab_size, r),
{
    let mut pieces = Pieces::new(&sentences);
    let ghost base = 3 + alphabet(sentences@).len();
    if vocab_size < pieces.len() {
        return Err(TrainError::VocabTooSmall { min: pieces.len() });
    }
    let ghost sents = sentences@;
    let mut trainer = Trainer::new(sentences);
    let ghost mut docs: Seq<Documents> = seq![trainer.doc];
    while pieces.len() < vocab_size
        invariant
            training_trace(sents, docs, learned_pieces(&pieces)),
            docs.last() == trainer.doc,
            pieces.size() == base + pieces.pieces@.len(),
            sents == sentences@,
            base == 3 + alphabet(sents).len(),
            trainer.wf(),
            pieces.wf(),
            char_entries(pieces.chars@, sents),
            pieces.chars@.len() == alphabet(sents).len(),
            base <= pieces.size() <= vocab_size,
            learned_valid(&pieces),
        decreases vocab_size - pieces.size(),
    {
        let ghost before = pieces.pieces@;
        match trainer.step() {
            None => {
                return Err(TrainError::VocabTooLarge { max: pieces.len() });
            },
            Some(p) => {
                let piece = chars_to_string(&p);
                pieces.add_piece(piece);
                proof {
                    let learned = learned_pieces(&pieces);
                    assert(learned =~= before.map_values(|e: VocabEntry| e.piece@).push(p@));
                    let old_docs = docs;
                    docs = docs.push(trainer.doc);
                    assert forall|k: int| 0 <= k < learned.len() implies merge_step(
                        &docs[k],
                        &docs[k + 1],
                        #[trigger] learned[k],
                    ) by {
                        if k < learned.len() - 1 {
                            assert(docs[k] == old_docs[k]);
                            assert(docs[k + 1] == old_docs[k + 1]);
                            assert(learned[k] == before.map_values(|e: VocabEntry| e.piece@)[k]);
                        }
                    }
                }
            },
        }
    }
    Ok(pieces)
}

/// The sentences of a corpus: each line normalized, and kept where it holds
/// more than the leading boundary marker (and fits the link arrays).
pub open spec fn kept_lines(lines: Seq<String>, keep: bool) -> Seq<Seq<char>>
    decreases lines.len(),
{
    if lines.len() == 0 {
        Seq::empty()
    } else {
        let rest = kept_lines(lines.drop_last(), keep);
        let n = normalized(lines.last()@, keep);
        if 1 < n.len() < NIL {
            rest.push(n)
        } else {
            rest
        }
    }
}

pub open spec fn char_views(v: Seq<Vec<char>>) -> Seq<Seq<char>> {
    v.map_values(|x: Vec<char>| x@)
}

/// Normalizes the lines of a corpus and drops the empty ones.
pub fn get_sentences(lines: &Vec<String>, spec: &TrainSpec) -> (r: Vec<Vec<char>>)
    ensures
        char_views(r@) == kept_lines(lines@, spec.keep_extra_whitespaces),
        forall|sid: int| 0 <= sid < r.len() ==> #[trigger] r[sid]@.len() < NIL,
{
    let mut ret: Vec<Vec<char>> = Vec::new();
    let mut i: usize = 0;
    while i < lines.len()
        invariant
            i <= lines@.len(),
            char_views(ret@) == kept_lines(lines@.subrange(0, i as int), spec.keep_extra_whitespaces),
            forall|sid: int| 0 <= sid < ret.len() ==> #[trigger] ret[sid]@.len() < NIL,
        decreases lines@.len() - i,
    {
        let line = to_chars(lines[i].as_str(), spec);
        proof {
            let pre = lines@.subrange(0, i + 1);
            assert(pre.drop_last() == lines@.subrange(0, i as int));
            assert(pre.last() == lines@[i as int]);
        }
        let n = line.len();
        if n > 1 && n < NIL {
            ret.push(line);
            assert(char_views(ret@) =~= kept_lines(lines@.subrange(0, i + 1), spec.keep_extra_whitespaces));
        }
        i = i + 1;
    }
    assert(lines@.subrange(0, lines@.len() as int) == lines@);
    ret
}

/// Trains a vocabulary on the lines of a corpus and returns its entries in
/// output order: reserved symbols, learned pieces, then characters.
pub fn train(spec: &TrainSpec, lines: &Vec<String>) -> (r: Result<Vec<VocabEntry>, TrainError>)
    ensures
        exists|sentences: Seq<Vec<char>>|
            char_views(sentences) == kept_lines(lines@, spec.keep_extra_whitespaces) && if spec.slow
                && total_chars(sentences) <= usize::MAX {
                match r {
                    Ok(v) => exists|p: Pieces|
                        reference_outcome(sentences, spec.vocab_size, Ok(p)) && v@ == p.entries(),
                    Err(e) => reference_outcome(sentences, spec.vocab_size, Err(e)),
                }
            } else {
                match r {
                    Ok(v) => exists|p: Pieces|
                        incremental_outcome(sentences, spec.vocab_size, Ok(p)) && v@ == p.entries(),
                    Err(e) => incremental_outcome(sentences, spec.vocab_size, Err(e)),
                }
            },
{
    let sentences = get_sentences(lines, spec);
    let ghost sents = sentences@;
    // the reference trainer counts in `usize`, so it takes corpora whose size
    // fits there; any other goes to the incremental trainer
    let fits = crate::slow::corpus_chars(&sentences).is_some();
    let pieces = if spec.slow && fits {
        crate::slow::slow_bpe(sentences, spec.vocab_size)
    } else {
        train_core(sentences, spec.vocab_size)
    };
    match pieces {
        Ok(p) => {
            let ghost gp = p;
            let v = p.to_vec();
            assert(v@ == gp.entries());
            Ok(v)
        },
        Err(e) => Err(e),
    }
}

} // verus!
