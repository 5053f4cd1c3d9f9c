use vstd::prelude::*;

verus! {

/// A position: sentence index and character index within that sentence.
pub type Pos = (usize, usize);

/// Link value of the missing predecessor of a sentence's first character, and
/// of both links of a removed position.
pub const NIL: usize = usize::MAX;

/// The corpus as immutable sentences plus, for each sentence, a doubly linked
/// list over its positions. Link cell `i` of sentence `sid` holds
/// `(prev, next)`; `next == len` means past the end. A live position is the
/// head of one symbol, which spans the characters from it up to its `next`.
#[derive(Debug)]
pub struct Documents {
    pub sentences: Vec<Vec<char>>,
    pub links: Vec<Vec<(usize, usize)>>,
}

/// The initial link cell of position `i`: `(i - 1, i + 1)`, with `NIL` before
/// the first position.
pub open spec fn initial_cell(i: int) -> (usize, usize) {
    (if i == 0 {
        NIL
    } else {
        (i - 1) as usize
    }, (i + 1) as usize)
}

impl Documents {
    pub open spec fn len_of(&self, sid: int) -> int {
        self.sentences[sid]@.len() as int
    }

    pub open spec fn prev(&self, sid: int, i: int) -> int {
        self.links[sid]@[i].0 as int
    }

    pub open spec fn next(&self, sid: int, i: int) -> int {
        self.links[sid]@[i].1 as int
    }

    /// Position `i` of sentence `sid` heads a symbol.
    pub open spec fn live(&self, sid: int, i: int) -> bool {
        &&& 0 <= sid < self.sentences.len()
        &&& 0 <= i < self.len_of(sid)
        &&& self.next(sid, i) <= self.len_of(sid)
    }

    /// A live position followed by another symbol: it starts a pair.
    pub open spec fn has_pair(&self, sid: int, i: int) -> bool {
        self.live(sid, i) && self.next(sid, i) < self.len_of(sid)
    }

    /// End of the pair that starts at `i` (two hops along `next`).
    pub open spec fn pair_end(&self, sid: int, i: int) -> int {
        self.next(sid, self.next(sid, i))
    }

    /// The characters of the pair that starts at `i`.
    pub open spec fn span(&self, sid: int, i: int) -> Seq<char> {
        self.sentences[sid]@.subrange(i, self.pair_end(sid, i))
    }

    /// The links around a live position agree with each other.
    pub open spec fn cell_ok(&self, sid: int, i: int) -> bool {
        self.live(sid, i) ==> {
            &&& i < self.next(sid, i)
            &&& self.next(sid, i) < self.len_of(sid) ==> {
                &&& self.live(sid, self.next(sid, i))
                &&& self.prev(sid, self.next(sid, i)) == i
            }
            &&& i > 0 ==> {
                &&& 0 <= self.prev(sid, i) < i
                &&& self.live(sid, self.prev(sid, i))
                &&& self.next(sid, self.prev(sid, i)) == i
            }
            &&& i == 0 ==> self.prev(sid, i) == NIL
            &&& forall|j: int| i < j < self.next(sid, i) ==> !#[trigger] self.live(sid, j)
        }
    }

    /// Every live position's neighbours link back to it.
    pub open spec fn links_consistent(&self) -> bool {
        forall|sid: int, i: int| #[trigger] self.cell_ok(sid, i)
    }

    pub open spec fn shape_ok(&self) -> bool {
        &&& self.links.len() == self.sentences.len()
        &&& self.sentences@.len() <= usize::MAX
        &&& forall|sid: int|
            0 <= sid < self.sentences.len() ==> {
                &&& #[trigger] self.links[sid]@.len() == self.sentences[sid]@.len()
                &&& self.sentences[sid]@.len() < NIL
            }
    }

    pub open spec fn wf(&self) -> bool {
        self.shape_ok() && self.links_consistent()
    }

    /// Where a walk of `k` steps from `i` ends: backward along `prev` for
    /// `k < 0`, forward along `next` for `k > 0`. It fails where it leaves the
    /// sentence; it may end just past the end.
    pub open spec fn walk(&self, sid: int, i: int, k: int) -> Option<int>
        decreases (if k < 0 {
            -k
        } else {
            k
        }),
    {
        if k == 0 {
            if 0 <= i <= self.len_of(sid) {
                Some(i)
            } else {
                None
            }
        } else if !(0 <= i < self.len_of(sid)) {
            None
        } else if k < 0 {
            self.walk(sid, self.prev(sid, i), k + 1)
        } else {
            self.walk(sid, self.next(sid, i), k - 1)
        }
    }

    /// Builds the graph in which every character is its own symbol.
    pub fn new(sentences: Vec<Vec<char>>) -> (r: Documents)
        requires
            forall|sid: int| 0 <= sid < sentences.len() ==> #[trigger] sentences[sid]@.len() < NIL,
        ensures
            r.wf(),
            r.sentences@ == sentences@,
            forall|sid: int, i: int|
                0 <= sid < r.sentences.len() && 0 <= i < r.len_of(sid) ==> #[trigger] r.links[sid]@[i]
                    == initial_cell(i),
    {
        let mut links: Vec<Vec<(usize, usize)>> = Vec::new();
        let mut sid: usize = 0;
        while sid < sentences.len()
            invariant
                sid <= sentences.len(),
                links.len() == sid,
                forall|s: int| 0 <= s < sentences.len() ==> #[trigger] sentences[s]@.len() < NIL,
                forall|s: int|
                    0 <= s < sid ==> #[trigger] links[s]@.len() == sentences[s]@.len(),
                forall|s: int, i: int|
                    0 <= s < sid && 0 <= i < sentences[s]@.len() ==> #[trigger] links[s]@[i]
                        == initial_cell(i),
            decreases sentences.len() - sid,
        {
            let n = sentences[sid].len();
            let mut row: Vec<(usize, usize)> = Vec::new();
            let mut i: usize = 0;
            while i < n
                invariant
                    i <= n < NIL,
                    row@.len() == i,
                    forall|j: int| 0 <= j < i ==> #[trigger] row@[j] == initial_cell(j),
                decreases n - i,
            {
                let p = if i == 0 {
                    NIL
                } else {
                    i - 1
                };
                row.push((p, i + 1));
                i = i + 1;
            }
            links.push(row);
            sid = sid + 1;
        }
        let r = Documents { sentences, links };
        assert forall|s: int, i: int| #[trigger] r.cell_ok(s, i) by {
            if r.live(s, i) {
                assert(r.links[s]@[i] == initial_cell(i));
                if i + 1 < r.len_of(s) {
                    assert(r.links[s]@[i + 1] == initial_cell(i + 1));
                }
                if i > 0 {
                    assert(r.links[s]@[i - 1] == initial_cell(i - 1));
                }
            }
        }
        r
    }

    /// Walks `offset` steps from `pos` (see `walk`).
    pub fn nth_from(&self, pos: Pos, offset: isize) -> (r: Option<Pos>)
        requires
            self.wf(),
            pos.0 < self.sentences.len(),
        ensures
            r == (match self.walk(pos.0 as int, pos.1 as int, offset as int) {
                Some(j) => Some((pos.0, j as usize)),
                None => None,
            }),
    {
        let sid = pos.0;
        let mut i = pos.1;
        let links = &self.links[sid];
        assert(links@.len() == self.len_of(sid as int));
        let mut k: isize = offset;
        while k < 0
            invariant
                sid == pos.0,
                links == &self.links[sid as int],
                links@.len() == self.len_of(sid as int),
                offset <= k <= 0 || k == offset,
                k <= 0 || k == offset,
                self.walk(sid as int, pos.1 as int, offset as int) == self.walk(
                    sid as int,
                    i as int,
                    k as int,
                ),
            decreases (if k < 0 {
                -k
            } else {
                0
            }),
        {
            if i >= links.len() {
                return None;
            }
            i = links[i].0;
            k = k + 1;
        }
        while k > 0
            invariant
                sid == pos.0,
                links == &self.links[sid as int],
                links@.len() == self.len_of(sid as int),
                k >= 0,
                self.walk(sid as int, pos.1 as int, offset as int) == self.walk(
                    sid as int,
                    i as int,
                    k as int,
                ),
            decreases k,
        {
            if i >= links.len() {
                return None;
            }
            i = links[i].1;
            k = k - 1;
        }
        if i > links.len() {
            None
        } else {
            Some((sid, i))
        }
    }

    /// The pair of symbols between the `left`-th and the `right`-th neighbour
    /// of `pos`: its start position and its end index. The characters are
    /// `sentences[sid][start..end]`.
    pub fn pair_words(&self, pos: Pos, left: isize, right: isize) -> (r: Option<(Pos, usize)>)
        requires
            self.wf(),
            pos.0 < self.sentences.len(),
        ensures
            r == (match (
                self.walk(pos.0 as int, pos.1 as int, left as int),
                self.walk(pos.0 as int, pos.1 as int, right as int),
            ) {
                (Some(l), Some(e)) => Some(((pos.0, l as usize), e as usize)),
                _ => None,
            }),
    {
        let l = self.nth_from(pos, left)?;
        let r = self.nth_from(pos, right)?;
        Some((l, r.1))
    }

    /// Splices `pos` out of its sentence's list, so that its predecessor's
    /// symbol absorbs it. Fails, changing nothing, where `pos` has no live
    /// predecessor or is itself not live.
    pub fn remove_node(&mut self, pos: Pos) -> (r: Option<()>)
        requires
            old(self).wf(),
            pos.0 < old(self).sentences.len(),
        ensures
            final(self).wf(),
            final(self).sentences@ == old(self).sentences@,
            r is Some <==> (old(self).live(pos.0 as int, pos.1 as int) && pos.1 > 0),
            r is None ==> final(self).links@ == old(self).links@,
            r is Some ==> final(self).removed(*old(self), pos.0 as int, pos.1 as int),
    {
        let ghost pre = *self;
        let sid = pos.0;
        let rr = pos.1;
        if rr >= self.links[sid].len() || rr == 0 {
            return None;
        }
        let (l, s) = self.links[sid][rr];
        if s > self.links[sid].len() {
            return None;
        }
        proof {
            assert(pre.cell_ok(sid as int, rr as int));
        }
        let mut row: Vec<(usize, usize)> = Vec::new();
        std::mem::swap(&mut row, &mut self.links[sid]);
        row.set(rr, (NIL, NIL));
        let lp = row[l].0;
        row.set(l, (lp, s));
        if s < row.len() {
            let sn = row[s].1;
            row.set(s, (l, sn));
        }
        self.links.set(sid, row);
        proof {
            let q = l as int;
            let r = rr as int;
            let si = s as int;
            assert(self.links.len() == pre.links.len());
            assert(self.links[sid as int]@.len() == pre.links[sid as int]@.len());
            assert(self.shape_ok()) by {
                assert forall|t: int| 0 <= t < self.sentences.len() implies #[trigger] self.links[t]@.len()
                    == self.sentences[t]@.len() && self.sentences[t]@.len() < NIL by {
                    assert(pre.links[t]@.len() == pre.sentences[t]@.len());
                }
            }
            assert(self.removed(pre, sid as int, r));
            assert(pre.cell_ok(sid as int, r));
            assert forall|t: int, j: int| #[trigger] self.live(t, j) implies pre.live(t, j) by {
                if t != sid as int && 0 <= t < self.sentences.len() {
                    assert(self.links[t] == pre.links[t]);
                }
            }
            assert forall|t: int, i: int| #[trigger] self.cell_ok(t, i) by {
                assert(pre.cell_ok(t, i));
                if t != sid as int && 0 <= t < self.sentences.len() {
                    assert(self.links[t] == pre.links[t]);
                }
                if t == sid as int && i == q && self.live(t, i) {
                    assert forall|j: int| i < j < self.next(t, i) implies !#[trigger] self.live(t, j) by {
                        if j < r {
                            assert(!pre.live(t, j));
                        } else if j > r {
                            assert(!pre.live(t, j));
                        }
                    }
                }
                if t == sid as int && self.live(t, i) {
                    if si < pre.len_of(t) {
                        assert(pre.cell_ok(t, si));
                    }
                    assert(pre.cell_ok(t, q));
                    if i != q && i != si {
                        let m = self.next(t, i);
                        if m < pre.len_of(t) {
                            assert(pre.cell_ok(t, m));
                        }
                        if i > 0 {
                            assert(pre.cell_ok(t, pre.prev(t, i)));
                        }
                    }
                }
            }
        }
        Some(())
    }

    /// `self` is `pre` with position `r` of sentence `sid` spliced out.
    pub open spec fn removed(&self, pre: Documents, sid: int, r: int) -> bool {
        let q = pre.prev(sid, r);
        let s = pre.next(sid, r);
        &&& self.links.len() == pre.links.len()
        &&& forall|t: int| 0 <= t < pre.links.len() && t != sid ==> #[trigger] self.links[t] == pre.links[t]
        &&& self.links[sid]@.len() == pre.links[sid]@.len()
        &&& forall|i: int|
            0 <= i < pre.links[sid]@.len() && i != q && i != r && i != s ==> #[trigger] self.links[sid]@[i]
                == pre.links[sid]@[i]
        &&& self.links[sid]@[q] == (pre.links[sid]@[q].0, s as usize)
        &&& self.links[sid]@[r] == (NIL, NIL)
        &&& s < pre.len_of(sid) ==> self.links[sid]@[s] == (q as usize, pre.links[sid]@[s].1)
    }
}

/// After position `r` is spliced out, it is dead; every other position keeps
/// its liveness, and every pair other than those starting at `r`, at its
/// predecessor `q` and at `q`'s predecessor keeps its existence and its
/// characters.
pub proof fn lemma_removed_frame(pre: &Documents, post: &Documents, sid: int, r: int, t: int, i: int)
    requires
        pre.wf(),
        post.sentences@ == pre.sentences@,
        post.removed(*pre, sid, r),
        pre.live(sid, r),
        r > 0,
    ensures
        !post.live(sid, r),
        post.next(sid, pre.prev(sid, r)) == pre.next(sid, r),
        (t != sid || i != r) ==> post.live(t, i) == pre.live(t, i),
        (t != sid || (i != r && i != pre.prev(sid, r) && i != pre.prev(sid, pre.prev(sid, r))))
            ==> post.has_pair(t, i) == pre.has_pair(t, i) && (pre.has_pair(t, i) ==> post.span(t, i)
            == pre.span(t, i)),
{
    assert(pre.cell_ok(sid, r));
    let q = pre.prev(sid, r);
    assert(pre.cell_ok(sid, q));
    assert(pre.links[sid]@.len() == pre.sentences[sid]@.len());
    if 0 <= t < pre.sentences.len() && t != sid {
        assert(post.links[t] == pre.links[t]);
    }
    if t == sid && i != r && i != q && i != pre.prev(sid, q) && pre.has_pair(t, i) {
        assert(pre.cell_ok(t, i));
        let m = pre.next(t, i);
        assert(pre.cell_ok(t, m));
    }
}

/// `d1` and `d2` are the same graph: same sentences, same live positions, and
/// the same links at every live position.
pub open spec fn same_graph(d1: &Documents, d2: &Documents) -> bool {
    &&& d1.sentences@ == d2.sentences@
    &&& forall|t: int, i: int|
        #![trigger d1.live(t, i)]
        #![trigger d2.live(t, i)]
        d1.live(t, i) == d2.live(t, i)
    &&& forall|t: int, i: int| #[trigger] d1.live(t, i) ==> d1.links[t]@[i] == d2.links[t]@[i]
}

/// A consistent graph is determined by its live positions.
pub proof fn lemma_links_determined(d1: &Documents, d2: &Documents)
    requires
        d1.wf(),
        d2.wf(),
        d1.sentences@ == d2.sentences@,
        forall|t: int, i: int|
            #![trigger d1.live(t, i)]
            #![trigger d2.live(t, i)]
            d1.live(t, i) == d2.live(t, i),
    ensures
        same_graph(d1, d2),
{
    assert forall|t: int, i: int| #[trigger] d1.live(t, i) implies d1.links[t]@[i] == d2.links[t]@[i] by {
        assert(d1.cell_ok(t, i));
        assert(d2.cell_ok(t, i));
        let n1 = d1.next(t, i);
        let n2 = d2.next(t, i);
        if n1 < n2 {
            assert(d1.live(t, n1));
            assert(!d2.live(t, n1));
        }
        if n2 < n1 {
            assert(d2.live(t, n2));
            assert(!d1.live(t, n2));
        }
        if i > 0 {
            let p1 = d1.prev(t, i);
            let p2 = d2.prev(t, i);
            assert(d1.cell_ok(t, p1));
            assert(d2.cell_ok(t, p2));
            if p1 < p2 {
                assert(d1.live(t, p2));
            }
            if p2 < p1 {
                assert(d2.live(t, p1));
            }
        }
    }
}

} // verus!
