use crate::graph::Pos;
use crate::norm::SPACE_REP;
use vstd::prelude::*;

verus! {

/// A pair may become a piece: it is non-empty and does not end at a word
/// boundary.
pub open spec fn valid_piece(p: Seq<char>) -> bool {
    p.len() > 0 && p.last() != SPACE_REP
}

/// Lexicographic order on character sequences (by code point; a proper
/// prefix comes first).
pub open spec fn lex_lt(a: Seq<char>, b: Seq<char>) -> bool
    decreases a.len(),
{
    if b.len() == 0 {
        false
    } else if a.len() == 0 {
        true
    } else if a[0] != b[0] {
        (a[0] as u32) < (b[0] as u32)
    } else {
        lex_lt(a.drop_first(), b.drop_first())
    }
}

/// `(c1, p1)` comes after `(c2, p2)`: a higher count, or the same count and a
/// lexicographically greater pair.
pub open spec fn ranks_above(c1: nat, p1: Seq<char>, c2: nat, p2: Seq<char>) -> bool {
    c1 > c2 || (c1 == c2 && lex_lt(p2, p1))
}

pub proof fn lemma_lex_lt_transitive(a: Seq<char>, b: Seq<char>, c: Seq<char>)
    requires
        lex_lt(a, b),
        lex_lt(b, c),
    ensures
        lex_lt(a, c),
    decreases a.len(),
{
    if a.len() > 0 && a[0] == b[0] && b[0] == c[0] {
        lemma_lex_lt_transitive(a.drop_first(), b.drop_first(), c.drop_first());
    }
}

pub proof fn lemma_lex_lt_irreflexive(a: Seq<char>)
    ensures
        !lex_lt(a, a),
    decreases a.len(),
{
    if a.len() > 0 {
        lemma_lex_lt_irreflexive(a.drop_first());
    }
}

pub proof fn lemma_lex_lt_total(a: Seq<char>, b: Seq<char>)
    requires
        a != b,
    ensures
        lex_lt(a, b) || lex_lt(b, a),
    decreases a.len(),
{
    if a.len() > 0 && b.len() > 0 && a[0] == b[0] {
        if a.drop_first() == b.drop_first() {
            assert(a =~= seq![a[0]] + a.drop_first());
            assert(b =~= seq![b[0]] + b.drop_first());
        }
        lemma_lex_lt_total(a.drop_first(), b.drop_first());
    } else if a.len() == 0 && b.len() == 0 {
        assert(a =~= b);
    } else if a.len() > 0 && b.len() > 0 {
        vstd::utf8::char_u32_cast(a[0], a[0] as u32);
        vstd::utf8::char_u32_cast(b[0], b[0] as u32);
    }
}

pub proof fn lemma_ranks_above_transitive(
    c1: nat,
    p1: Seq<char>,
    c2: nat,
    p2: Seq<char>,
    c3: nat,
    p3: Seq<char>,
)
    requires
        ranks_above(c1, p1, c2, p2),
        ranks_above(c2, p2, c3, p3),
    ensures
        ranks_above(c1, p1, c3, p3),
{
    if c1 == c2 && c2 == c3 {
        lemma_lex_lt_transitive(p3, p2, p1);
    }
}

/// Whether `piece` may become a learned piece.
pub fn is_valid_piece(piece: &[char]) -> (r: bool)
    ensures
        r == valid_piece(piece@),
{
    if piece.len() == 0 {
        return false;
    }
    if piece[piece.len() - 1] == SPACE_REP {
        return false;
    }
    true
}

/// Whether `a` comes before `b` lexicographically.
pub fn lex_less(a: &[char], b: &[char]) -> (r: bool)
    ensures
        r == lex_lt(a@, b@),
{
    let mut i: usize = 0;
    assert(a@.skip(0) == a@);
    assert(b@.skip(0) == b@);
    while i < a.len() && i < b.len() && a[i] == b[i]
        invariant
            i <= a@.len(),
            i <= b@.len(),
            lex_lt(a@, b@) == lex_lt(a@.skip(i as int), b@.skip(i as int)),
        decreases a.len() - i,
    {
        assert(a@.skip(i as int).drop_first() == a@.skip(i + 1));
        assert(b@.skip(i as int).drop_first() == b@.skip(i + 1));
        i = i + 1;
    }
    if i == b.len() {
        false
    } else if i == a.len() {
        true
    } else {
        (a[i] as u32) < (b[i] as u32)
    }
}

/// Whether `key` holds the characters `text[l..e]`.
pub fn slice_eq(key: &Vec<char>, text: &Vec<char>, l: usize, e: usize) -> (r: bool)
    requires
        l <= e <= text@.len(),
    ensures
        r == (key@ == text@.subrange(l as int, e as int)),
{
    if key.len() != e - l {
        return false;
    }
    let mut i: usize = 0;
    while i < key.len()
        invariant
            key@.len() == e - l,
            l <= e <= text@.len(),
            i <= key@.len(),
            forall|j: int| 0 <= j < i ==> key@[j] == text@[l + j],
        decreases key.len() - i,
    {
        if key[i] != text[l + i] {
            assert(key@[i as int] != text@.subrange(l as int, e as int)[i as int]);
            return false;
        }
        i = i + 1;
    }
    assert(key@ == text@.subrange(l as int, e as int));
    true
}

/// The copy `text[l..e]`.
pub fn copy_range(text: &Vec<char>, l: usize, e: usize) -> (r: Vec<char>)
    requires
        l <= e <= text@.len(),
    ensures
        r@ == text@.subrange(l as int, e as int),
{
    let mut r: Vec<char> = Vec::new();
    let mut i: usize = l;
    while i < e
        invariant
            l <= i <= e <= text@.len(),
            r@ == text@.subrange(l as int, i as int),
        decreases e - i,
    {
        r.push(text[i]);
        i = i + 1;
        assert(r@ == text@.subrange(l as int, i as int));
    }
    r
}

/// A copy of `v`.
fn copy_positions(v: &Vec<Pos>) -> (r: Vec<Pos>)
    ensures
        r@ == v@,
{
    let mut r: Vec<Pos> = Vec::new();
    let mut i: usize = 0;
    while i < v.len()
        invariant
            i <= v@.len(),
            r@ == v@.subrange(0, i as int),
        decreases v.len() - i,
    {
        r.push(v[i]);
        i = i + 1;
        assert(r@ == v@.subrange(0, i as int));
    }
    assert(v@.subrange(0, v@.len() as int) == v@);
    r
}

proof fn lemma_swap_remove_set(s: Seq<Pos>, j: int)
    requires
        s.no_duplicates(),
        0 <= j < s.len(),
    ensures
        s.update(j, s.last()).drop_last().no_duplicates(),
        s.update(j, s.last()).drop_last().to_set() == s.to_set().remove(s[j]),
{
    let t = s.update(j, s.last()).drop_last();
    assert forall|a: int, b: int| 0 <= a < b < t.len() implies t[a] != t[b] by {
        if a == j {
            assert(t[a] == s[s.len() - 1]);
        } else {
            assert(t[a] == s[a]);
        }
        if b == j {
            assert(t[b] == s[s.len() - 1]);
        } else {
            assert(t[b] == s[b]);
        }
    }
    assert forall|x: Pos| t.to_set().contains(x) <==> s.to_set().remove(s[j]).contains(x) by {
        if t.contains(x) {
            let a = choose|a: int| 0 <= a < t.len() && t[a] == x;
            if a == j {
                assert(s[s.len() - 1] == x);
            } else {
                assert(s[a] == x);
            }
        }
        if s.contains(x) && x != s[j] {
            let a = choose|a: int| 0 <= a < s.len() && s[a] == x;
            if a == s.len() - 1 {
                assert(t[j] == x);
            } else {
                assert(t[a] == x);
            }
        }
    }
    assert(t.to_set() == s.to_set().remove(s[j]));
}

proof fn lemma_push_set(s: Seq<Pos>, x: Pos)
    requires
        s.no_duplicates(),
        !s.contains(x),
    ensures
        s.push(x).no_duplicates(),
        s.push(x).to_set() == s.to_set().insert(x),
{
    let t = s.push(x);
    assert forall|a: int, b: int| 0 <= a < b < t.len() implies t[a] != t[b] by {
        if b == s.len() {
            assert(t[a] == s[a]);
        }
    }
    assert forall|y: Pos| t.to_set().contains(y) <==> s.to_set().insert(x).contains(y) by {
        if t.contains(y) {
            let a = choose|a: int| 0 <= a < t.len() && t[a] == y;
            if a < s.len() {
                assert(s[a] == y);
            }
        }
        if s.contains(y) {
            let a = choose|a: int| 0 <= a < s.len() && s[a] == y;
            assert(t[a] == y);
        }
        if y == x {
            assert(t[s.len() as int] == y);
        }
    }
    assert(t.to_set() =~= s.to_set().insert(x));
}

/// `m` with position `x` taken out of the set of pair `p`; a pair whose set
/// becomes empty leaves the map.
pub open spec fn without(m: Map<Seq<char>, Set<Pos>>, p: Seq<char>, x: Pos) -> Map<
    Seq<char>,
    Set<Pos>,
> {
    if m[p].remove(x) == Set::<Pos>::empty() {
        m.remove(p)
    } else {
        m.insert(p, m[p].remove(x))
    }
}

/// Pairs of adjacent symbols, each with the set of positions where it occurs.
/// A pair is identified by its characters; each distinct pair has one slot.
pub struct CandidateIndex {
    keys: Vec<Vec<char>>,
    occ: Vec<Vec<Pos>>,
    model: Ghost<Map<Seq<char>, Set<Pos>>>,
}

impl View for CandidateIndex {
    type V = Map<Seq<char>, Set<Pos>>;

    closed spec fn view(&self) -> Map<Seq<char>, Set<Pos>> {
        self.model@
    }
}

impl CandidateIndex {
    pub closed spec fn wf(&self) -> bool {
        &&& self.keys.len() == self.occ.len()
        &&& forall|k: int| 0 <= k < self.occ.len() ==> #[trigger] self.occ[k]@.no_duplicates()
        &&& forall|k: int| 0 <= k < self.occ.len() ==> #[trigger] self.occ[k]@.len() > 0
        &&& forall|k: int|
            0 <= k < self.keys.len() ==> {
                &&& self.model@.contains_key(#[trigger] self.keys[k]@)
                &&& self.model@[self.keys[k]@] == self.occ[k]@.to_set()
            }
        &&& forall|a: int, b: int|
            0 <= a < self.keys.len() && 0 <= b < self.keys.len() && a != b ==> self.keys[a]@
                != self.keys[b]@
        &&& forall|p: Seq<char>|
            #[trigger] self.model@.contains_key(p) ==> exists|k: int|
                0 <= k < self.keys.len() && self.keys[k]@ == p
    }

    /// No pair of the index has an empty set of positions.
    pub proof fn lemma_nonempty(&self, p: Seq<char>)
        requires
            self.wf(),
            self@.contains_key(p),
        ensures
            self@[p].finite(),
            self@[p].len() > 0,
    {
        let k = choose|k: int| 0 <= k < self.keys.len() && self.keys[k]@ == p;
        self.lemma_slot_len(k);
        assert(self.occ[k]@.len() > 0);
    }

    /// Every position set of the index is finite.
    pub proof fn lemma_finite(&self, p: Seq<char>)
        requires
            self.wf(),
            self@.contains_key(p),
        ensures
            self@[p].finite(),
    {
        let k = choose|k: int| 0 <= k < self.keys.len() && self.keys[k]@ == p;
        assert(self.model@[self.keys[k]@] == self.occ[k]@.to_set());
    }

    pub fn new() -> (r: CandidateIndex)
        ensures
            r.wf(),
            r@ == Map::<Seq<char>, Set<Pos>>::empty(),
    {
        CandidateIndex { keys: Vec::new(), occ: Vec::new(), model: Ghost(Map::empty()) }
    }

    /// The slot of the pair `text[l..e]`, if it has one.
    fn find(&self, text: &Vec<char>, l: usize, e: usize) -> (r: Option<usize>)
        requires
            self.wf(),
            l <= e <= text@.len(),
        ensures
            match r {
                Some(k) => k < self.keys.len() && self.keys[k as int]@ == text@.subrange(
                    l as int,
                    e as int,
                ),
                None => !self@.contains_key(text@.subrange(l as int, e as int)),
            },
    {
        let mut k: usize = 0;
        while k < self.keys.len()
            invariant
                self.wf(),
                l <= e <= text@.len(),
                k <= self.keys.len(),
                forall|j: int| 0 <= j < k ==> self.keys[j]@ != text@.subrange(l as int, e as int),
            decreases self.keys.len() - k,
        {
            if slice_eq(&self.keys[k], text, l, e) {
                return Some(k);
            }
            k = k + 1;
        }
        None
    }

    /// Adds occurrence `x` of the pair `text[l..e]`.
    pub fn insert(&mut self, text: &Vec<char>, l: usize, e: usize, x: Pos)
        requires
            old(self).wf(),
            l <= e <= text@.len(),
            !(old(self)@.contains_key(text@.subrange(l as int, e as int)) && old(
                self,
            )@[text@.subrange(l as int, e as int)].contains(x)),
        ensures
            final(self).wf(),
            final(self)@ == old(self)@.insert(
                text@.subrange(l as int, e as int),
                if old(self)@.contains_key(text@.subrange(l as int, e as int)) {
                    old(self)@[text@.subrange(l as int, e as int)]
                } else {
                    Set::empty()
                }.insert(x),
            ),
    {
        let ghost p = text@.subrange(l as int, e as int);
        let ghost pre = *self;
        match self.find(text, l, e) {
            Some(k) => {
                proof {
                    assert(self.occ[k as int]@.to_set().contains(x) == self.occ[k as int]@.contains(
                        x,
                    ));
                    lemma_push_set(self.occ[k as int]@, x);
                }
                self.occ[k].push(x);
                self.model = Ghost(self.model@.insert(p, pre.model@[p].insert(x)));
                proof {
                    assert forall|j: int| 0 <= j < self.keys.len() implies {
                        &&& self.model@.contains_key(#[trigger] self.keys[j]@)
                        &&& self.model@[self.keys[j]@] == self.occ[j]@.to_set()
                    } by {
                        assert(pre.model@.contains_key(pre.keys[j]@));
                        if j != k {
                            assert(self.occ[j] == pre.occ[j]);
                        }
                    }
                    assert forall|j: int| 0 <= j < self.occ.len() implies #[trigger] self.occ[
                        j
                    ]@.no_duplicates() by {
                        assert(pre.occ[j]@.no_duplicates());
                    }
                    assert forall|j: int| 0 <= j < self.occ.len() implies #[trigger] self.occ[
                        j
                    ]@.len() > 0 by {
                        assert(pre.occ[j]@.len() > 0);
                    }
                    assert forall|q: Seq<char>| #[trigger] self.model@.contains_key(q) implies exists|
                        j: int,
                    | 0 <= j < self.keys.len() && self.keys[j]@ == q by {
                        assert(self.keys == pre.keys);
                        if q != p {
                            assert(pre.model@.contains_key(q));
                            let j = choose|j: int| 0 <= j < pre.keys.len() && pre.keys[j]@ == q;
                            assert(self.keys[j]@ == q);
                        } else {
                            assert(self.keys[k as int]@ == q);
                        }
                    }
                }
            },
            None => {
                let key = copy_range(text, l, e);
                let mut row: Vec<Pos> = Vec::new();
                row.push(x);
                self.keys.push(key);
                self.occ.push(row);
                self.model = Ghost(self.model@.insert(p, Set::empty().insert(x)));
                proof {
                    let n = pre.keys.len() as int;
                    assert(row@.to_set() =~= Set::empty().insert(x)) by {
                        assert(row@[0] == x);
                    }
                    assert forall|j: int| 0 <= j < self.keys.len() implies {
                        &&& self.model@.contains_key(#[trigger] self.keys[j]@)
                        &&& self.model@[self.keys[j]@] == self.occ[j]@.to_set()
                    } by {
                        if j < n {
                            assert(pre.model@.contains_key(pre.keys[j]@));
                            assert(self.keys[j] == pre.keys[j]);
                            assert(self.occ[j] == pre.occ[j]);
                        }
                    }
                    assert forall|j: int| 0 <= j < self.occ.len() implies #[trigger] self.occ[
                        j
                    ]@.no_duplicates() by {
                        if j < n {
                            assert(pre.occ[j]@.no_duplicates());
                        }
                    }
                    assert forall|j: int| 0 <= j < self.occ.len() implies #[trigger] self.occ[
                        j
                    ]@.len() > 0 by {
                        if j < n {
                            assert(pre.occ[j]@.len() > 0);
                        }
                    }
                    assert forall|a: int, b: int|
                        0 <= a < self.keys.len() && 0 <= b < self.keys.len() && a != b implies self.keys[a]@
                        != self.keys[b]@ by {
                        if a < n && b < n {
                            assert(self.keys[a] == pre.keys[a]);
                            assert(self.keys[b] == pre.keys[b]);
                        } else if a < n {
                            assert(pre.model@.contains_key(pre.keys[a]@));
                        } else {
                            assert(pre.model@.contains_key(pre.keys[b]@));
                        }
                    }
                    assert forall|q: Seq<char>| #[trigger] self.model@.contains_key(q) implies exists|
                        j: int,
                    | 0 <= j < self.keys.len() && self.keys[j]@ == q by {
                        if q != p {
                            assert(pre.model@.contains_key(q));
                            let j = choose|j: int| 0 <= j < pre.keys.len() && pre.keys[j]@ == q;
                            assert(self.keys[j] == pre.keys[j]);
                        } else {
                            assert(self.keys[n]@ == q);
                        }
                    }
                }
            },
        }
    }

    /// Removes occurrence `x` of the pair `text[l..e]`.
    pub fn remove(&mut self, text: &Vec<char>, l: usize, e: usize, x: Pos)
        requires
            old(self).wf(),
            l <= e <= text@.len(),
            old(self)@.contains_key(text@.subrange(l as int, e as int)),
            old(self)@[text@.subrange(l as int, e as int)].contains(x),
        ensures
            final(self).wf(),
            final(self)@ == without(old(self)@, text@.subrange(l as int, e as int), x),
    {
        let ghost p = text@.subrange(l as int, e as int);
        let ghost pre = *self;
        let k = match self.find(text, l, e) {
            Some(k) => k,
            None => {
                return ;
            },
        };
        assert(self.occ[k as int]@.to_set().contains(x));
        let mut j: usize = 0;
        while j < self.occ[k].len() && (self.occ[k][j].0 != x.0 || self.occ[k][j].1 != x.1)
            invariant
                *self == pre,
                self.wf(),
                k < self.occ.len(),
                self.occ[k as int]@.contains(x),
                j <= self.occ[k as int]@.len(),
                forall|i: int| 0 <= i < j ==> self.occ[k as int]@[i] != x,
            decreases self.occ[k as int]@.len() - j,
        {
            j = j + 1;
        }
        if j >= self.occ[k].len() {
            return ;
        }
        proof {
            lemma_swap_remove_set(self.occ[k as int]@, j as int);
        }
        self.occ[k].swap_remove(j);
        assert(self.keys == pre.keys);
        if self.occ[k].len() == 0 {
            let ghost mid = *self;
            proof {
                assert(self.occ[k as int]@.to_set() =~= Set::<Pos>::empty());
                assert(pre.model@[p].remove(x) =~= Set::<Pos>::empty());
            }
            let last = self.keys.len() - 1;
            self.keys.swap_remove(k);
            self.occ.swap_remove(k);
            self.model = Ghost(pre.model@.remove(p));
            proof {
                let n = last as int;
                let ki = k as int;
                assert forall|i: int| 0 <= i < self.keys.len() implies {
                    &&& self.keys[i] == pre.keys[if i == ki { n } else { i }]
                    &&& self.occ[i] == pre.occ[if i == ki { n } else { i }]
                    &&& (if i == ki { n } else { i }) != ki
                } by {
                    let o = if i == ki { n } else { i };
                    assert(self.occ[i] == mid.occ[o]);
                }
                assert forall|i: int| 0 <= i < self.keys.len() implies {
                    &&& self.model@.contains_key(#[trigger] self.keys[i]@)
                    &&& self.model@[self.keys[i]@] == self.occ[i]@.to_set()
                } by {
                    let o = if i == ki { n } else { i };
                    assert(pre.model@.contains_key(pre.keys[o]@));
                    assert(pre.keys[o]@ != p);
                }
                assert forall|i: int| 0 <= i < self.occ.len() implies #[trigger] self.occ[
                    i
                ]@.no_duplicates() by {
                    let o = if i == ki { n } else { i };
                    assert(pre.occ[o]@.no_duplicates());
                }
                assert forall|i: int| 0 <= i < self.occ.len() implies #[trigger] self.occ[
                    i
                ]@.len() > 0 by {
                    let o = if i == ki { n } else { i };
                    assert(pre.occ[o]@.len() > 0);
                }
                assert forall|a: int, b: int|
                    0 <= a < self.keys.len() && 0 <= b < self.keys.len() && a != b implies self.keys[a]@
                    != self.keys[b]@ by {
                    let oa = if a == ki { n } else { a };
                    let ob = if b == ki { n } else { b };
                    assert(self.keys[a] == pre.keys[oa]);
                    assert(self.keys[b] == pre.keys[ob]);
                }
                assert forall|q: Seq<char>| #[trigger] self.model@.contains_key(q) implies exists|
                    i: int,
                | 0 <= i < self.keys.len() && self.keys[i]@ == q by {
                    assert(pre.model@.contains_key(q));
                    let o = choose|o: int| 0 <= o < pre.keys.len() && pre.keys[o]@ == q;
                    assert(o != ki);
                    let i = if o == n { ki } else { o };
                    assert(self.keys[i] == pre.keys[o]);
                }
            }
        } else {
            proof {
                assert(self.occ[k as int]@.len() > 0);
                assert(self.occ[k as int]@.contains(self.occ[k as int]@[0]));
                assert(self.occ[k as int]@.to_set().contains(self.occ[k as int]@[0]));
                assert(pre.model@[p].remove(x) != Set::<Pos>::empty());
            }
            self.model = Ghost(self.model@.insert(p, pre.model@[p].remove(x)));
            proof {
                assert forall|i: int| 0 <= i < self.keys.len() implies {
                    &&& self.model@.contains_key(#[trigger] self.keys[i]@)
                    &&& self.model@[self.keys[i]@] == self.occ[i]@.to_set()
                } by {
                    assert(pre.model@.contains_key(pre.keys[i]@));
                    if i != k {
                        assert(self.occ[i] == pre.occ[i]);
                        assert(pre.keys[i]@ != p);
                    }
                }
                assert forall|i: int| 0 <= i < self.occ.len() implies #[trigger] self.occ[
                    i
                ]@.no_duplicates() by {
                    assert(pre.occ[i]@.no_duplicates());
                }
                assert forall|q: Seq<char>| #[trigger] self.model@.contains_key(q) implies exists|
                    i: int,
                | 0 <= i < self.keys.len() && self.keys[i]@ == q by {
                    assert(self.keys == pre.keys);
                    if q != p {
                        assert(pre.model@.contains_key(q));
                        let i = choose|i: int| 0 <= i < pre.keys.len() && pre.keys[i]@ == q;
                        assert(self.keys[i]@ == q);
                    } else {
                        assert(self.keys[k as int]@ == q);
                    }
                }
            }
            proof {
                assert forall|i: int| 0 <= i < self.occ.len() implies #[trigger] self.occ[
                    i
                ]@.len() > 0 by {
                    assert(pre.occ[i]@.len() > 0);
                }
            }
        }
    }

    proof fn lemma_slot_len(&self, k: int)
        requires
            self.wf(),
            0 <= k < self.keys.len(),
        ensures
            self@.contains_key(self.keys[k]@),
            self@[self.keys[k]@].len() == self.occ[k]@.len(),
            self@[self.keys[k]@] == self.occ[k]@.to_set(),
    {
        assert(self.occ[k]@.no_duplicates());
        self.occ[k]@.unique_seq_to_set();
    }

    /// The pair to merge next: among the valid pairs that occur, the one with
    /// the most occurrences, ties going to the lexicographically greatest.
    /// Returns its characters and its positions.
    pub fn best(&self) -> (r: Option<(Vec<char>, Vec<Pos>)>)
        requires
            self.wf(),
        ensures
            match r {
                Some((p, ps)) => {
                    &&& self@.contains_key(p@)
                    &&& valid_piece(p@)
                    &&& self@[p@].len() > 0
                    &&& ps@.no_duplicates()
                    &&& ps@.to_set() == self@[p@]
                    &&& forall|q: Seq<char>|
                        #[trigger] self@.contains_key(q) && valid_piece(q) && self@[q].len() > 0
                            ==> !ranks_above(self@[q].len(), q, self@[p@].len(), p@)
                },
                None => forall|q: Seq<char>|
                    #[trigger] self@.contains_key(q) && valid_piece(q) ==> self@[q].len() == 0,
            },
    {
        let mut found = false;
        let mut bi: usize = 0;
        let mut k: usize = 0;
        while k < self.keys.len()
            invariant
                self.wf(),
                k <= self.keys.len(),
                found ==> bi < k && valid_piece(self.keys[bi as int]@) && self.occ[bi as int]@.len()
                    > 0,
                forall|j: int|
                    0 <= j < k && valid_piece(#[trigger] self.keys[j]@) && self.occ[j]@.len() > 0
                        ==> found && !ranks_above(
                        self.occ[j]@.len(),
                        self.keys[j]@,
                        self.occ[bi as int]@.len(),
                        self.keys[bi as int]@,
                    ),
            decreases self.keys.len() - k,
        {
            let cnt = self.occ[k].len();
            if cnt > 0 && is_valid_piece(self.keys[k].as_slice()) {
                let better = if !found {
                    true
                } else {
                    let bc = self.occ[bi].len();
                    cnt > bc || (cnt == bc && lex_less(
                        self.keys[bi].as_slice(),
                        self.keys[k].as_slice(),
                    ))
                };
                if better {
                    proof {
                        let nk = k as int;
                        lemma_lex_lt_irreflexive(self.keys[nk]@);
                        assert forall|j: int|
                            0 <= j < k + 1 && valid_piece(#[trigger] self.keys[j]@)
                                && self.occ[j]@.len() > 0 implies !ranks_above(
                            self.occ[j]@.len(),
                            self.keys[j]@,
                            self.occ[nk]@.len(),
                            self.keys[nk]@,
                        ) by {
                            if j < nk && found {
                                if ranks_above(
                                    self.occ[j]@.len(),
                                    self.keys[j]@,
                                    self.occ[nk]@.len(),
                                    self.keys[nk]@,
                                ) {
                                    lemma_ranks_above_transitive(
                                        self.occ[j]@.len(),
                                        self.keys[j]@,
                                        self.occ[nk]@.len(),
                                        self.keys[nk]@,
                                        self.occ[bi as int]@.len(),
                                        self.keys[bi as int]@,
                                    );
                                }
                            }
                        }
                    }
                    bi = k;
                    found = true;
                }
            }
            k = k + 1;
        }
        proof {
            assert forall|q: Seq<char>| #[trigger]
                self@.contains_key(q) && valid_piece(q) && self@[q].len() > 0 implies found
                && !ranks_above(
                self@[q].len(),
                q,
                self@[self.keys[bi as int]@].len(),
                self.keys[bi as int]@,
            ) by {
                let j = choose|j: int| 0 <= j < self.keys.len() && self.keys[j]@ == q;
                self.lemma_slot_len(j);
                if found {
                    self.lemma_slot_len(bi as int);
                }
            }
        }
        if !found {
            return None;
        }
        proof {
            self.lemma_slot_len(bi as int);
        }
        let p = self.keys[bi].clone();
        let ps = copy_positions(&self.occ[bi]);
        assert(p@ =~= self.keys[bi as int]@);
        Some((p, ps))
    }
}

} // verus!
