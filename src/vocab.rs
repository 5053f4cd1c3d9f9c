use vstd::prelude::*;
use std::collections::HashSet;
use vstd::string::StringExecFns;

verus! {

/// Kind of a vocabulary entry, as in the SentencePiece model schema.
#[derive(Debug, Clone, Copy, PartialEq, Eq, Structural)]
pub enum PieceType {
    Normal,
    Unknown,
    Control,
}

/// One vocabulary entry. Its score is `-rank`: learned pieces are ranked in
/// the order they were found, every other entry has rank 0.
#[derive(Debug)]
pub struct VocabEntry {
    pub piece: String,
    pub rank: usize,
    pub kind: PieceType,
}

impl VocabEntry {
    /// The entry's score.
    pub fn score(&self) -> (r: i128)
        ensures
            r == -(self.rank as int),
    {
        0 - (self.rank as i128)
    }
}

/// The vocabulary in its three strata: reserved symbols, the characters of
/// the corpus, and the learned pieces in the order they were found.
pub struct Pieces {
    pub predefined: Vec<VocabEntry>,
    pub chars: Vec<VocabEntry>,
    pub pieces: Vec<VocabEntry>,
}

/// Character `c` occurs somewhere in the corpus.
pub open spec fn corpus_has(sentences: Seq<Vec<char>>, c: char) -> bool {
    exists|sid: int, i: int|
        0 <= sid < sentences.len() && 0 <= i < sentences[sid]@.len() && sentences[sid]@[i] == c
}

/// The distinct characters of the corpus.
pub open spec fn alphabet(sentences: Seq<Vec<char>>) -> Set<char> {
    Set::new(|c: char| corpus_has(sentences, c))
}

/// `e` is the entry for the reserved symbol `s` of kind `kind`.
pub open spec fn reserved(e: VocabEntry, s: Seq<char>, kind: PieceType) -> bool {
    e.piece@ == s && e.rank == 0 && e.kind == kind
}

/// `v` holds one `Normal` entry of rank 0 for each distinct character of the
/// corpus, and nothing else.
pub open spec fn char_entries(v: Seq<VocabEntry>, sentences: Seq<Vec<char>>) -> bool {
    &&& forall|k: int|
        0 <= k < v.len() ==> {
            &&& (#[trigger] v[k]).piece@.len() == 1
            &&& v[k].rank == 0
            &&& v[k].kind == PieceType::Normal
            &&& corpus_has(sentences, v[k].piece@[0])
        }
    &&& forall|a: int, b: int| 0 <= a < b < v.len() ==> v[a].piece@ != v[b].piece@
    &&& forall|c: char|
        #[trigger] corpus_has(sentences, c) ==> exists|k: int|
            0 <= k < v.len() && v[k].piece@ == seq![c]
}

/// Relies on `char::to_string`: the one-character string.
#[verifier::external_body]
fn char_to_string(c: char) -> (r: String)
    ensures
        r@ == seq![c],
{
    c.to_string()
}

/// Relies on `String`'s `FromIterator<char>`: the characters in order.
#[verifier::external_body]
pub(crate) fn chars_to_string(v: &Vec<char>) -> (r: String)
    ensures
        r@ == v@,
{
    v.iter().collect()
}

impl Pieces {
    /// The reserved symbols come first.
    pub open spec fn predefined_ok(&self) -> bool {
        &&& self.predefined@.len() == 3
        &&& reserved(self.predefined@[0], "<unk>"@, PieceType::Unknown)
        &&& reserved(self.predefined@[1], "<s>"@, PieceType::Control)
        &&& reserved(self.predefined@[2], "</s>"@, PieceType::Control)
    }

    /// Learned piece `k` has rank `k` and kind `Normal`.
    pub open spec fn pieces_ranked(&self) -> bool {
        forall|k: int|
            0 <= k < self.pieces@.len() ==> (#[trigger] self.pieces@[k]).rank == k
                && self.pieces@[k].kind == PieceType::Normal
    }

    pub open spec fn size(&self) -> int {
        (self.predefined@.len() + self.chars@.len() + self.pieces@.len()) as int
    }

    pub open spec fn wf(&self) -> bool {
        &&& self.predefined_ok()
        &&& self.pieces_ranked()
        &&& self.size() <= usize::MAX
    }

    /// All entries in output order: reserved symbols, learned pieces, then
    /// characters.
    pub open spec fn entries(&self) -> Seq<VocabEntry> {
        self.predefined@ + self.pieces@ + self.chars@
    }

    /// The reserved symbols `<unk>`, `<s>` and `</s>`.
    pub fn get_predefined_pieces() -> (r: Vec<VocabEntry>)
        ensures
            r@.len() == 3,
            reserved(r@[0], "<unk>"@, PieceType::Unknown),
            reserved(r@[1], "<s>"@, PieceType::Control),
            reserved(r@[2], "</s>"@, PieceType::Control),
    {
        let mut ret: Vec<VocabEntry> = Vec::new();
        ret.push(VocabEntry { piece: String::from_str("<unk>"), rank: 0, kind: PieceType::Unknown });
        ret.push(VocabEntry { piece: String::from_str("<s>"), rank: 0, kind: PieceType::Control });
        ret.push(VocabEntry { piece: String::from_str("</s>"), rank: 0, kind: PieceType::Control });
        ret
    }

    /// One entry per distinct character of the corpus, in order of first
    /// appearance.
    pub fn init_pieces(sentences: &Vec<Vec<char>>) -> (r: Vec<VocabEntry>)
        ensures
            char_entries(r@, sentences@),
            r@.len() == alphabet(sentences@).len(),
            r@.len() <= 0x110000,
    {
        broadcast use vstd::std_specs::hash::group_hash_axioms;

        let mut seen: Vec<char> = Vec::new();
        let mut codes: HashSet<u32> = HashSet::new();
        let mut ret: Vec<VocabEntry> = Vec::new();
        let mut sid: usize = 0;
        while sid < sentences.len()
            invariant
                sid <= sentences@.len(),
                seen@.len() == ret@.len(),
                seen@.no_duplicates(),
                forall|y: char| #[trigger] seen@.contains(y) == codes@.contains(y as u32),
                forall|k: int|
                    0 <= k < ret@.len() ==> {
                        &&& (#[trigger] ret@[k]).piece@ == seq![seen@[k]]
                        &&& ret@[k].rank == 0
                        &&& ret@[k].kind == PieceType::Normal
                        &&& corpus_has(sentences@, seen@[k])
                    },
                forall|s: int, i: int|
                    0 <= s < sid && 0 <= i < sentences@[s]@.len() ==> seen@.contains(
                        #[trigger] sentences@[s]@[i],
                    ),
            decreases sentences@.len() - sid,
        {
            let line = &sentences[sid];
            let mut i: usize = 0;
            while i < line.len()
                invariant
                    sid < sentences@.len(),
                    line == &sentences@[sid as int],
                    i <= line@.len(),
                    seen@.len() == ret@.len(),
                    seen@.no_duplicates(),
                    forall|y: char| #[trigger] seen@.contains(y) == codes@.contains(y as u32),
                    forall|k: int|
                        0 <= k < ret@.len() ==> {
                            &&& (#[trigger] ret@[k]).piece@ == seq![seen@[k]]
                            &&& ret@[k].rank == 0
                            &&& ret@[k].kind == PieceType::Normal
                            &&& corpus_has(sentences@, seen@[k])
                        },
                    forall|s: int, j: int|
                        (0 <= s < sid && 0 <= j < sentences@[s]@.len()) || (s == sid && 0 <= j < i)
                            ==> seen@.contains(#[trigger] sentences@[s]@[j]),
                decreases line@.len() - i,
            {
                let c = line[i];
                let ghost old_seen = seen@;
                let ghost old_codes = codes@;
                assert(seen@.contains(c) == codes@.contains(c as u32));
                let fresh = codes.insert(c as u32);
                if fresh {
                    proof {
                        assert(corpus_has(sentences@, c)) by {
                            assert(sentences@[sid as int]@[i as int] == c);
                        }
                        assert(!seen@.contains(c));
                    }
                    seen.push(c);
                    ret.push(VocabEntry { piece: char_to_string(c), rank: 0, kind: PieceType::Normal });
                    proof {
                        assert(seen@.last() == c);
                        assert forall|y: char| old_seen.contains(y) implies seen@.contains(y) by {
                            let m = choose|m: int| 0 <= m < old_seen.len() && old_seen[m] == y;
                            assert(seen@[m] == y);
                        }
                    }
                }
                proof {
                    assert forall|y: char| #[trigger] seen@.contains(y) == codes@.contains(y as u32) by {
                        if y as u32 == c as u32 {
                            vstd::utf8::char_u32_cast(y, y as u32);
                            vstd::utf8::char_u32_cast(c, c as u32);
                        }
                        assert(old_codes.contains(y as u32) == old_seen.contains(y)) by {
                            assert(old_codes == codes@.remove(c as u32) || old_codes == codes@);
                        }
                    }
                }
                i = i + 1;
            }
            sid = sid + 1;
        }
        proof {
            lemma_distinct_chars_bound(seen@);
            assert(seen@.to_set() =~= alphabet(sentences@)) by {
                assert forall|c: char| alphabet(sentences@).contains(c) implies seen@.to_set().contains(c) by {
                    let (s, i) = choose|s: int, i: int|
                        0 <= s < sentences@.len() && 0 <= i < sentences@[s]@.len()
                            && sentences@[s]@[i] == c;
                    assert(seen@.contains(sentences@[s]@[i]));
                }
                assert forall|c: char| seen@.to_set().contains(c) implies alphabet(sentences@).contains(c) by {
                    let k = choose|k: int| 0 <= k < seen@.len() && seen@[k] == c;
                    assert(ret@[k].piece@ == seq![seen@[k]]);
                }
            }
            seen@.unique_seq_to_set();
            assert forall|c: char| #[trigger] corpus_has(sentences@, c) implies exists|k: int|
                0 <= k < ret@.len() && ret@[k].piece@ == seq![c] by {
                let (s, i) = choose|s: int, i: int|
                    0 <= s < sentences@.len() && 0 <= i < sentences@[s]@.len() && sentences@[s]@[i]
                        == c;
                assert(seen@.contains(sentences@[s]@[i]));
                let k = choose|k: int| 0 <= k < seen@.len() && seen@[k] == c;
                assert(ret@[k].piece@ == seq![c]);
            }
            assert forall|a: int, b: int| 0 <= a < b < ret@.len() implies ret@[a].piece@
                != ret@[b].piece@ by {
                assert(ret@[a].piece@[0] == seen@[a]);
                assert(ret@[b].piece@[0] == seen@[b]);
            }
        }
        ret
    }

    /// The vocabulary before any piece is learned.
    pub fn new(sentences: &Vec<Vec<char>>) -> (r: Pieces)
        ensures
            r.wf(),
            char_entries(r.chars@, sentences@),
            r.chars@.len() == alphabet(sentences@).len(),
            r.size() == 3 + alphabet(sentences@).len(),
            r.pieces@.len() == 0,
    {
        Pieces {
            predefined: Self::get_predefined_pieces(),
            chars: Self::init_pieces(sentences),
            pieces: Vec::new(),
        }
    }

    /// Number of entries.
    pub fn len(&self) -> (r: usize)
        requires
            self.size() <= usize::MAX,
        ensures
            r == self.size(),
    {
        self.predefined.len() + self.chars.len() + self.pieces.len()
    }

    /// Appends a learned piece, ranked after those found before it.
    pub fn add_piece(&mut self, piece: String)
        requires
            old(self).wf(),
            old(self).size() < usize::MAX,
        ensures
            final(self).wf(),
            final(self).predefined == old(self).predefined,
            final(self).chars == old(self).chars,
            final(self).pieces@ == old(self).pieces@.push(
                VocabEntry { piece, rank: old(self).pieces@.len() as usize, kind: PieceType::Normal },
            ),
    {
        let rank = self.pieces.len();
        self.pieces.push(VocabEntry { piece, rank, kind: PieceType::Normal });
    }

    /// All entries in output order, borrowed.
    pub fn iter(&self) -> (r: Vec<&VocabEntry>)
        ensures
            r@.len() == self.entries().len(),
            forall|k: int| 0 <= k < r@.len() ==> *(#[trigger] r@[k]) == self.entries()[k],
    {
        let mut r: Vec<&VocabEntry> = Vec::new();
        let mut i: usize = 0;
        while i < self.predefined.len()
            invariant
                i <= self.predefined@.len(),
                r@.len() == i,
                forall|k: int| 0 <= k < i ==> *(#[trigger] r@[k]) == self.predefined@[k],
            decreases self.predefined@.len() - i,
        {
            r.push(&self.predefined[i]);
            i = i + 1;
        }
        let mut i: usize = 0;
        while i < self.pieces.len()
            invariant
                i <= self.pieces@.len(),
                r@.len() == self.predefined@.len() + i,
                forall|k: int|
                    0 <= k < r@.len() ==> *(#[trigger] r@[k]) == (self.predefined@
                        + self.pieces@)[k],
            decreases self.pieces@.len() - i,
        {
            r.push(&self.pieces[i]);
            i = i + 1;
        }
        let mut i: usize = 0;
        while i < self.chars.len()
            invariant
                i <= self.chars@.len(),
                r@.len() == self.predefined@.len() + self.pieces@.len() + i,
                forall|k: int| 0 <= k < r@.len() ==> *(#[trigger] r@[k]) == self.entries()[k],
            decreases self.chars@.len() - i,
        {
            r.push(&self.chars[i]);
            i = i + 1;
        }
        r
    }

    /// All entries in output order.
    pub fn to_vec(self) -> (r: Vec<VocabEntry>)
        ensures
            r@ == self.entries(),
    {
        let Pieces { mut predefined, mut pieces, mut chars } = self;
        predefined.append(&mut pieces);
        predefined.append(&mut chars);
        predefined
    }
}

/// Learned pieces have strictly decreasing scores in the order they were
/// found.
pub proof fn lemma_monotone_scores(p: &Pieces, j: int, k: int)
    requires
        p.wf(),
        0 <= j < k < p.pieces@.len(),
    ensures
        -(p.pieces@[j].rank as int) > -(p.pieces@[k].rank as int),
{
    assert(p.pieces@[j].rank == j);
    assert(p.pieces@[k].rank == k);
}

/// A sequence of distinct characters has at most as many entries as there
/// are code points.
proof fn lemma_distinct_chars_bound(s: Seq<char>)
    requires
        s.no_duplicates(),
    ensures
        s.len() <= 0x110000,
{
    let codes = s.to_set().map(|c: char| c as u32 as int);
    let range = vstd::set_lib::set_int_range(0, 0x110000);
    vstd::set_lib::lemma_int_range(0, 0x110000);
    assert forall|v: int| codes.contains(v) implies range.contains(v) by {
        let c = choose|c: char| s.to_set().contains(c) && c as u32 as int == v;
        vstd::utf8::char_is_scalar(c);
    }
    assert(codes.subset_of(range));
    assert(vstd::relations::injective_on(|c: char| c as u32 as int, s.to_set())) by {
        assert forall|a: char, b: char|
            s.to_set().contains(a) && s.to_set().contains(b) && a as u32 as int == b as u32 as int implies a
            == b by {
            vstd::utf8::char_u32_cast(a, a as u32);
            vstd::utf8::char_u32_cast(b, b as u32);
        }
    }
    s.unique_seq_to_set();
    vstd::set_lib::lemma_map_size(s.to_set(), codes, |c: char| c as u32 as int);
    vstd::set_lib::lemma_len_subset(codes, range);
}

} // verus!
