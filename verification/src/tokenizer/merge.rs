//! Ranked pair merging.
use vstd::hash_map::StringHashMap;
use vstd::prelude::*;

use crate::text;

verus! {

/// Ranks of the pairs that merge: for every left part its right parts.
pub struct MergeRanks {
    pub heads: StringHashMap<usize>,
    pub tails: Vec<StringHashMap<u32>>,
}

impl MergeRanks {
    pub open spec fn wf(&self) -> bool {
        &&& forall|a: Seq<char>| #[trigger]
            self.heads@.contains_key(a) ==> self.heads@[a] < self.tails@.len()
        &&& forall|a: Seq<char>, b: Seq<char>|
            self.heads@.contains_key(a) && self.heads@.contains_key(b) && a != b
                ==> #[trigger] self.heads@[a] != #[trigger] self.heads@[b]
    }

    /// The rank of a pair, if it merges.
    pub open spec fn rank(&self, a: Seq<char>, b: Seq<char>) -> Option<u32> {
        if self.heads@.contains_key(a) && self.tails@[self.heads@[a] as int]@.contains_key(b) {
            Some(self.tails@[self.heads@[a] as int]@[b])
        } else {
            None
        }
    }

    pub fn new() -> (r: Self)
        ensures
            r.wf(),
            forall|a: Seq<char>, b: Seq<char>| #[trigger] r.rank(a, b) is None,
    {
        MergeRanks { heads: StringHashMap::new(), tails: Vec::new() }
    }

    /// Give a pair its rank; a later rank replaces an earlier one.
    pub fn insert(&mut self, a: String, b: String, rank: u32)
        requires
            old(self).wf(),
        ensures
            final(self).wf(),
            forall|x: Seq<char>, y: Seq<char>| #[trigger]
                final(self).rank(x, y) == (if x == a@ && y == b@ {
                    Some(rank)
                } else {
                    old(self).rank(x, y)
                }),
    {
        let at: usize = match self.heads.get(a.as_str()) {
            Some(i) => *i,
            None => {
                let n: usize = self.tails.len();
                let ghost before = *self;
                self.tails.push(StringHashMap::new());
                self.heads.insert(a.clone(), n);
                assert(self.wf());
                assert forall|x: Seq<char>, y: Seq<char>| #[trigger]
                    self.rank(x, y) == before.rank(x, y) by {
                    if before.heads@.contains_key(x) {
                        assert(x != a@);
                        assert(self.tails@[before.heads@[x] as int]
                            == before.tails@[before.heads@[x] as int]);
                    }
                }
                n
            },
        };
        let ghost mid = *self;
        assert(mid.heads@.contains_key(a@) && mid.heads@[a@] == at);
        self.tails[at].insert(b, rank);
        assert forall|x: Seq<char>, y: Seq<char>| #[trigger]
            self.rank(x, y) == (if x == a@ && y == b@ {
                Some(rank)
            } else {
                mid.rank(x, y)
            }) by {
            if mid.heads@.contains_key(x) && x != a@ {
                assert(mid.heads@[x] != mid.heads@[a@]);
            }
        }
    }

    pub fn get(&self, a: &str, b: &str) -> (r: Option<u32>)
        requires
            self.wf(),
        ensures
            r == self.rank(a@, b@),
    {
        match self.heads.get(a) {
            None => None,
            Some(i) => match self.tails[*i].get(b) {
                None => None,
                Some(r) => Some(*r),
            },
        }
    }
}

/// Texts as sequences of characters.
pub open spec fn texts(v: Seq<String>) -> Seq<Seq<char>> {
    Seq::new(v.len(), |i: int| v[i]@)
}

/// All parts, one after the other.
pub open spec fn flat(parts: Seq<Seq<char>>) -> Seq<char>
    decreases parts.len(),
{
    if parts.len() == 0 {
        Seq::empty()
    } else {
        flat(parts.drop_last()) + parts.last()
    }
}

/// The leftmost of the adjacent pairs before `n` with the lowest rank.
pub open spec fn lowest(m: &MergeRanks, parts: Seq<Seq<char>>, n: int) -> Option<(int, u32)>
    decreases n,
{
    if n <= 0 {
        None
    } else {
        let b = lowest(m, parts, n - 1);
        match m.rank(parts[n - 1], parts[n]) {
            None => b,
            Some(r) => if b is Some && (b->0).1 <= r {
                b
            } else {
                Some((n - 1, r))
            },
        }
    }
}

/// Parts `i` and `i + 1` made one.
pub open spec fn fused(parts: Seq<Seq<char>>, i: int) -> Seq<Seq<char>> {
    parts.take(i) + seq![parts[i] + parts[i + 1]] + parts.skip(i + 2)
}

pub proof fn lemma_lowest(m: &MergeRanks, parts: Seq<Seq<char>>, n: int)
    ensures
        lowest(m, parts, n) matches Some(b) ==> 0 <= b.0 < n && m.rank(
            parts[b.0],
            parts[b.0 + 1],
        ) == Some(b.1),
    decreases n,
{
    if n > 0 {
        lemma_lowest(m, parts, n - 1);
    }
}

/// The pair that merges ranks at least as low as any, and lower than any to
/// its left.
pub proof fn law_lowest_rank_merges_first(m: &MergeRanks, parts: Seq<Seq<char>>, n: int, i: int)
    requires
        0 <= i < n,
        m.rank(parts[i], parts[i + 1]) is Some,
    ensures
        lowest(m, parts, n) is Some,
        (lowest(m, parts, n)->0).1 <= m.rank(parts[i], parts[i + 1])->0,
        i < (lowest(m, parts, n)->0).0 ==> (lowest(m, parts, n)->0).1 < m.rank(
            parts[i],
            parts[i + 1],
        )->0,
    decreases n,
{
    lemma_lowest(m, parts, n);
    lemma_lowest(m, parts, n - 1);
    if i < n - 1 {
        law_lowest_rank_merges_first(m, parts, n - 1, i);
    }
}

/// The parts after all merges.
pub open spec fn merged(m: &MergeRanks, parts: Seq<Seq<char>>) -> Seq<Seq<char>>
    decreases parts.len(),
{
    if parts.len() <= 1 {
        parts
    } else {
        match lowest(m, parts, parts.len() - 1) {
            None => parts,
            Some((i, _)) => if 0 <= i < parts.len() - 1 {
                merged(m, fused(parts, i))
            } else {
                parts
            },
        }
    }
}

/// The characters of a text, each a part.
pub open spec fn singles(s: Seq<char>) -> Seq<Seq<char>> {
    Seq::new(s.len(), |i: int| seq![s[i]])
}

pub proof fn lemma_flat_concat(a: Seq<Seq<char>>, b: Seq<Seq<char>>)
    ensures
        flat(a + b) == flat(a) + flat(b),
    decreases b.len(),
{
    if b.len() == 0 {
        assert(a + b =~= a);
        assert(flat(a) + flat(b) =~= flat(a));
    } else {
        assert((a + b).drop_last() =~= a + b.drop_last());
        lemma_flat_concat(a, b.drop_last());
        assert(flat(a) + flat(b.drop_last()) + b.last() =~= flat(a) + flat(b));
    }
}

proof fn lemma_flat_fused(parts: Seq<Seq<char>>, i: int)
    requires
        0 <= i < parts.len() - 1,
    ensures
        flat(fused(parts, i)) == flat(parts),
{
    let a = parts.take(i);
    let one = seq![parts[i] + parts[i + 1]];
    let two = seq![parts[i], parts[i + 1]];
    let c = parts.skip(i + 2);
    assert(parts =~= a + two + c);
    lemma_flat_concat(a, one);
    lemma_flat_concat(a + one, c);
    lemma_flat_concat(a, two);
    lemma_flat_concat(a + two, c);
    reveal_with_fuel(flat, 3);
    assert(one.drop_last() =~= Seq::<Seq<char>>::empty());
    assert(two.drop_last() =~= seq![parts[i]]);
    assert(two.drop_last().drop_last() =~= Seq::<Seq<char>>::empty());
    assert(flat(one) =~= flat(two));
}

/// Merging loses and adds no character.
pub proof fn law_merging_keeps_the_text(m: &MergeRanks, parts: Seq<Seq<char>>)
    ensures
        flat(merged(m, parts)) == flat(parts),
    decreases parts.len(),
{
    if parts.len() > 1 {
        match lowest(m, parts, parts.len() - 1) {
            None => {},
            Some((i, _)) => {
                if 0 <= i < parts.len() - 1 {
                    lemma_flat_fused(parts, i);
                    law_merging_keeps_the_text(m, fused(parts, i));
                }
            },
        }
    }
}

/// After all merges no two neighbours merge.
pub proof fn law_merging_is_complete(m: &MergeRanks, parts: Seq<Seq<char>>, i: int)
    requires
        0 <= i < merged(m, parts).len() - 1,
    ensures
        m.rank(merged(m, parts)[i], merged(m, parts)[i + 1]) is None,
    decreases parts.len(),
{
    if parts.len() > 1 {
        lemma_lowest(m, parts, parts.len() - 1);
        match lowest(m, parts, parts.len() - 1) {
            None => {
                if m.rank(parts[i], parts[i + 1]) is Some {
                    law_lowest_rank_merges_first(m, parts, parts.len() - 1, i);
                }
            },
            Some((k, _)) => {
                law_merging_is_complete(m, fused(parts, k), i);
            },
        }
    }
}

pub proof fn lemma_flat_singles(s: Seq<char>)
    ensures
        flat(singles(s)) == s,
    decreases s.len(),
{
    if s.len() > 0 {
        assert(singles(s).drop_last() =~= singles(s.drop_last()));
        lemma_flat_singles(s.drop_last());
        assert(s.drop_last() + seq![s.last()] =~= s);
    } else {
        assert(s =~= Seq::<char>::empty());
    }
}

/// The parts of a text after all merges.
pub fn merge_all(m: &MergeRanks, piece: &Vec<char>) -> (r: Vec<String>)
    requires
        m.wf(),
    ensures
        texts(r@) == merged(m, singles(piece@)),
{
    let mut parts: Vec<String> = Vec::new();
    let mut i: usize = 0;
    while i < piece.len()
        invariant
            i <= piece@.len(),
            parts@.len() == i,
            texts(parts@) =~= singles(piece@).take(i as int),
        decreases piece@.len() - i,
    {
        let mut s: String = String::new();
        text::push_char(&mut s, piece[i]);
        let ghost one = seq![piece@[i as int]];
        assert(s@ =~= one);
        let ghost before = texts(parts@);
        parts.push(s);
        assert forall|k: int| 0 <= k < i + 1 implies #[trigger] texts(parts@)[k] == singles(
            piece@,
        ).take(i + 1)[k] by {
            if k < i {
                assert(before[k] == singles(piece@).take(i as int)[k]);
                assert(parts@[k]@ == before[k]);
            } else {
                assert(parts@[k]@ == one);
                assert(singles(piece@)[k] == one);
            }
        }
        i = i + 1;
    }
    assert(texts(parts@) =~= singles(piece@));
    let ghost want = merged(m, singles(piece@));
    while parts.len() > 1
        invariant
            m.wf(),
            want == merged(m, texts(parts@)),
            want == merged(m, singles(piece@)),
        decreases parts@.len(),
    {
        let n: usize = parts.len() - 1;
        let ghost ps = texts(parts@);
        let mut best: Option<(usize, u32)> = None;
        let mut k: usize = 0;
        while k < n
            invariant
                m.wf(),
                k <= n,
                n == parts@.len() - 1,
                ps == texts(parts@),
                match best {
                    None => lowest(m, ps, k as int) is None,
                    Some(b) => lowest(m, ps, k as int) == Some((b.0 as int, b.1)) && b.0 < k,
                },
            decreases n - k,
        {
            assert(ps[k as int] == parts@[k as int]@);
            assert(ps[k + 1] == parts@[k + 1]@);
            match m.get(parts[k].as_str(), parts[k + 1].as_str()) {
                None => {},
                Some(r) => {
                    let lower: bool = match best {
                        None => true,
                        Some((_, b)) => r < b,
                    };
                    if lower {
                        best = Some((k, r));
                    }
                },
            }
            k = k + 1;
        }
        match best {
            None => {
                return parts;
            },
            Some((i, _)) => {
                let s: String = text::join(parts[i].as_str(), parts[i + 1].as_str());
                parts.set(i, s);
                let _ = parts.remove(i + 1);
                assert(texts(parts@) =~= fused(ps, i as int));
            },
        }
    }
    parts
}

} // verus!
