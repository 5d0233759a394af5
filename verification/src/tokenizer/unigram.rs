//! The most probable segmentation of a piece.
use vstd::prelude::*;
use vstd::utf8::encode_utf8;

use crate::ieee::Format;
use crate::num::{f32_add, f32_lt};
use crate::text;
use crate::tokenizer::pieces;
use crate::tokenizer::BpeTokenizer;
use crate::utf8;

verus! {

/// The best way to a place: its score, the place before, and the tokens from
/// there.
pub struct Way {
    pub score: int,
    pub prev: int,
    pub ids: Seq<u32>,
}

/// A way, held.
pub struct Edge {
    pub score: u32,
    pub prev: usize,
    pub ids: Vec<u32>,
}

impl View for Edge {
    type V = Way;

    open spec fn view(&self) -> Way {
        Way { score: self.score as int, prev: self.prev as int, ids: self.ids@ }
    }
}

/// The token of `p` and its score.
pub open spec fn scored(tk: &BpeTokenizer, p: Seq<char>) -> Option<(u32, int)> {
    match tk.token(p) {
        Some(id) => if id < tk.scores@.len() {
            Some((id, tk.scores@[id as int] as int))
        } else {
            None
        },
        None => None,
    }
}

/// The best way to place `k` by a token that starts before place `n`. Of
/// equals the one that starts first.
pub open spec fn by_token(tk: &BpeTokenizer, s: Seq<char>, k: int, n: int) -> Option<Way>
    decreases k, n,
{
    if n <= 0 || k < n {
        None
    } else {
        let b = by_token(tk, s, k, n - 1);
        match (way(tk, s, n - 1), scored(tk, s.subrange(n - 1, k))) {
            (Some(w), Some((id, sc))) => {
                let score = Format::F32.sum(w.score, sc);
                if k - (n - 1) > tk.max_piece_chars || (b is Some && !Format::F32.less(
                    b->0.score,
                    score,
                )) {
                    b
                } else {
                    Some(Way { score, prev: n - 1, ids: seq![id] })
                }
            },
            _ => b,
        }
    }
}

/// The best way to place `k`: by a token, else by the bytes of the character
/// before it.
pub open spec fn way(tk: &BpeTokenizer, s: Seq<char>, k: int) -> Option<Way>
    decreases k, k + 1,
{
    if k <= 0 {
        Some(Way { score: 0, prev: 0, ids: Seq::empty() })
    } else {
        match by_token(tk, s, k, k) {
            Some(w) => Some(w),
            None => match way(tk, s, k - 1) {
                Some(w) => {
                    let ids = pieces::fallback(tk, s[k - 1]);
                    if ids.len() > 0 {
                        Some(
                            Way {
                                score: Format::F32.sum(w.score, tk.byte_pen as int),
                                prev: k - 1,
                                ids,
                            },
                        )
                    } else {
                        None
                    }
                },
                None => None,
            },
        }
    }
}

/// The tokens on the best way to place `k`.
pub open spec fn trail(tk: &BpeTokenizer, s: Seq<char>, k: int) -> Seq<u32>
    decreases k,
{
    if k <= 0 {
        Seq::empty()
    } else {
        match way(tk, s, k) {
            Some(w) => if 0 <= w.prev < k {
                trail(tk, s, w.prev) + w.ids
            } else {
                Seq::empty()
            },
            None => Seq::empty(),
        }
    }
}

/// The tokens of a piece: the best way to its end, or by pair merging where
/// there is none.
pub open spec fn unigram_tokens(tk: &BpeTokenizer, s: Seq<char>) -> Seq<u32> {
    if s.len() == 0 {
        Seq::empty()
    } else if way(tk, s, s.len() as int) is Some {
        trail(tk, s, s.len() as int)
    } else {
        pieces::bpe_tokens(tk, s)
    }
}

proof fn lemma_by_token(tk: &BpeTokenizer, s: Seq<char>, k: int, n: int)
    ensures
        by_token(tk, s, k, n) matches Some(w) ==> 0 <= w.prev < n && w.prev < k && way(
            tk,
            s,
            w.prev,
        ) is Some,
        k - tk.max_piece_chars >= n ==> by_token(tk, s, k, n) is None,
    decreases n,
{
    if n > 0 && k >= n {
        lemma_by_token(tk, s, k, n - 1);
    }
}

pub proof fn lemma_way(tk: &BpeTokenizer, s: Seq<char>, k: int)
    ensures
        0 < k && way(tk, s, k) is Some ==> 0 <= way(tk, s, k)->0.prev < k && way(
            tk,
            s,
            way(tk, s, k)->0.prev,
        ) is Some,
{
    if k > 0 {
        lemma_by_token(tk, s, k, k);
    }
}

/// The score of reaching place `k` by the token from place `i`.
pub open spec fn candidate(tk: &BpeTokenizer, s: Seq<char>, k: int, i: int) -> Option<int> {
    match (way(tk, s, i), scored(tk, s.subrange(i, k))) {
        (Some(w), Some((_, sc))) => if k - i <= tk.max_piece_chars {
            Some(Format::F32.sum(w.score, sc))
        } else {
            None
        },
        _ => None,
    }
}

/// Where every candidate's score is a number, none exceeds the way taken.
pub proof fn law_way_scores_best(tk: &BpeTokenizer, s: Seq<char>, k: int, n: int)
    requires
        n <= k,
        forall|i: int|
            0 <= i < n ==> (#[trigger] candidate(tk, s, k, i) matches Some(c)
                ==> !Format::F32.is_nan(c)),
    ensures
        by_token(tk, s, k, n) matches Some(w) ==> !Format::F32.is_nan(w.score),
        forall|i: int|
            0 <= i < n ==> (#[trigger] candidate(tk, s, k, i) matches Some(c) ==> by_token(
                tk,
                s,
                k,
                n,
            ) is Some && !Format::F32.less(by_token(tk, s, k, n)->0.score, c)),
    decreases n,
{
    if n > 0 {
        law_way_scores_best(tk, s, k, n - 1);
        let last = candidate(tk, s, k, n - 1);
        assert forall|i: int| 0 <= i < n implies (#[trigger] candidate(tk, s, k, i) matches Some(c)
            ==> by_token(tk, s, k, n) is Some && !Format::F32.less(
            by_token(tk, s, k, n)->0.score,
            c,
        )) by {
            if i < n - 1 && candidate(tk, s, k, i) is Some {
                assert(by_token(tk, s, k, n - 1) is Some);
            }
        }
    }
}

/// Where every byte has a token, every piece is encodable: there is a way to
/// each of its places, and its tokens are those on the way to its end.
pub proof fn law_every_piece_is_encodable(tk: &BpeTokenizer, s: Seq<char>)
    requires
        tk.byte_ids@.len() == 256,
        forall|b: int| 0 <= b < 256 ==> #[trigger] tk.byte_ids@[b] is Some,
    ensures
        forall|k: int| 0 <= k <= s.len() ==> #[trigger] way(tk, s, k) is Some,
        unigram_tokens(tk, s) == trail(tk, s, s.len() as int),
{
    assert forall|k: int| 0 <= k <= s.len() implies #[trigger] way(tk, s, k) is Some by {
        lemma_has_a_way(tk, s, k);
    }
    assert(way(tk, s, s.len() as int) is Some);
}

proof fn lemma_has_a_way(tk: &BpeTokenizer, s: Seq<char>, k: int)
    requires
        tk.byte_ids@.len() == 256,
        forall|b: int| 0 <= b < 256 ==> #[trigger] tk.byte_ids@[b] is Some,
        0 <= k <= s.len(),
    ensures
        way(tk, s, k) is Some,
    decreases k,
{
    if k > 0 {
        lemma_has_a_way(tk, s, k - 1);
        let c = s[k - 1];
        let b = encode_utf8(seq![c]);
        utf8::lemma_width(c);
        assert(b.len() > 0) by {
            assert(seq![c].drop_first() =~= Seq::<char>::empty());
        }
        let n = b.len() as int;
        assert(tk.byte_ids@[b[n - 1] as int] is Some);
        assert(pieces::byte_tokens(tk, b, n).len() > 0);
    }
}

fn score_of(tk: &BpeTokenizer, p: &str) -> (r: Option<(u32, u32)>)
    ensures
        match r {
            Some((id, sc)) => scored(tk, p@) == Some((id, sc as int)),
            None => scored(tk, p@) is None,
        },
{
    match tk.special(p) {
        Some(id) => if (id as usize) < tk.scores.len() {
            Some((id, tk.scores[id as usize]))
        } else {
            None
        },
        None => None,
    }
}

pub open spec fn row_is(tk: &BpeTokenizer, s: Seq<char>, row: Seq<Option<Edge>>) -> bool {
    forall|k: int|
        0 <= k < row.len() ==> match #[trigger] row[k] {
            Some(e) => way(tk, s, k) == Some(e@),
            None => way(tk, s, k) is None,
        }
}

fn next_edge(tk: &BpeTokenizer, s: &Vec<char>, k: usize, row: &Vec<Option<Edge>>) -> (r: Option<
    Edge,
>)
    requires
        tk.wf(),
        1 <= k <= s@.len(),
        row@.len() == k,
        row_is(tk, s@, row@),
    ensures
        match r {
            Some(e) => way(tk, s@, k as int) == Some(e@),
            None => way(tk, s@, k as int) is None,
        },
{
    let lo: usize = if k > tk.max_piece_chars {
        k - tk.max_piece_chars
    } else {
        0
    };
    proof {
        lemma_by_token(tk, s@, k as int, lo as int);
    }
    let mut best: Option<Edge> = None;
    let mut n: usize = lo;
    while n < k
        invariant
            tk.wf(),
            lo <= n <= k,
            k - lo <= tk.max_piece_chars,
            1 <= k <= s@.len(),
            row@.len() == k,
            row_is(tk, s@, row@),
            match best {
                Some(e) => by_token(tk, s@, k as int, n as int) == Some(e@),
                None => by_token(tk, s@, k as int, n as int) is None,
            },
        decreases k - n,
    {
        assert(row_is(tk, s@, row@));
        match &row[n] {
            None => {
                assert(row@[n as int] is None);
            },
            Some(e) => {
                assert(row@[n as int] == Some(*e));
                let p: String = text::to_string_range(s, n, k);
                match score_of(tk, p.as_str()) {
                    None => {},
                    Some((id, sc)) => {
                        let score: u32 = f32_add(e.score, sc);
                        let better: bool = match &best {
                            None => true,
                            Some(b) => f32_lt(b.score, score),
                        };
                        if better {
                            let mut ids: Vec<u32> = Vec::new();
                            ids.push(id);
                            assert(ids@ =~= seq![id]);
                            best = Some(Edge { score, prev: n, ids });
                        }
                    },
                }
            },
        }
        n = n + 1;
    }
    if best.is_some() {
        return best;
    }
    assert(row@[k - 1] == row@[k - 1]);
    match &row[k - 1] {
        None => {
            assert(row@[k - 1] is None);
            None
        },
        Some(e) => {
            assert(row@[k - 1] == Some(*e));
            let mut ids: Vec<u32> = Vec::new();
            tk.push_fallback(s[k - 1], &mut ids);
            assert(ids@ =~= pieces::fallback(tk, s@[k - 1]));
            if ids.len() > 0 {
                Some(Edge { score: f32_add(e.score, tk.byte_pen), prev: k - 1, ids })
            } else {
                None
            }
        },
    }
}

impl BpeTokenizer {
    /// Append the tokens of a piece by its most probable segmentation.
    pub fn unigram(&self, s: &Vec<char>, out: &mut Vec<u32>)
        requires
            self.wf(),
        ensures
            final(out)@ == old(out)@ + unigram_tokens(self, s@),
    {
        let n: usize = s.len();
        if n == 0 {
            assert(out@ =~= out@ + unigram_tokens(self, s@));
            return;
        }
        let mut row: Vec<Option<Edge>> = Vec::new();
        row.push(Some(Edge { score: 0, prev: 0, ids: Vec::new() }));
        assert(row@[0] matches Some(e) && e@.ids =~= Seq::<u32>::empty());
        while row.len() <= n
            invariant
                self.wf(),
                n == s@.len(),
                1 <= row@.len() <= n + 1,
                row_is(self, s@, row@),
            decreases n + 1 - row@.len(),
        {
            let e: Option<Edge> = next_edge(self, s, row.len(), &row);
            row.push(e);
        }
        if row[n].is_none() {
            assert(row@[n as int] is None);
            self.bpe(s, out);
            return;
        }
        assert(row@[n as int] is Some);
        let ghost out0 = out@;
        let mut turns: Vec<usize> = Vec::new();
        let mut at: usize = n;
        // The places on the way, last first.
        while at > 0
            invariant
                n == s@.len(),
                at <= n,
                row@.len() == n + 1,
                row_is(self, s@, row@),
                way(self, s@, at as int) is Some,
                trail(self, s@, n as int) == trail(self, s@, at as int) + steps(
                    self,
                    s@,
                    turns@,
                    turns@.len() as int,
                ),
                forall|i: int|
                    0 <= i < turns@.len() ==> (#[trigger] turns@[i]) <= n && way(
                        self,
                        s@,
                        turns@[i] as int,
                    ) is Some,
            decreases at,
        {
            proof {
                lemma_way(self, s@, at as int);
                assert(row@[at as int] is Some);
            }
            let ghost before = turns@;
            let ghost a0 = at as int;
            turns.push(at);
            match &row[at] {
                Some(e) => {
                    assert(way(self, s@, a0) == Some(e@));
                    at = e.prev;
                },
                None => {
                    assert(row@[at as int] is None);
                },
            }
            proof {
                lemma_steps_push(self, s@, before, a0 as usize);
                let st = steps(self, s@, before, before.len() as int);
                assert(trail(self, s@, at as int) + way(self, s@, a0)->0.ids + st =~= trail(
                    self,
                    s@,
                    at as int,
                ) + (way(self, s@, a0)->0.ids + st));
            }
        }
        let mut i: usize = turns.len();
        while i > 0
            invariant
                n == s@.len(),
                i <= turns@.len(),
                row@.len() == n + 1,
                row_is(self, s@, row@),
                forall|i: int|
                    0 <= i < turns@.len() ==> (#[trigger] turns@[i]) <= n && way(
                        self,
                        s@,
                        turns@[i] as int,
                    ) is Some,
                out@ + steps(self, s@, turns@, i as int) == out0 + steps(
                    self,
                    s@,
                    turns@,
                    turns@.len() as int,
                ),
            decreases i,
        {
            i = i - 1;
            let t: usize = turns[i];
            let ghost o1 = out@;
            assert(row@[t as int] is Some || row@[t as int] is None);
            match &row[t] {
                Some(e) => {
                    assert(way(self, s@, t as int) == Some(e@));
                    push_all(out, &e.ids);
                },
                None => {
                    assert(row@[t as int] is None);
                },
            }
            proof {
                let st = steps(self, s@, turns@, i as int);
                let ids = way(self, s@, t as int)->0.ids;
                assert(o1 + (ids + st) =~= o1 + ids + st);
            }
        }
        proof {
            let all = steps(self, s@, turns@, turns@.len() as int);
            assert(out@ + steps(self, s@, turns@, 0) =~= out@);
            assert(trail(self, s@, 0) + all =~= all);
        }
    }
}

/// The tokens of the first `n` places, the last place first.
pub open spec fn steps(tk: &BpeTokenizer, s: Seq<char>, turns: Seq<usize>, n: int) -> Seq<u32>
    decreases n,
{
    if n <= 0 {
        Seq::empty()
    } else {
        way(tk, s, turns[n - 1] as int)->0.ids + steps(tk, s, turns, n - 1)
    }
}

proof fn lemma_steps_push(tk: &BpeTokenizer, s: Seq<char>, turns: Seq<usize>, t: usize)
    ensures
        steps(tk, s, turns.push(t), turns.len() as int + 1) == way(tk, s, t as int)->0.ids + steps(
            tk,
            s,
            turns,
            turns.len() as int,
        ),
{
    lemma_steps_prefix(tk, s, turns, turns.push(t), turns.len() as int);
}

proof fn lemma_steps_prefix(tk: &BpeTokenizer, s: Seq<char>, a: Seq<usize>, b: Seq<usize>, n: int)
    requires
        0 <= n <= a.len() <= b.len(),
        forall|i: int| 0 <= i < n ==> a[i] == b[i],
    ensures
        steps(tk, s, a, n) == steps(tk, s, b, n),
    decreases n,
{
    if n > 0 {
        lemma_steps_prefix(tk, s, a, b, n - 1);
    }
}

pub(crate) fn push_all(v: &mut Vec<u32>, w: &Vec<u32>)
    ensures
        final(v)@ == old(v)@ + w@,
{
    let mut i: usize = 0;
    let ghost v0 = v@;
    while i < w.len()
        invariant
            i <= w@.len(),
            v@ =~= v0 + w@.take(i as int),
        decreases w@.len() - i,
    {
        v.push(w[i]);
        i = i + 1;
    }
    assert(w@.take(w@.len() as int) =~= w@);
}

} // verus!
