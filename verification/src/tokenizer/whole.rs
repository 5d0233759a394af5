//! Words merge by themselves as they would within their text.
use vstd::prelude::*;

use crate::tokenizer::encode;
use crate::tokenizer::merge;
use crate::tokenizer::merge::MergeRanks;
use crate::tokenizer::pieces;
use crate::tokenizer::{BpeTokenizer, METASPACE};

verus! {

/// No pair merges over the start of a word.
pub open spec fn joins_no_words(m: &MergeRanks) -> bool {
    forall|x: Seq<char>, y: Seq<char>|
        (#[trigger] m.rank(x, y)) is Some && x.len() > 0 && y.len() > 0 && x.last() != METASPACE
            ==> y[0] != METASPACE
}

/// The parts `b` start a word that the parts `a` do not belong to.
pub open spec fn apart(a: Seq<Seq<char>>, b: Seq<Seq<char>>) -> bool {
    &&& a.len() > 0 && a.last().len() > 0 && a.last().last() != METASPACE
    &&& b.len() > 0 && b[0].len() > 0 && b[0][0] == METASPACE
}

/// The better of a pair and of another that stands `shift` places on.
pub open spec fn better(
    x: Option<(int, u32)>,
    y: Option<(int, u32)>,
    shift: int,
) -> Option<(int, u32)> {
    match y {
        None => x,
        Some(q) => if x is Some && (x->0).1 <= q.1 {
            x
        } else {
            Some((q.0 + shift, q.1))
        },
    }
}

proof fn lemma_lowest_front(m: &MergeRanks, a: Seq<Seq<char>>, b: Seq<Seq<char>>, n: int)
    requires
        n < a.len(),
    ensures
        merge::lowest(m, a + b, n) == merge::lowest(m, a, n),
    decreases n,
{
    if n > 0 {
        lemma_lowest_front(m, a, b, n - 1);
    }
}

/// The pair that merges first in both is that of one of them.
proof fn lemma_lowest_of_both(m: &MergeRanks, a: Seq<Seq<char>>, b: Seq<Seq<char>>, k: int)
    requires
        joins_no_words(m),
        apart(a, b),
        0 <= k < b.len(),
    ensures
        merge::lowest(m, a + b, a.len() + k) == better(
            merge::lowest(m, a, a.len() - 1),
            merge::lowest(m, b, k),
            a.len() as int,
        ),
    decreases k,
{
    let n = a.len() as int;
    let whole = a + b;
    if k == 0 {
        lemma_lowest_front(m, a, b, n - 1);
        assert(whole[n - 1] == a.last() && whole[n] == b[0]);
        assert(m.rank(whole[n - 1], whole[n]) is None);
    } else {
        lemma_lowest_of_both(m, a, b, k - 1);
        assert(whole[n + k - 1] == b[k - 1] && whole[n + k] == b[k]);
    }
}

/// What belongs to different words merges apart.
pub proof fn lemma_words_merge_apart(m: &MergeRanks, a: Seq<Seq<char>>, b: Seq<Seq<char>>)
    requires
        joins_no_words(m),
        apart(a, b),
    ensures
        merge::merged(m, a + b) == merge::merged(m, a) + merge::merged(m, b),
    decreases a.len() + b.len(),
{
    let n = a.len() as int;
    let whole = a + b;
    let (x, y) = (merge::lowest(m, a, n - 1), merge::lowest(m, b, b.len() - 1));
    lemma_lowest_of_both(m, a, b, b.len() - 1);
    merge::lemma_lowest(m, a, n - 1);
    merge::lemma_lowest(m, b, b.len() - 1);
    let best = merge::lowest(m, whole, whole.len() - 1);
    assert(best == better(x, y, n));
    if best is None {
        assert(x is None && y is None);
    } else if y is None || (x is Some && (x->0).1 <= (y->0).1) {
        let i = (x->0).0;
        let f = merge::fused(a, i);
        assert(merge::fused(whole, i) =~= f + b);
        assert(f.last().last() == a.last().last()) by {
            if i + 2 == n {
                assert(f.last() == a[i] + a[i + 1]);
                assert(a.last() == a[i + 1]);
            } else {
                assert(f.last() == a.last());
            }
        }
        assert(f.last().len() > 0);
        lemma_words_merge_apart(m, f, b);
    } else {
        let i = (y->0).0;
        let f = merge::fused(b, i);
        assert(merge::fused(whole, n + i) =~= a + f);
        assert(f[0].len() > 0 && f[0][0] == b[0][0]) by {
            if i == 0 {
                assert(f[0] == b[0] + b[1]);
            } else {
                assert(f[0] == b[0]);
            }
        }
        lemma_words_merge_apart(m, a, f);
    }
}

proof fn lemma_parts_tokens(tk: &BpeTokenizer, a: Seq<Seq<char>>, b: Seq<Seq<char>>, n: int)
    requires
        0 <= n <= b.len(),
    ensures
        pieces::parts_tokens(tk, a + b, a.len() + n) == pieces::parts_tokens(
            tk,
            a,
            a.len() as int,
        ) + pieces::parts_tokens(tk, b, n),
    decreases n,
{
    if n == 0 {
        lemma_parts_front(tk, a, b, a.len() as int);
        assert(pieces::parts_tokens(tk, a, a.len() as int) + pieces::parts_tokens(tk, b, 0)
            =~= pieces::parts_tokens(tk, a, a.len() as int));
    } else {
        lemma_parts_tokens(tk, a, b, n - 1);
        assert((a + b)[a.len() + n - 1] == b[n - 1]);
        assert(pieces::parts_tokens(tk, a + b, a.len() + n) =~= pieces::parts_tokens(
            tk,
            a,
            a.len() as int,
        ) + pieces::parts_tokens(tk, b, n));
    }
}

proof fn lemma_parts_front(tk: &BpeTokenizer, a: Seq<Seq<char>>, b: Seq<Seq<char>>, n: int)
    requires
        0 <= n <= a.len(),
    ensures
        pieces::parts_tokens(tk, a + b, n) == pieces::parts_tokens(tk, a, n),
    decreases n,
{
    if n > 0 {
        lemma_parts_front(tk, a, b, n - 1);
        assert((a + b)[n - 1] == a[n - 1]);
    }
}

proof fn lemma_word_starts(s: Seq<char>, i: int)
    requires
        0 < i <= s.len(),
    ensures
        ({
            let e = encode::marked_end(s, i);
            i <= e <= s.len() && (e < s.len() ==> s[e] == METASPACE && s[e - 1] != METASPACE)
        }),
    decreases s.len() - i,
{
    if i < s.len() && !(s[i] == METASPACE && s[i - 1] != METASPACE) {
        lemma_word_starts(s, i + 1);
    }
}

proof fn lemma_words_from(tk: &BpeTokenizer, s: Seq<char>, i: int)
    requires
        tk.scores@.len() == 0,
        joins_no_words(&tk.merges),
        0 <= i <= s.len(),
    ensures
        encode::marked_tokens(tk, s, i) == pieces::bpe_tokens(tk, s.skip(i)),
    decreases s.len() - i,
{
    let rest = s.skip(i);
    if i == s.len() {
        assert(merge::singles(rest).len() == 0);
    } else {
        lemma_word_starts(s, i + 1);
        let e = encode::marked_end(s, i + 1);
        let word = s.subrange(i, e);
        lemma_words_from(tk, s, e);
        if e == s.len() {
            assert(word =~= rest);
            assert(merge::singles(s.skip(e)).len() == 0);
            assert(encode::marked_tokens(tk, s, i) =~= pieces::bpe_tokens(tk, rest));
        } else {
            let (a, b) = (merge::singles(word), merge::singles(s.skip(e)));
            assert(merge::singles(rest) =~= a + b);
            assert(a.last() =~= seq![s[e - 1]]);
            assert(b[0] =~= seq![s[e]]);
            lemma_words_merge_apart(&tk.merges, a, b);
            let (p, q) = (merge::merged(&tk.merges, a), merge::merged(&tk.merges, b));
            lemma_parts_tokens(tk, p, q, q.len() as int);
        }
    }
}

/// Where no pair merges over the start of a word, merging word by word gives
/// the tokens that merging the whole text would.
pub proof fn law_words_merge_as_the_whole(tk: &BpeTokenizer, s: Seq<char>)
    requires
        tk.scores@.len() == 0,
        joins_no_words(&tk.merges),
    ensures
        encode::marked_tokens(tk, s, 0) == pieces::bpe_tokens(tk, s),
{
    lemma_words_from(tk, s, 0);
    assert(s.skip(0) =~= s);
}

} // verus!
