//! Where a text is cut into words and literals, and how words become tokens.
use vstd::prelude::*;

use crate::text;
use crate::tokenizer::encode;
use crate::tokenizer::merge;
use crate::tokenizer::merge::MergeRanks;
use crate::tokenizer::split;
use crate::tokenizer::split::Stretch;
use crate::tokenizer::BpeTokenizer;

verus! {

/// Two characters are of one sort: letters, which are the ASCII ones and all
/// that is not ASCII, digits, spaces, line ends, or anything else.
pub open spec fn alike(a: char, b: char) -> bool {
    let letter = |c: char| 'a' <= c <= 'z' || 'A' <= c <= 'Z' || c as u32 >= 0x80;
    let digit = |c: char| '0' <= c <= '9';
    let end = |c: char| c == '\n' || c == '\r';
    let other = |c: char| !letter(c) && !digit(c) && !end(c) && c != ' ';
    letter(a) && letter(b) || digit(a) && digit(b) || a == ' ' && b == ' ' || end(a) && end(b)
        || other(a) && other(b)
}

proof fn lemma_alike(a: char, b: char)
    ensures
        alike(a, b) == (split::kind(a) == split::kind(b)),
{
}

proof fn lemma_run(s: Seq<char>, k: split::Kind, i: int, j: int)
    requires
        0 <= i <= s.len(),
    ensures
        i <= split::run_end(s, k, i) <= s.len(),
        i <= j < split::run_end(s, k, i) ==> split::kind(s[j]) == k,
        split::run_end(s, k, i) < s.len() ==> split::kind(s[split::run_end(s, k, i)]) != k,
    decreases s.len() - i,
{
    if i < s.len() && split::kind(s[i]) == k {
        lemma_run(s, k, i + 1, j);
    }
}

/// A word is a longest run of characters of one sort, with the space in front
/// of it: all its characters behind that space are alike, and the one after it
/// is not.
pub proof fn law_words_are_longest_runs(s: Seq<char>, i: int, j: int)
    requires
        0 <= i < s.len(),
    ensures
        ({
            let e = split::word_end(s, i);
            let b = if s[i] == ' ' {
                i + 1
            } else {
                i
            };
            &&& i < e <= s.len()
            &&& b < s.len() ==> b < e
            &&& b <= j < e ==> alike(s[b], s[j])
            &&& b < e < s.len() ==> !alike(s[b], s[e])
        }),
{
    let b = if s[i] == ' ' {
        i + 1
    } else {
        i
    };
    if b < s.len() {
        let k = split::kind(s[b]);
        lemma_run(s, k, b, j);
        lemma_run(s, k, b, b);
        let e = split::word_end(s, i);
        if b <= j < e {
            lemma_alike(s[b], s[j]);
        }
        if e < s.len() {
            lemma_alike(s[b], s[e]);
        }
    }
}

/// The words of a text follow one another: the first one ends where a word from
/// the start ends, and the others are the words of the rest.
pub proof fn law_words_follow_one_another(s: Seq<char>, i: int)
    requires
        0 <= i < s.len(),
    ensures
        split::words(s, i).len() > 0,
        split::words(s, i)[0] == s.subrange(i, split::word_end(s, i)),
        split::words(s, i).skip(1) == split::words(s, split::word_end(s, i)),
        split::words(s, s.len() as int).len() == 0,
{
    split::lemma_word_end(s, i);
    assert(split::words(s, i).skip(1) =~= split::words(s, split::word_end(s, i)));
}

/// The pair of parts that ranks lowest, of equals the leftmost, merges first.
pub proof fn law_merging_goes_by_rank(m: &MergeRanks, parts: Seq<Seq<char>>, i: int)
    requires
        0 <= i < parts.len() - 1,
        m.rank(parts[i], parts[i + 1]) is Some,
        forall|j: int| #![trigger parts[j]]
            0 <= j < parts.len() - 1 && m.rank(parts[j], parts[j + 1]) is Some ==> {
                let (q, r) = (m.rank(parts[j], parts[j + 1])->0, m.rank(parts[i], parts[i + 1])->0);
                r <= q && (j < i ==> r < q)
            },
    ensures
        merge::merged(m, parts) == merge::merged(
            m,
            parts.take(i) + seq![parts[i] + parts[i + 1]] + parts.skip(i + 2),
        ),
{
    let n = parts.len() - 1;
    merge::lemma_lowest(m, parts, n);
    merge::law_lowest_rank_merges_first(m, parts, n, i);
    let b = merge::lowest(m, parts, n)->0;
    assert(m.rank(parts[b.0], parts[b.0 + 1]) == Some(b.1));
    assert(b.0 == i);
}

proof fn lemma_inside(s: Seq<char>, a: int, b: int, lit: Seq<char>)
    requires
        0 <= a <= b <= s.len(),
        text::has(s.subrange(a, b), lit),
    ensures
        text::has(s, lit),
{
    let t = s.subrange(a, b);
    let i = choose|i: int| #[trigger] text::at(t, i, lit);
    assert(s.subrange(a + i, a + i + lit.len()) =~= t.subrange(i, i + lit.len()));
    assert(text::at(s, a + i, lit));
}

/// No text between literals holds the literal.
pub open spec fn free_of(v: Seq<Stretch>, lit: Seq<char>) -> bool {
    forall|i: int| 0 <= i < v.len() && !(#[trigger] v[i]).literal ==> !text::has(v[i].text, lit)
}

proof fn lemma_free_joined(a: Seq<Stretch>, b: Seq<Stretch>, lit: Seq<char>)
    requires
        free_of(a, lit),
        free_of(b, lit),
    ensures
        free_of(a + b, lit),
{
    assert forall|i: int| 0 <= i < (a + b).len() && !(#[trigger] (a + b)[i]).literal implies !text::has(
        (a + b)[i].text,
        lit,
    ) by {
        if i < a.len() {
            assert((a + b)[i] == a[i]);
        } else {
            assert((a + b)[i] == b[i - a.len()]);
        }
    }
}

/// Cutting at a literal leaves none of it, and brings back none of another.
proof fn lemma_cut_frees(s: Seq<char>, lit: Seq<char>, other: Seq<char>)
    requires
        lit.len() > 0,
    ensures
        free_of(split::cut(s, lit), lit),
        !text::has(s, other) ==> free_of(split::cut(s, lit), other),
    decreases s.len(),
{
    text::lemma_find(s, lit, 0);
    match text::find(s, lit, 0) {
        Some(p) => {
            let a = split::between(s.take(p));
            let b = seq![Stretch { literal: true, text: lit }];
            let rest = s.skip(p + lit.len());
            lemma_cut_frees(rest, lit, other);
            if text::has(s.take(p), lit) {
                let t = s.take(p);
                let i = choose|i: int| #[trigger] text::at(t, i, lit);
                assert(s.subrange(i, i + lit.len()) =~= t.subrange(i, i + lit.len()));
                assert(text::at(s, i, lit));
                assert(false);
            }
            if !text::has(s, other) {
                if text::has(s.take(p), other) {
                    assert(s.take(p) =~= s.subrange(0, p));
                    lemma_inside(s, 0, p, other);
                }
                if text::has(rest, other) {
                    assert(rest =~= s.subrange(p + lit.len(), s.len() as int));
                    lemma_inside(s, p + lit.len(), s.len() as int, other);
                }
                assert(free_of(a, other));
                assert(free_of(b, other));
                lemma_free_joined(a, b, other);
                lemma_free_joined(a + b, split::cut(rest, lit), other);
            }
            assert(free_of(a, lit));
            assert(free_of(b, lit));
            lemma_free_joined(a, b, lit);
            lemma_free_joined(a + b, split::cut(rest, lit), lit);
        },
        None => {
            if text::has(s, lit) {
                let i = choose|i: int| #[trigger] text::at(s, i, lit);
                assert(!text::at(s, i, lit));
            }
        },
    }
}

proof fn lemma_cut_each_frees(v: Seq<Stretch>, lit: Seq<char>, other: Seq<char>)
    requires
        lit.len() > 0,
    ensures
        free_of(split::cut_each(v, lit), lit),
        free_of(v, other) ==> free_of(split::cut_each(v, lit), other),
    decreases v.len(),
{
    if v.len() > 0 {
        let w = v.drop_last();
        lemma_cut_each_frees(w, lit, other);
        let x = v.last();
        let last = if x.literal {
            seq![x]
        } else {
            split::cut(x.text, lit)
        };
        lemma_cut_frees(x.text, lit, other);
        assert(free_of(last, lit));
        lemma_free_joined(split::cut_each(w, lit), last, lit);
        if free_of(v, other) {
            assert forall|i: int| 0 <= i < w.len() && !(#[trigger] w[i]).literal implies !text::has(
                w[i].text,
                other,
            ) by {
                assert(w[i] == v[i]);
            }
            assert(v[v.len() - 1] == x);
            assert(free_of(last, other));
            lemma_free_joined(split::cut_each(w, lit), last, other);
        }
    }
}

/// Every occurrence of a literal is cut out: no text that is left between them
/// holds any of the literals, so each is one token wherever it stands.
pub proof fn law_no_literal_is_left_in_the_text(s: Seq<char>, lits: Seq<(String, u32)>, n: int, k: int)
    requires
        0 <= k < n <= lits.len(),
        forall|j: int| 0 <= j < n ==> (#[trigger] lits[j]).0@.len() > 0,
    ensures
        free_of(split::cut_at(s, lits, n), lits[k].0@),
    decreases n,
{
    let v = split::cut_at(s, lits, n - 1);
    if k < n - 1 {
        law_no_literal_is_left_in_the_text(s, lits, n - 1, k);
    }
    lemma_cut_each_frees(v, lits[n - 1].0@, lits[k].0@);
}

/// A start token stands in front of a text where it was asked for and the
/// tokenizer adds one, and nothing else changes.
pub proof fn law_start_tokens_stand_in_front(tk: &BpeTokenizer, s: Seq<char>)
    ensures
        encode::encoded(tk, s, true) == (if tk.add_bos && tk.bos is Some {
            seq![tk.bos->0] + encode::encoded(tk, s, false)
        } else {
            encode::encoded(tk, s, false)
        }),
{
    let v = split::cut_at(s, tk.specials@, tk.specials@.len() as int);
    let t = encode::stretches_tokens(tk, v, v.len() as int);
    assert(Seq::<u32>::empty() + t =~= t);
}

} // verus!
