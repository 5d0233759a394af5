//! What was encoded with metaspaces decodes to what it was.
use vstd::prelude::*;
use vstd::utf8::encode_utf8;

use crate::text;
use crate::tokenizer::encode;
use crate::tokenizer::merge;
use crate::tokenizer::pieces;
use crate::tokenizer::roundtrip;
use crate::tokenizer::split;
use crate::tokenizer::split::Stretch;
use crate::tokenizer::unigram;
use crate::tokenizer::{BpeTokenizer, METASPACE};
use crate::utf8;

verus! {

/// Metaspaces as spaces.
pub open spec fn plain(s: Seq<char>) -> Seq<char> {
    s.map_values(
        |c: char|
            if c == METASPACE {
                ' '
            } else {
                c
            },
    )
}

/// A metaspace vocabulary that holds every byte and the metaspace, adds
/// nothing before the text, and decodes every token that occurs in `m` to its
/// own text.
pub open spec fn spells_marks(tk: &BpeTokenizer, m: Seq<char>) -> bool {
    &&& tk.sp
    &&& !tk.sp_prepend
    &&& tk.byte_ids@.len() == 256
    &&& forall|b: int|
        0 <= b < 256 ==> (#[trigger] tk.byte_ids@[b] matches Some(id) && tk.bytes(id) == seq![
            b as u8,
        ])
    &&& tk.vocab@.contains_key(seq![METASPACE])
    &&& tk.scores@.len() > 0 ==> unigram::scored(tk, seq![METASPACE]) is Some
        && tk.max_piece_chars >= 1
    &&& forall|t: Seq<char>| #[trigger]
        tk.vocab@.contains_key(t) && text::has(m, t) ==> tk.bytes(tk.vocab@[t]) == encode_utf8(
            plain(t),
        )
    &&& forall|i: int|
        0 <= i < tk.specials@.len() ==> tk.bytes(tk.vocab@[(#[trigger] tk.specials@[i]).0@])
            == encode_utf8(tk.specials@[i].0@)
}

proof fn lemma_at_within(a: Seq<char>, i: int, b: Seq<char>, j: int, c: Seq<char>)
    requires
        text::at(a, i, b),
        text::at(b, j, c),
    ensures
        text::at(a, i + j, c),
        text::has(a, c),
{
    assert(a.subrange(i + j, i + j + c.len()) =~= c) by {
        assert forall|k: int| 0 <= k < c.len() implies a.subrange(i + j, i + j + c.len())[k]
            == c[k] by {
            assert(b.subrange(j, j + c.len())[k] == c[k]);
            assert(a.subrange(i, i + b.len())[j + k] == b[j + k]);
        }
    }
    assert(text::at(a, i + j, c));
}

proof fn lemma_sub_at(a: Seq<char>, i: int, j: int)
    requires
        0 <= i <= j <= a.len(),
    ensures
        text::at(a, i, a.subrange(i, j)),
        text::has(a, a.subrange(i, j)),
{
    assert(text::at(a, i, a.subrange(i, j)));
}

proof fn lemma_plain_concat(a: Seq<char>, b: Seq<char>)
    ensures
        encode_utf8(plain(a + b)) == encode_utf8(plain(a)) + encode_utf8(plain(b)),
{
    assert(plain(a + b) =~= plain(a) + plain(b));
    utf8::lemma_encode_concat(plain(a), plain(b));
}

proof fn lemma_bytes_spell(tk: &BpeTokenizer, m: Seq<char>, b: Seq<u8>, n: int)
    requires
        spells_marks(tk, m),
        0 <= n <= b.len(),
    ensures
        tk.spelling(pieces::byte_tokens(tk, b, n)) == b.take(n),
    decreases n,
{
    if n == 0 {
        assert(b.take(0) =~= Seq::<u8>::empty());
    } else {
        lemma_bytes_spell(tk, m, b, n - 1);
        let x = b[n - 1] as int;
        assert(tk.byte_ids@[x] is Some);
        let id = tk.byte_ids@[x]->0;
        roundtrip::lemma_spelling_concat(tk, pieces::byte_tokens(tk, b, n - 1), seq![id]);
        roundtrip::lemma_spelling_one(tk, id);
        assert(b.take(n) =~= b.take(n - 1) + seq![b[n - 1]]);
    }
}

proof fn lemma_fallback_spells(tk: &BpeTokenizer, m: Seq<char>, c: char)
    requires
        spells_marks(tk, m),
        c != METASPACE,
    ensures
        tk.spelling(pieces::fallback(tk, c)) == encode_utf8(plain(seq![c])),
{
    let b = encode_utf8(seq![c]);
    lemma_bytes_spell(tk, m, b, b.len() as int);
    assert(b.take(b.len() as int) =~= b);
    assert(plain(seq![c]) =~= seq![c]);
}

proof fn lemma_chars_spell(tk: &BpeTokenizer, m: Seq<char>, p: Seq<char>, n: int)
    requires
        spells_marks(tk, m),
        text::has(m, p),
        0 <= n <= p.len(),
    ensures
        tk.spelling(pieces::chars_tokens(tk, p, n)) == encode_utf8(plain(p.take(n))),
    decreases n,
{
    if n == 0 {
        assert(plain(p.take(0)) =~= Seq::<char>::empty());
        assert(encode_utf8(Seq::<char>::empty()) =~= Seq::<u8>::empty());
    } else {
        lemma_chars_spell(tk, m, p, n - 1);
        let c = p[n - 1];
        let one = seq![c];
        let ids = pieces::char_tokens(tk, c);
        if tk.vocab@.contains_key(one) {
            let i = choose|i: int| #[trigger] text::at(m, i, p);
            lemma_sub_at(p, n - 1, n);
            assert(p.subrange(n - 1, n) =~= one);
            lemma_at_within(m, i, p, n - 1, one);
            roundtrip::lemma_spelling_one(tk, tk.vocab@[one]);
        } else {
            lemma_fallback_spells(tk, m, c);
        }
        roundtrip::lemma_spelling_concat(tk, pieces::chars_tokens(tk, p, n - 1), ids);
        lemma_plain_concat(p.take(n - 1), one);
        assert(p.take(n) =~= p.take(n - 1) + one);
    }
}

proof fn lemma_parts_spell(tk: &BpeTokenizer, m: Seq<char>, parts: Seq<Seq<char>>, n: int)
    requires
        spells_marks(tk, m),
        text::has(m, merge::flat(parts)),
        0 <= n <= parts.len(),
    ensures
        tk.spelling(pieces::parts_tokens(tk, parts, n)) == encode_utf8(
            plain(merge::flat(parts.take(n))),
        ),
    decreases n,
{
    if n == 0 {
        assert(parts.take(0) =~= Seq::<Seq<char>>::empty());
        assert(plain(merge::flat(parts.take(0))) =~= Seq::<char>::empty());
        assert(encode_utf8(Seq::<char>::empty()) =~= Seq::<u8>::empty());
    } else {
        lemma_parts_spell(tk, m, parts, n - 1);
        let p = parts[n - 1];
        let head = merge::flat(parts.take(n - 1));
        assert(parts.take(n).drop_last() =~= parts.take(n - 1));
        let all = merge::flat(parts);
        assert(parts =~= parts.take(n) + parts.skip(n));
        merge::lemma_flat_concat(parts.take(n), parts.skip(n));
        assert(all.subrange(head.len() as int, (head.len() + p.len()) as int) =~= p);
        let i = choose|i: int| #[trigger] text::at(m, i, all);
        lemma_at_within(m, i, all, head.len() as int, p);
        if tk.vocab@.contains_key(p) {
            roundtrip::lemma_spelling_one(tk, tk.vocab@[p]);
        } else {
            lemma_chars_spell(tk, m, p, p.len() as int);
            assert(p.take(p.len() as int) =~= p);
        }
        roundtrip::lemma_spelling_concat(
            tk,
            pieces::parts_tokens(tk, parts, n - 1),
            pieces::part_tokens(tk, p),
        );
        lemma_plain_concat(head, p);
    }
}

proof fn lemma_bpe_spells(tk: &BpeTokenizer, m: Seq<char>, p: Seq<char>)
    requires
        spells_marks(tk, m),
        text::has(m, p),
    ensures
        tk.spelling(pieces::bpe_tokens(tk, p)) == encode_utf8(plain(p)),
{
    let parts = merge::merged(&tk.merges, merge::singles(p));
    merge::law_merging_keeps_the_text(&tk.merges, merge::singles(p));
    merge::lemma_flat_singles(p);
    assert(parts.take(parts.len() as int) =~= parts);
    lemma_parts_spell(tk, m, parts, parts.len() as int);
}

proof fn lemma_by_token_is_token(tk: &BpeTokenizer, s: Seq<char>, k: int, n: int)
    ensures
        by_token_ok(tk, s, k, n),
    decreases n,
{
    if n > 0 && k >= n {
        lemma_by_token_is_token(tk, s, k, n - 1);
    }
}

/// A way by token leads over one token's text.
spec fn by_token_ok(tk: &BpeTokenizer, s: Seq<char>, k: int, n: int) -> bool {
    unigram::by_token(tk, s, k, n) matches Some(w) ==> {
        &&& 0 <= w.prev < n
        &&& w.prev < k
        &&& tk.vocab@.contains_key(s.subrange(w.prev, k))
        &&& w.ids == seq![tk.vocab@[s.subrange(w.prev, k)]]
    }
}

proof fn lemma_by_token_found(tk: &BpeTokenizer, s: Seq<char>, k: int, n: int, i: int)
    requires
        0 <= i < n <= k,
        unigram::way(tk, s, i) is Some,
        unigram::scored(tk, s.subrange(i, k)) is Some,
        k - i <= tk.max_piece_chars,
    ensures
        unigram::by_token(tk, s, k, n) is Some,
    decreases n,
{
    if i < n - 1 {
        lemma_by_token_found(tk, s, k, n - 1, i);
    }
}

proof fn lemma_trail_spells(tk: &BpeTokenizer, m: Seq<char>, s: Seq<char>, k: int)
    requires
        spells_marks(tk, m),
        tk.scores@.len() > 0,
        text::has(m, s),
        0 <= k <= s.len(),
        unigram::way(tk, s, k) is Some,
    ensures
        tk.spelling(unigram::trail(tk, s, k)) == encode_utf8(plain(s.take(k))),
    decreases k,
{
    if k == 0 {
        assert(plain(s.take(0)) =~= Seq::<char>::empty());
        assert(encode_utf8(Seq::<char>::empty()) =~= Seq::<u8>::empty());
    } else {
        unigram::lemma_way(tk, s, k);
        lemma_by_token_is_token(tk, s, k, k);
        let w = unigram::way(tk, s, k)->0;
        lemma_trail_spells(tk, m, s, w.prev);
        let p = s.subrange(w.prev, k);
        if unigram::by_token(tk, s, k, k) is Some {
            let i = choose|i: int| #[trigger] text::at(m, i, s);
            lemma_sub_at(s, w.prev, k);
            lemma_at_within(m, i, s, w.prev, p);
            roundtrip::lemma_spelling_one(tk, tk.vocab@[p]);
        } else {
            let c = s[k - 1];
            assert(p =~= seq![c]);
            if c == METASPACE {
                lemma_by_token_found(tk, s, k, k, k - 1);
            }
            lemma_fallback_spells(tk, m, c);
        }
        assert(tk.spelling(w.ids) == encode_utf8(plain(p)));
        roundtrip::lemma_spelling_concat(tk, unigram::trail(tk, s, w.prev), w.ids);
        lemma_plain_concat(s.take(w.prev), p);
        assert(s.take(k) =~= s.take(w.prev) + p);
    }
}

/// The tokens of a word spell the word, with spaces for metaspaces.
pub proof fn law_marked_words_come_back(tk: &BpeTokenizer, m: Seq<char>, p: Seq<char>)
    requires
        spells_marks(tk, m),
        text::has(m, p),
    ensures
        tk.spelling(encode::piece_tokens(tk, p)) == encode_utf8(plain(p)),
{
    if tk.scores@.len() == 0 {
        lemma_bpe_spells(tk, m, p);
    } else if p.len() == 0 {
        assert(plain(p) =~= Seq::<char>::empty());
        assert(encode_utf8(Seq::<char>::empty()) =~= Seq::<u8>::empty());
    } else if unigram::way(tk, p, p.len() as int) is Some {
        lemma_trail_spells(tk, m, p, p.len() as int);
        assert(p.take(p.len() as int) =~= p);
    } else {
        lemma_bpe_spells(tk, m, p);
    }
}

proof fn lemma_marked_spells(tk: &BpeTokenizer, m: Seq<char>, s: Seq<char>, i: int)
    requires
        spells_marks(tk, m),
        text::has(m, s),
        0 <= i <= s.len(),
    ensures
        tk.spelling(encode::marked_tokens(tk, s, i)) == encode_utf8(plain(s.skip(i))),
    decreases s.len() - i,
{
    if i == s.len() {
        assert(plain(s.skip(i)) =~= Seq::<char>::empty());
        assert(encode_utf8(Seq::<char>::empty()) =~= Seq::<u8>::empty());
    } else {
        encode::lemma_marked_end(s, i + 1);
        let e = encode::marked_end(s, i + 1);
        let p = s.subrange(i, e);
        lemma_marked_spells(tk, m, s, e);
        let a = choose|a: int| #[trigger] text::at(m, a, s);
        lemma_sub_at(s, i, e);
        lemma_at_within(m, a, s, i, p);
        law_marked_words_come_back(tk, m, p);
        roundtrip::lemma_spelling_concat(
            tk,
            encode::piece_tokens(tk, p),
            encode::marked_tokens(tk, s, e),
        );
        lemma_plain_concat(p, s.skip(e));
        assert(s.skip(i) =~= p + s.skip(e));
    }
}

/// Characters that a metaspace cannot be mistaken for.
pub open spec fn unmarked(s: Seq<char>) -> bool {
    forall|i: int| 0 <= i < s.len() ==> #[trigger] s[i] != METASPACE
}

proof fn lemma_stretches_spell(tk: &BpeTokenizer, s: Seq<char>, v: Seq<Stretch>, n: int)
    requires
        spells_marks(tk, encode::marked(s, false)),
        unmarked(s),
        0 <= n <= v.len(),
        split::laid_out(v) == s,
        forall|i: int|
            0 <= i < v.len() && (#[trigger] v[i]).literal ==> exists|k: int|
                0 <= k < tk.specials@.len() && v[i].text == (#[trigger] tk.specials@[k]).0@,
    ensures
        tk.spelling(encode::stretches_tokens(tk, v, n)) == encode_utf8(
            split::laid_out(v.take(n)),
        ),
    decreases n,
{
    let m = encode::marked(s, false);
    if n == 0 {
        assert(v.take(0) =~= Seq::<Stretch>::empty());
        assert(encode_utf8(Seq::<char>::empty()) =~= Seq::<u8>::empty());
    } else {
        lemma_stretches_spell(tk, s, v, n - 1);
        let st = v[n - 1];
        let first = !encode::has_text(v, n - 1);
        let ids = encode::stretch_tokens(tk, st, first);
        let head = split::laid_out(v.take(n - 1));
        assert(v.take(n).drop_last() =~= v.take(n - 1));
        if st.literal {
            let k = choose|k: int|
                0 <= k < tk.specials@.len() && st.text == (#[trigger] tk.specials@[k]).0@;
            roundtrip::lemma_spelling_one(tk, tk.vocab@[tk.specials@[k].0@]);
        } else {
            let t = st.text;
            assert(v =~= v.take(n) + v.skip(n));
            split::lemma_laid_out_concat(v.take(n), v.skip(n));
            let mt = encode::marked(t, false);
            assert forall|k: int| 0 <= k < t.len() implies #[trigger] t[k] == s[head.len() + k] by {
                assert((head + t)[head.len() + k] == t[k]);
            }
            assert(m.subrange(head.len() as int, (head.len() + t.len()) as int) =~= mt);
            assert(text::at(m, head.len() as int, mt));
            lemma_marked_spells(tk, m, mt, 0);
            assert(mt.skip(0) =~= mt);
            assert(plain(mt) =~= t) by {
                assert forall|k: int| 0 <= k < t.len() implies plain(mt)[k] == #[trigger] t[k] by {
                    assert(s[head.len() + k] != METASPACE);
                }
            }
        }
        assert(tk.spelling(ids) == encode_utf8(st.text));
        roundtrip::lemma_spelling_concat(tk, encode::stretches_tokens(tk, v, n - 1), ids);
        utf8::lemma_encode_concat(head, st.text);
    }
}

/// In a metaspace vocabulary the tokens of a text without metaspaces spell
/// the text's bytes, by merging as by segmentation.
pub proof fn law_metaspace_texts_come_back(tk: &BpeTokenizer, s: Seq<char>)
    requires
        spells_marks(tk, encode::marked(s, false)),
        unmarked(s),
    ensures
        tk.spelling(encode::encoded(tk, s, false)) == encode_utf8(s),
{
    let n = tk.specials@.len() as int;
    let v = split::cut_at(s, tk.specials@, n);
    assert forall|i: int| 0 <= i < v.len() && (#[trigger] v[i]).literal implies exists|k: int|
        0 <= k < tk.specials@.len() && v[i].text == (#[trigger] tk.specials@[k]).0@ by {
        split::lemma_literals(s, tk.specials@, n, i);
    }
    split::law_cutting_keeps_the_text(s, tk.specials@, n);
    lemma_stretches_spell(tk, s, v, v.len() as int);
    assert(v.take(v.len() as int) =~= v);
    assert(encode::encoded(tk, s, false) =~= encode::stretches_tokens(tk, v, v.len() as int));
}

} // verus!
