//! What was encoded decodes to what it was.
use vstd::prelude::*;
use vstd::utf8::encode_utf8;

use crate::tokenizer::alphabet;
use crate::tokenizer::encode;
use crate::tokenizer::merge;
use crate::tokenizer::pieces;
use crate::tokenizer::split;
use crate::tokenizer::split::Stretch;
use crate::tokenizer::BpeTokenizer;
use crate::utf8;

verus! {

/// Every character stands for a byte.
pub open spec fn letters(s: Seq<char>) -> bool {
    forall|i: int| 0 <= i < s.len() ==> alphabet::byte_of(#[trigger] s[i]) is Some
}

/// The bytes that characters stand for; those that stand for none count as a
/// question mark.
pub open spec fn unmapped(s: Seq<char>) -> Seq<u8> {
    s.map_values(
        |c: char|
            match alphabet::byte_of(c) {
                Some(b) => b,
                None => 63u8,
            },
    )
}

/// A byte-level vocabulary that holds every byte and decodes every token to
/// the bytes it stands for.
pub open spec fn spells_bytes(tk: &BpeTokenizer) -> bool {
    &&& !tk.sp
    &&& forall|b: u8| tk.vocab@.contains_key(seq![#[trigger] alphabet::letter(b)])
    &&& forall|t: Seq<char>| #[trigger]
        tk.vocab@.contains_key(t) && letters(t) ==> tk.bytes(tk.vocab@[t]) == unmapped(t)
    &&& forall|i: int|
        0 <= i < tk.specials@.len() ==> tk.bytes(tk.vocab@[(#[trigger] tk.specials@[i]).0@])
            == encode_utf8(tk.specials@[i].0@)
}

pub proof fn lemma_spelling_concat(tk: &BpeTokenizer, a: Seq<u32>, b: Seq<u32>)
    ensures
        tk.spelling(a + b) == tk.spelling(a) + tk.spelling(b),
    decreases b.len(),
{
    if b.len() == 0 {
        assert(a + b =~= a);
        assert(tk.spelling(a) + tk.spelling(b) =~= tk.spelling(a));
    } else {
        assert((a + b).drop_last() =~= a + b.drop_last());
        lemma_spelling_concat(tk, a, b.drop_last());
        assert(tk.spelling(a) + tk.spelling(b.drop_last()) + tk.bytes(b.last()) =~= tk.spelling(a)
            + tk.spelling(b));
    }
}

pub proof fn lemma_spelling_one(tk: &BpeTokenizer, id: u32)
    ensures
        tk.spelling(seq![id]) == tk.bytes(id),
{
    assert(seq![id].drop_last() =~= Seq::<u32>::empty());
    assert(tk.spelling(seq![id].drop_last()) + tk.bytes(id) =~= tk.bytes(id));
}

proof fn lemma_chars_spell(tk: &BpeTokenizer, p: Seq<char>, n: int)
    requires
        spells_bytes(tk),
        letters(p),
        0 <= n <= p.len(),
    ensures
        tk.spelling(pieces::chars_tokens(tk, p, n)) == unmapped(p).take(n),
    decreases n,
{
    if n == 0 {
        assert(unmapped(p).take(0) =~= Seq::<u8>::empty());
    } else {
        lemma_chars_spell(tk, p, n - 1);
        let c = p[n - 1];
        let b = alphabet::byte_of(c)->0;
        assert(alphabet::letter(b) == c);
        assert(tk.vocab@.contains_key(seq![alphabet::letter(b)]));
        let id = tk.vocab@[seq![c]];
        assert(letters(seq![c]));
        lemma_spelling_concat(tk, pieces::chars_tokens(tk, p, n - 1), seq![id]);
        lemma_spelling_one(tk, id);
        assert(unmapped(seq![c]) =~= seq![b]);
        assert(unmapped(p).take(n) =~= unmapped(p).take(n - 1) + seq![b]);
    }
}

proof fn lemma_part_spells(tk: &BpeTokenizer, p: Seq<char>)
    requires
        spells_bytes(tk),
        letters(p),
    ensures
        tk.spelling(pieces::part_tokens(tk, p)) == unmapped(p),
{
    if tk.vocab@.contains_key(p) {
        lemma_spelling_one(tk, tk.vocab@[p]);
    } else {
        lemma_chars_spell(tk, p, p.len() as int);
        assert(unmapped(p).take(p.len() as int) =~= unmapped(p));
    }
}

proof fn lemma_parts_spell(tk: &BpeTokenizer, parts: Seq<Seq<char>>, n: int)
    requires
        spells_bytes(tk),
        letters(merge::flat(parts.take(n))),
        0 <= n <= parts.len(),
    ensures
        tk.spelling(pieces::parts_tokens(tk, parts, n)) == unmapped(merge::flat(parts.take(n))),
    decreases n,
{
    if n == 0 {
        assert(parts.take(0) =~= Seq::<Seq<char>>::empty());
        assert(unmapped(merge::flat(parts.take(0))) =~= Seq::<u8>::empty());
    } else {
        let head = merge::flat(parts.take(n - 1));
        let p = parts[n - 1];
        assert(parts.take(n).drop_last() =~= parts.take(n - 1));
        assert(merge::flat(parts.take(n)) == head + p);
        assert forall|i: int| 0 <= i < head.len() implies alphabet::byte_of(
            #[trigger] head[i],
        ) is Some by {
            assert((head + p)[i] == head[i]);
        }
        assert forall|i: int| 0 <= i < p.len() implies alphabet::byte_of(
            #[trigger] p[i],
        ) is Some by {
            assert((head + p)[head.len() + i] == p[i]);
        }
        lemma_parts_spell(tk, parts, n - 1);
        lemma_part_spells(tk, p);
        lemma_spelling_concat(
            tk,
            pieces::parts_tokens(tk, parts, n - 1),
            pieces::part_tokens(tk, p),
        );
        assert(unmapped(head + p) =~= unmapped(head) + unmapped(p));
    }
}

/// A piece's tokens spell the bytes that the piece stands for.
pub proof fn law_pieces_spell_their_bytes(tk: &BpeTokenizer, piece: Seq<char>)
    requires
        spells_bytes(tk),
        letters(piece),
    ensures
        tk.spelling(pieces::bpe_tokens(tk, piece)) == unmapped(piece),
{
    let parts = merge::merged(&tk.merges, merge::singles(piece));
    merge::law_merging_keeps_the_text(&tk.merges, merge::singles(piece));
    merge::lemma_flat_singles(piece);
    assert(parts.take(parts.len() as int) =~= parts);
    lemma_parts_spell(tk, parts, parts.len() as int);
}

proof fn lemma_remapped(w: Seq<char>)
    ensures
        letters(encode::remapped(w)),
        unmapped(encode::remapped(w)) == encode_utf8(w),
{
    let r = encode::remapped(w);
    assert forall|i: int| 0 <= i < r.len() implies alphabet::byte_of(#[trigger] r[i])
        == Some(encode_utf8(w)[i]) by {
        alphabet::law_alphabet_is_a_bijection(encode_utf8(w)[i], encode_utf8(w)[i]);
    }
    assert(unmapped(r) =~= encode_utf8(w));
}

/// The texts of words, one after the other from the first.
proof fn lemma_rejoined_push(ws: Seq<Seq<char>>, n: int)
    requires
        0 < n <= ws.len(),
    ensures
        split::rejoined(ws.take(n)) == split::rejoined(ws.take(n - 1)) + ws[n - 1],
    decreases n,
{
    if n == 1 {
        assert(ws.take(1).skip(1) =~= Seq::<Seq<char>>::empty());
        assert(ws.take(0) =~= Seq::<Seq<char>>::empty());
        assert(ws[0] + Seq::<char>::empty() =~= Seq::<char>::empty() + ws[0]);
    } else {
        let t = ws.skip(1);
        lemma_rejoined_push(t, n - 1);
        assert(ws.take(n).skip(1) =~= t.take(n - 1));
        assert(ws.take(n - 1).skip(1) =~= t.take(n - 2));
        assert(ws.take(n)[0] == ws[0]);
        assert(ws.take(n - 1)[0] == ws[0]);
        assert(ws[0] + (split::rejoined(t.take(n - 2)) + t[n - 2]) =~= ws[0] + split::rejoined(
            t.take(n - 2),
        ) + t[n - 2]);
    }
}

proof fn lemma_words_spell(tk: &BpeTokenizer, ws: Seq<Seq<char>>, n: int)
    requires
        spells_bytes(tk),
        0 <= n <= ws.len(),
    ensures
        tk.spelling(encode::word_tokens(tk, ws, n)) == encode_utf8(split::rejoined(ws.take(n))),
    decreases n,
{
    if n == 0 {
        assert(ws.take(0) =~= Seq::<Seq<char>>::empty());
        assert(encode_utf8(Seq::<char>::empty()) =~= Seq::<u8>::empty());
    } else {
        lemma_words_spell(tk, ws, n - 1);
        let w = ws[n - 1];
        lemma_remapped(w);
        law_pieces_spell_their_bytes(tk, encode::remapped(w));
        lemma_spelling_concat(
            tk,
            encode::word_tokens(tk, ws, n - 1),
            pieces::bpe_tokens(tk, encode::remapped(w)),
        );
        lemma_rejoined_push(ws, n);
        utf8::lemma_encode_concat(split::rejoined(ws.take(n - 1)), w);
    }
}

proof fn lemma_stretches_spell(tk: &BpeTokenizer, v: Seq<Stretch>, n: int)
    requires
        spells_bytes(tk),
        0 <= n <= v.len(),
        forall|i: int|
            0 <= i < v.len() && (#[trigger] v[i]).literal ==> exists|k: int|
                0 <= k < tk.specials@.len() && v[i].text == (#[trigger] tk.specials@[k]).0@,
    ensures
        tk.spelling(encode::stretches_tokens(tk, v, n)) == encode_utf8(
            split::laid_out(v.take(n)),
        ),
    decreases n,
{
    if n == 0 {
        assert(v.take(0) =~= Seq::<Stretch>::empty());
        assert(encode_utf8(Seq::<char>::empty()) =~= Seq::<u8>::empty());
    } else {
        lemma_stretches_spell(tk, v, n - 1);
        let st = v[n - 1];
        let first = !encode::has_text(v, n - 1);
        let ids = encode::stretch_tokens(tk, st, first);
        if st.literal {
            let k = choose|k: int|
                0 <= k < tk.specials@.len() && st.text == (#[trigger] tk.specials@[k]).0@;
            lemma_spelling_one(tk, tk.vocab@[tk.specials@[k].0@]);
        } else {
            let ws = split::words(st.text, 0);
            lemma_words_spell(tk, ws, ws.len() as int);
            assert(ws.take(ws.len() as int) =~= ws);
            split::law_words_cover_the_text(st.text, 0);
            assert(st.text.skip(0) =~= st.text);
        }
        assert(tk.spelling(ids) == encode_utf8(st.text));
        lemma_spelling_concat(tk, encode::stretches_tokens(tk, v, n - 1), ids);
        assert(v.take(n).drop_last() =~= v.take(n - 1));
        utf8::lemma_encode_concat(split::laid_out(v.take(n - 1)), st.text);
    }
}

/// In a byte-level vocabulary the tokens of any text spell the text's bytes.
pub proof fn law_byte_level_texts_come_back(tk: &BpeTokenizer, s: Seq<char>)
    requires
        spells_bytes(tk),
    ensures
        tk.spelling(encode::encoded(tk, s, false)) == encode_utf8(s),
{
    let n = tk.specials@.len() as int;
    let v = split::cut_at(s, tk.specials@, n);
    assert forall|i: int| 0 <= i < v.len() && (#[trigger] v[i]).literal implies exists|k: int|
        0 <= k < tk.specials@.len() && v[i].text == (#[trigger] tk.specials@[k]).0@ by {
        split::lemma_literals(s, tk.specials@, n, i);
    }
    lemma_stretches_spell(tk, v, v.len() as int);
    assert(v.take(v.len() as int) =~= v);
    split::law_cutting_keeps_the_text(s, tk.specials@, n);
    assert(encode::encoded(tk, s, false) =~= encode::stretches_tokens(tk, v, v.len() as int));
}

/// Where the tokens of a text spell its bytes, detokenizing them gives the
/// text back.
pub proof fn law_detokenizing_undoes_encoding(tk: &BpeTokenizer, s: Seq<char>)
    requires
        tk.spelling(encode::encoded(tk, s, false)) == encode_utf8(s),
    ensures
        utf8::text_of(tk.spelling(encode::encoded(tk, s, false))) == s,
{
    vstd::utf8::encode_utf8_valid_utf8(s);
    vstd::utf8::encode_utf8_decode_utf8(s);
}

} // verus!
