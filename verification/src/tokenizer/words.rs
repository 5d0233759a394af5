//! Vocabularies as they are read: tokens, literals, and the bytes of each.
use std::collections::HashMap;
use vstd::hash_map::StringHashMap;
use vstd::prelude::*;
use vstd::utf8::encode_utf8;

use crate::text;
use crate::tokenizer::alphabet;
use crate::tokenizer::metaspace;
use crate::tokenizer::roundtrip;
use crate::tokenizer::METASPACE;

verus! {

/// A literal and its token.
pub struct Entry {
    pub text: Seq<char>,
    pub id: u32,
}

pub open spec fn entries(v: Seq<(String, u32)>) -> Seq<Entry> {
    Seq::new(v.len(), |i: int| Entry { text: v[i].0@, id: v[i].1 })
}

/// One of the entries is for `t`.
pub open spec fn names(v: Seq<Entry>, t: Seq<char>) -> bool {
    exists|i: int| 0 <= i < v.len() && (#[trigger] v[i]).text == t
}

// Longest first.

pub open spec fn size(t: Seq<char>) -> int {
    encode_utf8(t).len() as int
}

/// Where an entry of `n` bytes goes: after all that are as long, from `i` on.
pub open spec fn slot(v: Seq<Entry>, n: int, i: int) -> int
    decreases v.len() - i,
{
    if 0 <= i < v.len() && size(v[i].text) >= n {
        slot(v, n, i + 1)
    } else {
        i
    }
}

/// The first `n` entries, longest first; of equals the earlier first.
pub open spec fn ordered(v: Seq<Entry>, n: int) -> Seq<Entry>
    decreases n,
{
    if n <= 0 {
        Seq::empty()
    } else {
        let o = ordered(v, n - 1);
        o.insert(slot(o, size(v[n - 1].text), 0), v[n - 1])
    }
}

proof fn lemma_slot(v: Seq<Entry>, n: int, i: int)
    requires
        0 <= i <= v.len(),
    ensures
        i <= slot(v, n, i) <= v.len(),
        forall|k: int| i <= k < slot(v, n, i) ==> size((#[trigger] v[k]).text) >= n,
        slot(v, n, i) < v.len() ==> size(v[slot(v, n, i)].text) < n,
    decreases v.len() - i,
{
    if i < v.len() && size(v[i].text) >= n {
        lemma_slot(v, n, i + 1);
    }
}

/// Literals are tried longest first.
pub proof fn law_literals_are_longest_first(v: Seq<Entry>, n: int, i: int, j: int)
    requires
        0 <= n <= v.len(),
        0 <= i < j < ordered(v, n).len(),
    ensures
        size(ordered(v, n)[i].text) >= size(ordered(v, n)[j].text),
    decreases n,
{
    if n > 0 {
        let o = ordered(v, n - 1);
        let m = size(v[n - 1].text);
        lemma_slot(o, m, 0);
        let p = slot(o, m, 0);
        if i < p {
            if j == p {
            } else if j < p {
                law_literals_are_longest_first(v, n - 1, i, j);
            } else {
                law_literals_are_longest_first(v, n - 1, i, j - 1);
            }
        } else if i == p {
            if j - 1 > p {
                law_literals_are_longest_first(v, n - 1, p, j - 1);
            }
        } else {
            law_literals_are_longest_first(v, n - 1, i - 1, j - 1);
        }
    }
}

/// Ordering keeps the entries.
pub proof fn lemma_ordered_names(v: Seq<Entry>, n: int, t: Seq<char>)
    requires
        0 <= n <= v.len(),
    ensures
        names(ordered(v, n), t) == names(v.take(n), t),
        ordered(v, n).len() == n,
    decreases n,
{
    if n > 0 {
        lemma_ordered_names(v, n - 1, t);
        let o = ordered(v, n - 1);
        let p = slot(o, size(v[n - 1].text), 0);
        lemma_slot(o, size(v[n - 1].text), 0);
        let r = o.insert(p, v[n - 1]);
        assert(r[p] == v[n - 1]);
        if names(r, t) {
            let i = choose|i: int| 0 <= i < r.len() && (#[trigger] r[i]).text == t;
            if i == p {
                assert(v.take(n)[n - 1].text == t);
            } else {
                let k = if i < p {
                    i
                } else {
                    i - 1
                };
                assert(o[k].text == t);
                let q = choose|q: int| 0 <= q < n - 1 && (#[trigger] v.take(n - 1)[q]).text == t;
                assert(v.take(n)[q].text == t);
            }
        }
        if names(v.take(n), t) {
            let q = choose|q: int| 0 <= q < n && (#[trigger] v.take(n)[q]).text == t;
            if q < n - 1 {
                assert(v.take(n - 1)[q].text == t);
                let i = choose|i: int| 0 <= i < o.len() && (#[trigger] o[i]).text == t;
                if i < p {
                    assert(r[i].text == t);
                } else {
                    assert(r[i + 1].text == t);
                }
            }
        }
    }
}

/// The entries, longest first.
pub fn longest_first(v: &Vec<(String, u32)>) -> (r: Vec<(String, u32)>)
    ensures
        entries(r@) == ordered(entries(v@), v@.len() as int),
{
    let mut r: Vec<(String, u32)> = Vec::new();
    let ghost es = entries(v@);
    let mut k: usize = 0;
    assert(entries(r@) =~= Seq::<Entry>::empty());
    while k < v.len()
        invariant
            k <= v@.len(),
            es == entries(v@),
            entries(r@) == ordered(es, k as int),
        decreases v@.len() - k,
    {
        let n: usize = v[k].0.as_str().as_bytes().len();
        let ghost o = entries(r@);
        let mut p: usize = 0;
        while p < r.len() && r[p].0.as_str().as_bytes().len() >= n
            invariant
                p <= r@.len(),
                o == entries(r@),
                slot(o, n as int, 0) == slot(o, n as int, p as int),
            decreases r@.len() - p,
        {
            assert(o[p as int].text == r@[p as int].0@);
            p = p + 1;
        }
        proof {
            if p < r@.len() {
                assert(o[p as int].text == r@[p as int].0@);
            }
            assert(es[k as int].text == v@[k as int].0@);
        }
        r.insert(p, (v[k].0.clone(), v[k].1));
        assert(entries(r@) =~= o.insert(p as int, es[k as int]));
        k = k + 1;
    }
    r
}

// The bytes of a token.

/// The value of a hexadecimal digit.
pub open spec fn hex(c: char) -> Option<int> {
    if '0' <= c <= '9' {
        Some(c as int - 48)
    } else if 'a' <= c <= 'f' {
        Some(c as int - 87)
    } else if 'A' <= c <= 'F' {
        Some(c as int - 55)
    } else {
        None
    }
}

/// An upper-case hexadecimal digit.
pub open spec fn hex_digit(n: int) -> char {
    if n < 10 {
        (48 + n) as char
    } else {
        (55 + n) as char
    }
}

/// The literal of byte `b`.
pub open spec fn byte_literal(b: int) -> Seq<char> {
    seq!['<', '0', 'x', hex_digit(b / 16), hex_digit(b % 16), '>']
}

/// A literal of the shape of a byte's: two ASCII characters, or one of two
/// bytes, between brackets.
pub open spec fn byte_shaped(t: Seq<char>) -> bool {
    size(t) == 6 && t.len() >= 5 && t[0] == '<' && t[1] == '0' && t[2] == 'x' && t.last() == '>'
}

/// The byte that the middle of a byte-shaped literal spells.
pub open spec fn spelled_byte(t: Seq<char>) -> Option<u8> {
    if t.len() != 6 {
        None
    } else {
        match (hex(t[3]), hex(t[4])) {
            (Some(h), Some(l)) => Some((16 * h + l) as u8),
            (None, Some(l)) => if t[3] == '+' {
                Some(l as u8)
            } else {
                None
            },
            _ => None,
        }
    }
}

/// The bytes that a token decodes to. `literal`: it is a literal; `sp`: the
/// vocabulary is of the metaspace family; `lenient`: a byte's literal that
/// spells no byte decodes as text.
pub open spec fn token_bytes(t: Seq<char>, literal: bool, sp: bool, lenient: bool) -> Seq<u8> {
    if literal {
        encode_utf8(t)
    } else if sp {
        if byte_shaped(t) {
            match spelled_byte(t) {
                Some(b) => seq![b],
                None => if lenient {
                    encode_utf8(t)
                } else {
                    seq![63u8]
                },
            }
        } else {
            encode_utf8(metaspace::plain(t))
        }
    } else {
        roundtrip::unmapped(t)
    }
}

fn hex_of(c: char) -> (r: Option<u8>)
    ensures
        match r {
            Some(v) => hex(c) == Some(v as int) && v < 16,
            None => hex(c) is None,
        },
{
    if '0' <= c && c <= '9' {
        Some((c as u32 - 48) as u8)
    } else if 'a' <= c && c <= 'f' {
        Some((c as u32 - 87) as u8)
    } else if 'A' <= c && c <= 'F' {
        Some((c as u32 - 55) as u8)
    } else {
        None
    }
}

pub(crate) fn literal_of(b: u8) -> (r: String)
    ensures
        r@ == byte_literal(b as int),
{
    let h: u32 = (b / 16) as u32;
    let l: u32 = (b % 16) as u32;
    let mut s: String = String::new();
    text::push_char(&mut s, '<');
    text::push_char(&mut s, '0');
    text::push_char(&mut s, 'x');
    text::push_char(&mut s, text::char_of(if h < 10 {
        48 + h
    } else {
        55 + h
    }));
    text::push_char(&mut s, text::char_of(if l < 10 {
        48 + l
    } else {
        55 + l
    }));
    text::push_char(&mut s, '>');
    assert(s@ =~= byte_literal(b as int));
    s
}

/// The bytes of `s`.
pub(crate) fn bytes_vec(s: &str) -> (r: Vec<u8>)
    ensures
        r@ == encode_utf8(s@),
{
    let b: &[u8] = s.as_bytes();
    let mut r: Vec<u8> = Vec::new();
    let mut i: usize = 0;
    while i < b.len()
        invariant
            i <= b@.len(),
            r@ =~= b@.take(i as int),
        decreases b@.len() - i,
    {
        r.push(b[i]);
        i = i + 1;
    }
    assert(b@.take(b@.len() as int) =~= b@);
    r
}

/// The bytes that a token decodes to.
pub fn decoded(
    t: &str,
    literal: bool,
    sp: bool,
    lenient: bool,
    dec: &HashMap<u32, u8>,
) -> (r: Vec<u8>)
    requires
        alphabet::inverts(dec@),
    ensures
        r@ == token_bytes(t@, literal, sp, lenient),
{
    broadcast use vstd::std_specs::hash::group_hash_axioms;

    if literal {
        return bytes_vec(t);
    }
    let v: Vec<char> = text::to_chars(t);
    let n: usize = v.len();
    if sp {
        let size: usize = t.as_bytes().len();
        if size == 6 && n >= 5 && v[0] == '<' && v[1] == '0' && v[2] == 'x' && v[n - 1] == '>' {
            if n == 6 {
                let h: Option<u8> = hex_of(v[3]);
                let l: Option<u8> = hex_of(v[4]);
                match l {
                    Some(l) => match h {
                        Some(h) => {
                            let mut r: Vec<u8> = Vec::new();
                            r.push(16 * h + l);
                            assert(r@ =~= seq![spelled_byte(t@)->0]);
                            return r;
                        },
                        None => {
                            if v[3] == '+' {
                                let mut r: Vec<u8> = Vec::new();
                                r.push(l);
                                assert(r@ =~= seq![l]);
                                return r;
                            }
                        },
                    },
                    None => {},
                }
            }
            if lenient {
                return bytes_vec(t);
            }
            let mut r: Vec<u8> = Vec::new();
            r.push(63);
            assert(r@ =~= seq![63u8]);
            return r;
        }
        let mut m: String = String::new();
        let mut i: usize = 0;
        while i < n
            invariant
                i <= n,
                n == v@.len(),
                v@ == t@,
                m@ =~= metaspace::plain(t@).take(i as int),
            decreases n - i,
        {
            let c: char = v[i];
            text::push_char(&mut m, if c == METASPACE {
                ' '
            } else {
                c
            });
            i = i + 1;
        }
        assert(m@ =~= metaspace::plain(t@));
        return bytes_vec(m.as_str());
    }
    let mut r: Vec<u8> = Vec::new();
    let mut i: usize = 0;
    while i < n
        invariant
            i <= n,
            n == v@.len(),
            v@ == t@,
            alphabet::inverts(dec@),
            r@ =~= roundtrip::unmapped(t@).take(i as int),
        decreases n - i,
    {
        let c: char = v[i];
        let p: u32 = c as u32;
        assert(alphabet::looked_up(dec@, c) == alphabet::byte_of(c));
        let b: u8 = match dec.get(&p) {
            Some(b) => *b,
            None => 63,
        };
        r.push(b);
        i = i + 1;
    }
    assert(r@ =~= roundtrip::unmapped(t@));
    r
}

// The table of bytes.

/// Every token's bytes stand at its place: an entry is empty where no token
/// has the place, else it holds the bytes of a token that does.
pub open spec fn table_of(
    table: Seq<Vec<u8>>,
    vocab: Map<Seq<char>, u32>,
    lits: Seq<Entry>,
    sp: bool,
    lenient: bool,
) -> bool {
    forall|id: int|
        0 <= id < table.len() ==> {
            ||| table[id]@.len() == 0 && forall|t: Seq<char>| #[trigger]
                vocab.contains_key(t) ==> vocab[t] != id
            ||| exists|t: Seq<char>| #[trigger]
                vocab.contains_key(t) && vocab[t] == id && #[trigger] table[id]@ == token_bytes(
                    t,
                    names(lits, t),
                    sp,
                    lenient,
                )
        }
}

/// Where every token has a number of its own, each decodes to its bytes.
pub proof fn law_distinct_numbers_decode_exactly(
    table: Seq<Vec<u8>>,
    vocab: Map<Seq<char>, u32>,
    lits: Seq<Entry>,
    sp: bool,
    lenient: bool,
    t: Seq<char>,
)
    requires
        table_of(table, vocab, lits, sp, lenient),
        vocab.contains_key(t),
        vocab[t] < table.len(),
        forall|u: Seq<char>| #[trigger] vocab.contains_key(u) && vocab[u] == vocab[t] ==> u == t,
    ensures
        table[vocab[t] as int]@ == token_bytes(t, names(lits, t), sp, lenient),
{
    let id = vocab[t] as int;
    assert(table[id]@ == table[id]@);
}

/// `t` is one of the texts.
pub open spec fn among(v: Seq<String>, t: Seq<char>) -> bool {
    exists|i: int| 0 <= i < v.len() && (#[trigger] v[i])@ == t
}

fn literal_set(lits: &Vec<(String, u32)>) -> (r: StringHashMap<bool>)
    ensures
        forall|t: Seq<char>| #[trigger] r@.contains_key(t) == names(entries(lits@), t),
{
    let mut r: StringHashMap<bool> = StringHashMap::new();
    let ghost es = entries(lits@);
    let mut i: usize = 0;
    while i < lits.len()
        invariant
            i <= lits@.len(),
            es == entries(lits@),
            forall|t: Seq<char>| #[trigger] r@.contains_key(t) == names(es.take(i as int), t),
        decreases lits@.len() - i,
    {
        let ghost r0 = r@;
        r.insert(lits[i].0.clone(), true);
        proof {
            assert forall|t: Seq<char>| #[trigger] r@.contains_key(t) == names(
                es.take(i + 1),
                t,
            ) by {
                assert(r0.contains_key(t) == names(es.take(i as int), t));
                if names(es.take(i as int), t) {
                    let k = choose|k: int|
                        0 <= k < i && (#[trigger] es.take(i as int)[k]).text == t;
                    assert(es.take(i + 1)[k].text == t);
                }
                if names(es.take(i + 1), t) {
                    let k = choose|k: int|
                        0 <= k < i + 1 && (#[trigger] es.take(i + 1)[k]).text == t;
                    if k < i {
                        assert(es.take(i as int)[k].text == t);
                    } else {
                        assert(t == lits@[i as int].0@);
                    }
                }
                if t == lits@[i as int].0@ {
                    assert(es.take(i + 1)[i as int].text == t);
                }
            }
        }
        i = i + 1;
    }
    assert(es.take(i as int) =~= es);
    r
}

/// The table of the first `n` texts' bytes.
spec fn partly(
    table: Seq<Vec<u8>>,
    all: Seq<String>,
    n: int,
    vocab: Map<Seq<char>, u32>,
    lits: Seq<Entry>,
    sp: bool,
    lenient: bool,
    id: int,
) -> bool {
    ||| table[id]@.len() == 0 && forall|i: int|
        0 <= i < n ==> vocab[(#[trigger] all[i])@] != id
    ||| exists|i: int|
        0 <= i < n && vocab[(#[trigger] all[i])@] == id && table[id]@ == token_bytes(
            all[i]@,
            names(lits, all[i]@),
            sp,
            lenient,
        )
}

/// The bytes of every token of the vocabulary, whose texts are `all`.
pub fn bytes_table(
    all: &Vec<String>,
    vocab: &StringHashMap<u32>,
    lits: &Vec<(String, u32)>,
    sp: bool,
    lenient: bool,
    dec: &HashMap<u32, u8>,
    len: usize,
) -> (r: Vec<Vec<u8>>)
    requires
        alphabet::inverts(dec@),
        forall|t: Seq<char>| #[trigger] vocab@.contains_key(t) == among(all@, t),
        forall|t: Seq<char>| #[trigger] vocab@.contains_key(t) ==> vocab@[t] < len,
    ensures
        r@.len() == len,
        table_of(r@, vocab@, entries(lits@), sp, lenient),
{
    let set: StringHashMap<bool> = literal_set(lits);
    let ghost es = entries(lits@);
    let mut r: Vec<Vec<u8>> = Vec::new();
    let mut k: usize = 0;
    while k < len
        invariant
            k <= len,
            r@.len() == k,
            forall|i: int| 0 <= i < k ==> (#[trigger] r@[i])@.len() == 0,
        decreases len - k,
    {
        r.push(Vec::new());
        k = k + 1;
    }
    let mut i: usize = 0;
    while i < all.len()
        invariant
            i <= all@.len(),
            r@.len() == len,
            alphabet::inverts(dec@),
            es == entries(lits@),
            forall|t: Seq<char>| #[trigger] set@.contains_key(t) == names(es, t),
            forall|t: Seq<char>| #[trigger] vocab@.contains_key(t) == among(all@, t),
            forall|t: Seq<char>| #[trigger] vocab@.contains_key(t) ==> vocab@[t] < len,
            forall|id: int|
                0 <= id < len ==> #[trigger] partly(
                    r@,
                    all@,
                    i as int,
                    vocab@,
                    es,
                    sp,
                    lenient,
                    id,
                ),
        decreases all@.len() - i,
    {
        let ghost r0 = r@;
        let t: &str = all[i].as_str();
        proof {
            assert(among(all@, t@)) by {
                assert(all@[i as int]@ == t@);
            }
            assert(vocab@.contains_key(t@));
        }
        let literal: bool = set.contains_key(t);
        let b: Vec<u8> = decoded(t, literal, sp, lenient, dec);
        match vocab.get(t) {
            Some(id) => {
                let at: usize = *id as usize;
                r.set(at, b);
                proof {
                    assert forall|id: int| 0 <= id < len implies #[trigger] partly(
                        r@,
                        all@,
                        i + 1,
                        vocab@,
                        es,
                        sp,
                        lenient,
                        id,
                    ) by {
                        assert(partly(r0, all@, i as int, vocab@, es, sp, lenient, id));
                        if id == at {
                            assert(vocab@[all@[i as int]@] == id);
                        } else {
                            assert(r@[id] == r0[id]);
                            assert(vocab@[all@[i as int]@] != id);
                        }
                    }
                }
            },
            None => {},
        }
        i = i + 1;
    }
    proof {
        assert forall|id: int| 0 <= id < r@.len() implies {
            ||| r@[id]@.len() == 0 && forall|t: Seq<char>| #[trigger]
                vocab@.contains_key(t) ==> vocab@[t] != id
            ||| exists|t: Seq<char>| #[trigger]
                vocab@.contains_key(t) && vocab@[t] == id && #[trigger] r@[id]@ == token_bytes(
                    t,
                    names(es, t),
                    sp,
                    lenient,
                )
        } by {
            assert(partly(r@, all@, all@.len() as int, vocab@, es, sp, lenient, id));
            if exists|i: int|
                0 <= i < all@.len() && vocab@[(#[trigger] all@[i])@] == id && r@[id]@
                    == token_bytes(all@[i]@, names(es, all@[i]@), sp, lenient) {
                let i = choose|i: int|
                    0 <= i < all@.len() && vocab@[(#[trigger] all@[i])@] == id && r@[id]@
                        == token_bytes(all@[i]@, names(es, all@[i]@), sp, lenient);
                assert(among(all@, all@[i]@));
                assert(vocab@.contains_key(all@[i]@));
            } else {
                assert forall|t: Seq<char>| #[trigger] vocab@.contains_key(t) implies vocab@[t]
                    != id by {
                    let i = choose|i: int| 0 <= i < all@.len() && (#[trigger] all@[i])@ == t;
                    assert(vocab@[all@[i]@] != id);
                }
            }
        }
    }
    r
}

/// The tokens of the byte literals.
pub open spec fn byte_ids_of(vocab: Map<Seq<char>, u32>, sp: bool) -> Seq<Option<u32>> {
    Seq::new(
        256,
        |b: int|
            if sp && vocab.contains_key(byte_literal(b)) {
                Some(vocab[byte_literal(b)])
            } else {
                None
            },
    )
}

pub fn byte_tokens(vocab: &StringHashMap<u32>, sp: bool) -> (r: Vec<Option<u32>>)
    ensures
        r@ == byte_ids_of(vocab@, sp),
{
    let mut r: Vec<Option<u32>> = Vec::new();
    let mut b: usize = 0;
    while b < 256
        invariant
            b <= 256,
            r@ =~= byte_ids_of(vocab@, sp).take(b as int),
        decreases 256 - b,
    {
        let id: Option<u32> = if sp {
            let lit: String = literal_of(b as u8);
            match vocab.get(lit.as_str()) {
                Some(id) => Some(*id),
                None => None,
            }
        } else {
            None
        };
        r.push(id);
        b = b + 1;
    }
    assert(r@ =~= byte_ids_of(vocab@, sp));
    r
}

} // verus!
