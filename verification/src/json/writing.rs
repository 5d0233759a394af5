//! JSON values written out, and that they are read back.
use vstd::prelude::*;

use crate::json::{
    document, escape_at, hex4, items_at, members_at, skip_ws, string_at, value_at, Value,
};

verus! {

/// A character is a hexadecimal digit of the value `d`, in either case.
pub open spec fn hex_digit(d: int, c: char) -> bool {
    ||| 0 <= d < 10 && c as int == 48 + d
    ||| 10 <= d < 16 && (c as int == 87 + d || c as int == 55 + d)
}

/// Four characters are the hexadecimal digits of `u`.
pub open spec fn hex_of(u: int, w: Seq<char>) -> bool {
    &&& w.len() == 4
    &&& hex_digit(u / 4096, w[0])
    &&& hex_digit(u / 256 % 16, w[1])
    &&& hex_digit(u / 16 % 16, w[2])
    &&& hex_digit(u % 16, w[3])
}

/// The short escape `e` stands for the character of code `c`.
pub open spec fn short(e: char, c: int) -> bool {
    ||| e == '"' && c == 0x22
    ||| e == '\\' && c == 0x5c
    ||| e == '/' && c == 0x2f
    ||| e == 'b' && c == 0x08
    ||| e == 't' && c == 0x09
    ||| e == 'n' && c == 0x0a
    ||| e == 'f' && c == 0x0c
    ||| e == 'r' && c == 0x0d
}

/// `w` is a way to write `c` in a string: as it stands, by a short escape, by
/// its code, or by the codes of its two surrogates.
pub open spec fn spells(w: Seq<char>, c: char) -> bool {
    let u = c as int;
    ||| w == seq![c] && u >= 0x20 && u != 0x22 && u != 0x5c
    ||| w.len() == 2 && w[0] == '\\' && short(w[1], u)
    ||| w.len() == 6 && w[0] == '\\' && w[1] == 'u' && u < 0x1_0000 && hex_of(u, w.skip(2))
    ||| w.len() == 12 && w[0] == '\\' && w[1] == 'u' && w[6] == '\\' && w[7] == 'u' && u >= 0x1_0000
        && hex_of(0xd800 + (u - 0x1_0000) / 1024, w.subrange(2, 6)) && hex_of(
        0xdc00 + (u - 0x1_0000) % 1024,
        w.skip(8),
    )
}

/// The characters of `t` from `k` on, each in one of its spellings, and the
/// closing quote.
pub open spec fn closed_string(ws: Seq<Seq<char>>, k: int) -> Seq<char>
    decreases ws.len() - k,
{
    if k < 0 || k >= ws.len() {
        seq!['"']
    } else {
        ws[k] + closed_string(ws, k + 1)
    }
}

pub open spec fn spelled(ws: Seq<Seq<char>>, t: Seq<char>) -> bool {
    ws.len() == t.len() && forall|k: int| 0 <= k < t.len() ==> spells(#[trigger] ws[k], t[k])
}

/// The text `w` stands at `i`.
pub open spec fn stands(s: Seq<char>, i: int, w: Seq<char>) -> bool {
    0 <= i && i + w.len() <= s.len() && forall|j: int|
        0 <= j < w.len() ==> #[trigger] w[j] == s[i + j]
}

pub proof fn lemma_parts(s: Seq<char>, i: int, a: Seq<char>, b: Seq<char>)
    requires
        stands(s, i, a + b),
    ensures
        stands(s, i, a),
        stands(s, i + a.len(), b),
{
    let w = a + b;
    assert forall|j: int| 0 <= j < a.len() implies #[trigger] a[j] == s[i + j] by {
        assert(w[j] == a[j]);
    }
    assert forall|j: int| 0 <= j < b.len() implies #[trigger] b[j] == s[i + a.len() + j] by {
        assert(w[a.len() + j] == b[j]);
    }
}

/// Four hexadecimal digits.
proof fn lemma_hex(s: Seq<char>, i: int, u: int, h: Seq<char>)
    requires
        0 <= u < 0x1_0000,
        hex_of(u, h),
        stands(s, i, h),
    ensures
        hex4(s, i) == Some(u),
{
    let (a, b, c, d) = (u / 4096, u / 256 % 16, u / 16 % 16, u % 16);
    assert(u == 4096 * a + 256 * b + 16 * c + d);
    assert(h[0] == s[i] && h[1] == s[i + 1] && h[2] == s[i + 2] && h[3] == s[i + 3]);
}

/// An escape.
proof fn lemma_escape(s: Seq<char>, i: int, w: Seq<char>, c: char)
    requires
        spells(w, c),
        stands(s, i, w),
        w[0] == '\\',
        w.len() > 1,
    ensures
        escape_at(s, i + 1) == Some((c, i + w.len())),
{
    let u = c as int;
    assert(w[0] == s[i] && w[1] == s[i + 1]);
    if w.len() == 6 {
        assert(w =~= w.take(2) + w.skip(2));
        lemma_parts(s, i, w.take(2), w.skip(2));
        lemma_hex(s, i + 2, u, w.skip(2));
    } else if w.len() == 12 {
        let (h, l) = (0xd800 + (u - 0x1_0000) / 1024, 0xdc00 + (u - 0x1_0000) % 1024);
        assert(w =~= w.take(2) + w.skip(2));
        lemma_parts(s, i, w.take(2), w.skip(2));
        assert(w.skip(2) =~= w.subrange(2, 6) + w.skip(6));
        lemma_parts(s, i + 2, w.subrange(2, 6), w.skip(6));
        assert(w.skip(6) =~= w.subrange(6, 8) + w.skip(8));
        lemma_parts(s, i + 6, w.subrange(6, 8), w.skip(8));
        assert(w[6] == s[i + 6] && w[7] == s[i + 7]);
        assert(0x1_0000 <= u < 0x11_0000);
        lemma_hex(s, i + 2, h, w.subrange(2, 6));
        lemma_hex(s, i + 8, l, w.skip(8));
    }
}

/// One character of a string.
proof fn lemma_character(s: Seq<char>, i: int, w: Seq<char>, c: char, acc: Seq<char>)
    requires
        spells(w, c),
        stands(s, i, w),
    ensures
        w.len() > 0,
        string_at(s, i, acc) == string_at(s, i + w.len(), acc.push(c)),
{
    assert(w[0] == s[i]);
    if w.len() > 1 {
        lemma_escape(s, i, w, c);
    }
}

proof fn lemma_string(s: Seq<char>, i: int, ws: Seq<Seq<char>>, t: Seq<char>, k: int, acc: Seq<char>)
    requires
        spelled(ws, t),
        0 <= k <= t.len(),
        stands(s, i, closed_string(ws, k)),
    ensures
        closed_string(ws, k).len() > 0,
        string_at(s, i, acc) == Some((acc + t.skip(k), i + closed_string(ws, k).len())),
    decreases t.len() - k,
{
    let w = closed_string(ws, k);
    if k == t.len() {
        assert(w[0] == s[i]);
        assert(acc + t.skip(k) =~= acc);
    } else {
        assert(spells(ws[k], t[k]));
        lemma_parts(s, i, ws[k], closed_string(ws, k + 1));
        lemma_character(s, i, ws[k], t[k], acc);
        lemma_string(s, i + ws[k].len(), ws, t, k + 1, acc.push(t[k]));
        assert(acc.push(t[k]) + t.skip(k + 1) =~= acc + t.skip(k));
    }
}

/// A string is read as the characters that it was written from, in whichever
/// of its spellings each of them was written.
pub proof fn law_strings_are_read_back(ws: Seq<Seq<char>>, t: Seq<char>)
    requires
        spelled(ws, t),
    ensures
        document(seq!['"'] + closed_string(ws, 0)) == Some(Value::Str(t)),
{
    let w = closed_string(ws, 0);
    let s = seq!['"'] + w;
    assert(s[0] == '"');
    assert(stands(s, 1, w)) by {
        assert forall|j: int| 0 <= j < w.len() implies #[trigger] w[j] == s[1 + j] by {}
    }
    lemma_string(s, 1, ws, t, 0, Seq::empty());
    assert(Seq::<char>::empty() + t.skip(0) =~= t);
}

// Whole values.

/// The character of a hexadecimal digit.
pub open spec fn digit(d: int) -> char {
    if d < 10 {
        (48 + d) as char
    } else {
        (87 + d) as char
    }
}

/// A character as it is written: escaped where it must be.
pub open spec fn escaped(c: char) -> Seq<char> {
    let u = c as int;
    if u == 0x22 || u == 0x5c {
        seq!['\\', c]
    } else if u < 0x20 {
        seq!['\\', 'u', '0', '0', digit(u / 16), digit(u % 16)]
    } else {
        seq![c]
    }
}

pub open spec fn spellings(t: Seq<char>) -> Seq<Seq<char>> {
    Seq::new(t.len(), |k: int| escaped(t[k]))
}

/// A string as it is written.
pub open spec fn quoted(t: Seq<char>) -> Seq<char> {
    seq!['"'] + closed_string(spellings(t), 0)
}

/// A value without numbers.
pub open spec fn numberless(v: Value) -> bool
    decreases v,
{
    match v {
        Value::Num(_) => false,
        Value::Arr(a) => forall|k: int| 0 <= k < a.len() ==> numberless(#[trigger] a[k]),
        Value::Obj(o) => forall|k: int| 0 <= k < o.len() ==> numberless((#[trigger] o[k]).1),
        _ => true,
    }
}

/// A value as it is written.
pub open spec fn written(v: Value) -> Seq<char>
    decreases v, 0int,
{
    match v {
        Value::Null => seq!['n', 'u', 'l', 'l'],
        Value::Bool(true) => seq!['t', 'r', 'u', 'e'],
        Value::Bool(false) => seq!['f', 'a', 'l', 's', 'e'],
        Value::Num(_) => Seq::empty(),
        Value::Str(t) => quoted(t),
        Value::Arr(a) => seq!['['] + (if a.len() == 0 {
            seq![']']
        } else {
            written_items(a, 0)
        }),
        Value::Obj(o) => seq!['{'] + (if o.len() == 0 {
            seq!['}']
        } else {
            written_members(o, 0)
        }),
    }
}

/// The items from `k` on, and the closing bracket.
pub open spec fn written_items(a: Seq<Value>, k: int) -> Seq<char>
    decreases a, a.len() - k,
{
    if 0 <= k < a.len() {
        written(a[k]) + (if k + 1 == a.len() {
            seq![']']
        } else {
            seq![','] + written_items(a, k + 1)
        })
    } else {
        Seq::empty()
    }
}

/// The members from `k` on, and the closing brace.
pub open spec fn written_members(o: Seq<(Seq<char>, Value)>, k: int) -> Seq<char>
    decreases o, o.len() - k,
{
    if 0 <= k < o.len() {
        quoted(o[k].0) + seq![':'] + written(o[k].1) + (if k + 1 == o.len() {
            seq!['}']
        } else {
            seq![','] + written_members(o, k + 1)
        })
    } else {
        Seq::empty()
    }
}

proof fn lemma_escaped(c: char)
    ensures
        spells(escaped(c), c),
{
    let u = c as int;
    let w = escaped(c);
    if u != 0x22 && u != 0x5c && u < 0x20 {
        let h = w.skip(2);
        assert(h[0] == w[2] && h[1] == w[3] && h[2] == w[4] && h[3] == w[5]);
        assert(u / 4096 == 0 && u / 256 % 16 == 0 && u / 16 % 16 == u / 16);
        assert(hex_of(u, h));
    }
}

proof fn lemma_spellings(t: Seq<char>)
    ensures
        spelled(spellings(t), t),
{
    assert forall|k: int| 0 <= k < t.len() implies spells(#[trigger] spellings(t)[k], t[k]) by {
        lemma_escaped(t[k]);
    }
}

proof fn lemma_quoted(s: Seq<char>, i: int, t: Seq<char>)
    requires
        stands(s, i, quoted(t)),
    ensures
        s[i] == '"',
        quoted(t).len() >= 2,
        string_at(s, i + 1, Seq::empty()) == Some((t, i + quoted(t).len())),
{
    lemma_spellings(t);
    let w = closed_string(spellings(t), 0);
    lemma_parts(s, i, seq!['"'], w);
    assert(seq!['"'][0] == s[i]);
    lemma_string(s, i + 1, spellings(t), t, 0, Seq::empty());
    assert(Seq::<char>::empty() + t.skip(0) =~= t);
}

/// A written value begins with none of the characters between values.
proof fn lemma_first(v: Value)
    requires
        numberless(v),
    ensures
        written(v).len() > 0,
        ({
            let c = written(v)[0];
            c == 'n' || c == 't' || c == 'f' || c == '"' || c == '[' || c == '{'
        }),
{
}

proof fn lemma_value(s: Seq<char>, i: int, v: Value)
    requires
        numberless(v),
        stands(s, i, written(v)),
    ensures
        value_at(s, i) == Some((v, i + written(v).len())),
    decreases v, 0int,
{
    let w = written(v);
    lemma_first(v);
    assert(w[0] == s[i]);
    match v {
        Value::Null => {
            reveal_strlit("null");
            assert(w[1] == s[i + 1] && w[2] == s[i + 2] && w[3] == s[i + 3]);
            assert(s.subrange(i, i + 4) =~= "null"@);
        },
        Value::Bool(b) => {
            reveal_strlit("null");
            reveal_strlit("true");
            reveal_strlit("false");
            assert(w[1] == s[i + 1] && w[2] == s[i + 2] && w[3] == s[i + 3]);
            assert("null"@[0] == 'n' && "true"@[0] == 't');
            if b {
                assert(s.subrange(i, i + 4)[0] == s[i]);
                assert(s.subrange(i, i + 4) =~= "true"@);
            } else {
                assert(w[4] == s[i + 4]);
                assert(s.subrange(i, i + 4)[0] == s[i]);
                assert(s.subrange(i, i + 5) =~= "false"@);
            }
        },
        Value::Num(_) => {},
        Value::Str(t) => {
            lemma_quoted(s, i, t);
        },
        Value::Arr(a) => {
            if a.len() == 0 {
                assert(w[1] == s[i + 1]);
                assert(a =~= Seq::empty());
            } else {
                let rest = written_items(a, 0);
                lemma_parts(s, i, seq!['['], rest);
                lemma_items(s, i + 1, a, 0, Seq::empty());
                assert(Seq::<Value>::empty() + a.skip(0) =~= a);
            }
        },
        Value::Obj(o) => {
            if o.len() == 0 {
                assert(w[1] == s[i + 1]);
                assert(o =~= Seq::empty());
            } else {
                let rest = written_members(o, 0);
                lemma_parts(s, i, seq!['{'], rest);
                lemma_members(s, i + 1, o, 0, Seq::empty());
                assert(Seq::<(Seq<char>, Value)>::empty() + o.skip(0) =~= o);
            }
        },
    }
}

proof fn lemma_items(s: Seq<char>, i: int, a: Seq<Value>, k: int, acc: Seq<Value>)
    requires
        forall|j: int| 0 <= j < a.len() ==> numberless(#[trigger] a[j]),
        0 <= k < a.len(),
        stands(s, i, written_items(a, k)),
    ensures
        written_items(a, k).len() >= 2,
        s[i] != ']',
        skip_ws(s, i) == i,
        items_at(s, i, acc) == Some((Value::Arr(acc + a.skip(k)), i + written_items(a, k).len())),
    decreases a, a.len() - k,
{
    let x = written(a[k]);
    let tail = if k + 1 == a.len() {
        seq![']']
    } else {
        seq![','] + written_items(a, k + 1)
    };
    assert(numberless(a[k]));
    lemma_parts(s, i, x, tail);
    lemma_first(a[k]);
    assert(x[0] == s[i]);
    lemma_value(s, i, a[k]);
    let j = i + x.len();
    assert(tail[0] == s[j]);
    assert(skip_ws(s, j) == j);
    if k + 1 == a.len() {
        assert(acc.push(a[k]) =~= acc + a.skip(k));
    } else {
        lemma_parts(s, j, seq![','], written_items(a, k + 1));
        lemma_items(s, j + 1, a, k + 1, acc.push(a[k]));
        assert(acc.push(a[k]) + a.skip(k + 1) =~= acc + a.skip(k));
    }
}

proof fn lemma_members(
    s: Seq<char>,
    i: int,
    o: Seq<(Seq<char>, Value)>,
    k: int,
    acc: Seq<(Seq<char>, Value)>,
)
    requires
        forall|j: int| 0 <= j < o.len() ==> numberless((#[trigger] o[j]).1),
        0 <= k < o.len(),
        stands(s, i, written_members(o, k)),
    ensures
        written_members(o, k).len() >= 2,
        s[i] != '}',
        skip_ws(s, i) == i,
        members_at(s, i, acc) == Some((Value::Obj(acc + o.skip(k)), i + written_members(o, k).len())),
    decreases o, o.len() - k,
{
    let (y, v) = o[k];
    let (q, x) = (quoted(y), written(v));
    let tail = if k + 1 == o.len() {
        seq!['}']
    } else {
        seq![','] + written_members(o, k + 1)
    };
    assert(numberless(o[k].1));
    lemma_parts(s, i, q + seq![':'] + x, tail);
    lemma_parts(s, i, q + seq![':'], x);
    lemma_parts(s, i, q, seq![':']);
    lemma_quoted(s, i, y);
    let j = i + q.len();
    assert(seq![':'][0] == s[j]);
    assert(skip_ws(s, j) == j);
    lemma_first(v);
    assert(x[0] == s[j + 1]);
    assert(skip_ws(s, j + 1) == j + 1);
    lemma_value(s, j + 1, v);
    let n = j + 1 + x.len();
    assert(tail[0] == s[n]);
    assert(skip_ws(s, n) == n);
    if k + 1 == o.len() {
        assert(acc.push(o[k]) =~= acc + o.skip(k));
    } else {
        lemma_parts(s, n, seq![','], written_members(o, k + 1));
        lemma_members(s, n + 1, o, k + 1, acc.push(o[k]));
        assert(acc.push(o[k]) + o.skip(k + 1) =~= acc + o.skip(k));
    }
}

/// Null, truth values, strings, arrays and objects of them, at any depth, are
/// read back as the values that were written.
pub proof fn law_values_are_read_back(v: Value)
    requires
        numberless(v),
    ensures
        document(written(v)) == Some(v),
{
    let s = written(v);
    lemma_first(v);
    lemma_value(s, 0, v);
    assert(skip_ws(s, 0) == 0);
}

} // verus!
