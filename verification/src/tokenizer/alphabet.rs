//! The byte alphabet: a printable character for every byte.
use std::collections::HashMap;
use vstd::prelude::*;

use crate::text;

verus! {

broadcast use vstd::std_specs::hash::group_hash_axioms;

/// Code point of the character that stands for byte `b`: printable bytes for
/// themselves, the others for the characters from 256 on, in order.
pub open spec fn point(b: int) -> int {
    if b <= 0x20 {
        256 + b
    } else if b <= 0x7e {
        b
    } else if b <= 0xa0 {
        162 + b
    } else if b == 0xad {
        323
    } else {
        b
    }
}

/// The character that stands for byte `b`.
pub open spec fn letter(b: u8) -> char {
    point(b as int) as char
}

/// The byte that a character stands for.
pub open spec fn byte_of(c: char) -> Option<u8> {
    let n = c as int;
    if 256 <= n <= 288 {
        Some((n - 256) as u8)
    } else if 0x21 <= n <= 0x7e {
        Some(n as u8)
    } else if 289 <= n <= 322 {
        Some((n - 162) as u8)
    } else if n == 323 {
        Some(0xad)
    } else if 0xa1 <= n <= 0xff && n != 0xad {
        Some(n as u8)
    } else {
        None
    }
}

/// The byte that a table by code point gives for a character.
pub open spec fn looked_up(dec: Map<u32, u8>, c: char) -> Option<u8> {
    if dec.contains_key(c as u32) {
        Some(dec[c as u32])
    } else {
        None
    }
}

/// The table is the alphabet's inverse.
pub open spec fn inverts(dec: Map<u32, u8>) -> bool {
    forall|c: char| #[trigger] looked_up(dec, c) == byte_of(c)
}

/// Code point `p` stands for a byte.
pub open spec fn stands(p: u32) -> bool {
    exists|b: u8| p == #[trigger] point(b as int)
}

/// Every code point of the table stands for a byte: for those that are no
/// characters there is no entry.
pub open spec fn only_points(dec: Map<u32, u8>) -> bool {
    forall|p: u32| #[trigger] dec.contains_key(p) ==> stands(p)
}

/// The code points of the bytes below `n`.
pub open spec fn points(n: int) -> Set<u32> {
    Set::new(|p: u32| exists|b: u8| b < n && p == #[trigger] point(b as int))
}

proof fn lemma_points(n: int)
    requires
        0 <= n <= 256,
    ensures
        points(n).finite(),
        points(n).len() == n,
    decreases n,
{
    if n == 0 {
        assert(points(n) =~= Set::empty());
    } else {
        lemma_points(n - 1);
        let b = (n - 1) as u8;
        let p = point(b as int) as u32;
        assert(points(n) =~= points(n - 1).insert(p)) by {
            assert forall|q: u32| points(n).contains(q) <==> points(n - 1).insert(p).contains(
                q,
            ) by {
                if points(n).contains(q) {
                    let k = choose|k: u8| k < n && q == #[trigger] point(k as int);
                    if k < n - 1 {
                        assert(points(n - 1).contains(q));
                    }
                }
                if points(n - 1).contains(q) {
                    let k = choose|k: u8| k < n - 1 && q == #[trigger] point(k as int);
                    assert(k < n);
                }
                if q == p {
                    assert(point(b as int) == q);
                }
            }
        }
        assert(!points(n - 1).contains(p));
    }
}

/// A table that inverts the alphabet and holds nothing else has one entry for
/// every byte: two hundred and fifty-six.
pub proof fn law_table_has_an_entry_per_byte(dec: Map<u32, u8>)
    requires
        inverts(dec),
        only_points(dec),
    ensures
        dec.dom() == points(256),
        dec.dom().len() == 256,
        forall|b: u8|
            dec.contains_key((#[trigger] point(b as int)) as u32) && dec[point(b as int) as u32]
                == b,
{
    lemma_points(256);
    assert forall|b: u8|
        dec.contains_key((#[trigger] point(b as int)) as u32) && dec[point(b as int) as u32]
            == b by {
        let c = letter(b);
        lemma_code_point(c);
        assert(byte_of(c) == Some(b));
        assert(looked_up(dec, c) == byte_of(c));
    }
    assert forall|p: u32| dec.dom().contains(p) <==> points(256).contains(p) by {
        if dec.contains_key(p) {
            assert(stands(p));
            let b = choose|b: u8| p == #[trigger] point(b as int);
            assert(b < 256);
        }
        if points(256).contains(p) {
            let b = choose|b: u8| b < 256 && p == #[trigger] point(b as int);
            assert(dec.contains_key(point(b as int) as u32));
        }
    }
    assert(dec.dom() =~= points(256));
}

/// A byte that is printable stands for itself.
pub open spec fn printable(b: int) -> bool {
    0x21 <= b <= 0x7e || 0xa1 <= b <= 0xac || 0xae <= b <= 0xff
}

/// Bytes below `b` that do not stand for themselves.
pub open spec fn shifted_below(b: int) -> int
    decreases b,
{
    if b <= 0 {
        0
    } else {
        shifted_below(b - 1) + if printable(b - 1) {
            0int
        } else {
            1int
        }
    }
}

/// The bytes that do not stand for themselves, sixty-eight, stand in increasing
/// order for the characters from U+0100 to U+0143.
pub proof fn law_other_bytes_shift_in_order(b: int)
    requires
        0 <= b <= 256,
    ensures
        b < 256 ==> point(b) == if printable(b) {
            b
        } else {
            0x100 + shifted_below(b)
        },
        shifted_below(b) == (if b <= 0x21 {
            b
        } else if b <= 0x7f {
            33
        } else if b <= 0xa1 {
            b - 94
        } else if b <= 0xad {
            67
        } else {
            68
        }),
        b == 256 ==> 0x100 + shifted_below(b) - 1 == 0x143,
    decreases b,
{
    if b > 0 {
        law_other_bytes_shift_in_order(b - 1);
    }
}

/// Every byte has a character of its own, and the character gives it back.
pub proof fn law_alphabet_is_a_bijection(a: u8, b: u8)
    ensures
        byte_of(letter(a)) == Some(a),
        letter(a) == letter(b) ==> a == b,
{
}

proof fn lemma_code_point(c: char)
    ensures
        (c as u32) == (c as int),
{
}

/// The characters of the bytes, and the bytes by code point.
pub fn byte_alphabet() -> (r: (Vec<char>, HashMap<u32, u8>))
    ensures
        r.0@.len() == 256,
        forall|b: int| 0 <= b < 256 ==> #[trigger] r.0@[b] == letter(b as u8),
        inverts(r.1@),
        only_points(r.1@),
        r.1@.dom().len() == 256,
{
    let mut enc: Vec<char> = Vec::new();
    let mut dec: HashMap<u32, u8> = HashMap::new();
    let mut n: u32 = 0;
    let mut b: u32 = 0;
    while b < 256
        invariant
            b <= 256,
            n == (if b <= 0x21 {
                b as int
            } else if b <= 0x7f {
                33
            } else if b <= 0xa1 {
                b - 94
            } else if b <= 0xad {
                67
            } else {
                68
            }),
            enc@.len() == b,
            forall|k: int| 0 <= k < b ==> #[trigger] enc@[k] == letter(k as u8),
            forall|p: u32| #[trigger]
                dec@.contains_key(p) ==> exists|k: u8| k < b && p == #[trigger] point(k as int)
                    && dec@[p] == k,
            forall|k: u8|
                k < b ==> dec@.contains_key((#[trigger] point(k as int)) as u32) && dec@[point(
                    k as int,
                ) as u32] == k,
        decreases 256 - b,
    {
        let printable: bool = (0x21 <= b && b <= 0x7e) || (0xa1 <= b && b <= 0xac) || 0xae <= b;
        let p: u32 = if printable {
            b
        } else {
            256 + n
        };
        assert(p == point(b as int));
        let c: char = text::char_of(p);
        let ghost dec0 = dec@;
        enc.push(c);
        dec.insert(p, b as u8);
        if !printable {
            n = n + 1;
        }
        proof {
            assert forall|q: u32| #[trigger] dec@.contains_key(q) implies exists|k: u8|
                k < b + 1 && q == #[trigger] point(k as int) && dec@[q] == k by {
                if q == p {
                    assert(point(b as u8 as int) == q);
                } else {
                    assert(dec0.contains_key(q));
                }
            }
            assert forall|k: u8| k < b + 1 implies dec@.contains_key(
                (#[trigger] point(k as int)) as u32,
            ) && dec@[point(k as int) as u32] == k by {
                if k < b {
                    assert(dec0.contains_key(point(k as int) as u32));
                    assert(point(k as int) != point(b as int));
                }
            }
        }
        b = b + 1;
    }
    proof {
        assert forall|c: char| #[trigger] looked_up(dec@, c) == byte_of(c) by {
            let p = c as u32;
            lemma_code_point(c);
            if dec@.contains_key(p) {
                let k = choose|k: u8| k < 256 && p == #[trigger] point(k as int) && dec@[p] == k;
                assert(p == point(k as int));
                assert(byte_of(c) == Some(k));
            }
            if byte_of(c) is Some {
                let k = byte_of(c)->0;
                assert(point(k as int) == p);
            }
        }
        assert forall|p: u32| #[trigger] dec@.contains_key(p) implies stands(p) by {
            let k = choose|k: u8| k < 256 && p == #[trigger] point(k as int) && dec@[p] == k;
            assert(p == point(k as int));
        }
        law_table_has_an_entry_per_byte(dec@);
    }
    (enc, dec)
}

} // verus!
