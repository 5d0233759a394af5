//! UTF-8 in streams of bytes.
use vstd::prelude::*;
use vstd::utf8::*;

verus! {

/// What `String::from_utf8_lossy` makes of the bytes.
pub uninterp spec fn lossy_text(b: Seq<u8>) -> Seq<char>;

/// `String::from_utf8_lossy`: the text of the bytes. Bytes that are UTF-8 are
/// decoded as they stand; how the others are replaced is not stated.
#[verifier::external_body]
pub(crate) fn lossy(b: &[u8]) -> (r: String)
    ensures
        r@ == lossy_text(b@),
        valid_utf8(b@) ==> r@ == decode_utf8(b@),
{
    String::from_utf8_lossy(b).into_owned()
}

/// The text of bytes, whole characters or not.
pub open spec fn text_of(b: Seq<u8>) -> Seq<char> {
    if valid_utf8(b) {
        decode_utf8(b)
    } else {
        lossy_text(b)
    }
}

/// Length of the encoded character at `i`, if one stands there whole.
fn scalar_len(b: &Vec<u8>, i: usize) -> (r: Option<usize>)
    requires
        i < b@.len(),
    ensures
        match r {
            Some(n) => valid_first_scalar(b@.skip(i as int)) && n == length_of_first_scalar(
                b@.skip(i as int),
            ) && 1 <= n <= b@.len() - i,
            None => !valid_first_scalar(b@.skip(i as int)),
        },
{
    let ghost s = b@.skip(i as int);
    let left: usize = b.len() - i;
    let b0: u8 = b[i];
    assert(s[0] == b0);
    if b0 <= 0x7f {
        assert(b0 <= 0x7f ==> (b0 & 0x7f) == b0) by (bit_vector);
        return Some(1);
    }
    if b0 < 0xc0 || 0xf7 < b0 {
        return None;
    }
    if left < 2 {
        return None;
    }
    let b1: u8 = b[i + 1];
    assert(s[1] == b1);
    if b1 < 0x80 || 0xbf < b1 {
        return None;
    }
    if b0 <= 0xdf {
        let c: u32 = (((b0 & 0x1f) as u32) << 6) | ((b1 & 0x3f) as u32);
        assert(c == (((b0 & 0x1f) as u32) << 6) | ((b1 & 0x3f) as u32) ==> c < 0xd800)
            by (bit_vector);
        return if 0x80 <= c {
            Some(2)
        } else {
            None
        };
    }
    if left < 3 {
        return None;
    }
    let b2: u8 = b[i + 2];
    assert(s[2] == b2);
    if b2 < 0x80 || 0xbf < b2 {
        return None;
    }
    if b0 <= 0xef {
        let c: u32 = (((b0 & 0x0f) as u32) << 12) | (((b1 & 0x3f) as u32) << 6) | ((b2
            & 0x3f) as u32);
        return if 0x800 <= c && (c < 0xd800 || 0xdfff < c) {
            Some(3)
        } else {
            None
        };
    }
    if left < 4 {
        return None;
    }
    let b3: u8 = b[i + 3];
    assert(s[3] == b3);
    if b3 < 0x80 || 0xbf < b3 {
        return None;
    }
    let c: u32 = (((b0 & 0x07) as u32) << 18) | (((b1 & 0x3f) as u32) << 12) | (((b2
        & 0x3f) as u32) << 6) | ((b3 & 0x3f) as u32);
    if 0x10000 <= c && c <= 0x10ffff {
        Some(4)
    } else {
        None
    }
}

/// `n` bytes are the longest start of `b` that is UTF-8.
pub open spec fn longest_valid(b: Seq<u8>, n: int) -> bool {
    &&& 0 <= n <= b.len()
    &&& valid_utf8(b.take(n))
    &&& forall|k: int| n < k <= b.len() ==> !#[trigger] valid_utf8(b.take(k))
}

/// The longest start of `b`, of at most `n` bytes, that is UTF-8.
pub open spec fn valid_within(b: Seq<u8>, n: int) -> int
    decreases n,
{
    if n <= 0 {
        0
    } else if valid_utf8(b.take(n)) {
        n
    } else {
        valid_within(b, n - 1)
    }
}

/// How many bytes from the start are whole characters.
pub open spec fn valid_len(b: Seq<u8>) -> int {
    valid_within(b, b.len() as int)
}

pub proof fn lemma_valid_within(b: Seq<u8>, n: int)
    requires
        0 <= n <= b.len(),
    ensures
        0 <= valid_within(b, n) <= n,
        valid_utf8(b.take(valid_within(b, n))),
        forall|k: int| valid_within(b, n) < k <= n ==> !#[trigger] valid_utf8(b.take(k)),
    decreases n,
{
    if n == 0 {
        assert(b.take(0) =~= Seq::<u8>::empty());
    } else if !valid_utf8(b.take(n)) {
        lemma_valid_within(b, n - 1);
    }
}

/// How many bytes from the start are whole characters.
pub fn valid_up_to(b: &Vec<u8>) -> (r: usize)
    ensures
        r == valid_len(b@),
        longest_valid(b@, r as int),
{
    proof {
        lemma_valid_within(b@, b@.len() as int);
    }
    let mut i: usize = 0;
    assert(b@.take(0) =~= Seq::<u8>::empty());
    while i < b.len()
        invariant
            i <= b@.len(),
            valid_utf8(b@.take(i as int)),
            longest_valid(b@, valid_len(b@)),
        decreases b@.len() - i,
    {
        match scalar_len(b, i) {
            Some(n) => {
                proof {
                    let s = b@.skip(i as int);
                    assert(s =~= b@.subrange(i as int, b@.len() as int));
                    assert(b@.take(i as int) =~= b@.subrange(0, i as int));
                    partial_valid_utf8_extend(b@, i as int);
                    assert(b@.take(i + n) =~= b@.subrange(0, i + n));
                }
                i = i + n;
            },
            None => {
                proof {
                    assert forall|k: int| i < k <= b@.len() implies !#[trigger] valid_utf8(
                        b@.take(k),
                    ) by {
                        let t = b@.take(k);
                        let u = t.subrange(i as int, k);
                        let s = b@.skip(i as int);
                        assert(t.subrange(0, i as int) =~= b@.take(i as int));
                        if valid_first_scalar(u) {
                            assert(forall|m: int| 0 <= m < u.len() ==> u[m] == s[m]);
                            assert(valid_first_scalar(s));
                        }
                        partial_valid_partial_invalid_utf8(t, i as int);
                    }
                    assert(valid_len(b@) == i);
                }
                return i;
            },
        }
    }
    i
}

/// Bytes that a character takes.
pub open spec fn width(c: char) -> int {
    let n = c as u32;
    if n <= 0x7f {
        1
    } else if n <= 0x7ff {
        2
    } else if n <= 0xffff {
        3
    } else {
        4
    }
}

pub proof fn lemma_width(c: char)
    ensures
        encode_scalar(c as u32).len() == width(c),
{
    char_is_scalar(c);
}

/// A text's encoding is that of its parts, one after the other.
pub proof fn lemma_encode_concat(a: Seq<char>, b: Seq<char>)
    ensures
        encode_utf8(a + b) == encode_utf8(a) + encode_utf8(b),
    decreases a.len(),
{
    if a.len() == 0 {
        assert(a + b =~= b);
        assert(encode_utf8(a) + encode_utf8(b) =~= encode_utf8(b));
    } else {
        assert((a + b).drop_first() =~= a.drop_first() + b);
        lemma_encode_concat(a.drop_first(), b);
        assert(encode_scalar(a[0] as u32) + (encode_utf8(a.drop_first()) + encode_utf8(b))
            =~= encode_utf8(a) + encode_utf8(b));
    }
}

/// Bytes of the first `n` characters of a text.
pub fn prefix_bytes(text: &str, v: &Vec<char>, n: usize) -> (r: usize)
    requires
        v@ == text@,
        n <= v@.len(),
    ensures
        r == encode_utf8(text@.take(n as int)).len(),
{
    let whole: usize = text.as_bytes().len();
    let mut i: usize = 0;
    let mut r: usize = 0;
    assert(v@.take(0) =~= Seq::<char>::empty());
    while i < n
        invariant
            i <= n <= v@.len(),
            v@ == text@,
            whole == encode_utf8(v@).len(),
            r == encode_utf8(v@.take(i as int)).len(),
        decreases n - i,
    {
        let c: char = v[i];
        proof {
            let one = seq![c];
            assert(v@.take(i + 1) =~= v@.take(i as int) + one);
            lemma_encode_concat(v@.take(i as int), one);
            assert(one.drop_first() =~= Seq::<char>::empty());
            reveal_with_fuel(encode_utf8, 2);
            assert(encode_utf8(one) =~= encode_scalar(c as u32));
            lemma_width(c);
            assert(v@ =~= v@.take(i + 1) + v@.skip(i + 1));
            lemma_encode_concat(v@.take(i + 1), v@.skip(i + 1));
        }
        let k: u32 = c as u32;
        let w: usize = if k <= 0x7f {
            1
        } else if k <= 0x7ff {
            2
        } else if k <= 0xffff {
            3
        } else {
            4
        };
        r = r + w;
        i = i + 1;
    }
    r
}

} // verus!
