//! How levels and scales are packed into blocks. Decoding undoes it.
use vstd::prelude::*;

use crate::ieee;
use crate::ieee::Format;
use crate::quant::bnb;
use crate::quant::bnb::{BnbState, Nf4Family, Outcome};
use crate::quant::gguf;
use crate::num;
use crate::tensor;
use crate::tensor::DType;
use crate::weights::LoadedWeights;

verus! {

/// What a block stands for.
pub struct Levels {
    /// The scale of the block, a half-precision pattern.
    pub d: int,
    /// The minimum of the block, or its scale.
    pub m: int,
    /// The scales of the sub-blocks.
    pub sc: Seq<int>,
    /// The minima of the sub-blocks.
    pub mins: Seq<int>,
    /// The level of every element.
    pub q: Seq<int>,
}

/// `n` numbers from `lo` up to, but without, `hi`.
pub open spec fn within(s: Seq<int>, n: int, lo: int, hi: int) -> bool {
    s.len() == n && forall|i: int| 0 <= i < n ==> lo <= #[trigger] s[i] < hi
}

/// The levels and scales that a format can hold.
pub open spec fn admits(dt: DType, l: Levels) -> bool {
    &&& 0 <= l.d < 0x1_0000
    &&& 0 <= l.m < 0x1_0000
    &&& match dt {
        DType::GgufQ8_0 => within(l.q, 32, -128, 128),
        DType::GgufQ4_0 | DType::GgufQ4_1 => within(l.q, 32, 0, 16),
        DType::GgufQ5_0 | DType::GgufQ5_1 => within(l.q, 32, 0, 32),
        DType::GgufQ4K => within(l.q, 256, 0, 16) && within(l.sc, 8, 0, 64) && within(
            l.mins,
            8,
            0,
            64,
        ),
        DType::GgufQ5K => within(l.q, 256, 0, 32) && within(l.sc, 8, 0, 64) && within(
            l.mins,
            8,
            0,
            64,
        ),
        DType::GgufQ6K => within(l.q, 256, 0, 64) && within(l.sc, 16, -128, 128),
        DType::GgufIQ4XS => within(l.q, 256, 0, 16) && within(l.sc, 8, 0, 64),
        _ => false,
    }
}

/// What element `i` of a block stands for, in half precision: scale times
/// level, with the minimum or the offset of the format, each step rounded to
/// single precision.
pub open spec fn meant(dt: DType, l: Levels, i: int) -> int {
    let f = Format::F32;
    let d = Format::F16.convert(f, l.d);
    let m = Format::F16.convert(f, l.m);
    f.convert(
        Format::F16,
        match dt {
            DType::GgufQ8_0 => f.product(d, f.of_int(l.q[i])),
            DType::GgufQ4_0 => f.product(d, f.of_int(l.q[i] - 8)),
            DType::GgufQ5_0 => f.product(d, f.of_int(l.q[i] - 16)),
            DType::GgufQ4_1 | DType::GgufQ5_1 => f.sum(f.product(d, f.of_int(l.q[i])), m),
            DType::GgufQ4K | DType::GgufQ5K => f.difference(
                f.product(f.product(d, f.of_int(l.sc[i / 32])), f.of_int(l.q[i])),
                f.product(m, f.of_int(l.mins[i / 32])),
            ),
            DType::GgufQ6K => f.product(
                f.product(d, f.of_int(l.sc[i / 16])),
                f.of_int(l.q[i] - 32),
            ),
            _ => f.product(
                f.product(d, f.of_int(l.sc[i / 32] - 32)),
                f.of_int(gguf::IQ4NL[l.q[i]] as int),
            ),
        },
    )
}

/// Byte `k` of a little-endian half.
pub open spec fn half_byte(h: int, k: int) -> int {
    if k == 0 {
        h % 256
    } else {
        h / 256
    }
}

/// A byte of two nibbles.
pub open spec fn two(low: int, high: int) -> int {
    low % 16 + 16 * (high % 16)
}

/// A byte of four bit pairs, the first one lowest.
pub open spec fn four(a: int, b: int, c: int, d: int) -> int {
    a + 4 * b + 16 * c + 64 * d
}

/// A byte of the bits `c(0)` to `c(7)`, the first one lowest.
pub open spec fn eight(c: spec_fn(int) -> int) -> int {
    c(0) + 2 * c(1) + 4 * c(2) + 8 * c(3) + 16 * c(4) + 32 * c(5) + 64 * c(6) + 128 * c(7)
}

/// A number from -128 to 127 as a byte.
pub open spec fn twos(n: int) -> int {
    if n < 0 {
        n + 256
    } else {
        n
    }
}

/// Byte `j` of the nibbles of 32 levels: a level and the one 16 behind it.
pub open spec fn nibbles32(q: Seq<int>, at: int, j: int) -> int {
    two(q[at + j], q[at + j + 16])
}

/// Byte `j` of the nibbles of 256 levels: a level and the one 32 behind it.
pub open spec fn nibbles256(q: Seq<int>, j: int) -> int {
    two(q[64 * (j / 32) + j % 32], q[64 * (j / 32) + j % 32 + 32])
}

/// Byte `j` of the fifth bits of 32 levels.
pub open spec fn fifths32(q: Seq<int>, j: int) -> int {
    eight(|t: int| q[8 * j + t] / 16)
}

/// Byte `j` of the fifth bits of 256 levels, one of each sub-block.
pub open spec fn fifths256(q: Seq<int>, j: int) -> int {
    eight(|t: int| q[32 * t + j] / 16)
}

/// Byte `j` of eight 6-bit scales and minima.
pub open spec fn scales12(sc: Seq<int>, mins: Seq<int>, j: int) -> int {
    if j < 4 {
        sc[j] + 64 * (sc[j + 4] / 16)
    } else if j < 8 {
        mins[j - 4] + 64 * (mins[j] / 16)
    } else {
        two(sc[j - 4], mins[j - 4])
    }
}

/// Byte `j` of a block.
pub open spec fn packed_byte(dt: DType, l: Levels, j: int) -> int {
    match dt {
        DType::GgufQ8_0 => if j < 2 {
            half_byte(l.d, j)
        } else {
            twos(l.q[j - 2])
        },
        DType::GgufQ4_0 => if j < 2 {
            half_byte(l.d, j)
        } else {
            nibbles32(l.q, 0, j - 2)
        },
        DType::GgufQ4_1 => if j < 2 {
            half_byte(l.d, j)
        } else if j < 4 {
            half_byte(l.m, j - 2)
        } else {
            nibbles32(l.q, 0, j - 4)
        },
        DType::GgufQ5_0 => if j < 2 {
            half_byte(l.d, j)
        } else if j < 6 {
            fifths32(l.q, j - 2)
        } else {
            nibbles32(l.q, 0, j - 6)
        },
        DType::GgufQ5_1 => if j < 2 {
            half_byte(l.d, j)
        } else if j < 4 {
            half_byte(l.m, j - 2)
        } else if j < 8 {
            fifths32(l.q, j - 4)
        } else {
            nibbles32(l.q, 0, j - 8)
        },
        DType::GgufQ4K => if j < 2 {
            half_byte(l.d, j)
        } else if j < 4 {
            half_byte(l.m, j - 2)
        } else if j < 16 {
            scales12(l.sc, l.mins, j - 4)
        } else {
            nibbles256(l.q, j - 16)
        },
        DType::GgufQ5K => if j < 2 {
            half_byte(l.d, j)
        } else if j < 4 {
            half_byte(l.m, j - 2)
        } else if j < 16 {
            scales12(l.sc, l.mins, j - 4)
        } else if j < 48 {
            fifths256(l.q, j - 16)
        } else {
            nibbles256(l.q, j - 48)
        },
        DType::GgufQ6K => if j < 128 {
            two(l.q[128 * (j / 64) + j % 64], l.q[128 * (j / 64) + j % 64 + 64])
        } else if j < 192 {
            let at = 128 * ((j - 128) / 32) + (j - 128) % 32;
            four(l.q[at] / 16, l.q[at + 32] / 16, l.q[at + 64] / 16, l.q[at + 96] / 16)
        } else if j < 208 {
            twos(l.sc[j - 192])
        } else {
            half_byte(l.d, j - 208)
        },
        _ => if j < 2 {
            half_byte(l.d, j)
        } else if j < 4 {
            let at = 4 * (j - 2);
            four(l.sc[at] / 16, l.sc[at + 1] / 16, l.sc[at + 2] / 16, l.sc[at + 3] / 16)
        } else if j < 8 {
            two(l.sc[2 * (j - 4)], l.sc[2 * (j - 4) + 1])
        } else {
            nibbles32(l.q, 32 * ((j - 8) / 16), (j - 8) % 16)
        },
    }
}

/// The block that holds the levels: every level has bits of its own.
pub open spec fn packed(dt: DType, l: Levels) -> Seq<u8> {
    Seq::new(tensor::block_len(dt) as nat, |j: int| packed_byte(dt, l, j) as u8)
}

proof fn lemma_small_powers()
    ensures
        ieee::p2(0) == 1,
        ieee::p2(1) == 2,
        ieee::p2(2) == 4,
        ieee::p2(3) == 8,
        ieee::p2(4) == 16,
        ieee::p2(5) == 32,
        ieee::p2(6) == 64,
        ieee::p2(7) == 128,
        ieee::p2(8) == 256,
        ieee::p2(10) == 1024,
        ieee::p2(12) == 4096,
        ieee::p2(14) == 16384,
{
    reveal_with_fuel(ieee::p2, 15);
}

/// Eight bits come back one by one.
#[verifier::spinoff_prover]
proof fn lemma_eight(c: spec_fn(int) -> int, t: int)
    requires
        forall|k: int| 0 <= k < 8 ==> 0 <= #[trigger] c(k) < 2,
        0 <= t < 8,
    ensures
        0 <= eight(c) < 256,
        gguf::bit(eight(c), t) == c(t),
{
    lemma_small_powers();
    let (c0, c1, c2, c3) = (c(0), c(1), c(2), c(3));
    let (c4, c5, c6, c7) = (c(4), c(5), c(6), c(7));
    let x = eight(c);
    if t == 0 {
        assert(x / 1 % 2 == c0);
    } else if t == 1 {
        assert(x / 2 % 2 == c1);
    } else if t == 2 {
        assert(x / 4 % 2 == c2);
    } else if t == 3 {
        assert(x / 8 % 2 == c3);
    } else if t == 4 {
        assert(x / 16 % 2 == c4);
    } else if t == 5 {
        assert(x / 32 % 2 == c5);
    } else if t == 6 {
        assert(x / 64 % 2 == c6);
    } else {
        assert(x / 128 % 2 == c7);
    }
}

/// What stands above a digit leaves it alone.
proof fn lemma_digit(y: int, r: int, m: int, n: int, k: int)
    requires
        m > 0,
        k > 0,
    ensures
        (y + (m * k * n) * r) / m % k == y / m % k,
{
    let j = n * r;
    assert((m * k * n) * r == (j * k) * m) by (nonlinear_arith)
        requires
            j == n * r,
    ;
    vstd::arithmetic::div_mod::lemma_hoist_over_denominator(y, j * k, m as nat);
    vstd::arithmetic::div_mod::lemma_mod_multiples_vanish(j, y / m, k);
    assert(y / m + j * k == k * j + y / m) by (nonlinear_arith);
}

/// Whole bytes above a byte leave its bits alone.
proof fn lemma_low_bits(y: int, r: int, t: int)
    requires
        0 <= y < 256,
        0 <= t < 8,
    ensures
        gguf::bit(y + 256 * r, t) == gguf::bit(y, t),
{
    lemma_small_powers();
    let m = ieee::p2(t);
    let n = ieee::p2(7 - t);
    ieee::lemma_p2_pos(t);
    ieee::lemma_p2_add(t, 7 - t);
    assert(m * 2 * n == 256) by (nonlinear_arith)
        requires
            m * n == 128,
    ;
    lemma_digit(y, r, m, n, 2);
}

/// What is left of four bytes from byte `k` on.
proof fn lemma_bytes_from(b0: int, b1: int, b2: int, b3: int)
    requires
        0 <= b0 < 256,
        0 <= b1 < 256,
        0 <= b2 < 256,
        0 <= b3 < 256,
    ensures
        ({
            let x = b0 + 0x100 * b1 + 0x1_0000 * b2 + 0x100_0000 * b3;
            &&& x / 1 == b0 + 256 * (b1 + 256 * b2 + 65536 * b3)
            &&& x / 0x100 == b1 + 256 * (b2 + 256 * b3)
            &&& x / 0x1_0000 == b2 + 256 * b3
            &&& x / 0x100_0000 == b3
        }),
{
}

/// A bit of four bytes is a bit of one of them.
proof fn lemma_bit_of_bytes(b: Seq<u8>, at: int, k: int, t: int)
    requires
        0 <= k < 4,
        0 <= t < 8,
    ensures
        gguf::bit(num::le32(b, at), 8 * k + t) == gguf::bit(b[at + k] as int, t),
{
    let (b0, b1, b2, b3) = (b[at] as int, b[at + 1] as int, b[at + 2] as int, b[at + 3] as int);
    let x = num::le32(b, at);
    let y = b[at + k] as int;
    lemma_bytes_from(b0, b1, b2, b3);
    let r = if k == 0 {
        b1 + 256 * b2 + 65536 * b3
    } else if k == 1 {
        b2 + 256 * b3
    } else if k == 2 {
        b3
    } else {
        0
    };
    ieee::lemma_p2_add(8 * k, t);
    ieee::lemma_p2_pos(t);
    ieee::lemma_p2_pos(8 * k);
    ieee::lemma_p2_values();
    vstd::arithmetic::div_mod::lemma_div_denominator(x, ieee::p2(8 * k), ieee::p2(t));
    assert(x / ieee::p2(8 * k) == y + 256 * r);
    lemma_low_bits(y, r, t);
}

/// Four bit pairs come back one by one.
proof fn lemma_four(a: int, b: int, c: int, d: int)
    requires
        0 <= a < 4,
        0 <= b < 4,
        0 <= c < 4,
        0 <= d < 4,
    ensures
        0 <= four(a, b, c, d) < 256,
        four(a, b, c, d) / 1 % 4 == a,
        four(a, b, c, d) / 4 % 4 == b,
        four(a, b, c, d) / 16 % 4 == c,
        four(a, b, c, d) / 64 % 4 == d,
{
}

proof fn lemma_signed(n: int)
    requires
        -128 <= n < 128,
    ensures
        0 <= twos(n) < 256,
        gguf::signed8(twos(n) as u8) == n,
{
}

/// The scale of a block comes back.
proof fn lemma_half(b: Seq<u8>, at: int, h: int)
    requires
        0 <= h < 0x1_0000,
        b[at] == half_byte(h, 0) as u8,
        b[at + 1] == half_byte(h, 1) as u8,
    ensures
        gguf::half_at(b, at) == Format::F16.convert(Format::F32, h),
{
    assert(num::le16(b, at) == h);
}

/// Nibbles come back: the low ones first, then the high ones.
proof fn lemma_nibbles32(b: Seq<u8>, at: int, q: Seq<int>, from: int, i: int)
    requires
        0 <= i < 32,
        forall|j: int| 0 <= j < 16 ==> #[trigger] b[at + j] == nibbles32(q, from, j) as u8,
    ensures
        gguf::nibble(b, at, i) == q[from + i] % 16,
{
    let j = i % 16;
    assert(b[at + j] == nibbles32(q, from, j) as u8);
}

proof fn lemma_nibbles256(b: Seq<u8>, at: int, q: Seq<int>, i: int)
    requires
        0 <= i < 256,
        forall|j: int| 0 <= j < 128 ==> #[trigger] b[at + j] == nibbles256(q, j) as u8,
    ensures
        gguf::nibble_k(b, at, i) == q[i] % 16,
{
    let j = i / 64 * 32 + i % 32;
    assert(0 <= j < 128 && j / 32 == i / 64 && j % 32 == i % 32);
    assert(b[at + j] == nibbles256(q, j) as u8);
    if i / 32 % 2 == 0 {
        assert(64 * (j / 32) + j % 32 == i);
    } else {
        assert(64 * (j / 32) + j % 32 + 32 == i);
    }
}

proof fn lemma_six(s0: int, s1: int, m0: int, m1: int)
    requires
        0 <= s0 < 64,
        0 <= s1 < 64,
        0 <= m0 < 64,
        0 <= m1 < 64,
    ensures
        0 <= s0 + 64 * (s1 / 16) < 256,
        0 <= s1 % 16 + 16 * (m1 % 16) < 256,
        (s0 + 64 * (s1 / 16)) % 64 == s0,
        (s0 + 64 * (s1 / 16)) / 64 == s1 / 16,
        (s1 % 16 + 16 * (m1 % 16)) % 16 == s1 % 16,
        (s1 % 16 + 16 * (m1 % 16)) / 16 == m1 % 16,
        s1 % 16 + 16 * (s1 / 16) == s1,
{
}

/// Six-bit scales and minima come back.
#[verifier::spinoff_prover]
proof fn lemma_scales12(b: Seq<u8>, sc: Seq<int>, mins: Seq<int>, j: int)
    requires
        0 <= j < 8,
        within(sc, 8, 0, 64),
        within(mins, 8, 0, 64),
        forall|k: int| 0 <= k < 12 ==> #[trigger] b[4 + k] == scales12(sc, mins, k) as u8,
    ensures
        gguf::scale_k4(b, 4, j) == sc[j],
        gguf::min_k4(b, 4, j) == mins[j],
{
    let k = j % 4;
    assert(b[4 + k] == scales12(sc, mins, k) as u8);
    assert(b[4 + (k + 4)] == scales12(sc, mins, k + 4) as u8);
    assert(b[4 + (k + 8)] == scales12(sc, mins, k + 8) as u8);
    let (s0, s1, m0, m1) = (sc[k], sc[k + 4], mins[k], mins[k + 4]);
    assert(0 <= s0 < 64 && 0 <= s1 < 64 && 0 <= m0 < 64 && 0 <= m1 < 64);
    lemma_six(s0, s1, m0, m1);
    lemma_six(m0, m1, s0, s1);
    assert(b[4 + k] as int == s0 + 64 * (s1 / 16));
    assert(b[4 + (k + 4)] as int == m0 + 64 * (m1 / 16));
    assert(b[4 + (k + 8)] as int == s1 % 16 + 16 * (m1 % 16));
}

proof fn lemma_fifth32(b: Seq<u8>, at: int, q: Seq<int>, i: int)
    requires
        0 <= i < 32,
        within(q, 32, 0, 32),
        forall|j: int| 0 <= j < 4 ==> #[trigger] b[at + j] == fifths32(q, j) as u8,
    ensures
        gguf::bit(num::le32(b, at), i) == q[i] / 16,
{
    let (k, t) = (i / 8, i % 8);
    let c = |t: int| q[8 * k + t] / 16;
    assert forall|s: int| 0 <= s < 8 implies 0 <= #[trigger] c(s) < 2 by {
        assert(0 <= q[8 * k + s] < 32);
    }
    lemma_eight(c, t);
    assert(b[at + k] == fifths32(q, k) as u8);
    lemma_bit_of_bytes(b, at, k, t);
    assert(8 * k + t == i);
}

proof fn lemma_fifth256(b: Seq<u8>, q: Seq<int>, i: int)
    requires
        0 <= i < 256,
        within(q, 256, 0, 32),
        forall|j: int| 0 <= j < 32 ==> #[trigger] b[16 + j] == fifths256(q, j) as u8,
    ensures
        gguf::bit(b[16 + i % 32] as int, i / 32) == q[i] / 16,
{
    let (t, j) = (i / 32, i % 32);
    let c = |t: int| q[32 * t + j] / 16;
    assert forall|s: int| 0 <= s < 8 implies 0 <= #[trigger] c(s) < 2 by {
        assert(0 <= q[32 * s + j] < 32);
    }
    lemma_eight(c, t);
    assert(b[16 + j] == fifths256(q, j) as u8);
    assert(32 * t + j == i);
}

#[verifier::spinoff_prover]
proof fn lemma_of_32(dt: DType, l: Levels, i: int)
    requires
        tensor::grain(dt) == 32,
        admits(dt, l),
        0 <= i < 32,
    ensures
        gguf::element(dt, packed(dt, l), i) == meant(dt, l, i),
{
    let b = packed(dt, l);
    lemma_half(b, 0, l.d);
    assert(0 <= i < l.q.len());
    let q = l.q[i];
    if dt == DType::GgufQ8_0 {
        assert(b[2 + i] == twos(l.q[i]) as u8);
        lemma_signed(l.q[i]);
    } else if dt == DType::GgufQ4_0 {
        assert forall|j: int| 0 <= j < 16 implies #[trigger] b[2 + j] == nibbles32(l.q, 0, j) as u8 by {}
        lemma_nibbles32(b, 2, l.q, 0, i);
    } else if dt == DType::GgufQ4_1 {
        lemma_half(b, 2, l.m);
        assert forall|j: int| 0 <= j < 16 implies #[trigger] b[4 + j] == nibbles32(l.q, 0, j) as u8 by {}
        lemma_nibbles32(b, 4, l.q, 0, i);
    } else if dt == DType::GgufQ5_0 {
        assert forall|j: int| 0 <= j < 16 implies #[trigger] b[6 + j] == nibbles32(l.q, 0, j) as u8 by {}
        assert forall|j: int| 0 <= j < 4 implies #[trigger] b[2 + j] == fifths32(l.q, j) as u8 by {}
        lemma_nibbles32(b, 6, l.q, 0, i);
        lemma_fifth32(b, 2, l.q, i);
        assert(q % 16 + 16 * (q / 16) == q);
    } else {
        lemma_half(b, 2, l.m);
        assert forall|j: int| 0 <= j < 16 implies #[trigger] b[8 + j] == nibbles32(l.q, 0, j) as u8 by {}
        assert forall|j: int| 0 <= j < 4 implies #[trigger] b[4 + j] == fifths32(l.q, j) as u8 by {}
        lemma_nibbles32(b, 8, l.q, 0, i);
        lemma_fifth32(b, 4, l.q, i);
        assert(q % 16 + 16 * (q / 16) == q);
    }
}

#[verifier::spinoff_prover]
proof fn lemma_of_q4k(l: Levels, i: int)
    requires
        admits(DType::GgufQ4K, l),
        0 <= i < 256,
    ensures
        gguf::element(DType::GgufQ4K, packed(DType::GgufQ4K, l), i) == meant(DType::GgufQ4K, l, i),
{
    let b = packed(DType::GgufQ4K, l);
    lemma_half(b, 0, l.d);
    lemma_half(b, 2, l.m);
    assert forall|k: int| 0 <= k < 12 implies #[trigger] b[4 + k] == scales12(l.sc, l.mins, k) as u8 by {}
    assert forall|j: int| 0 <= j < 128 implies #[trigger] b[16 + j] == nibbles256(l.q, j) as u8 by {}
    lemma_scales12(b, l.sc, l.mins, i / 32);
    lemma_nibbles256(b, 16, l.q, i);
    assert(0 <= l.q[i] < 16);
}

#[verifier::spinoff_prover]
proof fn lemma_of_q5k(l: Levels, i: int)
    requires
        admits(DType::GgufQ5K, l),
        0 <= i < 256,
    ensures
        gguf::element(DType::GgufQ5K, packed(DType::GgufQ5K, l), i) == meant(DType::GgufQ5K, l, i),
{
    let b = packed(DType::GgufQ5K, l);
    lemma_half(b, 0, l.d);
    lemma_half(b, 2, l.m);
    assert forall|k: int| 0 <= k < 12 implies #[trigger] b[4 + k] == scales12(l.sc, l.mins, k) as u8 by {}
    assert forall|j: int| 0 <= j < 32 implies #[trigger] b[16 + j] == fifths256(l.q, j) as u8 by {}
    assert forall|j: int| 0 <= j < 128 implies #[trigger] b[48 + j] == nibbles256(l.q, j) as u8 by {}
    lemma_scales12(b, l.sc, l.mins, i / 32);
    lemma_fifth256(b, l.q, i);
    lemma_nibbles256(b, 48, l.q, i);
    assert(0 <= l.q[i] < 32);
    assert(l.q[i] % 16 + 16 * (l.q[i] / 16) == l.q[i]);
}

#[verifier::spinoff_prover]
proof fn lemma_level_q6(l: Levels, i: int)
    requires
        admits(DType::GgufQ6K, l),
        0 <= i < 256,
    ensures
        gguf::level_q6(packed(DType::GgufQ6K, l), i) == l.q[i],
{
    let b = packed(DType::GgufQ6K, l);
    let (x, g, r) = (i / 128, i % 128 / 32, i % 32);
    assert(i == 128 * x + 32 * g + r);
    let j = x * 64 + g % 2 * 32 + r;
    assert(0 <= j < 128 && j / 64 == x && j % 64 == g % 2 * 32 + r);
    let k = 128 + x * 32 + r;
    assert(128 <= k < 192 && (k - 128) / 32 == x && (k - 128) % 32 == r);
    let (p0, p1) = (128 * x + g % 2 * 32 + r, 128 * x + g % 2 * 32 + r + 64);
    assert(0 <= p0 < 256 && 0 <= p1 < 256);
    assert(b[j] == two(l.q[p0], l.q[p1]) as u8);
    let at = 128 * x + r;
    let (a0, a1, a2, a3) = (
        l.q[at] / 16,
        l.q[at + 32] / 16,
        l.q[at + 64] / 16,
        l.q[at + 96] / 16,
    );
    assert(0 <= l.q[at] < 64 && 0 <= l.q[at + 32] < 64 && 0 <= l.q[at + 64] < 64 && 0 <= l.q[at
        + 96] < 64);
    lemma_four(a0, a1, a2, a3);
    assert(b[k] == four(a0, a1, a2, a3) as u8);
    lemma_small_powers();
    let q = l.q[i];
    assert(q % 16 + 16 * (q / 16) == q);
    if g < 2 {
        assert(p0 == i);
        assert(b[j] as int % 16 == q % 16);
    } else {
        assert(p1 == i);
        assert(b[j] as int / 16 == q % 16);
    }
    assert(b[k] as int / ieee::p2(2 * g) % 4 == q / 16);
}

#[verifier::spinoff_prover]
proof fn lemma_of_q6k(l: Levels, i: int)
    requires
        admits(DType::GgufQ6K, l),
        0 <= i < 256,
    ensures
        gguf::element(DType::GgufQ6K, packed(DType::GgufQ6K, l), i) == meant(DType::GgufQ6K, l, i),
{
    let b = packed(DType::GgufQ6K, l);
    lemma_half(b, 208, l.d);
    lemma_level_q6(l, i);
    let k = 192 + i / 128 * 8 + i % 32 / 16 + i % 128 / 32 * 2;
    assert(k == 192 + i / 16);
    assert(b[k] == twos(l.sc[i / 16]) as u8);
    lemma_signed(l.sc[i / 16]);
}

/// Bit pairs of two bytes are those of the lower one, then of the higher.
proof fn lemma_pairs(lo: int, hi: int, j: int)
    requires
        0 <= lo < 256,
        0 <= hi < 256,
        0 <= j < 8,
    ensures
        (lo + 256 * hi) / ieee::p2(2 * j) % 4 == (if j < 4 {
            lo / ieee::p2(2 * j) % 4
        } else {
            hi / ieee::p2(2 * j - 8) % 4
        }),
{
    lemma_small_powers();
    if j < 4 {
        let m = ieee::p2(2 * j);
        let n = ieee::p2(6 - 2 * j);
        ieee::lemma_p2_pos(2 * j);
        ieee::lemma_p2_add(2 * j, 6 - 2 * j);
        assert(m * 4 * n == 256) by (nonlinear_arith)
            requires
                m * n == 64,
        ;
        lemma_digit(lo, hi, m, n, 4);
    } else {
        let m = ieee::p2(2 * j - 8);
        ieee::lemma_p2_pos(2 * j - 8);
        ieee::lemma_p2_add(8, 2 * j - 8);
        vstd::arithmetic::div_mod::lemma_div_denominator(lo + 256 * hi, 256, m);
    }
}

#[verifier::spinoff_prover]
proof fn lemma_scale_iq4(l: Levels, j: int)
    requires
        admits(DType::GgufIQ4XS, l),
        0 <= j < 8,
    ensures
        gguf::scale_iq4(packed(DType::GgufIQ4XS, l), j) == l.sc[j],
{
    let b = packed(DType::GgufIQ4XS, l);
    let s = l.sc;
    assert(forall|k: int| 0 <= k < 8 ==> 0 <= #[trigger] s[k] < 64);
    let e = j / 2 * 2;
    assert(b[4 + j / 2] == two(s[e], s[e + 1]) as u8);
    assert(0 <= s[e] < 64 && 0 <= s[e + 1] < 64);
    let (a0, a1, a2, a3) = (s[0] / 16, s[1] / 16, s[2] / 16, s[3] / 16);
    let (c0, c1, c2, c3) = (s[4] / 16, s[5] / 16, s[6] / 16, s[7] / 16);
    lemma_four(a0, a1, a2, a3);
    lemma_four(c0, c1, c2, c3);
    assert(b[2] == four(a0, a1, a2, a3) as u8);
    assert(b[3] == four(c0, c1, c2, c3) as u8);
    lemma_small_powers();
    let (lo, hi) = (four(a0, a1, a2, a3), four(c0, c1, c2, c3));
    assert(num::le16(b, 2) == lo + 256 * hi);
    lemma_pairs(lo, hi, j);
    let h = (num::le16(b, 2) / ieee::p2(2 * j)) % 4;
    assert(h == s[j] / 16);
}

/// A nibble of sub-block `g` comes back.
proof fn lemma_nibble_iq4(l: Levels, g: int, r: int)
    requires
        admits(DType::GgufIQ4XS, l),
        0 <= g < 8,
        0 <= r < 32,
    ensures
        gguf::nibble(packed(DType::GgufIQ4XS, l), 8 + 16 * g, r) == l.q[32 * g + r],
{
    let b = packed(DType::GgufIQ4XS, l);
    let at = 8 + 16 * g;
    assert forall|j: int| 0 <= j < 16 implies #[trigger] b[at + j] == nibbles32(l.q, 32 * g, j) as u8 by {
        let k = at + j;
        assert((k - 8) / 16 == g && (k - 8) % 16 == j);
    }
    lemma_nibbles32(b, at, l.q, 32 * g, r);
    assert(0 <= l.q[32 * g + r] < 16);
}

#[verifier::spinoff_prover]
proof fn lemma_of_iq4(l: Levels, i: int)
    requires
        admits(DType::GgufIQ4XS, l),
        0 <= i < 256,
    ensures
        gguf::element(DType::GgufIQ4XS, packed(DType::GgufIQ4XS, l), i) == meant(
            DType::GgufIQ4XS,
            l,
            i,
        ),
{
    let b = packed(DType::GgufIQ4XS, l);
    lemma_half(b, 0, l.d);
    let (g, r) = (i / 32, i % 32);
    assert(0 <= g < 8 && 0 <= r < 32 && 32 * g + r == i);
    lemma_scale_iq4(l, g);
    lemma_nibble_iq4(l, g, r);
    assert(8 + i / 32 * 16 == 8 + 16 * g);
}

/// Decoding undoes packing: whatever levels and scales a block holds, every
/// element decodes to what its own level and the scale of its own sub-block
/// stand for.
pub proof fn law_decoding_undoes_packing(dt: DType, l: Levels, i: int)
    requires
        admits(dt, l),
        0 <= i < tensor::grain(dt),
    ensures
        packed(dt, l).len() == tensor::block_len(dt),
        gguf::element(dt, packed(dt, l), i) == meant(dt, l, i),
{
    match dt {
        DType::GgufQ4K => lemma_of_q4k(l, i),
        DType::GgufQ5K => lemma_of_q5k(l, i),
        DType::GgufQ6K => lemma_of_q6k(l, i),
        DType::GgufIQ4XS => lemma_of_iq4(l, i),
        _ => lemma_of_32(dt, l, i),
    }
}

/// A tensor is a run of blocks, each the elements behind those of the one
/// before it: what is decoded at a place is what the levels of its own block
/// stand for.
pub proof fn law_tensors_are_runs_of_blocks(
    dt: DType,
    src: Seq<u8>,
    numel: int,
    before: Seq<u16>,
    out: Seq<u16>,
    l: Levels,
    n: int,
    i: int,
)
    requires
        admits(dt, l),
        gguf::decoded(dt, src, numel, before, out),
        0 <= n,
        0 <= i < tensor::grain(dt),
        n * tensor::grain(dt) + i < numel,
        src.subrange(
            n * tensor::block_len(dt),
            n * tensor::block_len(dt) + tensor::block_len(dt),
        ) == packed(dt, l),
    ensures
        out[n * tensor::grain(dt) + i] == meant(dt, l, i),
{
    let g = tensor::grain(dt);
    law_decoding_undoes_packing(dt, l, i);
    vstd::arithmetic::div_mod::lemma_fundamental_div_mod_converse(n * g + i, g, n, i);
    assert(n * g >= 0) by (nonlinear_arith)
        requires
            n >= 0,
            g >= 0,
    ;
}

/// The codebook of four bits ascends from -127 to 113, with eight entries
/// below zero and eight above.
pub proof fn law_codebook_ascends(i: int, j: int)
    requires
        0 <= i < j < 16,
    ensures
        -127 <= gguf::IQ4NL[i] < gguf::IQ4NL[j] <= 113,
        (gguf::IQ4NL[i] < 0) == (i < 8),
{
}

/// Four-bit codes as bytes, the first of a pair in the high nibble.
pub open spec fn packed_codes(c: Seq<int>) -> Seq<u8> {
    Seq::new(c.len() / 2, |j: int| two(c[2 * j + 1], c[2 * j]) as u8)
}

/// A packed 4-bit weight decodes code by code: the entry of the codebook times
/// the scale of the element's own block.
pub proof fn law_codes_come_back(f: Nf4Family, c: Seq<int>, i: int)
    requires
        within(c, c.len() as int, 0, 16),
        c.len() % 2 == 0,
        0 <= i < c.len(),
    ensures
        bnb::weight_at(f, packed_codes(c), i) == Format::F32.convert(
            Format::F16,
            Format::F32.product(
                f.qmap[c[i]] as int,
                f.absmax[i / (f.state.blocksize as int)] as int,
            ),
        ),
{
    let j = i / 2;
    assert(0 <= c[2 * j] < 16 && 0 <= c[2 * j + 1] < 16);
    assert(packed_codes(c)[j] == two(c[2 * j + 1], c[2 * j]) as u8);
}

/// Scales that are quantized themselves come back as the entry of their own
/// codebook times the scale of their own block, plus the offset.
pub proof fn law_nested_scales_come_back(
    w: &LoadedWeights,
    name: Seq<char>,
    st: BnbState,
    n: int,
    a: int,
    m: int,
    s: int,
    i: int,
)
    requires
        w.find(name + ".absmax"@) == Some(a),
        w.find(name + ".nested_quant_map"@) == Some(m),
        w.find(name + ".nested_absmax"@) == Some(s),
        w.metas@[a].dtype == DType::U8,
        bnb::absmax_outcome(w, name, st, n) is Good,
        0 <= i < n,
    ensures
        ({
            let map = bnb::singles(bnb::bytes_at(w, m));
            let scales = bnb::singles(bnb::bytes_at(w, s));
            let code = bnb::bytes_at(w, a)[i];
            bnb::absmax_outcome(w, name, st, n)->Good_0[i] == Format::F32.sum(
                Format::F32.product(
                    map[code as int] as int,
                    scales[i / st.nested_blocksize as int] as int,
                ),
                st.nested_offset as int,
            ) as u32
        }),
{
}

/// A plain element comes back from its little-endian bytes: a half as it is, a
/// single and a bfloat, the upper half of a single, rounded to a half.
pub proof fn law_plain_elements_come_back(host: Seq<u8>, i: int, half: u16, single: u32)
    requires
        0 <= i,
    ensures
        host[2 * i] == half as int % 256 && host[2 * i + 1] == half as int / 256 ==> {
            &&& gguf::GgufCodec::plain(DType::F16, host, i) == half
            &&& gguf::GgufCodec::plain(DType::BF16, host, i) == Format::F32.convert(
                Format::F16,
                half * 0x1_0000,
            )
        },
        host[4 * i] == single as int % 256 && host[4 * i + 1] == single as int / 256 % 256
            && host[4 * i + 2] == single as int / 65536 % 256 && host[4 * i + 3] == single as int
            / 16777216 ==> gguf::GgufCodec::plain(DType::F32, host, i) == Format::F32.convert(
            Format::F16,
            single as int,
        ),
{
    let x = single as int;
    assert(x % 256 + 256 * (x / 256 % 256) + 65536 * (x / 65536 % 256) + 16777216 * (x / 16777216)
        == x);
}

} // verus!
