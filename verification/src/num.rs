//! Number conversions on bit patterns: half, bfloat and single precision.
use vstd::prelude::*;

use crate::ieee::Format;
use crate::ieee;

verus! {

/// The single-precision pattern of the same value.
pub fn f16_to_f32(h: u16) -> (r: u32)
    ensures
        r == Format::F16.convert(Format::F32, h as int),
{
    Format::F16.to_format(Format::F32, h as u64) as u32
}

/// The nearest half-precision pattern, ties to even; past the range infinity.
pub fn f32_to_f16(b: u32) -> (r: u16)
    ensures
        r == Format::F32.convert(Format::F16, b as int),
{
    Format::F32.to_format(Format::F16, b as u64) as u16
}

/// A bfloat is the upper half of a single.
pub fn bf16_to_f32(h: u16) -> (r: u32)
    ensures
        r == h * 0x1_0000,
{
    (h as u32) * 0x1_0000
}

/// The single-precision product.
pub fn f32_mul(a: u32, b: u32) -> (r: u32)
    ensures
        r == Format::F32.product(a as int, b as int),
{
    Format::F32.multiply(a as u64, b as u64) as u32
}

/// The single-precision sum.
pub fn f32_add(a: u32, b: u32) -> (r: u32)
    ensures
        r == Format::F32.sum(a as int, b as int),
{
    Format::F32.plus(a as u64, b as u64) as u32
}

/// The single-precision difference.
pub fn f32_sub(a: u32, b: u32) -> (r: u32)
    ensures
        r == Format::F32.difference(a as int, b as int),
{
    Format::F32.minus(a as u64, b as u64) as u32
}

/// The single-precision quotient.
pub fn f32_div(a: u32, b: u32) -> (r: u32)
    ensures
        r == Format::F32.quotient(a as int, b as int),
{
    Format::F32.divide(a as u64, b as u64) as u32
}

/// The whole number `n` in single precision.
pub fn f32_from_i32(n: i32) -> (r: u32)
    ensures
        r == Format::F32.of_int(n as int),
{
    Format::F32.from_i64(n as i64) as u32
}

/// `a < b` in single precision.
pub fn f32_lt(a: u32, b: u32) -> (r: bool)
    ensures
        r == Format::F32.less(a as int, b as int),
{
    Format::F32.lt(a as u64, b as u64)
}

/// Four little-endian bytes as a pattern.
pub open spec fn le32(b: Seq<u8>, i: int) -> int {
    b[i] + 0x100 * b[i + 1] + 0x1_0000 * b[i + 2] + 0x100_0000 * b[i + 3]
}

/// Two little-endian bytes as a pattern.
pub open spec fn le16(b: Seq<u8>, i: int) -> int {
    b[i] + 0x100 * b[i + 1]
}

pub fn read_le16(b: &[u8], i: usize) -> (r: u16)
    requires
        i + 2 <= b@.len(),
    ensures
        r == le16(b@, i as int),
{
    (b[i] as u16) + 0x100 * (b[i + 1] as u16)
}

pub fn read_le32(b: &[u8], i: usize) -> (r: u32)
    requires
        i + 4 <= b@.len(),
    ensures
        r == le32(b@, i as int),
{
    (b[i] as u32) + 0x100 * (b[i + 1] as u32) + 0x1_0000 * (b[i + 2] as u32) + 0x100_0000 * (b[i + 3]
        as u32)
}

/// A value of at most `p` significant bits is kept exactly.
pub proof fn lemma_short_is_exact(p: int, sig: int, s: int)
    requires
        p >= 2,
        0 <= sig < ieee::p2(p),
        s >= 0,
    ensures
        ieee::magnitude_bits(p, sig * ieee::p2(s), 1) >= 0,
        ieee::units(p, ieee::magnitude_bits(p, sig * ieee::p2(s), 1)) == sig * ieee::p2(s),
{
    let x = ieee::p2(s);
    let n = sig * x;
    ieee::lemma_p2_pos(s);
    ieee::lemma_p2_pos(p);
    assert(n >= 0) by (nonlinear_arith)
        requires
            n == sig * x,
            sig >= 0,
            x >= 1,
    ;
    ieee::lemma_units_of_bits(p, n, 1);
    assert(n / 1 == n);
    let k = ieee::binade(p, n);
    ieee::lemma_binade_nonneg(p, n);
    if sig == 0 {
        assert(n == 0) by (nonlinear_arith)
            requires
                n == sig * x,
                sig == 0,
        ;
        assert(k == 0);
        assert(1 * ieee::p2(0) == 1);
        assert(ieee::nearest(0, 1) == 0);
        assert(0 * ieee::p2(0) == 0);
    } else {
        let j = ieee::lemma_bracket(sig);
        if j > p {
            ieee::lemma_p2_mono(p, j - 1);
        }
        ieee::lemma_p2_add(j - 1, s);
        ieee::lemma_p2_add(j, s);
        assert(ieee::p2(j - 1) * x <= n < ieee::p2(j) * x) by (nonlinear_arith)
            requires
                ieee::p2(j - 1) <= sig < ieee::p2(j),
                x >= 1,
                n == sig * x,
        ;
        ieee::lemma_binade_between(p, n, j + s);
        assert(k <= s);
        ieee::lemma_scaled_exact(sig, s, k);
        ieee::lemma_p2_add(s - k, k);
        let y = ieee::p2(s - k);
        let z = ieee::p2(k);
        assert((sig * y) * z == sig * (y * z)) by (nonlinear_arith);
        assert(1 * z == z);
    }
}

/// Widening keeps the value: the finite half `h` is the same number in single
/// precision, with the same sign.
pub proof fn law_widening_is_exact(h: int)
    requires
        Format::F16.holds(h),
        Format::F16.is_finite(h),
    ensures
        ({
            let w = Format::F16.convert(Format::F32, h);
            &&& Format::F32.is_finite(w)
            &&& Format::F32.negative(w) == Format::F16.negative(h)
            &&& ieee::units(24, Format::F32.mag(w)) == ieee::units(11, Format::F16.mag(h))
                * ieee::p2(125)
        }),
{
    let m = Format::F16.mag(h);
    let w = Format::F16.convert(Format::F32, h);
    ieee::lemma_p2_values();
    ieee::lemma_parts(Format::F16, m);
    let hid = ieee::p2(10);
    let sig = if m < ieee::p2(11) {
        m
    } else {
        hid + m % hid
    };
    let e = if m < ieee::p2(11) {
        0
    } else {
        m / hid - 1
    };
    let u = ieee::units(11, m);
    assert(u == sig * ieee::p2(e));
    if m >= ieee::p2(11) {
        assert(m < 0x7c00);
        assert(m / 0x400 <= 30);
    }
    ieee::lemma_p2_add(e, 149);
    ieee::lemma_p2_add(e, 125);
    let x = ieee::p2(e);
    assert((sig * x) * ieee::p2(149) == sig * (x * ieee::p2(149))) by (nonlinear_arith);
    assert((sig * x) * ieee::p2(125) == sig * (x * ieee::p2(125))) by (nonlinear_arith);
    ieee::lemma_bits_shift(24, sig, e + 149, 24);
    lemma_short_is_exact(24, sig, e + 125);
    let bits = ieee::magnitude_bits(24, sig * ieee::p2(e + 125), 1);
    // the value is far below infinity
    if bits >= 0x7f80_0000 {
        let inf: int = 0x7f80_0000;
        if bits > inf {
            ieee::law_patterns_are_ordered(24, inf, bits);
        }
        vstd::arithmetic::div_mod::lemma_fundamental_div_mod_converse(inf, 0x80_0000, 255, 0);
        assert(ieee::units(24, inf) == 0x80_0000 * ieee::p2(254));
        ieee::lemma_p2_add(23, 254);
        ieee::lemma_p2_add(11, e + 125);
        ieee::lemma_p2_strict(11 + e + 125, 277);
        ieee::lemma_p2_pos(e + 125);
        let y = ieee::p2(e + 125);
        assert(sig * y <= 0x800 * y) by (nonlinear_arith)
            requires
                sig <= 0x800,
                y >= 1,
        ;
        ieee::lemma_p2_pos(11 + e + 125);
        assert(false);
    }
}

/// Narrowing undoes widening on every half that is not NaN.
pub proof fn law_half_round_trip(h: int)
    requires
        Format::F16.holds(h),
        !Format::F16.is_nan(h),
    ensures
        Format::F32.convert(Format::F16, Format::F16.convert(Format::F32, h)) == h,
{
    let m = Format::F16.mag(h);
    if Format::F16.is_finite(h) {
        law_widening_is_exact(h);
        let u = ieee::units(11, m);
        ieee::lemma_units_pos(11, m);
        ieee::lemma_p2_add(125, 24);
        let c = ieee::p2(149);
        ieee::lemma_p2_pos(149);
        assert((u * ieee::p2(125)) * ieee::p2(24) == c * u) by (nonlinear_arith)
            requires
                c == ieee::p2(125) * ieee::p2(24),
        ;
        ieee::lemma_bits_scale(11, u, 1, c);
        assert(c * 1 == c);
        ieee::law_units_round_to_themselves(11, m);
    }
}

/// A widened half is a single.
pub proof fn lemma_wide_holds(h: int)
    requires
        Format::F16.holds(h),
        !Format::F16.is_nan(h),
    ensures
        Format::F32.holds(Format::F16.convert(Format::F32, h)),
{
    if Format::F16.is_finite(h) {
        let u = ieee::units(11, Format::F16.mag(h));
        let c = ieee::p2(149);
        ieee::lemma_units_pos(11, Format::F16.mag(h));
        ieee::lemma_p2_pos(149);
        ieee::lemma_p2_pos(24);
        assert(u * c >= 0) by (nonlinear_arith)
            requires
                u >= 0,
                c >= 1,
        ;
        ieee::lemma_round_holds(Format::F32, Format::F16.negative(h), u * c, ieee::p2(24));
    }
}

/// Widening keeps the order of magnitudes.
proof fn lemma_wide_magnitudes(a: int, b: int)
    requires
        Format::F16.holds(a),
        Format::F16.holds(b),
        !Format::F16.is_nan(a),
        !Format::F16.is_nan(b),
        Format::F16.mag(a) <= Format::F16.mag(b),
    ensures
        ({
            let (x, y) = (
                Format::F32.mag(Format::F16.convert(Format::F32, a)),
                Format::F32.mag(Format::F16.convert(Format::F32, b)),
            );
            &&& 0 <= x <= y <= Format::F32.inf()
            &&& (x < y) == (Format::F16.mag(a) < Format::F16.mag(b))
            &&& (x == 0) == (Format::F16.mag(a) == 0)
        }),
{
    let (m, n) = (Format::F16.mag(a), Format::F16.mag(b));
    lemma_wide_holds(a);
    lemma_wide_holds(b);
    if Format::F16.is_finite(a) {
        law_widening_is_exact(a);
        let x = Format::F32.mag(Format::F16.convert(Format::F32, a));
        let c = ieee::p2(125);
        ieee::lemma_p2_pos(125);
        let u = ieee::units(11, m);
        ieee::lemma_units_pos(11, m);
        ieee::lemma_units_pos(24, x);
        ieee::lemma_p2_values();
        assert((u * c == 0) == (u == 0)) by (nonlinear_arith)
            requires
                c >= 1,
        ;
        if Format::F16.is_finite(b) {
            law_widening_is_exact(b);
            let y = Format::F32.mag(Format::F16.convert(Format::F32, b));
            let v = ieee::units(11, n);
            if m < n {
                ieee::law_patterns_are_ordered(11, m, n);
            }
            assert((u < v ==> u * c < v * c) && (u == v ==> u * c == v * c)) by (nonlinear_arith)
                requires
                    c >= 1,
            ;
            if x > y {
                ieee::law_patterns_are_ordered(24, y, x);
            } else if x < y {
                ieee::law_patterns_are_ordered(24, x, y);
            }
        }
    }
}

/// Widening keeps the order of halves that are not NaN.
pub proof fn law_widening_keeps_order(a: int, b: int)
    requires
        Format::F16.holds(a),
        Format::F16.holds(b),
        !Format::F16.is_nan(a),
        !Format::F16.is_nan(b),
    ensures
        ({
            let (x, y) = (
                Format::F16.convert(Format::F32, a),
                Format::F16.convert(Format::F32, b),
            );
            &&& Format::F32.less(x, y) == Format::F16.less(a, b)
            &&& Format::F32.equal(x, y) == Format::F16.equal(a, b)
        }),
{
    law_nan_class_is_kept(a, 0);
    law_nan_class_is_kept(b, 0);
    if Format::F16.mag(a) <= Format::F16.mag(b) {
        lemma_wide_magnitudes(a, b);
        lemma_wide_magnitudes(b, b);
    } else {
        lemma_wide_magnitudes(b, a);
        lemma_wide_magnitudes(a, a);
    }
    if Format::F16.is_finite(a) {
        law_widening_is_exact(a);
    }
    if Format::F16.is_finite(b) {
        law_widening_is_exact(b);
    }
}

/// A NaN stays a NaN in both directions.
pub proof fn law_nan_class_is_kept(h: int, b: int)
    requires
        Format::F16.holds(h),
        Format::F32.holds(b),
    ensures
        Format::F32.is_nan(Format::F16.convert(Format::F32, h)) == Format::F16.is_nan(h),
        Format::F16.is_nan(Format::F32.convert(Format::F16, b)) == Format::F32.is_nan(b),
{
    if Format::F16.is_finite(h) {
        law_widening_is_exact(h);
    }
    if Format::F32.is_finite(b) {
        ieee::lemma_units_pos(24, Format::F32.mag(b));
        ieee::lemma_p2_pos(24);
        ieee::lemma_p2_pos(149);
        let u = ieee::units(24, Format::F32.mag(b));
        let c = ieee::p2(24);
        assert(u * c >= 0) by (nonlinear_arith)
            requires
                u >= 0,
                c >= 1,
        ;
        ieee::lemma_round_holds(Format::F16, Format::F32.negative(b), u * c, ieee::p2(149));
    }
}

/// A whole number of at most 24 bits, scaled by a power of two within the
/// range, is a single-precision value.
pub proof fn lemma_single_is_exact(sig: int, s: int)
    requires
        0 <= sig < 0x100_0000,
        0 <= s <= 250,
    ensures
        0 <= ieee::magnitude_bits(24, sig * ieee::p2(s), 1) < Format::F32.inf(),
        ieee::units(24, ieee::magnitude_bits(24, sig * ieee::p2(s), 1)) == sig * ieee::p2(s),
{
    ieee::lemma_p2_values();
    lemma_short_is_exact(24, sig, s);
    let bits = ieee::magnitude_bits(24, sig * ieee::p2(s), 1);
    let inf: int = 0x7f80_0000;
    if bits >= inf {
        if bits > inf {
            ieee::law_patterns_are_ordered(24, inf, bits);
        }
        vstd::arithmetic::div_mod::lemma_fundamental_div_mod_converse(inf, 0x80_0000, 255, 0);
        assert(ieee::units(24, inf) == 0x80_0000 * ieee::p2(254));
        ieee::lemma_p2_add(23, 254);
        ieee::lemma_p2_add(24, s);
        ieee::lemma_p2_strict(24 + s, 277);
        ieee::lemma_p2_pos(s);
        ieee::lemma_p2_pos(24 + s);
        let y = ieee::p2(s);
        assert(sig * y <= 0x100_0000 * y) by (nonlinear_arith)
            requires
                sig <= 0x100_0000,
                y >= 1,
        ;
        assert(false);
    }
}

/// Scaling a half by a small whole number in single precision loses nothing,
/// so narrowing the product rounds the exact value `d * n` once.
pub proof fn law_small_multiples_round_once(d: int, n: int)
    requires
        Format::F16.holds(d),
        Format::F16.is_finite(d),
        -0x2000 < n < 0x2000,
    ensures
        ({
            let wide = Format::F16.convert(Format::F32, d);
            let exact = ieee::units(11, Format::F16.mag(d)) * (if n < 0 {
                -n
            } else {
                n
            });
            Format::F32.convert(
                Format::F16,
                Format::F32.product(wide, Format::F32.of_int(n)),
            ) == Format::F16.round(Format::F16.negative(d) != (n < 0), exact, 1)
        }),
{
    ieee::lemma_p2_values();
    let f = Format::F32;
    let m = Format::F16.mag(d);
    let w = Format::F16.convert(f, d);
    law_widening_is_exact(d);
    let an = if n < 0 {
        -n
    } else {
        n
    };
    lemma_single_is_exact(an, 149);
    let k = f.of_int(n);
    assert(ieee::units(24, f.mag(k)) == an * ieee::p2(149));
    ieee::lemma_parts(Format::F16, m);
    let hid = ieee::p2(10);
    let sig = if m < ieee::p2(11) {
        m
    } else {
        hid + m % hid
    };
    let e = if m < ieee::p2(11) {
        0
    } else {
        m / hid - 1
    };
    if m >= ieee::p2(11) {
        assert(m / 0x400 <= 30);
    }
    let u = ieee::units(11, m);
    let x = ieee::p2(e);
    assert(u == sig * x);
    let a = ieee::p2(125);
    let b = ieee::p2(149);
    ieee::lemma_p2_pos(149);
    ieee::lemma_p2_pos(125);
    ieee::lemma_p2_pos(e);
    let s = sig * an;
    assert(0 <= s < 0x100_0000) by (nonlinear_arith)
        requires
            s == sig * an,
            0 <= sig < 0x800,
            0 <= an < 0x2000,
    ;
    // the product, in units: s * 2^(e + 125)
    ieee::lemma_p2_add(e, 125);
    let y = ieee::p2(e + 125);
    assert(((sig * x) * a) * (an * b) == b * (s * y)) by (nonlinear_arith)
        requires
            s == sig * an,
            y == x * a,
    ;
    ieee::lemma_p2_pos(e + 125);
    assert(s * y >= 0) by (nonlinear_arith)
        requires
            s >= 0,
            y >= 1,
    ;
    ieee::lemma_bits_scale(24, s * y, 1, b);
    assert(b * 1 == b);
    lemma_single_is_exact(s, e + 125);
    let neg = Format::F16.negative(d) != (n < 0);
    let pr = f.product(w, k);
    assert(f.negative(k) == (n < 0));
    assert(pr == f.signed(neg, ieee::magnitude_bits(24, s * y, 1)));
    // narrowing takes the common power of two out again
    let c24 = ieee::p2(24);
    ieee::lemma_p2_add(125, 24);
    let exact = u * an;
    assert((s * y) * c24 == b * exact) by (nonlinear_arith)
        requires
            s == sig * an,
            y == x * a,
            b == a * c24,
            exact == (sig * x) * an,
    ;
    assert(exact >= 0) by (nonlinear_arith)
        requires
            exact == (sig * x) * an,
            sig >= 0,
            x >= 1,
            an >= 0,
    ;
    ieee::lemma_bits_scale(11, exact, 1, b);
}

} // verus!
