//! IEEE-754 binary floating point on bit patterns.
//!
//! A binary format has a precision `p` (significand bits, the hidden one
//! counted) and an exponent field of `w` bits. Every finite value is a whole
//! multiple of the smallest subnormal, the *unit* of the format, so a finite
//! magnitude is modelled as the integer number of units it holds. Rounding is
//! to the nearest value, ties to the even significand.
use vstd::prelude::*;

verus! {

/// Two to the power `n`.
pub open spec fn p2(n: int) -> int
    decreases n,
{
    if n <= 0 {
        1
    } else {
        2 * p2(n - 1)
    }
}

/// The integer nearest to `n / d`; halfway cases go to the even neighbour.
pub open spec fn nearest(n: int, d: int) -> int {
    let q = n / d;
    let r = n % d;
    if 2 * r < d || (2 * r == d && q % 2 == 0) {
        q
    } else {
        q + 1
    }
}

/// How often `n` has to be halved to drop below `2^p`.
pub open spec fn binade(p: int, n: int) -> int
    decreases n,
{
    if n < p2(p) || n <= 0 {
        0
    } else {
        1 + binade(p, n / 2)
    }
}

/// The bit pattern (without the sign) of `num / den` units rounded to `p`
/// significand bits. Patterns count up in the order of the values, so a
/// significand that rounds up to `2^p` lands on the next exponent by itself.
pub open spec fn magnitude_bits(p: int, num: int, den: int) -> int {
    let k = binade(p, num / den);
    k * p2(p - 1) + nearest(num, den * p2(k))
}

/// The number of units that the magnitude pattern `m` stands for.
pub open spec fn units(p: int, m: int) -> int {
    if m < p2(p) {
        m
    } else {
        (p2(p - 1) + m % p2(p - 1)) * p2(m / p2(p - 1) - 1)
    }
}

pub proof fn lemma_p2_pos(n: int)
    ensures
        p2(n) >= 1,
    decreases n,
{
    if n > 0 {
        lemma_p2_pos(n - 1);
    }
}

pub proof fn lemma_p2_add(a: int, b: int)
    requires
        a >= 0,
        b >= 0,
    ensures
        p2(a + b) == p2(a) * p2(b),
    decreases a,
{
    if a > 0 {
        lemma_p2_add(a - 1, b);
        let x = p2(a - 1);
        let y = p2(b);
        assert((2 * x) * y == 2 * (x * y)) by (nonlinear_arith);
    } else {
        let y = p2(b);
        assert(1 * y == y);
    }
}

pub proof fn lemma_p2_mono(a: int, b: int)
    requires
        0 <= a <= b,
    ensures
        p2(a) <= p2(b),
    decreases b - a,
{
    if a < b {
        lemma_p2_mono(a, b - 1);
        lemma_p2_pos(b - 1);
    }
}

pub proof fn lemma_p2_strict(a: int, b: int)
    requires
        0 <= a < b,
    ensures
        2 * p2(a) <= p2(b),
{
    lemma_p2_mono(a + 1, b);
}

pub proof fn lemma_p2_is_pow2(n: int)
    requires
        n >= 0,
    ensures
        p2(n) == vstd::arithmetic::power2::pow2(n as nat),
    decreases n,
{
    if n == 0 {
        vstd::arithmetic::power2::lemma2_to64();
    } else {
        lemma_p2_is_pow2(n - 1);
        vstd::arithmetic::power2::lemma_pow2_unfold(n as nat);
    }
}

/// The powers of two that the formats are made of.
pub proof fn lemma_p2_values()
    ensures
        p2(0) == 1,
        p2(1) == 2,
        p2(4) == 0x10,
        p2(5) == 0x20,
        p2(7) == 0x80,
        p2(8) == 0x100,
        p2(10) == 0x400,
        p2(11) == 0x800,
        p2(13) == 0x2000,
        p2(15) == 0x8000,
        p2(16) == 0x1_0000,
        p2(23) == 0x80_0000,
        p2(24) == 0x100_0000,
        p2(31) == 0x8000_0000,
        p2(32) == 0x1_0000_0000,
        p2(52) == 0x10_0000_0000_0000,
        p2(53) == 0x20_0000_0000_0000,
        p2(63) == 0x8000_0000_0000_0000,
        p2(64) == 0x1_0000_0000_0000_0000,
        p2(120) == 0x100_0000_0000_0000_0000_0000_0000_0000int,
{
    reveal_with_fuel(p2, 12);
    lemma_p2_add(11, 2);
    lemma_p2_add(11, 4);
    lemma_p2_add(11, 5);
    lemma_p2_add(16, 7);
    lemma_p2_add(16, 8);
    lemma_p2_add(16, 15);
    lemma_p2_add(16, 16);
    lemma_p2_add(32, 10);
    lemma_p2_add(32, 4);
    lemma_p2_add(42, 10);
    lemma_p2_add(32, 32);
    lemma_p2_add(53, 10);
    lemma_p2_add(53, 3);
    assert(p2(56) == 0x100_0000_0000_0000);
    lemma_p2_add(56, 64);
    assert(p2(120) == 0x100_0000_0000_0000int * 0x1_0000_0000_0000_0000int);
}

pub proof fn lemma_nearest_scale(n: int, d: int, c: int)
    requires
        n >= 0,
        d > 0,
        c > 0,
    ensures
        c * d > 0,
        (c * n) / (c * d) == n / d,
        nearest(c * n, c * d) == nearest(n, d),
{
    let q = n / d;
    let r = n % d;
    vstd::arithmetic::div_mod::lemma_fundamental_div_mod(n, d);
    assert(c * d > 0) by (nonlinear_arith)
        requires
            c > 0,
            d > 0,
    ;
    assert(0 <= c * r < c * d) by (nonlinear_arith)
        requires
            c > 0,
            0 <= r < d,
    ;
    assert(c * n == q * (c * d) + c * r) by (nonlinear_arith)
        requires
            n == d * q + r,
    ;
    vstd::arithmetic::div_mod::lemma_fundamental_div_mod_converse(c * n, c * d, q, c * r);
    assert((2 * (c * r) < c * d) == (2 * r < d)) by (nonlinear_arith)
        requires
            c > 0,
    ;
    assert((2 * (c * r) == c * d) == (2 * r == d)) by (nonlinear_arith)
        requires
            c > 0,
    ;
}

/// Rounding only sees on which side of the halfway points a value lies, so a
/// value strictly between `f` and `f + 1` rounds like `f + 1/2` as long as the
/// rounding step is an even number of units.
pub proof fn lemma_nearest_jam(num: int, den: int, h: int)
    requires
        num >= 0,
        den > 0,
        num % den != 0,
        h >= 1,
    ensures
        nearest(num, den * (2 * h)) == nearest(2 * (num / den) + 1, 4 * h),
{
    let f = num / den;
    let t = num % den;
    vstd::arithmetic::div_mod::lemma_fundamental_div_mod(num, den);
    assert(f >= 0) by (nonlinear_arith)
        requires
            num == den * f + t,
            t < den,
            num >= 0,
            den > 0,
    ;
    let q = f / (2 * h);
    let s = f % (2 * h);
    vstd::arithmetic::div_mod::lemma_fundamental_div_mod(f, 2 * h);
    let r = s * den + t;
    let d2 = den * (2 * h);
    assert(num == q * d2 + r) by (nonlinear_arith)
        requires
            num == den * f + t,
            f == (2 * h) * q + s,
            d2 == den * (2 * h),
            r == s * den + t,
    ;
    assert(0 <= r < d2) by (nonlinear_arith)
        requires
            0 <= s <= 2 * h - 1,
            0 < t < den,
            r == s * den + t,
            d2 == den * (2 * h),
    ;
    vstd::arithmetic::div_mod::lemma_fundamental_div_mod_converse(num, d2, q, r);
    if s < h {
        assert(2 * r < d2) by (nonlinear_arith)
            requires
                0 <= s <= h - 1,
                0 < t < den,
                r == s * den + t,
                d2 == den * (2 * h),
        ;
    } else {
        assert(2 * r > d2) by (nonlinear_arith)
            requires
                s >= h,
                0 < t < den,
                r == s * den + t,
                d2 == den * (2 * h),
        ;
    }
    assert(2 * f + 1 == q * (4 * h) + (2 * s + 1)) by (nonlinear_arith)
        requires
            f == (2 * h) * q + s,
    ;
    vstd::arithmetic::div_mod::lemma_fundamental_div_mod_converse(2 * f + 1, 4 * h, q, 2 * s + 1);
}

pub proof fn lemma_binade_between(p: int, n: int, j: int)
    requires
        p >= 1,
        j >= 1,
        p2(j - 1) <= n < p2(j),
    ensures
        binade(p, n) == (if j <= p {
            0
        } else {
            j - p
        }),
    decreases j,
{
    lemma_p2_pos(j - 1);
    if j <= p {
        lemma_p2_mono(j, p);
    } else {
        lemma_p2_mono(p, j - 1);
        if j == 1 {
        } else {
            assert(p2(j - 1) == 2 * p2(j - 2));
            assert(p2(j) == 2 * p2(j - 1));
            lemma_binade_between(p, n / 2, j - 1);
        }
    }
}

/// The binade is where the floor of the scaled value lies below `2^p`.
pub proof fn lemma_binade_nonneg(p: int, n: int)
    ensures
        binade(p, n) >= 0,
    decreases n,
{
    if !(n < p2(p) || n <= 0) {
        lemma_binade_nonneg(p, n / 2);
    }
}

pub proof fn lemma_bits_scale(p: int, num: int, den: int, c: int)
    requires
        num >= 0,
        den > 0,
        c > 0,
    ensures
        c * den > 0,
        magnitude_bits(p, c * num, c * den) == magnitude_bits(p, num, den),
{
    lemma_nearest_scale(num, den, c);
    let k = binade(p, num / den);
    let x = p2(k);
    lemma_p2_pos(k);
    assert(den * x > 0) by (nonlinear_arith)
        requires
            den > 0,
            x >= 1,
    ;
    lemma_nearest_scale(num, den * x, c);
    assert((c * den) * x == c * (den * x)) by (nonlinear_arith);
}

/// The binary interchange formats in use.
#[derive(Clone, Copy, PartialEq, Eq, Debug, Structural)]
pub enum Format {
    F16,
    F32,
    F64,
}

impl Format {
    /// Significand bits, the hidden one counted.
    pub open spec fn p(self) -> int {
        match self {
            Format::F16 => 11,
            Format::F32 => 24,
            Format::F64 => 53,
        }
    }

    /// One is `2^unit` units.
    pub open spec fn unit(self) -> int {
        match self {
            Format::F16 => 24,
            Format::F32 => 149,
            Format::F64 => 1074,
        }
    }

    /// The magnitude pattern of infinity; larger magnitudes are NaN.
    pub open spec fn inf(self) -> int {
        match self {
            Format::F16 => 0x7c00,
            Format::F32 => 0x7f80_0000,
            Format::F64 => 0x7ff0_0000_0000_0000,
        }
    }

    /// The sign bit.
    pub open spec fn sign(self) -> int {
        match self {
            Format::F16 => 0x8000,
            Format::F32 => 0x8000_0000,
            Format::F64 => 0x8000_0000_0000_0000,
        }
    }

    /// The canonical quiet NaN.
    pub open spec fn nan(self) -> int {
        match self {
            Format::F16 => 0x7e00,
            Format::F32 => 0x7fc0_0000,
            Format::F64 => 0x7ff8_0000_0000_0000,
        }
    }

    /// `b` is a bit pattern of this format.
    pub open spec fn holds(self, b: int) -> bool {
        0 <= b < 2 * self.sign()
    }

    pub open spec fn negative(self, b: int) -> bool {
        b >= self.sign()
    }

    /// The pattern without its sign.
    pub open spec fn mag(self, b: int) -> int {
        if b >= self.sign() {
            b - self.sign()
        } else {
            b
        }
    }

    pub open spec fn is_nan(self, b: int) -> bool {
        self.mag(b) > self.inf()
    }

    pub open spec fn is_inf(self, b: int) -> bool {
        self.mag(b) == self.inf()
    }

    pub open spec fn is_finite(self, b: int) -> bool {
        self.mag(b) < self.inf()
    }

    /// The value of a finite pattern, in units.
    pub open spec fn value(self, b: int) -> int {
        if self.negative(b) {
            -units(self.p(), self.mag(b))
        } else {
            units(self.p(), self.mag(b))
        }
    }

    /// The pattern with the given sign and magnitude.
    pub open spec fn signed(self, neg: bool, mag: int) -> int {
        if neg {
            self.sign() + mag
        } else {
            mag
        }
    }

    /// `num / den` units with the given sign, rounded; infinity past the range.
    pub open spec fn round(self, neg: bool, num: int, den: int) -> int {
        let m = magnitude_bits(self.p(), num, den);
        self.signed(neg, if m < self.inf() {
            m
        } else {
            self.inf()
        })
    }

    /// The rounded product.
    pub open spec fn product(self, a: int, b: int) -> int {
        let neg = self.negative(a) != self.negative(b);
        if self.is_nan(a) || self.is_nan(b) {
            self.nan()
        } else if self.is_inf(a) || self.is_inf(b) {
            if self.mag(a) == 0 || self.mag(b) == 0 {
                self.nan()
            } else {
                self.signed(neg, self.inf())
            }
        } else {
            self.round(
                neg,
                units(self.p(), self.mag(a)) * units(self.p(), self.mag(b)),
                p2(self.unit()),
            )
        }
    }

    /// The rounded quotient.
    pub open spec fn quotient(self, a: int, b: int) -> int {
        let neg = self.negative(a) != self.negative(b);
        if self.is_nan(a) || self.is_nan(b) {
            self.nan()
        } else if self.is_inf(a) {
            if self.is_inf(b) {
                self.nan()
            } else {
                self.signed(neg, self.inf())
            }
        } else if self.is_inf(b) {
            self.signed(neg, 0)
        } else if self.mag(b) == 0 {
            if self.mag(a) == 0 {
                self.nan()
            } else {
                self.signed(neg, self.inf())
            }
        } else {
            self.round(
                neg,
                units(self.p(), self.mag(a)) * p2(self.unit()),
                units(self.p(), self.mag(b)),
            )
        }
    }

    /// The rounded sum. An exact sum of zero is `+0` unless both terms carry
    /// a minus sign.
    pub open spec fn sum(self, a: int, b: int) -> int {
        if self.is_nan(a) || self.is_nan(b) {
            self.nan()
        } else if self.is_inf(a) {
            if self.is_inf(b) && self.negative(a) != self.negative(b) {
                self.nan()
            } else {
                a
            }
        } else if self.is_inf(b) {
            b
        } else {
            let s = self.value(a) + self.value(b);
            if s == 0 {
                self.signed(self.negative(a) && self.negative(b), 0)
            } else {
                self.round(s < 0, if s < 0 {
                    -s
                } else {
                    s
                }, 1)
            }
        }
    }

    /// The same value with the opposite sign.
    pub open spec fn negated(self, b: int) -> int {
        self.signed(!self.negative(b), self.mag(b))
    }

    /// The rounded difference.
    pub open spec fn difference(self, a: int, b: int) -> int {
        self.sum(a, self.negated(b))
    }

    /// The magnitude pattern with its sign as an integer: patterns other than
    /// NaN compare as these integers do, and both zeros are `0`.
    pub open spec fn key(self, b: int) -> int {
        if self.negative(b) {
            -self.mag(b)
        } else {
            self.mag(b)
        }
    }

    /// `a < b`; false where either is NaN.
    pub open spec fn less(self, a: int, b: int) -> bool {
        !self.is_nan(a) && !self.is_nan(b) && self.key(a) < self.key(b)
    }

    /// `a == b`; false where either is NaN.
    pub open spec fn equal(self, a: int, b: int) -> bool {
        !self.is_nan(a) && !self.is_nan(b) && self.key(a) == self.key(b)
    }

    /// The whole number `n` rounded to the format.
    pub open spec fn of_int(self, n: int) -> int {
        self.round(n < 0, if n < 0 {
            -n
        } else {
            n
        } * p2(self.unit()), 1)
    }

    /// A pattern of this format converted to `to`. A NaN stays a NaN with its
    /// sign and becomes canonical.
    pub open spec fn convert(self, to: Format, b: int) -> int {
        if self.is_nan(b) {
            to.signed(self.negative(b), to.nan())
        } else if self.is_inf(b) {
            to.signed(self.negative(b), to.inf())
        } else {
            to.round(
                self.negative(b),
                units(self.p(), self.mag(b)) * p2(to.unit()),
                p2(self.unit()),
            )
        }
    }

    pub fn precision(self) -> (r: u32)
        ensures
            r == self.p(),
    {
        match self {
            Format::F16 => 11,
            Format::F32 => 24,
            Format::F64 => 53,
        }
    }

    pub fn unit_exponent(self) -> (r: i32)
        ensures
            r == self.unit(),
    {
        match self {
            Format::F16 => 24,
            Format::F32 => 149,
            Format::F64 => 1074,
        }
    }

    pub fn infinity(self) -> (r: u64)
        ensures
            r == self.inf(),
    {
        match self {
            Format::F16 => 0x7c00,
            Format::F32 => 0x7f80_0000,
            Format::F64 => 0x7ff0_0000_0000_0000,
        }
    }

    pub fn sign_bit(self) -> (r: u64)
        ensures
            r == self.sign(),
    {
        match self {
            Format::F16 => 0x8000,
            Format::F32 => 0x8000_0000,
            Format::F64 => 0x8000_0000_0000_0000,
        }
    }

    pub fn quiet_nan(self) -> (r: u64)
        ensures
            r == self.nan(),
    {
        match self {
            Format::F16 => 0x7e00,
            Format::F32 => 0x7fc0_0000,
            Format::F64 => 0x7ff8_0000_0000_0000,
        }
    }
}

/// What ties the constants of a format together.
pub proof fn lemma_format(f: Format)
    ensures
        11 <= f.p() <= 53,
        24 <= f.unit() <= 1074,
        f.sign() <= p2(63),
        p2(f.p()) == 2 * p2(f.p() - 1),
        p2(f.p()) < f.inf() < f.nan() < f.sign(),
        f.inf() + p2(f.p() - 1) == f.sign(),
        p2(f.p()) <= p2(53),
        p2(53) == 0x20_0000_0000_0000,
        p2(f.p() - 1) >= 0x400,
{
    lemma_p2_values();
}

proof fn lemma_one_shl(s: u128)
    requires
        s < 128,
    ensures
        (1u128 << s) == p2(s as int),
    decreases s,
{
    if s == 0 {
        assert(1u128 << 0u128 == 1u128) by (bit_vector);
    } else {
        let t: u128 = (s - 1) as u128;
        lemma_one_shl(t);
        assert((1u128 << s) == 2 * (1u128 << t)) by (bit_vector)
            requires
                0 < s < 128,
                t == s - 1,
        ;
    }
}

/// `2^s`.
pub fn pow2_u128(s: u32) -> (r: u128)
    requires
        s < 128,
    ensures
        r == p2(s as int),
{
    proof {
        lemma_one_shl(s as u128);
    }
    1u128 << (s as u128)
}

/// `m` divided by `2^s`.
pub fn shr_u128(m: u128, s: u32) -> (r: u128)
    requires
        s < 128,
    ensures
        r == (m as int) / p2(s as int),
{
    proof {
        vstd::bits::lemma_u128_shr_is_div(m, s as u128);
        lemma_p2_is_pow2(s as int);
    }
    m >> (s as u128)
}

/// The number of bits of `m`.
pub fn bit_len(m: u128) -> (l: u32)
    ensures
        l <= 128,
        m == 0 <==> l == 0,
        m > 0 ==> p2(l - 1) <= m < p2(l as int),
{
    let mut x: u128 = m;
    let mut l: u32 = 0;
    proof {
        assert(m as int * p2(0) == m);
    }
    while x >= 256
        invariant
            l <= 120,
            l % 8 == 0,
            x as int * p2(l as int) <= m < (x + 1) * p2(l as int),
            x > 0 <==> m > 0,
            l == 120 ==> x < 256,
            l > 0 ==> m > 0,
        decreases x,
    {
        let ghost q = p2(l as int);
        let ghost y = x / 256;
        proof {
            lemma_p2_values();
            lemma_p2_add(l as int, 8);
            lemma_p2_pos(l as int);
            assert((y as int) * (q * 256) <= x * q) by (nonlinear_arith)
                requires
                    y * 256 <= x,
                    q >= 1,
            ;
            assert((x + 1) * q <= (y + 1) * (q * 256)) by (nonlinear_arith)
                requires
                    x + 1 <= (y + 1) * 256,
                    q >= 1,
            ;
            if l + 8 == 120 {
                lemma_p2_add(120, 8);
                lemma_p2_add(64, 64);
                let yi = y as int;
                assert(yi < 256) by (nonlinear_arith)
                    requires
                        yi * p2(120) <= m,
                        m < p2(120) * 256,
                        p2(120) >= 1,
                ;
            }
        }
        x = x / 256;
        l = l + 8;
    }
    let ghost q = p2(l as int);
    proof {
        lemma_p2_pos(l as int);
    }
    let mut w: u32 = 0;
    let mut b: u128 = 1;
    while b <= x
        invariant
            w <= 8,
            x < 256,
            b == p2(w as int),
            w > 0 ==> p2(w - 1) <= x,
        decreases 512 - b,
    {
        proof {
            lemma_p2_pos(w as int);
            lemma_p2_values();
            if w == 8 {
                assert(false);
            }
        }
        b = b * 2;
        w = w + 1;
    }
    proof {
        if m > 0 {
            assert(x > 0);
            lemma_p2_add(l as int, w as int);
            lemma_p2_add(l as int, w - 1);
            let xi = x as int;
            assert(p2(w - 1) * q <= xi * q) by (nonlinear_arith)
                requires
                    p2(w - 1) <= xi,
                    q >= 1,
            ;
            assert((xi + 1) * q <= p2(w as int) * q) by (nonlinear_arith)
                requires
                    xi + 1 <= p2(w as int),
                    q >= 1,
            ;
            lemma_p2_mono(0, w - 1);
        } else {
            if w > 0 {
                lemma_p2_pos(w - 1);
            }
        }
    }
    l + w
}

/// `m` units divided by `2^r`, rounded.
fn shift_nearest(m: u128, r: u32) -> (q: u128)
    requires
        1 <= r < 128,
    ensures
        q == nearest(m as int, p2(r as int)),
{
    let d: u128 = pow2_u128(r);
    let half: u128 = pow2_u128(r - 1);
    let q: u128 = shr_u128(m, r);
    proof {
        lemma_p2_pos(r - 1);
        vstd::arithmetic::div_mod::lemma_fundamental_div_mod(m as int, d as int);
        assert(q as int * d as int == d as int * q as int) by (nonlinear_arith);
    }
    proof {
        let qi = q as int;
        let di = d as int;
        assert(2 * qi <= m) by (nonlinear_arith)
            requires
                di * qi <= m,
                di >= 2,
                qi >= 0,
        ;
    }
    let rem: u128 = m - q * d;
    if rem < half || (rem == half && q % 2 == 0) {
        q
    } else {
        q + 1
    }
}

/// `m * 2^e` units, rounded to the format, with the given sign.
pub fn round_scaled(f: Format, neg: bool, m: u128, e: i32) -> (b: u64)
    requires
        m < p2(120),
        -5000 <= e <= 5000,
    ensures
        e >= 0 ==> b == f.round(neg, m as int * p2(e as int), 1),
        e < 0 ==> b == f.round(neg, m as int, p2(-e as int)),
{
    let ghost mi = m as int;
    let ghost ei = e as int;
    let ghost num = if ei >= 0 {
        mi * p2(ei)
    } else {
        mi
    };
    let ghost den = if ei >= 0 {
        1
    } else {
        p2(-ei)
    };
    proof {
        lemma_format(f);
        lemma_p2_values();
    }
    if m == 0 {
        proof {
            lemma_p2_pos(ei);
            lemma_p2_pos(-ei);
            lemma_scaled_binade(f.p(), mi, ei, 0);
            assert(num == 0) by (nonlinear_arith)
                requires
                    num == mi || num == mi * p2(ei),
                    mi == 0,
            ;
            assert(den * p2(0) == den);
            vstd::arithmetic::div_mod::lemma_div_of0(den);
            vstd::arithmetic::div_mod::lemma_fundamental_div_mod(0, den);
            assert(0 * p2(f.p() - 1) == 0);
        }
        return if neg {
            f.sign_bit()
        } else {
            0
        };
    }
    let p: i32 = f.precision() as i32;
    let l: i32 = bit_len(m) as i32;
    proof {
        if l > 120 {
            lemma_p2_mono(120, l - 1);
        }
    }
    let k: i32 = if l + e > p {
        l + e - p
    } else {
        0
    };
    let r: i32 = k - e;
    proof {
        lemma_p2_pos(ei);
        lemma_p2_pos(-ei);
        lemma_scaled_binade(f.p(), mi, ei, l as int);
        assert(binade(f.p(), num / den) == k);
    }
    let q: u64 = if r <= 0 {
        let s: u32 = (-r) as u32;
        proof {
            lemma_p2_pos(k as int);
            lemma_shift_left_fits(f.p(), mi, l as int, s as int);
            lemma_scaled_exact(mi, ei, k as int);
        }
        let y: u128 = m * pow2_u128(s);
        y as u64
    } else if r > l + 1 {
        proof {
            lemma_scaled_tiny(mi, ei, l as int);
        }
        0
    } else {
        let y: u128 = shift_nearest(m, r as u32);
        proof {
            lemma_scaled_shift(mi, ei, k as int);
            lemma_nearest_small(f.p(), mi, l as int, r as int);
        }
        y as u64
    };
    assert(q == nearest(num, den * p2(k as int)));
    assert(q <= p2(f.p()));
    let inf: u64 = f.infinity();
    let hidden: u64 = pow2_u128(f.precision() - 1) as u64;
    let ghost h = p2(f.p() - 1);
    let mag: u64 = if k >= 2048 {
        proof {
            lemma_k_past(f, k as int, q as int);
        }
        inf
    } else {
        proof {
            let ki = k as int;
            assert(ki * h <= 2047 * h) by (nonlinear_arith)
                requires
                    ki <= 2047,
                    h >= 1,
            ;
            assert(2047 * h <= 2047 * p2(52));
            lemma_p2_values();
        }
        let b: u64 = (k as u64) * hidden + q;
        if b < inf {
            b
        } else {
            inf
        }
    };
    proof {
        lemma_p2_values();
    }
    if neg {
        f.sign_bit() + mag
    } else {
        mag
    }
}

/// The binade of `m * 2^e`.
proof fn lemma_scaled_binade(p: int, m: int, e: int, l: int)
    requires
        p >= 1,
        m >= 0,
        l >= 0,
        m == 0 <==> l == 0,
        m > 0 ==> p2(l - 1) <= m < p2(l),
    ensures
        e >= 0 ==> binade(p, (m * p2(e)) / 1) == (if m > 0 && l + e > p {
            l + e - p
        } else {
            0
        }),
        e < 0 ==> binade(p, m / p2(-e)) == (if l + e > p {
            l + e - p
        } else {
            0
        }),
{
    lemma_p2_pos(p);
    if m == 0 {
        if e >= 0 {
            assert(m * p2(e) == 0) by (nonlinear_arith)
                requires
                    m == 0,
            ;
        } else {
            lemma_p2_pos(-e);
            vstd::arithmetic::div_mod::lemma_div_of0(p2(-e));
        }
    } else if e >= 0 {
        lemma_p2_add(l - 1, e);
        lemma_p2_add(l, e);
        lemma_p2_pos(e);
        let x = p2(e);
        assert(p2(l - 1) * x <= m * x) by (nonlinear_arith)
            requires
                p2(l - 1) <= m,
                x >= 1,
        ;
        assert(m * x < p2(l) * x) by (nonlinear_arith)
            requires
                m < p2(l),
                x >= 1,
        ;
        lemma_binade_between(p, m * x, l + e);
    } else {
        let d = p2(-e);
        lemma_p2_pos(-e);
        if l + e >= 1 {
            lemma_p2_add(l - 1 + e, -e);
            lemma_p2_add(l + e, -e);
            let lo = p2(l - 1 + e);
            let hi = p2(l + e);
            assert(m / d >= lo) by (nonlinear_arith)
                requires
                    m >= lo * d,
                    d >= 1,
            ;
            assert(m / d < hi) by (nonlinear_arith)
                requires
                    m < hi * d,
                    d >= 1,
            ;
            lemma_binade_between(p, m / d, l + e);
        } else {
            lemma_p2_mono(l, -e);
            vstd::arithmetic::div_mod::lemma_basic_div(m, d);
        }
    }
}

proof fn lemma_shift_left_fits(p: int, m: int, l: int, s: int)
    requires
        m > 0,
        p2(l - 1) <= m < p2(l),
        l >= 1,
        s >= 0,
        l + s <= p,
        p <= 53,
    ensures
        0 <= m * p2(s) <= p2(p),
{
    lemma_p2_add(l, s);
    lemma_p2_mono(l + s, p);
    let x = p2(s);
    lemma_p2_pos(s);
    assert(0 <= m * x <= p2(l) * x) by (nonlinear_arith)
        requires
            0 <= m < p2(l),
            x >= 1,
    ;
}

pub proof fn lemma_scaled_exact(m: int, e: int, k: int)
    requires
        m >= 0,
        0 <= k <= e,
    ensures
        nearest(m * p2(e), 1 * p2(k)) == m * p2(e - k),
{
    lemma_p2_add(e - k, k);
    lemma_p2_pos(k);
    let x = p2(e - k);
    let d = p2(k);
    assert(m * (x * d) == (m * x) * d + 0) by (nonlinear_arith);
    vstd::arithmetic::div_mod::lemma_fundamental_div_mod_converse(m * p2(e), d, m * x, 0);
}

proof fn lemma_scaled_tiny(m: int, e: int, l: int)
    requires
        0 <= m < p2(l),
        0 <= l,
        -e > l + 1,
    ensures
        nearest(m, p2(-e) * p2(0)) == 0,
{
    let d = p2(-e);
    lemma_p2_mono(l + 2, -e);
    assert(p2(l + 2) == 2 * p2(l + 1));
    assert(p2(l + 1) == 2 * p2(l));
    assert(d * p2(0) == d);
    vstd::arithmetic::div_mod::lemma_basic_div(m, d);
    vstd::arithmetic::div_mod::lemma_small_mod(m as nat, d as nat);
}

proof fn lemma_scaled_shift(m: int, e: int, k: int)
    requires
        m >= 0,
        k >= 0,
        k > e,
    ensures
        e >= 0 ==> nearest(m * p2(e), 1 * p2(k)) == nearest(m, p2(k - e)),
        e < 0 ==> nearest(m, p2(-e) * p2(k)) == nearest(m, p2(k - e)),
{
    if e >= 0 {
        lemma_p2_add(e, k - e);
        lemma_p2_pos(e);
        lemma_p2_pos(k - e);
        lemma_nearest_scale(m, p2(k - e), p2(e));
        assert(m * p2(e) == p2(e) * m) by (nonlinear_arith);
    } else {
        lemma_p2_add(-e, k);
    }
}

proof fn lemma_nearest_small(p: int, m: int, l: int, r: int)
    requires
        0 <= m < p2(l),
        l >= 0,
        r >= 0,
        p >= 0,
        l <= r + p,
    ensures
        0 <= nearest(m, p2(r)) <= p2(p),
{
    lemma_p2_add(r, p);
    lemma_p2_mono(l, r + p);
    lemma_p2_pos(r);
    let d = p2(r);
    let h = p2(p);
    assert(0 <= m / d < h) by (nonlinear_arith)
        requires
            0 <= m < d * h,
            d >= 1,
    ;
}

proof fn lemma_k_past(f: Format, k: int, q: int)
    requires
        k >= 2048,
        q >= 0,
    ensures
        k * p2(f.p() - 1) + q >= f.inf(),
{
    lemma_p2_values();
    let h = p2(f.p() - 1);
    assert(k * h >= 2048 * h) by (nonlinear_arith)
        requires
            k >= 2048,
            h >= 1,
    ;
}

/// Common powers of two cancel.
pub proof fn lemma_bits_shift(p: int, m: int, s: int, t: int)
    requires
        m >= 0,
        s >= 0,
        t >= 0,
    ensures
        s >= t ==> magnitude_bits(p, m * p2(s), p2(t)) == magnitude_bits(p, m * p2(s - t), 1),
        s < t ==> magnitude_bits(p, m * p2(s), p2(t)) == magnitude_bits(p, m, p2(t - s)),
{
    lemma_p2_pos(t);
    lemma_p2_pos(s);
    if s >= t {
        lemma_p2_add(s - t, t);
        lemma_p2_pos(s - t);
        let x = p2(s - t);
        let c = p2(t);
        assert(m * (x * c) == c * (m * x)) by (nonlinear_arith);
        assert(m * x >= 0) by (nonlinear_arith)
            requires
                m >= 0,
                x >= 1,
        ;
        lemma_bits_scale(p, m * x, 1, c);
        assert(c * 1 == c);
    } else {
        lemma_p2_add(t - s, s);
        lemma_p2_pos(t - s);
        let x = p2(t - s);
        let c = p2(s);
        assert(x * c == c * x) by (nonlinear_arith);
        assert(m * c == c * m) by (nonlinear_arith);
        lemma_bits_scale(p, m, x, c);
    }
}

/// A value that is not a whole number, but at least `2^(p + 1)`, rounds like
/// its floor and a half, whatever power of two scales it.
pub proof fn lemma_bits_jam(p: int, num: int, den: int, a: int, b: int)
    requires
        p >= 1,
        den > 0,
        num >= 0,
        num % den != 0,
        num / den >= p2(p + 1),
        a >= 0,
        b >= 0,
    ensures
        magnitude_bits(p, num * p2(a), den * p2(b)) == magnitude_bits(
            p,
            (2 * (num / den) + 1) * p2(a),
            p2(b + 1),
        ),
{
    let f = num / den;
    let m = 2 * f + 1;
    lemma_p2_pos(a);
    lemma_p2_pos(b);
    lemma_p2_pos(p + 1);
    vstd::arithmetic::div_mod::lemma_fundamental_div_mod(num, den);
    if a >= b {
        let c = p2(b);
        let x = p2(a - b);
        lemma_p2_add(a - b, b);
        lemma_p2_pos(a - b);
        assert(num * (x * c) == c * (num * x)) by (nonlinear_arith);
        assert(den * c == c * den) by (nonlinear_arith);
        assert(num * x >= 0) by (nonlinear_arith)
            requires
                num >= 0,
                x >= 1,
        ;
        lemma_bits_scale(p, num * x, den, c);
        assert(m * (x * c) == c * (m * x)) by (nonlinear_arith);
        assert(m * x >= 0) by (nonlinear_arith)
            requires
                m >= 0,
                x >= 1,
        ;
        lemma_bits_scale(p, m * x, 2, c);
        assert(p2(b + 1) == 2 * c);
        assert(c * 2 == 2 * c);
        lemma_bits_jam_up(p, num, den, a - b);
    } else {
        let c = p2(a);
        let x = p2(b - a);
        lemma_p2_add(b - a, a);
        lemma_p2_pos(b - a);
        assert(den * (x * c) == c * (den * x)) by (nonlinear_arith);
        assert(num * c == c * num) by (nonlinear_arith);
        assert(den * x > 0) by (nonlinear_arith)
            requires
                den > 0,
                x >= 1,
        ;
        lemma_bits_scale(p, num, den * x, c);
        assert(m * c == c * m) by (nonlinear_arith);
        lemma_bits_scale(p, m, 2 * x, c);
        assert(p2(b + 1) == 2 * (x * c));
        assert(2 * (x * c) == c * (2 * x)) by (nonlinear_arith);
        lemma_bits_jam_down(p, num, den, b - a);
    }
}

/// A positive integer lies between two neighbouring powers of two.
pub proof fn lemma_bracket(n: int) -> (j: int)
    requires
        n >= 1,
    ensures
        j >= 1,
        p2(j - 1) <= n < p2(j),
    decreases n,
{
    if n == 1 {
        assert(p2(1) == 2 * p2(0));
        1
    } else {
        let i = lemma_bracket(n / 2);
        assert(p2(i) == 2 * p2(i - 1));
        assert(p2(i + 1) == 2 * p2(i));
        i + 1
    }
}

proof fn lemma_bits_jam_up(p: int, num: int, den: int, s: int)
    requires
        p >= 1,
        den > 0,
        num >= 0,
        num % den != 0,
        num / den >= p2(p + 1),
        s >= 0,
    ensures
        magnitude_bits(p, num * p2(s), den) == magnitude_bits(
            p,
            (2 * (num / den) + 1) * p2(s),
            2,
        ),
{
    let f = num / den;
    let m = 2 * f + 1;
    let x = p2(s);
    let t = num % den;
    lemma_p2_pos(s);
    lemma_p2_pos(p + 1);
    vstd::arithmetic::div_mod::lemma_fundamental_div_mod(num, den);
    let j = lemma_bracket(f);
    if j < p + 2 {
        lemma_p2_mono(j, p + 1);
    }
    let k = j + s - p;
    lemma_p2_add(j - 1, s);
    lemma_p2_add(j, s);
    let lo = p2(j - 1);
    let hi = p2(j);
    // both values lie in the same binade
    let g = (num * x) / den;
    assert(num * x >= (lo * x) * den) by (nonlinear_arith)
        requires
            num == den * f + t,
            t >= 0,
            f >= lo,
            x >= 1,
            den > 0,
    ;
    assert(num * x < (hi * x) * den) by (nonlinear_arith)
        requires
            num == den * f + t,
            t < den,
            f + 1 <= hi,
            x >= 1,
            den > 0,
    ;
    assert(lo * x <= g < hi * x) by (nonlinear_arith)
        requires
            num * x >= (lo * x) * den,
            num * x < (hi * x) * den,
            g == (num * x) / den,
            den > 0,
    ;
    lemma_binade_between(p, g, j + s);
    let g2 = (m * x) / 2;
    assert(m * x >= (lo * x) * 2) by (nonlinear_arith)
        requires
            m == 2 * f + 1,
            f >= lo,
            x >= 1,
    ;
    assert(m * x < (hi * x) * 2) by (nonlinear_arith)
        requires
            m == 2 * f + 1,
            f + 1 <= hi,
            x >= 1,
    ;
    assert(lo * x <= g2 < hi * x);
    lemma_binade_between(p, g2, j + s);
    // and round alike
    lemma_p2_add(s, k - s);
    lemma_p2_pos(k - s);
    let y = p2(k - s);
    let h = p2(k - s - 1);
    assert(y == 2 * h);
    lemma_p2_pos(k - s - 1);
    assert(den * y > 0) by (nonlinear_arith)
        requires
            den > 0,
            y >= 1,
    ;
    lemma_nearest_scale(num, den * y, x);
    assert(x * num == num * x) by (nonlinear_arith);
    assert(x * (den * y) == den * (x * y)) by (nonlinear_arith);
    lemma_nearest_scale(m, 2 * y, x);
    assert(x * m == m * x) by (nonlinear_arith);
    assert(x * (2 * y) == 2 * (x * y)) by (nonlinear_arith);
    lemma_nearest_jam(num, den, h);
}

proof fn lemma_bits_jam_down(p: int, num: int, den: int, s: int)
    requires
        p >= 1,
        den > 0,
        num >= 0,
        num % den != 0,
        num / den >= p2(p + 1),
        s >= 1,
    ensures
        magnitude_bits(p, num, den * p2(s)) == magnitude_bits(
            p,
            2 * (num / den) + 1,
            2 * p2(s),
        ),
{
    let f = num / den;
    let m = 2 * f + 1;
    let x = p2(s);
    lemma_p2_pos(s);
    lemma_p2_pos(p + 1);
    vstd::arithmetic::div_mod::lemma_div_denominator(num, den, x);
    vstd::arithmetic::div_mod::lemma_div_denominator(m, 2, x);
    assert(m / 2 == f);
    let k = binade(p, f / x);
    lemma_binade_nonneg(p, f / x);
    lemma_p2_add(s, k);
    let h = p2(s + k - 1);
    assert(p2(s + k) == 2 * h);
    lemma_p2_pos(s + k - 1);
    let z = p2(k);
    assert((den * x) * z == den * (x * z)) by (nonlinear_arith);
    assert((2 * x) * z == 2 * (x * z)) by (nonlinear_arith);
    lemma_nearest_jam(num, den, h);
}

/// A finite magnitude taken apart: `m * 2^e` units.
pub struct Parts {
    pub m: u64,
    pub e: u32,
}

/// The units of a finite magnitude come apart into a significand of at most
/// `p` bits and an exponent; an exponent other than zero has all `p` bits.
pub proof fn lemma_parts(f: Format, mag: int)
    requires
        0 <= mag < f.inf(),
    ensures
        mag < p2(f.p()) ==> units(f.p(), mag) == mag * p2(0),
        mag >= p2(f.p()) ==> ({
            let h = p2(f.p() - 1);
            &&& h <= h + mag % h < 2 * h
            &&& 1 <= mag / h - 1 <= 2045
            &&& units(f.p(), mag) == (h + mag % h) * p2(mag / h - 1)
        }),
{
    lemma_format(f);
    lemma_p2_values();
    let h = p2(f.p() - 1);
    if mag >= p2(f.p()) {
        vstd::arithmetic::div_mod::lemma_fundamental_div_mod(mag, h);
        let q = mag / h;
        let r = mag % h;
        assert(q >= 2) by (nonlinear_arith)
            requires
                mag == h * q + r,
                0 <= r < h,
                mag >= 2 * h,
                h >= 1,
        ;
        assert(q <= 2046) by (nonlinear_arith)
            requires
                mag == h * q + r,
                r >= 0,
                mag < 2047 * h,
                h >= 1,
        ;
    }
}

fn parts(f: Format, mag: u64) -> (r: Parts)
    requires
        mag < f.inf(),
    ensures
        r.m as int * p2(r.e as int) == units(f.p(), mag as int),
        r.m < p2(f.p()),
        r.e <= 2045,
        r.e > 0 ==> r.m >= p2(f.p() - 1),
        r.m == 0 <==> mag == 0,
{
    proof {
        lemma_format(f);
        lemma_p2_values();
        lemma_parts(f, mag as int);
    }
    let h: u64 = pow2_u128(f.precision() - 1) as u64;
    if mag < 2 * h {
        Parts { m: mag, e: 0 }
    } else {
        Parts { m: h + mag % h, e: (mag / h - 1) as u32 }
    }
}

/// What is known of a rounded magnitude: it is a pattern of the format.
pub proof fn lemma_round_holds(f: Format, neg: bool, num: int, den: int)
    requires
        num >= 0,
        den > 0,
    ensures
        f.holds(f.round(neg, num, den)),
        f.negative(f.round(neg, num, den)) == neg,
        f.mag(f.round(neg, num, den)) == (if magnitude_bits(f.p(), num, den) < f.inf() {
            magnitude_bits(f.p(), num, den)
        } else {
            f.inf()
        }),
        magnitude_bits(f.p(), num, den) >= 0,
{
    lemma_format(f);
    let k = binade(f.p(), num / den);
    lemma_binade_nonneg(f.p(), num / den);
    lemma_p2_pos(k);
    lemma_p2_pos(f.p() - 1);
    let d = den * p2(k);
    assert(d > 0) by (nonlinear_arith)
        requires
            den > 0,
            p2(k) >= 1,
            d == den * p2(k),
    ;
    vstd::arithmetic::div_mod::lemma_div_pos_is_pos(num, d);
    let h = p2(f.p() - 1);
    assert(k * h >= 0) by (nonlinear_arith)
        requires
            k >= 0,
            h >= 1,
    ;
}

impl Format {
    fn with_sign(self, neg: bool, mag: u64) -> (r: u64)
        requires
            mag < self.sign(),
        ensures
            r == self.signed(neg, mag as int),
    {
        proof {
            lemma_format(self);
            lemma_p2_values();
        }
        if neg {
            self.sign_bit() + mag
        } else {
            mag
        }
    }

    pub fn is_negative(self, b: u64) -> (r: bool)
        ensures
            r == self.negative(b as int),
    {
        b >= self.sign_bit()
    }

    pub fn magnitude(self, b: u64) -> (r: u64)
        ensures
            r == self.mag(b as int),
    {
        let s: u64 = self.sign_bit();
        if b >= s {
            b - s
        } else {
            b
        }
    }

    /// `a * b`.
    pub fn multiply(self, a: u64, b: u64) -> (r: u64)
        requires
            self.holds(a as int),
            self.holds(b as int),
        ensures
            r == self.product(a as int, b as int),
            self.holds(r as int),
    {
        proof {
            lemma_format(self);
            lemma_p2_values();
        }
        let ma: u64 = self.magnitude(a);
        let mb: u64 = self.magnitude(b);
        let neg: bool = self.is_negative(a) != self.is_negative(b);
        let inf: u64 = self.infinity();
        if ma > inf || mb > inf {
            return self.quiet_nan();
        }
        if ma == inf || mb == inf {
            if ma == 0 || mb == 0 {
                return self.quiet_nan();
            }
            return self.with_sign(neg, inf);
        }
        let x: Parts = parts(self, ma);
        let y: Parts = parts(self, mb);
        proof {
            lemma_product_parts(self, x.m as int, x.e as int, y.m as int, y.e as int);
            lemma_round_holds(
                self,
                neg,
                units(self.p(), ma as int) * units(self.p(), mb as int),
                p2(self.unit()),
            );
        }
        let m: u128 = (x.m as u128) * (y.m as u128);
        let e: i32 = (x.e as i32) + (y.e as i32) - self.unit_exponent();
        round_scaled(self, neg, m, e)
    }

    /// `a / b`.
    pub fn divide(self, a: u64, b: u64) -> (r: u64)
        requires
            self.holds(a as int),
            self.holds(b as int),
        ensures
            r == self.quotient(a as int, b as int),
            self.holds(r as int),
    {
        proof {
            lemma_format(self);
            lemma_p2_values();
        }
        let ma: u64 = self.magnitude(a);
        let mb: u64 = self.magnitude(b);
        let neg: bool = self.is_negative(a) != self.is_negative(b);
        let inf: u64 = self.infinity();
        if ma > inf || mb > inf {
            return self.quiet_nan();
        }
        if ma == inf {
            if mb == inf {
                return self.quiet_nan();
            }
            return self.with_sign(neg, inf);
        }
        if mb == inf {
            return self.with_sign(neg, 0);
        }
        if mb == 0 {
            if ma == 0 {
                return self.quiet_nan();
            }
            return self.with_sign(neg, inf);
        }
        self.divide_finite(neg, ma, mb)
    }

    fn divide_finite(self, neg: bool, ma: u64, mb: u64) -> (r: u64)
        requires
            ma < self.inf(),
            0 < mb < self.inf(),
        ensures
            r == self.round(
                neg,
                units(self.p(), ma as int) * p2(self.unit()),
                units(self.p(), mb as int),
            ),
            self.holds(r as int),
    {
        let ghost num = units(self.p(), ma as int) * p2(self.unit());
        let ghost den = units(self.p(), mb as int);
        proof {
            lemma_format(self);
            lemma_p2_values();
            lemma_units_pos(self.p(), mb as int);
            lemma_units_pos(self.p(), ma as int);
            lemma_p2_pos(self.unit());
            assert(num >= 0) by (nonlinear_arith)
                requires
                    num == units(self.p(), ma as int) * p2(self.unit()),
                    units(self.p(), ma as int) >= 0,
                    p2(self.unit()) >= 1,
            ;
            lemma_round_holds(self, neg, num, den);
        }
        if ma == 0 {
            proof {
                lemma_zero_bits(self.p(), den);
                let u = units(self.p(), 0);
                assert(u == 0);
                assert(num == 0) by (nonlinear_arith)
                    requires
                        num == u * p2(self.unit()),
                        u == 0,
                ;
            }
            return self.with_sign(neg, 0);
        }
        let x: Parts = parts(self, ma);
        let y: Parts = parts(self, mb);
        let la: u32 = bit_len(x.m as u128);
        proof {
            if la > 53 {
                lemma_p2_mono(53, la - 1);
            }
        }
        let sh: u32 = 112 - la;
        proof {
            lemma_p2_add(la - 1, sh as int);
            lemma_p2_add(la as int, sh as int);
            lemma_p2_pos(sh as int);
            let mi = x.m as int;
            let si = p2(sh as int);
            assert(p2(la - 1) * si <= mi * si < p2(la as int) * si) by (nonlinear_arith)
                requires
                    p2(la - 1) <= mi < p2(la as int),
                    si >= 1,
            ;
            lemma_p2_mono(112, 120);
        }
        let n: u128 = (x.m as u128) * pow2_u128(sh);
        let d: u128 = y.m as u128;
        let q: u128 = n / d;
        let e: i32 = (x.e as i32) + self.unit_exponent() - (y.e as i32) - (sh as i32);
        let exact: bool = n % d == 0;
        proof {
            lemma_quotient_parts(
                self,
                x.m as int,
                x.e as int,
                y.m as int,
                y.e as int,
                sh as int,
                q as int,
            );
        }
        if exact {
            round_scaled(self, neg, q, e)
        } else {
            round_scaled(self, neg, 2 * q + 1, e - 1)
        }
    }
}

pub proof fn lemma_units_pos(p: int, m: int)
    requires
        m >= 0,
        p >= 1,
    ensures
        units(p, m) >= 0,
        m > 0 ==> units(p, m) > 0,
{
    if m >= p2(p) {
        let h = p2(p - 1);
        let x = p2(m / h - 1);
        lemma_p2_pos(p - 1);
        lemma_p2_pos(m / h - 1);
        assert((h + m % h) * x > 0) by (nonlinear_arith)
            requires
                h >= 1,
                m % h >= 0,
                x >= 1,
        ;
    }
}

pub proof fn lemma_zero_bits(p: int, den: int)
    requires
        den > 0,
        p >= 1,
    ensures
        magnitude_bits(p, 0, den) == 0,
{
    lemma_p2_pos(p);
    vstd::arithmetic::div_mod::lemma_div_of0(den);
    assert(den * p2(0) == den);
    vstd::arithmetic::div_mod::lemma_fundamental_div_mod(0, den);
    assert(0 * p2(p - 1) == 0);
}

proof fn lemma_product_parts(f: Format, m1: int, e1: int, m2: int, e2: int)
    requires
        0 <= m1 < p2(f.p()),
        0 <= m2 < p2(f.p()),
        0 <= e1,
        0 <= e2,
    ensures
        0 <= m1 * m2 < p2(120),
        p2(120) <= u128::MAX,
        (m1 * p2(e1)) * (m2 * p2(e2)) >= 0,
        p2(f.unit()) > 0,
        ({
            let e = e1 + e2 - f.unit();
            let bits = magnitude_bits(f.p(), (m1 * p2(e1)) * (m2 * p2(e2)), p2(f.unit()));
            &&& e >= 0 ==> bits == magnitude_bits(f.p(), (m1 * m2) * p2(e), 1)
            &&& e < 0 ==> bits == magnitude_bits(f.p(), m1 * m2, p2(-e))
        }),
{
    lemma_format(f);
    let b = p2(53);
    lemma_p2_add(53, 53);
    lemma_p2_mono(106, 120);
    lemma_p2_values();
    assert(0 <= m1 * m2 < b * b) by (nonlinear_arith)
        requires
            0 <= m1 < b,
            0 <= m2 < b,
    ;
    let x = p2(e1);
    let y = p2(e2);
    lemma_p2_add(e1, e2);
    lemma_p2_pos(e1 + e2);
    lemma_p2_pos(f.unit());
    assert((m1 * x) * (m2 * y) == (m1 * m2) * (x * y)) by (nonlinear_arith);
    assert((m1 * m2) * (x * y) >= 0) by (nonlinear_arith)
        requires
            m1 * m2 >= 0,
            x * y >= 1,
    ;
    lemma_bits_shift(f.p(), m1 * m2, e1 + e2, f.unit());
}

proof fn lemma_quotient_parts(f: Format, m1: int, e1: int, m2: int, e2: int, sh: int, q: int)
    requires
        0 < m1 < p2(f.p()),
        0 < m2 < p2(f.p()),
        0 <= e1,
        0 <= e2,
        0 <= sh <= 112,
        p2(111) <= m1 * p2(sh) < p2(112),
        q == (m1 * p2(sh)) / m2,
    ensures
        0 <= q,
        2 * q + 1 < p2(120),
        p2(120) <= u128::MAX,
        ({
            let e = e1 + f.unit() - e2 - sh;
            let bits = magnitude_bits(f.p(), (m1 * p2(e1)) * p2(f.unit()), m2 * p2(e2));
            if (m1 * p2(sh)) % m2 == 0 {
                &&& e >= 0 ==> bits == magnitude_bits(f.p(), q * p2(e), 1)
                &&& e < 0 ==> bits == magnitude_bits(f.p(), q, p2(-e))
            } else {
                &&& e - 1 >= 0 ==> bits == magnitude_bits(f.p(), (2 * q + 1) * p2(e - 1), 1)
                &&& e - 1 < 0 ==> bits == magnitude_bits(f.p(), 2 * q + 1, p2(1 - e))
            }
        }),
{
    lemma_format(f);
    let n = m1 * p2(sh);
    let a = e1 + f.unit();
    let b = e2 + sh;
    lemma_p2_values();
    lemma_p2_strict(112, 115);
    lemma_p2_strict(115, 120);
    vstd::arithmetic::div_mod::lemma_fundamental_div_mod(n, m2);
    assert(0 <= q <= n) by (nonlinear_arith)
        requires
            n == m2 * q + n % m2,
            0 <= n % m2 < m2,
            m2 >= 1,
            n >= 0,
    ;
    assert(q >= p2(f.p() + 1)) by {
        lemma_p2_mono(f.p(), 53);
        lemma_p2_add(53, 58);
        lemma_p2_mono(f.p() + 1, 57);
        lemma_p2_pos(58);
        let big = p2(53);
        let lo = p2(58);
        assert(p2(58) == 2 * p2(57));
        assert(q >= lo - 1) by (nonlinear_arith)
            requires
                n == m2 * q + n % m2,
                0 <= n % m2 < m2,
                1 <= m2 <= big,
                n >= big * lo,
                lo >= 1,
        ;
    }
    // bring both sides to the same scale: n * 2^a over m2 * 2^b
    lemma_p2_add(e1, f.unit());
    lemma_p2_add(e2, sh);
    lemma_p2_pos(sh);
    lemma_p2_pos(e1);
    lemma_p2_pos(e2);
    lemma_p2_pos(f.unit());
    let num = (m1 * p2(e1)) * p2(f.unit());
    let den = m2 * p2(e2);
    let c = p2(sh);
    assert(num >= 0 && den > 0) by (nonlinear_arith)
        requires
            num == (m1 * p2(e1)) * p2(f.unit()),
            den == m2 * p2(e2),
            m1 > 0,
            m2 > 0,
            p2(e1) >= 1,
            p2(e2) >= 1,
            p2(f.unit()) >= 1,
    ;
    lemma_bits_scale(f.p(), num, den, c);
    assert(c * num == n * p2(a)) by (nonlinear_arith)
        requires
            num == (m1 * p2(e1)) * p2(f.unit()),
            n == m1 * c,
            p2(a) == p2(e1) * p2(f.unit()),
    ;
    assert(c * den == m2 * p2(b)) by (nonlinear_arith)
        requires
            den == m2 * p2(e2),
            p2(b) == p2(e2) * c,
    ;
    if n % m2 == 0 {
        lemma_p2_pos(a);
        lemma_p2_pos(b);
        assert(n * p2(a) == m2 * (q * p2(a))) by (nonlinear_arith)
            requires
                n == m2 * q,
        ;
        assert(q * p2(a) >= 0) by (nonlinear_arith)
            requires
                q >= 0,
                p2(a) >= 1,
        ;
        lemma_bits_scale(f.p(), q * p2(a), p2(b), m2);
        lemma_bits_shift(f.p(), q, a, b);
    } else {
        lemma_bits_jam(f.p(), n, m2, a, b);
        lemma_bits_shift(f.p(), 2 * q + 1, a, b + 1);
    }
}

/// The rounded sum of two finite values whose exponents are far apart: the
/// smaller one only decides on which side of a representable point the sum
/// lies.
proof fn lemma_far_sum(f: Format, m1: int, e1: int, m2: int, e2: int, same: bool, c: int, r: int)
    requires
        p2(f.p() - 1) <= m1 < p2(f.p()),
        0 < m2 < p2(f.p()),
        e2 >= 0,
        e1 - e2 > 60,
        m2 == c * p2(e1 - e2 - 60) + r,
        0 <= r < p2(e1 - e2 - 60),
        c >= 0,
    ensures
        c <= m2,
        0 <= m1 * p2(60) + c,
        2 * (m1 * p2(60) + c) + 1 < p2(120),
        m1 * p2(60) - c - 1 >= 0,
        ({
            let s = if same {
                m1 * p2(e1) + m2 * p2(e2)
            } else {
                m1 * p2(e1) - m2 * p2(e2)
            };
            let t = if same {
                m1 * p2(60) + c
            } else {
                m1 * p2(60) - c
            };
            &&& s > 0
            &&& r == 0 ==> magnitude_bits(f.p(), s, 1) == magnitude_bits(
                f.p(),
                t * p2(e1 - 60),
                1,
            )
            &&& r > 0 ==> magnitude_bits(f.p(), s, 1) == magnitude_bits(
                f.p(),
                (2 * (if same {
                    t
                } else {
                    t - 1
                }) + 1) * p2(e1 - 61),
                1,
            )
        }),
{
    lemma_format(f);
    lemma_p2_values();
    let d = e1 - e2;
    let g = p2(60);
    let x = p2(d - 60);
    let y = p2(e2);
    lemma_p2_pos(d - 60);
    lemma_p2_pos(e2);
    lemma_p2_pos(60);
    lemma_p2_add(53, 7);
    lemma_p2_add(60, d - 60);
    lemma_p2_add(d, e2);
    lemma_p2_add(d - 60, e2);
    let n1 = m1 * g;
    assert(c <= m2) by (nonlinear_arith)
        requires
            m2 == c * x + r,
            r >= 0,
            x >= 1,
            c >= 0,
    ;
    assert(p2(53) * g == p2(113)) by {
        lemma_p2_add(53, 60);
    }
    lemma_p2_strict(113, 115);
    lemma_p2_strict(115, 117);
    lemma_p2_mono(117, 120);
    assert(n1 <= p2(53) * g) by (nonlinear_arith)
        requires
            m1 <= p2(53),
            g >= 1,
            n1 == m1 * g,
    ;
    assert(n1 >= 0x400 * g) by (nonlinear_arith)
        requires
            m1 >= 0x400,
            g >= 1,
            n1 == m1 * g,
    ;
    let t = if same {
        n1 + c
    } else {
        n1 - c
    };
    let fl = if same || r == 0 {
        t
    } else {
        t - 1
    };
    let rr = if same || r == 0 {
        r
    } else {
        x - r
    };
    // in units of 2^e2, the exact sum is fl * x + rr
    let num = fl * x + rr;
    let s = if same {
        m1 * p2(e1) + m2 * y
    } else {
        m1 * p2(e1) - m2 * y
    };
    let s1 = n1 * x;
    let cx = c * x;
    assert(m1 * ((g * x) * y) == s1 * y) by (nonlinear_arith)
        requires
            n1 == m1 * g,
            s1 == n1 * x,
    ;
    if same {
        assert((n1 + c) * x == s1 + cx) by (nonlinear_arith)
            requires
                s1 == n1 * x,
                cx == c * x,
        ;
        assert(s1 * y + (cx + r) * y == (s1 + cx + r) * y) by (nonlinear_arith);
    } else {
        assert((n1 - c) * x == s1 - cx) by (nonlinear_arith)
            requires
                s1 == n1 * x,
                cx == c * x,
        ;
        assert((n1 - c - 1) * x == s1 - cx - x) by (nonlinear_arith)
            requires
                s1 == n1 * x,
                cx == c * x,
        ;
        assert(s1 * y - (cx + r) * y == (s1 - cx - r) * y) by (nonlinear_arith);
    }
    assert(s == num * y);
    assert(num > 0) by (nonlinear_arith)
        requires
            num == fl * x + rr,
            fl >= 1,
            rr >= 0,
            x >= 1,
    ;
    assert(s > 0) by (nonlinear_arith)
        requires
            s == num * y,
            num > 0,
            y >= 1,
    ;
    if r == 0 {
        assert(s == t * (x * y)) by (nonlinear_arith)
            requires
                s == num * y,
                num == t * x,
        ;
    } else {
        vstd::arithmetic::div_mod::lemma_fundamental_div_mod_converse(num, x, fl, rr);
        assert(fl >= p2(f.p() + 1)) by {
            lemma_p2_mono(f.p() + 1, 55);
            lemma_p2_strict(55, 60);
        }
        // s = num * y = (num / x) * x * y: scale both sides by x
        lemma_bits_scale(f.p(), s, 1, x);
        assert(x * s == num * p2(e1 - 60)) by (nonlinear_arith)
            requires
                s == num * y,
                p2(e1 - 60) == x * y,
        ;
        assert(x * 1 == x * p2(0));
        lemma_bits_jam(f.p(), num, x, e1 - 60, 0);
        lemma_bits_shift(f.p(), 2 * fl + 1, e1 - 60, 1);
        assert(p2(1) == 2);
    }
}

impl Format {
    /// The sum of two finite magnitudes, or their difference where `same` is
    /// false; `neg` is the sign of the first.
    fn combine(self, neg: bool, same: bool, ma: u64, mb: u64) -> (r: u64)
        requires
            ma < self.inf(),
            mb < self.inf(),
        ensures
            ({
                let ua = units(self.p(), ma as int);
                let ub = units(self.p(), mb as int);
                let s = if same {
                    ua + ub
                } else {
                    ua - ub
                };
                &&& s > 0 ==> r == self.round(neg, s, 1)
                &&& s < 0 ==> r == self.round(!neg, -s, 1)
                &&& s == 0 ==> r == 0
            }),
    {
        proof {
            lemma_format(self);
            lemma_p2_values();
        }
        let x: Parts = parts(self, ma);
        let y: Parts = parts(self, mb);
        if x.e >= y.e {
            self.combine_parts(neg, same, x, y)
        } else if same {
            self.combine_parts(neg, true, y, x)
        } else {
            self.combine_parts(!neg, false, y, x)
        }
    }

    fn combine_parts(self, neg: bool, same: bool, x: Parts, y: Parts) -> (r: u64)
        requires
            x.m < p2(self.p()),
            y.m < p2(self.p()),
            y.e <= x.e <= 2045,
            x.e > 0 ==> x.m >= p2(self.p() - 1),
        ensures
            ({
                let ua = x.m as int * p2(x.e as int);
                let ub = y.m as int * p2(y.e as int);
                let s = if same {
                    ua + ub
                } else {
                    ua - ub
                };
                &&& s > 0 ==> r == self.round(neg, s, 1)
                &&& s < 0 ==> r == self.round(!neg, -s, 1)
                &&& s == 0 ==> r == 0
            }),
    {
        proof {
            lemma_format(self);
            lemma_p2_values();
        }
        let d: u32 = x.e - y.e;
        if d <= 60 {
            let ghost a0 = x.m as int;
            let ghost b0 = y.m as int;
            proof {
                let w = p2(d as int);
                lemma_p2_pos(d as int);
                lemma_p2_pos(y.e as int);
                lemma_p2_add(d as int, y.e as int);
                lemma_p2_mono(d as int, 60);
                lemma_p2_add(53, 60);
                lemma_p2_strict(113, 115);
                lemma_p2_mono(115, 120);
                assert(0 <= a0 * w <= p2(53) * p2(60)) by (nonlinear_arith)
                    requires
                        0 <= a0 <= p2(53),
                        0 <= w <= p2(60),
                ;
                let v = p2(y.e as int);
                assert(a0 * (w * v) == (a0 * w) * v) by (nonlinear_arith);
                assert((a0 * w) * v + b0 * v == (a0 * w + b0) * v) by (nonlinear_arith);
                assert((a0 * w) * v - b0 * v == (a0 * w - b0) * v) by (nonlinear_arith);
                assert(b0 * v - (a0 * w) * v == (b0 - a0 * w) * v) by (nonlinear_arith);
                lemma_sign_of_scaled(a0 * w + b0, v);
                lemma_sign_of_scaled(a0 * w - b0, v);
            }
            let a: u128 = (x.m as u128) * pow2_u128(d);
            let b: u128 = y.m as u128;
            if same {
                if a + b == 0 {
                    return 0;
                }
                round_scaled(self, neg, a + b, y.e as i32)
            } else if a == b {
                0
            } else if a > b {
                round_scaled(self, neg, a - b, y.e as i32)
            } else {
                round_scaled(self, !neg, b - a, y.e as i32)
            }
        } else if y.m == 0 {
            proof {
                lemma_p2_pos(x.e as int);
                lemma_sign_of_scaled(x.m as int, p2(x.e as int));
                assert(0 * p2(y.e as int) == 0);
            }
            round_scaled(self, neg, x.m as u128, x.e as i32)
        } else {
            let k: u32 = d - 60;
            proof {
                let st = p2(k as int);
                let yi = y.m as int;
                lemma_p2_pos(k as int);
                vstd::arithmetic::div_mod::lemma_fundamental_div_mod(yi, st);
                assert(0 <= yi / st <= yi) by (nonlinear_arith)
                    requires
                        st >= 1,
                        yi >= 0,
                ;
                let q = yi / st;
                assert(q * st == st * q) by (nonlinear_arith);
            }
            let c: u64 = if k < 64 {
                shr_u128(y.m as u128, k) as u64
            } else {
                0
            };
            let low: u64 = if k < 64 {
                (y.m as u128 - (c as u128) * pow2_u128(k)) as u64
            } else {
                y.m
            };
            proof {
                if k >= 64 {
                    lemma_p2_mono(64, k as int);
                    assert(0 * p2(k as int) == 0);
                }
                lemma_far_sum(
                    self,
                    x.m as int,
                    x.e as int,
                    y.m as int,
                    y.e as int,
                    same,
                    c as int,
                    low as int,
                );
            }
            let g: u128 = (x.m as u128) * pow2_u128(60);
            let t: u128 = if same {
                g + c as u128
            } else {
                g - c as u128
            };
            if low == 0 {
                round_scaled(self, neg, t, x.e as i32 - 60)
            } else if same {
                round_scaled(self, neg, 2 * t + 1, x.e as i32 - 61)
            } else {
                round_scaled(self, neg, 2 * (t - 1) + 1, x.e as i32 - 61)
            }
        }
    }

    /// `a + b`.
    pub fn plus(self, a: u64, b: u64) -> (r: u64)
        requires
            self.holds(a as int),
            self.holds(b as int),
        ensures
            r == self.sum(a as int, b as int),
            self.holds(r as int),
    {
        proof {
            lemma_format(self);
            lemma_p2_values();
            lemma_sum_holds(self, a as int, b as int);
        }
        let ma: u64 = self.magnitude(a);
        let mb: u64 = self.magnitude(b);
        let na: bool = self.is_negative(a);
        let nb: bool = self.is_negative(b);
        let inf: u64 = self.infinity();
        if ma > inf || mb > inf {
            return self.quiet_nan();
        }
        if ma == inf {
            if mb == inf && na != nb {
                return self.quiet_nan();
            }
            return a;
        }
        if mb == inf {
            return b;
        }
        let r: u64 = self.combine(na, na == nb, ma, mb);
        proof {
            lemma_units_pos(self.p(), ma as int);
            lemma_units_pos(self.p(), mb as int);
        }
        if r == 0 && na && nb {
            let ghost s = self.value(a as int) + self.value(b as int);
            proof {
                if s != 0 {
                    lemma_round_holds(self, true, -s, 1);
                }
            }
            return self.sign_bit();
        }
        r
    }

    /// `-a`.
    pub fn negate(self, a: u64) -> (r: u64)
        requires
            self.holds(a as int),
        ensures
            r == self.negated(a as int),
            self.holds(r as int),
    {
        proof {
            lemma_format(self);
            lemma_p2_values();
        }
        self.with_sign(!self.is_negative(a), self.magnitude(a))
    }

    /// `a - b`.
    pub fn minus(self, a: u64, b: u64) -> (r: u64)
        requires
            self.holds(a as int),
            self.holds(b as int),
        ensures
            r == self.difference(a as int, b as int),
            self.holds(r as int),
    {
        let n: u64 = self.negate(b);
        self.plus(a, n)
    }
}

proof fn lemma_sign_of_scaled(n: int, v: int)
    requires
        v >= 1,
    ensures
        n > 0 ==> n * v > 0,
        n < 0 ==> n * v < 0,
        n == 0 ==> n * v == 0,
{
    if n > 0 {
        assert(n * v > 0) by (nonlinear_arith)
            requires
                n > 0,
                v >= 1,
        ;
    } else if n < 0 {
        assert(n * v < 0) by (nonlinear_arith)
            requires
                n < 0,
                v >= 1,
        ;
    } else {
        assert(n * v == 0) by (nonlinear_arith)
            requires
                n == 0,
        ;
    }
}

proof fn lemma_sum_holds(f: Format, a: int, b: int)
    requires
        f.holds(a),
        f.holds(b),
    ensures
        f.holds(f.sum(a, b)),
{
    lemma_format(f);
    if f.is_finite(a) && f.is_finite(b) {
        let s = f.value(a) + f.value(b);
        if s != 0 {
            lemma_round_holds(f, s < 0, if s < 0 {
                -s
            } else {
                s
            }, 1);
        }
    }
}

impl Format {
    /// `b` converted to the format `to`.
    pub fn to_format(self, to: Format, b: u64) -> (r: u64)
        requires
            self.holds(b as int),
        ensures
            r == self.convert(to, b as int),
            to.holds(r as int),
    {
        proof {
            lemma_format(self);
            lemma_format(to);
            lemma_p2_values();
        }
        let neg: bool = self.is_negative(b);
        let mag: u64 = self.magnitude(b);
        let inf: u64 = self.infinity();
        if mag > inf {
            return to.with_sign(neg, to.quiet_nan());
        }
        if mag == inf {
            return to.with_sign(neg, to.infinity());
        }
        let x: Parts = parts(self, mag);
        let e: i32 = x.e as i32 + to.unit_exponent() - self.unit_exponent();
        proof {
            let m = x.m as int;
            let s = p2(x.e as int);
            let t = p2(to.unit());
            lemma_p2_add(x.e as int, to.unit());
            lemma_p2_pos(x.e + to.unit());
            lemma_p2_pos(x.e as int);
            lemma_p2_pos(to.unit());
            lemma_p2_pos(self.unit());
            assert((m * s) * t == m * (s * t)) by (nonlinear_arith);
            assert(m * (s * t) >= 0) by (nonlinear_arith)
                requires
                    m >= 0,
                    s * t >= 1,
            ;
            lemma_bits_shift(to.p(), m, x.e + to.unit(), self.unit());
            lemma_round_holds(to, neg, m * (s * t), p2(self.unit()));
            assert(m * p2(0) == m);
        }
        round_scaled(to, neg, x.m as u128, e)
    }

    /// The whole number `n`, rounded to the format.
    pub fn from_u64(self, n: u64) -> (r: u64)
        ensures
            r == self.of_int(n as int),
            self.holds(r as int),
    {
        proof {
            lemma_format(self);
            lemma_p2_values();
            lemma_p2_pos(self.unit());
            let ni = n as int;
            let u = p2(self.unit());
            assert(ni * u >= 0) by (nonlinear_arith)
                requires
                    ni >= 0,
                    u >= 1,
            ;
            lemma_round_holds(self, false, ni * u, 1);
        }
        round_scaled(self, false, n as u128, self.unit_exponent())
    }

    /// The whole number `n`, rounded to the format.
    pub fn from_i64(self, n: i64) -> (r: u64)
        ensures
            r == self.of_int(n as int),
            self.holds(r as int),
    {
        let neg: bool = n < 0;
        let m: u128 = if neg {
            (-(n as i128)) as u128
        } else {
            n as u128
        };
        proof {
            lemma_format(self);
            lemma_p2_values();
            lemma_p2_pos(self.unit());
            let mi = m as int;
            let u = p2(self.unit());
            assert(mi * u >= 0) by (nonlinear_arith)
                requires
                    mi >= 0,
                    u >= 1,
            ;
            lemma_round_holds(self, neg, mi * u, 1);
        }
        round_scaled(self, neg, m, self.unit_exponent())
    }

    pub fn nan_pattern(self, b: u64) -> (r: bool)
        ensures
            r == self.is_nan(b as int),
    {
        self.magnitude(b) > self.infinity()
    }

    /// `a < b`.
    pub fn lt(self, a: u64, b: u64) -> (r: bool)
        requires
            self.holds(a as int),
            self.holds(b as int),
        ensures
            r == self.less(a as int, b as int),
    {
        if self.nan_pattern(a) || self.nan_pattern(b) {
            return false;
        }
        let ma: u64 = self.magnitude(a);
        let mb: u64 = self.magnitude(b);
        match (self.is_negative(a), self.is_negative(b)) {
            (false, false) => ma < mb,
            (true, true) => ma > mb,
            (true, false) => ma > 0 || mb > 0,
            (false, true) => false,
        }
    }

    /// `a == b`.
    pub fn eq_value(self, a: u64, b: u64) -> (r: bool)
        requires
            self.holds(a as int),
            self.holds(b as int),
        ensures
            r == self.equal(a as int, b as int),
    {
        if self.nan_pattern(a) || self.nan_pattern(b) {
            return false;
        }
        let ma: u64 = self.magnitude(a);
        let mb: u64 = self.magnitude(b);
        ma == mb && (ma == 0 || self.is_negative(a) == self.is_negative(b))
    }
}

/// A pattern stands for a value that rounds to that pattern.
pub proof fn law_units_round_to_themselves(p: int, m: int)
    requires
        p >= 2,
        m >= 0,
    ensures
        magnitude_bits(p, units(p, m), 1) == m,
{
    lemma_p2_pos(p - 1);
    let h = p2(p - 1);
    if m < p2(p) {
        assert(m / 1 == m);
        assert(1 * p2(0) == 1);
        assert(0 * h == 0);
    } else {
        vstd::arithmetic::div_mod::lemma_fundamental_div_mod(m, h);
        let q = m / h;
        let r = m % h;
        assert(q >= 2) by (nonlinear_arith)
            requires
                m == h * q + r,
                0 <= r < h,
                m >= 2 * h,
                h >= 1,
        ;
        let k = q - 1;
        let sig = h + r;
        let x = p2(k);
        lemma_p2_pos(k);
        lemma_p2_add(p - 1, k);
        lemma_p2_add(p, k);
        assert(h * x <= sig * x < (2 * h) * x) by (nonlinear_arith)
            requires
                h <= sig < 2 * h,
                x >= 1,
        ;
        lemma_binade_between(p, sig * x, p + k);
        assert((sig * x) / 1 == sig * x);
        lemma_scaled_exact(sig, k, k);
        assert(sig * p2(0) == sig);
        assert(k * h + sig == h * q + r) by (nonlinear_arith)
            requires
                k == q - 1,
                sig == h + r,
        ;
    }
}

proof fn lemma_units_step(p: int, m: int)
    requires
        p >= 2,
        m >= 0,
    ensures
        units(p, m) < units(p, m + 1),
{
    lemma_p2_pos(p - 1);
    let h = p2(p - 1);
    assert(p2(p) == 2 * h);
    if m + 1 < p2(p) {
    } else if m + 1 == p2(p) {
        vstd::arithmetic::div_mod::lemma_fundamental_div_mod_converse(m + 1, h, 2, 0);
        assert(p2(1) == 2 * p2(0));
        assert(units(p, m + 1) == (h + 0) * p2(1));
        assert((h + 0) * p2(1) == 2 * h) by (nonlinear_arith)
            requires
                p2(1) == 2,
        ;
    } else {
        vstd::arithmetic::div_mod::lemma_fundamental_div_mod(m, h);
        let q = m / h;
        let r = m % h;
        let x = p2(q - 1);
        lemma_p2_pos(q - 1);
        assert(q >= 2) by (nonlinear_arith)
            requires
                m == h * q + r,
                0 <= r < h,
                m >= 2 * h,
                h >= 1,
        ;
        if r + 1 < h {
            assert(m + 1 == q * h + (r + 1)) by (nonlinear_arith)
                requires
                    m == h * q + r,
            ;
            vstd::arithmetic::div_mod::lemma_fundamental_div_mod_converse(m + 1, h, q, r + 1);
            assert((h + r + 1) * x == (h + r) * x + x) by (nonlinear_arith);
            assert((h + (r + 1)) * x == (h + r + 1) * x);
        } else {
            assert(m + 1 == (q + 1) * h + 0) by (nonlinear_arith)
                requires
                    m == h * q + r,
                    r + 1 == h,
            ;
            vstd::arithmetic::div_mod::lemma_fundamental_div_mod_converse(m + 1, h, q + 1, 0);
            assert(p2(q) == 2 * x);
            assert((h + 0) * (2 * x) == (h + r) * x + x) by (nonlinear_arith)
                requires
                    r + 1 == h,
            ;
        }
    }
}

/// Magnitude patterns are ordered as the values they stand for.
pub proof fn law_patterns_are_ordered(p: int, a: int, b: int)
    requires
        p >= 2,
        0 <= a < b,
    ensures
        units(p, a) < units(p, b),
    decreases b - a,
{
    lemma_units_step(p, b - 1);
    if a < b - 1 {
        law_patterns_are_ordered(p, a, b - 1);
    }
}

/// Comparing two finite patterns compares the values they stand for.
pub proof fn law_comparison_is_of_values(f: Format, a: int, b: int)
    requires
        f.holds(a),
        f.holds(b),
        f.is_finite(a),
        f.is_finite(b),
    ensures
        f.less(a, b) == (f.value(a) < f.value(b)),
        f.equal(a, b) == (f.value(a) == f.value(b)),
{
    lemma_format(f);
    let p = f.p();
    let x = f.mag(a);
    let y = f.mag(b);
    lemma_units_pos(p, x);
    lemma_units_pos(p, y);
    if x < y {
        law_patterns_are_ordered(p, x, y);
    } else if y < x {
        law_patterns_are_ordered(p, y, x);
    }
}

/// How far `a` and `b` are apart.
pub open spec fn dist(a: int, b: int) -> int {
    if a < b {
        b - a
    } else {
        a - b
    }
}

proof fn lemma_nearest_is_closest(n: int, d: int, j: int)
    requires
        n >= 0,
        d > 0,
    ensures
        dist(nearest(n, d) * d, n) <= dist(j * d, n),
{
    vstd::arithmetic::div_mod::lemma_fundamental_div_mod(n, d);
    let q = n / d;
    let r = n % d;
    assert((q + 1) * d == q * d + d) by (nonlinear_arith);
    assert(q * d == d * q) by (nonlinear_arith);
    if j <= q {
        assert(j * d <= q * d) by (nonlinear_arith)
            requires
                j <= q,
                d > 0,
        ;
    } else {
        assert(j * d >= (q + 1) * d) by (nonlinear_arith)
            requires
                j >= q + 1,
                d > 0,
        ;
    }
}

/// Patterns past a binade are whole multiples of its step.
proof fn lemma_units_multiple(p: int, m: int, k: int) -> (j: int)
    requires
        p >= 2,
        m >= 0,
        k >= 0,
        units(p, m) >= p2(p - 1 + k),
    ensures
        units(p, m) == j * p2(k),
{
    lemma_p2_pos(p - 1);
    let h = p2(p - 1);
    let u = units(p, m);
    if k == 0 {
        assert(u == u * p2(0));
        u
    } else if m < p2(p) {
        lemma_p2_mono(p, p - 1 + k);
        assert(false);
        0
    } else {
        vstd::arithmetic::div_mod::lemma_fundamental_div_mod(m, h);
        let q = m / h;
        let r = m % h;
        assert(q >= 2) by (nonlinear_arith)
            requires
                m == h * q + r,
                0 <= r < h,
                m >= 2 * h,
                h >= 1,
        ;
        let i = q - 1;
        if i < k {
            lemma_p2_add(p, i);
            lemma_p2_mono(p + i, p - 1 + k);
            lemma_p2_pos(i);
            let x = p2(i);
            assert((h + r) * x < (2 * h) * x) by (nonlinear_arith)
                requires
                    r < h,
                    x >= 1,
            ;
            assert(false);
        }
        lemma_p2_add(i - k, k);
        let j = (h + r) * p2(i - k);
        assert((h + r) * (p2(i - k) * p2(k)) == j * p2(k)) by (nonlinear_arith)
            requires
                j == (h + r) * p2(i - k),
        ;
        j
    }
}

/// What a rounded pattern stands for: the rounded multiple of the step.
pub proof fn lemma_units_of_bits(p: int, num: int, den: int)
    requires
        p >= 2,
        num >= 0,
        den > 0,
    ensures
        magnitude_bits(p, num, den) >= 0,
        units(p, magnitude_bits(p, num, den)) == nearest(
            num,
            den * p2(binade(p, num / den)),
        ) * p2(binade(p, num / den)),
        binade(p, num / den) > 0 ==> num >= p2(p - 1 + binade(p, num / den)) * den,
{
    let n = num / den;
    let k = binade(p, n);
    let h = p2(p - 1);
    lemma_p2_pos(p - 1);
    lemma_binade_nonneg(p, n);
    lemma_p2_pos(k);
    let x = p2(k);
    let d = den * x;
    assert(d > 0) by (nonlinear_arith)
        requires
            den > 0,
            x >= 1,
            d == den * x,
    ;
    vstd::arithmetic::div_mod::lemma_fundamental_div_mod(num, den);
    vstd::arithmetic::div_mod::lemma_div_pos_is_pos(num, den);
    vstd::arithmetic::div_mod::lemma_div_pos_is_pos(num, d);
    vstd::arithmetic::div_mod::lemma_div_denominator(num, den, x);
    let r = nearest(num, d);
    if k == 0 {
        assert(x == 1);
        assert(d == den) by (nonlinear_arith)
            requires
                d == den * x,
                x == 1,
        ;
        lemma_p2_pos(p);
        lemma_binade_nonneg(p, n / 2);
        assert(n < p2(p));
        assert(0 * h == 0);
        assert(magnitude_bits(p, num, den) == r);
        if r == p2(p) {
            vstd::arithmetic::div_mod::lemma_fundamental_div_mod_converse(r, h, 2, 0);
            assert(p2(1) == 2 * p2(0));
            assert(units(p, r) == (h + 0) * p2(1));
            assert((h + 0) * 2 == 2 * h);
        }
        assert(units(p, r) == r);
        assert(r * p2(0) == r);
    } else {
        lemma_p2_pos(p);
        let j = lemma_bracket(n);
        lemma_binade_between(p, n, j);
        assert(j == p + k);
        lemma_p2_add(p - 1, k);
        lemma_p2_add(p, k);
        assert(num >= p2(p - 1 + k) * den) by (nonlinear_arith)
            requires
                num == den * n + num % den,
                num % den >= 0,
                n >= p2(p - 1 + k),
                den > 0,
        ;
        let fl = n / x;
        assert(h <= fl < 2 * h) by (nonlinear_arith)
            requires
                h * x <= n < (2 * h) * x,
                fl == n / x,
                x >= 1,
        ;
        assert(h <= r <= 2 * h);
        let b = k * h + r;
        if r < 2 * h {
            assert(b == (k + 1) * h + (r - h)) by (nonlinear_arith)
                requires
                    b == k * h + r,
            ;
            vstd::arithmetic::div_mod::lemma_fundamental_div_mod_converse(b, h, k + 1, r - h);
        } else {
            assert(b == (k + 2) * h + 0) by (nonlinear_arith)
                requires
                    b == k * h + r,
                    r == 2 * h,
            ;
            vstd::arithmetic::div_mod::lemma_fundamental_div_mod_converse(b, h, k + 2, 0);
            assert(p2(k + 1) == 2 * x);
            assert((h + 0) * (2 * x) == (2 * h) * x) by (nonlinear_arith);
        }
        assert(b >= 2 * h) by (nonlinear_arith)
            requires
                b == k * h + r,
                k >= 1,
                r >= h,
                h >= 1,
        ;
        assert(magnitude_bits(p, num, den) == b);
        assert(p2(p) == 2 * h);
        assert(units(p, b) == (h + b % h) * p2(b / h - 1));
        if r < 2 * h {
            assert((h + (r - h)) * x == r * x);
        }
    }
}

/// Rounding picks a closest value: no pattern lies nearer to `num / den` units
/// than the one it rounds to.
pub proof fn law_rounding_is_closest(p: int, num: int, den: int, m: int)
    requires
        p >= 2,
        num >= 0,
        den > 0,
        m >= 0,
    ensures
        dist(units(p, magnitude_bits(p, num, den)) * den, num) <= dist(units(p, m) * den, num),
{
    let k = binade(p, num / den);
    let x = p2(k);
    lemma_binade_nonneg(p, num / den);
    lemma_p2_pos(k);
    let d = den * x;
    assert(d > 0) by (nonlinear_arith)
        requires
            den > 0,
            x >= 1,
            d == den * x,
    ;
    lemma_units_of_bits(p, num, den);
    let r = nearest(num, d);
    assert((r * x) * den == r * d) by (nonlinear_arith)
        requires
            d == den * x,
    ;
    let u = units(p, m);
    let lo = p2(p - 1 + k);
    if u >= lo {
        let j = lemma_units_multiple(p, m, k);
        assert(u * den == j * d) by (nonlinear_arith)
            requires
                u == j * x,
                d == den * x,
        ;
        lemma_nearest_is_closest(num, d, j);
    } else if k == 0 {
        assert(u * den == u * d);
        lemma_nearest_is_closest(num, d, u);
    } else {
        lemma_p2_add(p - 1, k);
        let h = p2(p - 1);
        assert(h * d == lo * den) by (nonlinear_arith)
            requires
                d == den * x,
                lo == h * x,
        ;
        lemma_nearest_is_closest(num, d, h);
        assert(u * den <= lo * den) by (nonlinear_arith)
            requires
                u <= lo,
                den > 0,
        ;
    }
}

impl Format {
    /// The whole part as a 64-bit unsigned number: negative values and NaN
    /// give zero, values past the range the largest number.
    pub open spec fn truncated(self, b: int) -> int {
        if self.is_nan(b) || self.negative(b) {
            0
        } else if self.is_inf(b) {
            u64::MAX as int
        } else {
            let t = units(self.p(), self.mag(b)) / p2(self.unit());
            if t <= u64::MAX {
                t
            } else {
                u64::MAX as int
            }
        }
    }

    /// A finite value without a fraction.
    pub open spec fn is_whole(self, b: int) -> bool {
        self.is_finite(b) && units(self.p(), self.mag(b)) % p2(self.unit()) == 0
    }

    pub fn trunc_u64(self, b: u64) -> (r: u64)
        requires
            self.holds(b as int),
        ensures
            r == self.truncated(b as int),
    {
        proof {
            lemma_format(self);
            lemma_p2_values();
        }
        let mag: u64 = self.magnitude(b);
        let inf: u64 = self.infinity();
        if mag > inf || self.is_negative(b) {
            return 0;
        }
        if mag == inf {
            return u64::MAX;
        }
        let x: Parts = parts(self, mag);
        let u: u32 = self.unit_exponent() as u32;
        proof {
            lemma_whole_part(x.m as int, x.e as int, self.unit());
        }
        if x.e >= u {
            let s: u32 = x.e - u;
            if x.m == 0 {
                0
            } else if s >= 64 {
                proof {
                    lemma_p2_mono(64, s as int);
                    let (m, g) = (x.m as int, p2(s as int));
                    assert(m * g >= g) by (nonlinear_arith)
                        requires
                            m >= 1,
                            g >= 1,
                    ;
                }
                u64::MAX
            } else {
                proof {
                    lemma_p2_mono(s as int, 64);
                    lemma_p2_pos(s as int);
                    let (m, g) = (x.m as int, p2(s as int));
                    assert(0 <= m * g <= p2(53) * p2(64)) by (nonlinear_arith)
                        requires
                            0 <= m <= p2(53),
                            0 <= g <= p2(64),
                    ;
                    lemma_p2_add(53, 64);
                    lemma_p2_mono(117, 120);
                }
                let v: u128 = (x.m as u128) * pow2_u128(s);
                if v > u64::MAX as u128 {
                    u64::MAX
                } else {
                    v as u64
                }
            }
        } else {
            let s: u32 = u - x.e;
            if s >= 64 {
                proof {
                    lemma_p2_mono(53, s as int);
                    vstd::arithmetic::div_mod::lemma_basic_div(x.m as int, p2(s as int));
                }
                0
            } else {
                let v: u128 = shr_u128(x.m as u128, s);
                proof {
                    lemma_p2_pos(s as int);
                    let (m, g) = (x.m as int, p2(s as int));
                    assert(0 <= m / g <= m) by (nonlinear_arith)
                        requires
                            m >= 0,
                            g >= 1,
                    ;
                }
                v as u64
            }
        }
    }

    pub fn whole(self, b: u64) -> (r: bool)
        requires
            self.holds(b as int),
        ensures
            r == self.is_whole(b as int),
    {
        proof {
            lemma_format(self);
            lemma_p2_values();
        }
        let mag: u64 = self.magnitude(b);
        if mag >= self.infinity() {
            return false;
        }
        let x: Parts = parts(self, mag);
        let u: u32 = self.unit_exponent() as u32;
        proof {
            lemma_whole_part(x.m as int, x.e as int, self.unit());
        }
        if x.e >= u {
            true
        } else {
            let s: u32 = u - x.e;
            if s >= 64 {
                proof {
                    lemma_p2_mono(53, s as int);
                    vstd::arithmetic::div_mod::lemma_small_mod(x.m as nat, p2(s as int) as nat);
                }
                x.m == 0
            } else {
                proof {
                    lemma_p2_pos(s as int);
                }
                (x.m as u128) % pow2_u128(s) == 0
            }
        }
    }
}

/// The whole part of `m * 2^e` units of `2^-u`.
proof fn lemma_whole_part(m: int, e: int, u: int)
    requires
        m >= 0,
        e >= 0,
        u >= 0,
    ensures
        e >= u ==> (m * p2(e)) / p2(u) == m * p2(e - u) && (m * p2(e)) % p2(u) == 0,
        e < u ==> (m * p2(e)) / p2(u) == m / p2(u - e) && ((m * p2(e)) % p2(u) == 0) == (m % p2(
            u - e,
        ) == 0),
{
    lemma_p2_pos(u);
    lemma_p2_pos(e);
    if e >= u {
        lemma_p2_add(e - u, u);
        let (x, y) = (p2(e - u), p2(u));
        assert(m * (x * y) == (m * x) * y + 0) by (nonlinear_arith);
        vstd::arithmetic::div_mod::lemma_fundamental_div_mod_converse(m * p2(e), y, m * x, 0);
    } else {
        lemma_p2_add(e, u - e);
        lemma_p2_pos(u - e);
        let (c, d) = (p2(e), p2(u - e));
        let (q, r) = (m / d, m % d);
        vstd::arithmetic::div_mod::lemma_fundamental_div_mod(m, d);
        assert(m * c == q * (c * d) + c * r) by (nonlinear_arith)
            requires
                m == d * q + r,
        ;
        assert(0 <= c * r < c * d) by (nonlinear_arith)
            requires
                0 <= r < d,
                c >= 1,
        ;
        vstd::arithmetic::div_mod::lemma_fundamental_div_mod_converse(m * c, c * d, q, c * r);
        assert((c * r == 0) == (r == 0)) by (nonlinear_arith)
            requires
                c >= 1,
        ;
    }
}

/// The whole part of the square root of `n`.
pub open spec fn floor_sqrt(n: int) -> int
    decreases n,
{
    if n <= 0 {
        0
    } else {
        let s = floor_sqrt(n - 1);
        if (s + 1) * (s + 1) <= n {
            s + 1
        } else {
            s
        }
    }
}

pub proof fn lemma_floor_sqrt(n: int)
    requires
        n >= 0,
    ensures
        floor_sqrt(n) >= 0,
        floor_sqrt(n) * floor_sqrt(n) <= n < (floor_sqrt(n) + 1) * (floor_sqrt(n) + 1),
    decreases n,
{
    if n > 0 {
        lemma_floor_sqrt(n - 1);
        let s = floor_sqrt(n - 1);
        if (s + 1) * (s + 1) <= n {
            assert(n < (s + 2) * (s + 2)) by (nonlinear_arith)
                requires
                    n - 1 < (s + 1) * (s + 1),
                    s >= 0,
            ;
        }
    }
}

pub proof fn lemma_floor_sqrt_unique(n: int, r: int)
    requires
        r >= 0,
        r * r <= n < (r + 1) * (r + 1),
    ensures
        floor_sqrt(n) == r,
{
    assert(n >= 0) by (nonlinear_arith)
        requires
            r * r <= n,
    ;
    lemma_floor_sqrt(n);
    let s = floor_sqrt(n);
    if s < r {
        assert((s + 1) * (s + 1) <= r * r) by (nonlinear_arith)
            requires
                0 <= s,
                s + 1 <= r,
        ;
    } else if s > r {
        assert((r + 1) * (r + 1) <= s * s) by (nonlinear_arith)
            requires
                0 <= r,
                r + 1 <= s,
        ;
    }
}

impl Format {
    /// The rounded square root. `units * 2^unit` is the square of the root in
    /// units; a root that is no whole number of units lies between two, far
    /// from any halfway point of the rounding, and rounds like its floor and a
    /// half.
    pub open spec fn root(self, b: int) -> int {
        if self.is_nan(b) {
            self.nan()
        } else if self.mag(b) == 0 {
            b
        } else if self.negative(b) {
            self.nan()
        } else if self.is_inf(b) {
            self.inf()
        } else {
            let n = units(self.p(), self.mag(b)) * p2(self.unit());
            let s = floor_sqrt(n);
            if s * s == n {
                self.round(false, s, 1)
            } else {
                self.round(false, 2 * s + 1, 2)
            }
        }
    }

    /// The square root in single or double precision.
    pub fn square_root(self, b: u64) -> (r: u64)
        requires
            self.holds(b as int),
            self != Format::F16,
        ensures
            r == self.root(b as int),
            self.holds(r as int),
    {
        proof {
            lemma_format(self);
            lemma_p2_values();
        }
        let mag: u64 = self.magnitude(b);
        let inf: u64 = self.infinity();
        if mag > inf {
            return self.quiet_nan();
        }
        if mag == 0 {
            return b;
        }
        if self.is_negative(b) {
            return self.quiet_nan();
        }
        if mag == inf {
            return inf;
        }
        let x: Parts = parts(self, mag);
        let la: u32 = bit_len(x.m as u128);
        proof {
            if la > 53 {
                lemma_p2_mono(53, la - 1);
            }
        }
        let e: i32 = x.e as i32 + self.unit_exponent();
        let t: u32 = if (e - (110 - la as i32)) % 2 == 0 {
            110 - la
        } else {
            111 - la
        };
        let j: i32 = (e - t as i32) / 2;
        let ghost n = units(self.p(), mag as int) * p2(self.unit());
        let ghost mm = x.m as int * p2(t as int);
        proof {
            let m = x.m as int;
            lemma_p2_add(la - 1, t as int);
            lemma_p2_add(la as int, t as int);
            lemma_p2_pos(t as int);
            let g = p2(t as int);
            assert(p2(la - 1) * g <= m * g < p2(la as int) * g) by (nonlinear_arith)
                requires
                    p2(la - 1) <= m < p2(la as int),
                    g >= 1,
            ;
            lemma_p2_mono(109, la - 1 + t);
            lemma_p2_mono(la + t, 111);
            lemma_p2_strict(111, 120);
            // n = mm * 2^(2j)
            assert(e - t == 2 * j);
            lemma_p2_add(x.e as int, self.unit());
            lemma_p2_add(t as int, 2 * j);
            let (a, u, d) = (p2(x.e as int), p2(self.unit()), p2(2 * j));
            assert((m * a) * u == (m * g) * d) by (nonlinear_arith)
                requires
                    a * u == g * d,
            ;
            assert(n == mm * p2(2 * j));
        }
        proof {
            lemma_p2_strict(111, 112);
            lemma_p2_strict(56, 58);
            lemma_p2_strict(58, 120);
        }
        let big: u128 = (x.m as u128) * pow2_u128(t);
        let r: u128 = isqrt(big);
        proof {
            lemma_root(self, n, mm, j as int, r as int);
        }
        if r * r == big {
            round_scaled(self, false, r, j)
        } else {
            round_scaled(self, false, 2 * r + 1, j - 1)
        }
    }
}

/// The whole part of the square root.
fn isqrt(n: u128) -> (r: u128)
    requires
        n < p2(112),
    ensures
        r * r <= n < (r + 1) * (r + 1),
        r < p2(56),
{
    let mut r: u128 = 0;
    let mut k: u32 = 56;
    let mut step: u128 = pow2_u128(56);
    proof {
        lemma_p2_add(56, 56);
        assert((0 + step) * (0 + step) == p2(112)) by (nonlinear_arith)
            requires
                step == p2(56),
                p2(112) == p2(56) * p2(56),
        ;
        lemma_p2_values();
        lemma_p2_strict(112, 120);
        assert(0int * 0 == 0);
    }
    while k > 0
        invariant
            k <= 56,
            step == p2(k as int),
            r * r <= n < (r + step) * (r + step),
            r + step <= p2(56),
            p2(56) * p2(56) == p2(112),
            p2(112) <= u128::MAX,
            p2(56) <= u128::MAX,
            n < p2(112),
        decreases k,
    {
        proof {
            assert(p2(k as int) == 2 * p2(k - 1));
            lemma_p2_pos(k - 1);
        }
        step = step / 2;
        k = k - 1;
        let c: u128 = r + step;
        proof {
            let (ci, b) = (c as int, p2(56));
            assert(0 <= ci * ci <= b * b) by (nonlinear_arith)
                requires
                    0 <= ci <= b,
            ;
        }
        if c * c <= n {
            r = c;
        }
    }
    proof {
        assert(p2(0) == 1);
    }
    r
}

proof fn lemma_even_root(s: int, k: int)
    requires
        s >= 0,
        s * s == 4 * k,
    ensures
        s % 2 == 0,
        (s / 2) * (s / 2) == k,
{
    let u = s / 2;
    if s % 2 == 1 {
        assert(s * s == 4 * (u * u + u) + 1) by (nonlinear_arith)
            requires
                s == 2 * u + 1,
        ;
        assert(false);
    }
    assert(s * s == 4 * (u * u)) by (nonlinear_arith)
        requires
            s == 2 * u,
    ;
}

/// A square times a power of four is a square only of a square.
proof fn lemma_square_of_square(s: int, m: int, j: int)
    requires
        s >= 0,
        m >= 0,
        j >= 0,
        s * s == m * p2(2 * j),
    ensures
        floor_sqrt(m) * floor_sqrt(m) == m,
    decreases j,
{
    if j == 0 {
        assert(m * p2(0) == m);
        assert(s * s < (s + 1) * (s + 1)) by (nonlinear_arith)
            requires
                s >= 0,
        ;
        lemma_floor_sqrt_unique(m, s);
    } else {
        assert(p2(2 * j) == 2 * p2(2 * j - 1));
        assert(p2(2 * j - 1) == 2 * p2(2 * (j - 1)));
        let q = p2(2 * (j - 1));
        assert(m * (4 * q) == 4 * (m * q)) by (nonlinear_arith);
        lemma_even_root(s, m * q);
        lemma_square_of_square(s / 2, m, j - 1);
    }
}

proof fn lemma_root(f: Format, n: int, m: int, j: int, r: int)
    requires
        f.p() <= 53,
        p2(109) <= m,
        j >= 0,
        n == m * p2(2 * j),
        r >= 0,
        r * r <= m < (r + 1) * (r + 1),
    ensures
        ({
            let s = floor_sqrt(n);
            &&& f.holds(f.root_round(n))
            &&& r * r == m ==> s * s == n && magnitude_bits(f.p(), s, 1) == magnitude_bits(
                f.p(),
                r * p2(j),
                1,
            )
            &&& r * r != m ==> s * s != n && (j >= 1 ==> magnitude_bits(f.p(), 2 * s + 1, 2)
                == magnitude_bits(f.p(), (2 * r + 1) * p2(j - 1), 1)) && (j == 0
                ==> magnitude_bits(f.p(), 2 * s + 1, 2) == magnitude_bits(
                f.p(),
                2 * r + 1,
                p2(1),
            ))
        }),
{
    lemma_format(f);
    let s = floor_sqrt(n);
    let g = p2(j);
    lemma_p2_pos(j);
    lemma_p2_pos(2 * j);
    lemma_p2_add(j, j);
    assert(n >= 0) by (nonlinear_arith)
        requires
            n == m * p2(2 * j),
            m >= 0,
            p2(2 * j) >= 1,
    ;
    lemma_floor_sqrt(n);
    lemma_round_holds(f, false, s, 1);
    lemma_round_holds(f, false, 2 * s + 1, 2);
    // r * g <= sqrt(n) < (r + 1) * g
    assert((r * g) * (r * g) <= n) by (nonlinear_arith)
        requires
            r * r <= m,
            n == m * (g * g),
            g >= 1,
    ;
    assert(n < ((r + 1) * g) * ((r + 1) * g)) by (nonlinear_arith)
        requires
            m < (r + 1) * (r + 1),
            n == m * (g * g),
            g >= 1,
    ;
    if r * r == m {
        assert((r * g) * (r * g) == n) by (nonlinear_arith)
            requires
                r * r == m,
                n == m * (g * g),
        ;
        assert(r * g >= 0) by (nonlinear_arith)
            requires
                r >= 0,
                g >= 1,
        ;
        assert((r * g) * (r * g) < (r * g + 1) * (r * g + 1)) by (nonlinear_arith)
            requires
                r * g >= 0,
        ;
        lemma_floor_sqrt_unique(n, r * g);
    } else {
        if s * s == n {
            lemma_square_of_square(s, m, j);
            lemma_floor_sqrt_unique(m, r);
            assert(false);
        }
        // r = s / g
        assert(s >= r * g) by {
            if s < r * g {
                let y = r * g;
                assert((s + 1) * (s + 1) <= y * y) by (nonlinear_arith)
                    requires
                        0 <= s,
                        s + 1 <= y,
                ;
            }
        }
        assert(s < (r + 1) * g) by {
            if s >= (r + 1) * g {
                let y = (r + 1) * g;
                assert(y >= 0) by (nonlinear_arith)
                    requires
                        y == (r + 1) * g,
                        r >= 0,
                        g >= 1,
                ;
                assert(y * y <= s * s) by (nonlinear_arith)
                    requires
                        0 <= y <= s,
                ;
            }
        }
        let num = 2 * s + 1;
        let den = 2 * g;
        let rem = num - r * den;
        assert(r * den == 2 * (r * g)) by (nonlinear_arith)
            requires
                den == 2 * g,
        ;
        assert((r + 1) * g == r * g + g) by (nonlinear_arith);
        assert(num == r * den + rem);
        assert(0 < rem < den);
        vstd::arithmetic::div_mod::lemma_fundamental_div_mod_converse(num, den, r, rem);
        // r is large enough
        assert(r >= p2(54)) by {
            lemma_p2_add(54, 54);
            lemma_p2_strict(108, 109);
            let c = p2(54);
            lemma_p2_pos(54);
            if r < c {
                assert((r + 1) * (r + 1) <= c * c) by (nonlinear_arith)
                    requires
                        0 <= r,
                        r + 1 <= c,
                ;
            }
        }
        lemma_p2_mono(f.p() + 1, 54);
        lemma_bits_jam(f.p(), num, den, j, 0);
        assert(den * p2(0) == den);
        lemma_bits_scale(f.p(), num, 2, g);
        assert(g * num == num * g) by (nonlinear_arith);
        assert(g * 2 == den);
        lemma_bits_shift(f.p(), 2 * r + 1, j, 1);
    }
}

impl Format {
    /// The rounded root of `n` square units.
    pub open spec fn root_round(self, n: int) -> int {
        let s = floor_sqrt(n);
        if s * s == n {
            self.round(false, s, 1)
        } else {
            self.round(false, 2 * s + 1, 2)
        }
    }
}

} // verus!
