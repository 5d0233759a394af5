//! Decimal numerals to double precision, correctly rounded.
use vstd::prelude::*;

use crate::big;
use crate::big::{at_least, mul_add, sub_assign};
use crate::ieee;
use crate::ieee::Format;

verus! {

/// Ten to the power `n`.
pub open spec fn pow10(n: int) -> int
    decreases n,
{
    if n <= 0 {
        1
    } else {
        10 * pow10(n - 1)
    }
}

/// The number that decimal digits, most significant first, stand for.
pub open spec fn digits_value(d: Seq<u8>) -> int
    decreases d.len(),
{
    if d.len() == 0 {
        0
    } else {
        10 * digits_value(d.drop_last()) + d.last()
    }
}

/// The double nearest to `m * 10^e`, with the given sign.
pub open spec fn of_decimal(neg: bool, m: int, e: int) -> int {
    if e >= 0 {
        Format::F64.round(neg, m * pow10(e) * ieee::p2(1074), 1)
    } else {
        Format::F64.round(neg, m * ieee::p2(1074), pow10(-e))
    }
}

pub proof fn lemma_pow10_pos(n: int)
    ensures
        pow10(n) >= 1,
    decreases n,
{
    if n > 0 {
        lemma_pow10_pos(n - 1);
    }
}

pub proof fn lemma_pow10_add(a: int, b: int)
    requires
        a >= 0,
        b >= 0,
    ensures
        pow10(a + b) == pow10(a) * pow10(b),
    decreases a,
{
    if a > 0 {
        lemma_pow10_add(a - 1, b);
        let (x, y) = (pow10(a - 1), pow10(b));
        assert(10 * (x * y) == (10 * x) * y) by (nonlinear_arith);
    } else {
        assert(1 * pow10(b) == pow10(b));
    }
}

/// `8^n <= 10^n <= 16^n`.
proof fn lemma_pow10_between(n: int)
    requires
        n >= 0,
    ensures
        ieee::p2(3 * n) <= pow10(n) <= ieee::p2(4 * n),
    decreases n,
{
    if n > 0 {
        lemma_pow10_between(n - 1);
        ieee::lemma_p2_add(3, 3 * (n - 1));
        ieee::lemma_p2_add(4, 4 * (n - 1));
        reveal_with_fuel(ieee::p2, 5);
        ieee::lemma_p2_pos(3 * (n - 1));
    }
}

proof fn lemma_pow10_mono(a: int, b: int)
    requires
        a <= b,
    ensures
        pow10(a) <= pow10(b),
    decreases b - a,
{
    if a < b {
        lemma_pow10_mono(a, b - 1);
        lemma_pow10_pos(b - 1);
    }
}

/// Rounds `num / den * 2^1074` units of a double.
fn round_ratio(neg: bool, num: Vec<u32>, den: Vec<u32>) -> (r: u64)
    requires
        big::val(num@) > 0,
        big::val(den@) > 0,
        big::val(num@) < big::val(den@) * ieee::p2(1700),
        big::val(den@) < big::val(num@) * ieee::p2(1700),
    ensures
        r == Format::F64.round(neg, big::val(num@) * ieee::p2(1074), big::val(den@)),
{
    let ghost n0 = big::val(num@);
    let ghost d0 = big::val(den@);
    let mut n: Vec<u32> = num;
    let mut d: Vec<u32> = den;
    let mut b: i32 = 0;
    proof {
        assert(d0 * ieee::p2(0) == d0);
        assert(n0 * ieee::p2(0) == n0);
    }
    while at_least(&n, &d)
        invariant
            0 <= b <= 1700,
            big::val(n@) == n0,
            big::val(d@) == d0 * ieee::p2(b as int),
            b > 0 ==> big::val(d@) <= 2 * n0,
            n0 > 0,
            d0 > 0,
            n0 < d0 * ieee::p2(1700),
        decreases 1700 - b,
    {
        proof {
            if b == 1700 {
                assert(false);
            }
            let x = ieee::p2(b as int);
            assert(ieee::p2(b + 1) == 2 * x);
            assert((d0 * x) * 2 == d0 * (2 * x)) by (nonlinear_arith);
        }
        mul_add(&mut d, 2, 0);
        b = b + 1;
    }
    let mut a: i32 = 0;
    let mut n2: Vec<u32> = n.clone();
    proof {
        assert(n2@ =~= n@);
    }
    mul_add(&mut n2, 2, 0);
    while !at_least(&n2, &d)
        invariant
            0 <= a <= 1700,
            0 <= b <= 1700,
            big::val(n@) == n0 * ieee::p2(a as int),
            big::val(n2@) == 2 * big::val(n@),
            big::val(n@) < big::val(d@),
            big::val(d@) == d0 * ieee::p2(b as int),
            a > 0 ==> b == 0,
            b > 0 ==> big::val(d@) <= 2 * n0,
            n0 > 0,
            d0 > 0,
            d0 < n0 * ieee::p2(1700),
        decreases 1700 - a,
    {
        proof {
            let x = ieee::p2(a as int);
            assert(ieee::p2(a + 1) == 2 * x);
            assert((n0 * x) * 2 == n0 * (2 * x)) by (nonlinear_arith);
            if b > 0 {
                assert(a == 0);
                assert(n0 * 1 == n0);
                assert(false);
            }
            assert(d0 * ieee::p2(0) == d0);
            if a == 1700 {
                assert(false);
            }
        }
        mul_add(&mut n, 2, 0);
        mul_add(&mut n2, 2, 0);
        a = a + 1;
    }
    let ghost nn = big::val(n@);
    let ghost dd = big::val(d@);
    let mut q: u128 = 0;
    let mut i: i32 = 0;
    proof {
        assert(nn * ieee::p2(0) == nn);
        assert(0 * dd == 0);
        ieee::lemma_p2_pos(0);
    }
    while i < 70
        invariant
            0 <= i <= 70,
            0 < nn < dd <= 2 * nn,
            big::val(d@) == dd,
            0 <= big::val(n@) < dd,
            nn * ieee::p2(i as int) == q * dd + big::val(n@),
            q < ieee::p2(i as int),
        decreases 70 - i,
    {
        let ghost r0 = big::val(n@);
        let ghost q0 = q as int;
        proof {
            ieee::lemma_p2_values();
            ieee::lemma_p2_mono(i + 1, 120);
            let x = ieee::p2(i as int);
            assert(ieee::p2(i + 1) == 2 * x);
            assert(nn * (2 * x) == 2 * (nn * x)) by (nonlinear_arith);
            assert((2 * q0) * dd == 2 * (q0 * dd)) by (nonlinear_arith);
            assert((2 * q0 + 1) * dd == 2 * (q0 * dd) + dd) by (nonlinear_arith);
        }
        mul_add(&mut n, 2, 0);
        q = 2 * q;
        if at_least(&n, &d) {
            sub_assign(&mut n, &d);
            q = q + 1;
        }
        i = i + 1;
    }
    let zero: Vec<u32> = Vec::new();
    let exact: bool = at_least(&zero, &n);
    let e: i32 = b - a - 70 + 1074;
    proof {
        ieee::lemma_p2_values();
        ieee::lemma_p2_mono(72, 120);
        lemma_ratio(n0, d0, a as int, b as int, q as int, big::val(n@));
        assert(ieee::p2(71) == 2 * ieee::p2(70));
        assert(ieee::p2(72) == 2 * ieee::p2(71));
    }
    if exact {
        ieee::round_scaled(Format::F64, neg, q, e)
    } else {
        ieee::round_scaled(Format::F64, neg, 2 * q + 1, e - 1)
    }
}

proof fn lemma_ratio(n0: int, d0: int, a: int, b: int, q: int, r: int)
    requires
        n0 > 0,
        d0 > 0,
        a >= 0,
        b >= 0,
        0 <= q,
        0 <= r < d0 * ieee::p2(b),
        d0 * ieee::p2(b) <= 2 * (n0 * ieee::p2(a)),
        (n0 * ieee::p2(a)) * ieee::p2(70) == q * (d0 * ieee::p2(b)) + r,
    ensures
        ({
            let e = b - a - 70 + 1074;
            let bits = ieee::magnitude_bits(53, n0 * ieee::p2(1074), d0);
            if r == 0 {
                &&& e >= 0 ==> bits == ieee::magnitude_bits(53, q * ieee::p2(e), 1)
                &&& e < 0 ==> bits == ieee::magnitude_bits(53, q, ieee::p2(-e))
            } else {
                &&& e - 1 >= 0 ==> bits == ieee::magnitude_bits(
                    53,
                    (2 * q + 1) * ieee::p2(e - 1),
                    1,
                )
                &&& e - 1 < 0 ==> bits == ieee::magnitude_bits(53, 2 * q + 1, ieee::p2(1 - e))
            }
        }),
{
    let pa = ieee::p2(a);
    let pb = ieee::p2(b);
    let p70 = ieee::p2(70);
    let big_n = (n0 * pa) * p70;
    let big_d = d0 * pb;
    ieee::lemma_p2_pos(a);
    ieee::lemma_p2_pos(b);
    ieee::lemma_p2_pos(70);
    assert(big_n > 0 && big_d > 0) by (nonlinear_arith)
        requires
            big_n == (n0 * pa) * p70,
            big_d == d0 * pb,
            n0 > 0,
            d0 > 0,
            pa >= 1,
            pb >= 1,
            p70 >= 1,
    ;
    vstd::arithmetic::div_mod::lemma_fundamental_div_mod_converse(big_n, big_d, q, r);
    let ea = 1074 + b;
    let eb = a + 70;
    ieee::lemma_p2_add(1074, b);
    ieee::lemma_p2_add(a, 70);
    ieee::lemma_p2_pos(ea);
    ieee::lemma_p2_pos(eb);
    let c = ieee::p2(eb) * pb;
    let num = n0 * ieee::p2(1074);
    ieee::lemma_p2_pos(1074);
    assert(num > 0 && c > 0) by (nonlinear_arith)
        requires
            num == n0 * ieee::p2(1074),
            n0 > 0,
            ieee::p2(1074) >= 1,
            c == ieee::p2(eb) * pb,
            ieee::p2(eb) >= 1,
            pb >= 1,
    ;
    ieee::lemma_bits_scale(53, num, d0, c);
    assert(c * num == big_n * ieee::p2(ea)) by (nonlinear_arith)
        requires
            c == ieee::p2(eb) * pb,
            num == n0 * ieee::p2(1074),
            big_n == (n0 * pa) * p70,
            ieee::p2(eb) == pa * p70,
            ieee::p2(ea) == ieee::p2(1074) * pb,
    ;
    assert(c * d0 == big_d * ieee::p2(eb)) by (nonlinear_arith)
        requires
            c == ieee::p2(eb) * pb,
            big_d == d0 * pb,
    ;
    if r == 0 {
        let x = ieee::p2(ea);
        assert(big_n * x == big_d * (q * x)) by (nonlinear_arith)
            requires
                big_n == q * big_d,
        ;
        assert(q * x >= 0) by (nonlinear_arith)
            requires
                q >= 0,
                x >= 1,
        ;
        ieee::lemma_bits_scale(53, q * x, ieee::p2(eb), big_d);
        ieee::lemma_bits_shift(53, q, ea, eb);
    } else {
        assert(q >= ieee::p2(54)) by {
            let y = ieee::p2(69);
            assert(p70 == 2 * y);
            ieee::lemma_p2_strict(54, 69);
            ieee::lemma_p2_pos(54);
            let m = n0 * pa;
            assert(q >= y - 1) by (nonlinear_arith)
                requires
                    m * p70 == q * big_d + r,
                    r < big_d,
                    big_d <= 2 * m,
                    p70 == 2 * y,
                    big_d > 0,
                    y >= 1,
            ;
        }
        ieee::lemma_bits_jam(53, big_n, big_d, ea, eb);
        ieee::lemma_bits_shift(53, 2 * q + 1, ea, eb + 1);
    }
}

/// Decimal digits only.
pub open spec fn all_digits(d: Seq<u8>) -> bool {
    forall|i: int| 0 <= i < d.len() ==> #[trigger] d[i] <= 9
}

proof fn lemma_digits_bound(d: Seq<u8>)
    requires
        all_digits(d),
    ensures
        0 <= digits_value(d) < pow10(d.len() as int),
        d.len() > 0 && d[0] > 0 ==> digits_value(d) >= pow10(d.len() - 1),
    decreases d.len(),
{
    if d.len() > 0 {
        let t = d.drop_last();
        assert(all_digits(t)) by {
            assert forall|i: int| 0 <= i < t.len() implies #[trigger] t[i] <= 9 by {
                assert(t[i] == d[i]);
            }
        }
        lemma_digits_bound(t);
        if d.len() > 1 {
            assert(t[0] == d[0]);
        }
    }
}

/// Leading zeros do not count.
proof fn lemma_leading_zeros(d: Seq<u8>, z: int)
    requires
        0 <= z <= d.len(),
        forall|i: int| 0 <= i < z ==> d[i] == 0,
    ensures
        digits_value(d) == digits_value(d.skip(z)),
    decreases d.len(),
{
    if z == d.len() {
        assert(d.skip(z).len() == 0);
        if d.len() > 0 {
            lemma_leading_zeros(d.drop_last(), z - 1);
            assert(d.drop_last().skip(z - 1).len() == 0);
        }
    } else {
        let t = d.drop_last();
        lemma_leading_zeros(t, z);
        assert(d.skip(z).drop_last() == t.skip(z));
        assert(d.skip(z).last() == d.last());
    }
}

/// Values of `2^1024` and more are past the range.
proof fn lemma_overflow(num: int, den: int)
    requires
        den > 0,
        num >= den * ieee::p2(2098),
    ensures
        ieee::magnitude_bits(53, num, den) >= Format::F64.inf(),
{
    ieee::lemma_p2_values();
    let n = num / den;
    let big = ieee::p2(2098);
    ieee::lemma_p2_pos(2098);
    assert(n >= big) by (nonlinear_arith)
        requires
            num >= den * big,
            den > 0,
            n == num / den,
    ;
    let j = ieee::lemma_bracket(n);
    if j < 2099 {
        ieee::lemma_p2_mono(j, 2098);
        assert(false);
    }
    ieee::lemma_binade_between(53, n, j);
    let k = j - 53;
    let x = ieee::p2(k);
    ieee::lemma_p2_pos(k);
    ieee::lemma_p2_add(52, k);
    let h = ieee::p2(52);
    vstd::arithmetic::div_mod::lemma_div_denominator(num, den, x);
    assert(n / x >= h) by (nonlinear_arith)
        requires
            n >= h * x,
            x >= 1,
    ;
    assert(k * h >= 2046 * h) by (nonlinear_arith)
        requires
            k >= 2046,
            h >= 1,
    ;
}

proof fn lemma_underflow(num: int, den: int)
    requires
        0 <= num,
        2 * num < den,
    ensures
        ieee::magnitude_bits(53, num, den) == 0,
{
    ieee::lemma_p2_values();
    vstd::arithmetic::div_mod::lemma_basic_div(num, den);
    vstd::arithmetic::div_mod::lemma_small_mod(num as nat, den as nat);
    assert(den * 1 == den);
    assert(0 * ieee::p2(52) == 0);
}

/// The double nearest to the digits times `10^e`.
pub fn decimal_to_f64(neg: bool, digits: &Vec<u8>, e: i128) -> (r: u64)
    requires
        all_digits(digits@),
        -0x100_0000_0000_0000_0000_0000 <= e <= 0x100_0000_0000_0000_0000_0000,
    ensures
        r == of_decimal(neg, digits_value(digits@), e as int),
{
    let ghost m = digits_value(digits@);
    let ghost ei = e as int;
    let mut z: usize = 0;
    while z < digits.len() && digits[z] == 0
        invariant
            z <= digits@.len(),
            forall|i: int| 0 <= i < z ==> digits@[i] == 0,
        decreases digits@.len() - z,
    {
        z = z + 1;
    }
    proof {
        lemma_leading_zeros(digits@, z as int);
        ieee::lemma_p2_values();
        ieee::lemma_p2_pos(1074);
        lemma_pow10_pos(ei);
        lemma_pow10_pos(-ei);
    }
    let ghost sig = digits@.skip(z as int);
    let nd: usize = digits.len() - z;
    if nd == 0 {
        proof {
            assert(sig.len() == 0);
            assert(m == 0);
            let x = pow10(ei);
            assert(0 * x == 0) by (nonlinear_arith);
            assert(0 * ieee::p2(1074) == 0);
            ieee::lemma_zero_bits(53, 1);
            ieee::lemma_zero_bits(53, pow10(-ei));
        }
        return if neg {
            0x8000_0000_0000_0000
        } else {
            0
        };
    }
    proof {
        assert(all_digits(sig)) by {
            assert forall|i: int| 0 <= i < sig.len() implies #[trigger] sig[i] <= 9 by {
                assert(sig[i] == digits@[z + i]);
            }
        }
        assert(sig[0] == digits@[z as int]);
        lemma_digits_bound(sig);
    }
    let top: i128 = e + nd as i128;
    if top > 401 {
        proof {
            lemma_past_range(m, ei, nd as int);
        }
        return if neg {
            0xfff0_0000_0000_0000
        } else {
            0x7ff0_0000_0000_0000
        };
    }
    if top < -401 {
        proof {
            lemma_below_range(m, ei, nd as int);
        }
        return if neg {
            0x8000_0000_0000_0000
        } else {
            0
        };
    }
    let mut num: Vec<u32> = Vec::new();
    let mut i: usize = 0;
    while i < digits.len()
        invariant
            i <= digits@.len(),
            all_digits(digits@),
            big::val(num@) == digits_value(digits@.take(i as int)),
        decreases digits@.len() - i,
    {
        proof {
            assert(digits@.take(i + 1).drop_last() == digits@.take(i as int));
        }
        mul_add(&mut num, 10, digits[i] as u32);
        i = i + 1;
    }
    assert(digits@.take(i as int) == digits@);
    let mut den: Vec<u32> = Vec::new();
    den.push(1);
    proof {
        assert(den@.drop_first().len() == 0);
        assert(big::val(den@.drop_first()) == 0);
        assert(big::val(den@) == 1);
        assert(m * 1 == m);
    }
    let mut k: i128 = 0;
    while k < e
        invariant
            0 <= k,
            e >= 0 ==> k <= e,
            e < 0 ==> k == 0,
            big::val(num@) == m * pow10(k as int),
        decreases e - k,
    {
        proof {
            let x = pow10(k as int);
            assert((m * x) * 10 == m * (10 * x)) by (nonlinear_arith);
        }
        mul_add(&mut num, 10, 0);
        k = k + 1;
    }
    let mut j: i128 = 0;
    while j > e
        invariant
            j <= 0,
            e <= 0 ==> j >= e,
            e > 0 ==> j == 0,
            big::val(den@) == pow10(-j as int),
        decreases j - e,
    {
        mul_add(&mut den, 10, 0);
        j = j - 1;
    }
    proof {
        lemma_in_range(m, ei, nd as int);
    }
    round_ratio(neg, num, den)
}

proof fn lemma_past_range(m: int, e: int, nd: int)
    requires
        nd >= 1,
        pow10(nd - 1) <= m,
        e + nd > 401,
    ensures
        e >= 0 ==> ieee::magnitude_bits(53, m * pow10(e) * ieee::p2(1074), 1)
            >= Format::F64.inf(),
        e < 0 ==> ieee::magnitude_bits(53, m * ieee::p2(1074), pow10(-e)) >= Format::F64.inf(),
{
    let u = ieee::p2(1074);
    ieee::lemma_p2_pos(1074);
    ieee::lemma_p2_add(1200, 1074);
    ieee::lemma_p2_mono(2098, 2274);
    lemma_pow10_between(400);
    let h = ieee::p2(1200);
    if e >= 0 {
        lemma_pow10_add(nd - 1, e);
        lemma_pow10_mono(400, nd - 1 + e);
        lemma_pow10_pos(e);
        let x = pow10(e);
        let y = pow10(nd - 1);
        assert(m * x >= y * x) by (nonlinear_arith)
            requires
                m >= y,
                x >= 1,
        ;
        let v = m * x;
        assert(v * u >= h * u) by (nonlinear_arith)
            requires
                v >= h,
                u >= 1,
        ;
        lemma_overflow(v * u, 1);
    } else {
        let d = pow10(-e);
        lemma_pow10_pos(-e);
        lemma_pow10_add(-e, nd - 1 + e);
        lemma_pow10_mono(400, nd - 1 + e);
        let w = pow10(nd - 1 + e);
        assert(m >= d * h) by (nonlinear_arith)
            requires
                m >= d * w,
                w >= h,
                d >= 1,
        ;
        assert(m * u >= d * (h * u)) by (nonlinear_arith)
            requires
                m >= d * h,
                u >= 1,
        ;
        let g = ieee::p2(2098);
        assert(d * (h * u) >= d * g) by (nonlinear_arith)
            requires
                h * u >= g,
                d >= 1,
        ;
        lemma_overflow(m * u, d);
    }
}

proof fn lemma_below_range(m: int, e: int, nd: int)
    requires
        nd >= 1,
        0 <= m < pow10(nd),
        e + nd < -401,
    ensures
        e < 0,
        ieee::magnitude_bits(53, m * ieee::p2(1074), pow10(-e)) == 0,
{
    let u = ieee::p2(1074);
    let d = pow10(-e);
    ieee::lemma_p2_pos(1074);
    ieee::lemma_p2_strict(1074, 1200);
    lemma_pow10_between(400);
    lemma_pow10_add(nd, -e - nd);
    lemma_pow10_mono(400, -e - nd);
    lemma_pow10_pos(nd);
    let w = pow10(-e - nd);
    let y = pow10(nd);
    assert(2 * (m * u) < d) by (nonlinear_arith)
        requires
            d == y * w,
            0 <= m < y,
            2 * u <= w,
            u >= 1,
            y >= 1,
    ;
    assert(m * u >= 0) by (nonlinear_arith)
        requires
            m >= 0,
            u >= 1,
    ;
    lemma_underflow(m * u, d);
}

/// Within the range the ratio is within `2^1700` of one.
proof fn lemma_in_range(m: int, e: int, nd: int)
    requires
        nd >= 1,
        pow10(nd - 1) <= m < pow10(nd),
        -401 <= e + nd <= 401,
    ensures
        ({
            let num = if e >= 0 {
                m * pow10(e)
            } else {
                m * pow10(0)
            };
            let den = if e >= 0 {
                pow10(0)
            } else {
                pow10(-e)
            };
            &&& num > 0
            &&& den > 0
            &&& num < den * ieee::p2(1700)
            &&& den < num * ieee::p2(1700)
        }),
{
    let g = ieee::p2(1700);
    ieee::lemma_p2_pos(1700);
    lemma_pow10_pos(nd - 1);
    lemma_pow10_between(401);
    lemma_pow10_between(402);
    ieee::lemma_p2_strict(1608, 1700);
    lemma_pow10_pos(e);
    lemma_pow10_pos(-e);
    if e >= 0 {
        let x = pow10(e);
        let y = pow10(nd);
        lemma_pow10_add(nd, e);
        lemma_pow10_mono(nd + e, 401);
        assert(m * x < y * x) by (nonlinear_arith)
            requires
                m < y,
                x >= 1,
        ;
        assert(m * x >= 1) by (nonlinear_arith)
            requires
                m >= 1,
                x >= 1,
        ;
        let v = m * x;
        assert(v * g >= g) by (nonlinear_arith)
            requires
                v >= 1,
                g >= 1,
        ;
        assert(1 * g == g);
    } else {
        let d = pow10(-e);
        assert(m * 1 == m);
        if nd + e >= 0 {
            lemma_pow10_add(-e, nd + e);
            lemma_pow10_mono(nd + e, 401);
            let w = pow10(nd + e);
            assert(m < d * g) by (nonlinear_arith)
                requires
                    m < d * w,
                    w <= g,
                    d >= 1,
            ;
        } else {
            lemma_pow10_mono(nd, -e);
            assert(d <= d * g) by (nonlinear_arith)
                requires
                    d >= 1,
                    g >= 1,
            ;
        }
        if 1 - nd - e >= 0 {
            lemma_pow10_add(nd - 1, 1 - nd - e);
            lemma_pow10_mono(1 - nd - e, 402);
            let w = pow10(1 - nd - e);
            let y = pow10(nd - 1);
            assert(y * w < y * g) by (nonlinear_arith)
                requires
                    w < g,
                    y >= 1,
            ;
            assert(y * g <= m * g) by (nonlinear_arith)
                requires
                    y <= m,
                    g >= 1,
            ;
        } else {
            lemma_pow10_mono(-e, nd - 1);
            assert(m < m * g) by (nonlinear_arith)
                requires
                    m >= 1,
                    g >= 2,
            ;
        }
    }
}

/// Exponents of `10^24` and more all give the same double, as no text has that
/// many digits.
pub proof fn lemma_exponent_cap(neg: bool, digits: Seq<u8>, v: int, minus: bool, places: int)
    requires
        all_digits(digits),
        digits.len() <= 2 * usize::MAX,
        0 <= places <= usize::MAX,
        v >= 0,
    ensures
        ({
            let cap: int = 1_000_000_000_000_000_000_000_000;
            let w = if v < cap {
                v
            } else {
                cap
            };
            let m = digits_value(digits);
            let e = (if minus {
                -v
            } else {
                v
            }) - places;
            let c = (if minus {
                -w
            } else {
                w
            }) - places;
            of_decimal(neg, m, c) == of_decimal(neg, m, e)
        }),
{
    let cap: int = 1_000_000_000_000_000_000_000_000;
    if v >= cap {
        let e = (if minus {
            -v
        } else {
            v
        }) - places;
        let c = (if minus {
            -cap
        } else {
            cap
        }) - places;
        let z = lemma_first_nonzero(digits);
        lemma_leading_zeros(digits, z);
        let sig = digits.skip(z);
        let m = digits_value(digits);
        let nd = sig.len() as int;
        assert(all_digits(sig)) by {
            assert forall|i: int| 0 <= i < sig.len() implies #[trigger] sig[i] <= 9 by {
                assert(sig[i] == digits[z + i]);
            }
        }
        lemma_digits_bound(sig);
        if nd == 0 {
            assert(m == 0);
            lemma_zero_decimal(neg, e);
            lemma_zero_decimal(neg, c);
        } else {
            assert(sig[0] == digits[z]);
            if minus {
                lemma_below_range(m, e, nd);
                lemma_below_range(m, c, nd);
            } else {
                lemma_past_range(m, e, nd);
                lemma_past_range(m, c, nd);
            }
        }
    }
}

proof fn lemma_zero_decimal(neg: bool, e: int)
    ensures
        of_decimal(neg, 0, e) == Format::F64.signed(neg, 0),
{
    let x = pow10(e);
    assert(0 * x == 0) by (nonlinear_arith);
    assert(0 * ieee::p2(1074) == 0);
    lemma_pow10_pos(-e);
    ieee::lemma_zero_bits(53, 1);
    ieee::lemma_zero_bits(53, pow10(-e));
}

proof fn lemma_first_nonzero(d: Seq<u8>) -> (z: int)
    ensures
        0 <= z <= d.len(),
        forall|i: int| 0 <= i < z ==> d[i] == 0,
        z < d.len() ==> d[z] > 0,
    decreases d.len(),
{
    if d.len() == 0 {
        0
    } else if d[0] > 0 {
        0
    } else {
        let t = d.drop_first();
        let y = lemma_first_nonzero(t);
        assert forall|i: int| 0 <= i < y + 1 implies d[i] == 0 by {
            if i > 0 {
                assert(d[i] == t[i - 1]);
            }
        }
        if y < t.len() {
            assert(t[y] == d[y + 1]);
        }
        y + 1
    }
}

} // verus!
