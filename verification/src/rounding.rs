//! What rounding means: results are closest to the exact ones, and rounding
//! keeps order.
use vstd::prelude::*;

use crate::ieee;
use crate::ieee::{dist, magnitude_bits, p2, units, Format};

verus! {

/// Rounding keeps order: of two numbers of units `a / b <= c / d`, the first
/// does not round to the greater pattern.
pub proof fn law_rounding_keeps_order(p: int, a: int, b: int, c: int, d: int)
    requires
        p >= 2,
        a >= 0,
        b > 0,
        c >= 0,
        d > 0,
        a * d <= c * b,
    ensures
        0 <= magnitude_bits(p, a, b) <= magnitude_bits(p, c, d),
{
    let (m, n) = (magnitude_bits(p, a, b), magnitude_bits(p, c, d));
    ieee::lemma_units_of_bits(p, a, b);
    ieee::lemma_units_of_bits(p, c, d);
    if m > n {
        let (u, v) = (units(p, m), units(p, n));
        ieee::law_patterns_are_ordered(p, n, m);
        ieee::law_rounding_is_closest(p, a, b, n);
        ieee::law_rounding_is_closest(p, c, d, m);
        assert(v * b < u * b && v * d < u * d) by (nonlinear_arith)
            requires
                v < u,
                b > 0,
                d > 0,
        ;
        // both lie halfway
        assert(2 * a >= u * b + v * b);
        assert(2 * c <= u * d + v * d);
        assert((2 * a) * d >= (u * b + v * b) * d) by (nonlinear_arith)
            requires
                2 * a >= u * b + v * b,
                d > 0,
        ;
        assert((2 * c) * b <= (u * d + v * d) * b) by (nonlinear_arith)
            requires
                2 * c <= u * d + v * d,
                b > 0,
        ;
        assert((u * b + v * b) * d == (u * d + v * d) * b) by (nonlinear_arith);
        assert((2 * a) * d == 2 * (a * d) && (2 * c) * b == 2 * (c * b)) by (nonlinear_arith);
        assert(a * d == c * b);
        ieee::lemma_bits_scale(p, a, b, d);
        ieee::lemma_bits_scale(p, c, d, b);
        assert(d * a == b * c && d * b == b * d) by (nonlinear_arith)
            requires
                a * d == c * b,
        ;
        assert(false);
    }
}

/// `r` is a finite pattern whose value times `den` lies as near to `num` as
/// that of any finite pattern.
pub open spec fn closest(f: Format, r: int, num: int, den: int) -> bool {
    &&& f.holds(r)
    &&& f.is_finite(r)
    &&& forall|x: int|
        f.holds(x) && f.is_finite(x) ==> dist(f.value(r) * den, num) <= #[trigger] dist(
            f.value(x) * den,
            num,
        )
}

/// A rounded magnitude with its sign is closest to the signed number.
pub proof fn lemma_round_is_closest(f: Format, neg: bool, num: int, den: int)
    requires
        num >= 0,
        den > 0,
        f.is_finite(f.round(neg, num, den)),
    ensures
        closest(f, f.round(neg, num, den), if neg {
            -num
        } else {
            num
        }, den),
{
    ieee::lemma_format(f);
    ieee::lemma_round_holds(f, neg, num, den);
    let p = f.p();
    let r = f.round(neg, num, den);
    let m = f.mag(r);
    let u = units(p, m);
    let s = if neg {
        -num
    } else {
        num
    };
    assert forall|x: int| f.holds(x) && f.is_finite(x) implies dist(f.value(r) * den, s)
        <= #[trigger] dist(f.value(x) * den, s) by {
        let v = units(p, f.mag(x));
        ieee::law_rounding_is_closest(p, num, den, f.mag(x));
        ieee::law_rounding_is_closest(p, num, den, 0);
        ieee::lemma_units_pos(p, f.mag(x));
        ieee::lemma_units_pos(p, m);
        assert(units(p, 0) == 0) by {
            ieee::lemma_p2_pos(p);
        }
        assert(0 * den == 0);
        assert(v * den >= 0 && u * den >= 0) by (nonlinear_arith)
            requires
                v >= 0,
                u >= 0,
                den > 0,
        ;
        assert((-u) * den == -(u * den) && (-v) * den == -(v * den)) by (nonlinear_arith);
    }
}

/// A finite product is the value closest to the exact product.
pub proof fn law_products_are_closest(f: Format, a: int, b: int)
    requires
        f.holds(a),
        f.holds(b),
        f.is_finite(a),
        f.is_finite(b),
        f.is_finite(f.product(a, b)),
    ensures
        closest(f, f.product(a, b), f.value(a) * f.value(b), p2(f.unit())),
{
    ieee::lemma_format(f);
    let (u, v) = (units(f.p(), f.mag(a)), units(f.p(), f.mag(b)));
    ieee::lemma_units_pos(f.p(), f.mag(a));
    ieee::lemma_units_pos(f.p(), f.mag(b));
    ieee::lemma_p2_pos(f.unit());
    assert(u * v >= 0) by (nonlinear_arith)
        requires
            u >= 0,
            v >= 0,
    ;
    lemma_round_is_closest(f, f.negative(a) != f.negative(b), u * v, p2(f.unit()));
    assert((-u) * v == -(u * v) && u * (-v) == -(u * v) && (-u) * (-v) == u * v)
        by (nonlinear_arith);
}

/// A finite quotient by a finite divisor is the value that, times the divisor,
/// comes closest to the dividend.
pub proof fn law_quotients_are_closest(f: Format, a: int, b: int)
    requires
        f.holds(a),
        f.holds(b),
        f.is_finite(a),
        f.is_finite(b),
        f.mag(b) > 0,
        f.is_finite(f.quotient(a, b)),
    ensures
        f.negative(b) ==> closest(
            f,
            f.quotient(a, b),
            -(f.value(a) * p2(f.unit())),
            -f.value(b),
        ),
        !f.negative(b) ==> closest(f, f.quotient(a, b), f.value(a) * p2(f.unit()), f.value(b)),
{
    ieee::lemma_format(f);
    let (u, v) = (units(f.p(), f.mag(a)), units(f.p(), f.mag(b)));
    ieee::lemma_units_pos(f.p(), f.mag(a));
    ieee::lemma_units_pos(f.p(), f.mag(b));
    ieee::lemma_p2_pos(f.unit());
    let e = p2(f.unit());
    assert(u * e >= 0) by (nonlinear_arith)
        requires
            u >= 0,
            e >= 1,
    ;
    lemma_round_is_closest(f, f.negative(a) != f.negative(b), u * e, v);
    assert((-u) * e == -(u * e)) by (nonlinear_arith);
}

/// A finite sum is the value closest to the exact sum.
pub proof fn law_sums_are_closest(f: Format, a: int, b: int)
    requires
        f.holds(a),
        f.holds(b),
        f.is_finite(a),
        f.is_finite(b),
        f.is_finite(f.sum(a, b)),
    ensures
        closest(f, f.sum(a, b), f.value(a) + f.value(b), 1),
{
    ieee::lemma_format(f);
    let s = f.value(a) + f.value(b);
    if s == 0 {
        assert(units(f.p(), 0) == 0) by {
            ieee::lemma_p2_pos(f.p());
        }
        assert(f.value(f.sum(a, b)) == 0);
        assert(0 * 1 == 0);
    } else {
        lemma_round_is_closest(f, s < 0, if s < 0 {
            -s
        } else {
            s
        }, 1);
    }
}

/// A finite difference is the value closest to the exact difference.
pub proof fn law_differences_are_closest(f: Format, a: int, b: int)
    requires
        f.holds(a),
        f.holds(b),
        f.is_finite(a),
        f.is_finite(b),
        f.is_finite(f.difference(a, b)),
    ensures
        closest(f, f.difference(a, b), f.value(a) - f.value(b), 1),
{
    ieee::lemma_format(f);
    let n = f.negated(b);
    assert(f.holds(n) && f.mag(n) == f.mag(b) && f.negative(n) != f.negative(b));
    law_sums_are_closest(f, a, n);
}

/// A finite conversion is the value of the new format closest to the old one,
/// and a finite whole number is the closest to itself.
pub proof fn law_conversions_are_closest(f: Format, to: Format, b: int, n: int)
    requires
        f.holds(b),
        f.is_finite(b),
    ensures
        to.is_finite(f.convert(to, b)) ==> closest(
            to,
            f.convert(to, b),
            f.value(b) * p2(to.unit()),
            p2(f.unit()),
        ),
        to.is_finite(to.of_int(n)) ==> closest(to, to.of_int(n), n * p2(to.unit()), 1),
{
    ieee::lemma_format(f);
    ieee::lemma_format(to);
    let u = units(f.p(), f.mag(b));
    ieee::lemma_units_pos(f.p(), f.mag(b));
    ieee::lemma_p2_pos(to.unit());
    ieee::lemma_p2_pos(f.unit());
    let e = p2(to.unit());
    let an = if n < 0 {
        -n
    } else {
        n
    };
    assert(u * e >= 0 && an * e >= 0) by (nonlinear_arith)
        requires
            u >= 0,
            an >= 0,
            e >= 1,
    ;
    assert((-u) * e == -(u * e) && (-an) * e == -(an * e)) by (nonlinear_arith);
    if to.is_finite(f.convert(to, b)) {
        lemma_round_is_closest(to, f.negative(b), u * e, p2(f.unit()));
    }
    if to.is_finite(to.of_int(n)) {
        lemma_round_is_closest(to, n < 0, an * e, 1);
    }
}

/// A root lies between the whole numbers of units whose squares enclose it: the
/// rounded root of a number from `s` squared to `s + 1` squared is no less than
/// `s` and no more than `s + 1`, rounded.
pub proof fn law_roots_lie_between_squares(f: Format, b: int, s: int)
    requires
        f.holds(b),
        f.is_finite(b),
        !f.negative(b),
        s >= 0,
        s * s <= f.value(b) * p2(f.unit()) <= (s + 1) * (s + 1),
    ensures
        f.holds(f.root(b)),
        !f.negative(f.root(b)),
        f.mag(f.root(b)) <= magnitude_bits(f.p(), s + 1, 1),
        magnitude_bits(f.p(), s, 1) <= f.mag(f.root(b)) || f.is_inf(f.root(b)),
{
    ieee::lemma_format(f);
    let p = f.p();
    let n = f.value(b) * p2(f.unit());
    ieee::lemma_p2_pos(f.unit());
    ieee::lemma_units_pos(p, f.mag(b));
    if f.mag(b) == 0 {
        assert(units(p, 0) == 0) by {
            ieee::lemma_p2_pos(p);
        }
        assert(n == 0) by (nonlinear_arith)
            requires
                n == 0 * p2(f.unit()),
        ;
        assert(s == 0) by (nonlinear_arith)
            requires
                s * s <= 0,
                s >= 0,
        ;
        ieee::lemma_zero_bits(p, 1);
        law_rounding_keeps_order(p, 0, 1, 1, 1);
    } else {
        let v = units(p, f.mag(b));
        let e = p2(f.unit());
        assert(n >= 0) by (nonlinear_arith)
            requires
                n == v * e,
                v >= 0,
                e >= 1,
        ;
        let r = ieee::floor_sqrt(n);
        ieee::lemma_floor_sqrt(n);
        assert(s <= r) by (nonlinear_arith)
            requires
                s * s <= n,
                n < (r + 1) * (r + 1),
                s >= 0,
                r >= 0,
        ;
        assert(r <= s + 1) by (nonlinear_arith)
            requires
                r * r <= n,
                n <= (s + 1) * (s + 1),
                s >= 0,
                r >= 0,
        ;
        if r * r == n {
            ieee::lemma_round_holds(f, false, r, 1);
            law_rounding_keeps_order(p, s, 1, r, 1);
            law_rounding_keeps_order(p, r, 1, s + 1, 1);
        } else {
            assert(r <= s) by (nonlinear_arith)
                requires
                    r * r < n,
                    n <= (s + 1) * (s + 1),
                    r <= s + 1,
                    s >= 0,
            ;
            ieee::lemma_round_holds(f, false, 2 * r + 1, 2);
            law_rounding_keeps_order(p, s, 1, 2 * r + 1, 2);
            law_rounding_keeps_order(p, 2 * r + 1, 2, s + 1, 1);
        }
    }
}

} // verus!
