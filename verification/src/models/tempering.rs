//! What the settings of a generation do to the chances of its tokens.
use vstd::prelude::*;

use crate::ieee;
use crate::ieee::{magnitude_bits, p2, units, Format};
use crate::models::sampler;
use crate::models::sampler::{at_most, GenOptions, Turn, DRAW_RANGE, MIN_TEMPERATURE, STAR};
use crate::models::ONE;
use crate::num;
use crate::rounding;
use crate::rounding::closest;

verus! {

/// The temperature that divides: at least 1e-4.
pub open spec fn divisor(t: int) -> int {
    if Format::F32.less(MIN_TEMPERATURE as int, t) {
        t
    } else {
        MIN_TEMPERATURE as int
    }
}

/// A finite pattern that a 32-bit number holds.
pub open spec fn plain(b: int) -> bool {
    Format::F32.holds(b) && Format::F32.is_finite(b)
}

/// One is `2^149` units, and 1e-4 less than that.
proof fn lemma_constants()
    ensures
        plain(ONE as int),
        units(24, ONE as int) == p2(149),
        plain(MIN_TEMPERATURE as int),
        p2(135) <= units(24, MIN_TEMPERATURE as int) <= p2(149),
        units(24, 0x4680_0000) == p2(163),
        units(24, DRAW_RANGE as int) == p2(173),
        p2(24) == 0x100_0000,
        p2(23) == 0x80_0000,
{
    ieee::lemma_p2_values();
    let h: int = 0x80_0000;
    vstd::arithmetic::div_mod::lemma_fundamental_div_mod_converse(ONE as int, h, 127, 0);
    vstd::arithmetic::div_mod::lemma_fundamental_div_mod_converse(0x4680_0000, h, 141, 0);
    vstd::arithmetic::div_mod::lemma_fundamental_div_mod_converse(DRAW_RANGE as int, h, 151, 0);
    let r = 0x38d1_b717int - 113 * h;
    vstd::arithmetic::div_mod::lemma_fundamental_div_mod_converse(
        MIN_TEMPERATURE as int,
        h,
        113,
        r,
    );
    ieee::lemma_p2_add(23, 126);
    ieee::lemma_p2_add(23, 140);
    ieee::lemma_p2_add(23, 150);
    ieee::lemma_p2_add(23, 112);
    ieee::lemma_p2_add(24, 112);
    ieee::lemma_p2_mono(136, 149);
    let x = p2(112);
    ieee::lemma_p2_pos(112);
    assert(h * x <= (h + r) * x <= (2 * h) * x) by (nonlinear_arith)
        requires
            0 <= r <= h,
            x >= 1,
    ;
}

/// The divisor is finite, at least 1e-4, and grows with the temperature.
proof fn lemma_divisor(t: int)
    requires
        plain(t),
    ensures
        plain(divisor(t)),
        !Format::F32.negative(divisor(t)),
        p2(135) <= units(24, Format::F32.mag(divisor(t))) == Format::F32.value(divisor(t)),
        Format::F32.mag(divisor(t)) > 0,
        sampler::inverse_temperature(t) == Format::F32.quotient(ONE as int, divisor(t)),
{
    lemma_constants();
    ieee::lemma_p2_values();
    let f = Format::F32;
    let d = divisor(t);
    if d != MIN_TEMPERATURE as int {
        ieee::law_patterns_are_ordered(24, MIN_TEMPERATURE as int, f.mag(d));
    } else if !f.less(t, MIN_TEMPERATURE as int) {
        assert(f.key(t) == MIN_TEMPERATURE as int);
        assert(t == MIN_TEMPERATURE as int);
    }
}

/// The inverse of a temperature is finite and above zero.
proof fn lemma_inverse(t: int)
    requires
        plain(t),
    ensures
        ({
            let inv = sampler::inverse_temperature(t);
            &&& plain(inv)
            &&& !Format::F32.negative(inv)
            &&& Format::F32.mag(inv) > 0
            &&& Format::F32.mag(inv) == magnitude_bits(
                24,
                p2(149) * p2(149),
                units(24, Format::F32.mag(divisor(t))),
            )
        }),
{
    lemma_constants();
    lemma_divisor(t);
    ieee::lemma_p2_values();
    let f = Format::F32;
    let d = divisor(t);
    let den = units(24, f.mag(d));
    ieee::lemma_p2_add(149, 149);
    ieee::lemma_p2_add(163, 135);
    ieee::lemma_p2_pos(149);
    ieee::lemma_p2_pos(163);
    ieee::lemma_p2_pos(135);
    let num = p2(298);
    ieee::lemma_round_holds(f, false, num, den);
    // at most 2^14
    assert(num * 1 <= p2(163) * den) by (nonlinear_arith)
        requires
            num == p2(163) * p2(135),
            p2(135) <= den,
            p2(163) >= 1,
    ;
    rounding::law_rounding_keeps_order(24, num, den, p2(163), 1);
    ieee::law_units_round_to_themselves(24, 0x4680_0000);
    // above zero
    let m = magnitude_bits(24, num, den);
    if m == 0 {
        ieee::law_rounding_is_closest(24, num, den, 1);
        ieee::law_patterns_are_ordered(24, f.mag(d), f.inf());
        vstd::arithmetic::div_mod::lemma_fundamental_div_mod_converse(f.inf(), 0x80_0000, 255, 0);
        ieee::lemma_p2_add(23, 254);
        ieee::lemma_p2_mono(277, 298);
        assert(units(24, 0) == 0 && units(24, 1) == 1);
        assert(0 * den == 0 && 1 * den == den);
        assert(false);
    }
}

/// A higher temperature has no greater inverse.
proof fn lemma_inverse_falls(t: int, u: int)
    requires
        plain(t),
        plain(u),
        at_most(t, u),
    ensures
        Format::F32.mag(sampler::inverse_temperature(u)) <= Format::F32.mag(
            sampler::inverse_temperature(t),
        ),
{
    lemma_inverse(t);
    lemma_inverse(u);
    lemma_divisor(t);
    lemma_divisor(u);
    let f = Format::F32;
    let (x, y) = (f.mag(divisor(t)), f.mag(divisor(u)));
    lemma_constants();
    ieee::lemma_p2_pos(149);
    ieee::lemma_p2_pos(135);
    assert(x <= y);
    if x < y {
        ieee::law_patterns_are_ordered(24, x, y);
    }
    let n = p2(149) * p2(149);
    assert(n >= 0) by (nonlinear_arith)
        requires
            n == p2(149) * p2(149),
            p2(149) >= 1,
    ;
    let (a, b) = (units(24, x), units(24, y));
    assert(n * a <= n * b) by (nonlinear_arith)
        requires
            n >= 0,
            a <= b,
    ;
    rounding::law_rounding_keeps_order(24, n, b, n, a);
}

/// What a candidate lies below the top one is no number above zero, and no
/// NaN.
proof fn lemma_below_top(v: int, top: int)
    requires
        plain(v),
        plain(top),
        at_most(v, top),
    ensures
        ({
            let d = Format::F32.difference(v, top);
            &&& Format::F32.holds(d)
            &&& !Format::F32.is_nan(d)
            &&& Format::F32.mag(d) > 0 ==> Format::F32.negative(d)
            &&& Format::F32.mag(d) == (if Format::F32.value(v) == Format::F32.value(top) {
                0
            } else if magnitude_bits(24, Format::F32.value(top) - Format::F32.value(v), 1)
                < Format::F32.inf() {
                magnitude_bits(24, Format::F32.value(top) - Format::F32.value(v), 1)
            } else {
                Format::F32.inf()
            })
        }),
{
    let f = Format::F32;
    ieee::lemma_format(f);
    ieee::law_comparison_is_of_values(f, v, top);
    let n = f.negated(top);
    assert(f.mag(n) == f.mag(top) && f.negative(n) != f.negative(top));
    let s = f.value(v) - f.value(top);
    assert(s <= 0);
    if s < 0 {
        ieee::lemma_round_holds(f, true, -s, 1);
    }
}

/// The exponent of a candidate: what it lies below the top one, scaled down
/// by the temperature.
proof fn lemma_exponent(vals: Seq<u32>, t: int, i: int)
    requires
        plain(t),
        0 <= i < vals.len(),
        plain(vals[0] as int),
        plain(vals[i] as int),
        at_most(vals[i] as int, vals[0] as int),
    ensures
        ({
            let f = Format::F32;
            let d = f.difference(vals[i] as int, vals[0] as int);
            let inv = sampler::inverse_temperature(t);
            let e = sampler::exponents_of(vals, t)[i] as int;
            let bits = magnitude_bits(24, units(24, f.mag(d)) * units(24, f.mag(inv)), p2(149));
            &&& e == f.product(d, inv)
            &&& !f.is_nan(e)
            &&& f.mag(e) > 0 ==> f.negative(e)
            &&& f.mag(e) == (if f.is_inf(d) || bits >= f.inf() {
                f.inf()
            } else {
                bits
            })
            &&& f.mag(d) == 0 ==> f.mag(e) == 0
            &&& units(24, f.mag(d)) >= 0
            &&& units(24, f.mag(inv)) >= 0
        }),
{
    let f = Format::F32;
    ieee::lemma_format(f);
    lemma_below_top(vals[i] as int, vals[0] as int);
    lemma_inverse(t);
    let d = f.difference(vals[i] as int, vals[0] as int);
    let inv = sampler::inverse_temperature(t);
    let (x, y) = (units(24, f.mag(d)), units(24, f.mag(inv)));
    ieee::lemma_units_pos(24, f.mag(d));
    ieee::lemma_units_pos(24, f.mag(inv));
    ieee::lemma_p2_pos(149);
    assert(x * y >= 0) by (nonlinear_arith)
        requires
            x >= 0,
            y >= 0,
    ;
    let neg = f.negative(d) != f.negative(inv);
    ieee::lemma_round_holds(f, neg, x * y, p2(149));
    if f.mag(d) == 0 {
        assert(units(24, 0) == 0) by {
            ieee::lemma_p2_pos(24);
        }
        assert(x * y == 0) by (nonlinear_arith)
            requires
                x == 0,
        ;
        ieee::lemma_zero_bits(24, p2(149));
    }
    let e = f.product(d, inv);
    assert(f.holds(e));
}

/// A higher temperature never sharpens: the exponent of every candidate at the
/// lower of two temperatures is at most that at the higher, and none is above
/// zero, the exponent of the top candidate.
pub proof fn law_temperatures_flatten(vals: Seq<u32>, t: u32, u: u32, i: int)
    requires
        plain(t as int),
        plain(u as int),
        at_most(t as int, u as int),
        0 <= i < vals.len(),
        plain(vals[0] as int),
        plain(vals[i] as int),
        at_most(vals[i] as int, vals[0] as int),
    ensures
        at_most(
            sampler::exponents_of(vals, t as int)[i] as int,
            sampler::exponents_of(vals, u as int)[i] as int,
        ),
        at_most(sampler::exponents_of(vals, u as int)[i] as int, 0),
        Format::F32.equal(sampler::exponents_of(vals, u as int)[0] as int, 0),
{
    let f = Format::F32;
    lemma_exponent(vals, t as int, i);
    lemma_exponent(vals, u as int, i);
    lemma_inverse_falls(t as int, u as int);
    lemma_inverse(t as int);
    lemma_inverse(u as int);
    let d = f.difference(vals[i] as int, vals[0] as int);
    let (x, y) = (
        f.mag(sampler::inverse_temperature(t as int)),
        f.mag(sampler::inverse_temperature(u as int)),
    );
    if y < x {
        ieee::law_patterns_are_ordered(24, y, x);
    }
    let (a, b, c) = (units(24, f.mag(d)), units(24, x), units(24, y));
    ieee::lemma_p2_pos(149);
    let n = p2(149);
    assert(0 <= a * c <= a * b && (a * c) * n <= (a * b) * n) by (nonlinear_arith)
        requires
            a >= 0,
            0 <= c <= b,
            n >= 1,
    ;
    rounding::law_rounding_keeps_order(24, a * c, n, a * b, n);
    lemma_exponent(vals, u as int, 0);
    lemma_below_top(vals[0] as int, vals[0] as int);
}

/// A better candidate never has the lower exponent.
pub proof fn law_better_candidates_weigh_more(vals: Seq<u32>, t: u32, i: int, j: int)
    requires
        plain(t as int),
        0 <= i < vals.len(),
        0 <= j < vals.len(),
        plain(vals[0] as int),
        plain(vals[i] as int),
        plain(vals[j] as int),
        at_most(vals[j] as int, vals[i] as int),
        at_most(vals[i] as int, vals[0] as int),
    ensures
        at_most(
            sampler::exponents_of(vals, t as int)[j] as int,
            sampler::exponents_of(vals, t as int)[i] as int,
        ),
{
    let f = Format::F32;
    lemma_exponent(vals, t as int, i);
    lemma_exponent(vals, t as int, j);
    lemma_inverse(t as int);
    let (vi, vj, v0) = (vals[i] as int, vals[j] as int, vals[0] as int);
    lemma_below_top(vi, v0);
    lemma_below_top(vj, v0);
    ieee::law_comparison_is_of_values(f, vj, vi);
    ieee::law_comparison_is_of_values(f, vi, v0);
    let (x, y) = (f.mag(f.difference(vi, v0)), f.mag(f.difference(vj, v0)));
    let (p, q) = (f.value(v0) - f.value(vi), f.value(v0) - f.value(vj));
    if p > 0 {
        rounding::law_rounding_keeps_order(24, p, 1, q, 1);
    }
    assert(x <= y);
    if x < y {
        ieee::law_patterns_are_ordered(24, x, y);
    }
    let (a, b, c) = (
        units(24, x),
        units(24, y),
        units(24, f.mag(sampler::inverse_temperature(t as int))),
    );
    ieee::lemma_p2_pos(149);
    let n = p2(149);
    assert(0 <= a * c <= b * c && (a * c) * n <= (b * c) * n) by (nonlinear_arith)
        requires
            0 <= a <= b,
            0 <= c,
            n >= 1,
    ;
    rounding::law_rounding_keeps_order(24, a * c, n, b * c, n);
}

/// At temperature one the exponents are the distances from the top candidate
/// themselves.
pub proof fn law_unit_temperature_changes_nothing(vals: Seq<u32>, i: int)
    requires
        0 <= i < vals.len(),
        plain(vals[0] as int),
        plain(vals[i] as int),
        at_most(vals[i] as int, vals[0] as int),
    ensures
        Format::F32.equal(
            sampler::exponents_of(vals, ONE as int)[i] as int,
            Format::F32.difference(vals[i] as int, vals[0] as int),
        ),
{
    let f = Format::F32;
    lemma_constants();
    lemma_divisor(ONE as int);
    lemma_inverse(ONE as int);
    lemma_exponent(vals, ONE as int, i);
    lemma_below_top(vals[i] as int, vals[0] as int);
    let n = p2(149);
    ieee::lemma_p2_pos(149);
    assert(divisor(ONE as int) == ONE as int);
    ieee::lemma_bits_scale(24, n, 1, n);
    assert(n * 1 == n);
    ieee::law_units_round_to_themselves(24, ONE as int);
    let d = f.mag(f.difference(vals[i] as int, vals[0] as int));
    let u = units(24, d);
    ieee::lemma_bits_scale(24, u, 1, n);
    assert(n * u == u * n) by (nonlinear_arith);
    ieee::law_units_round_to_themselves(24, d);
}

/// The weight of a candidate is the exponential of its distance from the top
/// one divided by the temperature, each step rounded to the closest value: the
/// temperature is at least 1e-4, no value times it comes closer to one than
/// what the distance is multiplied by, and no value comes closer to that
/// product than the exponent.
pub proof fn law_exponents_divide_by_the_temperature(vals: Seq<u32>, t: u32, i: int)
    requires
        plain(t as int),
        0 <= i < vals.len(),
        plain(vals[0] as int),
        plain(vals[i] as int),
        at_most(vals[i] as int, vals[0] as int),
    ensures
        ({
            let f = Format::F32;
            let d = f.difference(vals[i] as int, vals[0] as int);
            let e = sampler::exponents_of(vals, t as int)[i] as int;
            exists|inv: int| #[trigger]
                plain(inv) && closest(f, inv, p2(149) * p2(149), f.value(divisor(t as int))) && (
                f.is_finite(d) ==> closest(f, d, f.value(vals[i] as int) - f.value(vals[0] as int), 1)
                    && (f.is_finite(e) ==> closest(f, e, f.value(d) * f.value(inv), p2(149))))
        }),
{
    let f = Format::F32;
    lemma_constants();
    lemma_inverse(t as int);
    lemma_divisor(t as int);
    lemma_exponent(vals, t as int, i);
    lemma_below_top(vals[i] as int, vals[0] as int);
    let inv = sampler::inverse_temperature(t as int);
    let d = f.difference(vals[i] as int, vals[0] as int);
    rounding::law_quotients_are_closest(f, ONE as int, divisor(t as int));
    if f.is_finite(d) {
        rounding::law_differences_are_closest(f, vals[i] as int, vals[0] as int);
        if f.is_finite(f.product(d, inv)) {
            rounding::law_products_are_closest(f, d, inv);
        }
    }
    assert(plain(inv));
}

// The repeat penalty.

/// A penalty of one or more never raises a logit, and one of at most one never
/// lowers it.
pub proof fn law_penalties_push_down(l: u32, penalty: u32)
    requires
        !Format::F32.is_nan(l as int),
        plain(penalty as int),
        Format::F32.less(0, penalty as int),
    ensures
        Format::F32.holds(sampler::penalized(l as int, penalty as int)),
        !Format::F32.is_nan(sampler::penalized(l as int, penalty as int)),
        at_most(ONE as int, penalty as int) ==> at_most(
            sampler::penalized(l as int, penalty as int),
            l as int,
        ),
        at_most(penalty as int, ONE as int) ==> at_most(
            l as int,
            sampler::penalized(l as int, penalty as int),
        ),
{
    let f = Format::F32;
    ieee::lemma_format(f);
    lemma_constants();
    let (x, p) = (f.mag(l as int), penalty as int);
    let (u, v, n) = (units(24, x), units(24, p), p2(149));
    ieee::lemma_p2_pos(149);
    ieee::lemma_units_pos(24, x);
    ieee::lemma_units_pos(24, p);
    ieee::law_comparison_is_of_values(f, ONE as int, p);
    ieee::law_comparison_is_of_values(f, p, ONE as int);
    assert(f.value(p) == v && f.value(ONE as int) == n);
    assert(u * n >= 0 && u * v >= 0) by (nonlinear_arith)
        requires
            u >= 0,
            v >= 0,
            n >= 0,
    ;
    ieee::law_units_round_to_themselves(24, x);
    ieee::lemma_round_holds(f, false, u * n, v);
    ieee::lemma_round_holds(f, f.negative(l as int), u * v, n);
    if at_most(ONE as int, p) {
        assert(u * n <= u * v) by (nonlinear_arith)
            requires
                u >= 0,
                n <= v,
        ;
        rounding::law_rounding_keeps_order(24, u * n, v, u, 1);
        rounding::law_rounding_keeps_order(24, u, 1, u * v, n);
    }
    if at_most(p, ONE as int) {
        assert(u * v <= u * n) by (nonlinear_arith)
            requires
                u >= 0,
                v <= n,
        ;
        rounding::law_rounding_keeps_order(24, u, 1, u * n, v);
        rounding::law_rounding_keeps_order(24, u * v, n, u, 1);
    }
    if x == 0 {
        assert(u == 0);
        assert(u * v == 0) by (nonlinear_arith)
            requires
                u == 0,
        ;
        ieee::lemma_zero_bits(24, n);
    }
}

proof fn lemma_penalties(l: Seq<u32>, w: Seq<u32>, penalty: u32, t: int)
    requires
        0 <= t < l.len(),
        !Format::F32.is_nan(l[t] as int),
        plain(penalty as int),
        at_most(ONE as int, penalty as int),
    ensures
        ({
            let r = sampler::penalties(l, w, penalty as int);
            &&& r.len() == l.len()
            &&& !Format::F32.is_nan(r[t] as int)
            &&& at_most(r[t] as int, l[t] as int)
            &&& (forall|j: int| 0 <= j < w.len() ==> #[trigger] w[j] != t) ==> r[t] == l[t]
        }),
    decreases w.len(),
{
    if w.len() > 0 {
        let v = w.drop_last();
        lemma_penalties(l, v, penalty, t);
        let b = sampler::penalties(l, v, penalty as int);
        law_penalties_push_down(b[t], penalty);
        assert(w.last() == w[w.len() - 1]);
        if forall|j: int| 0 <= j < w.len() ==> #[trigger] w[j] != t {
            assert forall|j: int| 0 <= j < v.len() implies #[trigger] v[j] != t by {
                assert(v[j] == w[j]);
            }
        }
    }
}

proof fn lemma_penalized_once(l: Seq<u32>, w: Seq<u32>, penalty: u32, t: int, k: int)
    requires
        0 <= t < l.len(),
        !Format::F32.is_nan(l[t] as int),
        plain(penalty as int),
        at_most(ONE as int, penalty as int),
        0 <= k < w.len(),
        w[k] == t,
        forall|j: int| 0 <= j < w.len() && j != k ==> #[trigger] w[j] != t,
    ensures
        sampler::penalties(l, w, penalty as int)[t] == sampler::penalized(
            l[t] as int,
            penalty as int,
        ) as u32,
    decreases w.len(),
{
    let v = w.drop_last();
    assert(w.last() == w[w.len() - 1]);
    assert forall|j: int| 0 <= j < v.len() && j != k implies #[trigger] v[j] != t by {
        assert(v[j] == w[j]);
    }
    lemma_penalties(l, v, penalty, t);
    if k < w.len() - 1 {
        lemma_penalized_once(l, v, penalty, t, k);
    }
}

/// The repeat penalty reaches the last 64 tokens and no others. It never
/// raises the logit of a token, and divides that of a token that occurred once
/// where it is positive and multiplies it elsewhere.
pub proof fn law_penalties_reach_recent_tokens(
    l: Seq<u32>,
    history: Seq<u32>,
    penalty: u32,
    t: int,
    k: int,
)
    requires
        0 <= t < l.len(),
        !Format::F32.is_nan(l[t] as int),
        plain(penalty as int),
        Format::F32.less(ONE as int, penalty as int),
    ensures
        ({
            let f = Format::F32;
            let r = sampler::weighed(l, history, penalty as int);
            &&& r.len() == l.len()
            &&& at_most(r[t] as int, l[t] as int)
            &&& (forall|j: int|
                0 <= j < history.len() && history.len() - 64 <= j ==> #[trigger] history[j] != t)
                ==> r[t] == l[t]
            &&& (0 <= k < history.len() && history.len() - 64 <= k && history[k] == t && forall|
                j: int,
            |
                0 <= j < history.len() && history.len() - 64 <= j && j != k
                    ==> #[trigger] history[j] != t) ==> r[t] == (if f.less(0, l[t] as int) {
                f.quotient(l[t] as int, penalty as int)
            } else {
                f.product(l[t] as int, penalty as int)
            })
        }),
{
    let f = Format::F32;
    let n = history.len() as int;
    let w = sampler::window(history);
    let from = if n <= 64 {
        0
    } else {
        n - 64
    };
    assert(w =~= history.skip(from));
    lemma_penalties(l, w, penalty, t);
    if forall|j: int| 0 <= j < n && n - 64 <= j ==> #[trigger] history[j] != t {
        assert forall|j: int| 0 <= j < w.len() implies #[trigger] w[j] != t by {
            assert(w[j] == history[from + j]);
        }
    }
    if 0 <= k < n && n - 64 <= k && history[k] == t && forall|j: int|
        0 <= j < n && n - 64 <= j && j != k ==> #[trigger] history[j] != t {
        assert(w[k - from] == history[k]);
        assert forall|j: int| 0 <= j < w.len() && j != k - from implies #[trigger] w[j] != t by {
            assert(w[j] == history[from + j]);
        }
        lemma_penalized_once(l, w, penalty, t, k - from);
        law_penalties_push_down(l[t], penalty);
    }
}

// The candidates.

/// Greedy sampling takes a token whose logit no other exceeds.
pub proof fn law_greedy_takes_the_greatest(l: Seq<u32>, i: int)
    requires
        sampler::no_nan(l),
        0 <= i < l.len(),
    ensures
        0 <= sampler::best(l, l.len() as int) < l.len(),
        at_most(l[i] as int, l[sampler::best(l, l.len() as int)] as int),
{
    sampler::lemma_best(l, l.len() as int);
    lemma_best_so_far(l, l.len() as int, i);
}

proof fn lemma_best_so_far(l: Seq<u32>, n: int, i: int)
    requires
        sampler::no_nan(l),
        0 <= i < n <= l.len(),
    ensures
        at_most(l[i] as int, l[sampler::best(l, n)] as int),
    decreases n,
{
    sampler::lemma_best(l, n);
    assert(!Format::F32.is_nan(l[i] as int));
    assert(!Format::F32.is_nan(l[sampler::best(l, n)] as int));
    if n > 1 {
        sampler::lemma_best(l, n - 1);
        assert(!Format::F32.is_nan(l[sampler::best(l, n - 1)] as int));
        assert(!Format::F32.is_nan(l[n - 1] as int));
        if i < n - 1 {
            lemma_best_so_far(l, n - 1, i);
        }
    }
}

/// Keeping one candidate is greedy, whatever the temperature and the draw.
pub proof fn law_top_one_is_greedy(rng: u64, t: Turn, exp: spec_fn(u32) -> u32)
    requires
        t.opts.top_k == 1,
        0 < t.logits.len() <= u32::MAX,
        sampler::no_nan(
            sampler::weighed(t.logits, t.history, t.opts.repeat_penalty as int),
        ),
    ensures
        ({
            let l = sampler::weighed(t.logits, t.history, t.opts.repeat_penalty as int);
            sampler::sampled(rng, t, exp).0 == sampler::best(l, l.len() as int)
        }),
{
    let l = sampler::weighed(t.logits, t.history, t.opts.repeat_penalty as int);
    sampler::lemma_penalties_len(
        t.logits,
        sampler::window(t.history),
        t.opts.repeat_penalty as int,
    );
    let n = l.len() as int;
    sampler::lemma_best(l, n);
    if !t.opts.greedy() {
        sampler::law_rankings_rank(l, 1);
        let ids = sampler::ranking(l, 0, n).take(1);
        sampler::law_greedy_is_the_first_candidate(l, ids, 1);
        let w = sampler::weights_of(
            sampler::values(l, ids),
            t.opts.temperature as int,
            exp,
        );
        assert(w.len() == 1);
        sampler::law_draws_stay_in_the_nucleus(
            w,
            t.opts.top_p as int,
            sampler::uniform_of(sampler::shifted(rng)),
        );
    }
}

/// The nucleus is the shortest start of the candidates whose probabilities add
/// up to top-p; all of them where they never do.
pub proof fn law_nucleus_is_the_shortest(p: Seq<u32>, top_p: int, j: int)
    requires
        p.len() > 0,
        1 <= j <= p.len(),
    ensures
        ({
            let n = sampler::nucleus(p, top_p, 0);
            &&& 1 <= n <= p.len()
            &&& n < p.len() ==> at_most(top_p, sampler::total(p.take(n)))
            &&& j < n ==> !at_most(top_p, sampler::total(p.take(j)))
        }),
{
    lemma_nucleus_from(p, top_p, 0, j);
}

proof fn lemma_nucleus_from(p: Seq<u32>, top_p: int, i: int, j: int)
    requires
        0 <= i < p.len(),
        1 <= j <= p.len(),
    ensures
        ({
            let n = sampler::nucleus(p, top_p, i);
            &&& i < n <= p.len()
            &&& n < p.len() ==> at_most(top_p, sampler::total(p.take(n)))
            &&& i < j < n ==> !at_most(top_p, sampler::total(p.take(j)))
        }),
    decreases p.len() - i,
{
    if !at_most(top_p, sampler::total(p.take(i + 1))) {
        if i + 1 < p.len() {
            lemma_nucleus_from(p, top_p, i + 1, j);
        } else {
            assert(sampler::nucleus(p, top_p, i + 1) == p.len());
        }
    }
}

// The draw.

/// Subtracting keeps order.
proof fn lemma_difference_keeps_order(a: int, b: int, c: int)
    requires
        Format::F32.holds(a),
        Format::F32.holds(b),
        at_most(a, b),
        plain(c),
    ensures
        ({
            let f = Format::F32;
            &&& f.holds(f.difference(a, c))
            &&& f.holds(f.difference(b, c))
            &&& at_most(f.difference(a, c), f.difference(b, c))
        }),
{
    let f = Format::F32;
    ieee::lemma_format(f);
    let n = f.negated(c);
    assert(f.mag(n) == f.mag(c) && f.negative(n) != f.negative(c));
    if f.is_finite(a) {
        let s = f.value(a) - f.value(c);
        if s != 0 {
            ieee::lemma_round_holds(f, s < 0, if s < 0 {
                -s
            } else {
                s
            }, 1);
        }
    }
    if f.is_finite(b) {
        let s = f.value(b) - f.value(c);
        if s != 0 {
            ieee::lemma_round_holds(f, s < 0, if s < 0 {
                -s
            } else {
                s
            }, 1);
        }
    }
    if f.is_finite(a) && f.is_finite(b) {
        ieee::law_comparison_is_of_values(f, a, b);
        let (s, t) = (f.value(a) - f.value(c), f.value(b) - f.value(c));
        assert(s <= t);
        if 0 <= s {
            rounding::law_rounding_keeps_order(24, s, 1, t, 1);
            ieee::lemma_zero_bits(24, 1);
        } else if t <= 0 {
            rounding::law_rounding_keeps_order(24, -t, 1, -s, 1);
            ieee::lemma_zero_bits(24, 1);
        }
    }
}

/// Every probability is a finite number.
pub open spec fn all_plain(p: Seq<u32>) -> bool {
    forall|i: int| 0 <= i < p.len() ==> plain(#[trigger] p[i] as int)
}

proof fn lemma_remaining_keeps_order(p: Seq<u32>, a: int, b: int, n: int)
    requires
        all_plain(p),
        Format::F32.holds(a),
        Format::F32.holds(b),
        at_most(a, b),
        0 <= n <= p.len(),
    ensures
        Format::F32.holds(sampler::remaining(p, a, n)),
        Format::F32.holds(sampler::remaining(p, b, n)),
        at_most(sampler::remaining(p, a, n), sampler::remaining(p, b, n)),
    decreases n,
{
    if n > 0 {
        lemma_remaining_keeps_order(p, a, b, n - 1);
        lemma_difference_keeps_order(
            sampler::remaining(p, a, n - 1),
            sampler::remaining(p, b, n - 1),
            p[n - 1] as int,
        );
    }
}

proof fn lemma_struck_keeps_order(p: Seq<u32>, a: int, b: int, i: int)
    requires
        all_plain(p),
        p.len() > 0,
        Format::F32.holds(a),
        Format::F32.holds(b),
        at_most(a, b),
        0 <= i <= p.len(),
    ensures
        i < p.len() ==> i <= sampler::struck(p, b, i),
        sampler::struck(p, a, i) <= p.len() - 1,
        sampler::struck(p, a, i) <= sampler::struck(p, b, i),
    decreases p.len() - i,
{
    if i < p.len() {
        lemma_remaining_keeps_order(p, a, b, i + 1);
        lemma_struck_keeps_order(p, a, b, i + 1);
        if i + 1 == p.len() {
            assert(sampler::struck(p, b, i + 1) == p.len() - 1);
        }
    }
}

/// A greater uniform number never picks a better candidate: the draw walks
/// down the candidates as the number grows.
pub proof fn law_draws_walk_down_the_candidates(weights: Seq<u32>, top_p: int, a: int, b: int)
    requires
        weights.len() > 0,
        all_plain(sampler::normalized(weights)),
        plain(a),
        plain(b),
        at_most(0, a),
        at_most(a, b),
        ({
            let p = sampler::normalized(weights);
            let t = sampler::total(p.take(sampler::nucleus(p, top_p, 0)));
            plain(t) && at_most(0, t)
        }),
    ensures
        sampler::picked(weights, top_p, a) <= sampler::picked(weights, top_p, b),
{
    let f = Format::F32;
    ieee::lemma_format(f);
    let p = sampler::normalized(weights);
    law_nucleus_is_the_shortest(p, top_p, 1);
    let q = p.take(sampler::nucleus(p, top_p, 0));
    let t = sampler::total(q);
    let (x, y, z) = (units(24, f.mag(a)), units(24, f.mag(b)), units(24, f.mag(t)));
    let n = p2(149);
    ieee::lemma_p2_pos(149);
    ieee::lemma_units_pos(24, f.mag(a));
    ieee::lemma_units_pos(24, f.mag(b));
    ieee::lemma_units_pos(24, f.mag(t));
    if f.mag(a) < f.mag(b) {
        ieee::law_patterns_are_ordered(24, f.mag(a), f.mag(b));
    }
    assert(f.mag(a) <= f.mag(b));
    assert(0 <= x * z <= y * z && (x * z) * n <= (y * z) * n) by (nonlinear_arith)
        requires
            0 <= x <= y,
            0 <= z,
            n >= 1,
    ;
    ieee::lemma_round_holds(f, f.negative(a) != f.negative(t), x * z, n);
    ieee::lemma_round_holds(f, f.negative(b) != f.negative(t), y * z, n);
    rounding::law_rounding_keeps_order(24, x * z, n, y * z, n);
    ieee::lemma_zero_bits(24, n);
    assert(units(24, 0) == 0) by {
        ieee::lemma_p2_pos(24);
    }
    assert(x == 0 || z == 0 ==> x * z == 0) by (nonlinear_arith);
    assert(y == 0 || z == 0 ==> y * z == 0) by (nonlinear_arith);
    assert(at_most(f.product(a, t), f.product(b, t)));
    lemma_struck_keeps_order(q, f.product(a, t), f.product(b, t), 0);
}

/// A draw is one of `2^24` equal steps from zero up to, but without, one: the
/// upper bits of the generator's product over their range, exactly.
pub proof fn law_uniform_numbers_are_even_steps(x: u64)
    ensures
        ({
            let m = (x.wrapping_mul(STAR) >> 40) as int;
            let u = sampler::uniform_of(x);
            &&& 0 <= m < 0x100_0000
            &&& plain(u)
            &&& !Format::F32.negative(u)
            &&& Format::F32.value(u) * 0x100_0000 == m * p2(149)
            &&& Format::F32.less(u, ONE as int)
        }),
{
    let f = Format::F32;
    ieee::lemma_format(f);
    lemma_constants();
    let y: u64 = x.wrapping_mul(STAR);
    assert((y >> 40) < 0x100_0000) by (bit_vector);
    let m = (y >> 40) as int;
    let n = p2(149);
    ieee::lemma_p2_pos(149);
    ieee::lemma_p2_pos(125);
    ieee::lemma_p2_pos(173);
    num::lemma_single_is_exact(m, 149);
    num::lemma_single_is_exact(m, 125);
    assert(m * n >= 0 && m * p2(125) >= 0) by (nonlinear_arith)
        requires
            m >= 0,
            n >= 1,
            p2(125) >= 1,
    ;
    let w = f.of_int(m);
    ieee::lemma_round_holds(f, false, m * n, 1);
    assert(units(24, f.mag(w)) == m * n);
    ieee::lemma_p2_add(149, 149);
    ieee::lemma_p2_add(125, 173);
    assert((m * n) * n == p2(173) * (m * p2(125))) by (nonlinear_arith)
        requires
            n * n == p2(125) * p2(173),
    ;
    ieee::lemma_bits_scale(24, m * p2(125), 1, p2(173));
    assert(p2(173) * 1 == p2(173));
    ieee::lemma_round_holds(f, false, (m * n) * n, p2(173));
    let u = f.quotient(w, DRAW_RANGE as int);
    assert(f.value(u) == m * p2(125));
    ieee::lemma_p2_add(125, 24);
    assert((m * p2(125)) * 0x100_0000 == m * (p2(125) * 0x100_0000)) by (nonlinear_arith);
    assert(m * p2(125) < p2(149)) by (nonlinear_arith)
        requires
            m < 0x100_0000,
            p2(149) == p2(125) * 0x100_0000,
            p2(125) >= 1,
    ;
    ieee::law_comparison_is_of_values(f, u, ONE as int);
}

/// A draw stops at the first candidate that uses it up: what is left after it
/// is no number above zero, and after every candidate before it there is still
/// something left. Where none uses it up, the last is taken.
pub proof fn law_draws_stop_when_used_up(p: Seq<u32>, r: int, j: int)
    requires
        p.len() > 0,
        0 <= j < p.len(),
    ensures
        ({
            let m = sampler::struck(p, r, 0);
            let left = |k: int| sampler::remaining(p, r, k + 1);
            &&& 0 <= m < p.len()
            &&& m < p.len() - 1 ==> Format::F32.less(left(m), 0) || Format::F32.equal(left(m), 0)
            &&& j < m ==> !(Format::F32.less(left(j), 0) || Format::F32.equal(left(j), 0))
        }),
        sampler::remaining(p, r, 0) == r,
        sampler::remaining(p, r, j + 1) == Format::F32.difference(
            sampler::remaining(p, r, j),
            p[j] as int,
        ),
{
    lemma_struck_from(p, r, 0, j);
}

proof fn lemma_struck_from(p: Seq<u32>, r: int, i: int, j: int)
    requires
        0 <= i < p.len(),
        0 <= j < p.len(),
    ensures
        ({
            let m = sampler::struck(p, r, i);
            &&& i <= m < p.len()
            &&& m < p.len() - 1 ==> at_most(sampler::remaining(p, r, m + 1), 0)
            &&& i <= j < m ==> !at_most(sampler::remaining(p, r, j + 1), 0)
        }),
    decreases p.len() - i,
{
    if !at_most(sampler::remaining(p, r, i + 1), 0) {
        if i + 1 < p.len() {
            lemma_struck_from(p, r, i + 1, j);
        } else {
            assert(sampler::struck(p, r, i + 1) == p.len() - 1);
        }
    }
}

/// Probabilities are the weights' shares of their sum: no value times the sum
/// comes closer to a weight than its probability does. Sums are added up from
/// the first on.
pub proof fn law_probabilities_are_shares(w: Seq<u32>, i: int, x: u32)
    requires
        0 <= i < w.len(),
        plain(w[i] as int),
        plain(sampler::total(w)),
        Format::F32.less(0, sampler::total(w)),
    ensures
        ({
            let f = Format::F32;
            let p = sampler::normalized(w)[i] as int;
            f.is_finite(p) ==> closest(
                f,
                p,
                f.value(w[i] as int) * p2(149),
                f.value(sampler::total(w)),
            )
        }),
        sampler::total(Seq::empty()) == 0,
        sampler::total(w.push(x)) == Format::F32.sum(sampler::total(w), x as int),
{
    let f = Format::F32;
    let t = sampler::total(w);
    let q = f.quotient(w[i] as int, t);
    let (u, v) = (units(24, f.mag(w[i] as int)), units(24, f.mag(t)));
    ieee::lemma_format(f);
    ieee::lemma_units_pos(24, f.mag(w[i] as int));
    ieee::lemma_units_pos(24, f.mag(t));
    ieee::lemma_p2_pos(149);
    let n = p2(149);
    assert(u * n >= 0) by (nonlinear_arith)
        requires
            u >= 0,
            n >= 1,
    ;
    ieee::lemma_round_holds(f, f.negative(w[i] as int) != f.negative(t), u * n, v);
    assert(sampler::normalized(w)[i] == q);
    if f.is_finite(q) {
        rounding::law_quotients_are_closest(f, w[i] as int, t);
    }
    assert(w.push(x).drop_last() =~= w);
}

/// The number that a draw starts from is its share of the nucleus: the uniform
/// number times the sum of the probabilities that are kept.
pub proof fn law_draws_are_from_the_nucleus(weights: Seq<u32>, top_p: int, uniform: int)
    requires
        weights.len() > 0,
    ensures
        ({
            let p = sampler::normalized(weights);
            let q = p.take(sampler::nucleus(p, top_p, 0));
            &&& sampler::picked(weights, top_p, uniform) == sampler::struck(
                q,
                Format::F32.product(uniform, sampler::total(q)),
                0,
            )
            &&& 0 <= sampler::picked(weights, top_p, uniform) < q.len()
        }),
{
    sampler::law_draws_stay_in_the_nucleus(weights, top_p, uniform);
}

/// Top-k keeps that many candidates, or all where it is zero or there are
/// fewer.
pub proof fn law_top_k_keeps_that_many(top_k: int, n: int)
    requires
        top_k >= 0,
        n >= 0,
    ensures
        0 <= sampler::kept(top_k, n) <= n,
        1 <= top_k <= n ==> sampler::kept(top_k, n) == top_k,
        top_k == 0 || n <= top_k ==> sampler::kept(top_k, n) == n,
{
}

// Whole steps.

/// At a temperature of zero or below, sampling takes a token whose penalized
/// logit no other exceeds and leaves the generator alone; above, it draws once,
/// and the generator moves on by one.
pub proof fn law_cold_sampling_is_greedy(rng: u64, t: Turn, exp: spec_fn(u32) -> u32, i: int)
    requires
        0 < t.logits.len() <= u32::MAX,
        0 <= i < t.logits.len(),
    ensures
        ({
            let l = sampler::weighed(t.logits, t.history, t.opts.repeat_penalty as int);
            let (token, state) = sampler::sampled(rng, t, exp);
            let cold = !Format::F32.is_nan(t.opts.temperature as int) && !Format::F32.less(
                0,
                t.opts.temperature as int,
            );
            &&& l.len() == t.logits.len()
            &&& cold ==> state == rng && token < l.len()
            &&& cold && sampler::no_nan(l) ==> at_most(l[i] as int, l[token as int] as int)
            &&& !cold ==> state == sampler::shifted(rng)
        }),
{
    let l = sampler::weighed(t.logits, t.history, t.opts.repeat_penalty as int);
    sampler::lemma_penalties_len(
        t.logits,
        sampler::window(t.history),
        t.opts.repeat_penalty as int,
    );
    sampler::lemma_best(l, l.len() as int);
    if sampler::no_nan(l) {
        law_greedy_takes_the_greatest(l, i);
    }
}

/// No two states of the generator have the same successor, and none but zero
/// leads to zero: the draws of a seed do not run dry.
pub proof fn law_states_never_meet(a: u64, b: u64)
    ensures
        sampler::shifted(a) == sampler::shifted(b) ==> a == b,
        sampler::shifted(a) == 0 <==> a == 0,
{
    lemma_shifts(a, b);
    let (x, y) = (a ^ (a >> 12), b ^ (b >> 12));
    lemma_shifts(x, y);
    let (u, v) = (x ^ (x << 25), y ^ (y << 25));
    lemma_shifts(u, v);
    lemma_zero_shifts(a);
    lemma_zero_shifts(x);
    lemma_zero_shifts(u);
}

proof fn lemma_shifts(a: u64, b: u64)
    ensures
        a ^ (a >> 12) == b ^ (b >> 12) ==> a == b,
        a ^ (a << 25) == b ^ (b << 25) ==> a == b,
        a ^ (a >> 27) == b ^ (b >> 27) ==> a == b,
{
    assert(a ^ (a >> 12) == b ^ (b >> 12) ==> a == b) by (bit_vector);
    assert(a ^ (a << 25) == b ^ (b << 25) ==> a == b) by (bit_vector);
    assert(a ^ (a >> 27) == b ^ (b >> 27) ==> a == b) by (bit_vector);
}

proof fn lemma_zero_shifts(a: u64)
    ensures
        a ^ (a >> 12) == 0 <==> a == 0,
        a ^ (a << 25) == 0 <==> a == 0,
        a ^ (a >> 27) == 0 <==> a == 0,
{
    assert(a ^ (a >> 12) == 0 <==> a == 0) by (bit_vector);
    assert(a ^ (a << 25) == 0 <==> a == 0) by (bit_vector);
    assert(a ^ (a >> 27) == 0 <==> a == 0) by (bit_vector);
}

/// What a step over ranked candidates draws from: as many of the best as top-k
/// keeps, each weighed by the exponential of its exponent.
pub proof fn law_draws_are_over_the_best(rng: u64, vals: Seq<u32>, ids: Seq<u32>, opts: GenOptions, exp: spec_fn(u32) -> u32)
    requires
        vals.len() == ids.len(),
        ids.len() > 0,
        Format::F32.less(0, opts.temperature as int),
    ensures
        ({
            let k = if 1 <= opts.top_k <= ids.len() {
                opts.top_k as int
            } else {
                ids.len() as int
            };
            let e = sampler::exponents_of(vals.take(k), opts.temperature as int);
            let w = e.map_values(|x: u32| exp(x));
            let i = sampler::picked(
                w,
                opts.top_p as int,
                sampler::uniform_of(sampler::shifted(rng)),
            );
            &&& 0 <= i < k
            &&& sampler::sampled_cut(rng, vals, ids, opts, exp) == (
                ids[i],
                sampler::shifted(rng),
            )
        }),
{
    let k = if 1 <= opts.top_k <= ids.len() {
        opts.top_k as int
    } else {
        ids.len() as int
    };
    let e = sampler::exponents_of(vals.take(k), opts.temperature as int);
    let w = e.map_values(|x: u32| exp(x));
    assert(w =~= sampler::weights_of(vals.take(k), opts.temperature as int, exp));
    sampler::law_draws_stay_in_the_nucleus(
        w,
        opts.top_p as int,
        sampler::uniform_of(sampler::shifted(rng)),
    );
}

} // verus!
