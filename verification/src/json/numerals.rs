//! JSON numbers written out, and what they are read as.
use vstd::prelude::*;

use crate::decimal::{digits_value, lemma_pow10_pos, of_decimal, pow10};
use crate::ieee;
use crate::ieee::Format;
use crate::json::writing::{lemma_parts, stands};
use crate::json::{
    digit_seq, digits_end, document, exponent_at, is_digit, mantissa_at, number_at, skip_ws, value_at,
    Value,
};
use crate::rounding;
use crate::text::numeral;

verus! {

/// The last `q` decimal digits of `f`, leading zeros and all.
pub open spec fn padded(f: int, q: int) -> Seq<char>
    decreases q,
{
    if q <= 0 {
        Seq::empty()
    } else {
        padded(f / 10, q - 1).push((48 + f % 10) as char)
    }
}

/// A sign where there is one to write.
pub open spec fn sign(minus: bool) -> Seq<char> {
    if minus {
        seq!['-']
    } else {
        Seq::empty()
    }
}

/// `n`, a point, and `q` digits behind it.
pub open spec fn pointed(n: int, f: int, q: int) -> Seq<char> {
    numeral(n) + (if q > 0 {
        seq!['.'] + padded(f, q)
    } else {
        Seq::empty()
    })
}

/// A number in scientific notation.
pub open spec fn scientific(neg: bool, n: int, f: int, q: int, minus: bool, x: int) -> Seq<char> {
    sign(neg) + pointed(n, f, q) + (seq!['e'] + sign(minus) + numeral(x))
}

pub open spec fn all_digits(w: Seq<char>) -> bool {
    forall|k: int| 0 <= k < w.len() ==> is_digit(#[trigger] w[k])
}

/// The digits of a numeral as numbers.
spec fn valued(w: Seq<char>) -> Seq<u8> {
    digit_seq(w, 0, w.len() as int)
}

proof fn lemma_run(s: Seq<char>, i: int, w: Seq<char>)
    requires
        stands(s, i, w),
        all_digits(w),
        i + w.len() < s.len() ==> !is_digit(s[i + w.len()]),
    ensures
        digits_end(s, i) == i + w.len(),
        digit_seq(s, i, i + w.len()) == valued(w),
    decreases w.len(),
{
    assert(digit_seq(s, i, i + w.len()) =~= valued(w)) by {
        assert forall|k: int| 0 <= k < w.len() implies digit_seq(s, i, i + w.len())[k] == valued(
            w,
        )[k] by {
            assert(w[k] == s[i + k]);
        }
    }
    if w.len() > 0 {
        assert(w[0] == s[i]);
        let v = w.skip(1);
        assert(w =~= w.take(1) + v);
        lemma_parts(s, i, w.take(1), v);
        assert forall|k: int| 0 <= k < v.len() implies is_digit(#[trigger] v[k]) by {
            assert(w[k + 1] == v[k]);
        }
        lemma_run(s, i + 1, v);
    }
}

proof fn lemma_pushed(w: Seq<char>, d: int)
    requires
        all_digits(w),
        0 <= d < 10,
    ensures
        all_digits(w.push((48 + d) as char)),
        valued(w.push((48 + d) as char)) == valued(w).push(d as u8),
{
    let v = w.push((48 + d) as char);
    assert forall|k: int| 0 <= k < v.len() implies is_digit(#[trigger] v[k]) by {
        if k < w.len() {
            assert(v[k] == w[k]);
        }
    }
    assert(valued(v) =~= valued(w).push(d as u8));
}

proof fn lemma_numeral(n: int)
    requires
        n >= 0,
    ensures
        numeral(n).len() > 0,
        all_digits(numeral(n)),
        digits_value(valued(numeral(n))) == n,
        numeral(n).len() > 1 ==> n >= 10,
        n >= 1 ==> numeral(n)[0] != '0',
    decreases n,
{
    if n < 10 {
        let e = Seq::<char>::empty();
        lemma_pushed(e, n);
        assert(e.push((48 + n) as char) =~= numeral(n));
        assert(valued(e) =~= Seq::<u8>::empty());
        assert(valued(numeral(n)).drop_last() =~= Seq::<u8>::empty());
        assert(digits_value(Seq::<u8>::empty()) == 0);
    } else {
        lemma_numeral(n / 10);
        lemma_pushed(numeral(n / 10), n % 10);
        let v = valued(numeral(n / 10));
        assert(v.push((n % 10) as u8).drop_last() =~= v);
    }
}

proof fn lemma_padded(f: int, q: int)
    requires
        q >= 0,
        f >= 0,
    ensures
        padded(f, q).len() == q,
        all_digits(padded(f, q)),
    decreases q,
{
    if q > 0 {
        lemma_padded(f / 10, q - 1);
        lemma_pushed(padded(f / 10, q - 1), f % 10);
    }
}

/// The digits before and behind the point, taken together.
proof fn lemma_together(n: int, f: int, q: int)
    requires
        n >= 0,
        q >= 0,
        0 <= f < pow10(q),
    ensures
        digits_value(valued(numeral(n)) + valued(padded(f, q))) == n * pow10(q) + f,
    decreases q,
{
    let a = valued(numeral(n));
    lemma_numeral(n);
    if q == 0 {
        assert(a + valued(padded(f, q)) =~= a);
        assert(n * 1 == n);
    } else {
        let p = pow10(q - 1);
        assert(pow10(q) == 10 * p);
        lemma_padded(f / 10, q - 1);
        lemma_together(n, f / 10, q - 1);
        lemma_pushed(padded(f / 10, q - 1), f % 10);
        let b = valued(padded(f / 10, q - 1));
        let d = (f % 10) as u8;
        assert((a + b.push(d)).drop_last() =~= a + b);
        assert((a + b.push(d)).last() == d);
        assert(n * (10 * p) == 10 * (n * p)) by (nonlinear_arith);
    }
}

proof fn lemma_mantissa(s: Seq<char>, i: int, neg: bool, n: int, f: int, q: int)
    requires
        n >= 0,
        q >= 0,
        0 <= f < pow10(q),
        stands(s, i, sign(neg) + pointed(n, f, q)),
        ({
            let j = i + (sign(neg) + pointed(n, f, q)).len();
            j < s.len() ==> !is_digit(s[j]) && s[j] != '.'
        }),
    ensures
        mantissa_at(s, i) == Some(
            (
                neg,
                valued(numeral(n)) + valued(padded(f, q)),
                q,
                i + (sign(neg) + pointed(n, f, q)).len(),
            ),
        ),
{
    let a = i + sign(neg).len();
    lemma_parts(s, i, sign(neg), pointed(n, f, q));
    lemma_numeral(n);
    let tail = if q > 0 {
        seq!['.'] + padded(f, q)
    } else {
        Seq::empty()
    };
    lemma_parts(s, a, numeral(n), tail);
    assert(numeral(n)[0] == s[a]);
    if neg {
        assert(sign(neg)[0] == s[i]);
    }
    let b = a + numeral(n).len();
    if q > 0 {
        lemma_parts(s, b, seq!['.'], padded(f, q));
        assert(seq!['.'][0] == s[b]);
        lemma_padded(f, q);
        lemma_run(s, a, numeral(n));
        lemma_run(s, b + 1, padded(f, q));
    } else {
        lemma_run(s, a, numeral(n));
        assert(valued(numeral(n)) + valued(padded(f, q)) =~= valued(numeral(n)));
    }
}

proof fn lemma_exponent(s: Seq<char>, d: int, minus: bool, x: int)
    requires
        x >= 0,
        stands(s, d, seq!['e'] + sign(minus) + numeral(x)),
        s.len() == d + (seq!['e'] + sign(minus) + numeral(x)).len(),
    ensures
        exponent_at(s, d) == Some((if minus {
            -x
        } else {
            x
        }, s.len() as int)),
{
    lemma_numeral(x);
    lemma_parts(s, d, seq!['e'] + sign(minus), numeral(x));
    lemma_parts(s, d, seq!['e'], sign(minus));
    assert(seq!['e'][0] == s[d]);
    let f = d + 1 + sign(minus).len();
    assert(numeral(x)[0] == s[f]);
    if minus {
        assert(sign(minus)[0] == s[d + 1]);
    }
    lemma_run(s, f, numeral(x));
}

/// A number in scientific notation is read as the double nearest to it: `n`
/// whole ones and the fraction `f / 10^q`, times ten to the exponent. No finite
/// double lies nearer, unless the number is out of their range.
#[verifier::spinoff_prover]
pub proof fn law_numbers_are_read_as_the_closest_double(
    neg: bool,
    n: int,
    f: int,
    q: int,
    minus: bool,
    x: int,
)
    requires
        n >= 0,
        q >= 0,
        0 <= f < pow10(q),
        x >= 0,
    ensures
        ({
            let m = if neg {
                -(n * pow10(q) + f)
            } else {
                n * pow10(q) + f
            };
            let (up, down) = if minus {
                (0, x + q)
            } else if x >= q {
                (x - q, 0)
            } else {
                (0, q - x)
            };
            document(scientific(neg, n, f, q, minus, x)) matches Some(Value::Num(r))
                && (Format::F64.is_finite(r as int) ==> rounding::closest(
                Format::F64,
                r as int,
                m * pow10(up) * ieee::p2(1074),
                pow10(down),
            ))
        }),
{
    let s = scientific(neg, n, f, q, minus, x);
    let front = sign(neg) + pointed(n, f, q);
    let back = seq!['e'] + sign(minus) + numeral(x);
    assert(stands(s, 0, s));
    lemma_parts(s, 0, front, back);
    assert(back[0] == 'e');
    assert(back[0] == s[front.len() as int]);
    lemma_mantissa(s, 0, neg, n, f, q);
    lemma_exponent(s, front.len() as int, minus, x);
    lemma_together(n, f, q);
    lemma_numeral(n);
    assert(s[0] == front[0]);
    assert(is_digit(s[0]) || s[0] == '-') by {
        if neg {
            assert(front[0] == sign(neg)[0]);
        } else {
            assert(front[0] == numeral(n)[0]);
        }
    }
    assert(skip_ws(s, 0) == 0);
    lemma_no_word(s);
    let v = n * pow10(q) + f;
    let e = if minus {
        -x - q
    } else {
        x - q
    };
    lemma_pow10_pos(q);
    lemma_pow10_pos(e);
    lemma_pow10_pos(-e);
    ieee::lemma_p2_pos(1074);
    assert(n * pow10(q) >= 0) by (nonlinear_arith)
        requires
            n >= 0,
            pow10(q) >= 1,
    ;
    let r = of_decimal(neg, v, e);
    let (t, k) = (pow10(e), ieee::p2(1074));
    assert(v * t * k >= 0 && v * k >= 0) by (nonlinear_arith)
        requires
            v >= 0,
            t >= 1,
            k >= 1,
    ;
    assert((-v) * t * k == -(v * t * k) && (-v) * k == -(v * k)) by (nonlinear_arith);
    let (num, den) = if e >= 0 {
        (v * t * k, 1)
    } else {
        (v * k, pow10(-e))
    };
    assert(v * 1 == v && (-v) * 1 == -v);
    ieee::lemma_round_holds(Format::F64, neg, num, den);
    assert(r == Format::F64.round(neg, num, den));
    assert(0 <= r <= u64::MAX);
    if Format::F64.is_finite(r) {
        rounding::lemma_round_is_closest(Format::F64, neg, num, den);
    }
}

/// No word begins with a digit or a sign.
proof fn lemma_no_word(s: Seq<char>)
    requires
        s.len() > 0,
        is_digit(s[0]) || s[0] == '-',
    ensures
        value_at(s, 0) == (match number_at(s, 0) {
            Some((r, j)) => Some((Value::Num(r), j)),
            None => None,
        }),
{
    reveal_strlit("null");
    reveal_strlit("true");
    reveal_strlit("false");
    if s.len() >= 4 {
        assert(s.subrange(0, 4)[0] == s[0]);
    }
    if s.len() >= 5 {
        assert(s.subrange(0, 5)[0] == s[0]);
    }
}

} // verus!
