//! Natural numbers of any size, as little-endian base-2^32 digits.
use vstd::prelude::*;


verus! {

/// The number that the digits stand for.
pub open spec fn val(d: Seq<u32>) -> int
    decreases d.len(),
{
    if d.len() == 0 {
        0
    } else {
        d[0] + 0x1_0000_0000 * val(d.drop_first())
    }
}

/// `(2^32)^n`.
pub open spec fn base(n: int) -> int
    decreases n,
{
    if n <= 0 {
        1
    } else {
        0x1_0000_0000 * base(n - 1)
    }
}

pub proof fn lemma_val_nonneg(d: Seq<u32>)
    ensures
        val(d) >= 0,
    decreases d.len(),
{
    if d.len() > 0 {
        lemma_val_nonneg(d.drop_first());
    }
}

/// A prefix and the rest.
proof fn lemma_val_split(d: Seq<u32>, n: int)
    requires
        0 <= n <= d.len(),
    ensures
        val(d) == val(d.take(n)) + base(n) * val(d.skip(n)),
    decreases n,
{
    if n == 0 {
        assert(d.skip(0) == d);
        assert(1 * val(d) == val(d));
    } else {
        let t = d.drop_first();
        lemma_val_split(t, n - 1);
        assert(d.take(n).drop_first() == t.take(n - 1));
        assert(d.skip(n) == t.skip(n - 1));
        let b = base(n - 1);
        let v = val(d.skip(n));
        assert(0x1_0000_0000 * (b * v) == (0x1_0000_0000 * b) * v) by (nonlinear_arith);
    }
}

proof fn lemma_val_push(d: Seq<u32>, x: u32)
    ensures
        val(d.push(x)) == val(d) + base(d.len() as int) * x,
{
    let e = d.push(x);
    lemma_val_split(e, d.len() as int);
    assert(e.take(d.len() as int) == d);
    let s = e.skip(d.len() as int);
    assert(s.len() == 1 && s[0] == x);
    assert(val(s.drop_first()) == 0);
    assert(val(s) == x);
}

proof fn lemma_val_bound(d: Seq<u32>)
    ensures
        0 <= val(d) < base(d.len() as int),
    decreases d.len(),
{
    if d.len() > 0 {
        lemma_val_bound(d.drop_first());
    }
}

proof fn lemma_base_pos(n: int)
    ensures
        base(n) >= 1,
    decreases n,
{
    if n > 0 {
        lemma_base_pos(n - 1);
    }
}

/// `d = d * k + a`.
pub fn mul_add(d: &mut Vec<u32>, k: u32, a: u32)
    ensures
        val(final(d)@) == val(old(d)@) * k + a,
{
    let ghost d0 = d@;
    let n: usize = d.len();
    let mut carry: u64 = a as u64;
    let mut i: usize = 0;
    proof {
        assert(d0.take(0).len() == 0);
        assert(val(d0.take(0)) * k == 0);
        assert(base(0) * a == a);
    }
    while i < n
        invariant
            i <= n,
            n == d0.len(),
            d@.len() == n,
            carry <= 0xffff_ffff,
            forall|j: int| i <= j < n ==> d@[j] == d0[j],
            val(d@.take(i as int)) + base(i as int) * carry == val(d0.take(i as int)) * k + a,
        decreases n - i,
    {
        let ghost before = d@;
        let x: u32 = d[i];
        proof {
            let xi = x as int;
            let ki = k as int;
            assert(xi * ki <= 0xffff_ffff * 0xffff_ffff) by (nonlinear_arith)
                requires
                    0 <= xi <= 0xffff_ffff,
                    0 <= ki <= 0xffff_ffff,
            ;
        }
        let t: u64 = (x as u64) * (k as u64) + carry;
        let low: u32 = (t % 0x1_0000_0000) as u32;
        let ghost c0 = carry as int;
        carry = t / 0x1_0000_0000;
        d[i] = low;
        proof {
            let b = base(i as int);
            assert(d@.take(i + 1) == before.take(i as int).push(low));
            lemma_val_push(before.take(i as int), low);
            assert(d0.take(i + 1) == d0.take(i as int).push(x));
            lemma_val_push(d0.take(i as int), x);
            let c1 = carry as int;
            let (li, xi, ki, v0) = (low as int, x as int, k as int, val(d0.take(i as int)));
            assert(base(i + 1) == 0x1_0000_0000 * b);
            assert(b * li + (0x1_0000_0000 * b) * c1 == b * (xi * ki) + b * c0)
                by (nonlinear_arith)
                requires
                    xi * ki + c0 == li + 0x1_0000_0000 * c1,
            ;
            assert((v0 + b * xi) * ki == v0 * ki + b * (xi * ki)) by (nonlinear_arith);
            assert(carry <= 0xffff_ffff) by (nonlinear_arith)
                requires
                    c1 == carry,
                    li + 0x1_0000_0000 * c1 == xi * ki + c0,
                    li >= 0,
                    0 <= xi <= 0xffff_ffff,
                    0 <= ki <= 0xffff_ffff,
                    c0 <= 0xffff_ffff,
            ;
        }
        i = i + 1;
    }
    proof {
        assert(d@.take(n as int) == d@);
        assert(d0.take(n as int) == d0);
        lemma_val_push(d@, carry as u32);
        assert(base(n as int) * 0 == 0);
    }
    if carry != 0 {
        d.push(carry as u32);
    }
}

/// `a >= b`.
pub fn at_least(a: &Vec<u32>, b: &Vec<u32>) -> (r: bool)
    ensures
        r == (val(a@) >= val(b@)),
{
    let n: usize = if a.len() > b.len() {
        a.len()
    } else {
        b.len()
    };
    let mut i: usize = n;
    proof {
        assert(a@.skip(n as int).len() == 0 || a@.len() < n);
        lemma_pad(a@, n as int);
        lemma_pad(b@, n as int);
    }
    while i > 0
        invariant
            i <= n,
            a@.len() <= n,
            b@.len() <= n,
            tail(a@, i as int) == tail(b@, i as int),
        decreases i,
    {
        let x: u32 = if i - 1 < a.len() {
            a[i - 1]
        } else {
            0
        };
        let y: u32 = if i - 1 < b.len() {
            b[i - 1]
        } else {
            0
        };
        proof {
            lemma_tail_step(a@, i - 1);
            lemma_tail_step(b@, i - 1);
        }
        if x != y {
            proof {
                if x > y {
                    lemma_tail_decides(a@, b@, i - 1);
                } else {
                    lemma_tail_decides(b@, a@, i - 1);
                }
            }
            return x > y;
        }
        i = i - 1;
    }
    proof {
        assert(a@.skip(0) == a@);
        assert(b@.skip(0) == b@);
        lemma_tail_zero(a@);
        lemma_tail_zero(b@);
    }
    true
}

/// The digits from place `i` on, as a number.
spec fn tail(d: Seq<u32>, i: int) -> int {
    if i >= d.len() {
        0
    } else {
        val(d.skip(i))
    }
}

proof fn lemma_pad(d: Seq<u32>, n: int)
    requires
        n >= d.len(),
    ensures
        tail(d, n) == 0,
{
}

proof fn lemma_tail_zero(d: Seq<u32>)
    ensures
        tail(d, 0) == val(d),
{
    assert(d.skip(0) == d);
}

proof fn lemma_tail_step(d: Seq<u32>, i: int)
    requires
        i >= 0,
    ensures
        tail(d, i) == (if i < d.len() {
            d[i] as int
        } else {
            0
        }) + 0x1_0000_0000 * tail(d, i + 1),
{
    if i < d.len() {
        let s = d.skip(i);
        assert(s.drop_first() == d.skip(i + 1));
        assert(val(s) == s[0] + 0x1_0000_0000 * val(d.skip(i + 1)));
        if i + 1 >= d.len() {
            assert(d.skip(i + 1).len() == 0);
            assert(val(d.skip(i + 1)) == 0);
        }
    }
}

proof fn lemma_tail_decides(a: Seq<u32>, b: Seq<u32>, i: int)
    requires
        i >= 0,
        tail(a, i) > tail(b, i),
    ensures
        val(a) > val(b),
    decreases i,
{
    if i == 0 {
        lemma_tail_zero(a);
        lemma_tail_zero(b);
    } else {
        lemma_tail_step(a, i - 1);
        lemma_tail_step(b, i - 1);
        lemma_tail_decides(a, b, i - 1);
    }
}

/// `a = a - b`.
pub fn sub_assign(a: &mut Vec<u32>, b: &Vec<u32>)
    requires
        val(old(a)@) >= val(b@),
    ensures
        val(final(a)@) == val(old(a)@) - val(b@),
        final(a)@.len() == old(a)@.len(),
{
    let ghost a0 = a@;
    let n: usize = a.len();
    let mut borrow: u64 = 0;
    let mut i: usize = 0;
    proof {
        assert(a0.take(0).len() == 0);
    }
    while i < n
        invariant
            i <= n,
            n == a0.len(),
            a@.len() == n,
            borrow <= 1,
            forall|j: int| i <= j < n ==> a@[j] == a0[j],
            val(a@.take(i as int)) - base(i as int) * borrow == val(a0.take(i as int)) - val(
                head(b@, i as int),
            ),
        decreases n - i,
    {
        let ghost before = a@;
        let x: u64 = a[i] as u64;
        let y: u64 = if i < b.len() {
            b[i] as u64
        } else {
            0
        };
        let t: u64 = 0x1_0000_0000 + x - y - borrow;
        let low: u32 = (t % 0x1_0000_0000) as u32;
        let ghost c0 = borrow as int;
        borrow = if t >= 0x1_0000_0000 {
            0
        } else {
            1
        };
        a[i] = low;
        proof {
            let w = base(i as int);
            assert(a@.take(i + 1) == before.take(i as int).push(low));
            lemma_val_push(before.take(i as int), low);
            assert(a0.take(i + 1) == a0.take(i as int).push(x as u32));
            lemma_val_push(a0.take(i as int), x as u32);
            lemma_head_step(b@, i as int);
            let (li, xi, yi, c1) = (low as int, x as int, y as int, borrow as int);
            assert(base(i + 1) == 0x1_0000_0000 * w);
            assert(w * li - (0x1_0000_0000 * w) * c1 == w * xi - w * yi - w * c0)
                by (nonlinear_arith)
                requires
                    li - 0x1_0000_0000 * c1 == xi - yi - c0,
            ;
        }
        i = i + 1;
    }
    proof {
        assert(a@.take(n as int) == a@);
        assert(a0.take(n as int) == a0);
        lemma_head_rest(b@, n as int);
        lemma_val_bound(a@);
        lemma_val_bound(a0);
        lemma_base_pos(n as int);
        let w = base(n as int);
        let c = borrow as int;
        let h = val(head(b@, n as int));
        let rest = val(b@) - h;
        // what is left of b beyond the digits of a is zero, and so is the borrow
        assert(c == 0) by {
            if c == 1 {
                assert(w * c == w);
                assert(val(a@) == val(a0) - h + w);
                assert(false);
            }
        }
        assert(w * c == 0);
        lemma_rest_zero(b@, n as int, val(a0));
    }
}

/// The lowest `i` digits.
spec fn head(d: Seq<u32>, i: int) -> Seq<u32> {
    if i < d.len() {
        d.take(i)
    } else {
        d
    }
}

proof fn lemma_head_step(d: Seq<u32>, i: int)
    requires
        i >= 0,
    ensures
        val(head(d, i + 1)) == val(head(d, i)) + base(i) * (if i < d.len() {
            d[i] as int
        } else {
            0
        }),
{
    if i < d.len() {
        assert(head(d, i + 1) == d.take(i).push(d[i]));
        lemma_val_push(d.take(i), d[i]);
        assert(head(d, i) == d.take(i));
    } else {
        assert(base(i) * 0 == 0);
    }
}

proof fn lemma_head_rest(d: Seq<u32>, n: int)
    requires
        n >= 0,
    ensures
        val(head(d, n)) <= val(d),
{
    if n < d.len() {
        lemma_val_split(d, n);
        lemma_val_nonneg(d.skip(n));
        lemma_base_pos(n);
        let (b, v) = (base(n), val(d.skip(n)));
        assert(b * v >= 0) by (nonlinear_arith)
            requires
                b >= 1,
                v >= 0,
        ;
    }
}

proof fn lemma_rest_zero(d: Seq<u32>, n: int, bound: int)
    requires
        n >= 0,
        val(d) <= bound < base(n),
    ensures
        val(head(d, n)) == val(d),
{
    if n < d.len() {
        lemma_val_split(d, n);
        lemma_val_nonneg(d.skip(n));
        lemma_val_nonneg(d.take(n));
        lemma_base_pos(n);
        let (b, v) = (base(n), val(d.skip(n)));
        assert(v == 0) by (nonlinear_arith)
            requires
                b * v < b,
                b >= 1,
                v >= 0,
        ;
        assert(b * v == 0) by (nonlinear_arith)
            requires
                v == 0,
        ;
    }
}

} // verus!
