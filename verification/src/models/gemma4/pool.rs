//! The pooling of encoded patches: averages over square windows, optional
//! standardization, and a norm without weight, in the precisions that keep the
//! range.
use vstd::prelude::*;

use crate::ieee::Format;
use crate::models::gemma4::encode::Grid;
use crate::models::gemma4::feed;
use crate::models::gemma4::feed::square_root_of;
use crate::num::{f16_to_f32, f32_add, f32_div, f32_mul, f32_sub, f32_to_f16};

verus! {

/// Bias and scale of the pooled features, per channel.
pub struct Affine {
    pub bias: Vec<u32>,
    pub scale: Vec<u32>,
}

/// What pooling works on: `h` channels of the patches of a grid, in windows of
/// `k` by `k`.
pub struct Pooling {
    pub grid: Grid,
    pub h: usize,
    pub k: usize,
    pub rms_eps: u32,
    pub affine: Option<Affine>,
}

/// A wider view of a single.
pub open spec fn wide(b: int) -> int {
    Format::F32.convert(Format::F64, b)
}

impl Pooling {
    pub open spec fn across(&self) -> int {
        self.grid.w as int / self.k as int
    }

    pub open spec fn down(&self) -> int {
        self.grid.h as int / self.k as int
    }

    /// Rows that pooling yields.
    pub open spec fn tokens(&self) -> int {
        self.across() * self.down()
    }

    /// Each window is whole, and every size is a machine number.
    pub open spec fn wf(&self) -> bool {
        &&& self.k >= 1
        &&& self.k * self.k <= 0xffff
        &&& self.h * 8192 <= usize::MAX
        &&& self.grid.w * self.grid.h <= 2520
        &&& self.affine matches Some(a) ==> a.bias@.len() == self.h && a.scale@.len() == self.h
    }

    /// Patch `m` of the window of token `t`.
    pub open spec fn patch(&self, t: int, m: int) -> int {
        let (ty, tx) = (t / self.across(), t % self.across());
        let (dy, dx) = (m / self.k as int, m % self.k as int);
        (ty * self.k + dy) * self.grid.w + (tx * self.k + dx)
    }

    /// The sum of channel `c` over the first `m` patches of a window.
    pub open spec fn total(&self, x: Seq<u16>, t: int, c: int, m: int) -> int
        decreases m,
    {
        if m <= 0 {
            0
        } else {
            Format::F32.sum(
                self.total(x, t, c, m - 1),
                Format::F16.convert(Format::F32, x[self.patch(t, m - 1) * self.h + c] as int),
            )
        }
    }

    /// What a sum is multiplied by.
    pub open spec fn factor(&self) -> int {
        Format::F32.quotient(
            feed::root_of(self.h as int),
            Format::F32.of_int((self.k * self.k) as int),
        )
    }

    /// The feature of token `t` and channel `c`.
    pub open spec fn feature(&self, x: Seq<u16>, t: int, c: int) -> int {
        let v = Format::F32.product(
            self.total(x, t, c, (self.k * self.k) as int),
            self.factor(),
        );
        match self.affine {
            Some(a) => Format::F32.product(
                Format::F32.difference(v, a.bias@[c] as int),
                a.scale@[c] as int,
            ),
            None => v,
        }
    }

    /// The sum of squares of the first `c` features of token `t`.
    pub open spec fn squares(&self, x: Seq<u16>, t: int, c: int) -> int
        decreases c,
    {
        if c <= 0 {
            0
        } else {
            let v = wide(self.feature(x, t, c - 1));
            Format::F64.sum(self.squares(x, t, c - 1), Format::F64.product(v, v))
        }
    }

    /// One over the root mean square of token `t`.
    pub open spec fn inverse(&self, x: Seq<u16>, t: int) -> int {
        Format::F64.quotient(
            0x3ff0_0000_0000_0000,
            Format::F64.root(
                Format::F64.sum(
                    Format::F64.quotient(
                        self.squares(x, t, self.h as int),
                        Format::F64.of_int(self.h as int),
                    ),
                    wide(self.rms_eps as int),
                ),
            ),
        )
    }

    /// The pooled element of token `t` and channel `c`.
    pub open spec fn pooled(&self, x: Seq<u16>, t: int, c: int) -> int {
        Format::F32.convert(
            Format::F16,
            Format::F64.convert(
                Format::F32,
                Format::F64.product(wide(self.feature(x, t, c)), self.inverse(x, t)),
            ),
        )
    }

    proof fn lemma_patch(&self, t: int, m: int)
        requires
            self.wf(),
            0 <= t < self.tokens(),
            0 <= m < self.k * self.k,
        ensures
            self.across() >= 1,
            0 <= t / self.across() < self.down(),
            0 <= t % self.across() < self.across(),
            0 <= (t / self.across()) * self.k + (m / self.k as int) < self.grid.h,
            0 <= (t % self.across()) * self.k + (m % self.k as int) < self.grid.w,
            0 <= self.patch(t, m) < self.grid.w * self.grid.h,
            0 <= ((t / self.across()) * self.k + m / self.k as int) * self.grid.w,
    {
        let (k, w, h) = (self.k as int, self.grid.w as int, self.grid.h as int);
        let (a, d) = (self.across(), self.down());
        vstd::arithmetic::div_mod::lemma_fundamental_div_mod(w, k);
        vstd::arithmetic::div_mod::lemma_fundamental_div_mod(h, k);
        vstd::arithmetic::div_mod::lemma_mod_bound(w, k);
        vstd::arithmetic::div_mod::lemma_mod_bound(h, k);
        vstd::arithmetic::div_mod::lemma_div_pos_is_pos(w, k);
        vstd::arithmetic::div_mod::lemma_div_pos_is_pos(h, k);
        assert(a >= 1 && d >= 1) by (nonlinear_arith)
            requires
                a >= 0,
                d >= 0,
                0 <= t < a * d,
        ;
        let (ty, tx) = (t / a, t % a);
        vstd::arithmetic::div_mod::lemma_fundamental_div_mod(t, a);
        vstd::arithmetic::div_mod::lemma_mod_bound(t, a);
        vstd::arithmetic::div_mod::lemma_div_pos_is_pos(t, a);
        assert(ty < d) by (nonlinear_arith)
            requires
                t == a * ty + tx,
                t < a * d,
                tx >= 0,
                a >= 1,
        ;
        let (dy, dx) = (m / k, m % k);
        vstd::arithmetic::div_mod::lemma_fundamental_div_mod(m, k);
        vstd::arithmetic::div_mod::lemma_mod_bound(m, k);
        vstd::arithmetic::div_mod::lemma_div_pos_is_pos(m, k);
        assert(dy < k) by (nonlinear_arith)
            requires
                m == k * dy + dx,
                m < k * k,
                dx >= 0,
                k >= 1,
        ;
        let (y, x) = (ty * k + dy, tx * k + dx);
        assert(0 <= y && y + 1 <= h) by (nonlinear_arith)
            requires
                y == ty * k + dy,
                0 <= ty <= d - 1,
                0 <= dy <= k - 1,
                k * d <= h,
                k >= 1,
        ;
        assert(0 <= x && x + 1 <= w) by (nonlinear_arith)
            requires
                x == tx * k + dx,
                0 <= tx <= a - 1,
                0 <= dx <= k - 1,
                k * a <= w,
                k >= 1,
        ;
        assert(0 <= y * w && y * w + w <= w * h) by (nonlinear_arith)
            requires
                0 <= y <= h - 1,
                w >= 1,
        ;
    }

    proof fn lemma_element(&self, p: int, c: int, n: int)
        requires
            self.wf(),
            0 <= p < n <= 2520,
            0 <= c < self.h,
        ensures
            0 <= p * self.h,
            p * self.h + c < n * self.h <= usize::MAX,
    {
        let h = self.h as int;
        assert(0 <= p * h && p * h + h <= n * h && n * h <= 2520 * h) by (nonlinear_arith)
            requires
                0 <= p <= n - 1,
                n <= 2520,
                h >= 0,
        ;
    }

    fn sum_of(&self, x: &[u16], t: usize, c: usize) -> (r: u32)
        requires
            self.wf(),
            x@.len() == self.grid.w * self.grid.h * self.h,
            t < self.tokens(),
            c < self.h,
        ensures
            r == self.total(x@, t as int, c as int, (self.k * self.k) as int),
    {
        let kk: usize = self.k * self.k;
        let across: usize = self.grid.w / self.k;
        let mut acc: u32 = 0;
        let mut m: usize = 0;
        while m < kk
            invariant
                m <= kk,
                kk == self.k * self.k,
                self.wf(),
                across == self.across(),
                x@.len() == self.grid.w * self.grid.h * self.h,
                t < self.tokens(),
                c < self.h,
                acc == self.total(x@, t as int, c as int, m as int),
            decreases kk - m,
        {
            proof {
                self.lemma_patch(t as int, m as int);
                self.lemma_element(
                    self.patch(t as int, m as int),
                    c as int,
                    (self.grid.w * self.grid.h) as int,
                );
            }
            let y: usize = (t / across) * self.k + m / self.k;
            let p: usize = y * self.grid.w + ((t % across) * self.k + m % self.k);
            assert(p == self.patch(t as int, m as int));
            acc = f32_add(acc, f16_to_f32(x[p * self.h + c]));
            m = m + 1;
        }
        acc
    }

    fn features_of(&self, x: &[u16], t: usize, factor: u32) -> (r: Vec<u32>)
        requires
            self.wf(),
            x@.len() == self.grid.w * self.grid.h * self.h,
            t < self.tokens(),
            factor == self.factor(),
        ensures
            r@.len() == self.h,
            forall|c: int| 0 <= c < self.h ==> #[trigger] r@[c] == self.feature(x@, t as int, c),
    {
        let mut out: Vec<u32> = Vec::new();
        let mut c: usize = 0;
        while c < self.h
            invariant
                c <= self.h,
                self.wf(),
                x@.len() == self.grid.w * self.grid.h * self.h,
                t < self.tokens(),
                factor == self.factor(),
                out@.len() == c,
                forall|i: int|
                    0 <= i < c ==> #[trigger] out@[i] == self.feature(x@, t as int, i),
            decreases self.h - c,
        {
            let v: u32 = f32_mul(self.sum_of(x, t, c), factor);
            let u: u32 = match &self.affine {
                Some(a) => f32_mul(f32_sub(v, a.bias[c]), a.scale[c]),
                None => v,
            };
            out.push(u);
            c = c + 1;
        }
        out
    }

    fn inverse_of(&self, f: &Vec<u32>, Ghost(x): Ghost<Seq<u16>>, Ghost(t): Ghost<int>) -> (r: u64)
        requires
            f@.len() == self.h,
            forall|c: int| 0 <= c < self.h ==> #[trigger] f@[c] == self.feature(x, t, c),
        ensures
            r == self.inverse(x, t),
            Format::F64.holds(r as int),
    {
        let mut ssq: u64 = 0;
        let mut c: usize = 0;
        while c < self.h
            invariant
                c <= self.h,
                f@.len() == self.h,
                forall|i: int| 0 <= i < self.h ==> #[trigger] f@[i] == self.feature(x, t, i),
                ssq == self.squares(x, t, c as int),
                Format::F64.holds(ssq as int),
            decreases self.h - c,
        {
            let v: u64 = Format::F32.to_format(Format::F64, f[c] as u64);
            ssq = Format::F64.plus(ssq, Format::F64.multiply(v, v));
            c = c + 1;
        }
        let mean: u64 = Format::F64.divide(ssq, Format::F64.from_u64(self.h as u64));
        let eps: u64 = Format::F32.to_format(Format::F64, self.rms_eps as u64);
        Format::F64.divide(
            0x3ff0_0000_0000_0000,
            Format::F64.square_root(Format::F64.plus(mean, eps)),
        )
    }

    /// Pools encoded patches. Token by token, channel by channel.
    pub fn pool(&self, x: &[u16]) -> (r: Vec<u16>)
        requires
            self.wf(),
            x@.len() == self.grid.w * self.grid.h * self.h,
        ensures
            r@.len() == self.tokens() * self.h,
            forall|t: int, c: int|
                #![trigger self.pooled(x@, t, c)]
                0 <= t < self.tokens() && 0 <= c < self.h ==> r@[t * self.h + c] == self.pooled(
                    x@,
                    t,
                    c,
                ),
    {
        proof {
            self.lemma_tokens();
        }
        let n: usize = (self.grid.w / self.k) * (self.grid.h / self.k);
        let factor: u32 = f32_div(
            square_root_of(self.h),
            Format::F32.from_u64((self.k * self.k) as u64) as u32,
        );
        let mut out: Vec<u16> = Vec::new();
        let mut t: usize = 0;
        while t < n
            invariant
                t <= n,
                n == self.tokens(),
                self.wf(),
                x@.len() == self.grid.w * self.grid.h * self.h,
                factor == self.factor(),
                out@.len() == t * self.h,
                forall|i: int, c: int|
                    #![trigger self.pooled(x@, i, c)]
                    0 <= i < t && 0 <= c < self.h ==> out@[i * self.h + c] == self.pooled(x@, i, c),
            decreases n - t,
        {
            let ghost before = out@;
            let f: Vec<u32> = self.features_of(x, t, factor);
            let inv: u64 = self.inverse_of(&f, Ghost(x@), Ghost(t as int));
            let mut c: usize = 0;
            while c < self.h
                invariant
                    c <= self.h,
                    f@.len() == self.h,
                    inv == self.inverse(x@, t as int),
                    Format::F64.holds(inv as int),
                    forall|i: int|
                        0 <= i < self.h ==> #[trigger] f@[i] == self.feature(x@, t as int, i),
                    before.len() == t * self.h,
                    out@.len() == before.len() + c,
                    forall|i: int| 0 <= i < before.len() ==> #[trigger] out@[i] == before[i],
                    forall|i: int|
                        #![trigger self.pooled(x@, t as int, i)]
                        0 <= i < c ==> out@[before.len() + i] == self.pooled(x@, t as int, i),
                decreases self.h - c,
            {
                let v: u64 = Format::F32.to_format(Format::F64, f[c] as u64);
                let u: u64 = Format::F64.to_format(Format::F32, Format::F64.multiply(v, inv));
                out.push(f32_to_f16(u as u32));
                c = c + 1;
            }
            proof {
                let h = self.h as int;
                assert((t + 1) * h == t * h + h) by (nonlinear_arith);
                assert forall|i: int, c: int|
                    #![trigger self.pooled(x@, i, c)]
                    0 <= i < t + 1 && 0 <= c < h implies out@[i * h + c] == self.pooled(
                    x@,
                    i,
                    c,
                ) by {
                    if i < t {
                        assert(0 <= i * h && i * h + c < t * h) by (nonlinear_arith)
                            requires
                                0 <= i < t,
                                0 <= c < h,
                        ;
                        assert(before[i * h + c] == self.pooled(x@, i, c));
                    }
                }
            }
            t = t + 1;
        }
        out
    }

    proof fn lemma_tokens(&self)
        requires
            self.wf(),
        ensures
            0 <= self.across(),
            0 <= self.down(),
            0 <= self.tokens() <= 2520,
    {
        let (k, w, h) = (self.k as int, self.grid.w as int, self.grid.h as int);
        vstd::arithmetic::div_mod::lemma_div_pos_is_pos(w, k);
        vstd::arithmetic::div_mod::lemma_div_pos_is_pos(h, k);
        vstd::arithmetic::div_mod::lemma_div_nonincreasing(w, k);
        vstd::arithmetic::div_mod::lemma_div_nonincreasing(h, k);
        let (a, d) = (w / k, h / k);
        assert(0 <= a * d <= w * h) by (nonlinear_arith)
            requires
                0 <= a <= w,
                0 <= d <= h,
        ;
    }

    /// No window reads beyond the grid, and no patch belongs to two windows.
    pub proof fn law_windows_are_disjoint(&self, t: int, m: int, u: int, n: int)
        requires
            self.wf(),
            0 <= t < self.tokens(),
            0 <= u < self.tokens(),
            0 <= m < self.k * self.k,
            0 <= n < self.k * self.k,
            self.patch(t, m) == self.patch(u, n),
        ensures
            0 <= self.patch(t, m) < self.grid.w * self.grid.h,
            t == u && m == n,
    {
        self.lemma_patch(t, m);
        self.lemma_patch(u, n);
        let (k, w, a) = (self.k as int, self.grid.w as int, self.across());
        let (y1, x1) = ((t / a) * k + m / k, (t % a) * k + m % k);
        let (y2, x2) = ((u / a) * k + n / k, (u % a) * k + n % k);
        let p = self.patch(t, m);
        vstd::arithmetic::div_mod::lemma_fundamental_div_mod_converse(p, w, y1, x1);
        vstd::arithmetic::div_mod::lemma_fundamental_div_mod_converse(p, w, y2, x2);
        vstd::arithmetic::div_mod::lemma_fundamental_div_mod(m, k);
        vstd::arithmetic::div_mod::lemma_fundamental_div_mod(n, k);
        vstd::arithmetic::div_mod::lemma_mod_bound(m, k);
        vstd::arithmetic::div_mod::lemma_mod_bound(n, k);
        vstd::arithmetic::div_mod::lemma_div_pos_is_pos(m, k);
        vstd::arithmetic::div_mod::lemma_div_pos_is_pos(n, k);
        assert(m / k < k) by (nonlinear_arith)
            requires
                m == k * (m / k) + m % k,
                m < k * k,
                m % k >= 0,
                k >= 1,
        ;
        assert(n / k < k) by (nonlinear_arith)
            requires
                n == k * (n / k) + n % k,
                n < k * k,
                n % k >= 0,
                k >= 1,
        ;
        vstd::arithmetic::div_mod::lemma_fundamental_div_mod_converse(y1, k, t / a, m / k);
        vstd::arithmetic::div_mod::lemma_fundamental_div_mod_converse(y2, k, u / a, n / k);
        vstd::arithmetic::div_mod::lemma_fundamental_div_mod_converse(x1, k, t % a, m % k);
        vstd::arithmetic::div_mod::lemma_fundamental_div_mod_converse(x2, k, u % a, n % k);
        vstd::arithmetic::div_mod::lemma_fundamental_div_mod(t, a);
        vstd::arithmetic::div_mod::lemma_fundamental_div_mod(u, a);
    }
}

/// Halfs at infinity, and at the largest finite magnitude.
pub open spec fn exhausted(x: Seq<u16>, n: int) -> (int, int)
    decreases n,
{
    if n <= 0 {
        (0, 0)
    } else {
        let (a, b) = exhausted(x, n - 1);
        let m = Format::F16.mag(x[n - 1] as int);
        if m == 0x7c00 {
            (a + 1, b)
        } else if m >= 0x7bff {
            (a, b + 1)
        } else {
            (a, b)
        }
    }
}

/// Counts activations whose range is exhausted; not-a-number counts with the
/// largest magnitude.
pub fn count_exhausted(x: &[u16]) -> (r: (usize, usize))
    ensures
        r.0 == exhausted(x@, x@.len() as int).0,
        r.1 == exhausted(x@, x@.len() as int).1,
{
    let mut a: usize = 0;
    let mut b: usize = 0;
    let mut i: usize = 0;
    while i < x.len()
        invariant
            i <= x@.len(),
            x@.len() == x.len(),
            a + b <= i,
            a == exhausted(x@, i as int).0,
            b == exhausted(x@, i as int).1,
        decreases x@.len() - i,
    {
        let m: u64 = Format::F16.magnitude(x[i] as u64);
        if m == 0x7c00 {
            a = a + 1;
        } else if m >= 0x7bff {
            b = b + 1;
        }
        i = i + 1;
    }
    (a, b)
}

} // verus!
