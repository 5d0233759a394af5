//! The subsampling of log-mel frames: two strided convolutions, each with a
//! norm over channels and a rectifier, then rows in frequency-major order.
use vstd::prelude::*;

use crate::ieee::Format;
use crate::num::{f32_add, f32_div, f32_lt, f32_mul, f32_sub};

verus! {

/// A stack of planes: `ch` channels of `t` frames of `f` bins.
#[derive(Clone, Copy, PartialEq, Eq, Debug, Structural)]
pub struct Planes {
    pub ch: usize,
    pub t: usize,
    pub f: usize,
}

pub open spec fn half_up(n: int) -> int {
    (n + 1) / 2
}

impl Planes {
    pub open spec fn size(&self) -> int {
        self.ch * (self.t * self.f)
    }

    /// The planes after a convolution to `oc` channels.
    pub open spec fn halved(&self, oc: usize) -> Planes {
        Planes { ch: oc, t: half_up(self.t as int) as usize, f: half_up(self.f as int) as usize }
    }
}

/// Tap `m` of output `o` at frame `ty`, bin `tx`: nothing outside the plane.
pub open spec fn tap(s: Planes, x: Seq<u32>, w: Seq<u32>, o: int, ty: int, tx: int, m: int) -> Option<
    int,
> {
    let (i, ky, kx) = (m / 9, m % 9 / 3, m % 3);
    let (sy, sx) = (ty * 2 + ky - 1, tx * 2 + kx - 1);
    if 0 <= sy < s.t && 0 <= sx < s.f {
        Some(
            Format::F32.product(
                w[o * (s.ch * 9) + m] as int,
                x[(i * s.t + sy) * s.f + sx] as int,
            ),
        )
    } else {
        None
    }
}

/// The sum of the first `m` taps.
pub open spec fn taps(s: Planes, x: Seq<u32>, w: Seq<u32>, o: int, ty: int, tx: int, m: int) -> int
    decreases m,
{
    if m <= 0 {
        0
    } else {
        let before = taps(s, x, w, o, ty, tx, m - 1);
        match tap(s, x, w, o, ty, tx, m - 1) {
            Some(v) => Format::F32.sum(before, v),
            None => before,
        }
    }
}

/// The convolution, plane by plane.
pub open spec fn convolved(s: Planes, x: Seq<u32>, w: Seq<u32>, oc: usize) -> Seq<u32> {
    let d = s.halved(oc);
    Seq::new(
        d.size() as nat,
        |j: int|
            {
                let area = d.t * d.f;
                taps(
                    s,
                    x,
                    w,
                    j / area,
                    j % area / d.f as int,
                    j % area % d.f as int,
                    (s.ch * 9) as int,
                ) as u32
            },
    )
}

/// The sum over the first `n` channels at place `p` of a plane.
pub open spec fn channel_sum(y: Seq<u32>, area: int, p: int, n: int) -> int
    decreases n,
{
    if n <= 0 {
        0
    } else {
        Format::F32.sum(channel_sum(y, area, p, n - 1), y[(n - 1) * area + p] as int)
    }
}

pub open spec fn mean(y: Seq<u32>, oc: int, area: int, p: int) -> int {
    Format::F32.quotient(channel_sum(y, area, p, oc), Format::F32.of_int(oc))
}

/// The sum of squared differences from `m` over the first `n` channels.
pub open spec fn spread(y: Seq<u32>, area: int, p: int, m: int, n: int) -> int
    decreases n,
{
    if n <= 0 {
        0
    } else {
        let d = Format::F32.difference(y[(n - 1) * area + p] as int, m);
        Format::F32.sum(spread(y, area, p, m, n - 1), Format::F32.product(d, d))
    }
}

/// One over the standard deviation at place `p`.
pub open spec fn inverse(y: Seq<u32>, oc: int, area: int, p: int, eps: int) -> int {
    Format::F32.quotient(
        0x3f80_0000,
        Format::F32.root(
            Format::F32.sum(
                Format::F32.quotient(
                    spread(y, area, p, mean(y, oc, area, p), oc),
                    Format::F32.of_int(oc),
                ),
                eps,
            ),
        ),
    )
}

pub open spec fn rectified(v: int) -> int {
    if Format::F32.less(0, v) {
        v
    } else {
        0
    }
}

/// Normed over channels, weighted and rectified.
pub open spec fn normed(y: Seq<u32>, oc: int, area: int, ln: Seq<u32>, eps: u32) -> Seq<u32> {
    Seq::new(
        (oc * area) as nat,
        |j: int|
            {
                let (o, p) = (j / area, j % area);
                rectified(
                    Format::F32.product(
                        Format::F32.product(
                            Format::F32.difference(y[j] as int, mean(y, oc, area, p)),
                            inverse(y, oc, area, p, eps as int),
                        ),
                        ln[o] as int,
                    ),
                ) as u32
            },
    )
}

/// One stage.
pub open spec fn stage(s: Planes, x: Seq<u32>, w: Seq<u32>, ln: Seq<u32>, oc: usize, eps: u32) -> Seq<
    u32,
> {
    let d = s.halved(oc);
    normed(convolved(s, x, w, oc), oc as int, (d.t * d.f) as int, ln, eps)
}

/// Rows of frames, bins before channels.
pub open spec fn flattened(d: Planes, y: Seq<u32>) -> Seq<u32> {
    Seq::new(
        d.size() as nat,
        |k: int|
            {
                let (t, r) = (k / (d.f * d.ch), k % (d.f * d.ch));
                y[((r % d.ch as int) * d.t + t) * d.f + r / d.ch as int]
            },
    )
}

fn tap_sum(s: Planes, x: &Vec<u32>, w: &Vec<u32>, o: usize, ty: usize, tx: usize) -> (r: u32)
    requires
        s.ch * 9 <= usize::MAX,
        s.size() <= x@.len(),
        (o + 1) * (s.ch * 9) <= w@.len(),
        2 * ty + 2 <= usize::MAX,
        2 * tx + 2 <= usize::MAX,
    ensures
        r == taps(s, x@, w@, o as int, ty as int, tx as int, (s.ch * 9) as int),
{
    let n: usize = s.ch * 9;
    let mut acc: u32 = 0;
    let mut m: usize = 0;
    while m < n
        invariant
            m <= n,
            n == s.ch * 9,
            s.size() <= x@.len(),
            (o + 1) * n <= w@.len(),
            2 * ty + 2 <= usize::MAX,
            2 * tx + 2 <= usize::MAX,
            acc == taps(s, x@, w@, o as int, ty as int, tx as int, m as int),
        decreases n - m,
    {
        let i: usize = m / 9;
        let ky: usize = m % 9 / 3;
        let kx: usize = m % 3;
        let y1: usize = ty * 2 + ky;
        let x1: usize = tx * 2 + kx;
        if y1 >= 1 && y1 - 1 < s.t && x1 >= 1 && x1 - 1 < s.f {
            let sy: usize = y1 - 1;
            let sx: usize = x1 - 1;
            proof {
                lemma_plane(s, i as int, sy as int, sx as int);
                let (a, b) = (o as int, n as int);
                assert(0 <= a * b && (a + 1) * b == a * b + b) by (nonlinear_arith)
                    requires
                        a >= 0,
                        b >= 0,
                ;
                assert(o * (s.ch * 9) == o * n);
                assert(w@.len() <= usize::MAX) by {
                    assert(w.len() == w@.len());
                }
                assert(x@.len() <= usize::MAX) by {
                    assert(x.len() == x@.len());
                }
            }
            acc = f32_add(acc, f32_mul(w[o * n + m], x[(i * s.t + sy) * s.f + sx]));
        }
        m = m + 1;
    }
    acc
}

proof fn lemma_plane(s: Planes, i: int, y: int, x: int)
    requires
        0 <= i < s.ch,
        0 <= y < s.t,
        0 <= x < s.f,
    ensures
        0 <= i * s.t,
        0 <= (i * s.t + y) * s.f,
        (i * s.t + y) * s.f + x < s.size(),
        i * s.t + y <= s.size(),
        i * s.t <= s.size(),
{
    let (c, t, f) = (s.ch as int, s.t as int, s.f as int);
    let line = i * t + y;
    assert(0 <= i * t && line + 1 <= c * t) by (nonlinear_arith)
        requires
            line == i * t + y,
            0 <= i <= c - 1,
            0 <= y <= t - 1,
    ;
    let ct = c * t;
    assert(0 <= line * f && line * f + f <= ct * f && line <= line * f) by (nonlinear_arith)
        requires
            0 <= line <= ct - 1,
            f >= 1,
    ;
    assert(c * t * f == c * (t * f)) by (nonlinear_arith);
}

proof fn lemma_split(oc: int, t: int, f: int, j: int)
    requires
        0 <= j < oc * (t * f),
        t >= 0,
        f >= 0,
        oc >= 0,
    ensures
        t >= 1,
        f >= 1,
        0 <= j / (t * f) < oc,
        0 <= j % (t * f) < t * f,
        0 <= j % (t * f) / f < t,
        0 <= j % (t * f) % f < f,
{
    let area = t * f;
    assert(area > 0 && t >= 1 && f >= 1) by (nonlinear_arith)
        requires
            area == t * f,
            0 <= j < oc * area,
            oc >= 0,
            t >= 0,
            f >= 0,
    ;
    let (o, p) = (j / area, j % area);
    vstd::arithmetic::div_mod::lemma_fundamental_div_mod(j, area);
    vstd::arithmetic::div_mod::lemma_mod_bound(j, area);
    vstd::arithmetic::div_mod::lemma_div_pos_is_pos(j, area);
    assert(o < oc) by (nonlinear_arith)
        requires
            j == area * o + p,
            j < oc * area,
            p >= 0,
            area > 0,
    ;
    vstd::arithmetic::div_mod::lemma_fundamental_div_mod(p, f);
    vstd::arithmetic::div_mod::lemma_mod_bound(p, f);
    vstd::arithmetic::div_mod::lemma_div_pos_is_pos(p, f);
    let (ty, tx) = (p / f, p % f);
    assert(ty < t) by (nonlinear_arith)
        requires
            p == f * ty + tx,
            p < t * f,
            tx >= 0,
            f >= 1,
    ;
}

/// The sizes of a stage are machine numbers.
pub open spec fn stage_sized(s: Planes, oc: usize) -> bool {
    &&& s.t <= 0xffff
    &&& s.f <= 0xffff
    &&& s.ch * 9 <= usize::MAX
    &&& s.halved(oc).size() <= usize::MAX
}

fn convolve(s: Planes, x: &Vec<u32>, w: &Vec<u32>, oc: usize, d: Planes) -> (r: Vec<u32>)
    requires
        stage_sized(s, oc),
        d == s.halved(oc),
        s.size() <= x@.len(),
        oc * (s.ch * 9) <= w@.len(),
    ensures
        r@ == convolved(s, x@, w@, oc),
{
    let ghost f = |j: int|
        {
            let area = d.t * d.f;
            taps(
                s,
                x@,
                w@,
                j / area,
                j % area / d.f as int,
                j % area % d.f as int,
                (s.ch * 9) as int,
            ) as u32
        };
    assert(d.t * d.f <= 0x1_0000 * 0x1_0000 - 1) by (nonlinear_arith)
        requires
            0 <= d.t <= 0x8000,
            0 <= d.f <= 0x8000,
    ;
    let area: usize = d.t * d.f;
    let n: usize = oc * area;
    let mut out: Vec<u32> = Vec::new();
    let mut j: usize = 0;
    assert(out@ =~= Seq::new(0, f));
    while j < n
        invariant
            j <= n,
            n == oc * area,
            area == d.t * d.f,
            stage_sized(s, oc),
            d == s.halved(oc),
            s.size() <= x@.len(),
            oc * (s.ch * 9) <= w@.len(),
            f == (|j: int|
                {
                    let area = d.t * d.f;
                    taps(
                        s,
                        x@,
                        w@,
                        j / area,
                        j % area / d.f as int,
                        j % area % d.f as int,
                        (s.ch * 9) as int,
                    ) as u32
                }),
            out@ == Seq::new(j as nat, f),
        decreases n - j,
    {
        proof {
            lemma_split(oc as int, d.t as int, d.f as int, j as int);
        }
        let o: usize = j / area;
        let p: usize = j % area;
        proof {
            let (a, b, k) = (o as int, oc as int, s.ch * 9);
            assert((a + 1) * k <= b * k) by (nonlinear_arith)
                requires
                    a + 1 <= b,
                    k >= 0,
            ;
        }
        out.push(tap_sum(s, x, w, o, p / d.f, p % d.f));
        j = j + 1;
        assert(out@ =~= Seq::new(j as nat, f));
    }
    out
}

proof fn lemma_column(oc: int, area: int, n: int, p: int)
    requires
        0 <= n < oc,
        0 <= p < area,
    ensures
        0 <= n * area,
        n * area + p < oc * area,
{
    assert(0 <= n * area && n * area + area <= oc * area) by (nonlinear_arith)
        requires
            0 <= n <= oc - 1,
            area >= 0,
    ;
}

fn statistics(y: &Vec<u32>, oc: usize, area: usize, p: usize, eps: u32) -> (r: (u32, u32))
    requires
        y@.len() == oc * area,
        p < area,
    ensures
        r.0 == mean(y@, oc as int, area as int, p as int),
        r.1 == inverse(y@, oc as int, area as int, p as int, eps as int),
{
    assert(y.len() == y@.len());
    let n: u32 = Format::F32.from_u64(oc as u64) as u32;
    let mut acc: u32 = 0;
    let mut o: usize = 0;
    while o < oc
        invariant
            o <= oc,
            p < area,
            y@.len() == oc * area,
            y.len() == y@.len(),
            acc == channel_sum(y@, area as int, p as int, o as int),
        decreases oc - o,
    {
        proof {
            lemma_column(oc as int, area as int, o as int, p as int);
        }
        acc = f32_add(acc, y[o * area + p]);
        o = o + 1;
    }
    let m: u32 = f32_div(acc, n);
    let mut var: u32 = 0;
    o = 0;
    while o < oc
        invariant
            o <= oc,
            p < area,
            y@.len() == oc * area,
            y.len() == y@.len(),
            var == spread(y@, area as int, p as int, m as int, o as int),
        decreases oc - o,
    {
        proof {
            lemma_column(oc as int, area as int, o as int, p as int);
        }
        let d: u32 = f32_sub(y[o * area + p], m);
        var = f32_add(var, f32_mul(d, d));
        o = o + 1;
    }
    let root: u64 = Format::F32.square_root(f32_add(f32_div(var, n), eps) as u64);
    (m, f32_div(0x3f80_0000, root as u32))
}

fn normalize(y: &Vec<u32>, oc: usize, area: usize, ln: &Vec<u32>, eps: u32) -> (r: Vec<u32>)
    requires
        y@.len() == oc * area,
        ln@.len() == oc,
    ensures
        r@ == normed(y@, oc as int, area as int, ln@, eps),
{
    let mut stats: Vec<(u32, u32)> = Vec::new();
    let mut p: usize = 0;
    while p < area
        invariant
            p <= area,
            y@.len() == oc * area,
            stats@.len() == p,
            forall|q: int|
                0 <= q < p ==> (#[trigger] stats@[q]).0 == mean(y@, oc as int, area as int, q)
                    && stats@[q].1 == inverse(y@, oc as int, area as int, q, eps as int),
        decreases area - p,
    {
        stats.push(statistics(y, oc, area, p, eps));
        p = p + 1;
    }
    let mut out: Vec<u32> = Vec::new();
    let mut j: usize = 0;
    while j < y.len()
        invariant
            j <= y@.len(),
            y@.len() == oc * area,
            ln@.len() == oc,
            stats@.len() == area,
            forall|q: int|
                0 <= q < area ==> (#[trigger] stats@[q]).0 == mean(y@, oc as int, area as int, q)
                    && stats@[q].1 == inverse(y@, oc as int, area as int, q, eps as int),
            out@.len() == j,
            forall|i: int|
                0 <= i < j ==> #[trigger] out@[i] == normed(
                    y@,
                    oc as int,
                    area as int,
                    ln@,
                    eps,
                )[i],
        decreases y@.len() - j,
    {
        proof {
            assert(1 * area == area);
            lemma_split(oc as int, 1, area as int, j as int);
        }
        let o: usize = j / area;
        let p: usize = j % area;
        let st: (u32, u32) = stats[p];
        assert(st == stats@[p as int]);
        let v: u32 = f32_mul(f32_mul(f32_sub(y[j], st.0), st.1), ln[o]);
        let u: u32 = if f32_lt(0, v) {
            v
        } else {
            0
        };
        assert(u == normed(y@, oc as int, area as int, ln@, eps)[j as int]);
        out.push(u);
        j = j + 1;
    }
    assert(out@ =~= normed(y@, oc as int, area as int, ln@, eps));
    out
}

fn run_stage(s: Planes, x: &Vec<u32>, w: &Vec<u32>, ln: &Vec<u32>, oc: usize, eps: u32, d: Planes) -> (r:
    Vec<u32>)
    requires
        stage_sized(s, oc),
        d == s.halved(oc),
        s.size() <= x@.len(),
        oc * (s.ch * 9) <= w@.len(),
        ln@.len() == oc,
    ensures
        r@ == stage(s, x@, w@, ln@, oc, eps),
        r@.len() == d.size(),
{
    let y: Vec<u32> = convolve(s, x, w, oc, d);
    proof {
        let (a, b, c) = (oc as int, d.t as int, d.f as int);
        assert(b * c >= 0 && a * (b * c) >= 0) by (nonlinear_arith)
            requires
                a >= 0,
                b >= 0,
                c >= 0,
        ;
    }
    assert(d.t * d.f <= 0x1_0000 * 0x1_0000 - 1) by (nonlinear_arith)
        requires
            0 <= d.t <= 0x8000,
            0 <= d.f <= 0x8000,
    ;
    normalize(&y, oc, d.t * d.f, ln, eps)
}

/// The kernels and norm weights of both stages.
pub struct Subsampler {
    pub conv0: Vec<u32>,
    pub norm0: Vec<u32>,
    pub conv1: Vec<u32>,
    pub norm1: Vec<u32>,
    pub ch: (usize, usize),
    pub eps: u32,
}

impl Subsampler {
    pub open spec fn wf(&self) -> bool {
        &&& self.conv0@.len() >= self.ch.0 * 9
        &&& self.norm0@.len() == self.ch.0
        &&& self.conv1@.len() >= self.ch.1 * (self.ch.0 * 9)
        &&& self.norm1@.len() == self.ch.1
    }

    pub open spec fn first(&self, frames: usize, mels: usize) -> Planes {
        (Planes { ch: 1, t: frames, f: mels }).halved(self.ch.0)
    }

    pub open spec fn second(&self, frames: usize, mels: usize) -> Planes {
        self.first(frames, mels).halved(self.ch.1)
    }

    pub open spec fn sized(&self, frames: usize, mels: usize) -> bool {
        &&& stage_sized(Planes { ch: 1, t: frames, f: mels }, self.ch.0)
        &&& stage_sized(self.first(frames, mels), self.ch.1)
    }

    /// Subsamples `frames` frames of `mels` bins.
    pub fn subsample(&self, mel: &Vec<u32>, frames: usize, mels: usize) -> (r: Vec<u32>)
        requires
            self.wf(),
            self.sized(frames, mels),
            mel@.len() == frames * mels,
        ensures
            ({
                let s0 = Planes { ch: 1, t: frames, f: mels };
                let s1 = self.first(frames, mels);
                let h1 = stage(s0, mel@, self.conv0@, self.norm0@, self.ch.0, self.eps);
                let h2 = stage(s1, h1, self.conv1@, self.norm1@, self.ch.1, self.eps);
                r@ == flattened(self.second(frames, mels), h2)
            }),
    {
        let s0: Planes = Planes { ch: 1, t: frames, f: mels };
        let s1: Planes = Planes { ch: self.ch.0, t: (frames + 1) / 2, f: (mels + 1) / 2 };
        let s2: Planes = Planes { ch: self.ch.1, t: (s1.t + 1) / 2, f: (s1.f + 1) / 2 };
        assert(s0.size() == frames * mels);
        assert(self.ch.0 * (s0.ch * 9) == self.ch.0 * 9);
        let h1: Vec<u32> = run_stage(
            s0,
            mel,
            &self.conv0,
            &self.norm0,
            self.ch.0,
            self.eps,
            s1,
        );
        let h2: Vec<u32> = run_stage(
            s1,
            &h1,
            &self.conv1,
            &self.norm1,
            self.ch.1,
            self.eps,
            s2,
        );
        flatten(s2, &h2)
    }
}

fn flatten(d: Planes, y: &Vec<u32>) -> (r: Vec<u32>)
    requires
        y@.len() == d.size(),
    ensures
        r@ == flattened(d, y@),
{
    let mut out: Vec<u32> = Vec::new();
    let mut k: usize = 0;
    while k < y.len()
        invariant
            k <= y@.len(),
            y@.len() == d.size(),
            y.len() == y@.len(),
            out@.len() == k,
            forall|i: int| 0 <= i < k ==> #[trigger] out@[i] == flattened(d, y@)[i],
        decreases y@.len() - k,
    {
        proof {
            lemma_flat(d, k as int);
        }
        let w: usize = d.f * d.ch;
        let t: usize = k / w;
        let r: usize = k % w;
        let at: usize = ((r % d.ch) * d.t + t) * d.f + r / d.ch;
        assert(y@[at as int] == flattened(d, y@)[k as int]);
        out.push(y[at]);
        k = k + 1;
    }
    assert(out@ =~= flattened(d, y@));
    out
}

proof fn lemma_flat(d: Planes, k: int)
    requires
        0 <= k < d.size(),
    ensures
        ({
            let w = d.f * d.ch;
            let (t, r) = (k / w, k % w);
            &&& 1 <= w <= d.size()
            &&& d.ch >= 1
            &&& 0 <= r % d.ch as int
            &&& 0 <= (r % d.ch as int) * d.t <= d.size()
            &&& 0 <= (r % d.ch as int) * d.t + t <= d.size()
            &&& 0 <= ((r % d.ch as int) * d.t + t) * d.f
            &&& ((r % d.ch as int) * d.t + t) * d.f + (r / d.ch as int) < d.size()
        }),
{
    let (c, tt, f) = (d.ch as int, d.t as int, d.f as int);
    let w = f * c;
    assert(tt * w == c * (tt * f)) by (nonlinear_arith)
        requires
            w == f * c,
    ;
    assert(c >= 1 && f >= 1 && tt >= 1 && w >= 1) by (nonlinear_arith)
        requires
            0 <= k < c * (tt * f),
            w == f * c,
            c >= 0,
            tt >= 0,
            f >= 0,
    ;
    assert(w <= tt * w) by (nonlinear_arith)
        requires
            tt >= 1,
            w >= 1,
    ;
    let (t, r) = (k / w, k % w);
    vstd::arithmetic::div_mod::lemma_fundamental_div_mod(k, w);
    vstd::arithmetic::div_mod::lemma_mod_bound(k, w);
    vstd::arithmetic::div_mod::lemma_div_pos_is_pos(k, w);
    assert(t < tt) by (nonlinear_arith)
        requires
            k == w * t + r,
            k < tt * w,
            r >= 0,
            w >= 1,
    ;
    let (b, ch) = (r / c, r % c);
    vstd::arithmetic::div_mod::lemma_fundamental_div_mod(r, c);
    vstd::arithmetic::div_mod::lemma_mod_bound(r, c);
    vstd::arithmetic::div_mod::lemma_div_pos_is_pos(r, c);
    assert(b < f) by (nonlinear_arith)
        requires
            r == c * b + ch,
            r < f * c,
            ch >= 0,
            c >= 1,
    ;
    lemma_plane(d, ch, t, b);
}

/// Flattening keeps every value: channel `ch` of frame `t` and bin `f` is in
/// row `t`, after all channels of the bins before `f`.
pub proof fn law_rows_are_frequency_major(d: Planes, y: Seq<u32>, t: int, f: int, ch: int)
    requires
        0 <= t < d.t,
        0 <= f < d.f,
        0 <= ch < d.ch,
    ensures
        0 <= t * (d.f * d.ch) + (f * d.ch + ch) < d.size(),
        flattened(d, y)[t * (d.f * d.ch) + (f * d.ch + ch)] == y[(ch * d.t + t) * d.f + f],
{
    let (c, tt, ff) = (d.ch as int, d.t as int, d.f as int);
    let w = ff * c;
    let r = f * c + ch;
    assert(0 <= r && r + 1 <= w) by (nonlinear_arith)
        requires
            r == f * c + ch,
            w == ff * c,
            0 <= f <= ff - 1,
            0 <= ch <= c - 1,
    ;
    let k = t * w + r;
    assert(0 <= k && k + 1 <= tt * w) by (nonlinear_arith)
        requires
            k == t * w + r,
            0 <= t <= tt - 1,
            0 <= r <= w - 1,
    ;
    assert(tt * w == c * (tt * ff)) by (nonlinear_arith)
        requires
            w == ff * c,
    ;
    vstd::arithmetic::div_mod::lemma_fundamental_div_mod_converse(k, w, t, r);
    vstd::arithmetic::div_mod::lemma_fundamental_div_mod_converse(r, c, f, ch);
}

} // verus!
