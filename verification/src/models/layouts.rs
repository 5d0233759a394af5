//! Where the samples of a medium end up.
use vstd::prelude::*;

use crate::models::gemma4::audio;
use crate::models::gemma4::encode;
use crate::models::gemma4::encode::Grid;
use crate::models::gemma4::image;
use crate::models::gemma4::image::SizeError;
use crate::models::gemma4::pool::Pooling;
use crate::models::gemma4::subsample;
use crate::models::gemma4::subsample::Planes;
use crate::models::towers;
use crate::ieee::Format;

verus! {

/// The frames of a clip, half a frame of silence in front, are as many as fit:
/// the last one ends within the samples, and another would not.
pub proof fn law_frames_are_as_many_as_fit(samples: int)
    requires
        samples >= 160,
    ensures
        ({
            let n = audio::frames(samples);
            let padded = 160 + (if samples <= 480320 {
                samples
            } else {
                480320
            });
            160 * (n - 1) + 320 <= padded < 160 * n + 320
        }),
{
}

/// A soft token stands for four frames, the last one for what is left, up to
/// 750.
pub proof fn law_tokens_stand_for_four_frames(n: int)
    requires
        n >= 1,
    ensures
        n <= 3000 ==> 4 * (audio::tokens(n) - 1) < n <= 4 * audio::tokens(n),
        n >= 3000 ==> audio::tokens(n) == 750,
{
}

/// Every patch has the position of its pixels: the patch that a pixel unfolds
/// into stands in the column and the line of that pixel's square.
pub proof fn law_patches_stand_where_their_pixels_are(g: Grid, c: int, y: int, x: int)
    requires
        0 <= c < 3,
        0 <= y < g.h * 16,
        0 <= x < g.w * 16,
    ensures
        ({
            let p = encode::unfolded(g, c, y, x) / 768;
            encode::column(g, p) == x / 16 && encode::line(g, p) == y / 16
        }),
{
    let w = g.w as int;
    let row = (y / 16) * w + x / 16;
    let r = ((y % 16) * 16 + x % 16) * 3 + c;
    assert(0 <= r < 768);
    vstd::arithmetic::div_mod::lemma_fundamental_div_mod_converse(row * 768 + r, 768, row, r);
    vstd::arithmetic::div_mod::lemma_fundamental_div_mod_converse(row, w, y / 16, x / 16);
}

/// Windows tile the grid: the patch in column `x` and line `y` is in the window
/// of its own square, windows row by row, patches row by row within.
pub proof fn law_windows_tile_the_grid(p: &Pooling, y: int, x: int)
    requires
        p.wf(),
        0 <= y < p.down() * p.k,
        0 <= x < p.across() * p.k,
    ensures
        ({
            let k = p.k as int;
            let (t, m) = ((y / k) * p.across() + x / k, (y % k) * k + x % k);
            &&& 0 <= t < p.tokens()
            &&& 0 <= m < k * k
            &&& p.patch(t, m) == y * p.grid.w + x
        }),
{
    let (k, a, d) = (p.k as int, p.across(), p.down());
    vstd::arithmetic::div_mod::lemma_fundamental_div_mod(y, k);
    vstd::arithmetic::div_mod::lemma_fundamental_div_mod(x, k);
    vstd::arithmetic::div_mod::lemma_mod_bound(y, k);
    vstd::arithmetic::div_mod::lemma_mod_bound(x, k);
    vstd::arithmetic::div_mod::lemma_div_pos_is_pos(y, k);
    vstd::arithmetic::div_mod::lemma_div_pos_is_pos(x, k);
    let (ty, tx, dy, dx) = (y / k, x / k, y % k, x % k);
    assert(ty < d) by (nonlinear_arith)
        requires
            y == k * ty + dy,
            y < d * k,
            dy >= 0,
            k >= 1,
    ;
    assert(tx < a) by (nonlinear_arith)
        requires
            x == k * tx + dx,
            x < a * k,
            dx >= 0,
            k >= 1,
    ;
    let (t, m) = (ty * a + tx, dy * k + dx);
    assert(0 <= t && t + 1 <= a * d) by (nonlinear_arith)
        requires
            t == ty * a + tx,
            0 <= ty <= d - 1,
            0 <= tx <= a - 1,
    ;
    assert(0 <= m && m + 1 <= k * k) by (nonlinear_arith)
        requires
            m == dy * k + dx,
            0 <= dy <= k - 1,
            0 <= dx <= k - 1,
    ;
    vstd::arithmetic::div_mod::lemma_fundamental_div_mod_converse(t, a, ty, tx);
    vstd::arithmetic::div_mod::lemma_fundamental_div_mod_converse(m, k, dy, dx);
    assert(ty * k + dy == y && tx * k + dx == x) by (nonlinear_arith)
        requires
            y == k * ty + dy,
            x == k * tx + dx,
    ;
}

/// What a pooled feature is: the mean of its window, patch after patch, times
/// the root of the width, less the bias and times the scale where the tower has
/// them.
pub proof fn law_features_are_scaled_means(p: &Pooling, x: Seq<u16>, t: int, c: int, m: int)
    requires
        m >= 0,
    ensures
        p.total(x, t, c, 0) == 0,
        p.total(x, t, c, m + 1) == Format::F32.sum(
            p.total(x, t, c, m),
            Format::F16.convert(Format::F32, x[p.patch(t, m) * p.h + c] as int),
        ),
        ({
            let f = Format::F32;
            let mean = f.product(
                p.total(x, t, c, p.k * p.k),
                f.quotient(f.root(f.of_int(p.h as int)), f.of_int(p.k * p.k)),
            );
            p.feature(x, t, c) == match p.affine {
                Some(a) => f.product(f.difference(mean, a.bias@[c] as int), a.scale@[c] as int),
                None => mean,
            }
        }),
{
}

/// A convolution reads the three by three places around twice its own, channel
/// by channel, and nothing outside the plane.
pub proof fn law_taps_read_around_their_place(
    s: Planes,
    x: Seq<u32>,
    w: Seq<u32>,
    o: int,
    ty: int,
    tx: int,
    i: int,
    ky: int,
    kx: int,
)
    requires
        0 <= i,
        0 <= ky < 3,
        0 <= kx < 3,
    ensures
        ({
            let (y, z) = (2 * ty + ky - 1, 2 * tx + kx - 1);
            subsample::tap(s, x, w, o, ty, tx, 9 * i + 3 * ky + kx) == (if 0 <= y < s.t && 0 <= z
                < s.f {
                Some(
                    Format::F32.product(
                        w[((o * s.ch + i) * 3 + ky) * 3 + kx] as int,
                        x[(i * s.t + y) * s.f + z] as int,
                    ),
                )
            } else {
                None
            })
        }),
{
    let m = 9 * i + 3 * ky + kx;
    assert(m / 9 == i && m % 9 / 3 == ky && m % 3 == kx);
    assert(o * (s.ch * 9) + m == ((o * s.ch + i) * 3 + ky) * 3 + kx) by (nonlinear_arith)
        requires
            m == 9 * i + 3 * ky + kx,
    ;
}

/// A convolution has half the frames and half the bins, rounded up, and its
/// values stand plane by plane; all taps of a value are added up in order.
pub proof fn law_convolutions_halve_both_sides(
    s: Planes,
    x: Seq<u32>,
    w: Seq<u32>,
    oc: usize,
    o: int,
    ty: int,
    tx: int,
    m: int,
)
    requires
        0 <= o < oc,
        0 <= ty,
        0 <= tx,
        2 * ty < s.t,
        2 * tx < s.f,
        m >= 0,
    ensures
        ({
            let d = s.halved(oc);
            let at = (o * d.t + ty) * d.f + tx;
            &&& ty < d.t
            &&& tx < d.f
            &&& 2 * d.t <= s.t + 1
            &&& 2 * d.f <= s.f + 1
            &&& 0 <= at < subsample::convolved(s, x, w, oc).len()
            &&& subsample::convolved(s, x, w, oc)[at] == subsample::taps(
                s,
                x,
                w,
                o,
                ty,
                tx,
                s.ch * 9,
            ) as u32
        }),
        subsample::taps(s, x, w, o, ty, tx, 0) == 0,
        subsample::taps(s, x, w, o, ty, tx, m + 1) == (match subsample::tap(s, x, w, o, ty, tx, m) {
            Some(v) => Format::F32.sum(subsample::taps(s, x, w, o, ty, tx, m), v),
            None => subsample::taps(s, x, w, o, ty, tx, m),
        }),
{
    let d = s.halved(oc);
    let (t, f) = (d.t as int, d.f as int);
    let area = t * f;
    let p = ty * f + tx;
    assert(0 <= p && p + 1 <= area) by (nonlinear_arith)
        requires
            p == ty * f + tx,
            area == t * f,
            0 <= ty <= t - 1,
            0 <= tx <= f - 1,
    ;
    let at = (o * t + ty) * f + tx;
    assert(at == o * area + p) by (nonlinear_arith)
        requires
            at == (o * t + ty) * f + tx,
            area == t * f,
            p == ty * f + tx,
    ;
    assert(0 <= o * area && o * area + area <= oc * area) by (nonlinear_arith)
        requires
            0 <= o <= oc - 1,
            area >= 0,
    ;
    vstd::arithmetic::div_mod::lemma_fundamental_div_mod_converse(at, area, o, p);
    vstd::arithmetic::div_mod::lemma_fundamental_div_mod_converse(p, f, ty, tx);
}

/// The norm of a stage is taken over the channels of each place alone: where
/// two stacks of planes agree on all channels of a place, so do their normed
/// values there, whatever stands elsewhere. Nothing below zero is left.
pub proof fn law_norms_are_of_one_place(
    y: Seq<u32>,
    z: Seq<u32>,
    oc: int,
    area: int,
    ln: Seq<u32>,
    eps: u32,
    o: int,
    p: int,
)
    requires
        0 <= o < oc,
        0 <= p < area,
        y.len() == oc * area,
        z.len() == oc * area,
        forall|n: int| 0 <= n < oc ==> #[trigger] y[n * area + p] == z[n * area + p],
    ensures
        0 <= o * area + p < oc * area,
        subsample::normed(y, oc, area, ln, eps)[o * area + p] == subsample::normed(
            z,
            oc,
            area,
            ln,
            eps,
        )[o * area + p],
        forall|v: int| !Format::F32.less(#[trigger] subsample::rectified(v), 0),
        forall|v: int|
            Format::F32.less(0, v) ==> #[trigger] subsample::rectified(v) == v,
{
    assert(0 <= o * area && o * area + area <= oc * area) by (nonlinear_arith)
        requires
            0 <= o <= oc - 1,
            area >= 0,
    ;
    vstd::arithmetic::div_mod::lemma_fundamental_div_mod_converse(o * area + p, area, o, p);
    lemma_same_channels(y, z, area, p, oc);
    let m = subsample::mean(y, oc, area, p);
    lemma_same_spread(y, z, area, p, m, oc);
}

proof fn lemma_same_channels(y: Seq<u32>, z: Seq<u32>, area: int, p: int, n: int)
    requires
        forall|k: int| 0 <= k < n ==> #[trigger] y[k * area + p] == z[k * area + p],
    ensures
        subsample::channel_sum(y, area, p, n) == subsample::channel_sum(z, area, p, n),
    decreases n,
{
    if n > 0 {
        lemma_same_channels(y, z, area, p, n - 1);
        assert(y[(n - 1) * area + p] == z[(n - 1) * area + p]);
    }
}

proof fn lemma_same_spread(y: Seq<u32>, z: Seq<u32>, area: int, p: int, m: int, n: int)
    requires
        forall|k: int| 0 <= k < n ==> #[trigger] y[k * area + p] == z[k * area + p],
    ensures
        subsample::spread(y, area, p, m, n) == subsample::spread(z, area, p, m, n),
    decreases n,
{
    if n > 0 {
        lemma_same_spread(y, z, area, p, m, n - 1);
        assert(y[(n - 1) * area + p] == z[(n - 1) * area + p]);
    }
}

/// An image unfolds patch by patch, row by row, and a patch plane by plane:
/// the pixel of channel `c` at `(x, y)` lands in the patch of its square, at
/// its place within.
pub proof fn law_images_unfold_by_patches(p: int, gw: int, height: int, width: int, c: int, y: int, x: int)
    requires
        p >= 1,
        0 <= c < 3,
        0 <= y < height,
        0 <= x < gw * p,
        gw >= 1,
    ensures
        towers::encode::pixel(
            p,
            gw,
            height,
            width,
            ((y / p) * gw + x / p) * (3 * p * p) + (c * (p * p) + (y % p) * p + x % p),
        ) == (c * height + y) * width + x,
{
    let pp = p * p;
    let pd = 3 * p * p;
    assert(pd == 3 * pp && pp >= 1) by (nonlinear_arith)
        requires
            pd == 3 * p * p,
            pp == p * p,
            p >= 1,
    ;
    vstd::arithmetic::div_mod::lemma_fundamental_div_mod(y, p);
    vstd::arithmetic::div_mod::lemma_fundamental_div_mod(x, p);
    vstd::arithmetic::div_mod::lemma_mod_bound(y, p);
    vstd::arithmetic::div_mod::lemma_mod_bound(x, p);
    vstd::arithmetic::div_mod::lemma_div_pos_is_pos(y, p);
    vstd::arithmetic::div_mod::lemma_div_pos_is_pos(x, p);
    let (gy, gx, dy, dx) = (y / p, x / p, y % p, x % p);
    assert(gx < gw) by (nonlinear_arith)
        requires
            x == p * gx + dx,
            x < gw * p,
            dx >= 0,
            p >= 1,
    ;
    let yx = dy * p + dx;
    assert(0 <= yx && yx + 1 <= pp) by (nonlinear_arith)
        requires
            yx == dy * p + dx,
            pp == p * p,
            0 <= dy <= p - 1,
            0 <= dx <= p - 1,
    ;
    let r = c * pp + yx;
    assert(0 <= r < pd) by (nonlinear_arith)
        requires
            r == c * pp + yx,
            pd == 3 * pp,
            0 <= c <= 2,
            0 <= yx < pp,
    ;
    let row = gy * gw + gx;
    let k = row * pd + r;
    assert(c * (p * p) + dy * p + dx == r);
    vstd::arithmetic::div_mod::lemma_fundamental_div_mod_converse(k, pd, row, r);
    vstd::arithmetic::div_mod::lemma_fundamental_div_mod_converse(row, gw, gy, gx);
    vstd::arithmetic::div_mod::lemma_fundamental_div_mod_converse(r, pp, c, yx);
    vstd::arithmetic::div_mod::lemma_fundamental_div_mod_converse(yx, p, dy, dx);
    assert(gy * p + dy == y && gx * p + dx == x) by (nonlinear_arith)
        requires
            y == p * gy + dy,
            x == p * gx + dx,
    ;
}

/// A row of unfolded frames holds, channel by channel, the three frames around
/// the row's own; outside the clip there is silence.
pub proof fn law_rows_hold_three_frames(
    x: Seq<u16>,
    frames: int,
    ch: int,
    stride: int,
    rows: int,
    t: int,
    c: int,
    k: int,
)
    requires
        0 <= t < rows,
        0 <= c < ch,
        0 <= k < 3,
    ensures
        ({
            let at = t * (3 * ch) + 3 * c + k;
            let s = stride * t + k - 1;
            let u = towers::encode::unfolded(x, frames, ch, stride, rows);
            &&& 0 <= at < u.len()
            &&& u[at] == (if 0 <= s < frames {
                x[s * ch + c]
            } else {
                0
            })
        }),
{
    let w = ch * 3;
    let r = 3 * c + k;
    let at = t * (3 * ch) + 3 * c + k;
    assert(at == t * w + r) by (nonlinear_arith)
        requires
            at == t * (3 * ch) + 3 * c + k,
            w == ch * 3,
            r == 3 * c + k,
    ;
    assert(0 <= t * w && t * w + w <= rows * w) by (nonlinear_arith)
        requires
            0 <= t <= rows - 1,
            w >= 0,
    ;
    vstd::arithmetic::div_mod::lemma_fundamental_div_mod_converse(at, w, t, r);
    assert(r / 3 == c && r % 3 == k);
    assert(stride * t == t * stride) by (nonlinear_arith);
}

/// The size of an image turns with it: what a wide image becomes, a high one of
/// the same sides becomes on its side.
pub proof fn law_sizes_turn_with_the_image(w: int, h: int)
    requires
        w >= 0,
        h >= 0,
    ensures
        match image::target(w, h) {
            Ok((a, b)) => image::target(h, w) == Ok::<(int, int), SizeError>((b, a)),
            Err(e) => image::target(h, w) == Err::<(int, int), SizeError>(e),
        },
{
    assert(w * h == h * w) by (nonlinear_arith);
    if w > 0 && h > 0 {
        let f = image::stretch(w, h);
        assert(f == image::stretch(h, w));
        let (th, tw) = (image::stretched(f, h), image::stretched(f, w));
        if th != 0 || tw != 0 {
            let (a, b) = if th == 0 {
                (48, image::clamped(w / h * 48))
            } else if tw == 0 {
                (image::clamped(h / w * 48), 48)
            } else {
                (th, tw)
            };
            let (x, y) = (a / 16, b / 16);
            assert(x * y == y * x) by (nonlinear_arith);
        }
    }
}

} // verus!
