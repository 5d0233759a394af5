//! Encoding an image: the grid of patches and the layout of their pixels.
use vstd::prelude::*;

use crate::ieee::Format;
use crate::media::ImageTensor;
use crate::models::gemma4::image::{G4_MAX_PATCHES, G4_SIDE_MULT};
use crate::num::f32_to_f16;

verus! {

/// Why an image is not encoded.
#[derive(Clone, Copy, PartialEq, Eq, Debug, Structural)]
pub enum VisionError {
    /// There are not three channels, or a side is no multiple of 48.
    Sides,
    TooManyPatches { grid_w: usize, grid_h: usize },
    /// The grid is wider or higher than the position table.
    PositionTable { rows: usize },
}

/// Patches of an image, across and down.
#[derive(Clone, Copy, PartialEq, Eq, Debug, Structural)]
pub struct Grid {
    pub w: usize,
    pub h: usize,
}

pub open spec fn grid_outcome(
    channels: int,
    height: int,
    width: int,
    table: int,
) -> Result<Grid, VisionError> {
    let g = Grid { w: (width / 16) as usize, h: (height / 16) as usize };
    if channels != 3 || height % 48 != 0 || width % 48 != 0 {
        Err(VisionError::Sides)
    } else if g.w * g.h > G4_MAX_PATCHES {
        Err(VisionError::TooManyPatches { grid_w: g.w, grid_h: g.h })
    } else if g.w > table || g.h > table {
        Err(VisionError::PositionTable { rows: table as usize })
    } else {
        Ok(g)
    }
}

/// The grid of an image that the tower takes.
pub fn grid_of(img: &ImageTensor, table: usize) -> (r: Result<Grid, VisionError>)
    requires
        img.height * img.width <= usize::MAX,
    ensures
        r == grid_outcome(
            img.channels as int,
            img.height as int,
            img.width as int,
            table as int,
        ),
{
    if img.channels != 3 || img.height % G4_SIDE_MULT != 0 || img.width % G4_SIDE_MULT != 0 {
        return Err(VisionError::Sides);
    }
    let w: usize = img.width / 16;
    let h: usize = img.height / 16;
    assert(w * h <= img.height * img.width) by (nonlinear_arith)
        requires
            0 <= w <= img.width,
            0 <= h <= img.height,
    ;
    if w * h > G4_MAX_PATCHES {
        return Err(VisionError::TooManyPatches { grid_w: w, grid_h: h });
    }
    if w > table || h > table {
        return Err(VisionError::PositionTable { rows: table });
    }
    Ok(Grid { w, h })
}

/// The column of patch `p`.
pub open spec fn column(g: Grid, p: int) -> int {
    p % g.w as int
}

/// The line of patch `p`.
pub open spec fn line(g: Grid, p: int) -> int {
    p / g.w as int
}

/// The column and the row of every patch, row by row.
pub fn positions(g: Grid) -> (r: (Vec<u32>, Vec<u32>))
    requires
        g.w * g.h <= G4_MAX_PATCHES,
    ensures
        r.0@ == Seq::new((g.w * g.h) as nat, |p: int| column(g, p) as u32),
        r.1@ == Seq::new((g.w * g.h) as nat, |p: int| line(g, p) as u32),
{
    let n: usize = g.w * g.h;
    let mut xs: Vec<u32> = Vec::new();
    let mut ys: Vec<u32> = Vec::new();
    let mut p: usize = 0;
    while p < n
        invariant
            p <= n <= G4_MAX_PATCHES,
            n == g.w * g.h,
            xs@ == Seq::new(p as nat, |k: int| column(g, k) as u32),
            ys@ == Seq::new(p as nat, |k: int| line(g, k) as u32),
        decreases n - p,
    {
        assert(g.w > 0) by (nonlinear_arith)
            requires
                g.w >= 0,
                g.h >= 0,
                p < g.w * g.h,
                p >= 0,
        ;
        proof {
            vstd::arithmetic::div_mod::lemma_div_nonincreasing(p as int, g.w as int);
            vstd::arithmetic::div_mod::lemma_mod_decreases(p as nat, g.w as nat);
        }
        xs.push((p % g.w) as u32);
        ys.push((p / g.w) as u32);
        p = p + 1;
        assert(xs@ =~= Seq::new(p as nat, |k: int| column(g, k) as u32));
        assert(ys@ =~= Seq::new(p as nat, |k: int| line(g, k) as u32));
    }
    (xs, ys)
}

/// The pixel that unfolds to place `k`: patches row by row, inside a patch
/// pixel by pixel with the channel last.
pub open spec fn pixel(g: Grid, k: int) -> int {
    let (row, r) = (k / 768, k % 768);
    let (py, px) = (row / g.w as int, row % g.w as int);
    let (dy, dx, c) = (r / 48, r % 48 / 3, r % 3);
    (c * (g.h * 16) + (py * 16 + dy)) * (g.w * 16) + (px * 16 + dx)
}

/// Where the pixel of channel `c` at `(x, y)` unfolds to.
pub open spec fn unfolded(g: Grid, c: int, y: int, x: int) -> int {
    ((y / 16) * g.w + x / 16) * 768 + ((y % 16) * 16 + x % 16) * 3 + c
}

/// Every pixel lands in its patch, once, at its place.
pub proof fn law_unfolding_keeps_every_pixel(g: Grid, c: int, y: int, x: int)
    requires
        0 <= c < 3,
        0 <= y < g.h * 16,
        0 <= x < g.w * 16,
    ensures
        0 <= unfolded(g, c, y, x) < g.w * g.h * 768,
        pixel(g, unfolded(g, c, y, x)) == (c * (g.h * 16) + y) * (g.w * 16) + x,
{
    let w = g.w as int;
    let row = (y / 16) * w + x / 16;
    let r = ((y % 16) * 16 + x % 16) * 3 + c;
    assert(0 <= x / 16 < w);
    assert(0 <= y / 16 < g.h);
    assert(0 <= r < 768);
    assert(0 <= row && row + 1 <= w * g.h) by (nonlinear_arith)
        requires
            row == (y / 16) * w + x / 16,
            0 <= x / 16 < w,
            0 <= y / 16 <= g.h - 1,
    ;
    let k = row * 768 + r;
    vstd::arithmetic::div_mod::lemma_fundamental_div_mod_converse(k, 768, row, r);
    vstd::arithmetic::div_mod::lemma_fundamental_div_mod_converse(row, w, y / 16, x / 16);
    assert(r / 48 == y % 16);
    assert(r % 48 / 3 == x % 16);
    assert(r % 3 == c);
    assert((y / 16) * 16 + y % 16 == y);
    assert((x / 16) * 16 + x % 16 == x);
}

proof fn lemma_pixel_range(g: Grid, k: int)
    requires
        0 <= k < g.w * g.h * 768,
    ensures
        0 <= pixel(g, k) < 3 * (g.h * 16) * (g.w * 16),
{
    let (w, h) = (g.w as int, g.h as int);
    let (row, r) = (k / 768, k % 768);
    let n = w * h;
    assert(0 <= row < n);
    assert(w > 0 && h > 0) by (nonlinear_arith)
        requires
            n == w * h,
            n > 0,
            w >= 0,
            h >= 0,
    ;
    let (py, px) = (row / w, row % w);
    vstd::arithmetic::div_mod::lemma_fundamental_div_mod(row, w);
    vstd::arithmetic::div_mod::lemma_mod_bound(row, w);
    vstd::arithmetic::div_mod::lemma_div_pos_is_pos(row, w);
    assert(py < h) by (nonlinear_arith)
        requires
            row == w * py + px,
            row < w * h,
            0 <= px,
            w > 0,
    ;
    let (dy, dx, c) = (r / 48, r % 48 / 3, r % 3);
    let (hh, ww) = (h * 16, w * 16);
    let y = py * 16 + dy;
    let x = px * 16 + dx;
    assert(0 <= y < hh && 0 <= x < ww && 0 <= c <= 2);
    let line = c * hh + y;
    assert(0 <= line && line <= 3 * hh - 1) by (nonlinear_arith)
        requires
            line == c * hh + y,
            0 <= c <= 2,
            0 <= y <= hh - 1,
    ;
    assert(0 <= line * ww && line * ww + ww <= 3 * hh * ww) by (nonlinear_arith)
        requires
            0 <= line <= 3 * hh - 1,
            ww > 0,
    ;
}

/// The patches as rows of half-precision pixels.
pub fn unfold(img: &ImageTensor, g: Grid) -> (r: Vec<u16>)
    requires
        img.wf(),
        img.channels == 3,
        img.height == g.h * 16,
        img.width == g.w * 16,
        g.w * g.h <= G4_MAX_PATCHES,
    ensures
        r@ == Seq::new(
            (g.w * g.h * 768) as nat,
            |k: int| Format::F32.convert(Format::F16, img.data@[pixel(g, k)] as int) as u16,
        ),
{
    let n: usize = g.w * g.h;
    let total: usize = n * 768;
    let ghost f = |k: int|
        Format::F32.convert(Format::F16, img.data@[pixel(g, k)] as int) as u16;
    let mut out: Vec<u16> = Vec::new();
    let mut k: usize = 0;
    assert(out@ =~= Seq::new(0, f));
    while k < total
        invariant
            k <= total,
            total == g.w * g.h * 768,
            total <= 2520 * 768,
            img.wf(),
            img.channels == 3,
            img.height == g.h * 16,
            img.width == g.w * 16,
            f == (|k: int|
                Format::F32.convert(Format::F16, img.data@[pixel(g, k)] as int) as u16),
            out@ == Seq::new(k as nat, f),
        decreases total - k,
    {
        proof {
            lemma_pixel_range(g, k as int);
            lemma_pixel_steps(g, k as int);
        }
        let row: usize = k / 768;
        let r: usize = k % 768;
        let py: usize = row / g.w;
        let px: usize = row % g.w;
        let at: usize = ((r % 3) * img.height + (py * 16 + r / 48)) * img.width + (px * 16 + r % 48
            / 3);
        assert(at == pixel(g, k as int));
        out.push(f32_to_f16(img.data[at]));
        k = k + 1;
        assert(out@ =~= Seq::new(k as nat, f));
    }
    out
}

proof fn lemma_pixel_steps(g: Grid, k: int)
    requires
        0 <= k < g.w * g.h * 768,
        g.w * g.h * 768 <= 2520 * 768,
    ensures
        g.w > 0,
        ({
            let (row, r) = (k / 768, k % 768);
            let (py, px) = (row / g.w as int, row % g.w as int);
            let line = r % 3 * (g.h * 16) + (py * 16 + r / 48);
            &&& 0 <= py * 16 <= 2520 * 16
            &&& 0 <= px * 16 <= 2520 * 16
            &&& 0 <= r % 3 * (g.h * 16) <= 2 * 2520 * 16
            &&& 0 <= line * (g.w * 16) <= 3 * 2520 * 256 + 2520 * 16
        }),
{
    lemma_pixel_range(g, k);
    let (w, h) = (g.w as int, g.h as int);
    let n = w * h;
    assert(w > 0 && h > 0 && w <= n && h <= n) by (nonlinear_arith)
        requires
            n == w * h,
            n > 0,
            w >= 0,
            h >= 0,
    ;
    let (row, r) = (k / 768, k % 768);
    let (py, px) = (row / w, row % w);
    vstd::arithmetic::div_mod::lemma_fundamental_div_mod(row, w);
    vstd::arithmetic::div_mod::lemma_mod_bound(row, w);
    vstd::arithmetic::div_mod::lemma_div_pos_is_pos(row, w);
    vstd::arithmetic::div_mod::lemma_div_nonincreasing(row, w);
    let c = r % 3;
    let hh = h * 16;
    assert(0 <= c * hh <= 2 * hh) by (nonlinear_arith)
        requires
            0 <= c <= 2,
            hh >= 0,
    ;
    let line = c * hh + (py * 16 + r / 48);
    assert(3 * (h * 16) * (w * 16) == 768 * n) by (nonlinear_arith)
        requires
            n == w * h,
    ;
    assert(line * (w * 16) <= pixel(g, k));
    assert(0 <= line * (w * 16)) by (nonlinear_arith)
        requires
            line >= 0,
            w >= 0,
    ;
}

/// The element of a convolution kernel that belongs at place `k` of the
/// flattened projection.
pub open spec fn kernel_index(patch: int, k: int) -> int {
    let pd = 3 * patch * patch;
    let (o, r) = (k / pd, k % pd);
    let (c, yx) = (r % 3, r / 3);
    o * pd + (c * patch + yx / patch) * patch + yx % patch
}

/// The projection of patches in the order in which patches unfold; a kernel
/// of four dimensions is permuted from channel-major rows.
pub fn patch_projection(v: Vec<u32>, dims: usize, patch: usize) -> (r: Vec<u32>)
    requires
        patch >= 1,
        3 * patch * patch <= usize::MAX,
        v@.len() % ((3 * patch * patch) as nat) == 0,
    ensures
        r@ == (if dims != 4 {
            v@
        } else {
            Seq::new(v@.len(), |k: int| v@[kernel_index(patch as int, k)])
        }),
{
    if dims != 4 {
        return v;
    }
    assert(3 * patch <= 3 * patch * patch) by (nonlinear_arith)
        requires
            patch >= 1,
    ;
    let pd: usize = 3 * patch * patch;
    let ghost f = |k: int| v@[kernel_index(patch as int, k)];
    let mut out: Vec<u32> = Vec::new();
    let mut k: usize = 0;
    assert(out@ =~= Seq::new(0, f));
    while k < v.len()
        invariant
            k <= v@.len(),
            patch >= 1,
            pd == 3 * patch * patch,
            v@.len() % (pd as nat) == 0,
            f == (|k: int| v@[kernel_index(patch as int, k)]),
            out@ == Seq::new(k as nat, f),
        decreases v@.len() - k,
    {
        proof {
            lemma_kernel_range(patch as int, v@.len() as int, k as int);
        }
        let o: usize = k / pd;
        let r: usize = k % pd;
        let yx: usize = r / 3;
        let at: usize = o * pd + ((r % 3) * patch + yx / patch) * patch + yx % patch;
        out.push(v[at]);
        k = k + 1;
        assert(out@ =~= Seq::new(k as nat, f));
    }
    out
}

proof fn lemma_kernel_range(p: int, n: int, k: int)
    requires
        p >= 1,
        0 <= k < n <= usize::MAX,
        n % (3 * p * p) == 0,
    ensures
        ({
            let pd = 3 * p * p;
            let (o, r) = (k / pd, k % pd);
            let (c, yx) = (r % 3, r / 3);
            &&& pd >= 1
            &&& 0 <= o * pd
            &&& 0 <= c * p + yx / p <= usize::MAX
            &&& 0 <= c * p <= usize::MAX
            &&& 0 <= (c * p + yx / p) * p
            &&& o * pd + (c * p + yx / p) * p <= usize::MAX
            &&& (c * p + yx / p) * p <= usize::MAX
        }),
        0 <= kernel_index(p, k) < n,
{
    let pd = 3 * p * p;
    assert(pd >= p && pd >= 1 && pd == 3 * (p * p)) by (nonlinear_arith)
        requires
            pd == 3 * p * p,
            p >= 1,
    ;
    let (o, r) = (k / pd, k % pd);
    let (c, yx) = (r % 3, r / 3);
    vstd::arithmetic::div_mod::lemma_fundamental_div_mod(k, pd);
    vstd::arithmetic::div_mod::lemma_mod_bound(k, pd);
    vstd::arithmetic::div_mod::lemma_div_pos_is_pos(k, pd);
    vstd::arithmetic::div_mod::lemma_fundamental_div_mod(n, pd);
    let m = n / pd;
    assert(o < m) by (nonlinear_arith)
        requires
            k == pd * o + r,
            n == pd * m,
            k < n,
            r >= 0,
            pd >= 1,
    ;
    assert(pd * o + pd <= pd * m && pd * o == o * pd && o * pd >= 0) by (nonlinear_arith)
        requires
            0 <= o <= m - 1,
            pd >= 1,
    ;
    let pp = p * p;
    assert(yx < pp);
    vstd::arithmetic::div_mod::lemma_fundamental_div_mod(yx, p);
    vstd::arithmetic::div_mod::lemma_mod_bound(yx, p);
    vstd::arithmetic::div_mod::lemma_div_pos_is_pos(yx, p);
    let (y, x) = (yx / p, yx % p);
    assert(y < p) by (nonlinear_arith)
        requires
            yx == p * y + x,
            yx < p * p,
            x >= 0,
            p >= 1,
    ;
    let line = c * p + y;
    assert(0 <= c * p && line <= 3 * p - 1) by (nonlinear_arith)
        requires
            line == c * p + y,
            0 <= c <= 2,
            0 <= y <= p - 1,
            p >= 1,
    ;
    assert(0 <= line * p && line * p + p <= 3 * p * p && line <= line * p) by (nonlinear_arith)
        requires
            0 <= line <= 3 * p - 1,
            p >= 1,
    ;
    assert(c * p <= line);
    assert(pd <= pd * m) by (nonlinear_arith)
        requires
            m >= 1,
            pd >= 1,
    ;
}

/// The permuted kernel meets every pixel with its own weight: the element of
/// output `o`, channel `c` and offset `(x, y)` stands where that pixel stands
/// in an unfolded patch.
pub proof fn law_kernels_meet_their_pixels(patch: int, o: int, c: int, y: int, x: int)
    requires
        patch >= 1,
        o >= 0,
        0 <= c < 3,
        0 <= y < patch,
        0 <= x < patch,
    ensures
        kernel_index(patch, o * (3 * patch * patch) + (y * patch + x) * 3 + c) == o * (3 * patch
            * patch) + (c * patch + y) * patch + x,
{
    let pd = 3 * patch * patch;
    let yx = y * patch + x;
    let r = yx * 3 + c;
    assert(0 <= yx && yx + 1 <= patch * patch) by (nonlinear_arith)
        requires
            yx == y * patch + x,
            0 <= y <= patch - 1,
            0 <= x <= patch - 1,
    ;
    assert(pd == 3 * (patch * patch)) by (nonlinear_arith)
        requires
            pd == 3 * patch * patch,
    ;
    let k = o * pd + r;
    vstd::arithmetic::div_mod::lemma_fundamental_div_mod_converse(k, pd, o, r);
    vstd::arithmetic::div_mod::lemma_fundamental_div_mod_converse(yx, patch, y, x);
    assert(o * pd + (y * patch + x) * 3 + c == k);
}

} // verus!
