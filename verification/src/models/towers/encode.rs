//! Encoding media with a tower: rows of pixels or frames, and the steps over
//! them.
use vstd::prelude::*;

use crate::ieee::Format;
use crate::media::ImageTensor;
use crate::models::gemma4::feed;
use crate::models::gemma4::feed::square_root_of;
use crate::models::ops;
use crate::models::ops::{Buf, Op, Weight};
use crate::models::towers;
use crate::models::towers::{EncoderTower, TowerKind};
use crate::models::transformer::config::EncoderConfig;
use crate::models::ONE;
use crate::num::{f32_div, f32_to_f16};
use crate::weights::LoadedWeights;

verus! {

/// Why media are not encoded.
#[derive(Clone, Copy, PartialEq, Eq, Debug, Structural)]
pub enum EncodeError {
    TooManyPatches { patches: usize, limit: usize },
    NoFrames,
}

/// Patches of an image, across and down, with the class token counted in.
#[derive(Clone, Copy, PartialEq, Eq, Debug, Structural)]
pub struct PatchGrid {
    pub w: usize,
    pub h: usize,
    pub class: bool,
}

impl PatchGrid {
    pub open spec fn patches(&self) -> int {
        self.h * self.w
    }

    pub open spec fn class_rows(&self) -> int {
        if self.class {
            1
        } else {
            0
        }
    }
}

/// The pixel that unfolds to place `k`: patches row by row, inside a patch
/// plane by plane.
pub open spec fn pixel(p: int, gw: int, height: int, width: int, k: int) -> int {
    let pd = 3 * p * p;
    let (row, r) = (k / pd, k % pd);
    let (gy, gx) = (row / gw, row % gw);
    let (c, yx) = (r / (p * p), r % (p * p));
    (c * height + (gy * p + yx / p)) * width + (gx * p + yx % p)
}

proof fn lemma_pixel(p: int, gw: int, gh: int, height: int, width: int, k: int)
    requires
        p >= 1,
        gw >= 0,
        gh >= 0,
        gh * p <= height,
        gw * p <= width,
        0 <= k < gh * gw * (3 * p * p),
    ensures
        ({
            let pd = 3 * p * p;
            let (row, r) = (k / pd, k % pd);
            let (c, yx) = (r / (p * p), r % (p * p));
            let y = row / gw * p + yx / p;
            let x = row % gw * p + yx % p;
            &&& pd >= 1
            &&& gw >= 1
            &&& p * p >= 1
            &&& 0 <= row / gw * p
            &&& 0 <= row % gw * p
            &&& 0 <= c <= 2
            &&& 0 <= yx / p
            &&& 0 <= yx % p
            &&& 0 <= y < height
            &&& 0 <= x < width
            &&& 0 <= c * height
            &&& 0 <= (c * height + y) * width
            &&& (c * height + y) * width + x < 3 * height * width
            &&& c * height + y < 3 * height
        }),
        0 <= pixel(p, gw, height, width, k) < 3 * height * width,
{
    let pp = p * p;
    let pd = 3 * p * p;
    assert(pd == 3 * pp && pp >= 1) by (nonlinear_arith)
        requires
            pd == 3 * p * p,
            pp == p * p,
            p >= 1,
    ;
    let n = gh * gw;
    let (row, r) = (k / pd, k % pd);
    vstd::arithmetic::div_mod::lemma_fundamental_div_mod(k, pd);
    vstd::arithmetic::div_mod::lemma_mod_bound(k, pd);
    vstd::arithmetic::div_mod::lemma_div_pos_is_pos(k, pd);
    assert(row < n) by (nonlinear_arith)
        requires
            k == pd * row + r,
            k < n * pd,
            r >= 0,
            pd >= 1,
    ;
    assert(gw >= 1) by (nonlinear_arith)
        requires
            n == gh * gw,
            n >= 1,
            gw >= 0,
            gh >= 0,
    ;
    let (gy, gx) = (row / gw, row % gw);
    vstd::arithmetic::div_mod::lemma_fundamental_div_mod(row, gw);
    vstd::arithmetic::div_mod::lemma_mod_bound(row, gw);
    vstd::arithmetic::div_mod::lemma_div_pos_is_pos(row, gw);
    assert(gy < gh) by (nonlinear_arith)
        requires
            row == gw * gy + gx,
            row < gh * gw,
            gx >= 0,
            gw >= 1,
    ;
    let (c, yx) = (r / pp, r % pp);
    vstd::arithmetic::div_mod::lemma_fundamental_div_mod(r, pp);
    vstd::arithmetic::div_mod::lemma_mod_bound(r, pp);
    vstd::arithmetic::div_mod::lemma_div_pos_is_pos(r, pp);
    assert(c <= 2) by (nonlinear_arith)
        requires
            r == pp * c + yx,
            r < 3 * pp,
            yx >= 0,
            pp >= 1,
    ;
    let (dy, dx) = (yx / p, yx % p);
    vstd::arithmetic::div_mod::lemma_fundamental_div_mod(yx, p);
    vstd::arithmetic::div_mod::lemma_mod_bound(yx, p);
    vstd::arithmetic::div_mod::lemma_div_pos_is_pos(yx, p);
    assert(dy < p) by (nonlinear_arith)
        requires
            yx == p * dy + dx,
            yx < p * p,
            dx >= 0,
            p >= 1,
    ;
    let (y, x) = (gy * p + dy, gx * p + dx);
    assert(0 <= gy * p && y + 1 <= gh * p) by (nonlinear_arith)
        requires
            y == gy * p + dy,
            0 <= gy <= gh - 1,
            0 <= dy <= p - 1,
    ;
    assert(0 <= gx * p && x + 1 <= gw * p) by (nonlinear_arith)
        requires
            x == gx * p + dx,
            0 <= gx <= gw - 1,
            0 <= dx <= p - 1,
    ;
    let line = c * height + y;
    assert(0 <= c * height && line + 1 <= 3 * height) by (nonlinear_arith)
        requires
            line == c * height + y,
            0 <= c <= 2,
            0 <= y <= height - 1,
    ;
    assert(0 <= line * width && line * width + width <= 3 * height * width) by (nonlinear_arith)
        requires
            0 <= line <= 3 * height - 1,
            width >= 1,
    ;
}

/// The patches as rows of half-precision pixels.
pub fn unfold_image(img: &ImageTensor, p: usize, g: PatchGrid) -> (r: Vec<u16>)
    requires
        img.wf(),
        img.channels >= 3,
        p >= 1,
        3 * p * p <= usize::MAX,
        g.h * p <= img.height,
        g.w * p <= img.width,
        g.patches() * (3 * p * p) <= usize::MAX,
        3 * img.height * img.width <= usize::MAX,
    ensures
        r@ == Seq::new(
            (g.patches() * (3 * p * p)) as nat,
            |k: int|
                Format::F32.convert(
                    Format::F16,
                    img.data@[pixel(
                        p as int,
                        g.w as int,
                        img.height as int,
                        img.width as int,
                        k,
                    )] as int,
                ) as u16,
        ),
{
    assert(3 * p <= 3 * p * p && p * p <= 3 * p * p) by (nonlinear_arith)
        requires
            p >= 1,
    ;
    let pp: usize = p * p;
    let pd: usize = 3 * p * p;
    assert(0 <= g.h * g.w <= g.h * g.w * pd) by (nonlinear_arith)
        requires
            g.h >= 0,
            g.w >= 0,
            pd >= 1,
    ;
    assert(3 * img.height * img.width <= img.channels * img.height * img.width) by (nonlinear_arith)
        requires
            img.channels >= 3,
            img.height >= 0,
            img.width >= 0,
    ;
    let total: usize = g.h * g.w * pd;
    let ghost f = |k: int|
        Format::F32.convert(
            Format::F16,
            img.data@[pixel(p as int, g.w as int, img.height as int, img.width as int, k)] as int,
        ) as u16;
    let mut out: Vec<u16> = Vec::new();
    let mut k: usize = 0;
    assert(out@ =~= Seq::new(0, f));
    while k < total
        invariant
            k <= total,
            p >= 1,
            pp == p * p,
            pd == 3 * p * p,
            total == g.h * g.w * pd,
            g.h * p <= img.height,
            g.w * p <= img.width,
            3 * img.height * img.width <= usize::MAX,
            3 * img.height * img.width <= img.data@.len(),
            f == (|k: int|
                Format::F32.convert(
                    Format::F16,
                    img.data@[pixel(
                        p as int,
                        g.w as int,
                        img.height as int,
                        img.width as int,
                        k,
                    )] as int,
                ) as u16),
            out@ == Seq::new(k as nat, f),
        decreases total - k,
    {
        proof {
            lemma_pixel(
                p as int,
                g.w as int,
                g.h as int,
                img.height as int,
                img.width as int,
                k as int,
            );
            let (h, w) = (img.height as int, img.width as int);
            assert(3 * h <= 3 * h * w) by (nonlinear_arith)
                requires
                    h >= 0,
                    w >= 1,
            ;
        }
        let row: usize = k / pd;
        let r: usize = k % pd;
        let yx: usize = r % pp;
        let at: usize = ((r / pp) * img.height + (row / g.w * p + yx / p)) * img.width + (row % g.w
            * p + yx % p);
        out.push(f32_to_f16(img.data[at]));
        k = k + 1;
        assert(out@ =~= Seq::new(k as nat, f));
    }
    out
}

/// Frame that tap `k` of a row reads: `stride` frames apart, one of padding.
pub open spec fn source(t: int, stride: int, k: int, frames: int) -> Option<int> {
    let s = t * stride + k - 1;
    if 0 <= s < frames {
        Some(s)
    } else {
        None
    }
}

/// Frames unfolded for a convolution of three taps, channel by channel.
pub open spec fn unfolded(x: Seq<u16>, frames: int, ch: int, stride: int, rows: int) -> Seq<u16> {
    Seq::new(
        (rows * (ch * 3)) as nat,
        |i: int|
            {
                let (t, r) = (i / (ch * 3), i % (ch * 3));
                match source(t, stride, r % 3, frames) {
                    Some(s) => x[s * ch + r / 3],
                    None => 0,
                }
            },
    )
}

/// Unfolds `frames` frames of `ch` channels to `rows` rows.
pub fn unfold_frames(x: &Vec<u16>, frames: usize, ch: usize, stride: usize, rows: usize) -> (r: Vec<u16>)
    requires
        1 <= stride <= 2,
        x@.len() == frames * ch,
        ch * 3 <= usize::MAX,
        rows * (ch * 3) <= usize::MAX,
        rows * 2 + 2 <= usize::MAX,
    ensures
        r@ == unfolded(x@, frames as int, ch as int, stride as int, rows as int),
{
    let w: usize = ch * 3;
    let total: usize = rows * w;
    let ghost want = unfolded(x@, frames as int, ch as int, stride as int, rows as int);
    let mut out: Vec<u16> = Vec::new();
    let mut i: usize = 0;
    while i < total
        invariant
            i <= total,
            w == ch * 3,
            total == rows * w,
            1 <= stride <= 2,
            x@.len() == frames * ch,
            x.len() == x@.len(),
            rows * 2 + 2 <= usize::MAX,
            want == unfolded(x@, frames as int, ch as int, stride as int, rows as int),
            out@.len() == i,
            forall|k: int| 0 <= k < i ==> #[trigger] out@[k] == want[k],
        decreases total - i,
    {
        proof {
            assert(w >= 1) by (nonlinear_arith)
                requires
                    i < rows * w,
                    i >= 0,
                    w >= 0,
                    rows >= 0,
            ;
            vstd::arithmetic::div_mod::lemma_fundamental_div_mod(i as int, w as int);
            vstd::arithmetic::div_mod::lemma_mod_bound(i as int, w as int);
        }
        let t: usize = i / w;
        let r: usize = i % w;
        assert(t < rows) by (nonlinear_arith)
            requires
                i == w * t + r,
                i < rows * w,
                r >= 0,
                w >= 1,
        ;
        assert(0 <= t * stride <= t * 2) by (nonlinear_arith)
            requires
                1 <= stride <= 2,
                t >= 0,
        ;
        let at: usize = t * stride + r % 3;
        let v: u16 = if at >= 1 && at - 1 < frames {
            let s: usize = at - 1;
            proof {
                let (a, b, c) = (s as int, frames as int, ch as int);
                assert(0 <= a * c && a * c + c <= b * c) by (nonlinear_arith)
                    requires
                        0 <= a <= b - 1,
                        c >= 0,
                ;
            }
            x[s * ch + r / 3]
        } else {
            0
        };
        assert(v == want[i as int]);
        out.push(v);
        i = i + 1;
    }
    assert(out@ =~= want);
    out
}

pub open spec fn norm(src: Buf, weight: Weight, dst: Buf, rows: int, width: usize) -> Op {
    Op::LayerNorm { src, weight, dst, rows: rows as usize, width }
}

pub open spec fn gemm(weight: Weight, src: Buf, dst: Buf, rows: int, n: usize, k: usize) -> Op {
    Op::Gemm { weight, src, dst, rows: rows as usize, n, k }
}

pub open spec fn bias(weight: Weight, buf: Buf, rows: int, width: usize) -> Op {
    Op::AddBias { weight, buf, rows: rows as usize, width }
}

/// An outer norm, where the checkpoint has it.
pub open spec fn outer_norm(on: bool, weight: Weight, rows: int, h: usize) -> Seq<Op> {
    if on {
        seq![
            norm(Buf::X, weight, Buf::H, rows, h),
            Op::Copy { src: Buf::H, dst: Buf::X, n: (rows * h) as usize },
        ]
    } else {
        Seq::empty()
    }
}

/// Attention of a block; its output shares the buffer of the normed rows.
pub open spec fn attn_ops(t: EncoderTower, key_bias: bool, rows: int) -> Seq<Op> {
    let h = t.ec.hidden_size;
    seq![
        norm(Buf::X, Weight::Ln1, Buf::H, rows, h),
        gemm(Weight::Wq, Buf::H, Buf::Q, rows, h, h),
        gemm(Weight::Wk, Buf::H, Buf::K, rows, h, h),
        gemm(Weight::Wv, Buf::H, Buf::V, rows, h, h),
        bias(Weight::BiasQ, Buf::Q, rows, h),
    ] + (if key_bias {
        seq![bias(Weight::BiasK, Buf::K, rows, h)]
    } else {
        Seq::empty()
    }) + seq![
        bias(Weight::BiasV, Buf::V, rows, h),
        Op::KvAppend {
            k: Buf::K,
            v: Buf::V,
            kc: Buf::EncK,
            vc: Buf::EncV,
            rows: rows as usize,
            heads: t.ec.n_heads,
            dim: t.head_dim,
            pos0: 0,
            cap: t.max_tokens,
            counter: false,
        },
        Op::AttnPrefill {
            q: Buf::Q,
            scale: Format::F32.quotient(ONE as int, feed::root_of(t.head_dim as int)) as u32,
            kc: Buf::EncK,
            vc: Buf::EncV,
            rows: rows as usize,
            heads: t.ec.n_heads,
            kv_heads: t.ec.n_heads,
            dim: t.head_dim,
            pos0: 0,
            cap: t.max_tokens,
            causal: false,
            window: 0,
            blocks: false,
        },
        gemm(Weight::Wo, Buf::Att, Buf::Q, rows, h, h),
        bias(Weight::BiasO, Buf::Q, rows, h),
        Op::Add { dst: Buf::X, src: Buf::Q, n: (rows * h) as usize },
    ]
}

/// The feed-forward half of a block.
pub open spec fn mlp_ops(t: EncoderTower, rows: int) -> Seq<Op> {
    let (h, f) = (t.ec.hidden_size, t.ec.intermediate_size);
    seq![
        norm(Buf::X, Weight::Ln2, Buf::H, rows, h),
        gemm(Weight::Fc1, Buf::H, Buf::Ff, rows, f, h),
        bias(Weight::BiasFc1, Buf::Ff, rows, f),
        Op::Gelu { buf: Buf::Ff, n: (rows * f) as usize },
        gemm(Weight::Fc2, Buf::Ff, Buf::H, rows, h, f),
        bias(Weight::BiasFc2, Buf::H, rows, h),
        Op::Add { dst: Buf::X, src: Buf::H, n: (rows * h) as usize },
    ]
}

pub open spec fn block_ops(t: EncoderTower, key_bias: bool, rows: int) -> Seq<Op> {
    attn_ops(t, key_bias, rows) + mlp_ops(t, rows)
}

/// The place of a layer's key bias.
pub open spec fn key_bias_place(t: EncoderTower, l: int) -> int {
    front_len(t.kind) + 16 * l + 5
}

pub open spec fn front_len(kind: TowerKind) -> int {
    match kind {
        TowerKind::Vision => 3,
        TowerKind::Audio => 6,
    }
}

/// Optional places behind the layers: positions, class token, and the norms.
pub open spec fn outer_entry(t: EncoderTower, k: int) -> Option<usize> {
    t.entries@[front_len(t.kind) + 16 * t.ec.n_layers + k]
}

pub open spec fn has_pre(t: EncoderTower) -> bool {
    outer_entry(t, 2) is Some && outer_entry(t, 3) is Some
}

pub open spec fn has_final(t: EncoderTower) -> bool {
    outer_entry(t, 4) is Some && outer_entry(t, 5) is Some
}

pub open spec fn key_biased(t: EncoderTower, l: int) -> bool {
    t.entries@[key_bias_place(t, l)] is Some
}

/// The first `n` blocks.
pub open spec fn blocks(t: EncoderTower, rows: int, n: int) -> Seq<Op>
    decreases n,
{
    if n <= 0 {
        Seq::empty()
    } else {
        blocks(t, rows, n - 1) + block_ops(t, key_biased(t, n - 1), rows)
    }
}

/// The body of the encoder.
pub open spec fn body_ops(t: EncoderTower, rows: int) -> Seq<Op> {
    outer_norm(has_pre(t), Weight::PreLn, rows, t.ec.hidden_size) + blocks(
        t,
        rows,
        t.ec.n_layers as int,
    ) + outer_norm(has_final(t), Weight::FinalLn, rows, t.ec.hidden_size)
}

/// The projector into the medium's own rows: `mid` is the width between its
/// two linears.
pub open spec fn project_ops(t: EncoderTower, rows: int, mid: usize) -> Seq<Op> {
    let (h, lm) = (t.ec.hidden_size, t.lm_hidden);
    if t.projector.w2 is Some {
        seq![gemm(Weight::Proj1, Buf::X, Buf::Ff, rows, mid, h)] + (if t.projector.b1 is Some {
            seq![bias(Weight::Proj1Bias, Buf::Ff, rows, mid)]
        } else {
            Seq::empty()
        }) + seq![
            Op::Gelu { buf: Buf::Ff, n: (rows * mid) as usize },
            gemm(Weight::Proj2, Buf::Ff, Buf::Encoded, rows, lm, mid),
        ] + (if t.projector.b2 is Some {
            seq![bias(Weight::Proj2Bias, Buf::Encoded, rows, lm)]
        } else {
            Seq::empty()
        })
    } else {
        seq![gemm(Weight::Proj1, Buf::X, Buf::Encoded, rows, lm, h)] + (if t.projector.b1 is Some {
            seq![bias(Weight::Proj1Bias, Buf::Encoded, rows, lm)]
        } else {
            Seq::empty()
        })
    }
}

/// The steps in front of the body for an image.
pub open spec fn image_front(t: EncoderTower, g: PatchGrid, patch_bias: bool) -> Seq<Op> {
    let (h, p) = (t.ec.hidden_size, t.ec.patch_size);
    let n = g.patches();
    let dst = if g.class {
        Buf::XTail
    } else {
        Buf::X
    };
    seq![gemm(Weight::InputProj, Buf::Stage, dst, n, h, (3 * p * p) as usize)] + (if patch_bias {
        seq![bias(Weight::PatchBias, dst, n, h)]
    } else {
        Seq::empty()
    }) + (if g.class {
        seq![Op::Load { weight: Weight::ClassToken, dst: Buf::X, n: h }]
    } else {
        Seq::empty()
    }) + (if outer_entry(t, 0) is Some {
        seq![
            Op::AddTable {
                weight: Weight::PosTable,
                dst: Buf::X,
                n: ((n + g.class_rows()) * h) as usize,
            },
        ]
    } else {
        Seq::empty()
    })
}

/// Drops the class token.
pub open spec fn drop_class(t: EncoderTower, g: PatchGrid) -> Seq<Op> {
    let h = t.ec.hidden_size;
    let n = (g.patches() * h) as usize;
    if g.class {
        seq![
            Op::CopyFrom { src: Buf::X, skip: h, dst: Buf::H, n },
            Op::Copy { src: Buf::H, dst: Buf::X, n },
        ]
    } else {
        Seq::empty()
    }
}

/// The sizes of `rows` rows are machine numbers.
pub open spec fn rows_fit(t: EncoderTower, rows: int) -> bool {
    &&& 0 <= rows <= usize::MAX
    &&& rows * t.ec.hidden_size <= usize::MAX
    &&& rows * t.ec.intermediate_size <= usize::MAX
}

fn push_attn(v: &mut Vec<Op>, t: &EncoderTower, key_bias: bool, rows: usize)
    requires
        rows_fit(*t, rows as int),
    ensures
        final(v)@ == old(v)@ + attn_ops(*t, key_bias, rows as int),
{
    let ghost before = v@;
    let h: usize = t.ec.hidden_size;
    v.push(Op::LayerNorm { src: Buf::X, weight: Weight::Ln1, dst: Buf::H, rows, width: h });
    v.push(Op::Gemm { weight: Weight::Wq, src: Buf::H, dst: Buf::Q, rows, n: h, k: h });
    v.push(Op::Gemm { weight: Weight::Wk, src: Buf::H, dst: Buf::K, rows, n: h, k: h });
    v.push(Op::Gemm { weight: Weight::Wv, src: Buf::H, dst: Buf::V, rows, n: h, k: h });
    v.push(Op::AddBias { weight: Weight::BiasQ, buf: Buf::Q, rows, width: h });
    if key_bias {
        v.push(Op::AddBias { weight: Weight::BiasK, buf: Buf::K, rows, width: h });
    }
    v.push(Op::AddBias { weight: Weight::BiasV, buf: Buf::V, rows, width: h });
    v.push(
        Op::KvAppend {
            k: Buf::K,
            v: Buf::V,
            kc: Buf::EncK,
            vc: Buf::EncV,
            rows,
            heads: t.ec.n_heads,
            dim: t.head_dim,
            pos0: 0,
            cap: t.max_tokens,
            counter: false,
        },
    );
    v.push(
        Op::AttnPrefill {
            q: Buf::Q,
            scale: f32_div(ONE, square_root_of(t.head_dim)),
            kc: Buf::EncK,
            vc: Buf::EncV,
            rows,
            heads: t.ec.n_heads,
            kv_heads: t.ec.n_heads,
            dim: t.head_dim,
            pos0: 0,
            cap: t.max_tokens,
            causal: false,
            window: 0,
            blocks: false,
        },
    );
    v.push(Op::Gemm { weight: Weight::Wo, src: Buf::Att, dst: Buf::Q, rows, n: h, k: h });
    v.push(Op::AddBias { weight: Weight::BiasO, buf: Buf::Q, rows, width: h });
    v.push(Op::Add { dst: Buf::X, src: Buf::Q, n: rows * h });
    assert(v@ =~= before + attn_ops(*t, key_bias, rows as int));
}

fn push_mlp(v: &mut Vec<Op>, t: &EncoderTower, rows: usize)
    requires
        rows_fit(*t, rows as int),
    ensures
        final(v)@ == old(v)@ + mlp_ops(*t, rows as int),
{
    let ghost before = v@;
    let (h, f): (usize, usize) = (t.ec.hidden_size, t.ec.intermediate_size);
    v.push(Op::LayerNorm { src: Buf::X, weight: Weight::Ln2, dst: Buf::H, rows, width: h });
    v.push(Op::Gemm { weight: Weight::Fc1, src: Buf::H, dst: Buf::Ff, rows, n: f, k: h });
    v.push(Op::AddBias { weight: Weight::BiasFc1, buf: Buf::Ff, rows, width: f });
    v.push(Op::Gelu { buf: Buf::Ff, n: rows * f });
    v.push(Op::Gemm { weight: Weight::Fc2, src: Buf::Ff, dst: Buf::H, rows, n: h, k: f });
    v.push(Op::AddBias { weight: Weight::BiasFc2, buf: Buf::H, rows, width: h });
    v.push(Op::Add { dst: Buf::X, src: Buf::H, n: rows * h });
    assert(v@ =~= before + mlp_ops(*t, rows as int));
}

fn push_outer(v: &mut Vec<Op>, on: bool, weight: Weight, rows: usize, h: usize)
    requires
        rows * h <= usize::MAX,
    ensures
        final(v)@ == old(v)@ + outer_norm(on, weight, rows as int, h),
{
    let ghost before = v@;
    if on {
        v.push(Op::LayerNorm { src: Buf::X, weight, dst: Buf::H, rows, width: h });
        v.push(Op::Copy { src: Buf::H, dst: Buf::X, n: rows * h });
    }
    assert(v@ =~= before + outer_norm(on, weight, rows as int, h));
}

impl EncoderTower {
    /// The entries belong to the places of the tower.
    pub open spec fn wf(&self) -> bool {
        &&& self.entries@.len() == front_len(self.kind) + 16 * self.ec.n_layers + 6
        &&& self.entries@.len() <= usize::MAX
    }

    fn outer(&self, k: usize) -> (r: bool)
        requires
            self.wf(),
            k < 6,
        ensures
            r == outer_entry(*self, k as int) is Some,
    {
        self.entries[self.entries.len() - 6 + k].is_some()
    }

    fn push_body(&self, v: &mut Vec<Op>, rows: usize)
        requires
            self.wf(),
            rows_fit(*self, rows as int),
        ensures
            final(v)@ == old(v)@ + body_ops(*self, rows as int),
    {
        let ghost before = v@;
        let h: usize = self.ec.hidden_size;
        push_outer(v, self.outer(2) && self.outer(3), Weight::PreLn, rows, h);
        let ghost mid = v@;
        let front: usize = match self.kind {
            TowerKind::Vision => 3,
            TowerKind::Audio => 6,
        };
        let mut l: usize = 0;
        assert(v@ =~= mid + blocks(*self, rows as int, 0));
        while l < self.ec.n_layers
            invariant
                l <= self.ec.n_layers,
                self.wf(),
                front == front_len(self.kind),
                rows_fit(*self, rows as int),
                v@ == mid + blocks(*self, rows as int, l as int),
            decreases self.ec.n_layers - l,
        {
            let ghost at = v@;
            let kb: bool = self.entries[front + 16 * l + 5].is_some();
            push_attn(v, self, kb, rows);
            push_mlp(v, self, rows);
            l = l + 1;
            proof {
                let b = block_ops(*self, kb, rows as int);
                assert(v@ =~= at + b);
                assert(at + b =~= mid + (blocks(*self, rows as int, l - 1) + b));
            }
        }
        push_outer(v, self.outer(4) && self.outer(5), Weight::FinalLn, rows, h);
        assert(v@ =~= before + body_ops(*self, rows as int));
    }

    fn push_project(&self, v: &mut Vec<Op>, rows: usize, mid: usize)
        requires
            rows * mid <= usize::MAX,
        ensures
            final(v)@ == old(v)@ + project_ops(*self, rows as int, mid),
    {
        let ghost before = v@;
        let (h, lm): (usize, usize) = (self.ec.hidden_size, self.lm_hidden);
        if self.projector.w2.is_some() {
            v.push(Op::Gemm { weight: Weight::Proj1, src: Buf::X, dst: Buf::Ff, rows, n: mid, k: h });
            if self.projector.b1.is_some() {
                v.push(Op::AddBias { weight: Weight::Proj1Bias, buf: Buf::Ff, rows, width: mid });
            }
            v.push(Op::Gelu { buf: Buf::Ff, n: rows * mid });
            v.push(Op::Gemm { weight: Weight::Proj2, src: Buf::Ff, dst: Buf::Encoded, rows, n: lm, k: mid });
            if self.projector.b2.is_some() {
                v.push(Op::AddBias { weight: Weight::Proj2Bias, buf: Buf::Encoded, rows, width: lm });
            }
        } else {
            v.push(Op::Gemm { weight: Weight::Proj1, src: Buf::X, dst: Buf::Encoded, rows, n: lm, k: h });
            if self.projector.b1.is_some() {
                v.push(Op::AddBias { weight: Weight::Proj1Bias, buf: Buf::Encoded, rows, width: lm });
            }
        }
        assert(v@ =~= before + project_ops(*self, rows as int, mid));
    }

    /// Rows of the projector's first matrix.
    pub fn mid_dim(&self, w: &LoadedWeights) -> (r: usize)
        requires
            self.projector.w1 < w.metas@.len(),
            w.metas@[self.projector.w1 as int].countable(),
            self.ec.hidden_size >= 1,
        ensures
            r == w.metas@[self.projector.w1 as int].count() / (self.ec.hidden_size as int),
    {
        w.metas[self.projector.w1].numel() / self.ec.hidden_size
    }

    /// The grid of an image that the tower takes.
    pub fn image_grid(&self, height: usize, width: usize) -> (r: Result<PatchGrid, EncodeError>)
        requires
            self.wf(),
            self.ec.patch_size >= 1,
            self.max_tokens >= 1,
            height * width < usize::MAX,
        ensures
            ({
                let p = self.ec.patch_size as int;
                let n = (height as int / p) * (width as int / p);
                let cls = outer_entry(*self, 1) is Some;
                let c: int = if cls {
                    1
                } else {
                    0
                };
                if n + c > self.max_tokens {
                    r == Err::<PatchGrid, EncodeError>(
                        (EncodeError::TooManyPatches {
                            patches: n as usize,
                            limit: (self.max_tokens - c) as usize,
                        }),
                    )
                } else {
                    r == Ok::<PatchGrid, EncodeError>(
                        (PatchGrid {
                            w: (width as int / p) as usize,
                            h: (height as int / p) as usize,
                            class: cls,
                        }),
                    )
                }
            }),
    {
        let p: usize = self.ec.patch_size;
        let (gh, gw): (usize, usize) = (height / p, width / p);
        proof {
            vstd::arithmetic::div_mod::lemma_div_nonincreasing(height as int, p as int);
            vstd::arithmetic::div_mod::lemma_div_nonincreasing(width as int, p as int);
            assert(0 <= gh * gw <= height * width) by (nonlinear_arith)
                requires
                    0 <= gh <= height,
                    0 <= gw <= width,
            ;
        }
        let n: usize = gh * gw;
        let cls: bool = self.outer(1);
        let c: usize = if cls {
            1
        } else {
            0
        };
        if n + c > self.max_tokens {
            return Err(EncodeError::TooManyPatches { patches: n, limit: self.max_tokens - c });
        }
        Ok(PatchGrid { w: gw, h: gh, class: cls })
    }

    /// The steps over the unfolded patches of an image.
    pub fn encode_image(&self, g: PatchGrid, mid: usize) -> (r: Vec<Op>)
        requires
            self.wf(),
            g.patches() + 1 <= usize::MAX,
            rows_fit(*self, g.patches() + 1),
            g.patches() * mid <= usize::MAX,
            3 * self.ec.patch_size * self.ec.patch_size <= usize::MAX,
            3 * self.ec.patch_size <= usize::MAX,
        ensures
            ({
                let n = g.patches();
                r@ == image_front(*self, g, self.entries@[2] is Some) + body_ops(
                    *self,
                    n + g.class_rows(),
                ) + drop_class(*self, g) + project_ops(*self, n, mid)
            }),
    {
        let (h, p): (usize, usize) = (self.ec.hidden_size, self.ec.patch_size);
        proof {
            let (a, b) = (g.h as int, g.w as int);
            assert(a * b >= 0) by (nonlinear_arith)
                requires
                    a >= 0,
                    b >= 0,
            ;
            let (n, hh, f) = (g.patches(), h as int, self.ec.intermediate_size as int);
            assert((n + 1) * hh == n * hh + hh && (n + 1) * f == n * f + f && n * hh >= 0 && n * f
                >= 0) by (nonlinear_arith)
                requires
                    n >= 0,
                    hh >= 0,
                    f >= 0,
            ;
        }
        let n: usize = g.h * g.w;
        let mut v: Vec<Op> = Vec::new();
        let dst: Buf = if g.class {
            Buf::XTail
        } else {
            Buf::X
        };
        v.push(
            Op::Gemm { weight: Weight::InputProj, src: Buf::Stage, dst, rows: n, n: h, k: 3 * p * p },
        );
        if self.entries[2].is_some() {
            v.push(Op::AddBias { weight: Weight::PatchBias, buf: dst, rows: n, width: h });
        }
        let mut rows: usize = n;
        if g.class {
            v.push(Op::Load { weight: Weight::ClassToken, dst: Buf::X, n: h });
            rows = n + 1;
        }
        if self.outer(0) {
            v.push(Op::AddTable { weight: Weight::PosTable, dst: Buf::X, n: rows * h });
        }
        assert(v@ =~= image_front(*self, g, self.entries@[2] is Some));
        let ghost front = v@;
        self.push_body(&mut v, rows);
        let ghost at = v@;
        if g.class {
            v.push(Op::CopyFrom { src: Buf::X, skip: h, dst: Buf::H, n: n * h });
            v.push(Op::Copy { src: Buf::H, dst: Buf::X, n: n * h });
        }
        assert(v@ =~= at + drop_class(*self, g));
        self.push_project(&mut v, n, mid);
        v
    }

    /// Frames that a clip of `frames` frames is cut to, and the rows that the
    /// strided convolution leaves.
    pub fn audio_rows(&self, frames: usize) -> (r: Result<(usize, usize), EncodeError>)
        requires
            self.max_tokens * 2 <= usize::MAX,
        ensures
            ({
                let m = self.max_tokens as int;
                let t1 = if frames <= 2 * m {
                    frames as int
                } else {
                    2 * m
                };
                let t2 = if t1 / 2 < 1 {
                    1
                } else {
                    t1 / 2
                };
                if frames == 0 {
                    r == Err::<(usize, usize), EncodeError>(EncodeError::NoFrames)
                } else {
                    r == Ok::<(usize, usize), EncodeError>((t1 as usize, t2 as usize))
                }
            }),
    {
        if frames == 0 {
            return Err(EncodeError::NoFrames);
        }
        let m: usize = self.max_tokens;
        let t1: usize = if frames <= 2 * m {
            frames
        } else {
            2 * m
        };
        let half: usize = if t1 / 2 > m {
            m
        } else {
            t1 / 2
        };
        let t2: usize = if half < 1 {
            1
        } else {
            half
        };
        Ok((t1, t2))
    }

    /// The steps of the first convolution.
    pub fn audio_first(&self, t1: usize) -> (r: Vec<Op>)
        requires
            self.wf(),
            self.kind == TowerKind::Audio,
            t1 * self.ec.hidden_size <= usize::MAX,
            self.ec.patch_size * 3 <= usize::MAX,
        ensures
            ({
                let h = self.ec.hidden_size;
                r@ == seq![
                    gemm(
                        Weight::InputProj,
                        Buf::Stage,
                        Buf::Q,
                        t1 as int,
                        h,
                        (self.ec.patch_size * 3) as usize,
                    ),
                ] + (if self.entries@[3] is Some {
                    seq![bias(Weight::PatchBias, Buf::Q, t1 as int, h)]
                } else {
                    Seq::empty()
                }) + seq![Op::Gelu { buf: Buf::Q, n: (t1 * h) as usize }]
            }),
    {
        let h: usize = self.ec.hidden_size;
        let mut v: Vec<Op> = Vec::new();
        v.push(
            Op::Gemm {
                weight: Weight::InputProj,
                src: Buf::Stage,
                dst: Buf::Q,
                rows: t1,
                n: h,
                k: self.ec.patch_size * 3,
            },
        );
        if self.entries[3].is_some() {
            v.push(Op::AddBias { weight: Weight::PatchBias, buf: Buf::Q, rows: t1, width: h });
        }
        v.push(Op::Gelu { buf: Buf::Q, n: t1 * h });
        assert(v@ =~= seq![
            gemm(
                Weight::InputProj,
                Buf::Stage,
                Buf::Q,
                t1 as int,
                h,
                (self.ec.patch_size * 3) as usize,
            ),
        ] + (if self.entries@[3] is Some {
            seq![bias(Weight::PatchBias, Buf::Q, t1 as int, h)]
        } else {
            Seq::empty()
        }) + seq![Op::Gelu { buf: Buf::Q, n: (t1 * h) as usize }]);
        v
    }

    /// The steps of the second convolution and of the body over `t2` rows.
    pub fn audio_second(&self, t2: usize, mid: usize) -> (r: Vec<Op>)
        requires
            self.wf(),
            self.kind == TowerKind::Audio,
            rows_fit(*self, t2 as int),
            t2 * mid <= usize::MAX,
            self.ec.hidden_size * 3 <= usize::MAX,
        ensures
            r@ == second_conv(*self, t2 as int) + body_ops(*self, t2 as int) + project_ops(
                *self,
                t2 as int,
                mid,
            ),
    {
        let h: usize = self.ec.hidden_size;
        let mut v: Vec<Op> = Vec::new();
        v.push(
            Op::Gemm { weight: Weight::Conv2, src: Buf::Stage, dst: Buf::X, rows: t2, n: h, k: h * 3 },
        );
        if self.entries[5].is_some() {
            v.push(Op::AddBias { weight: Weight::Conv2Bias, buf: Buf::X, rows: t2, width: h });
        }
        v.push(Op::Gelu { buf: Buf::X, n: t2 * h });
        if self.outer(0) {
            v.push(Op::AddTable { weight: Weight::PosTable, dst: Buf::X, n: t2 * h });
        }
        assert(v@ =~= second_conv(*self, t2 as int));
        self.push_body(&mut v, t2);
        self.push_project(&mut v, t2, mid);
        v
    }
}

/// The second convolution, and the positions.
pub open spec fn second_conv(t: EncoderTower, t2: int) -> Seq<Op> {
    let h = t.ec.hidden_size;
    seq![gemm(Weight::Conv2, Buf::Stage, Buf::X, t2, h, (h * 3) as usize)] + (if t.entries@[5] is Some {
        seq![bias(Weight::Conv2Bias, Buf::X, t2, h)]
    } else {
        Seq::empty()
    }) + seq![Op::Gelu { buf: Buf::X, n: (t2 * h) as usize }] + (if outer_entry(t, 0) is Some {
        seq![Op::AddTable { weight: Weight::PosTable, dst: Buf::X, n: (t2 * h) as usize }]
    } else {
        Seq::empty()
    })
}

/// A tower that was built has an entry for every step that asks for one.
pub proof fn law_built_towers_are_whole(t: EncoderTower)
    requires
        towers::views(t.places@) == towers::all_places(t.ec, t.kind),
        t.entries@.len() == t.places@.len(),
        t.entries@.len() <= usize::MAX,
    ensures
        t.wf(),
{
    lemma_place_count(t.ec, t.kind, t.ec.n_layers as int);
    assert(towers::views(t.places@).len() == t.places@.len());
}

proof fn lemma_place_count(ec: EncoderConfig, kind: TowerKind, n: int)
    requires
        n >= 0,
    ensures
        towers::inner_places(ec, kind, n).len() == front_len(kind) + 16 * n,
    decreases n,
{
    if n > 0 {
        lemma_place_count(ec, kind, n - 1);
    }
}

pub open spec fn size_of(t: EncoderTower, b: Buf) -> int {
    let ws = t.ws;
    match b {
        Buf::X => ws.x as int,
        Buf::H => ws.h as int,
        Buf::Att => ws.h as int,
        Buf::Q => ws.q as int,
        Buf::K => ws.k as int,
        Buf::V => ws.v as int,
        Buf::Ff => ws.ff as int,
        Buf::EncK => ws.kc as int,
        Buf::EncV => ws.vc as int,
        Buf::Stage => ws.stage as int,
        _ => 0,
    }
}

/// No step of a block leaves its buffers, for every number of rows that the
/// tower takes.
pub proof fn law_blocks_stay_in_their_buffers(t: EncoderTower, key_bias: bool, rows: int)
    requires
        towers::sized(t.ec, t.kind, t.lm_hidden as int),
        towers::is_ws(t.ws, t.ec, t.kind, t.lm_hidden as int),
        t.max_tokens == towers::max_tokens(t.ec, t.kind),
        t.head_dim * t.ec.n_heads == t.ec.hidden_size,
        1 <= rows <= t.max_tokens,
    ensures
        ops::all_fit(block_ops(t, key_bias, rows), |b: Buf| size_of(t, b)),
{
    let size = |b: Buf| size_of(t, b);
    let (n, h, f, m, x) = (
        t.max_tokens as int,
        t.ec.hidden_size as int,
        t.ec.intermediate_size as int,
        towers::middle(t.ec, t.lm_hidden as int),
        towers::max2(t.ec.hidden_size as int, t.lm_hidden as int),
    );
    assert(0 <= rows * h <= n * h && rows * h <= n * m && rows * h <= n * x && 0 <= rows * f <= n
        * m) by (nonlinear_arith)
        requires
            0 <= rows <= n,
            0 <= h <= m,
            0 <= f <= m,
            h <= x,
    ;
    let (nh, d) = (t.ec.n_heads as int, t.head_dim as int);
    assert(nh * d == h) by (nonlinear_arith)
        requires
            d * nh == h,
    ;
    assert(ops::cache(n, nh, d) == 2 * (n * h)) by (nonlinear_arith)
        requires
            ops::cache(n, nh, d) == nh * n * d * 2,
            nh * d == h,
    ;
    let a = attn_ops(t, key_bias, rows);
    let b = mlp_ops(t, rows);
    assert forall|i: int| 0 <= i < a.len() implies ops::fits(#[trigger] a[i], size) by {
        lemma_attn_step(t, key_bias, rows, i);
    }
    assert(forall|i: int| 0 <= i < b.len() ==> ops::fits(#[trigger] b[i], size));
    ops::lemma_all_fit_concat(a, b, size);
}

proof fn lemma_attn_step(t: EncoderTower, key_bias: bool, rows: int, i: int)
    requires
        0 <= i < attn_ops(t, key_bias, rows).len(),
        1 <= rows <= t.max_tokens,
        t.ec.n_heads * t.head_dim == t.ec.hidden_size,
        rows * t.ec.hidden_size <= usize::MAX,
        0 <= 2 * (rows * t.ec.hidden_size) <= t.ws.x,
        2 * (rows * t.ec.hidden_size) <= t.ws.h,
        2 * (rows * t.ec.hidden_size) <= t.ws.q,
        t.ws.k == t.ws.q,
        t.ws.v == t.ws.q,
        t.ws.kc == t.ws.q,
        t.ws.vc == t.ws.q,
        ops::cache(t.max_tokens as int, t.ec.n_heads as int, t.head_dim as int) <= t.ws.q,
    ensures
        ops::fits(attn_ops(t, key_bias, rows)[i], |b: Buf| size_of(t, b)),
{
}

/// The workspace, and the rows that a medium becomes.
pub open spec fn size_with_rows(t: EncoderTower, rows: int, b: Buf) -> int {
    if b == Buf::Encoded {
        ops::row_bytes(rows, t.lm_hidden as int)
    } else {
        size_of(t, b)
    }
}

/// The projector stays in its buffers, for every number of rows that the tower
/// takes, where what is between its linears is no wider than the buffer is for;
/// it fills the medium's own rows and no more.
pub proof fn law_projection_stays_in_its_buffers(t: EncoderTower, rows: int, mid: usize)
    requires
        towers::sized(t.ec, t.kind, t.lm_hidden as int),
        towers::is_ws(t.ws, t.ec, t.kind, t.lm_hidden as int),
        t.max_tokens == towers::max_tokens(t.ec, t.kind),
        1 <= rows <= t.max_tokens,
        mid <= towers::middle(t.ec, t.lm_hidden as int),
    ensures
        ops::all_fit(project_ops(t, rows, mid), |b: Buf| size_with_rows(t, rows, b)),
{
    let size = |b: Buf| size_with_rows(t, rows, b);
    let (n, h, k, m, x, w) = (
        t.max_tokens as int,
        t.ec.hidden_size as int,
        mid as int,
        towers::middle(t.ec, t.lm_hidden as int),
        towers::max2(t.ec.hidden_size as int, t.lm_hidden as int),
        t.lm_hidden as int,
    );
    assert(0 <= rows * h <= n * x && 0 <= rows * k <= n * m && 0 <= rows * w) by (nonlinear_arith)
        requires
            0 <= rows <= n,
            0 <= k <= m,
            0 <= h <= x,
            w >= 0,
    ;
    let v = project_ops(t, rows, mid);
    assert forall|i: int| 0 <= i < v.len() implies ops::fits(#[trigger] v[i], size) by {}
}

} // verus!
