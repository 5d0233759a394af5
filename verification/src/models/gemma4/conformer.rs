//! The steps of the audio conformer.
use vstd::prelude::*;

use crate::models::gemma4::audio;
use crate::models::gemma4::audio::{AudioWs, G4Audio};
use crate::models::gemma4::config::G4AudioCfg;
use crate::models::gemma4::tower;
use crate::models::gemma4::tower::{push_clip, Clips};
use crate::models::gemma4::vision;
use crate::models::ops;
use crate::models::ops::{Buf, Op, Weight};

verus! {

/// The clamps of a layer's linears.
#[derive(Clone, Copy)]
pub struct AudioClips {
    pub ff1_up: Clips,
    pub ff1_down: Clips,
    pub ff2_up: Clips,
    pub ff2_down: Clips,
    pub q: Clips,
    pub k: Clips,
    pub v: Clips,
    pub post: Clips,
    pub start: Clips,
    pub end: Clips,
}

/// The way into a feed-forward block.
pub open spec fn ff_in(c: G4AudioCfg, n: int, pre: Weight, up: (Clips, Weight)) -> Seq<Op> {
    let h = c.hidden;
    let h4 = (h * 4) as usize;
    seq![vision::norm(Buf::X, Some(pre), Buf::H, n, h)] + tower::clip_ops(
        up.0,
        up.1,
        Buf::H,
        Buf::Wide,
        n,
        h,
        h4,
    ) + seq![Op::Silu { buf: Buf::Wide, n: (n * h4) as usize }]
}

/// The way out, added with a weight.
pub open spec fn ff_out(c: G4AudioCfg, n: int, down: (Clips, Weight), post: Weight) -> Seq<Op> {
    let h = c.hidden;
    let h4 = (h * 4) as usize;
    tower::clip_ops(down.0, down.1, Buf::Wide, Buf::H2, n, h4, h) + seq![
        vision::norm(Buf::H2, Some(post), Buf::H2, n, h),
        Op::Scale { buf: Buf::H2, factor: c.residual_w, n: (n * h) as usize },
        Op::Add { dst: Buf::X, src: Buf::H2, n: (n * h) as usize },
    ]
}

/// A feed-forward block.
pub open spec fn ff_ops(
    c: G4AudioCfg,
    n: int,
    pre: Weight,
    up: (Clips, Weight),
    down: (Clips, Weight),
    post: Weight,
) -> Seq<Op> {
    ff_in(c, n, pre, up) + ff_out(c, n, down, post)
}

/// The norm in front of attention, and its projections.
pub open spec fn qkv_ops(c: G4AudioCfg, l: AudioClips, n: int) -> Seq<Op> {
    let h = c.hidden;
    seq![vision::norm(Buf::X, Some(Weight::InputNorm), Buf::H, n, h)] + tower::clip_ops(
        l.q,
        Weight::Wq,
        Buf::H,
        Buf::Q,
        n,
        h,
        h,
    ) + tower::clip_ops(l.k, Weight::Wk, Buf::H, Buf::K, n, h, h) + tower::clip_ops(
        l.v,
        Weight::Wv,
        Buf::H,
        Buf::V,
        n,
        h,
        h,
    )
}

/// Local attention.
pub open spec fn attn_ops(c: G4AudioCfg, l: AudioClips, n: int, k_scale: u32) -> Seq<Op> {
    let h = c.hidden;
    seq![
        Op::MulVec { weight: Weight::QScale, buf: Buf::Q, rows: n as usize, width: h },
        Op::Scale { buf: Buf::K, factor: k_scale, n: (n * h) as usize },
        Op::AudioAttn {
            dst: Buf::H2,
            rows: n as usize,
            heads: c.n_heads,
            dim: (h as int / c.n_heads as int) as usize,
            chunk: c.chunk,
            past: c.past,
            cap: c.logit_cap,
            invalid: c.invalid_logit,
        },
    ] + tower::clip_ops(l.post, Weight::Wo, Buf::H2, Buf::H, n, h, h) + seq![
        vision::norm(Buf::H, Some(Weight::PostAttnNorm), Buf::H, n, h),
        Op::Add { dst: Buf::X, src: Buf::H, n: (n * h) as usize },
    ]
}

/// The light convolution.
pub open spec fn conv_ops(c: G4AudioCfg, l: AudioClips, n: int) -> Seq<Op> {
    let h = c.hidden;
    let h2 = (h * 2) as usize;
    seq![vision::norm(Buf::X, Some(Weight::ConvPre), Buf::H, n, h)] + tower::clip_ops(
        l.start,
        Weight::ConvStart,
        Buf::H,
        Buf::Wide,
        n,
        h,
        h2,
    ) + seq![
        Op::Glu { dst: Buf::H, rows: n as usize, width: h },
        Op::DwConv { weight: Weight::ConvKernel, src: Buf::H, dst: Buf::H2, rows: n as usize, width: h, taps: c.conv_k },
        vision::norm(Buf::H2, Some(Weight::ConvNorm), Buf::H2, n, h),
        Op::Silu { buf: Buf::H2, n: (n * h) as usize },
    ] + tower::clip_ops(l.end, Weight::ConvEnd, Buf::H2, Buf::H, n, h, h) + seq![
        Op::Add { dst: Buf::X, src: Buf::H, n: (n * h) as usize },
    ]
}

pub open spec fn ff1_ops(c: G4AudioCfg, l: AudioClips, n: int) -> Seq<Op> {
    ff_ops(c, n, Weight::Ff1Pre, (l.ff1_up, Weight::Ff1Up), (l.ff1_down, Weight::Ff1Down), Weight::Ff1Post)
}

pub open spec fn ff2_ops(c: G4AudioCfg, l: AudioClips, n: int) -> Seq<Op> {
    ff_ops(c, n, Weight::Ff2Pre, (l.ff2_up, Weight::Ff2Up), (l.ff2_down, Weight::Ff2Down), Weight::Ff2Post)
}

/// The keys of the relative positions.
pub open spec fn rel_op(c: G4AudioCfg) -> Op {
    Op::Gemm {
        weight: Weight::RelKProj,
        src: Buf::RelPe,
        dst: Buf::RelK,
        rows: (c.past + 1) as usize,
        n: c.hidden,
        k: c.hidden,
    }
}

/// A layer: a half-weighted feed-forward block, attention, the convolution,
/// the other feed-forward block, and a norm.
pub open spec fn layer_ops(c: G4AudioCfg, l: AudioClips, n: int, k_scale: u32) -> Seq<Op> {
    seq![rel_op(c)] + ff1_ops(c, l, n) + qkv_ops(c, l, n) + attn_ops(c, l, n, k_scale) + conv_ops(
        c,
        l,
        n,
    ) + ff2_ops(c, l, n) + seq![
        vision::norm(Buf::X, Some(Weight::OutNorm), Buf::X, n, c.hidden),
    ]
}

/// The subsampled frames become rows of the residual stream.
pub open spec fn input_op(c: G4AudioCfg, n: int) -> Op {
    Op::Gemm {
        weight: Weight::InputProj,
        src: Buf::H,
        dst: Buf::X,
        rows: n as usize,
        n: c.hidden,
        k: audio::proj_in(c) as usize,
    }
}

/// The output projection with its norm, and the projection into the text
/// model: it reads what the norm left, and fills the clip's own rows.
pub open spec fn out_ops(c: G4AudioCfg, lm_hidden: usize, n: int) -> Seq<Op> {
    seq![
        Op::Gemm { weight: Weight::OutProj, src: Buf::X, dst: Buf::Out, rows: n as usize, n: c.out_dims, k: c.hidden },
        Op::AddBias { weight: Weight::OutBias, buf: Buf::Out, rows: n as usize, width: c.out_dims },
        vision::norm(Buf::Out, None, Buf::Out, n, c.out_dims),
        Op::Gemm { weight: Weight::EmbProj, src: Buf::Out, dst: Buf::Encoded, rows: n as usize, n: lm_hidden, k: c.out_dims },
    ]
}

pub proof fn lemma_rows(c: G4AudioCfg, n: int)
    requires
        audio::sized(c, 0),
        0 <= n <= 750,
    ensures
        0 <= n * c.hidden <= audio::rows_max(c) * c.hidden,
        0 <= n * (c.hidden * 2),
        0 <= n * (c.hidden * 4) <= usize::MAX,
        2 * (n * (c.hidden * 4)) <= audio::rows_max(c) * c.hidden * 4 * 2 <= usize::MAX,
        n * (c.hidden * 2) == 2 * (n * c.hidden),
        n * (c.hidden * 4) == 4 * (n * c.hidden),
        0 <= c.n_heads * (c.hidden as int / c.n_heads as int) <= c.hidden,
        0 <= n * (c.n_heads * (c.hidden as int / c.n_heads as int)) <= n * c.hidden,
        0 <= (c.past + 1) * (c.n_heads * (c.hidden as int / c.n_heads as int)) <= (c.past + 1)
            * c.hidden,
{
    let (h, m, r) = (c.hidden as int, audio::rows_max(c), c.past + 1);
    assert(0 <= n * h <= m * h) by (nonlinear_arith)
        requires
            0 <= n <= m,
            h >= 0,
    ;
    assert(n * (h * 2) == 2 * (n * h) && n * (h * 4) == 4 * (n * h)) by (nonlinear_arith);
    let d = h / c.n_heads as int;
    vstd::arithmetic::div_mod::lemma_fundamental_div_mod(h, c.n_heads as int);
    vstd::arithmetic::div_mod::lemma_mod_bound(h, c.n_heads as int);
    vstd::arithmetic::div_mod::lemma_div_pos_is_pos(h, c.n_heads as int);
    let q = c.n_heads * d;
    assert(q >= 0) by (nonlinear_arith)
        requires
            q == c.n_heads * d,
            d >= 0,
            c.n_heads >= 0,
    ;
    assert(0 <= n * q <= n * h && 0 <= r * q <= r * h) by (nonlinear_arith)
        requires
            0 <= q <= h,
            n >= 0,
            r >= 0,
    ;
}

fn push_norm(v: &mut Vec<Op>, src: Buf, weight: Weight, dst: Buf, rows: usize, width: usize)
    ensures
        final(v)@ == old(v)@.push(vision::norm(src, Some(weight), dst, rows as int, width)),
{
    v.push(Op::RmsNorm { src, row0: 0, weight: Some(weight), dst, rows, width });
}

fn push_ff_in(v: &mut Vec<Op>, c: &G4AudioCfg, n: usize, pre: Weight, up: (Clips, Weight))
    requires
        audio::sized(*c, 0),
        n <= 750,
    ensures
        final(v)@ == old(v)@ + ff_in(*c, n as int, pre, up),
{
    let ghost before = v@;
    proof {
        lemma_rows(*c, n as int);
    }
    let h: usize = c.hidden;
    let h4: usize = h * 4;
    push_norm(v, Buf::X, pre, Buf::H, n, h);
    push_clip(v, up.0, up.1, Buf::H, Buf::Wide, n, h, h4);
    v.push(Op::Silu { buf: Buf::Wide, n: n * h4 });
    assert(v@ =~= before + ff_in(*c, n as int, pre, up));
}

fn push_ff_out(v: &mut Vec<Op>, c: &G4AudioCfg, n: usize, down: (Clips, Weight), post: Weight)
    requires
        audio::sized(*c, 0),
        n <= 750,
    ensures
        final(v)@ == old(v)@ + ff_out(*c, n as int, down, post),
{
    let ghost before = v@;
    proof {
        lemma_rows(*c, n as int);
    }
    let h: usize = c.hidden;
    let h4: usize = h * 4;
    push_clip(v, down.0, down.1, Buf::Wide, Buf::H2, n, h4, h);
    push_norm(v, Buf::H2, post, Buf::H2, n, h);
    v.push(Op::Scale { buf: Buf::H2, factor: c.residual_w, n: n * h });
    v.push(Op::Add { dst: Buf::X, src: Buf::H2, n: n * h });
    assert(v@ =~= before + ff_out(*c, n as int, down, post));
}

fn push_ff(
    v: &mut Vec<Op>,
    c: &G4AudioCfg,
    n: usize,
    pre: Weight,
    up: (Clips, Weight),
    down: (Clips, Weight),
    post: Weight,
)
    requires
        audio::sized(*c, 0),
        n <= 750,
    ensures
        final(v)@ == old(v)@ + ff_ops(*c, n as int, pre, up, down, post),
{
    let ghost before = v@;
    push_ff_in(v, c, n, pre, up);
    push_ff_out(v, c, n, down, post);
    assert(v@ =~= before + ff_ops(*c, n as int, pre, up, down, post));
}

fn push_qkv(v: &mut Vec<Op>, c: &G4AudioCfg, l: &AudioClips, n: usize)
    requires
        audio::sized(*c, 0),
        n <= 750,
    ensures
        final(v)@ == old(v)@ + qkv_ops(*c, *l, n as int),
{
    let ghost before = v@;
    proof {
        lemma_rows(*c, n as int);
    }
    let h: usize = c.hidden;
    push_norm(v, Buf::X, Weight::InputNorm, Buf::H, n, h);
    push_clip(v, l.q, Weight::Wq, Buf::H, Buf::Q, n, h, h);
    push_clip(v, l.k, Weight::Wk, Buf::H, Buf::K, n, h, h);
    push_clip(v, l.v, Weight::Wv, Buf::H, Buf::V, n, h, h);
    assert(v@ =~= before + qkv_ops(*c, *l, n as int));
}

fn push_attn(v: &mut Vec<Op>, c: &G4AudioCfg, l: &AudioClips, n: usize, k_scale: u32)
    requires
        audio::sized(*c, 0),
        n <= 750,
    ensures
        final(v)@ == old(v)@ + attn_ops(*c, *l, n as int, k_scale),
{
    let ghost before = v@;
    proof {
        lemma_rows(*c, n as int);
    }
    let h: usize = c.hidden;
    v.push(Op::MulVec { weight: Weight::QScale, buf: Buf::Q, rows: n, width: h });
    v.push(Op::Scale { buf: Buf::K, factor: k_scale, n: n * h });
    v.push(
        Op::AudioAttn {
            dst: Buf::H2,
            rows: n,
            heads: c.n_heads,
            dim: h / c.n_heads,
            chunk: c.chunk,
            past: c.past,
            cap: c.logit_cap,
            invalid: c.invalid_logit,
        },
    );
    push_clip(v, l.post, Weight::Wo, Buf::H2, Buf::H, n, h, h);
    push_norm(v, Buf::H, Weight::PostAttnNorm, Buf::H, n, h);
    v.push(Op::Add { dst: Buf::X, src: Buf::H, n: n * h });
    assert(v@ =~= before + attn_ops(*c, *l, n as int, k_scale));
}

fn push_conv(v: &mut Vec<Op>, c: &G4AudioCfg, l: &AudioClips, n: usize)
    requires
        audio::sized(*c, 0),
        n <= 750,
    ensures
        final(v)@ == old(v)@ + conv_ops(*c, *l, n as int),
{
    let ghost before = v@;
    proof {
        lemma_rows(*c, n as int);
    }
    let h: usize = c.hidden;
    push_norm(v, Buf::X, Weight::ConvPre, Buf::H, n, h);
    push_clip(v, l.start, Weight::ConvStart, Buf::H, Buf::Wide, n, h, h * 2);
    v.push(Op::Glu { dst: Buf::H, rows: n, width: h });
    v.push(
        Op::DwConv {
            weight: Weight::ConvKernel,
            src: Buf::H,
            dst: Buf::H2,
            rows: n,
            width: h,
            taps: c.conv_k,
        },
    );
    push_norm(v, Buf::H2, Weight::ConvNorm, Buf::H2, n, h);
    v.push(Op::Silu { buf: Buf::H2, n: n * h });
    push_clip(v, l.end, Weight::ConvEnd, Buf::H2, Buf::H, n, h, h);
    v.push(Op::Add { dst: Buf::X, src: Buf::H, n: n * h });
    assert(v@ =~= before + conv_ops(*c, *l, n as int));
}

pub open spec fn conformer_ops(
    c: G4AudioCfg,
    clips: Seq<AudioClips>,
    n: int,
    k_scale: u32,
    k: int,
) -> Seq<Seq<Op>> {
    Seq::new(k as nat, |i: int| layer_ops(c, clips[i], n, k_scale))
}

impl G4Audio {
    fn layer_steps(&self, l: &AudioClips, n: usize, k_scale: u32) -> (r: Vec<Op>)
        requires
            audio::sized(self.cfg, 0),
            n <= 750,
        ensures
            r@ == layer_ops(self.cfg, *l, n as int, k_scale),
    {
        let c: &G4AudioCfg = &self.cfg;
        let mut v: Vec<Op> = Vec::new();
        v.push(
            Op::Gemm {
                weight: Weight::RelKProj,
                src: Buf::RelPe,
                dst: Buf::RelK,
                rows: c.past + 1,
                n: c.hidden,
                k: c.hidden,
            },
        );
        assert(v@ =~= seq![rel_op(*c)]);
        push_ff(
            &mut v,
            c,
            n,
            Weight::Ff1Pre,
            (l.ff1_up, Weight::Ff1Up),
            (l.ff1_down, Weight::Ff1Down),
            Weight::Ff1Post,
        );
        push_qkv(&mut v, c, l, n);
        push_attn(&mut v, c, l, n, k_scale);
        push_conv(&mut v, c, l, n);
        push_ff(
            &mut v,
            c,
            n,
            Weight::Ff2Pre,
            (l.ff2_up, Weight::Ff2Up),
            (l.ff2_down, Weight::Ff2Down),
            Weight::Ff2Post,
        );
        push_norm(&mut v, Buf::X, Weight::OutNorm, Buf::X, n, c.hidden);
        assert(v@ =~= layer_ops(*c, *l, n as int, k_scale));
        v
    }

    /// The steps of the conformer over `n` rows: the input projection, the
    /// layers, the output and its projection into the text model.
    pub fn encode(&self, clips: &Vec<AudioClips>, n: usize, k_scale: u32) -> (r: (
        Op,
        Vec<Vec<Op>>,
        Vec<Op>,
    ))
        requires
            audio::sized(self.cfg, 0),
            n <= 750,
            clips@.len() == self.cfg.n_layers,
        ensures
            r.0 == input_op(self.cfg, n as int),
            vision::op_views(r.1@) == conformer_ops(
                self.cfg,
                clips@,
                n as int,
                k_scale,
                self.cfg.n_layers as int,
            ),
            r.2@ == out_ops(self.cfg, self.lm_hidden, n as int),
    {
        let c: &G4AudioCfg = &self.cfg;
        let first: Op = Op::Gemm {
            weight: Weight::InputProj,
            src: Buf::H,
            dst: Buf::X,
            rows: n,
            n: c.hidden,
            k: (c.sub_ch.0 / 4) * c.sub_ch.1,
        };
        let mut layers: Vec<Vec<Op>> = Vec::new();
        let mut i: usize = 0;
        assert(vision::op_views(layers@) =~= conformer_ops(*c, clips@, n as int, k_scale, 0));
        while i < clips.len()
            invariant
                i <= clips@.len(),
                n <= 750,
                *c == self.cfg,
                audio::sized(*c, 0),
                vision::op_views(layers@) == conformer_ops(*c, clips@, n as int, k_scale, i as int),
            decreases clips@.len() - i,
        {
            let ghost before = layers@;
            let v: Vec<Op> = self.layer_steps(&clips[i], n, k_scale);
            let ghost vv = v@;
            layers.push(v);
            i = i + 1;
            assert(vision::op_views(layers@) =~= conformer_ops(
                *c,
                clips@,
                n as int,
                k_scale,
                i as int,
            )) by {
                assert(vision::op_views(layers@) =~= vision::op_views(before).push(vv));
            }
        }
        let mut out: Vec<Op> = Vec::new();
        out.push(
            Op::Gemm {
                weight: Weight::OutProj,
                src: Buf::X,
                dst: Buf::Out,
                rows: n,
                n: c.out_dims,
                k: c.hidden,
            },
        );
        out.push(
            Op::AddBias { weight: Weight::OutBias, buf: Buf::Out, rows: n, width: c.out_dims },
        );
        out.push(
            Op::RmsNorm {
                src: Buf::Out,
                row0: 0,
                weight: None,
                dst: Buf::Out,
                rows: n,
                width: c.out_dims,
            },
        );
        out.push(
            Op::Gemm {
                weight: Weight::EmbProj,
                src: Buf::Out,
                dst: Buf::Encoded,
                rows: n,
                n: self.lm_hidden,
                k: c.out_dims,
            },
        );
        assert(out@ =~= out_ops(*c, self.lm_hidden, n as int));
        (first, layers, out)
    }
}

pub open spec fn size_of(ws: AudioWs, b: Buf) -> int {
    match b {
        Buf::X => ws.x as int,
        Buf::H => ws.h as int,
        Buf::H2 => ws.h2 as int,
        Buf::Wide => ws.wide as int,
        Buf::Q => ws.q as int,
        Buf::K => ws.k as int,
        Buf::V => ws.v as int,
        Buf::Clip => ws.clip as int,
        Buf::Out => ws.out as int,
        Buf::RelPe => ws.rel as int,
        Buf::RelK => ws.rel as int,
        _ => 0,
    }
}

/// The scratch buffers, and the rows that a clip of `n` soft tokens becomes.
pub open spec fn size_with_rows(g: G4Audio, n: int, b: Buf) -> int {
    if b == Buf::Encoded {
        ops::row_bytes(n, g.lm_hidden as int)
    } else {
        size_of(g.ws, b)
    }
}

proof fn lemma_clip_fits(
    ws: AudioWs,
    c: Clips,
    weight: Weight,
    src: Buf,
    dst: Buf,
    rows: int,
    n_in: usize,
    n_out: usize,
)
    requires
        0 <= rows * n_in <= usize::MAX,
        0 <= rows * n_out <= usize::MAX,
        0 <= rows <= usize::MAX,
        2 * (rows * n_in) <= size_of(ws, src),
        2 * (rows * n_in) <= ws.clip,
        2 * (rows * n_out) <= size_of(ws, dst),
    ensures
        ops::all_fit(
            tower::clip_ops(c, weight, src, dst, rows, n_in, n_out),
            |b: Buf| size_of(ws, b),
        ),
{
}

/// The tower's configuration and buffers belong together.
pub open spec fn fitted(g: G4Audio) -> bool {
    audio::sized(g.cfg, g.lm_hidden as int) && audio::is_ws(g.ws, g.cfg, g.lm_hidden as int)
}

#[verifier::spinoff_prover]
#[verifier::rlimit(40)]
proof fn lemma_ff_fits(
    g: G4Audio,
    n: int,
    pre: Weight,
    up: (Clips, Weight),
    down: (Clips, Weight),
    post: Weight,
)
    requires
        fitted(g),
        audio::sized(g.cfg, 0),
        1 <= n <= 750,
    ensures
        ops::all_fit(ff_ops(g.cfg, n, pre, up, down, post), |b: Buf| size_of(g.ws, b)),
{
    let c = g.cfg;
    let size = |b: Buf| size_of(g.ws, b);
    lemma_rows(c, n);
    let h = c.hidden;
    let h4 = (h * 4) as usize;
    assert((0 + n) * h == n * h);
    lemma_clip_fits(g.ws, up.0, up.1, Buf::H, Buf::Wide, n, h, h4);
    lemma_clip_fits(g.ws, down.0, down.1, Buf::Wide, Buf::H2, n, h4, h);
    let a = seq![vision::norm(Buf::X, Some(pre), Buf::H, n, h)];
    let b = tower::clip_ops(up.0, up.1, Buf::H, Buf::Wide, n, h, h4);
    let d = seq![Op::Silu { buf: Buf::Wide, n: (n * h4) as usize }];
    let e = tower::clip_ops(down.0, down.1, Buf::Wide, Buf::H2, n, h4, h);
    let f = seq![
        vision::norm(Buf::H2, Some(post), Buf::H2, n, h),
        Op::Scale { buf: Buf::H2, factor: c.residual_w, n: (n * h) as usize },
        Op::Add { dst: Buf::X, src: Buf::H2, n: (n * h) as usize },
    ];
    assert(ops::all_fit(a, size));
    assert(ops::all_fit(d, size));
    assert(ops::all_fit(f, size));
    ops::lemma_all_fit_concat(a, b, size);
    ops::lemma_all_fit_concat(a + b, d, size);
    ops::lemma_all_fit_concat(e, f, size);
    ops::lemma_all_fit_concat(a + b + d, e + f, size);
}

#[verifier::spinoff_prover]
#[verifier::rlimit(40)]
proof fn lemma_qkv_fits(g: G4Audio, l: AudioClips, n: int)
    requires
        fitted(g),
        audio::sized(g.cfg, 0),
        1 <= n <= 750,
    ensures
        ops::all_fit(qkv_ops(g.cfg, l, n), |b: Buf| size_of(g.ws, b)),
{
    let c = g.cfg;
    let size = |b: Buf| size_of(g.ws, b);
    lemma_rows(c, n);
    let h = c.hidden;
    assert((0 + n) * h == n * h);
    lemma_clip_fits(g.ws, l.q, Weight::Wq, Buf::H, Buf::Q, n, h, h);
    lemma_clip_fits(g.ws, l.k, Weight::Wk, Buf::H, Buf::K, n, h, h);
    lemma_clip_fits(g.ws, l.v, Weight::Wv, Buf::H, Buf::V, n, h, h);
    let a = seq![vision::norm(Buf::X, Some(Weight::InputNorm), Buf::H, n, h)];
    let b = tower::clip_ops(l.q, Weight::Wq, Buf::H, Buf::Q, n, h, h);
    let d = tower::clip_ops(l.k, Weight::Wk, Buf::H, Buf::K, n, h, h);
    let e = tower::clip_ops(l.v, Weight::Wv, Buf::H, Buf::V, n, h, h);
    assert(ops::all_fit(a, size));
    ops::lemma_all_fit_concat(a, b, size);
    ops::lemma_all_fit_concat(a + b, d, size);
    ops::lemma_all_fit_concat(a + b + d, e, size);
}

#[verifier::spinoff_prover]
#[verifier::rlimit(40)]
proof fn lemma_attn_fits(g: G4Audio, l: AudioClips, n: int, k_scale: u32)
    requires
        fitted(g),
        audio::sized(g.cfg, 0),
        1 <= n <= 750,
    ensures
        ops::all_fit(attn_ops(g.cfg, l, n, k_scale), |b: Buf| size_of(g.ws, b)),
{
    let c = g.cfg;
    let size = |b: Buf| size_of(g.ws, b);
    lemma_rows(c, n);
    let h = c.hidden;
    assert((0 + n) * h == n * h);
    lemma_clip_fits(g.ws, l.post, Weight::Wo, Buf::H2, Buf::H, n, h, h);
    let a = seq![
        Op::MulVec { weight: Weight::QScale, buf: Buf::Q, rows: n as usize, width: h },
        Op::Scale { buf: Buf::K, factor: k_scale, n: (n * h) as usize },
        Op::AudioAttn {
            dst: Buf::H2,
            rows: n as usize,
            heads: c.n_heads,
            dim: (h as int / c.n_heads as int) as usize,
            chunk: c.chunk,
            past: c.past,
            cap: c.logit_cap,
            invalid: c.invalid_logit,
        },
    ];
    let b = tower::clip_ops(l.post, Weight::Wo, Buf::H2, Buf::H, n, h, h);
    let d = seq![
        vision::norm(Buf::H, Some(Weight::PostAttnNorm), Buf::H, n, h),
        Op::Add { dst: Buf::X, src: Buf::H, n: (n * h) as usize },
    ];
    vstd::arithmetic::div_mod::lemma_div_nonincreasing(h as int, c.n_heads as int);
    vstd::arithmetic::div_mod::lemma_div_pos_is_pos(h as int, c.n_heads as int);
    assert(ops::fits(a[0], size));
    assert(ops::fits(a[1], size));
    assert(ops::fits(a[2], size));
    assert(ops::all_fit(a, size));
    assert(ops::all_fit(d, size));
    ops::lemma_all_fit_concat(a, b, size);
    ops::lemma_all_fit_concat(a + b, d, size);
}

/// The gated linear unit and the convolution, with its norm and activation.
pub open spec fn conv_mid(c: G4AudioCfg, n: int) -> Seq<Op> {
    let h = c.hidden;
    seq![
        Op::Glu { dst: Buf::H, rows: n as usize, width: h },
        Op::DwConv { weight: Weight::ConvKernel, src: Buf::H, dst: Buf::H2, rows: n as usize, width: h, taps: c.conv_k },
        vision::norm(Buf::H2, Some(Weight::ConvNorm), Buf::H2, n, h),
        Op::Silu { buf: Buf::H2, n: (n * h) as usize },
    ]
}

#[verifier::spinoff_prover]
#[verifier::rlimit(40)]
proof fn lemma_conv_mid_fits(g: G4Audio, n: int)
    requires
        fitted(g),
        audio::sized(g.cfg, 0),
        1 <= n <= 750,
    ensures
        ops::all_fit(conv_mid(g.cfg, n), |b: Buf| size_of(g.ws, b)),
{
    let c = g.cfg;
    let size = |b: Buf| size_of(g.ws, b);
    lemma_rows(c, n);
    let v = conv_mid(c, n);
    assert((0 + n) * c.hidden == n * c.hidden);
    assert(ops::fits(v[0], size));
    assert(ops::fits(v[1], size));
    assert(ops::fits(v[2], size));
    assert(ops::fits(v[3], size));
}

#[verifier::spinoff_prover]
#[verifier::rlimit(40)]
proof fn lemma_conv_fits(g: G4Audio, l: AudioClips, n: int)
    requires
        fitted(g),
        audio::sized(g.cfg, 0),
        1 <= n <= 750,
    ensures
        ops::all_fit(conv_ops(g.cfg, l, n), |b: Buf| size_of(g.ws, b)),
{
    let c = g.cfg;
    let size = |b: Buf| size_of(g.ws, b);
    lemma_rows(c, n);
    let h = c.hidden;
    let h2 = (h * 2) as usize;
    assert((0 + n) * h == n * h);
    lemma_clip_fits(g.ws, l.start, Weight::ConvStart, Buf::H, Buf::Wide, n, h, h2);
    lemma_clip_fits(g.ws, l.end, Weight::ConvEnd, Buf::H2, Buf::H, n, h, h);
    lemma_conv_mid_fits(g, n);
    let a = seq![vision::norm(Buf::X, Some(Weight::ConvPre), Buf::H, n, h)];
    let b = tower::clip_ops(l.start, Weight::ConvStart, Buf::H, Buf::Wide, n, h, h2);
    let d = conv_mid(c, n);
    let e = tower::clip_ops(l.end, Weight::ConvEnd, Buf::H2, Buf::H, n, h, h);
    let f = seq![Op::Add { dst: Buf::X, src: Buf::H, n: (n * h) as usize }];
    assert(ops::fits(a[0], size));
    assert(ops::fits(f[0], size));
    ops::lemma_all_fit_concat(a, b, size);
    ops::lemma_all_fit_concat(a + b, d, size);
    ops::lemma_all_fit_concat(a + b + d, e, size);
    ops::lemma_all_fit_concat(a + b + d + e, f, size);
}

#[verifier::spinoff_prover]
#[verifier::rlimit(40)]
proof fn lemma_input_fits(g: G4Audio, n: int)
    requires
        fitted(g),
        audio::sized(g.cfg, 0),
        1 <= n <= 750,
        audio::proj_in(g.cfg) <= g.cfg.hidden,
    ensures
        ops::fits(input_op(g.cfg, n), |b: Buf| size_of(g.ws, b)),
{
    let c = g.cfg;
    lemma_rows(c, n);
    let p = audio::proj_in(c);
    let (x, y) = (c.sub_ch.0 as int / 4, c.sub_ch.1 as int);
    assert(x * y >= 0) by (nonlinear_arith)
        requires
            x >= 0,
            y >= 0,
    ;
    assert(0 <= n * p <= n * c.hidden) by (nonlinear_arith)
        requires
            0 <= p <= c.hidden,
            n >= 0,
    ;
}

#[verifier::spinoff_prover]
#[verifier::rlimit(40)]
proof fn lemma_outputs_fit(g: G4Audio, n: int)
    requires
        fitted(g),
        audio::sized(g.cfg, 0),
        1 <= n <= 750,
    ensures
        ops::all_fit(out_ops(g.cfg, g.lm_hidden, n), |b: Buf| size_with_rows(g, n, b)),
{
    let c = g.cfg;
    let size = |b: Buf| size_with_rows(g, n, b);
    lemma_rows(c, n);
    let (m, o, w) = (audio::rows_max(c), c.out_dims as int, audio::out_width(c, g.lm_hidden as int));
    assert(n * o <= m * w) by (nonlinear_arith)
        requires
            0 <= n <= m,
            0 <= o <= w,
    ;
    assert((0 + n) * o == n * o);
    let v = out_ops(c, g.lm_hidden, n);
    assert(ops::fits(v[0], size));
    assert(ops::fits(v[1], size));
    assert(ops::fits(v[2], size));
    assert(2 * (n * g.lm_hidden) == ops::row_bytes(n, g.lm_hidden as int));
    assert(ops::fits(v[3], size));
}

#[verifier::spinoff_prover]
#[verifier::rlimit(40)]
proof fn lemma_layer_fits(g: G4Audio, l: AudioClips, n: int, k_scale: u32)
    requires
        fitted(g),
        audio::sized(g.cfg, 0),
        1 <= n <= 750,
    ensures
        ops::all_fit(layer_ops(g.cfg, l, n, k_scale), |b: Buf| size_of(g.ws, b)),
{
    let c = g.cfg;
    let size = |b: Buf| size_of(g.ws, b);
    lemma_rows(c, n);
    lemma_ff_fits(g, n, Weight::Ff1Pre, (l.ff1_up, Weight::Ff1Up), (l.ff1_down, Weight::Ff1Down), Weight::Ff1Post);
    lemma_ff_fits(g, n, Weight::Ff2Pre, (l.ff2_up, Weight::Ff2Up), (l.ff2_down, Weight::Ff2Down), Weight::Ff2Post);
    lemma_qkv_fits(g, l, n);
    lemma_attn_fits(g, l, n, k_scale);
    lemma_conv_fits(g, l, n);
    let a = seq![rel_op(c)];
    let z = seq![vision::norm(Buf::X, Some(Weight::OutNorm), Buf::X, n, c.hidden)];
    assert((0 + n) * c.hidden == n * c.hidden);
    assert(ops::fits(a[0], size));
    assert(ops::fits(z[0], size));
    let (b, d, e, f, k) = (
        ff1_ops(c, l, n),
        qkv_ops(c, l, n),
        attn_ops(c, l, n, k_scale),
        conv_ops(c, l, n),
        ff2_ops(c, l, n),
    );
    ops::lemma_all_fit_concat(a, b, size);
    ops::lemma_all_fit_concat(a + b, d, size);
    ops::lemma_all_fit_concat(a + b + d, e, size);
    ops::lemma_all_fit_concat(a + b + d + e, f, size);
    ops::lemma_all_fit_concat(a + b + d + e + f, k, size);
    ops::lemma_all_fit_concat(a + b + d + e + f + k, z, size);
}

/// No step of the conformer leaves its buffers, for every number of soft
/// tokens, where a subsampled row is no wider than the residual stream (whose
/// buffer stages the rows); the last projection fills the clip's own rows and
/// no more.
pub proof fn law_conformer_stays_in_its_buffers(g: G4Audio, l: AudioClips, n: int, k_scale: u32)
    requires
        fitted(g),
        audio::sized(g.cfg, 0),
        1 <= n <= 750,
        audio::proj_in(g.cfg) <= g.cfg.hidden,
    ensures
        ops::fits(input_op(g.cfg, n), |b: Buf| size_of(g.ws, b)),
        ops::all_fit(layer_ops(g.cfg, l, n, k_scale), |b: Buf| size_of(g.ws, b)),
        ops::all_fit(out_ops(g.cfg, g.lm_hidden, n), |b: Buf| size_with_rows(g, n, b)),
{
    lemma_input_fits(g, n);
    lemma_layer_fits(g, l, n, k_scale);
    lemma_outputs_fit(g, n);
}

} // verus!
