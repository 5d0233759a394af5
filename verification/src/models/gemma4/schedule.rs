//! The steps of a forward pass through the text model.
//!
//! ```text
//! x += post_attn_norm(attn(input_norm(x)))
//! x += post_ffw_norm(geglu_mlp(pre_ffw_norm(x)))
//! x += post_ple_norm(ple_proj(gelu(ple_gate(x)) * ple_i))   [with per-layer inputs]
//! x *= layer_scalar
//! ```
use vstd::prelude::*;

use crate::ieee::Format;
use crate::models::gemma4::config::{G4TextCfg, LayerType};
use crate::models::gemma4::graph;
use crate::models::gemma4::graph::Gemma4;
use crate::models::gemma4::plan;
use crate::models::gemma4::plan::{G4Ws, LayerPlan};
use crate::models::ops;
use crate::models::ops::{Buf, Op, Weight};
use crate::models::{CHUNK, ONE};

verus! {

/// How a chunk runs: `rows` rows at positions `pos0..`; `blocks` where media
/// blocks attend in both directions; `counter` where positions come from the
/// counter on the device.
#[derive(Clone, Copy, PartialEq, Eq, Debug, Structural)]
pub struct Pass {
    pub rows: usize,
    pub pos0: usize,
    pub blocks: bool,
    pub counter: bool,
}

/// Queries of a layer.
pub open spec fn query_ops(t: G4TextCfg, p: LayerPlan, c: Pass, factors: bool) -> Seq<Op> {
    seq![
        Op::RmsNorm {
            src: Buf::X,
            row0: 0,
            weight: Some(Weight::InputNorm),
            dst: Buf::H,
            rows: c.rows,
            width: t.hidden,
        },
        Op::Gemm { weight: Weight::Wq, src: Buf::H, dst: Buf::Q, rows: c.rows, n: p.qd, k: t.hidden },
        Op::RmsNorm {
            src: Buf::Q,
            row0: 0,
            weight: Some(Weight::QNorm),
            dst: Buf::Q,
            rows: (c.rows * t.n_heads) as usize,
            width: p.head_dim,
        },
        Op::Rope {
            buf: Buf::Q,
            rows: c.rows,
            heads: t.n_heads,
            dim: p.head_dim,
            pos0: c.pos0,
            theta: p.theta,
            nfreqs: p.nfreqs,
            counter: c.counter,
            factors,
        },
    ]
}

/// The projection of the keys; where values have none of their own, they
/// branch off before the key norm.
pub open spec fn key_ops(t: G4TextCfg, p: LayerPlan, c: Pass) -> Seq<Op> {
    let key = Op::Gemm { weight: Weight::Wk, src: Buf::H, dst: Buf::K, rows: c.rows, n: p.kvd, k: t.hidden };
    if p.own_values {
        seq![key]
    } else {
        seq![key, Op::Copy { src: Buf::K, dst: Buf::V, n: (c.rows * p.kvd) as usize }]
    }
}

/// The projection of the values, where they have their own.
pub open spec fn value_ops(t: G4TextCfg, p: LayerPlan, c: Pass) -> Seq<Op> {
    if p.own_values {
        seq![
            Op::Gemm { weight: Weight::Wv, src: Buf::H, dst: Buf::V, rows: c.rows, n: p.kvd, k: t.hidden },
        ]
    } else {
        Seq::empty()
    }
}

/// Keys and values of a computing layer `i`: keys take the learned norm and
/// the rotary embedding, values a norm without weight.
pub open spec fn kv_ops(t: G4TextCfg, p: LayerPlan, i: int, c: Pass, factors: bool) -> Seq<Op> {
    if p.shared {
        Seq::empty()
    } else {
        key_ops(t, p, c) + seq![
            Op::RmsNorm {
                src: Buf::K,
                row0: 0,
                weight: Some(Weight::KNorm),
                dst: Buf::K,
                rows: (c.rows * p.kv_heads) as usize,
                width: p.head_dim,
            },
            Op::Rope {
                buf: Buf::K,
                rows: c.rows,
                heads: p.kv_heads,
                dim: p.head_dim,
                pos0: c.pos0,
                theta: p.theta,
                nfreqs: p.nfreqs,
                counter: c.counter,
                factors,
            },
        ] + value_ops(t, p, c) + seq![
            Op::RmsNorm {
                src: Buf::V,
                row0: 0,
                weight: None,
                dst: Buf::V,
                rows: (c.rows * p.kv_heads) as usize,
                width: p.head_dim,
            },
            Op::KvAppend {
                k: Buf::K,
                v: Buf::V,
                kc: Buf::KCache(i as usize),
                vc: Buf::VCache(i as usize),
                rows: c.rows,
                heads: p.kv_heads,
                dim: p.head_dim,
                pos0: c.pos0,
                cap: t.max_seq,
                counter: c.counter,
            },
        ]
    }
}

/// Attention over the cache of the source layer: split for one row where the
/// head width allows it.
pub open spec fn attn_ops(t: G4TextCfg, p: LayerPlan, c: Pass, csz: int) -> Seq<Op> {
    let (kc, vc) = (Buf::KCache(p.kv_src), Buf::VCache(p.kv_src));
    let pieces = ((t.max_seq + csz - 1) / csz) as usize;
    if c.rows == 1 && p.head_dim % 32 == 0 && p.head_dim <= 256 {
        seq![
            Op::AttnSplit {
                q: Buf::Q,
                scale: ONE,
                kc,
                vc,
                heads: t.n_heads,
                kv_heads: p.kv_heads,
                dim: p.head_dim,
                len: (c.pos0 + 1) as usize,
                cap: t.max_seq,
                piece: csz as usize,
                pieces,
                window: p.window,
                counter: c.counter,
            },
            Op::AttnReduce {
                heads: t.n_heads,
                dim: p.head_dim,
                len: (c.pos0 + 1) as usize,
                piece: csz as usize,
                pieces,
                window: p.window,
                counter: c.counter,
            },
        ]
    } else if c.rows == 1 {
        seq![
            Op::AttnDecode {
                q: Buf::Q,
                scale: ONE,
                kc,
                vc,
                heads: t.n_heads,
                kv_heads: p.kv_heads,
                dim: p.head_dim,
                len: (c.pos0 + 1) as usize,
                cap: t.max_seq,
                window: p.window,
                counter: c.counter,
            },
        ]
    } else {
        seq![
            Op::AttnPrefill {
                q: Buf::Q,
                scale: ONE,
                kc,
                vc,
                rows: c.rows,
                heads: t.n_heads,
                kv_heads: p.kv_heads,
                dim: p.head_dim,
                pos0: c.pos0,
                cap: t.max_seq,
                causal: true,
                window: p.window,
                blocks: c.blocks,
            },
        ]
    }
}

/// The output projection and the feed-forward block, each normed and added to
/// the residual stream.
pub open spec fn mlp_ops(t: G4TextCfg, p: LayerPlan, c: Pass) -> Seq<Op> {
    let n = (c.rows * t.hidden) as usize;
    seq![
        Op::Gemm { weight: Weight::Wo, src: Buf::Att, dst: Buf::H2, rows: c.rows, n: t.hidden, k: p.qd },
        Op::RmsNorm {
            src: Buf::H2,
            row0: 0,
            weight: Some(Weight::PostAttnNorm),
            dst: Buf::H2,
            rows: c.rows,
            width: t.hidden,
        },
        Op::Add { dst: Buf::X, src: Buf::H2, n },
        Op::RmsNorm {
            src: Buf::X,
            row0: 0,
            weight: Some(Weight::PreFfwNorm),
            dst: Buf::H,
            rows: c.rows,
            width: t.hidden,
        },
        Op::Gemm { weight: Weight::WGate, src: Buf::H, dst: Buf::Gate, rows: c.rows, n: p.inter, k: t.hidden },
        Op::Gemm { weight: Weight::WUp, src: Buf::H, dst: Buf::Up, rows: c.rows, n: p.inter, k: t.hidden },
        Op::Geglu { n: (c.rows * p.inter) as usize },
        Op::Gemm { weight: Weight::WDown, src: Buf::Gate, dst: Buf::H2, rows: c.rows, n: t.hidden, k: p.inter },
        Op::RmsNorm {
            src: Buf::H2,
            row0: 0,
            weight: Some(Weight::PostFfwNorm),
            dst: Buf::H2,
            rows: c.rows,
            width: t.hidden,
        },
        Op::Add { dst: Buf::X, src: Buf::H2, n },
    ]
}

/// The per-layer input of layer `i`.
pub open spec fn ple_ops(t: G4TextCfg, i: int, c: Pass) -> Seq<Op> {
    if t.ple_dim == 0 {
        Seq::empty()
    } else {
        seq![
            Op::Gemm { weight: Weight::PleGate, src: Buf::X, dst: Buf::PleG, rows: c.rows, n: t.ple_dim, k: t.hidden },
            Op::Gelu { buf: Buf::PleG, n: (c.rows * t.ple_dim) as usize },
            Op::MulStrided {
                rows: c.rows,
                width: t.ple_dim,
                stride: (t.n_layers * t.ple_dim) as usize,
                offset: (i * t.ple_dim) as usize,
            },
            Op::Gemm { weight: Weight::PleProj, src: Buf::PleG, dst: Buf::H2, rows: c.rows, n: t.hidden, k: t.ple_dim },
            Op::RmsNorm {
                src: Buf::H2,
                row0: 0,
                weight: Some(Weight::PleNorm),
                dst: Buf::H2,
                rows: c.rows,
                width: t.hidden,
            },
            Op::Add { dst: Buf::X, src: Buf::H2, n: (c.rows * t.hidden) as usize },
        ]
    }
}

/// A scalar further than `1e-9` from one.
pub open spec fn scales(scalar: u32) -> bool {
    Format::F32.less(
        0x3089_705f,
        Format::F32.mag(Format::F32.difference(scalar as int, 0x3f80_0000)),
    )
}

pub open spec fn scale_ops(t: G4TextCfg, scalar: u32, c: Pass) -> Seq<Op> {
    if scales(scalar) {
        seq![Op::Scale { buf: Buf::X, factor: scalar, n: (c.rows * t.hidden) as usize }]
    } else {
        Seq::empty()
    }
}

/// All steps of layer `i`.
pub open spec fn layer_ops(g: Gemma4, i: int, c: Pass, ple: bool) -> Seq<Op> {
    let t = g.cfg.text;
    let p = g.layers@[i];
    let factors = g.rope_factors && t.layer_types@[i] == LayerType::Full;
    query_ops(t, p, c, factors) + kv_ops(t, p, i, c, factors) + attn_ops(t, p, c, g.csz as int)
        + mlp_ops(t, p, c) + (if ple {
        ple_ops(t, i, c)
    } else {
        Seq::empty()
    }) + scale_ops(t, g.scalars@[i], c)
}

/// The sizes of the buffers.
pub open spec fn size_of(ws: G4Ws, layers: Seq<LayerPlan>, b: Buf) -> int {
    match b {
        Buf::X => ws.x as int,
        Buf::H => ws.h as int,
        Buf::H2 => ws.h2 as int,
        Buf::Q => ws.q as int,
        Buf::K => ws.k as int,
        Buf::V => ws.v as int,
        Buf::Att => ws.att as int,
        Buf::Gate => ws.gate as int,
        Buf::Up => ws.up as int,
        Buf::Ple => ws.ple as int,
        Buf::PleId => ws.ple_id as int,
        Buf::PleG => ws.ple_g as int,
        Buf::BlkId => ws.blkid as int,
        Buf::Ids => ws.ids as int,
        Buf::LogitsH => ws.logits_h as int,
        Buf::LogitsF => ws.logits_f as int,
        Buf::ArgmaxSlot => ws.argmax_slot as int,
        Buf::PosDev => ws.pos_dev as int,
        Buf::AttPart => ws.att_part as int,
        Buf::Cand => ws.cand as int,
        Buf::HistRing => ws.hist_ring as int,
        Buf::HistCounts => ws.hist_counts as int,
        Buf::KCache(i) => if i < layers.len() {
            layers[i as int].kv_bytes as int
        } else {
            0
        },
        Buf::VCache(i) => if i < layers.len() {
            layers[i as int].kv_bytes as int
        } else {
            0
        },
        _ => 0,
    }
}

/// A graph whose layers and buffers are those of its configuration.
pub open spec fn runnable(g: Gemma4) -> bool {
    let t = g.cfg.text;
    &&& graph::buildable(t, g.csz as int)
    &&& graph::are_layers(g.layers@, t)
    &&& g.scalars@.len() == t.n_layers
    &&& exists|wsc: int| #[trigger] plan::is_workspace(g.ws, t, wsc, g.csz as int)
}

/// A pass that the buffers hold. With the counter on the device there is one
/// row.
pub open spec fn admissible(t: G4TextCfg, c: Pass) -> bool {
    &&& 1 <= c.rows <= CHUNK
    &&& c.pos0 + c.rows <= t.max_seq
}

pub proof fn lemma_rows(t: G4TextCfg, p: LayerPlan, i: int, c: Pass)
    requires
        plan::sized(t),
        0 <= i < t.n_layers,
        plan::is_layer(p, t, i),
        admissible(t, c),
    ensures
        0 <= c.rows * t.hidden <= CHUNK * t.hidden <= usize::MAX,
        0 <= c.rows * p.qd <= t.n_heads * plan::dmax(t) * CHUNK <= usize::MAX,
        0 <= c.rows * p.kvd <= plan::kvd_max(t) * CHUNK <= usize::MAX,
        0 <= c.rows * p.inter <= CHUNK * plan::imax(t) <= usize::MAX,
        0 <= c.rows * t.ple_dim <= CHUNK * t.ple_dim <= usize::MAX,
        0 <= t.n_layers * t.ple_dim <= usize::MAX,
        0 <= i * t.ple_dim,
        i * t.ple_dim + t.ple_dim <= t.n_layers * t.ple_dim,
        0 <= c.rows * t.n_heads <= usize::MAX,
        0 <= c.rows * p.kv_heads <= usize::MAX,
{
    plan::lemma_layer_sizes(t, i);
    plan::lemma_sized(t);
    let r = c.rows as int;
    let ch = CHUNK as int;
    let h = t.hidden as int;
    assert(0 <= r * h <= ch * h) by (nonlinear_arith)
        requires
            0 <= r <= ch,
            h >= 0,
    ;
    let d = plan::dmax(t);
    let w = plan::width(t, i);
    let nh = t.n_heads as int;
    let q = nh * w;
    let qm = nh * d;
    assert(0 <= q <= qm) by (nonlinear_arith)
        requires
            q == nh * w,
            qm == nh * d,
            0 <= w <= d,
            nh >= 0,
    ;
    assert(0 <= r * q <= qm * ch) by (nonlinear_arith)
        requires
            0 <= r <= ch,
            0 <= q <= qm,
    ;
    let k = plan::kv_heads(t, i) * w;
    let km = plan::kvd_max(t);
    assert(0 <= r * k <= km * ch) by (nonlinear_arith)
        requires
            0 <= r <= ch,
            0 <= k <= km,
    ;
    let (n, im) = (plan::inter_of(t, i), plan::imax(t));
    assert(0 <= r * n <= ch * im) by (nonlinear_arith)
        requires
            0 <= r <= ch,
            0 <= n <= im,
    ;
    let e = t.ple_dim as int;
    assert(0 <= r * e <= ch * e) by (nonlinear_arith)
        requires
            0 <= r <= ch,
            e >= 0,
    ;
    let l = t.n_layers as int;
    assert(0 <= i * e && i * e + e <= l * e) by (nonlinear_arith)
        requires
            0 <= i,
            i + 1 <= l,
            e >= 0,
    ;
    let kh = plan::kv_heads(t, i);
    assert(0 <= r * nh <= ch * nh && 0 <= r * kh <= ch * kh) by (nonlinear_arith)
        requires
            0 <= r <= ch,
            nh >= 0,
            kh >= 0,
    ;
}

fn push_queries(v: &mut Vec<Op>, t: &G4TextCfg, p: &LayerPlan, c: Pass, factors: bool)
    requires
        c.rows * t.n_heads <= usize::MAX,
    ensures
        final(v)@ == old(v)@ + query_ops(*t, *p, c, factors),
{
    v.push(
        Op::RmsNorm {
            src: Buf::X,
            row0: 0,
            weight: Some(Weight::InputNorm),
            dst: Buf::H,
            rows: c.rows,
            width: t.hidden,
        },
    );
    v.push(
        Op::Gemm { weight: Weight::Wq, src: Buf::H, dst: Buf::Q, rows: c.rows, n: p.qd, k: t.hidden },
    );
    v.push(
        Op::RmsNorm {
            src: Buf::Q,
            row0: 0,
            weight: Some(Weight::QNorm),
            dst: Buf::Q,
            rows: c.rows * t.n_heads,
            width: p.head_dim,
        },
    );
    v.push(
        Op::Rope {
            buf: Buf::Q,
            rows: c.rows,
            heads: t.n_heads,
            dim: p.head_dim,
            pos0: c.pos0,
            theta: p.theta,
            nfreqs: p.nfreqs,
            counter: c.counter,
            factors,
        },
    );
    assert(v@ =~= old(v)@ + query_ops(*t, *p, c, factors));
}

fn push_kv(v: &mut Vec<Op>, t: &G4TextCfg, p: &LayerPlan, i: usize, c: Pass, factors: bool)
    requires
        c.rows * p.kv_heads <= usize::MAX,
        c.rows * p.kvd <= usize::MAX,
    ensures
        final(v)@ == old(v)@ + kv_ops(*t, *p, i as int, c, factors),
{
    if p.shared {
        assert(v@ =~= old(v)@ + kv_ops(*t, *p, i as int, c, factors));
        return;
    }
    v.push(
        Op::Gemm { weight: Weight::Wk, src: Buf::H, dst: Buf::K, rows: c.rows, n: p.kvd, k: t.hidden },
    );
    if !p.own_values {
        v.push(Op::Copy { src: Buf::K, dst: Buf::V, n: c.rows * p.kvd });
    }
    v.push(
        Op::RmsNorm {
            src: Buf::K,
            row0: 0,
            weight: Some(Weight::KNorm),
            dst: Buf::K,
            rows: c.rows * p.kv_heads,
            width: p.head_dim,
        },
    );
    v.push(
        Op::Rope {
            buf: Buf::K,
            rows: c.rows,
            heads: p.kv_heads,
            dim: p.head_dim,
            pos0: c.pos0,
            theta: p.theta,
            nfreqs: p.nfreqs,
            counter: c.counter,
            factors,
        },
    );
    if p.own_values {
        v.push(
            Op::Gemm {
                weight: Weight::Wv,
                src: Buf::H,
                dst: Buf::V,
                rows: c.rows,
                n: p.kvd,
                k: t.hidden,
            },
        );
    }
    v.push(
        Op::RmsNorm {
            src: Buf::V,
            row0: 0,
            weight: None,
            dst: Buf::V,
            rows: c.rows * p.kv_heads,
            width: p.head_dim,
        },
    );
    v.push(
        Op::KvAppend {
            k: Buf::K,
            v: Buf::V,
            kc: Buf::KCache(i),
            vc: Buf::VCache(i),
            rows: c.rows,
            heads: p.kv_heads,
            dim: p.head_dim,
            pos0: c.pos0,
            cap: t.max_seq,
            counter: c.counter,
        },
    );
    assert(v@ =~= old(v)@ + kv_ops(*t, *p, i as int, c, factors));
}

fn push_attn(v: &mut Vec<Op>, t: &G4TextCfg, p: &LayerPlan, c: Pass, csz: usize)
    requires
        csz > 0,
        t.max_seq + csz <= usize::MAX,
        c.pos0 < usize::MAX,
    ensures
        final(v)@ == old(v)@ + attn_ops(*t, *p, c, csz as int),
{
    let kc: Buf = Buf::KCache(p.kv_src);
    let vc: Buf = Buf::VCache(p.kv_src);
    if c.rows == 1 && p.head_dim % 32 == 0 && p.head_dim <= 256 {
        let pieces: usize = (t.max_seq + csz - 1) / csz;
        v.push(
            Op::AttnSplit {
                q: Buf::Q,
                scale: ONE,
                kc,
                vc,
                heads: t.n_heads,
                kv_heads: p.kv_heads,
                dim: p.head_dim,
                len: c.pos0 + 1,
                cap: t.max_seq,
                piece: csz,
                pieces,
                window: p.window,
                counter: c.counter,
            },
        );
        v.push(
            Op::AttnReduce {
                heads: t.n_heads,
                dim: p.head_dim,
                len: c.pos0 + 1,
                piece: csz,
                pieces,
                window: p.window,
                counter: c.counter,
            },
        );
    } else if c.rows == 1 {
        v.push(
            Op::AttnDecode {
                q: Buf::Q,
                scale: ONE,
                kc,
                vc,
                heads: t.n_heads,
                kv_heads: p.kv_heads,
                dim: p.head_dim,
                len: c.pos0 + 1,
                cap: t.max_seq,
                window: p.window,
                counter: c.counter,
            },
        );
    } else {
        v.push(
            Op::AttnPrefill {
                q: Buf::Q,
                scale: ONE,
                kc,
                vc,
                rows: c.rows,
                heads: t.n_heads,
                kv_heads: p.kv_heads,
                dim: p.head_dim,
                pos0: c.pos0,
                cap: t.max_seq,
                causal: true,
                window: p.window,
                blocks: c.blocks,
            },
        );
    }
    assert(v@ =~= old(v)@ + attn_ops(*t, *p, c, csz as int));
}

fn push_mlp(v: &mut Vec<Op>, t: &G4TextCfg, p: &LayerPlan, c: Pass)
    requires
        c.rows * t.hidden <= usize::MAX,
        c.rows * p.inter <= usize::MAX,
    ensures
        final(v)@ == old(v)@ + mlp_ops(*t, *p, c),
{
    let n: usize = c.rows * t.hidden;
    v.push(
        Op::Gemm { weight: Weight::Wo, src: Buf::Att, dst: Buf::H2, rows: c.rows, n: t.hidden, k: p.qd },
    );
    v.push(
        Op::RmsNorm {
            src: Buf::H2,
            row0: 0,
            weight: Some(Weight::PostAttnNorm),
            dst: Buf::H2,
            rows: c.rows,
            width: t.hidden,
        },
    );
    v.push(Op::Add { dst: Buf::X, src: Buf::H2, n });
    v.push(
        Op::RmsNorm {
            src: Buf::X,
            row0: 0,
            weight: Some(Weight::PreFfwNorm),
            dst: Buf::H,
            rows: c.rows,
            width: t.hidden,
        },
    );
    v.push(
        Op::Gemm {
            weight: Weight::WGate,
            src: Buf::H,
            dst: Buf::Gate,
            rows: c.rows,
            n: p.inter,
            k: t.hidden,
        },
    );
    v.push(
        Op::Gemm {
            weight: Weight::WUp,
            src: Buf::H,
            dst: Buf::Up,
            rows: c.rows,
            n: p.inter,
            k: t.hidden,
        },
    );
    v.push(Op::Geglu { n: c.rows * p.inter });
    v.push(
        Op::Gemm {
            weight: Weight::WDown,
            src: Buf::Gate,
            dst: Buf::H2,
            rows: c.rows,
            n: t.hidden,
            k: p.inter,
        },
    );
    v.push(
        Op::RmsNorm {
            src: Buf::H2,
            row0: 0,
            weight: Some(Weight::PostFfwNorm),
            dst: Buf::H2,
            rows: c.rows,
            width: t.hidden,
        },
    );
    v.push(Op::Add { dst: Buf::X, src: Buf::H2, n });
    assert(v@ =~= old(v)@ + mlp_ops(*t, *p, c));
}

fn push_ple(v: &mut Vec<Op>, t: &G4TextCfg, i: usize, c: Pass)
    requires
        c.rows * t.hidden <= usize::MAX,
        c.rows * t.ple_dim <= usize::MAX,
        t.n_layers * t.ple_dim <= usize::MAX,
        i < t.n_layers,
    ensures
        final(v)@ == old(v)@ + ple_ops(*t, i as int, c),
{
    if t.ple_dim == 0 {
        assert(v@ =~= old(v)@ + ple_ops(*t, i as int, c));
        return;
    }
    proof {
        let (e, l, ii) = (t.ple_dim as int, t.n_layers as int, i as int);
        assert(ii * e <= l * e) by (nonlinear_arith)
            requires
                ii <= l,
                e >= 0,
        ;
    }
    v.push(
        Op::Gemm {
            weight: Weight::PleGate,
            src: Buf::X,
            dst: Buf::PleG,
            rows: c.rows,
            n: t.ple_dim,
            k: t.hidden,
        },
    );
    v.push(Op::Gelu { buf: Buf::PleG, n: c.rows * t.ple_dim });
    v.push(
        Op::MulStrided {
            rows: c.rows,
            width: t.ple_dim,
            stride: t.n_layers * t.ple_dim,
            offset: i * t.ple_dim,
        },
    );
    v.push(
        Op::Gemm {
            weight: Weight::PleProj,
            src: Buf::PleG,
            dst: Buf::H2,
            rows: c.rows,
            n: t.hidden,
            k: t.ple_dim,
        },
    );
    v.push(
        Op::RmsNorm {
            src: Buf::H2,
            row0: 0,
            weight: Some(Weight::PleNorm),
            dst: Buf::H2,
            rows: c.rows,
            width: t.hidden,
        },
    );
    v.push(Op::Add { dst: Buf::X, src: Buf::H2, n: c.rows * t.hidden });
    assert(v@ =~= old(v)@ + ple_ops(*t, i as int, c));
}

fn push_scale(v: &mut Vec<Op>, t: &G4TextCfg, scalar: u32, c: Pass)
    requires
        c.rows * t.hidden <= usize::MAX,
    ensures
        final(v)@ == old(v)@ + scale_ops(*t, scalar, c),
{
    let f: Format = Format::F32;
    if f.lt(0x3089_705f, f.magnitude(f.minus(scalar as u64, 0x3f80_0000))) {
        v.push(Op::Scale { buf: Buf::X, factor: scalar, n: c.rows * t.hidden });
    }
    assert(v@ =~= old(v)@ + scale_ops(*t, scalar, c));
}

/// The steps of all layers, up to layer `n`.
pub open spec fn forward_ops(g: Gemma4, n: int, c: Pass, ple: bool) -> Seq<Seq<Op>>
    decreases n,
{
    if n <= 0 {
        Seq::empty()
    } else {
        forward_ops(g, n - 1, c, ple).push(layer_ops(g, n - 1, c, ple))
    }
}

pub open spec fn op_views(v: Seq<Vec<Op>>) -> Seq<Seq<Op>> {
    Seq::new(v.len(), |i: int| v[i]@)
}

impl Gemma4 {
    fn layer_steps(&self, i: usize, c: Pass, ple: bool) -> (r: Vec<Op>)
        requires
            runnable(*self),
            i < self.cfg.text.n_layers,
            admissible(self.cfg.text, c),
        ensures
            r@ == layer_ops(*self, i as int, c, ple),
    {
        let t: &G4TextCfg = &self.cfg.text;
        let p: &LayerPlan = &self.layers[i];
        assert(plan::is_layer(self.layers@[i as int], *t, i as int));
        proof {
            lemma_rows(*t, *p, i as int, c);
        }
        let factors: bool = self.rope_factors && t.layer_types[i] == LayerType::Full;
        let mut v: Vec<Op> = Vec::new();
        push_queries(&mut v, t, p, c, factors);
        push_kv(&mut v, t, p, i, c, factors);
        push_attn(&mut v, t, p, c, self.csz);
        push_mlp(&mut v, t, p, c);
        let ghost before = v@;
        if ple {
            push_ple(&mut v, t, i, c);
        }
        proof {
            if !ple {
                assert(v@ =~= before + Seq::<Op>::empty());
            }
        }
        push_scale(&mut v, t, self.scalars[i], c);
        assert(v@ =~= layer_ops(*self, i as int, c, ple));
        v
    }

    /// The steps of a chunk, layer by layer. `ple` is false where per-layer
    /// inputs are switched off.
    pub fn forward_chunk(&self, c: Pass, ple: bool) -> (r: Vec<Vec<Op>>)
        requires
            runnable(*self),
            admissible(self.cfg.text, c),
        ensures
            op_views(r@) == forward_ops(*self, self.cfg.text.n_layers as int, c, ple),
    {
        let mut out: Vec<Vec<Op>> = Vec::new();
        let mut i: usize = 0;
        assert(op_views(out@) =~= Seq::empty());
        while i < self.cfg.text.n_layers
            invariant
                i <= self.cfg.text.n_layers,
                runnable(*self),
                admissible(self.cfg.text, c),
                op_views(out@) == forward_ops(*self, i as int, c, ple),
            decreases self.cfg.text.n_layers - i,
        {
            let ghost before = out@;
            assert(plan::is_layer(self.layers@[i as int], self.cfg.text, i as int));
            let steps: Vec<Op> = self.layer_steps(i, c, ple);
            let ghost sv = steps@;
            out.push(steps);
            assert(op_views(out@) =~= op_views(before).push(sv));
            i = i + 1;
        }
        out
    }
}

/// The cache of every layer's source is allocated for that layer's heads.
proof fn lemma_source_cache(g: Gemma4, i: int)
    requires
        runnable(g),
        0 <= i < g.cfg.text.n_layers,
    ensures
        ({
            let t = g.cfg.text;
            let p = g.layers@[i];
            let s = p.kv_src as int;
            &&& 0 <= s < g.layers@.len()
            &&& g.layers@[s].kv_bytes == ops::cache(
                t.max_seq as int,
                p.kv_heads as int,
                p.head_dim as int,
            )
        }),
{
    let t = g.cfg.text;
    assert(plan::is_layer(g.layers@[i], t, i));
    plan::law_sources_compute(t.layer_types@, plan::first_shared(t), i);
    let s = g.layers@[i].kv_src as int;
    assert(plan::is_layer(g.layers@[s], t, s));
}

proof fn lemma_fit_front(g: Gemma4, i: int, c: Pass, factors: bool)
    requires
        runnable(g),
        0 <= i < g.cfg.text.n_layers,
        admissible(g.cfg.text, c),
    ensures
        ops::all_fit(
            query_ops(g.cfg.text, g.layers@[i], c, factors),
            |b: Buf| size_of(g.ws, g.layers@, b),
        ),
{
    let t = g.cfg.text;
    let p = g.layers@[i];
    assert(plan::is_layer(p, t, i));
    lemma_rows(t, p, i, c);
    let (r, nh, d) = (c.rows as int, t.n_heads as int, p.head_dim as int);
    assert((r * nh) * d == r * (nh * d)) by (nonlinear_arith);
    assert((0 + r * nh) * d == r * (nh * d)) by (nonlinear_arith);
    assert((0 + r) * t.hidden == r * t.hidden);
}

proof fn lemma_fit_kv(g: Gemma4, i: int, c: Pass, factors: bool)
    requires
        runnable(g),
        0 <= i < g.cfg.text.n_layers,
        admissible(g.cfg.text, c),
    ensures
        ops::all_fit(
            kv_ops(g.cfg.text, g.layers@[i], i, c, factors),
            |b: Buf| size_of(g.ws, g.layers@, b),
        ),
{
    let t = g.cfg.text;
    let p = g.layers@[i];
    assert(plan::is_layer(p, t, i));
    lemma_rows(t, p, i, c);
    let (r, kh, d) = (c.rows as int, p.kv_heads as int, p.head_dim as int);
    assert((r * kh) * d == r * (kh * d)) by (nonlinear_arith);
    assert((0 + r * kh) * d == r * (kh * d)) by (nonlinear_arith);
    if !p.shared {
        lemma_source_cache(g, i);
        assert(p.kv_src == i);
    }
}

proof fn lemma_fit_attn(g: Gemma4, i: int, c: Pass)
    requires
        runnable(g),
        0 <= i < g.cfg.text.n_layers,
        admissible(g.cfg.text, c),
    ensures
        ops::all_fit(
            attn_ops(g.cfg.text, g.layers@[i], c, g.csz as int),
            |b: Buf| size_of(g.ws, g.layers@, b),
        ),
{
    let t = g.cfg.text;
    let p = g.layers@[i];
    let csz = g.csz as int;
    assert(plan::is_layer(p, t, i));
    lemma_rows(t, p, i, c);
    lemma_source_cache(g, i);
    plan::lemma_split(t, csz);
    plan::lemma_layer_sizes(t, i);
    let (r, nh, d) = (c.rows as int, t.n_heads as int, p.head_dim as int);
    assert(nh * d <= r * (nh * d)) by (nonlinear_arith)
        requires
            r >= 1,
            nh >= 0,
            d >= 0,
    ;
    let pieces = (t.max_seq + csz - 1) / csz;
    let hp = nh * pieces;
    let dm = plan::dmax(t) + 2;
    assert(hp * (d + 2) <= hp * dm) by (nonlinear_arith)
        requires
            hp >= 0,
            d + 2 <= dm,
    ;
    assert(hp * dm * 4 == 4 * (hp * dm));
    vstd::arithmetic::div_mod::lemma_fundamental_div_mod(t.max_seq + csz - 1, csz);
    assert(csz * pieces >= t.max_seq);
    assert(pieces <= usize::MAX) by {
        vstd::arithmetic::div_mod::lemma_div_nonincreasing(t.max_seq + csz - 1, csz);
    }
}

proof fn lemma_fit_mlp(g: Gemma4, i: int, c: Pass)
    requires
        runnable(g),
        0 <= i < g.cfg.text.n_layers,
        admissible(g.cfg.text, c),
    ensures
        ops::all_fit(
            mlp_ops(g.cfg.text, g.layers@[i], c),
            |b: Buf| size_of(g.ws, g.layers@, b),
        ),
{
    let t = g.cfg.text;
    let p = g.layers@[i];
    assert(plan::is_layer(p, t, i));
    lemma_rows(t, p, i, c);
    let r = c.rows as int;
    assert((0 + r) * t.hidden == r * t.hidden);
}

proof fn lemma_fit_ple(g: Gemma4, i: int, c: Pass)
    requires
        runnable(g),
        0 <= i < g.cfg.text.n_layers,
        admissible(g.cfg.text, c),
    ensures
        ops::all_fit(
            ple_ops(g.cfg.text, i, c),
            |b: Buf| size_of(g.ws, g.layers@, b),
        ),
        ops::all_fit(
            scale_ops(g.cfg.text, g.scalars@[i], c),
            |b: Buf| size_of(g.ws, g.layers@, b),
        ),
{
    let t = g.cfg.text;
    let p = g.layers@[i];
    assert(plan::is_layer(p, t, i));
    lemma_rows(t, p, i, c);
    let r = c.rows as int;
    assert((0 + r) * t.hidden == r * t.hidden);
    let slab = t.n_layers * t.ple_dim;
    let off = i * t.ple_dim;
    assert((r - 1) * slab + off + t.ple_dim <= slab * CHUNK) by (nonlinear_arith)
        requires
            1 <= r <= CHUNK,
            slab >= 0,
            off + t.ple_dim <= slab,
    ;
}

/// No step of a forward pass leaves its buffers: for every pass of at most a
/// chunk of rows within the context, each layer's steps stay within the
/// workspace and the caches that the plan sized.
pub proof fn law_passes_stay_in_their_buffers(g: Gemma4, i: int, c: Pass, ple: bool)
    requires
        runnable(g),
        0 <= i < g.cfg.text.n_layers,
        admissible(g.cfg.text, c),
    ensures
        ops::all_fit(layer_ops(g, i, c, ple), |b: Buf| size_of(g.ws, g.layers@, b)),
{
    let t = g.cfg.text;
    let p = g.layers@[i];
    let factors = g.rope_factors && t.layer_types@[i] == LayerType::Full;
    let size = |b: Buf| size_of(g.ws, g.layers@, b);
    lemma_fit_front(g, i, c, factors);
    lemma_fit_kv(g, i, c, factors);
    lemma_fit_attn(g, i, c);
    lemma_fit_mlp(g, i, c);
    lemma_fit_ple(g, i, c);
    let (a, b, d, e, f) = (
        query_ops(t, p, c, factors),
        kv_ops(t, p, i, c, factors),
        attn_ops(t, p, c, g.csz as int),
        mlp_ops(t, p, c),
        if ple {
            ple_ops(t, i, c)
        } else {
            Seq::empty()
        },
    );
    ops::lemma_all_fit_concat(a, b, size);
    ops::lemma_all_fit_concat(a + b, d, size);
    ops::lemma_all_fit_concat(a + b + d, e, size);
    ops::lemma_all_fit_concat(a + b + d + e, f, size);
    ops::lemma_all_fit_concat(a + b + d + e + f, scale_ops(t, g.scalars@[i], c), size);
}

} // verus!
