//! The steps of a forward pass through the dense decoder, and the steps
//! around it.
use vstd::prelude::*;

use crate::ieee::Format;
use crate::models::gemma4::feed;
use crate::models::gemma4::feed::square_root_of;
use crate::models::ops;
use crate::models::ops::{Buf, Epilogue, Op, Weight};
use crate::models::transformer::config::ModelConfig;
use crate::models::transformer::forecast;
use crate::models::transformer::graph;
use crate::models::transformer::graph::{Residency, Transformer};
use crate::models::{CHUNK, ONE, SAMPLE_TOPK};
use crate::num::f32_div;
use crate::tensor::DType;

verus! {

/// How a chunk runs: `rows` rows at positions `pos0..`; `counter` where
/// positions come from the counter on the device.
#[derive(Clone, Copy, PartialEq, Eq, Debug, Structural)]
pub struct Pass {
    pub rows: usize,
    pub pos0: usize,
    pub counter: bool,
}

/// How a layer runs.
#[derive(Clone, Copy, PartialEq, Eq, Debug, Structural)]
pub struct LayerKind {
    /// Projections run on their own instead of row-concatenated.
    pub split: bool,
    pub biased: bool,
}

pub open spec fn qd(c: ModelConfig) -> usize {
    forecast::qd(c) as usize
}

pub open spec fn kvd(c: ModelConfig) -> usize {
    forecast::kvd(c) as usize
}

/// What dot products are scaled by.
pub open spec fn scale(c: ModelConfig) -> u32 {
    Format::F32.quotient(ONE as int, feed::root_of(c.head_dim as int)) as u32
}

/// Where a pass has its queries, keys and values.
pub open spec fn q_buf(p: Pass) -> Buf {
    if p.rows == 1 {
        Buf::QRow
    } else {
        Buf::Q
    }
}

pub open spec fn k_buf(p: Pass) -> Buf {
    if p.rows == 1 {
        Buf::KRow
    } else {
        Buf::K
    }
}

pub open spec fn v_buf(p: Pass) -> Buf {
    if p.rows == 1 {
        Buf::VRow
    } else {
        Buf::V
    }
}

pub open spec fn norm_op(weight: Weight, p: Pass, c: ModelConfig) -> Op {
    Op::RmsNorm {
        src: Buf::X,
        row0: 0,
        weight: Some(weight),
        dst: Buf::H,
        rows: p.rows,
        width: c.hidden_size,
    }
}

pub open spec fn gemv(weight: Weight, bias: Option<Weight>, src: Buf, dst: Buf, n: usize, k: usize, epilogue: Epilogue) -> Op {
    Op::Gemv { weight, bias, src, dst, n, k, epilogue }
}

pub open spec fn when(b: bool, w: Weight) -> Option<Weight> {
    if b {
        Some(w)
    } else {
        None
    }
}

/// Queries, keys and values: one row goes through one product, or through
/// three where the projections are on their own.
pub open spec fn qkv_ops(c: ModelConfig, l: LayerKind, p: Pass) -> Seq<Op> {
    let (h, q, k) = (c.hidden_size, qd(c), kvd(c));
    if p.rows == 1 {
        if l.split {
            seq![
                gemv(Weight::Wq, when(l.biased, Weight::BiasQ), Buf::H, Buf::QRow, q, h, Epilogue::Store),
                gemv(Weight::Wk, when(l.biased, Weight::BiasK), Buf::H, Buf::KRow, k, h, Epilogue::Store),
                gemv(Weight::Wv, when(l.biased, Weight::BiasV), Buf::H, Buf::VRow, k, h, Epilogue::Store),
            ]
        } else {
            seq![
                gemv(
                    Weight::Wqkv,
                    when(l.biased, Weight::BiasQkv),
                    Buf::H,
                    Buf::Qkv,
                    (q + 2 * k) as usize,
                    h,
                    Epilogue::Store,
                ),
            ]
        }
    } else {
        seq![
            Op::Gemm { weight: Weight::Wq, src: Buf::H, dst: Buf::Q, rows: p.rows, n: q, k: h },
            Op::Gemm { weight: Weight::Wk, src: Buf::H, dst: Buf::K, rows: p.rows, n: k, k: h },
            Op::Gemm { weight: Weight::Wv, src: Buf::H, dst: Buf::V, rows: p.rows, n: k, k: h },
        ] + (if l.biased {
            seq![
                Op::AddBias { weight: Weight::BiasQ, buf: Buf::Q, rows: p.rows, width: q },
                Op::AddBias { weight: Weight::BiasK, buf: Buf::K, rows: p.rows, width: k },
                Op::AddBias { weight: Weight::BiasV, buf: Buf::V, rows: p.rows, width: k },
            ]
        } else {
            Seq::empty()
        })
    }
}

pub open spec fn rope(c: ModelConfig, p: Pass, buf: Buf, heads: usize) -> Op {
    Op::Rope {
        buf,
        rows: p.rows,
        heads,
        dim: c.head_dim,
        pos0: p.pos0,
        theta: c.rope_theta,
        nfreqs: c.head_dim / 2,
        counter: p.counter,
        factors: false,
    }
}

/// Rotary positions, and the caches of layer `i`.
pub open spec fn cache_ops(c: ModelConfig, i: int, p: Pass) -> Seq<Op> {
    seq![
        rope(c, p, q_buf(p), c.n_heads),
        rope(c, p, k_buf(p), c.n_kv_heads),
        Op::KvAppend {
            k: k_buf(p),
            v: v_buf(p),
            kc: Buf::KCache(i as usize),
            vc: Buf::VCache(i as usize),
            rows: p.rows,
            heads: c.n_kv_heads,
            dim: c.head_dim,
            pos0: p.pos0,
            cap: c.max_seq,
            counter: p.counter,
        },
    ]
}

/// Attention: one row in pieces where the head width allows it.
pub open spec fn attn_ops(c: ModelConfig, i: int, p: Pass, csz: int) -> Seq<Op> {
    let (kc, vc) = (Buf::KCache(i as usize), Buf::VCache(i as usize));
    let pieces = ((c.max_seq + csz - 1) / csz) as usize;
    let len = (p.pos0 + 1) as usize;
    if p.rows != 1 {
        seq![
            Op::AttnPrefill {
                q: Buf::Q,
                scale: scale(c),
                kc,
                vc,
                rows: p.rows,
                heads: c.n_heads,
                kv_heads: c.n_kv_heads,
                dim: c.head_dim,
                pos0: p.pos0,
                cap: c.max_seq,
                causal: true,
                window: 0,
                blocks: false,
            },
        ]
    } else if c.head_dim % 32 == 0 && c.head_dim <= 128 {
        seq![
            Op::AttnSplit {
                q: Buf::QRow,
                scale: scale(c),
                kc,
                vc,
                heads: c.n_heads,
                kv_heads: c.n_kv_heads,
                dim: c.head_dim,
                len,
                cap: c.max_seq,
                piece: csz as usize,
                pieces,
                window: 0,
                counter: p.counter,
            },
            Op::AttnReduce {
                heads: c.n_heads,
                dim: c.head_dim,
                len,
                piece: csz as usize,
                pieces,
                window: 0,
                counter: p.counter,
            },
        ]
    } else {
        seq![
            Op::AttnDecode {
                q: Buf::QRow,
                scale: scale(c),
                kc,
                vc,
                heads: c.n_heads,
                kv_heads: c.n_kv_heads,
                dim: c.head_dim,
                len,
                cap: c.max_seq,
                window: 0,
                counter: p.counter,
            },
        ]
    }
}

/// The output projection, added to the residual stream.
pub open spec fn out_ops(c: ModelConfig, p: Pass) -> Seq<Op> {
    let (h, q) = (c.hidden_size, qd(c));
    if p.rows == 1 {
        seq![gemv(Weight::Wo, None, Buf::Att, Buf::X, h, q, Epilogue::Accumulate)]
    } else {
        seq![
            Op::Gemm { weight: Weight::Wo, src: Buf::Att, dst: Buf::H, rows: p.rows, n: h, k: q },
            Op::Add { dst: Buf::X, src: Buf::H, n: (p.rows * h) as usize },
        ]
    }
}

/// The feed-forward block, added to the residual stream.
pub open spec fn mlp_ops(c: ModelConfig, l: LayerKind, p: Pass) -> Seq<Op> {
    let (h, f) = (c.hidden_size, c.intermediate_size);
    seq![norm_op(Weight::PreFfwNorm, p, c)] + (if p.rows == 1 {
        (if l.split {
            seq![
                gemv(Weight::WGate, None, Buf::H, Buf::Gate, f, h, Epilogue::Store),
                gemv(Weight::WUp, None, Buf::H, Buf::Up, f, h, Epilogue::Store),
                Op::SwiGlu { n: f },
            ]
        } else {
            seq![gemv(Weight::WGateUp, None, Buf::H, Buf::Gate, f, h, Epilogue::SiluMul)]
        }) + seq![gemv(Weight::WDown, None, Buf::Gate, Buf::X, h, f, Epilogue::Accumulate)]
    } else {
        seq![
            Op::Gemm { weight: Weight::WGate, src: Buf::H, dst: Buf::Gate, rows: p.rows, n: f, k: h },
            Op::Gemm { weight: Weight::WUp, src: Buf::H, dst: Buf::Up, rows: p.rows, n: f, k: h },
            Op::SwiGlu { n: (p.rows * f) as usize },
            Op::Gemm { weight: Weight::WDown, src: Buf::Gate, dst: Buf::H, rows: p.rows, n: h, k: f },
            Op::Add { dst: Buf::X, src: Buf::H, n: (p.rows * h) as usize },
        ]
    })
}

/// All steps of layer `i`.
pub open spec fn layer_ops(c: ModelConfig, l: LayerKind, i: int, p: Pass, csz: int) -> Seq<Op> {
    seq![norm_op(Weight::InputNorm, p, c)] + qkv_ops(c, l, p) + cache_ops(c, i, p) + attn_ops(
        c,
        i,
        p,
        csz,
    ) + out_ops(c, p) + mlp_ops(c, l, p)
}

/// A graph whose layers and buffers are those of its configuration.
pub open spec fn runnable(g: Transformer) -> bool {
    &&& graph::buildable(g.cfg, g.csz as int)
    &&& g.layers@.len() == g.cfg.n_layers
    &&& graph::is_ws(g.ws, g.cfg, g.split, g.csz as int)
}

/// A pass that the buffers hold.
pub open spec fn admissible(c: ModelConfig, p: Pass) -> bool {
    1 <= p.rows <= CHUNK && p.pos0 + p.rows <= c.max_seq
}

pub open spec fn kind(g: Transformer, i: int) -> LayerKind {
    LayerKind { split: g.split, biased: g.layers@[i].biased }
}

proof fn lemma_rows(c: ModelConfig, p: Pass)
    requires
        forecast::sized(c),
        admissible(c, p),
    ensures
        0 <= forecast::qd(c) <= usize::MAX,
        0 <= forecast::kvd(c) <= usize::MAX,
        forecast::qd(c) + 2 * forecast::kvd(c) <= usize::MAX,
        0 <= p.rows * c.hidden_size <= 512 * c.hidden_size <= usize::MAX,
        0 <= p.rows * c.intermediate_size <= 512 * c.intermediate_size <= usize::MAX,
        0 <= p.rows * forecast::qd(c) <= 512 * forecast::qd(c),
        0 <= p.rows * forecast::kvd(c) <= 512 * forecast::kvd(c),
        p.rows == 1 ==> p.rows * forecast::qd(c) == forecast::qd(c) && p.rows * forecast::kvd(c)
            == forecast::kvd(c) && p.rows * c.hidden_size == c.hidden_size,
{
    forecast::lemma_widths(c);
    let (r, h, f, q, k) = (
        p.rows as int,
        c.hidden_size as int,
        c.intermediate_size as int,
        forecast::qd(c),
        forecast::kvd(c),
    );
    assert(0 <= r * h <= 512 * h && 0 <= r * f <= 512 * f && 0 <= r * q <= 512 * q && 0 <= r * k
        <= 512 * k) by (nonlinear_arith)
        requires
            0 <= r <= 512,
            h >= 0,
            f >= 0,
            q >= 0,
            k >= 0,
    ;
}

fn when_some(b: bool, w: Weight) -> (r: Option<Weight>)
    ensures
        r == when(b, w),
{
    if b {
        Some(w)
    } else {
        None
    }
}

fn push_norm(v: &mut Vec<Op>, weight: Weight, p: Pass, c: &ModelConfig)
    ensures
        final(v)@ == old(v)@.push(norm_op(weight, p, *c)),
{
    v.push(
        Op::RmsNorm {
            src: Buf::X,
            row0: 0,
            weight: Some(weight),
            dst: Buf::H,
            rows: p.rows,
            width: c.hidden_size,
        },
    );
}

fn push_gemv(v: &mut Vec<Op>, weight: Weight, bias: Option<Weight>, src: Buf, dst: Buf, n: usize, k: usize, epilogue: Epilogue)
    ensures
        final(v)@ == old(v)@.push(gemv(weight, bias, src, dst, n, k, epilogue)),
{
    v.push(Op::Gemv { weight, bias, src, dst, n, k, epilogue });
}

fn push_qkv(v: &mut Vec<Op>, c: &ModelConfig, l: LayerKind, p: Pass)
    requires
        forecast::sized(*c),
        admissible(*c, p),
    ensures
        final(v)@ == old(v)@ + qkv_ops(*c, l, p),
{
    let ghost before = v@;
    proof {
        lemma_rows(*c, p);
    }
    let (h, q, k): (usize, usize, usize) = (
        c.hidden_size,
        c.n_heads * c.head_dim,
        c.n_kv_heads * c.head_dim,
    );
    if p.rows == 1 {
        if l.split {
            push_gemv(v, Weight::Wq, when_some(l.biased, Weight::BiasQ), Buf::H, Buf::QRow, q, h, Epilogue::Store);
            push_gemv(v, Weight::Wk, when_some(l.biased, Weight::BiasK), Buf::H, Buf::KRow, k, h, Epilogue::Store);
            push_gemv(v, Weight::Wv, when_some(l.biased, Weight::BiasV), Buf::H, Buf::VRow, k, h, Epilogue::Store);
        } else {
            push_gemv(v, Weight::Wqkv, when_some(l.biased, Weight::BiasQkv), Buf::H, Buf::Qkv, q + 2 * k, h, Epilogue::Store);
        }
    } else {
        v.push(Op::Gemm { weight: Weight::Wq, src: Buf::H, dst: Buf::Q, rows: p.rows, n: q, k: h });
        v.push(Op::Gemm { weight: Weight::Wk, src: Buf::H, dst: Buf::K, rows: p.rows, n: k, k: h });
        v.push(Op::Gemm { weight: Weight::Wv, src: Buf::H, dst: Buf::V, rows: p.rows, n: k, k: h });
        if l.biased {
            v.push(Op::AddBias { weight: Weight::BiasQ, buf: Buf::Q, rows: p.rows, width: q });
            v.push(Op::AddBias { weight: Weight::BiasK, buf: Buf::K, rows: p.rows, width: k });
            v.push(Op::AddBias { weight: Weight::BiasV, buf: Buf::V, rows: p.rows, width: k });
        }
    }
    assert(v@ =~= before + qkv_ops(*c, l, p));
}

fn push_rope(v: &mut Vec<Op>, c: &ModelConfig, p: Pass, buf: Buf, heads: usize)
    ensures
        final(v)@ == old(v)@.push(rope(*c, p, buf, heads)),
{
    v.push(
        Op::Rope {
            buf,
            rows: p.rows,
            heads,
            dim: c.head_dim,
            pos0: p.pos0,
            theta: c.rope_theta,
            nfreqs: c.head_dim / 2,
            counter: p.counter,
            factors: false,
        },
    );
}

fn push_cache(v: &mut Vec<Op>, c: &ModelConfig, i: usize, p: Pass)
    ensures
        final(v)@ == old(v)@ + cache_ops(*c, i as int, p),
{
    let ghost before = v@;
    let one: bool = p.rows == 1;
    let (qb, kb, vb): (Buf, Buf, Buf) = if one {
        (Buf::QRow, Buf::KRow, Buf::VRow)
    } else {
        (Buf::Q, Buf::K, Buf::V)
    };
    push_rope(v, c, p, qb, c.n_heads);
    push_rope(v, c, p, kb, c.n_kv_heads);
    v.push(
        Op::KvAppend {
            k: kb,
            v: vb,
            kc: Buf::KCache(i),
            vc: Buf::VCache(i),
            rows: p.rows,
            heads: c.n_kv_heads,
            dim: c.head_dim,
            pos0: p.pos0,
            cap: c.max_seq,
            counter: p.counter,
        },
    );
    assert(v@ =~= before + cache_ops(*c, i as int, p));
}

fn push_attn(v: &mut Vec<Op>, c: &ModelConfig, i: usize, p: Pass, csz: usize)
    requires
        csz > 0,
        c.max_seq + csz <= usize::MAX,
        admissible(*c, p),
    ensures
        final(v)@ == old(v)@ + attn_ops(*c, i as int, p, csz as int),
{
    let ghost before = v@;
    let scale: u32 = f32_div(ONE, square_root_of(c.head_dim));
    let (kc, vc): (Buf, Buf) = (Buf::KCache(i), Buf::VCache(i));
    if p.rows != 1 {
        v.push(
            Op::AttnPrefill {
                q: Buf::Q,
                scale,
                kc,
                vc,
                rows: p.rows,
                heads: c.n_heads,
                kv_heads: c.n_kv_heads,
                dim: c.head_dim,
                pos0: p.pos0,
                cap: c.max_seq,
                causal: true,
                window: 0,
                blocks: false,
            },
        );
    } else if c.head_dim % 32 == 0 && c.head_dim <= 128 {
        let pieces: usize = (c.max_seq + csz - 1) / csz;
        v.push(
            Op::AttnSplit {
                q: Buf::QRow,
                scale,
                kc,
                vc,
                heads: c.n_heads,
                kv_heads: c.n_kv_heads,
                dim: c.head_dim,
                len: p.pos0 + 1,
                cap: c.max_seq,
                piece: csz,
                pieces,
                window: 0,
                counter: p.counter,
            },
        );
        v.push(
            Op::AttnReduce {
                heads: c.n_heads,
                dim: c.head_dim,
                len: p.pos0 + 1,
                piece: csz,
                pieces,
                window: 0,
                counter: p.counter,
            },
        );
    } else {
        v.push(
            Op::AttnDecode {
                q: Buf::QRow,
                scale,
                kc,
                vc,
                heads: c.n_heads,
                kv_heads: c.n_kv_heads,
                dim: c.head_dim,
                len: p.pos0 + 1,
                cap: c.max_seq,
                window: 0,
                counter: p.counter,
            },
        );
    }
    assert(v@ =~= before + attn_ops(*c, i as int, p, csz as int));
}

fn push_out(v: &mut Vec<Op>, c: &ModelConfig, p: Pass)
    requires
        forecast::sized(*c),
        admissible(*c, p),
    ensures
        final(v)@ == old(v)@ + out_ops(*c, p),
{
    let ghost before = v@;
    proof {
        lemma_rows(*c, p);
    }
    let (h, q): (usize, usize) = (c.hidden_size, c.n_heads * c.head_dim);
    if p.rows == 1 {
        push_gemv(v, Weight::Wo, None, Buf::Att, Buf::X, h, q, Epilogue::Accumulate);
    } else {
        v.push(Op::Gemm { weight: Weight::Wo, src: Buf::Att, dst: Buf::H, rows: p.rows, n: h, k: q });
        v.push(Op::Add { dst: Buf::X, src: Buf::H, n: p.rows * h });
    }
    assert(v@ =~= before + out_ops(*c, p));
}

fn push_mlp(v: &mut Vec<Op>, c: &ModelConfig, l: LayerKind, p: Pass)
    requires
        forecast::sized(*c),
        admissible(*c, p),
    ensures
        final(v)@ == old(v)@ + mlp_ops(*c, l, p),
{
    let ghost before = v@;
    proof {
        lemma_rows(*c, p);
    }
    let (h, f): (usize, usize) = (c.hidden_size, c.intermediate_size);
    push_norm(v, Weight::PreFfwNorm, p, c);
    if p.rows == 1 {
        if l.split {
            push_gemv(v, Weight::WGate, None, Buf::H, Buf::Gate, f, h, Epilogue::Store);
            push_gemv(v, Weight::WUp, None, Buf::H, Buf::Up, f, h, Epilogue::Store);
            v.push(Op::SwiGlu { n: f });
        } else {
            push_gemv(v, Weight::WGateUp, None, Buf::H, Buf::Gate, f, h, Epilogue::SiluMul);
        }
        push_gemv(v, Weight::WDown, None, Buf::Gate, Buf::X, h, f, Epilogue::Accumulate);
    } else {
        v.push(Op::Gemm { weight: Weight::WGate, src: Buf::H, dst: Buf::Gate, rows: p.rows, n: f, k: h });
        v.push(Op::Gemm { weight: Weight::WUp, src: Buf::H, dst: Buf::Up, rows: p.rows, n: f, k: h });
        v.push(Op::SwiGlu { n: p.rows * f });
        v.push(Op::Gemm { weight: Weight::WDown, src: Buf::Gate, dst: Buf::H, rows: p.rows, n: h, k: f });
        v.push(Op::Add { dst: Buf::X, src: Buf::H, n: p.rows * h });
    }
    assert(v@ =~= before + mlp_ops(*c, l, p));
}

pub open spec fn op_views(v: Seq<Vec<Op>>) -> Seq<Seq<Op>> {
    Seq::new(v.len(), |i: int| v[i]@)
}

pub open spec fn forward_ops(g: Transformer, p: Pass, n: int) -> Seq<Seq<Op>> {
    Seq::new(n as nat, |i: int| layer_ops(g.cfg, kind(g, i), i, p, g.csz as int))
}

/// Gathers the embeddings of the uploaded tokens.
pub open spec fn gather_op(g: Transformer, rows: int) -> Op {
    Op::Gather {
        table: Weight::Embed,
        packed: match g.embed {
            Residency::Packed(dt) => Some(dt),
            _ => None,
        },
        row0: 0,
        ids: Buf::Ids,
        dst: Buf::X,
        rows: rows as usize,
        width: g.cfg.hidden_size,
    }
}

/// The weight that makes logits.
pub open spec fn head_weight(g: Transformer) -> Weight {
    if g.tied {
        Weight::Embed
    } else {
        Weight::Head
    }
}

/// The logits of one row: a head that stays packed is multiplied by as it is.
pub open spec fn head_ops(g: Transformer, row: int) -> Seq<Op> {
    let c = g.cfg;
    seq![
        Op::RmsNorm {
            src: Buf::X,
            row0: row as usize,
            weight: Some(Weight::FinalNorm),
            dst: Buf::H,
            rows: 1,
            width: c.hidden_size,
        },
        if g.head is Some {
            gemv(
                head_weight(g),
                None,
                Buf::H,
                Buf::LogitsH,
                c.vocab_size,
                c.hidden_size,
                Epilogue::Store,
            )
        } else {
            Op::Gemm {
                weight: head_weight(g),
                src: Buf::H,
                dst: Buf::LogitsH,
                rows: 1,
                n: c.vocab_size,
                k: c.hidden_size,
            }
        },
    ]
}

/// What becomes of the logits; nothing is capped.
pub open spec fn pick_ops(c: ModelConfig, pick: feed::Pick) -> Seq<Op> {
    match pick {
        feed::Pick::Logits => seq![Op::Widen { n: c.vocab_size }],
        feed::Pick::Greedy => seq![Op::Argmax { n: c.vocab_size, cap: 0 }],
        feed::Pick::Sample { penalty } => (if Format::F32.equal(penalty as int, ONE as int) {
            Seq::empty()
        } else {
            seq![Op::Penalty { n: c.vocab_size, factor: penalty }]
        }) + seq![Op::TopK { n: c.vocab_size, cap: 0, k: SAMPLE_TOPK }],
    }
}

/// The pooled hidden state of `rows` rows.
pub open spec fn pool_ops(c: ModelConfig, rows: int) -> Seq<Op> {
    seq![
        Op::RmsNorm {
            src: Buf::X,
            row0: 0,
            weight: Some(Weight::FinalNorm),
            dst: Buf::H,
            rows: rows as usize,
            width: c.hidden_size,
        },
        Op::MeanPool { rows: rows as usize, width: c.hidden_size },
    ]
}

impl Transformer {
    fn layer_steps(&self, i: usize, p: Pass) -> (r: Vec<Op>)
        requires
            runnable(*self),
            admissible(self.cfg, p),
            i < self.layers@.len(),
        ensures
            r@ == layer_ops(self.cfg, kind(*self, i as int), i as int, p, self.csz as int),
    {
        let c: &ModelConfig = &self.cfg;
        let l: LayerKind = LayerKind { split: self.split, biased: self.layers[i].biased };
        let mut v: Vec<Op> = Vec::new();
        push_norm(&mut v, Weight::InputNorm, p, c);
        push_qkv(&mut v, c, l, p);
        push_cache(&mut v, c, i, p);
        push_attn(&mut v, c, i, p, self.csz);
        push_out(&mut v, c, p);
        push_mlp(&mut v, c, l, p);
        assert(v@ =~= layer_ops(*c, l, i as int, p, self.csz as int));
        v
    }

    /// The steps of a chunk, layer by layer.
    pub fn forward_chunk_at(&self, p: Pass) -> (r: Vec<Vec<Op>>)
        requires
            runnable(*self),
            admissible(self.cfg, p),
        ensures
            op_views(r@) == forward_ops(*self, p, self.cfg.n_layers as int),
    {
        let mut out: Vec<Vec<Op>> = Vec::new();
        let mut i: usize = 0;
        assert(op_views(out@) =~= forward_ops(*self, p, 0));
        while i < self.layers.len()
            invariant
                i <= self.layers@.len(),
                runnable(*self),
                admissible(self.cfg, p),
                op_views(out@) == forward_ops(*self, p, i as int),
            decreases self.layers@.len() - i,
        {
            let ghost before = out@;
            let v: Vec<Op> = self.layer_steps(i, p);
            let ghost vv = v@;
            out.push(v);
            i = i + 1;
            assert(op_views(out@) =~= forward_ops(*self, p, i as int)) by {
                assert(op_views(out@) =~= op_views(before).push(vv));
            }
        }
        out
    }

    /// The step that embeds uploaded tokens.
    pub fn gather_ids(&self, rows: usize) -> (r: Op)
        ensures
            r == gather_op(*self, rows as int),
    {
        let packed: Option<DType> = match self.embed {
            Residency::Packed(dt) => Some(dt),
            _ => None,
        };
        Op::Gather {
            table: Weight::Embed,
            packed,
            row0: 0,
            ids: Buf::Ids,
            dst: Buf::X,
            rows,
            width: self.cfg.hidden_size,
        }
    }

    /// The head on row `row`.
    pub fn project(&self, row: usize, pick: feed::Pick) -> (r: Vec<Op>)
        ensures
            r@ == head_ops(*self, row as int) + pick_ops(self.cfg, pick),
    {
        let c: &ModelConfig = &self.cfg;
        let mut v: Vec<Op> = Vec::new();
        v.push(
            Op::RmsNorm {
                src: Buf::X,
                row0: row,
                weight: Some(Weight::FinalNorm),
                dst: Buf::H,
                rows: 1,
                width: c.hidden_size,
            },
        );
        let head: Weight = if self.tied {
            Weight::Embed
        } else {
            Weight::Head
        };
        let multiply: Op = if self.head.is_some() {
            Op::Gemv {
                weight: head,
                bias: None,
                src: Buf::H,
                dst: Buf::LogitsH,
                n: c.vocab_size,
                k: c.hidden_size,
                epilogue: Epilogue::Store,
            }
        } else {
            Op::Gemm {
                weight: head,
                src: Buf::H,
                dst: Buf::LogitsH,
                rows: 1,
                n: c.vocab_size,
                k: c.hidden_size,
            }
        };
        v.push(multiply);
        match pick {
            feed::Pick::Logits => {
                v.push(Op::Widen { n: c.vocab_size });
            },
            feed::Pick::Greedy => {
                v.push(Op::Argmax { n: c.vocab_size, cap: 0 });
            },
            feed::Pick::Sample { penalty } => {
                if !Format::F32.eq_value(penalty as u64, ONE as u64) {
                    v.push(Op::Penalty { n: c.vocab_size, factor: penalty });
                }
                v.push(Op::TopK { n: c.vocab_size, cap: 0, k: SAMPLE_TOPK });
            },
        }
        assert(v@ =~= head_ops(*self, row as int) + pick_ops(*c, pick));
        v
    }

    /// The steps after the layers of an embedding request.
    pub fn embed_pool(&self, rows: usize) -> (r: Vec<Op>)
        ensures
            r@ == pool_ops(self.cfg, rows as int),
    {
        let mut v: Vec<Op> = Vec::new();
        v.push(
            Op::RmsNorm {
                src: Buf::X,
                row0: 0,
                weight: Some(Weight::FinalNorm),
                dst: Buf::H,
                rows,
                width: self.cfg.hidden_size,
            },
        );
        v.push(Op::MeanPool { rows, width: self.cfg.hidden_size });
        assert(v@ =~= pool_ops(self.cfg, rows as int));
        v
    }

    /// The tail of a captured step: a greedy pick becomes the next token, and
    /// the counter moves on.
    pub fn tail(&self, pick: feed::Pick) -> (r: Vec<Op>)
        ensures
            r@ == head_ops(*self, 0) + pick_ops(self.cfg, pick) + (if pick is Greedy {
                seq![Op::TokenFromArgmax]
            } else {
                Seq::empty()
            }) + seq![Op::PosBump],
    {
        let mut v: Vec<Op> = self.project(0, pick);
        let ghost before = v@;
        match pick {
            feed::Pick::Greedy => {
                v.push(Op::TokenFromArgmax);
            },
            _ => {},
        }
        v.push(Op::PosBump);
        assert(v@ =~= before + (if pick is Greedy {
            seq![Op::TokenFromArgmax]
        } else {
            Seq::empty()
        }) + seq![Op::PosBump]);
        v
    }
}

pub open spec fn size_of(g: Transformer, b: Buf) -> int {
    let ws = g.ws;
    match b {
        Buf::X => ws.x as int,
        Buf::H => ws.h as int,
        Buf::Att => ws.att as int,
        Buf::Q => ws.q as int,
        Buf::K => ws.k as int,
        Buf::V => ws.v as int,
        Buf::Qkv => ws.qkv as int,
        Buf::QRow => 2 * forecast::qd(g.cfg),
        Buf::KRow => 2 * forecast::kvd(g.cfg),
        Buf::VRow => 2 * forecast::kvd(g.cfg),
        Buf::AttPart => ws.att_part as int,
        Buf::Cand => ws.cand as int,
        Buf::HistRing => ws.hist_ring as int,
        Buf::HistCounts => ws.hist_counts as int,
        Buf::Gate => ws.gate as int,
        Buf::Up => ws.up as int,
        Buf::LogitsH => ws.logits_h as int,
        Buf::LogitsF => ws.logits_f as int,
        Buf::ArgmaxSlot => ws.argmax_slot as int,
        Buf::PosDev => ws.pos_dev as int,
        Buf::Ids => ws.ids as int,
        Buf::KCache(i) => if i < g.layers@.len() {
            ws.cache as int
        } else {
            0
        },
        Buf::VCache(i) => if i < g.layers@.len() {
            ws.cache as int
        } else {
            0
        },
        _ => 0,
    }
}

#[verifier::spinoff_prover]
#[verifier::rlimit(40)]
proof fn lemma_norm_fits(g: Transformer, p: Pass)
    requires
        runnable(g),
        admissible(g.cfg, p),
    ensures
        ops::fits(norm_op(Weight::InputNorm, p, g.cfg), |b: Buf| size_of(g, b)),
        ops::fits(norm_op(Weight::PreFfwNorm, p, g.cfg), |b: Buf| size_of(g, b)),
{
    let c = g.cfg;
    lemma_rows(c, p);
    assert((0 + p.rows) * c.hidden_size == p.rows * c.hidden_size);
    assert(2 * ((0 + p.rows) * c.hidden_size) <= g.ws.h);
}

#[verifier::spinoff_prover]
#[verifier::rlimit(40)]
proof fn lemma_qkv_fits(g: Transformer, l: LayerKind, p: Pass)
    requires
        runnable(g),
        admissible(g.cfg, p),
    ensures
        ops::all_fit(qkv_ops(g.cfg, l, p), |b: Buf| size_of(g, b)),
{
    let c = g.cfg;
    lemma_rows(c, p);
    let size = |b: Buf| size_of(g, b);
    let v = qkv_ops(c, l, p);
    if p.rows == 1 {
        assert(ops::fits(v[0], size));
        if l.split {
            assert(ops::fits(v[1], size));
            assert(ops::fits(v[2], size));
        }
    } else {
        assert(ops::fits(v[0], size));
        assert(ops::fits(v[1], size));
        assert(ops::fits(v[2], size));
        if l.biased {
            assert(ops::fits(v[3], size));
            assert(ops::fits(v[4], size));
            assert(ops::fits(v[5], size));
        }
    }
}

#[verifier::spinoff_prover]
#[verifier::rlimit(60)]
proof fn lemma_cache_fits(g: Transformer, i: int, p: Pass)
    requires
        runnable(g),
        admissible(g.cfg, p),
        0 <= i < g.cfg.n_layers,
    ensures
        ops::all_fit(cache_ops(g.cfg, i, p), |b: Buf| size_of(g, b)),
{
    let c = g.cfg;
    lemma_rows(c, p);
    let size = |b: Buf| size_of(g, b);
    let v = cache_ops(c, i, p);
    assert(p.rows * (c.n_heads * c.head_dim) == p.rows * forecast::qd(c));
    assert(p.rows * (c.n_kv_heads * c.head_dim) == p.rows * forecast::kvd(c));
    assert(ops::cache(c.max_seq as int, c.n_kv_heads as int, c.head_dim as int)
        == forecast::cache_bytes(c));
    assert(ops::fits(v[0], size));
    assert(ops::fits(v[1], size));
    assert(ops::fits(v[2], size));
}

#[verifier::spinoff_prover]
#[verifier::rlimit(60)]
proof fn lemma_attn_fits(g: Transformer, i: int, p: Pass)
    requires
        runnable(g),
        admissible(g.cfg, p),
        0 <= i < g.cfg.n_layers,
    ensures
        ops::all_fit(attn_ops(g.cfg, i, p, g.csz as int), |b: Buf| size_of(g, b)),
{
    let c = g.cfg;
    let csz = g.csz as int;
    lemma_rows(c, p);
    let size = |b: Buf| size_of(g, b);
    let v = attn_ops(c, i, p, csz);
    assert(p.rows * (c.n_heads * c.head_dim) == p.rows * forecast::qd(c));
    assert(ops::cache(c.max_seq as int, c.n_kv_heads as int, c.head_dim as int)
        == forecast::cache_bytes(c));
    let pieces = (c.max_seq + csz - 1) / csz;
    vstd::arithmetic::div_mod::lemma_fundamental_div_mod(c.max_seq + csz - 1, csz);
    vstd::arithmetic::div_mod::lemma_mod_bound(c.max_seq + csz - 1, csz);
    assert(csz * pieces >= c.max_seq);
    vstd::arithmetic::div_mod::lemma_div_nonincreasing(c.max_seq + csz - 1, csz);
    vstd::arithmetic::div_mod::lemma_div_pos_is_pos(c.max_seq + csz - 1, csz);
    assert(4 * (c.n_heads * pieces * (c.head_dim + 2)) == graph::split_bytes(c, csz));
    assert forall|k: int| 0 <= k < v.len() implies ops::fits(#[trigger] v[k], size) by {
        assert(v.len() <= 2);
    }
}

#[verifier::spinoff_prover]
#[verifier::rlimit(40)]
proof fn lemma_out_fits(g: Transformer, p: Pass)
    requires
        runnable(g),
        admissible(g.cfg, p),
    ensures
        ops::all_fit(out_ops(g.cfg, p), |b: Buf| size_of(g, b)),
{
    let c = g.cfg;
    lemma_rows(c, p);
    let size = |b: Buf| size_of(g, b);
    let v = out_ops(c, p);
    assert(ops::fits(v[0], size));
    if p.rows != 1 {
        assert(ops::fits(v[1], size));
    }
}

#[verifier::spinoff_prover]
#[verifier::rlimit(40)]
proof fn lemma_mlp_fits(g: Transformer, l: LayerKind, p: Pass)
    requires
        runnable(g),
        admissible(g.cfg, p),
    ensures
        ops::all_fit(mlp_ops(g.cfg, l, p), |b: Buf| size_of(g, b)),
{
    let c = g.cfg;
    lemma_rows(c, p);
    lemma_norm_fits(g, p);
    let size = |b: Buf| size_of(g, b);
    let w = mlp_ops(c, l, p);
    assert(w[0] == norm_op(Weight::PreFfwNorm, p, c));
    assert(ops::fits(w[1], size));
    assert(ops::fits(w[2], size));
    if p.rows != 1 || l.split {
        assert(ops::fits(w[3], size));
        assert(ops::fits(w[4], size));
    }
    if p.rows != 1 {
        assert(ops::fits(w[5], size));
    }
}

/// No step of a forward pass leaves its buffers: for every pass of at most a
/// chunk of rows within the context, each layer's steps stay within the
/// workspace and the caches.
pub proof fn law_passes_stay_in_their_buffers(g: Transformer, i: int, p: Pass)
    requires
        runnable(g),
        admissible(g.cfg, p),
        0 <= i < g.cfg.n_layers,
    ensures
        ops::all_fit(
            layer_ops(g.cfg, kind(g, i), i, p, g.csz as int),
            |b: Buf| size_of(g, b),
        ),
{
    let c = g.cfg;
    let l = kind(g, i);
    let size = |b: Buf| size_of(g, b);
    lemma_norm_fits(g, p);
    lemma_qkv_fits(g, l, p);
    lemma_cache_fits(g, i, p);
    lemma_attn_fits(g, i, p);
    lemma_out_fits(g, p);
    lemma_mlp_fits(g, l, p);
    let z = seq![norm_op(Weight::InputNorm, p, c)];
    assert(ops::all_fit(z, size));
    let (a, b, d, e, f) = (
        qkv_ops(c, l, p),
        cache_ops(c, i, p),
        attn_ops(c, i, p, g.csz as int),
        out_ops(c, p),
        mlp_ops(c, l, p),
    );
    ops::lemma_all_fit_concat(z, a, size);
    ops::lemma_all_fit_concat(z + a, b, size);
    ops::lemma_all_fit_concat(z + a + b, d, size);
    ops::lemma_all_fit_concat(z + a + b + d, e, size);
    ops::lemma_all_fit_concat(z + a + b + d + e, f, size);
}

#[verifier::spinoff_prover]
#[verifier::rlimit(40)]
proof fn lemma_front_fits(g: Transformer, rows: int)
    requires
        runnable(g),
        1 <= rows <= CHUNK,
        rows <= g.cfg.max_seq,
    ensures
        ops::fits(gather_op(g, rows), |b: Buf| size_of(g, b)),
{
    lemma_rows(g.cfg, Pass { rows: rows as usize, pos0: 0, counter: false });
}

#[verifier::spinoff_prover]
#[verifier::rlimit(40)]
proof fn lemma_head_fits(g: Transformer, row: int)
    requires
        runnable(g),
        0 <= row < CHUNK,
        row < g.cfg.max_seq,
    ensures
        ops::all_fit(head_ops(g, row), |b: Buf| size_of(g, b)),
{
    let c = g.cfg;
    let size = |b: Buf| size_of(g, b);
    lemma_rows(c, Pass { rows: (row + 1) as usize, pos0: 0, counter: false });
    let v = head_ops(g, row);
    assert(1 * c.hidden_size == c.hidden_size && 1 * c.vocab_size == c.vocab_size);
    assert(ops::extents(v[0])[0].bytes == 2 * ((row + 1) * c.hidden_size));
    assert(ops::fits(v[0], size));
    assert(ops::fits(v[1], size));
}

#[verifier::spinoff_prover]
#[verifier::rlimit(40)]
proof fn lemma_pick_fits(g: Transformer, pick: feed::Pick)
    requires
        runnable(g),
    ensures
        ops::all_fit(pick_ops(g.cfg, pick), |b: Buf| size_of(g, b)),
{
}

#[verifier::spinoff_prover]
#[verifier::rlimit(40)]
proof fn lemma_pool_fits(g: Transformer, rows: int)
    requires
        runnable(g),
        1 <= rows <= CHUNK,
        rows <= g.cfg.max_seq,
        g.cfg.hidden_size * 4 <= g.ws.logits_f,
    ensures
        ops::all_fit(pool_ops(g.cfg, rows), |b: Buf| size_of(g, b)),
{
    let c = g.cfg;
    let size = |b: Buf| size_of(g, b);
    lemma_rows(c, Pass { rows: rows as usize, pos0: 0, counter: false });
    let v = pool_ops(c, rows);
    assert((0 + rows) * c.hidden_size == rows * c.hidden_size);
    assert(ops::fits(v[0], size));
    assert(ops::fits(v[1], size));
}

/// The steps around the layers stay within the workspace, for every row of a
/// chunk within the context; pooling needs a hidden state that fits the buffer
/// it borrows.
pub proof fn law_feeding_stays_in_its_buffers(g: Transformer, rows: int, row: int, pick: feed::Pick)
    requires
        runnable(g),
        1 <= rows <= CHUNK,
        rows <= g.cfg.max_seq,
        0 <= row < rows,
    ensures
        ({
            let size = |b: Buf| size_of(g, b);
            &&& ops::fits(gather_op(g, rows), size)
            &&& ops::all_fit(head_ops(g, row) + pick_ops(g.cfg, pick), size)
            &&& g.cfg.hidden_size * 4 <= g.ws.logits_f ==> ops::all_fit(
                pool_ops(g.cfg, rows),
                size,
            )
        }),
{
    let size = |b: Buf| size_of(g, b);
    lemma_front_fits(g, rows);
    lemma_head_fits(g, row);
    lemma_pick_fits(g, pick);
    if g.cfg.hidden_size * 4 <= g.ws.logits_f {
        lemma_pool_fits(g, rows);
    }
    ops::lemma_all_fit_concat(head_ops(g, row), pick_ops(g.cfg, pick), size);
}

} // verus!
