//! Device work as data: the steps of a forward pass, over named buffers.
use vstd::prelude::*;

use crate::ieee::Format;
use crate::tensor::DType;

verus! {

/// A device buffer of a pipeline.
#[derive(Clone, Copy, PartialEq, Eq, Debug, Structural)]
pub enum Buf {
    /// The residual stream.
    X,
    /// Normed activations.
    H,
    /// Block outputs.
    H2,
    Q,
    K,
    V,
    Att,
    Gate,
    Up,
    Ple,
    PleId,
    PleG,
    BlkId,
    Ids,
    LogitsH,
    LogitsF,
    ArgmaxSlot,
    PosDev,
    AttPart,
    Cand,
    HistRing,
    HistCounts,
    /// The key cache of a layer.
    KCache(usize),
    /// The value cache of a layer.
    VCache(usize),
    /// Where inputs are clamped.
    Clip,
    PosX,
    PosY,
    GatherX,
    GatherY,
    PosEmb,
    Pooled,
    Out,
    /// Rows of an encoded medium, as wide as the text model's; each medium has
    /// its own.
    Encoded,
    /// Four times as wide as the residual stream.
    Wide,
    /// Relative positions, and the keys of a layer made from them.
    RelPe,
    RelK,
    /// One row of queries, keys and values, and its parts.
    Qkv,
    QRow,
    KRow,
    VRow,
    /// The feed-forward activations of an encoder.
    Ff,
    /// The caches of an encoder.
    EncK,
    EncV,
    /// Rows of pixels or frames.
    Stage,
    /// The residual stream behind a class token.
    XTail,
}

/// A weight of a pipeline; those of a layer belong to the layer at hand.
#[derive(Clone, Copy, PartialEq, Eq, Debug, Structural)]
pub enum Weight {
    Embed,
    FinalNorm,
    PleModelProj,
    PleModelNorm,
    InputNorm,
    PostAttnNorm,
    PreFfwNorm,
    PostFfwNorm,
    Wq,
    QNorm,
    Wk,
    KNorm,
    Wv,
    Wo,
    WGate,
    WUp,
    WDown,
    PleGate,
    PleProj,
    PleNorm,
    BiasQ,
    BiasK,
    BiasV,
    Head,
    InputProj,
    PosTable,
    EmbProj,
    Ff1Pre,
    Ff1Up,
    Ff1Down,
    Ff1Post,
    Ff2Pre,
    Ff2Up,
    Ff2Down,
    Ff2Post,
    RelKProj,
    QScale,
    ConvPre,
    ConvStart,
    ConvKernel,
    ConvNorm,
    ConvEnd,
    OutNorm,
    OutProj,
    OutBias,
    /// Row-concatenated projections.
    Wqkv,
    WGateUp,
    /// Row-concatenated biases.
    BiasQkv,
    BiasO,
    Fc1,
    BiasFc1,
    Fc2,
    BiasFc2,
    Ln1,
    Ln2,
    PreLn,
    FinalLn,
    PatchBias,
    Conv2,
    Conv2Bias,
    ClassToken,
    Proj1,
    Proj1Bias,
    Proj2,
    Proj2Bias,
}

/// What becomes of the product of one row.
#[derive(Clone, Copy, PartialEq, Eq, Debug, Structural)]
pub enum Epilogue {
    Store,
    /// It is added to the destination.
    Accumulate,
    /// The first half gates the second.
    SiluMul,
}

/// One step on the device. Elements are half precision unless said otherwise.
#[derive(Clone, Copy, PartialEq, Eq, Debug, Structural)]
pub enum Op {
    /// `dst[r] = table[row0 + ids[r]]` for `rows` rows of `width`.
    Gather { table: Weight, packed: Option<DType>, row0: usize, ids: Buf, dst: Buf, rows: usize, width: usize },
    /// Root-mean-square norm of `rows` rows of `width`, from row `row0` on.
    RmsNorm { src: Buf, row0: usize, weight: Option<Weight>, dst: Buf, rows: usize, width: usize },
    /// `dst[rows, n] = src[rows, k] @ weight[n, k]^T`.
    Gemm { weight: Weight, src: Buf, dst: Buf, rows: usize, n: usize, k: usize },
    AddBias { weight: Weight, buf: Buf, rows: usize, width: usize },
    /// Rotary embedding of `heads` heads of `dim`, positions from `pos0` on or
    /// from the counter on the device.
    Rope { buf: Buf, rows: usize, heads: usize, dim: usize, pos0: usize, theta: u32, nfreqs: usize, counter: bool, factors: bool },
    /// Rotary embedding by two position lists.
    Rope2d { buf: Buf, rows: usize, heads: usize, dim: usize, theta: u32 },
    /// `dst[..n] = src[..n]`.
    Copy { src: Buf, dst: Buf, n: usize },
    Clamp { buf: Buf, lo: u32, hi: u32, n: usize },
    /// Writes rows of keys and values at positions `pos0..` of caches that
    /// hold `cap` positions of `heads` heads of `dim`.
    KvAppend { k: Buf, v: Buf, kc: Buf, vc: Buf, rows: usize, heads: usize, dim: usize, pos0: usize, cap: usize, counter: bool },
    /// Attention of one row over `len` positions, in pieces.
    AttnSplit { q: Buf, scale: u32, kc: Buf, vc: Buf, heads: usize, kv_heads: usize, dim: usize, len: usize, cap: usize, piece: usize, pieces: usize, window: usize, counter: bool },
    /// Joins the pieces.
    AttnReduce { heads: usize, dim: usize, len: usize, piece: usize, pieces: usize, window: usize, counter: bool },
    /// Attention of one row over `len` positions.
    AttnDecode { q: Buf, scale: u32, kc: Buf, vc: Buf, heads: usize, kv_heads: usize, dim: usize, len: usize, cap: usize, window: usize, counter: bool },
    /// Attention of `rows` rows at positions `pos0..`.
    AttnPrefill { q: Buf, scale: u32, kc: Buf, vc: Buf, rows: usize, heads: usize, kv_heads: usize, dim: usize, pos0: usize, cap: usize, causal: bool, window: usize, blocks: bool },
    /// `dst[..n] += src[..n]`.
    Add { dst: Buf, src: Buf, n: usize },
    /// `gate = gelu(gate) * up`.
    Geglu { n: usize },
    /// `gate = silu(gate) * up`.
    SwiGlu { n: usize },
    Gelu { buf: Buf, n: usize },
    /// `ple_g[r] *= ple[r * stride + offset ..]` for `rows` rows of `width`.
    MulStrided { rows: usize, width: usize, stride: usize, offset: usize },
    Scale { buf: Buf, factor: u32, n: usize },
    /// `logits_f[..n] = logits_h[..n]` in single precision.
    Widen { n: usize },
    /// `logits_f[..width]` = the mean of `rows` rows of `h`.
    MeanPool { rows: usize, width: usize },
    /// The greedy pick among `n` capped logits.
    Argmax { n: usize, cap: u32 },
    /// Divides or multiplies the logits of recent tokens.
    Penalty { n: usize, factor: u32 },
    /// The `k` largest of `n` capped logits.
    TopK { n: usize, cap: u32, k: usize },
    /// Notes the uploaded token at position `pos`, or at the counter.
    HistPush { pos: usize, counter: bool },
    /// Moves the counter on the device.
    PosBump,
    /// `dst[n] = src[k] @ weight[n, k]^T`, with the rows of a bias.
    Gemv { weight: Weight, bias: Option<Weight>, src: Buf, dst: Buf, n: usize, k: usize, epilogue: Epilogue },
    /// The greedy pick becomes the next token.
    TokenFromArgmax,
    /// Norm with mean and bias of `rows` rows of `width`.
    LayerNorm { src: Buf, weight: Weight, dst: Buf, rows: usize, width: usize },
    /// `dst[..n] = weight[..n]`.
    Load { weight: Weight, dst: Buf, n: usize },
    /// `dst[..n] += weight[..n]`.
    AddTable { weight: Weight, dst: Buf, n: usize },
    /// `dst[..n] = src[skip..skip + n]`.
    CopyFrom { src: Buf, skip: usize, dst: Buf, n: usize },
    Silu { buf: Buf, n: usize },
    /// `buf[r] *= weight` for `rows` rows of `width`.
    MulVec { weight: Weight, buf: Buf, rows: usize, width: usize },
    /// Local attention in chunks, with relative positions.
    AudioAttn { dst: Buf, rows: usize, heads: usize, dim: usize, chunk: usize, past: usize, cap: u32, invalid: u32 },
    /// `dst = wide[..width] * sigmoid(wide[width..])`, row by row.
    Glu { dst: Buf, rows: usize, width: usize },
    /// Causal depthwise convolution over `rows` rows.
    DwConv { weight: Weight, src: Buf, dst: Buf, rows: usize, width: usize, taps: usize },
}

/// A buffer and how many of its bytes a step touches.
pub struct Extent {
    pub buf: Buf,
    pub bytes: int,
}

pub open spec fn ext(buf: Buf, bytes: int) -> Extent {
    Extent { buf, bytes }
}

/// Bytes of a cache of `cap` positions.
pub open spec fn cache(cap: int, heads: int, dim: int) -> int {
    heads * cap * dim * 2
}

/// What a step touches.
pub open spec fn extents(op: Op) -> Seq<Extent> {
    match op {
        Op::Gather { ids, dst, rows, width, .. } => seq![ext(ids, 4 * rows), ext(dst, 2 * (rows * width))],
        Op::RmsNorm { src, row0, dst, rows, width, .. } => seq![
            ext(src, 2 * ((row0 + rows) * width)),
            ext(dst, 2 * (rows * width)),
        ],
        Op::Gemm { src, dst, rows, n, k, .. } => seq![ext(src, 2 * (rows * k)), ext(dst, 2 * (rows * n))],
        Op::AddBias { buf, rows, width, .. } => seq![ext(buf, 2 * (rows * width))],
        Op::Rope { buf, rows, heads, dim, .. } => seq![ext(buf, 2 * (rows * (heads * dim)))],
        Op::Rope2d { buf, rows, heads, dim, .. } => seq![
            ext(buf, 2 * (rows * (heads * dim))),
            ext(Buf::PosX, 4 * rows),
            ext(Buf::PosY, 4 * rows),
        ],
        Op::Copy { src, dst, n } => seq![ext(src, 2 * n), ext(dst, 2 * n)],
        Op::Clamp { buf, n, .. } => seq![ext(buf, 2 * n)],
        Op::KvAppend { k, v, kc, vc, rows, heads, dim, cap, .. } => seq![
            ext(k, 2 * (rows * (heads * dim))),
            ext(v, 2 * (rows * (heads * dim))),
            ext(kc, cache(cap as int, heads as int, dim as int)),
            ext(vc, cache(cap as int, heads as int, dim as int)),
        ],
        Op::AttnSplit { q, kc, vc, heads, kv_heads, dim, cap, pieces, .. } => seq![
            ext(q, 2 * (heads * dim)),
            ext(Buf::AttPart, 4 * (heads * pieces * (dim + 2))),
            ext(kc, cache(cap as int, kv_heads as int, dim as int)),
            ext(vc, cache(cap as int, kv_heads as int, dim as int)),
        ],
        Op::AttnReduce { heads, dim, pieces, .. } => seq![
            ext(Buf::AttPart, 4 * (heads * pieces * (dim + 2))),
            ext(Buf::Att, 2 * (heads * dim)),
        ],
        Op::AttnDecode { q, kc, vc, heads, kv_heads, dim, cap, .. } => seq![
            ext(q, 2 * (heads * dim)),
            ext(Buf::Att, 2 * (heads * dim)),
            ext(kc, cache(cap as int, kv_heads as int, dim as int)),
            ext(vc, cache(cap as int, kv_heads as int, dim as int)),
        ],
        Op::AttnPrefill { q, kc, vc, rows, heads, kv_heads, dim, pos0, cap, blocks, .. } => seq![
            ext(q, 2 * (rows * (heads * dim))),
            ext(Buf::Att, 2 * (rows * (heads * dim))),
            ext(kc, cache(cap as int, kv_heads as int, dim as int)),
            ext(vc, cache(cap as int, kv_heads as int, dim as int)),
        ] + (if blocks {
            seq![ext(Buf::BlkId, 4 * (pos0 + rows))]
        } else {
            Seq::empty()
        }),
        Op::Add { dst, src, n } => seq![ext(dst, 2 * n), ext(src, 2 * n)],
        Op::Geglu { n } => seq![ext(Buf::Gate, 2 * n), ext(Buf::Up, 2 * n)],
        Op::SwiGlu { n } => seq![ext(Buf::Gate, 2 * n), ext(Buf::Up, 2 * n)],
        Op::Gelu { buf, n } => seq![ext(buf, 2 * n)],
        Op::MulStrided { rows, width, stride, offset } => seq![
            ext(Buf::PleG, 2 * (rows * width)),
            ext(Buf::Ple, 2 * ((rows - 1) * stride + offset + width)),
        ],
        Op::Scale { buf, n, .. } => seq![ext(buf, 2 * n)],
        Op::Widen { n } => seq![ext(Buf::LogitsH, 2 * n), ext(Buf::LogitsF, 4 * n)],
        Op::MeanPool { rows, width } => seq![
            ext(Buf::H, 2 * (rows * width)),
            ext(Buf::LogitsF, 4 * width),
        ],
        Op::Argmax { n, .. } => seq![ext(Buf::LogitsH, 2 * n), ext(Buf::ArgmaxSlot, 8)],
        Op::Penalty { n, .. } => seq![ext(Buf::LogitsH, 2 * n), ext(Buf::HistCounts, 4 * n)],
        Op::TopK { n, k, .. } => seq![
            ext(Buf::LogitsH, 2 * n),
            ext(Buf::ArgmaxSlot, 8),
            ext(Buf::Cand, 8 * k),
        ],
        Op::HistPush { .. } => seq![ext(Buf::Ids, 4), ext(Buf::HistRing, 256)],
        Op::PosBump => seq![ext(Buf::PosDev, 4)],
        Op::Gemv { src, dst, n, k, .. } => seq![ext(src, 2 * k), ext(dst, 2 * n)],
        Op::LayerNorm { src, dst, rows, width, .. } => seq![
            ext(src, 2 * (rows * width)),
            ext(dst, 2 * (rows * width)),
        ],
        Op::Load { dst, n, .. } => seq![ext(dst, 2 * n)],
        Op::AddTable { dst, n, .. } => seq![ext(dst, 2 * n)],
        Op::CopyFrom { src, skip, dst, n } => seq![ext(src, 2 * (skip + n)), ext(dst, 2 * n)],
        Op::TokenFromArgmax => seq![ext(Buf::ArgmaxSlot, 8), ext(Buf::Ids, 4)],
        Op::Silu { buf, n } => seq![ext(buf, 2 * n)],
        Op::MulVec { buf, rows, width, .. } => seq![ext(buf, 2 * (rows * width))],
        Op::AudioAttn { dst, rows, heads, dim, past, .. } => seq![
            ext(Buf::Q, 2 * (rows * (heads * dim))),
            ext(Buf::K, 2 * (rows * (heads * dim))),
            ext(Buf::V, 2 * (rows * (heads * dim))),
            ext(Buf::RelK, 2 * ((past + 1) * (heads * dim))),
            ext(dst, 2 * (rows * (heads * dim))),
        ],
        Op::Glu { dst, rows, width } => seq![
            ext(Buf::Wide, 4 * (rows * width)),
            ext(dst, 2 * (rows * width)),
        ],
        Op::DwConv { src, dst, rows, width, .. } => seq![
            ext(src, 2 * (rows * width)),
            ext(dst, 2 * (rows * width)),
        ],
    }
}

/// The positions that a step writes or reads lie within its caches.
pub open spec fn positions_fit(op: Op) -> bool {
    match op {
        Op::KvAppend { rows, pos0, cap, counter, .. } => counter || pos0 + rows <= cap,
        Op::AttnSplit { len, cap, piece, pieces, counter, .. } => (counter || len <= cap) && cap <= piece
            * pieces,
        Op::AttnDecode { len, cap, counter, .. } => counter || len <= cap,
        Op::AttnPrefill { rows, pos0, cap, .. } => pos0 + rows <= cap,
        _ => true,
    }
}

/// A step stays within buffers of the given sizes.
pub open spec fn fits(op: Op, size: spec_fn(Buf) -> int) -> bool {
    &&& forall|k: int|
        0 <= k < extents(op).len() ==> (#[trigger] extents(op)[k]).bytes <= size(extents(op)[k].buf)
    &&& positions_fit(op)
}

/// All steps stay within buffers of the given sizes.
pub open spec fn all_fit(ops: Seq<Op>, size: spec_fn(Buf) -> int) -> bool {
    forall|i: int| 0 <= i < ops.len() ==> fits(#[trigger] ops[i], size)
}

pub proof fn lemma_all_fit_concat(a: Seq<Op>, b: Seq<Op>, size: spec_fn(Buf) -> int)
    requires
        all_fit(a, size),
        all_fit(b, size),
    ensures
        all_fit(a + b, size),
{
    assert forall|i: int| 0 <= i < (a + b).len() implies fits(#[trigger] (a + b)[i], size) by {
        if i < a.len() {
            assert((a + b)[i] == a[i]);
        } else {
            assert((a + b)[i] == b[i - a.len()]);
        }
    }
}

/// Bytes of the rows that an encoded medium becomes.
pub open spec fn row_bytes(tokens: int, lm_hidden: int) -> int {
    tokens * lm_hidden * 2
}

/// Bytes to allocate for the rows of a medium of `tokens` soft tokens.
pub fn encoded_bytes(tokens: usize, lm_hidden: usize) -> (r: usize)
    requires
        row_bytes(tokens as int, lm_hidden as int) <= usize::MAX,
    ensures
        r == row_bytes(tokens as int, lm_hidden as int),
{
    proof {
        vstd::arithmetic::mul::lemma_mul_nonnegative(tokens as int, lm_hidden as int);
    }
    tokens * lm_hidden * 2
}

/// What `Widen` makes of half-precision logits.
pub open spec fn widened(h: Seq<u16>) -> Seq<u32> {
    Seq::new(h.len(), |i: int| Format::F16.convert(Format::F32, h[i] as int) as u32)
}

/// What `Argmax` picks among half-precision logits where nothing is capped:
/// the greatest, of equals the later.
pub open spec fn greatest(h: Seq<u16>, id: int) -> bool {
    &&& 0 <= id < h.len()
    &&& forall|j: int|
        0 <= j < h.len() && j != id ==> Format::F16.less(#[trigger] h[j] as int, h[id] as int) || (
        Format::F16.equal(h[j] as int, h[id] as int) && j < id)
}

} // verus!
