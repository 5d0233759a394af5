//! Which tensor of a checkpoint each weight of a tower is, and that all of them
//! are read.
use vstd::prelude::*;

use crate::models::gemma4::audio;
use crate::models::gemma4::config::{G4AudioCfg, G4VisionCfg};
use crate::models::gemma4::conformer;
use crate::models::gemma4::conformer::AudioClips;
use crate::models::gemma4::tower;
use crate::models::gemma4::tower::{Clips, TowerNeed};
use crate::models::gemma4::vision;
use crate::models::gemma4::vision::VisionClips;
use crate::models::ops::{Buf, Op, Weight};

verus! {

/// A step reads a weight.
pub open spec fn reads(op: Op, w: Weight) -> bool {
    match op {
        Op::Gather { table, .. } => table == w,
        Op::RmsNorm { weight, .. } => weight == Some(w),
        Op::Gemm { weight, .. } => weight == w,
        Op::AddBias { weight, .. } => weight == w,
        Op::Gemv { weight, bias, .. } => weight == w || bias == Some(w),
        Op::LayerNorm { weight, .. } => weight == w,
        Op::Load { weight, .. } => weight == w,
        Op::AddTable { weight, .. } => weight == w,
        Op::MulVec { weight, .. } => weight == w,
        Op::DwConv { weight, .. } => weight == w,
        _ => false,
    }
}

/// Some step reads a weight.
pub open spec fn read_in(ops: Seq<Op>, w: Weight) -> bool {
    exists|j: int| 0 <= j < ops.len() && reads(#[trigger] ops[j], w)
}

/// Every product with a weight of the given shape has that shape.
pub open spec fn fit(ops: Seq<Op>, shape: spec_fn(Weight) -> (usize, usize)) -> bool {
    forall|j: int|
        0 <= j < ops.len() ==> ((#[trigger] ops[j]) matches Op::Gemm { weight, n, k, .. } ==> (n, k)
            == shape(weight))
}

proof fn lemma_joined(a: Seq<Op>, b: Seq<Op>, w: Weight)
    ensures
        read_in(a, w) ==> read_in(a + b, w),
        read_in(b, w) ==> read_in(a + b, w),
{
    if read_in(a, w) {
        let j = choose|j: int| 0 <= j < a.len() && reads(#[trigger] a[j], w);
        assert((a + b)[j] == a[j]);
    }
    if read_in(b, w) {
        let j = choose|j: int| 0 <= j < b.len() && reads(#[trigger] b[j], w);
        assert((a + b)[a.len() + j] == b[j]);
    }
}

proof fn lemma_fit_joined(a: Seq<Op>, b: Seq<Op>, shape: spec_fn(Weight) -> (usize, usize))
    requires
        fit(a, shape),
        fit(b, shape),
    ensures
        fit(a + b, shape),
{
    assert forall|j: int| 0 <= j < (a + b).len() implies ((#[trigger] (a + b)[j]) matches Op::Gemm {
        weight,
        n,
        k,
        ..
    } ==> (n, k) == shape(weight)) by {
        if j < a.len() {
            assert((a + b)[j] == a[j]);
        } else {
            assert((a + b)[j] == b[j - a.len()]);
        }
    }
}

proof fn lemma_clip(c: Clips, weight: Weight, src: Buf, dst: Buf, rows: int, n_in: usize, n_out: usize, shape: spec_fn(Weight) -> (usize, usize))
    ensures
        read_in(tower::clip_ops(c, weight, src, dst, rows, n_in, n_out), weight),
        shape(weight) == (n_out, n_in) ==> fit(
            tower::clip_ops(c, weight, src, dst, rows, n_in, n_out),
            shape,
        ),
{
    let v = tower::clip_ops(c, weight, src, dst, rows, n_in, n_out);
    let j = if c.input is Some {
        2
    } else {
        0int
    };
    assert(reads(v[j], weight));
}

proof fn lemma_at(ops: Seq<Op>, j: int, w: Weight)
    requires
        0 <= j < ops.len(),
        reads(ops[j], w),
    ensures
        read_in(ops, w),
{
}

// The conformer.

/// The weights of a conformer layer, in the order of its places.
pub open spec fn audio_weights() -> Seq<Weight> {
    seq![
        Weight::QScale,
        Weight::ConvKernel,
        Weight::Ff1Pre,
        Weight::Ff1Up,
        Weight::Ff1Down,
        Weight::Ff1Post,
        Weight::Ff2Pre,
        Weight::Ff2Up,
        Weight::Ff2Down,
        Weight::Ff2Post,
        Weight::InputNorm,
        Weight::PostAttnNorm,
        Weight::Wq,
        Weight::Wk,
        Weight::Wv,
        Weight::Wo,
        Weight::RelKProj,
        Weight::ConvPre,
        Weight::ConvStart,
        Weight::ConvNorm,
        Weight::ConvEnd,
        Weight::OutNorm,
    ]
}

/// The tensor of a layer that a weight of the conformer is.
pub open spec fn audio_source(w: Weight) -> Seq<char> {
    match w {
        Weight::QScale => "self_attn.per_dim_scale"@,
        Weight::ConvKernel => "lconv1d.depthwise_conv1d.weight"@,
        Weight::Ff1Pre => "feed_forward1.pre_layer_norm.weight"@,
        Weight::Ff1Up => "feed_forward1.ffw_layer_1"@,
        Weight::Ff1Down => "feed_forward1.ffw_layer_2"@,
        Weight::Ff1Post => "feed_forward1.post_layer_norm.weight"@,
        Weight::Ff2Pre => "feed_forward2.pre_layer_norm.weight"@,
        Weight::Ff2Up => "feed_forward2.ffw_layer_1"@,
        Weight::Ff2Down => "feed_forward2.ffw_layer_2"@,
        Weight::Ff2Post => "feed_forward2.post_layer_norm.weight"@,
        Weight::InputNorm => "norm_pre_attn.weight"@,
        Weight::PostAttnNorm => "norm_post_attn.weight"@,
        Weight::Wq => "self_attn.q_proj"@,
        Weight::Wk => "self_attn.k_proj"@,
        Weight::Wv => "self_attn.v_proj"@,
        Weight::Wo => "self_attn.post"@,
        Weight::RelKProj => "self_attn.relative_k_proj.weight"@,
        Weight::ConvPre => "lconv1d.pre_layer_norm.weight"@,
        Weight::ConvStart => "lconv1d.linear_start"@,
        Weight::ConvNorm => "lconv1d.conv_norm.weight"@,
        Weight::ConvEnd => "lconv1d.linear_end"@,
        _ => "norm_out.weight"@,
    }
}

/// Rows and columns of the matrices of a conformer layer.
pub open spec fn audio_shape(c: G4AudioCfg, w: Weight) -> (usize, usize) {
    let h = c.hidden;
    match w {
        Weight::Ff1Up | Weight::Ff2Up => ((h * 4) as usize, h),
        Weight::Ff1Down | Weight::Ff2Down => (h, (h * 4) as usize),
        Weight::ConvStart => ((h * 2) as usize, h),
        _ => (h, h),
    }
}

#[verifier::spinoff_prover]
#[verifier::rlimit(60)]
proof fn lemma_ff(c: G4AudioCfg, n: int, pre: Weight, up: (Clips, Weight), down: (Clips, Weight), post: Weight)
    requires
        audio_shape(c, up.1) == ((c.hidden * 4) as usize, c.hidden),
        audio_shape(c, down.1) == (c.hidden, (c.hidden * 4) as usize),
    ensures
        ({
            let v = conformer::ff_ops(c, n, pre, up, down, post);
            &&& read_in(v, pre)
            &&& read_in(v, up.1)
            &&& read_in(v, down.1)
            &&& read_in(v, post)
            &&& fit(v, |w: Weight| audio_shape(c, w))
        }),
{
    let shape = |w: Weight| audio_shape(c, w);
    let h = c.hidden;
    let h4 = (h * 4) as usize;
    let a = seq![vision::norm(Buf::X, Some(pre), Buf::H, n, h)];
    let b = tower::clip_ops(up.0, up.1, Buf::H, Buf::Wide, n, h, h4);
    let d = seq![Op::Silu { buf: Buf::Wide, n: (n * h4) as usize }];
    let e = tower::clip_ops(down.0, down.1, Buf::Wide, Buf::H2, n, h4, h);
    let f = seq![
        vision::norm(Buf::H2, Some(post), Buf::H2, n, h),
        Op::Scale { buf: Buf::H2, factor: c.residual_w, n: (n * h) as usize },
        Op::Add { dst: Buf::X, src: Buf::H2, n: (n * h) as usize },
    ];
    lemma_at(a, 0, pre);
    lemma_at(f, 0, post);
    lemma_clip(up.0, up.1, Buf::H, Buf::Wide, n, h, h4, shape);
    lemma_clip(down.0, down.1, Buf::Wide, Buf::H2, n, h4, h, shape);
    lemma_joined(a, b, pre);
    lemma_joined(a, b, up.1);
    lemma_joined(a + b, d, pre);
    lemma_joined(a + b, d, up.1);
    lemma_joined(e, f, down.1);
    lemma_joined(e, f, post);
    lemma_joined(a + b + d, e + f, pre);
    lemma_joined(a + b + d, e + f, up.1);
    lemma_joined(a + b + d, e + f, down.1);
    lemma_joined(a + b + d, e + f, post);
    assert(fit(a, shape));
    assert(fit(d, shape));
    assert(fit(f, shape));
    lemma_fit_joined(a, b, shape);
    lemma_fit_joined(a + b, d, shape);
    lemma_fit_joined(e, f, shape);
    lemma_fit_joined(a + b + d, e + f, shape);
}

#[verifier::spinoff_prover]
#[verifier::rlimit(60)]
proof fn lemma_qkv(c: G4AudioCfg, l: AudioClips, n: int)
    ensures
        ({
            let v = conformer::qkv_ops(c, l, n);
            &&& read_in(v, Weight::InputNorm)
            &&& read_in(v, Weight::Wq)
            &&& read_in(v, Weight::Wk)
            &&& read_in(v, Weight::Wv)
            &&& fit(v, |w: Weight| audio_shape(c, w))
        }),
{
    let shape = |w: Weight| audio_shape(c, w);
    let h = c.hidden;
    let a = seq![vision::norm(Buf::X, Some(Weight::InputNorm), Buf::H, n, h)];
    let b = tower::clip_ops(l.q, Weight::Wq, Buf::H, Buf::Q, n, h, h);
    let d = tower::clip_ops(l.k, Weight::Wk, Buf::H, Buf::K, n, h, h);
    let e = tower::clip_ops(l.v, Weight::Wv, Buf::H, Buf::V, n, h, h);
    lemma_at(a, 0, Weight::InputNorm);
    lemma_clip(l.q, Weight::Wq, Buf::H, Buf::Q, n, h, h, shape);
    lemma_clip(l.k, Weight::Wk, Buf::H, Buf::K, n, h, h, shape);
    lemma_clip(l.v, Weight::Wv, Buf::H, Buf::V, n, h, h, shape);
    lemma_joined(a, b, Weight::InputNorm);
    lemma_joined(a, b, Weight::Wq);
    lemma_joined(a + b, d, Weight::InputNorm);
    lemma_joined(a + b, d, Weight::Wq);
    lemma_joined(a + b, d, Weight::Wk);
    lemma_joined(a + b + d, e, Weight::InputNorm);
    lemma_joined(a + b + d, e, Weight::Wq);
    lemma_joined(a + b + d, e, Weight::Wk);
    lemma_joined(a + b + d, e, Weight::Wv);
    assert(fit(a, shape));
    lemma_fit_joined(a, b, shape);
    lemma_fit_joined(a + b, d, shape);
    lemma_fit_joined(a + b + d, e, shape);
}

#[verifier::spinoff_prover]
#[verifier::rlimit(60)]
proof fn lemma_attn(c: G4AudioCfg, l: AudioClips, n: int, k_scale: u32)
    ensures
        ({
            let v = conformer::attn_ops(c, l, n, k_scale);
            &&& read_in(v, Weight::QScale)
            &&& read_in(v, Weight::Wo)
            &&& read_in(v, Weight::PostAttnNorm)
            &&& fit(v, |w: Weight| audio_shape(c, w))
        }),
{
    let shape = |w: Weight| audio_shape(c, w);
    let h = c.hidden;
    let v = conformer::attn_ops(c, l, n, k_scale);
    let a = seq![v[0], v[1], v[2]];
    let b = tower::clip_ops(l.post, Weight::Wo, Buf::H2, Buf::H, n, h, h);
    let d = seq![
        vision::norm(Buf::H, Some(Weight::PostAttnNorm), Buf::H, n, h),
        Op::Add { dst: Buf::X, src: Buf::H, n: (n * h) as usize },
    ];
    assert(v =~= a + b + d);
    lemma_at(a, 0, Weight::QScale);
    lemma_at(d, 0, Weight::PostAttnNorm);
    lemma_clip(l.post, Weight::Wo, Buf::H2, Buf::H, n, h, h, shape);
    lemma_joined(a, b, Weight::QScale);
    lemma_joined(a, b, Weight::Wo);
    lemma_joined(a + b, d, Weight::QScale);
    lemma_joined(a + b, d, Weight::Wo);
    lemma_joined(a + b, d, Weight::PostAttnNorm);
    assert(fit(a, shape));
    assert(fit(d, shape));
    lemma_fit_joined(a, b, shape);
    lemma_fit_joined(a + b, d, shape);
}

#[verifier::spinoff_prover]
#[verifier::rlimit(60)]
proof fn lemma_conv(c: G4AudioCfg, l: AudioClips, n: int)
    ensures
        ({
            let v = conformer::conv_ops(c, l, n);
            &&& read_in(v, Weight::ConvPre)
            &&& read_in(v, Weight::ConvStart)
            &&& read_in(v, Weight::ConvKernel)
            &&& read_in(v, Weight::ConvNorm)
            &&& read_in(v, Weight::ConvEnd)
            &&& fit(v, |w: Weight| audio_shape(c, w))
        }),
{
    let shape = |w: Weight| audio_shape(c, w);
    let h = c.hidden;
    let h2 = (h * 2) as usize;
    let a = seq![vision::norm(Buf::X, Some(Weight::ConvPre), Buf::H, n, h)];
    let b = tower::clip_ops(l.start, Weight::ConvStart, Buf::H, Buf::Wide, n, h, h2);
    let d = conformer::conv_mid(c, n);
    let e = tower::clip_ops(l.end, Weight::ConvEnd, Buf::H2, Buf::H, n, h, h);
    let f = seq![Op::Add { dst: Buf::X, src: Buf::H, n: (n * h) as usize }];
    lemma_at(a, 0, Weight::ConvPre);
    lemma_at(d, 1, Weight::ConvKernel);
    lemma_at(d, 2, Weight::ConvNorm);
    lemma_clip(l.start, Weight::ConvStart, Buf::H, Buf::Wide, n, h, h2, shape);
    lemma_clip(l.end, Weight::ConvEnd, Buf::H2, Buf::H, n, h, h, shape);
    lemma_joined(a, b, Weight::ConvPre);
    lemma_joined(a, b, Weight::ConvStart);
    lemma_joined(a + b, d, Weight::ConvPre);
    lemma_joined(a + b, d, Weight::ConvStart);
    lemma_joined(a + b, d, Weight::ConvKernel);
    lemma_joined(a + b, d, Weight::ConvNorm);
    lemma_joined(a + b + d, e, Weight::ConvPre);
    lemma_joined(a + b + d, e, Weight::ConvStart);
    lemma_joined(a + b + d, e, Weight::ConvKernel);
    lemma_joined(a + b + d, e, Weight::ConvNorm);
    lemma_joined(a + b + d, e, Weight::ConvEnd);
    lemma_joined(a + b + d + e, f, Weight::ConvPre);
    lemma_joined(a + b + d + e, f, Weight::ConvStart);
    lemma_joined(a + b + d + e, f, Weight::ConvKernel);
    lemma_joined(a + b + d + e, f, Weight::ConvNorm);
    lemma_joined(a + b + d + e, f, Weight::ConvEnd);
    assert(fit(a, shape));
    assert(fit(d, shape));
    assert(fit(f, shape));
    lemma_fit_joined(a, b, shape);
    lemma_fit_joined(a + b, d, shape);
    lemma_fit_joined(a + b + d, e, shape);
    lemma_fit_joined(a + b + d + e, f, shape);
}

/// Every tensor of a conformer layer is read by a step of that layer, as the
/// weight that it is: the queries are made by the query projection, the keys by
/// the key projection, the values by the value projection. Every product has
/// the shape of the tensor that it reads.
#[verifier::spinoff_prover]
#[verifier::rlimit(80)]
pub proof fn law_every_tensor_of_a_conformer_layer_is_read(
    c: G4AudioCfg,
    l: AudioClips,
    i: int,
    n: int,
    k_scale: u32,
    k: int,
)
    requires
        0 <= k < 22,
    ensures
        ({
            let v = conformer::layer_ops(c, l, n, k_scale);
            let w = audio_weights()[k];
            let place = audio::layer_places(c, i)[k];
            let (rows, cols) = audio_shape(c, w);
            &&& audio::layer_places(c, i).len() == 22
            &&& place.name == tower::layer_name("audio_tower.layers."@, i, audio_source(w))
            &&& read_in(v, w)
            &&& fit(v, |w: Weight| audio_shape(c, w))
            &&& match place.need {
                TowerNeed::Clip { n_out, n_in } => n_out == rows && n_in == cols,
                TowerNeed::Linear { n_out, n_in } => n_out == rows && n_in == cols,
                _ => true,
            }
        }),
{
    let shape = |w: Weight| audio_shape(c, w);
    let w = audio_weights()[k];
    let a = seq![conformer::rel_op(c)];
    let (b, d, e, f, g) = (
        conformer::ff1_ops(c, l, n),
        conformer::qkv_ops(c, l, n),
        conformer::attn_ops(c, l, n, k_scale),
        conformer::conv_ops(c, l, n),
        conformer::ff2_ops(c, l, n),
    );
    let z = seq![vision::norm(Buf::X, Some(Weight::OutNorm), Buf::X, n, c.hidden)];
    lemma_ff(c, n, Weight::Ff1Pre, (l.ff1_up, Weight::Ff1Up), (l.ff1_down, Weight::Ff1Down), Weight::Ff1Post);
    lemma_ff(c, n, Weight::Ff2Pre, (l.ff2_up, Weight::Ff2Up), (l.ff2_down, Weight::Ff2Down), Weight::Ff2Post);
    lemma_qkv(c, l, n);
    lemma_attn(c, l, n, k_scale);
    lemma_conv(c, l, n);
    lemma_at(a, 0, Weight::RelKProj);
    lemma_at(z, 0, Weight::OutNorm);
    lemma_joined(a, b, w);
    lemma_joined(a + b, d, w);
    lemma_joined(a + b + d, e, w);
    lemma_joined(a + b + d + e, f, w);
    lemma_joined(a + b + d + e + f, g, w);
    lemma_joined(a + b + d + e + f + g, z, w);
    assert(fit(a, shape));
    assert(fit(z, shape));
    lemma_fit_joined(a, b, shape);
    lemma_fit_joined(a + b, d, shape);
    lemma_fit_joined(a + b + d, e, shape);
    lemma_fit_joined(a + b + d + e, f, shape);
    lemma_fit_joined(a + b + d + e + f, g, shape);
    lemma_fit_joined(a + b + d + e + f + g, z, shape);
}

// The vision tower.

/// The weights of a layer of the vision tower, in the order of its places.
pub open spec fn vision_weights() -> Seq<Weight> {
    seq![
        Weight::InputNorm,
        Weight::PostAttnNorm,
        Weight::PreFfwNorm,
        Weight::PostFfwNorm,
        Weight::Wq,
        Weight::Wk,
        Weight::Wv,
        Weight::Wo,
        Weight::QNorm,
        Weight::KNorm,
        Weight::WGate,
        Weight::WUp,
        Weight::WDown,
    ]
}

/// The tensor of a layer that a weight of the vision tower is.
pub open spec fn vision_source(w: Weight) -> Seq<char> {
    match w {
        Weight::InputNorm => "input_layernorm.weight"@,
        Weight::PostAttnNorm => "post_attention_layernorm.weight"@,
        Weight::PreFfwNorm => "pre_feedforward_layernorm.weight"@,
        Weight::PostFfwNorm => "post_feedforward_layernorm.weight"@,
        Weight::Wq => "self_attn.q_proj"@,
        Weight::Wk => "self_attn.k_proj"@,
        Weight::Wv => "self_attn.v_proj"@,
        Weight::Wo => "self_attn.o_proj"@,
        Weight::QNorm => "self_attn.q_norm.weight"@,
        Weight::KNorm => "self_attn.k_norm.weight"@,
        Weight::WGate => "mlp.gate_proj"@,
        Weight::WUp => "mlp.up_proj"@,
        _ => "mlp.down_proj"@,
    }
}

/// Rows and columns of the matrices of a layer of the vision tower.
pub open spec fn vision_shape(c: G4VisionCfg, w: Weight) -> (usize, usize) {
    let (h, q, f) = (c.hidden, vision::qd(c) as usize, c.inter);
    match w {
        Weight::Wo => (h, q),
        Weight::WGate | Weight::WUp => (f, h),
        Weight::WDown => (h, f),
        _ => (q, h),
    }
}

/// Every tensor of a layer of the vision tower is read by a step of that layer,
/// as the weight that it is, and every product has the shape of the tensor that
/// it reads.
#[verifier::spinoff_prover]
#[verifier::rlimit(80)]
pub proof fn law_every_tensor_of_a_vision_layer_is_read(
    c: G4VisionCfg,
    l: VisionClips,
    i: int,
    n: int,
    k: int,
)
    requires
        0 <= k < 13,
    ensures
        ({
            let v = vision::layer_ops(c, l, n);
            let w = vision_weights()[k];
            let place = vision::layer_places(c, i)[k];
            let (rows, cols) = vision_shape(c, w);
            &&& vision::layer_places(c, i).len() == 13
            &&& place.name == tower::layer_name("vision_tower.encoder.layers."@, i, vision_source(w))
            &&& read_in(v, w)
            &&& fit(v, |w: Weight| vision_shape(c, w))
            &&& match place.need {
                TowerNeed::Clip { n_out, n_in } => n_out == rows && n_in == cols,
                _ => true,
            }
        }),
{
    let shape = |w: Weight| vision_shape(c, w);
    let w = vision_weights()[k];
    let (h, q, f) = (c.hidden, vision::qd(c) as usize, c.inter);
    let a0 = seq![vision::norm(Buf::X, Some(Weight::InputNorm), Buf::H, n, h)];
    let a1 = tower::clip_ops(l.q, Weight::Wq, Buf::H, Buf::Q, n, h, q);
    let a2 = tower::clip_ops(l.k, Weight::Wk, Buf::H, Buf::K, n, h, q);
    let a3 = tower::clip_ops(l.v, Weight::Wv, Buf::H, Buf::V, n, h, q);
    let b = vision::attn_ops(c, n);
    let d0 = tower::clip_ops(l.o, Weight::Wo, Buf::Att, Buf::H2, n, q, h);
    let d1 = seq![
        vision::norm(Buf::H2, Some(Weight::PostAttnNorm), Buf::H2, n, h),
        Op::Add { dst: Buf::X, src: Buf::H2, n: (n * h) as usize },
    ];
    let e0 = seq![vision::norm(Buf::X, Some(Weight::PreFfwNorm), Buf::H, n, h)];
    let e1 = tower::clip_ops(l.gate, Weight::WGate, Buf::H, Buf::Gate, n, h, f);
    let e2 = tower::clip_ops(l.up, Weight::WUp, Buf::H, Buf::Up, n, h, f);
    let e3 = seq![Op::Geglu { n: (n * f) as usize }];
    let e4 = tower::clip_ops(l.down, Weight::WDown, Buf::Gate, Buf::H2, n, f, h);
    let e5 = seq![
        vision::norm(Buf::H2, Some(Weight::PostFfwNorm), Buf::H2, n, h),
        Op::Add { dst: Buf::X, src: Buf::H2, n: (n * h) as usize },
    ];
    lemma_at(a0, 0, Weight::InputNorm);
    lemma_clip(l.q, Weight::Wq, Buf::H, Buf::Q, n, h, q, shape);
    lemma_clip(l.k, Weight::Wk, Buf::H, Buf::K, n, h, q, shape);
    lemma_clip(l.v, Weight::Wv, Buf::H, Buf::V, n, h, q, shape);
    lemma_at(b, 0, Weight::QNorm);
    lemma_at(b, 1, Weight::KNorm);
    lemma_clip(l.o, Weight::Wo, Buf::Att, Buf::H2, n, q, h, shape);
    lemma_at(d1, 0, Weight::PostAttnNorm);
    lemma_at(e0, 0, Weight::PreFfwNorm);
    lemma_clip(l.gate, Weight::WGate, Buf::H, Buf::Gate, n, h, f, shape);
    lemma_clip(l.up, Weight::WUp, Buf::H, Buf::Up, n, h, f, shape);
    lemma_clip(l.down, Weight::WDown, Buf::Gate, Buf::H2, n, f, h, shape);
    lemma_at(e5, 0, Weight::PostFfwNorm);
    let a = a0 + a1 + a2 + a3;
    lemma_joined(a0, a1, w);
    lemma_joined(a0 + a1, a2, w);
    lemma_joined(a0 + a1 + a2, a3, w);
    let d = d0 + d1;
    lemma_joined(d0, d1, w);
    let e = e0 + e1 + e2 + e3 + e4 + e5;
    lemma_joined(e0, e1, w);
    lemma_joined(e0 + e1, e2, w);
    lemma_joined(e0 + e1 + e2, e3, w);
    lemma_joined(e0 + e1 + e2 + e3, e4, w);
    lemma_joined(e0 + e1 + e2 + e3 + e4, e5, w);
    lemma_joined(a, b, w);
    lemma_joined(a + b, d, w);
    lemma_joined(a + b + d, e, w);
    assert(fit(a0, shape));
    assert(fit(b, shape));
    assert(fit(d1, shape));
    assert(fit(e0, shape));
    assert(fit(e3, shape));
    assert(fit(e5, shape));
    lemma_fit_joined(a0, a1, shape);
    lemma_fit_joined(a0 + a1, a2, shape);
    lemma_fit_joined(a0 + a1 + a2, a3, shape);
    lemma_fit_joined(d0, d1, shape);
    lemma_fit_joined(e0, e1, shape);
    lemma_fit_joined(e0 + e1, e2, shape);
    lemma_fit_joined(e0 + e1 + e2, e3, shape);
    lemma_fit_joined(e0 + e1 + e2 + e3, e4, shape);
    lemma_fit_joined(e0 + e1 + e2 + e3 + e4, e5, shape);
    lemma_fit_joined(a, b, shape);
    lemma_fit_joined(a + b, d, shape);
    lemma_fit_joined(a + b + d, e, shape);
}

} // verus!
