//! Which tensors of a checkpoint the weights of a layer of the dense decoder
//! are.
use vstd::prelude::*;

use crate::models::ops::{Epilogue, Op, Weight};
use crate::models::transformer::config::ModelConfig;
use crate::models::transformer::forecast;
use crate::models::transformer::graph;
use crate::models::transformer::graph::{place, Biases, Need, PlaceSpec};
use crate::models::transformer::schedule;
use crate::models::transformer::schedule::{LayerKind, Pass};

verus! {

/// The tensor of a layer that a weight is.
pub open spec fn source(w: Weight) -> Seq<char> {
    match w {
        Weight::InputNorm => "input_layernorm.weight"@,
        Weight::PreFfwNorm => "post_attention_layernorm.weight"@,
        Weight::Wq => "self_attn.q_proj.weight"@,
        Weight::Wk => "self_attn.k_proj.weight"@,
        Weight::Wv => "self_attn.v_proj.weight"@,
        Weight::Wo => "self_attn.o_proj.weight"@,
        Weight::BiasQ => "self_attn.q_proj.bias"@,
        Weight::BiasK => "self_attn.k_proj.bias"@,
        Weight::BiasV => "self_attn.v_proj.bias"@,
        Weight::WGate => "mlp.gate_proj.weight"@,
        Weight::WUp => "mlp.up_proj.weight"@,
        Weight::WDown => "mlp.down_proj.weight"@,
        _ => Seq::empty(),
    }
}

/// A matrix of `n` rows of `k` is among the places of layer `i`.
pub open spec fn has_matrix(s: Seq<PlaceSpec>, i: int, w: Weight, n: int, k: usize) -> bool {
    exists|x: PlaceSpec|
        #![trigger s.contains(x)]
        s.contains(x) && x.name == graph::layer_name(i, source(w)) && (x.need == (Need::Linear {
            n: n as usize,
            k,
        }) || x.need == (Need::Matrix { n: n as usize, k }))
}

/// A vector of `len` is among the places of layer `i`.
pub open spec fn has_vector(s: Seq<PlaceSpec>, i: int, w: Weight, len: int) -> bool {
    s.contains(place(graph::layer_name(i, source(w)), Need::Vector { len: len as usize }))
}

/// The tensors that a step of layer `i` reads are among `s`, in the size in
/// which the step reads them. A product with concatenated rows reads each of
/// the tensors whose rows they are.
pub open spec fn held(op: Op, c: ModelConfig, i: int, s: Seq<PlaceSpec>) -> bool {
    let (q, kv) = (c.n_heads * c.head_dim, c.n_kv_heads * c.head_dim);
    match op {
        Op::Gemm { weight, n, k, .. } => has_matrix(s, i, weight, n as int, k),
        Op::Gemv { weight: Weight::Wqkv, bias, n, k, .. } => {
            &&& n == q + kv + kv
            &&& has_matrix(s, i, Weight::Wq, q, k)
            &&& has_matrix(s, i, Weight::Wk, kv, k)
            &&& has_matrix(s, i, Weight::Wv, kv, k)
            &&& bias is Some ==> bias == Some(Weight::BiasQkv) && has_vector(s, i, Weight::BiasQ, q)
                && has_vector(s, i, Weight::BiasK, kv) && has_vector(s, i, Weight::BiasV, kv)
        },
        Op::Gemv { weight: Weight::WGateUp, bias, n, k, epilogue, .. } => {
            &&& epilogue == Epilogue::SiluMul
            &&& bias is None
            &&& has_matrix(s, i, Weight::WGate, n as int, k)
            &&& has_matrix(s, i, Weight::WUp, n as int, k)
        },
        Op::Gemv { weight, bias, n, k, .. } => {
            &&& has_matrix(s, i, weight, n as int, k)
            &&& (bias matches Some(b) ==> has_vector(s, i, b, n as int))
        },
        Op::AddBias { weight, width, .. } => has_vector(s, i, weight, width as int),
        Op::RmsNorm { weight: Some(w), width, .. } => has_vector(s, i, w, width as int),
        _ => true,
    }
}

pub open spec fn all_held(ops: Seq<Op>, c: ModelConfig, i: int, s: Seq<PlaceSpec>) -> bool {
    forall|j: int| 0 <= j < ops.len() ==> held(#[trigger] ops[j], c, i, s)
}

proof fn lemma_joined(a: Seq<Op>, b: Seq<Op>, c: ModelConfig, i: int, s: Seq<PlaceSpec>)
    requires
        all_held(a, c, i, s),
        all_held(b, c, i, s),
    ensures
        all_held(a + b, c, i, s),
{
    assert forall|j: int| 0 <= j < (a + b).len() implies held(#[trigger] (a + b)[j], c, i, s) by {
        if j < a.len() {
            assert((a + b)[j] == a[j]);
        } else {
            assert((a + b)[j] == b[j - a.len()]);
        }
    }
}

/// The places of a layer.
pub open spec fn of_layer(c: ModelConfig, i: int, resident: bool, b: Biases) -> Seq<PlaceSpec> {
    graph::weight_places(c, i, resident) + graph::norm_places(c, i, b)
}

proof fn lemma_matrices(c: ModelConfig, i: int, resident: bool, b: Biases)
    requires
        forecast::sized(c),
    ensures
        ({
            let s = of_layer(c, i, resident, b);
            let (q, kv) = (c.n_heads * c.head_dim, c.n_kv_heads * c.head_dim);
            let (h, f) = (c.hidden_size, c.intermediate_size);
            &&& has_matrix(s, i, Weight::Wq, q, h)
            &&& has_matrix(s, i, Weight::Wk, kv, h)
            &&& has_matrix(s, i, Weight::Wv, kv, h)
            &&& has_matrix(s, i, Weight::Wo, h as int, q as usize)
            &&& has_matrix(s, i, Weight::WGate, f as int, h)
            &&& has_matrix(s, i, Weight::WUp, f as int, h)
            &&& has_matrix(s, i, Weight::WDown, h as int, f)
        }),
{
    let s = of_layer(c, i, resident, b);
    let w = graph::weight_places(c, i, resident);
    assert forall|j: int| 0 <= j < 7 implies s.contains(#[trigger] w[j]) by {
        assert(s[j] == w[j]);
    }
    assert(s.contains(w[0]) && s.contains(w[1]) && s.contains(w[2]));
    assert(s.contains(w[3]) && s.contains(w[4]) && s.contains(w[5]) && s.contains(w[6]));
}

proof fn lemma_vectors(c: ModelConfig, i: int, resident: bool, b: Biases)
    requires
        forecast::sized(c),
    ensures
        ({
            let s = of_layer(c, i, resident, b);
            let (q, kv) = (c.n_heads * c.head_dim, c.n_kv_heads * c.head_dim);
            let h = c.hidden_size as int;
            &&& has_vector(s, i, Weight::InputNorm, h)
            &&& has_vector(s, i, Weight::PreFfwNorm, h)
            &&& b.q && b.k && b.v ==> has_vector(s, i, Weight::BiasQ, q) && has_vector(
                s,
                i,
                Weight::BiasK,
                kv,
            ) && has_vector(s, i, Weight::BiasV, kv)
        }),
{
    let s = of_layer(c, i, resident, b);
    let v = graph::norm_places(c, i, b);
    assert forall|j: int| 0 <= j < v.len() implies s.contains(#[trigger] v[j]) by {
        assert(s[7 + j] == v[j]);
    }
    assert(s.contains(v[0]));
    assert(s.contains(v[v.len() - 1]));
    if b.q && b.k && b.v {
        assert(s.contains(v[1]) && s.contains(v[2]) && s.contains(v[3]));
    }
}

/// The tensors of a layer are among the places.
spec fn whole(s: Seq<PlaceSpec>, c: ModelConfig, i: int, biased: bool) -> bool {
    let (q, kv) = (c.n_heads * c.head_dim, c.n_kv_heads * c.head_dim);
    let (h, f) = (c.hidden_size, c.intermediate_size);
    &&& has_matrix(s, i, Weight::Wq, q, h)
    &&& has_matrix(s, i, Weight::Wk, kv, h)
    &&& has_matrix(s, i, Weight::Wv, kv, h)
    &&& has_matrix(s, i, Weight::Wo, h as int, q as usize)
    &&& has_matrix(s, i, Weight::WGate, f as int, h)
    &&& has_matrix(s, i, Weight::WUp, f as int, h)
    &&& has_matrix(s, i, Weight::WDown, h as int, f)
    &&& has_vector(s, i, Weight::InputNorm, h as int)
    &&& has_vector(s, i, Weight::PreFfwNorm, h as int)
    &&& biased ==> has_vector(s, i, Weight::BiasQ, q) && has_vector(s, i, Weight::BiasK, kv)
        && has_vector(s, i, Weight::BiasV, kv)
}

#[verifier::spinoff_prover]
proof fn lemma_attention(s: Seq<PlaceSpec>, c: ModelConfig, l: LayerKind, i: int, p: Pass)
    requires
        forecast::sized(c),
        whole(s, c, i, l.biased),
    ensures
        all_held(schedule::qkv_ops(c, l, p), c, i, s),
        all_held(schedule::out_ops(c, p), c, i, s),
{
    forecast::lemma_widths(c);
}

#[verifier::spinoff_prover]
proof fn lemma_mlp(s: Seq<PlaceSpec>, c: ModelConfig, l: LayerKind, i: int, p: Pass)
    requires
        whole(s, c, i, l.biased),
    ensures
        all_held(seq![schedule::norm_op(Weight::InputNorm, p, c)], c, i, s),
        all_held(schedule::mlp_ops(c, l, p), c, i, s),
{
    let v = schedule::mlp_ops(c, l, p);
    let n = seq![schedule::norm_op(Weight::PreFfwNorm, p, c)];
    let rest = v.skip(1);
    assert(v =~= n + rest);
    assert(all_held(n, c, i, s));
    assert(all_held(rest, c, i, s));
    lemma_joined(n, rest, c, i, s);
}

/// Whatever a layer of the decoder multiplies by, adds as a bias or norms by is
/// a tensor that was taken from the checkpoint for this layer, under its
/// published name and in the size in which the step reads it. A layer that adds
/// biases has all three.
pub proof fn law_layers_read_the_tensors_taken_for_them(
    c: ModelConfig,
    l: LayerKind,
    i: int,
    p: Pass,
    csz: int,
    b: Biases,
)
    requires
        forecast::sized(c),
        l.biased == (b.q && b.k && b.v),
    ensures
        all_held(schedule::layer_ops(c, l, i, p, csz), c, i, of_layer(c, i, l.split, b)),
{
    let s = of_layer(c, i, l.split, b);
    lemma_matrices(c, i, l.split, b);
    lemma_vectors(c, i, l.split, b);
    assert(whole(s, c, i, l.biased));
    lemma_attention(s, c, l, i, p);
    lemma_mlp(s, c, l, i, p);
    let v0 = seq![schedule::norm_op(Weight::InputNorm, p, c)];
    let v1 = schedule::qkv_ops(c, l, p);
    let v2 = schedule::cache_ops(c, i, p);
    let v3 = schedule::attn_ops(c, i, p, csz);
    let v4 = schedule::out_ops(c, p);
    let v5 = schedule::mlp_ops(c, l, p);
    assert(all_held(v2, c, i, s));
    assert(all_held(v3, c, i, s));
    lemma_joined(v0, v1, c, i, s);
    lemma_joined(v0 + v1, v2, c, i, s);
    lemma_joined(v0 + v1 + v2, v3, c, i, s);
    lemma_joined(v0 + v1 + v2 + v3, v4, c, i, s);
    lemma_joined(v0 + v1 + v2 + v3 + v4, v5, c, i, s);
}

} // verus!
