//! Which tensor of a checkpoint each weight of a layer of the text model is.
use vstd::prelude::*;

use crate::models::gemma4::config::LayerType;
use crate::models::gemma4::graph::Gemma4;
use crate::models::gemma4::schedule;
use crate::models::gemma4::schedule::Pass;
use crate::models::gemma4::slots;
use crate::models::gemma4::slots::{slot, Need, SlotSpec};
use crate::models::ops::{Op, Weight};

verus! {

/// The tensor of a layer that a weight is.
pub open spec fn source(w: Weight) -> Seq<char> {
    match w {
        Weight::InputNorm => "input_layernorm.weight"@,
        Weight::PostAttnNorm => "post_attention_layernorm.weight"@,
        Weight::PreFfwNorm => "pre_feedforward_layernorm.weight"@,
        Weight::PostFfwNorm => "post_feedforward_layernorm.weight"@,
        Weight::Wq => "self_attn.q_proj.weight"@,
        Weight::QNorm => "self_attn.q_norm.weight"@,
        Weight::Wk => "self_attn.k_proj.weight"@,
        Weight::KNorm => "self_attn.k_norm.weight"@,
        Weight::Wv => "self_attn.v_proj.weight"@,
        Weight::Wo => "self_attn.o_proj.weight"@,
        Weight::WGate => "mlp.gate_proj.weight"@,
        Weight::WUp => "mlp.up_proj.weight"@,
        Weight::WDown => "mlp.down_proj.weight"@,
        Weight::PleGate => "per_layer_input_gate.weight"@,
        Weight::PleProj => "per_layer_projection.weight"@,
        Weight::PleNorm => "post_per_layer_input_norm.weight"@,
        _ => Seq::empty(),
    }
}

/// The tensor that a step of layer `i` reads is among `s`, in the size in which
/// the step reads it.
pub open spec fn held(op: Op, i: int, s: Seq<SlotSpec>) -> bool {
    match op {
        Op::Gemm { weight, n, k, .. } => s.contains(
            slot(slots::layer_name(i, source(weight)), Need::Linear { n_out: n, n_in: k }),
        ),
        Op::RmsNorm { weight: Some(w), width, .. } => s.contains(
            slot(slots::layer_name(i, source(w)), Need::Norm { len: width }),
        ),
        _ => true,
    }
}

pub open spec fn all_held(ops: Seq<Op>, i: int, s: Seq<SlotSpec>) -> bool {
    forall|j: int| 0 <= j < ops.len() ==> held(#[trigger] ops[j], i, s)
}

proof fn lemma_joined(a: Seq<Op>, b: Seq<Op>, i: int, s: Seq<SlotSpec>)
    requires
        all_held(a, i, s),
        all_held(b, i, s),
    ensures
        all_held(a + b, i, s),
{
    assert forall|j: int| 0 <= j < (a + b).len() implies held(#[trigger] (a + b)[j], i, s) by {
        if j < a.len() {
            assert((a + b)[j] == a[j]);
        } else {
            assert((a + b)[j] == b[j - a.len()]);
        }
    }
}

proof fn lemma_among(x: SlotSpec, a: Seq<SlotSpec>, b: Seq<SlotSpec>, c: Seq<SlotSpec>)
    ensures
        b.contains(x) ==> (a + b + c).contains(x),
{
    if b.contains(x) {
        let j = choose|j: int| 0 <= j < b.len() && b[j] == x;
        assert((a + b + c)[a.len() + j] == x);
    }
}

/// What is held among some places is held among more of them.
proof fn lemma_more(ops: Seq<Op>, i: int, a: Seq<SlotSpec>, b: Seq<SlotSpec>, c: Seq<SlotSpec>)
    requires
        all_held(ops, i, b),
    ensures
        all_held(ops, i, a + b + c),
{
    assert forall|j: int| 0 <= j < ops.len() implies held(#[trigger] ops[j], i, a + b + c) by {
        match ops[j] {
            Op::Gemm { weight, n, k, .. } => {
                let x = slot(
                    slots::layer_name(i, source(weight)),
                    Need::Linear { n_out: n, n_in: k },
                );
                lemma_among(x, a, b, c);
            },
            Op::RmsNorm { weight: Some(w), width, .. } => {
                let x = slot(slots::layer_name(i, source(w)), Need::Norm { len: width });
                lemma_among(x, a, b, c);
            },
            _ => {},
        }
    }
}

proof fn lemma_queries(g: Gemma4, i: int, c: Pass, factors: bool)
    ensures
        all_held(
            schedule::query_ops(g.cfg.text, g.layers@[i], c, factors),
            i,
            slots::front_slots(g.cfg.text, g.layers@[i], i),
        ),
{
    let s = slots::front_slots(g.cfg.text, g.layers@[i], i);
    let v = schedule::query_ops(g.cfg.text, g.layers@[i], c, factors);
    assert(s[1] == s[1] && s[5] == s[5] && s[6] == s[6]);
    assert(held(v[0], i, s));
    assert(held(v[1], i, s));
    assert(held(v[2], i, s));
    assert(held(v[3], i, s));
}

proof fn lemma_kv(g: Gemma4, i: int, c: Pass, factors: bool)
    ensures
        all_held(
            schedule::kv_ops(g.cfg.text, g.layers@[i], i, c, factors),
            i,
            slots::kv_slots(g.cfg.text, g.layers@[i], i),
        ),
{
    let p = g.layers@[i];
    let s = slots::kv_slots(g.cfg.text, p, i);
    let v = schedule::kv_ops(g.cfg.text, p, i, c, factors);
    let t = g.cfg.text;
    if !p.shared {
        let key = slot(
            slots::layer_name(i, "self_attn.k_proj.weight"@),
            Need::Linear { n_out: p.kvd, n_in: t.hidden },
        );
        let value = slot(
            slots::layer_name(i, "self_attn.v_proj.weight"@),
            Need::Linear { n_out: p.kvd, n_in: t.hidden },
        );
        let norm = slot(
            slots::layer_name(i, "self_attn.k_norm.weight"@),
            Need::Norm { len: p.head_dim },
        );
        assert(s[0] == key);
        assert(s[s.len() - 1] == norm);
        assert(s.contains(key) && s.contains(norm));
        if p.own_values {
            assert(s[1] == value);
            assert(s.contains(value));
        }
        assert(v.len() == 6);
        assert(held(v[0], i, s));
        assert(held(v[1], i, s));
        assert(held(v[2], i, s));
        assert(held(v[3], i, s));
        assert(held(v[4], i, s));
        assert(held(v[5], i, s));
    }
}

proof fn lemma_mlp(g: Gemma4, i: int, c: Pass)
    ensures
        ({
            let (t, p) = (g.cfg.text, g.layers@[i]);
            all_held(
                schedule::mlp_ops(t, p, c),
                i,
                slots::front_slots(t, p, i) + slots::kv_slots(t, p, i) + slots::back_slots(t, p, i),
            )
        }),
{
    let (t, p) = (g.cfg.text, g.layers@[i]);
    let (a, k, b) = (
        slots::front_slots(t, p, i),
        slots::kv_slots(t, p, i),
        slots::back_slots(t, p, i),
    );
    let s = a + k + b;
    let v = schedule::mlp_ops(t, p, c);
    assert(s[2] == a[2] && s[3] == a[3] && s[4] == a[4]);
    let n: int = a.len() + k.len() as int;
    assert(s[n] == b[0] && s[n + 1] == b[1] && s[n + 2] == b[2] && s[n + 3] == b[3]);
    assert(held(v[0], i, s));
    assert(held(v[1], i, s));
    assert(held(v[2], i, s));
    assert(held(v[3], i, s));
    assert(held(v[4], i, s));
    assert(held(v[5], i, s));
    assert(held(v[6], i, s));
    assert(held(v[7], i, s));
    assert(held(v[8], i, s));
    assert(held(v[9], i, s));
}

proof fn lemma_ple(g: Gemma4, i: int, c: Pass)
    ensures
        all_held(schedule::ple_ops(g.cfg.text, i, c), i, slots::ple_slots(g.cfg.text, i)),
{
    let t = g.cfg.text;
    let s = slots::ple_slots(t, i);
    let v = schedule::ple_ops(t, i, c);
    if t.ple_dim > 0 {
        assert(s[0] == s[0] && s[1] == s[1] && s[2] == s[2]);
        assert(held(v[0], i, s));
        assert(held(v[1], i, s));
        assert(held(v[2], i, s));
        assert(held(v[3], i, s));
        assert(held(v[4], i, s));
        assert(held(v[5], i, s));
    }
}

/// Whatever a layer of the text model multiplies or norms by is a tensor that
/// was taken from the checkpoint for this layer, under its published name and
/// in the size in which the step reads it.
pub proof fn law_layers_read_the_tensors_taken_for_them(g: Gemma4, i: int, c: Pass, ple: bool)
    ensures
        all_held(
            schedule::layer_ops(g, i, c, ple),
            i,
            slots::layer_slots(g.cfg.text, g.layers@[i], i),
        ),
{
    let (t, p) = (g.cfg.text, g.layers@[i]);
    let factors = g.rope_factors && t.layer_types@[i] == LayerType::Full;
    let (o, a, k, b, e) = (
        slots::probe_slots(p, i),
        slots::front_slots(t, p, i),
        slots::kv_slots(t, p, i),
        slots::back_slots(t, p, i),
        slots::ple_slots(t, i),
    );
    let s = slots::layer_slots(t, p, i);
    let none = Seq::<SlotSpec>::empty();
    let (v0, v1, v2, v3) = (
        schedule::query_ops(t, p, c, factors),
        schedule::kv_ops(t, p, i, c, factors),
        schedule::attn_ops(t, p, c, g.csz as int),
        schedule::mlp_ops(t, p, c),
    );
    let v4 = if ple {
        schedule::ple_ops(t, i, c)
    } else {
        Seq::empty()
    };
    let v5 = schedule::scale_ops(t, g.scalars@[i], c);
    lemma_queries(g, i, c, factors);
    lemma_more(v0, i, o, a, k + b + e);
    assert(o + a + (k + b + e) =~= s);
    lemma_kv(g, i, c, factors);
    lemma_more(v1, i, o + a, k, b + e);
    assert(o + a + k + (b + e) =~= s);
    lemma_mlp(g, i, c);
    lemma_more(v3, i, o, a + k + b, e);
    assert(o + (a + k + b) + e =~= s);
    lemma_ple(g, i, c);
    lemma_more(schedule::ple_ops(t, i, c), i, o + a + k + b, e, none);
    assert(o + a + k + b + e + none =~= s);
    assert(all_held(v2, i, s));
    assert(all_held(v5, i, s));
    lemma_joined(v0, v1, i, s);
    lemma_joined(v0 + v1, v2, i, s);
    lemma_joined(v0 + v1 + v2, v3, i, s);
    lemma_joined(v0 + v1 + v2 + v3, v4, i, s);
    lemma_joined(v0 + v1 + v2 + v3 + v4, v5, i, s);
}

} // verus!
