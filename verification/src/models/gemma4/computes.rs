//! What a forward pass through the text model computes.
use vstd::prelude::*;

use crate::ieee::Format;
use crate::models::gemma4::config::{G4TextCfg, LayerType};
use crate::models::gemma4::feed;
use crate::models::gemma4::graph::Gemma4;
use crate::models::gemma4::plan;
use crate::models::gemma4::schedule;
use crate::models::gemma4::schedule::Pass;
use crate::models::meaning;
use crate::models::meaning::{
    cached, gated, normed, of, part, plus, product, run, start, Act, At, State, Term, Widths,
};
use crate::models::ops::{Buf, Op, Weight};
use crate::models::ONE;
use crate::tensor::DType;

verus! {

/// The geometry of a layer, by its attention type: sliding layers look back a
/// window, full layers have heads of their own width and number, and their
/// values may be their keys.
pub struct Shape {
    pub dim: int,
    pub kv_heads: int,
    pub theta: u32,
    pub nfreqs: int,
    pub window: int,
    pub own_values: bool,
    /// Keys and values are those of an earlier layer.
    pub shared: bool,
    pub inter: int,
    /// Rotary factors apply.
    pub factors: bool,
}

pub open spec fn shape_of(g: Gemma4, i: int) -> Shape {
    let t = g.cfg.text;
    let shared = i >= t.n_layers - t.n_kv_shared;
    let inter = if shared && t.double_wide_mlp {
        2 * t.inter
    } else {
        t.inter as int
    };
    match t.layer_types@[i] {
        LayerType::Sliding => Shape {
            dim: t.head_dim as int,
            kv_heads: t.n_kv_heads as int,
            theta: t.theta_sliding,
            nfreqs: t.head_dim as int / 2,
            window: t.sliding_window as int,
            own_values: true,
            shared,
            inter,
            factors: false,
        },
        LayerType::Full => Shape {
            dim: t.global_head_dim as int,
            kv_heads: t.n_global_kv_heads as int,
            theta: t.theta_full,
            nfreqs: t.full_nfreqs as int,
            window: 0,
            own_values: !t.k_eq_v,
            shared,
            inter,
            factors: g.rope_factors,
        },
    }
}

/// Heads, each normed, rotated to their positions.
pub open spec fn rotated(z: Shape, c: Pass, x: Term, heads: int) -> Term {
    Term::Rotated {
        of: Box::new(x),
        rows: c.rows as int,
        heads,
        dim: z.dim,
        at: start(c.pos0, c.counter),
        theta: z.theta,
        nfreqs: z.nfreqs,
        factors: z.factors,
    }
}

/// What a layer makes of the residual stream and of its caches.
pub struct Layered {
    pub x: Term,
    pub keys: Term,
    pub values: Term,
}

/// The keys and values that a computing layer adds to its caches: keys take the
/// learned norm and the rotary embedding; values, from their own projection or
/// from that of the keys, a norm without weight.
pub open spec fn kept(t: G4TextCfg, z: Shape, i: int, c: Pass, h: Term, keys: Term, values: Term) -> (Term, Term) {
    let (r, hid, kvd) = (c.rows as int, t.hidden as int, z.kv_heads * z.dim);
    let at = start(c.pos0, c.counter);
    let k = product(i, Weight::Wk, h, r, kvd, hid);
    let v = if z.own_values {
        product(i, Weight::Wv, h, r, kvd, hid)
    } else {
        part(k, 0, r * kvd)
    };
    let key = rotated(z, c, normed(i, Some(Weight::KNorm), k, r * z.kv_heads, z.dim), z.kv_heads);
    let value = normed(i, None, v, r * z.kv_heads, z.dim);
    let cap = t.max_seq as int;
    (
        cached(keys, key, r, z.kv_heads, z.dim, at, cap),
        cached(values, value, r, z.kv_heads, z.dim, at, cap),
    )
}

/// The queries of a layer over a cache.
pub open spec fn attended(t: G4TextCfg, z: Shape, i: int, c: Pass, h: Term, keys: Term, values: Term, blocks: Term) -> Term {
    let r = c.rows as int;
    let q = product(i, Weight::Wq, h, r, t.n_heads * z.dim, t.hidden as int);
    let query = rotated(
        z,
        c,
        normed(i, Some(Weight::QNorm), q, r * t.n_heads, z.dim),
        t.n_heads as int,
    );
    Term::Attended {
        q: Box::new(query),
        keys: Box::new(keys),
        values: Box::new(values),
        scale: ONE,
        rows: r,
        heads: t.n_heads as int,
        kv_heads: z.kv_heads,
        dim: z.dim,
        at: if r == 1 {
            start(c.pos0, c.counter)
        } else {
            At::Pos(c.pos0 as int)
        },
        cap: t.max_seq as int,
        causal: true,
        window: z.window,
        blocks: if r > 1 && c.blocks {
            Some(Box::new(blocks))
        } else {
            None
        },
    }
}

/// The output projection and the feed-forward block, each normed and added.
pub open spec fn added(t: G4TextCfg, z: Shape, i: int, c: Pass, x: Term, att: Term) -> Term {
    let (r, hid, f) = (c.rows as int, t.hidden as int, z.inter);
    let a = normed(
        i,
        Some(Weight::PostAttnNorm),
        product(i, Weight::Wo, att, r, hid, t.n_heads * z.dim),
        r,
        hid,
    );
    let y = plus(x, a, r * hid);
    let g = normed(i, Some(Weight::PreFfwNorm), y, r, hid);
    let m = gated(
        product(i, Weight::WGate, g, r, f, hid),
        product(i, Weight::WUp, g, r, f, hid),
        Act::Gelu,
        r * f,
    );
    let b = normed(i, Some(Weight::PostFfwNorm), product(i, Weight::WDown, m, r, hid, f), r, hid);
    plus(y, b, r * hid)
}

/// The per-layer input of layer `i`, gated by the residual stream and added.
pub open spec fn with_input(t: G4TextCfg, i: int, c: Pass, x: Term, inputs: Term) -> Term {
    let (r, hid, d) = (c.rows as int, t.hidden as int, t.ple_dim as int);
    let g = Term::Activated {
        of: Box::new(product(i, Weight::PleGate, x, r, d, hid)),
        act: Act::Gelu,
        n: r * d,
    };
    let y = Term::Strided {
        of: Box::new(g),
        by: Box::new(inputs),
        rows: r,
        width: d,
        stride: t.n_layers * d,
        offset: i * d,
    };
    plus(
        x,
        normed(i, Some(Weight::PleNorm), product(i, Weight::PleProj, y, r, hid, d), r, hid),
        r * hid,
    )
}

/// A layer. `source` are the caches that it attends to where it has none of
/// its own.
pub open spec fn layered(
    g: Gemma4,
    i: int,
    c: Pass,
    ple: bool,
    x: Term,
    keys: Term,
    values: Term,
    source: (Term, Term),
    blocks: Term,
    inputs: Term,
) -> Layered {
    let t = g.cfg.text;
    let z = shape_of(g, i);
    let h = normed(i, Some(Weight::InputNorm), x, c.rows as int, t.hidden as int);
    let kv = kept(t, z, i, c, h, keys, values);
    let att = if z.shared {
        attended(t, z, i, c, h, source.0, source.1, blocks)
    } else {
        attended(t, z, i, c, h, kv.0, kv.1, blocks)
    };
    let a = added(t, z, i, c, x, att);
    let b = if ple && t.ple_dim > 0 {
        with_input(t, i, c, a, inputs)
    } else {
        a
    };
    let y = if schedule::scales(g.scalars@[i]) {
        Term::Scaled { of: Box::new(b), factor: g.scalars@[i], n: c.rows * t.hidden }
    } else {
        b
    };
    if z.shared {
        Layered { x: y, keys, values }
    } else {
        Layered { x: y, keys: kv.0, values: kv.1 }
    }
}

/// The caches of all layers, the per-layer inputs and the blocks are as they
/// were.
pub open spec fn kept_all(s: State, t: State) -> bool {
    &&& t[Buf::Ple] == s[Buf::Ple]
    &&& t[Buf::BlkId] == s[Buf::BlkId]
    &&& forall|j: usize| #![trigger t[Buf::KCache(j)]] #![trigger t[Buf::VCache(j)]]
        t[Buf::KCache(j)] == s[Buf::KCache(j)] && t[Buf::VCache(j)] == s[Buf::VCache(j)]
}

/// As above, but for the caches of layer `i`.
pub open spec fn kept_others(s: State, t: State, i: int) -> bool {
    &&& t[Buf::Ple] == s[Buf::Ple]
    &&& t[Buf::BlkId] == s[Buf::BlkId]
    &&& forall|j: usize| #![trigger t[Buf::KCache(j)]] #![trigger t[Buf::VCache(j)]]
        j != i ==> t[Buf::KCache(j)] == s[Buf::KCache(j)] && t[Buf::VCache(j)] == s[Buf::VCache(j)]
}

/// No row of queries, keys and values is divided.
pub open spec fn whole() -> Widths {
    Widths { q: 0, kv: 0 }
}

proof fn lemma_shape(g: Gemma4, i: int, c: Pass)
    requires
        schedule::runnable(g),
        schedule::admissible(g.cfg.text, c),
        0 <= i < g.cfg.text.n_layers,
    ensures
        ({
            let t = g.cfg.text;
            let p = g.layers@[i];
            let z = shape_of(g, i);
            &&& p.head_dim == z.dim
            &&& p.kv_heads == z.kv_heads
            &&& p.theta == z.theta
            &&& p.nfreqs == z.nfreqs
            &&& p.window == z.window
            &&& p.own_values == z.own_values
            &&& p.shared == z.shared
            &&& p.inter == z.inter
            &&& p.qd == t.n_heads * z.dim
            &&& p.kvd == z.kv_heads * z.dim
            &&& !z.shared ==> p.kv_src == i
            &&& z.shared ==> p.kv_src < i
            &&& (g.rope_factors && t.layer_types@[i] == LayerType::Full) == z.factors
            &&& (c.rows * t.n_heads) as usize as int == c.rows * t.n_heads
            &&& (c.rows * p.kv_heads) as usize as int == c.rows * z.kv_heads
            &&& (c.rows * p.kvd) as usize as int == c.rows * (z.kv_heads * z.dim)
            &&& (c.rows * t.hidden) as usize as int == c.rows * t.hidden
            &&& (c.rows * p.inter) as usize as int == c.rows * z.inter
            &&& (c.rows * t.ple_dim) as usize as int == c.rows * t.ple_dim
            &&& (t.n_layers * t.ple_dim) as usize as int == t.n_layers * t.ple_dim
            &&& (i * t.ple_dim) as usize as int == i * t.ple_dim
        }),
{
    let t = g.cfg.text;
    let p = g.layers@[i];
    assert(plan::is_layer(p, t, i));
    schedule::lemma_rows(t, p, i, c);
    plan::law_sources_compute(t.layer_types@, plan::first_shared(t), i);
}

#[verifier::spinoff_prover]
#[verifier::rlimit(40)]
proof fn lemma_queries(g: Gemma4, i: int, c: Pass, s: State)
    requires
        schedule::runnable(g),
        schedule::admissible(g.cfg.text, c),
        0 <= i < g.cfg.text.n_layers,
    ensures
        ({
            let t = g.cfg.text;
            let z = shape_of(g, i);
            let y = run(s, i, whole(), schedule::query_ops(t, g.layers@[i], c, z.factors));
            let h = normed(i, Some(Weight::InputNorm), s[Buf::X], c.rows as int, t.hidden as int);
            &&& y[Buf::H] == h
            &&& y[Buf::Q] == rotated(
                z,
                c,
                normed(
                    i,
                    Some(Weight::QNorm),
                    product(i, Weight::Wq, h, c.rows as int, t.n_heads * z.dim, t.hidden as int),
                    c.rows * t.n_heads,
                    z.dim,
                ),
                t.n_heads as int,
            )
            &&& y[Buf::X] == s[Buf::X]
            &&& kept_all(s, y)
        }),
{
    lemma_shape(g, i, c);
    let v = schedule::query_ops(g.cfg.text, g.layers@[i], c, shape_of(g, i).factors);
    assert(v =~= seq![v[0], v[1], v[2], v[3]]);
    meaning::lemma_four(s, i, whole(), v[0], v[1], v[2], v[3]);
}

#[verifier::spinoff_prover]
#[verifier::rlimit(60)]
proof fn lemma_keeping(g: Gemma4, i: int, c: Pass, s: State)
    requires
        schedule::runnable(g),
        schedule::admissible(g.cfg.text, c),
        0 <= i < g.cfg.text.n_layers,
    ensures
        ({
            let t = g.cfg.text;
            let z = shape_of(g, i);
            let y = run(s, i, whole(), schedule::kv_ops(t, g.layers@[i], i, c, z.factors));
            let (kc, vc) = (Buf::KCache(i as usize), Buf::VCache(i as usize));
            let kv = kept(t, z, i, c, s[Buf::H], s[kc], s[vc]);
            &&& y[Buf::Q] == s[Buf::Q]
            &&& y[Buf::X] == s[Buf::X]
            &&& kept_others(s, y, i)
            &&& z.shared ==> y == s
            &&& !z.shared ==> y[kc] == kv.0 && y[vc] == kv.1
        }),
{
    lemma_shape(g, i, c);
    let t = g.cfg.text;
    let p = g.layers@[i];
    let z = shape_of(g, i);
    let w = whole();
    let v = schedule::kv_ops(t, p, i, c, z.factors);
    if z.shared {
        assert(v =~= Seq::<Op>::empty());
    } else if z.own_values {
        assert(v.len() == 6);
        let a = seq![v[0], v[1], v[2]];
        let b = seq![v[3], v[4], v[5]];
        assert(v =~= a + b);
        meaning::lemma_run_on(s, i, w, a, b);
        meaning::lemma_three(s, i, w, v[0], v[1], v[2]);
        meaning::lemma_three(run(s, i, w, a), i, w, v[3], v[4], v[5]);
    } else {
        assert(v.len() == 6);
        let a = seq![v[0], v[1], v[2]];
        let b = seq![v[3], v[4], v[5]];
        assert(v =~= a + b);
        meaning::lemma_run_on(s, i, w, a, b);
        meaning::lemma_three(s, i, w, v[0], v[1], v[2]);
        meaning::lemma_three(run(s, i, w, a), i, w, v[3], v[4], v[5]);
    }
}

#[verifier::spinoff_prover]
#[verifier::rlimit(40)]
proof fn lemma_attending(g: Gemma4, i: int, c: Pass, s: State)
    requires
        schedule::runnable(g),
        schedule::admissible(g.cfg.text, c),
        0 <= i < g.cfg.text.n_layers,
    ensures
        ({
            let t = g.cfg.text;
            let z = shape_of(g, i);
            let src = g.layers@[i].kv_src;
            let y = run(s, i, whole(), schedule::attn_ops(t, g.layers@[i], c, g.csz as int));
            &&& y[Buf::Att] == Term::Attended {
                q: Box::new(s[Buf::Q]),
                keys: Box::new(s[Buf::KCache(src)]),
                values: Box::new(s[Buf::VCache(src)]),
                scale: ONE,
                rows: c.rows as int,
                heads: t.n_heads as int,
                kv_heads: z.kv_heads,
                dim: z.dim,
                at: if c.rows == 1 {
                    start(c.pos0, c.counter)
                } else {
                    At::Pos(c.pos0 as int)
                },
                cap: t.max_seq as int,
                causal: true,
                window: z.window,
                blocks: if c.rows > 1 && c.blocks {
                    Some(Box::new(s[Buf::BlkId]))
                } else {
                    None
                },
            }
            &&& y[Buf::X] == s[Buf::X]
            &&& kept_all(s, y)
        }),
{
    lemma_shape(g, i, c);
    let w = whole();
    let p = g.layers@[i];
    let v = schedule::attn_ops(g.cfg.text, p, c, g.csz as int);
    if c.rows == 1 && p.head_dim % 32 == 0 && p.head_dim <= 256 {
        assert(v =~= seq![v[0], v[1]]);
        meaning::lemma_two(s, i, w, v[0], v[1]);
    } else {
        assert(v =~= seq![v[0]]);
        meaning::lemma_one(s, i, w, v[0]);
    }
}

#[verifier::spinoff_prover]
#[verifier::rlimit(60)]
proof fn lemma_adding(g: Gemma4, i: int, c: Pass, s: State)
    requires
        schedule::runnable(g),
        schedule::admissible(g.cfg.text, c),
        0 <= i < g.cfg.text.n_layers,
    ensures
        ({
            let t = g.cfg.text;
            let y = run(s, i, whole(), schedule::mlp_ops(t, g.layers@[i], c));
            &&& y[Buf::X] == added(t, shape_of(g, i), i, c, s[Buf::X], s[Buf::Att])
            &&& kept_all(s, y)
        }),
{
    lemma_shape(g, i, c);
    let w = whole();
    let v = schedule::mlp_ops(g.cfg.text, g.layers@[i], c);
    let a = seq![v[0], v[1], v[2]];
    let b = seq![v[3], v[4], v[5], v[6]];
    let d = seq![v[7], v[8], v[9]];
    assert(v =~= a + b + d);
    meaning::lemma_run_on(s, i, w, a + b, d);
    meaning::lemma_run_on(s, i, w, a, b);
    meaning::lemma_three(s, i, w, v[0], v[1], v[2]);
    let s1 = run(s, i, w, a);
    meaning::lemma_four(s1, i, w, v[3], v[4], v[5], v[6]);
    let s2 = run(s1, i, w, b);
    meaning::lemma_three(s2, i, w, v[7], v[8], v[9]);
}

#[verifier::spinoff_prover]
#[verifier::rlimit(60)]
proof fn lemma_inputs(g: Gemma4, i: int, c: Pass, s: State)
    requires
        schedule::runnable(g),
        schedule::admissible(g.cfg.text, c),
        0 <= i < g.cfg.text.n_layers,
    ensures
        ({
            let t = g.cfg.text;
            let y = run(s, i, whole(), schedule::ple_ops(t, i, c));
            &&& y[Buf::X] == (if t.ple_dim > 0 {
                with_input(t, i, c, s[Buf::X], s[Buf::Ple])
            } else {
                s[Buf::X]
            })
            &&& kept_all(s, y)
        }),
{
    lemma_shape(g, i, c);
    let t = g.cfg.text;
    let w = whole();
    let v = schedule::ple_ops(t, i, c);
    if t.ple_dim > 0 {
        let a = seq![v[0], v[1], v[2]];
        let b = seq![v[3], v[4], v[5]];
        assert(v =~= a + b);
        meaning::lemma_run_on(s, i, w, a, b);
        meaning::lemma_three(s, i, w, v[0], v[1], v[2]);
        meaning::lemma_three(run(s, i, w, a), i, w, v[3], v[4], v[5]);
    } else {
        assert(v =~= Seq::<Op>::empty());
    }
}

/// A layer computes what a layer of the text model is, for one row as for
/// several. Queries and keys are normed head by head and rotated; values are
/// normed and not rotated; a layer that shares keys and values attends to the
/// caches of its source and writes none; each block is normed before it is
/// added.
#[verifier::spinoff_prover]
#[verifier::rlimit(60)]
pub proof fn law_layers_compute_their_blocks(g: Gemma4, i: int, c: Pass, ple: bool, s: State)
    requires
        schedule::runnable(g),
        schedule::admissible(g.cfg.text, c),
        0 <= i < g.cfg.text.n_layers,
    ensures
        ({
            let y = run(s, i, whole(), schedule::layer_ops(g, i, c, ple));
            let (kc, vc) = (Buf::KCache(i as usize), Buf::VCache(i as usize));
            let src = g.layers@[i].kv_src;
            let z = layered(
                g,
                i,
                c,
                ple,
                s[Buf::X],
                s[kc],
                s[vc],
                (s[Buf::KCache(src)], s[Buf::VCache(src)]),
                s[Buf::BlkId],
                s[Buf::Ple],
            );
            &&& y[Buf::X] == z.x
            &&& y[kc] == z.keys
            &&& y[vc] == z.values
            &&& kept_others(s, y, i)
        }),
{
    lemma_shape(g, i, c);
    let t = g.cfg.text;
    let p = g.layers@[i];
    let z = shape_of(g, i);
    let w = whole();
    let (a, b, d, e, f, k) = (
        schedule::query_ops(t, p, c, z.factors),
        schedule::kv_ops(t, p, i, c, z.factors),
        schedule::attn_ops(t, p, c, g.csz as int),
        schedule::mlp_ops(t, p, c),
        if ple {
            schedule::ple_ops(t, i, c)
        } else {
            Seq::<Op>::empty()
        },
        schedule::scale_ops(t, g.scalars@[i], c),
    );
    let s1 = run(s, i, w, a);
    lemma_queries(g, i, c, s);
    let s2 = run(s1, i, w, b);
    lemma_keeping(g, i, c, s1);
    meaning::lemma_run_on(s, i, w, a, b);
    let s3 = run(s2, i, w, d);
    lemma_attending(g, i, c, s2);
    meaning::lemma_run_on(s, i, w, a + b, d);
    let s4 = run(s3, i, w, e);
    lemma_adding(g, i, c, s3);
    meaning::lemma_run_on(s, i, w, a + b + d, e);
    let s5 = run(s4, i, w, f);
    lemma_inputs(g, i, c, s4);
    meaning::lemma_run_on(s, i, w, a + b + d + e, f);
    let s6 = run(s5, i, w, k);
    if schedule::scales(g.scalars@[i]) {
        meaning::lemma_one(s5, i, w, k[0]);
        assert(k =~= seq![k[0]]);
    } else {
        assert(k =~= Seq::<Op>::empty());
    }
    meaning::lemma_run_on(s, i, w, a + b + d + e + f, k);
    assert(schedule::layer_ops(g, i, c, ple) == a + b + d + e + f + k);
    assert(s5[Buf::X] == (if ple && t.ple_dim > 0 {
        with_input(t, i, c, s4[Buf::X], s4[Buf::Ple])
    } else {
        s4[Buf::X]
    }));
}

/// The contents after the first `n` layers of a pass.
pub open spec fn passed(s: State, g: Gemma4, c: Pass, ple: bool, n: int) -> State
    decreases n,
{
    if n <= 0 {
        s
    } else {
        run(
            passed(s, g, c, ple, n - 1),
            n - 1,
            whole(),
            schedule::forward_ops(g, g.cfg.text.n_layers as int, c, ple)[n - 1],
        )
    }
}

/// What layer `i` makes of what the layers before it left: of the residual
/// stream, of its own caches, and of those of its source as the pass left them.
pub open spec fn layer_result(s: State, g: Gemma4, c: Pass, ple: bool, i: int) -> Layered
    decreases i,
{
    let x = if i <= 0 {
        s[Buf::X]
    } else {
        layer_result(s, g, c, ple, i - 1).x
    };
    let src = g.layers@[i].kv_src as int;
    let source = if 0 <= src < i {
        (layer_result(s, g, c, ple, src).keys, layer_result(s, g, c, ple, src).values)
    } else {
        (s[Buf::KCache(src as usize)], s[Buf::VCache(src as usize)])
    };
    layered(
        g,
        i,
        c,
        ple,
        x,
        s[Buf::KCache(i as usize)],
        s[Buf::VCache(i as usize)],
        source,
        s[Buf::BlkId],
        s[Buf::Ple],
    )
}

proof fn lemma_forward(g: Gemma4, c: Pass, ple: bool, n: int, i: int)
    requires
        0 <= i < n,
    ensures
        schedule::forward_ops(g, n, c, ple).len() == n,
        schedule::forward_ops(g, n, c, ple)[i] == schedule::layer_ops(g, i, c, ple),
    decreases n,
{
    if i < n - 1 {
        lemma_forward(g, c, ple, n - 1, i);
    } else if n > 1 {
        lemma_forward(g, c, ple, n - 1, 0);
    } else {
        assert(schedule::forward_ops(g, 0, c, ple).len() == 0);
    }
}

/// A pass stacks the layers: each reads the residual stream that the one before
/// it left, and a layer that shares keys and values reads what its source wrote
/// in the same pass.
pub proof fn law_passes_stack_the_layers(g: Gemma4, c: Pass, ple: bool, s: State, n: int)
    requires
        schedule::runnable(g),
        schedule::admissible(g.cfg.text, c),
        0 <= n <= g.cfg.text.n_layers,
    ensures
        ({
            let t = passed(s, g, c, ple, n);
            &&& t[Buf::X] == (if n <= 0 {
                s[Buf::X]
            } else {
                layer_result(s, g, c, ple, n - 1).x
            })
            &&& t[Buf::Ple] == s[Buf::Ple]
            &&& t[Buf::BlkId] == s[Buf::BlkId]
            &&& forall|j: usize| #![trigger t[Buf::KCache(j)]] #![trigger t[Buf::VCache(j)]]
                if j < n {
                    &&& t[Buf::KCache(j)] == layer_result(s, g, c, ple, j as int).keys
                    &&& t[Buf::VCache(j)] == layer_result(s, g, c, ple, j as int).values
                } else {
                    &&& t[Buf::KCache(j)] == s[Buf::KCache(j)]
                    &&& t[Buf::VCache(j)] == s[Buf::VCache(j)]
                }
        }),
    decreases n,
{
    if n > 0 {
        law_passes_stack_the_layers(g, c, ple, s, n - 1);
        let u = passed(s, g, c, ple, n - 1);
        let i = n - 1;
        lemma_forward(g, c, ple, g.cfg.text.n_layers as int, i);
        lemma_shape(g, i, c);
        law_layers_compute_their_blocks(g, i, c, ple, u);
        let j = i as usize;
        let src = g.layers@[i].kv_src;
        assert(u[Buf::KCache(j)] == s[Buf::KCache(j)]);
        assert(u[Buf::VCache(j)] == s[Buf::VCache(j)]);
        if src < i {
            assert(u[Buf::KCache(src)] == layer_result(s, g, c, ple, src as int).keys);
            assert(u[Buf::VCache(src)] == layer_result(s, g, c, ple, src as int).values);
        }
    }
}

/// What is read back after the head is of the logits of the row that was asked
/// for: its final norm times the embeddings, capped where they are picked from.
#[verifier::spinoff_prover]
#[verifier::rlimit(40)]
pub proof fn law_heads_pick_from_the_logits(
    t: G4TextCfg,
    packed: Option<DType>,
    layer: int,
    row: usize,
    pick: feed::Pick,
    s: State,
)
    ensures
        ({
            let y = run(
                s,
                layer,
                whole(),
                feed::head_ops(t, packed, row as int) + feed::pick_ops(t, pick),
            );
            let n = t.vocab as int;
            let l = product(
                layer,
                Weight::Embed,
                Term::Normed {
                    of: Box::new(s[Buf::X]),
                    row0: row as int,
                    by: Some(of(layer, Weight::FinalNorm)),
                    rows: 1,
                    width: t.hidden as int,
                },
                1,
                n,
                t.hidden as int,
            );
            match pick {
                feed::Pick::Logits => y[Buf::LogitsF] == Term::Single { of: Box::new(l), n },
                feed::Pick::Greedy => y[Buf::ArgmaxSlot] == Term::Greatest {
                    of: Box::new(l),
                    n,
                    cap: t.softcap,
                },
                feed::Pick::Sample { penalty } => y[Buf::Cand] == Term::Ranked {
                    of: Box::new(
                        if Format::F32.equal(penalty as int, ONE as int) {
                            l
                        } else {
                            Term::Penalized {
                                of: Box::new(l),
                                counts: Box::new(s[Buf::HistCounts]),
                                n,
                                factor: penalty,
                            }
                        },
                    ),
                    n,
                    cap: t.softcap,
                    k: 64,
                },
            }
        }),
{
    let w = whole();
    let a = feed::head_ops(t, packed, row as int);
    let b = feed::pick_ops(t, pick);
    assert(a =~= seq![a[0], a[1]]);
    meaning::lemma_two(s, layer, w, a[0], a[1]);
    meaning::lemma_run_on(s, layer, w, a, b);
    let u = run(s, layer, w, a);
    if b.len() == 1 {
        assert(b =~= seq![b[0]]);
        meaning::lemma_one(u, layer, w, b[0]);
    } else {
        assert(b =~= seq![b[0], b[1]]);
        meaning::lemma_two(u, layer, w, b[0], b[1]);
    }
}

/// Tokens become the rows of the embedding table that they number, scaled by
/// the root of the hidden width; the per-layer inputs are the normed projection
/// of the residual stream, layer by layer, plus the token identities, scaled
/// down together; an embedding is the mean of the normed rows.
#[verifier::spinoff_prover]
#[verifier::rlimit(60)]
pub proof fn law_tokens_are_looked_up_and_mixed(
    t: G4TextCfg,
    packed: Option<DType>,
    layer: int,
    rows: int,
    s: State,
)
    requires
        plan::sized(t),
        0 <= rows <= 512,
    ensures
        ({
            let w = whole();
            let hid = t.hidden as int;
            let slab = t.n_layers * t.ple_dim;
            let root = Format::F32.root(Format::F32.of_int(hid));
            let x = run(s, layer, w, feed::embed_ops(t, packed, rows));
            let y = run(s, layer, w, feed::context_ops(t, rows));
            let z = run(s, layer, w, feed::pool_ops(t, rows));
            let looked = Term::Looked {
                table: of(layer, Weight::Embed),
                row0: 0,
                ids: Box::new(s[Buf::Ids]),
                rows,
                width: hid,
            };
            let projected = Term::Scaled {
                of: Box::new(product(layer, Weight::PleModelProj, s[Buf::X], rows, slab, hid)),
                factor: Format::F32.quotient(ONE as int, root) as u32,
                n: rows * slab,
            };
            let mixed = plus(
                normed(
                    layer,
                    Some(Weight::PleModelNorm),
                    projected,
                    rows * t.n_layers,
                    t.ple_dim as int,
                ),
                s[Buf::PleId],
                rows * slab,
            );
            &&& x[Buf::X] == Term::Scaled { of: Box::new(looked), factor: root as u32, n: rows * hid }
            &&& t.ple_dim > 0 ==> y[Buf::Ple] == Term::Scaled {
                of: Box::new(mixed),
                factor: feed::FRAC_1_SQRT_2,
                n: rows * slab,
            }
            &&& y[Buf::X] == s[Buf::X]
            &&& z[Buf::LogitsF] == Term::Mean {
                of: Box::new(normed(layer, Some(Weight::FinalNorm), s[Buf::X], rows, hid)),
                rows,
                width: hid,
            }
        }),
{
    let w = whole();
    let (hid, slab) = (t.hidden as int, t.n_layers * t.ple_dim);
    assert(0 <= rows * hid <= 512 * hid && 0 <= slab && 0 <= rows * slab <= 512 * slab && 0 <= rows
        * t.n_layers) by (nonlinear_arith)
        requires
            0 <= rows <= 512,
            hid >= 0,
            slab == t.n_layers * t.ple_dim,
            t.n_layers >= 0,
            t.ple_dim >= 0,
    ;
    let a = feed::embed_ops(t, packed, rows);
    assert(a =~= seq![a[0], a[1]]);
    meaning::lemma_two(s, layer, w, a[0], a[1]);
    let b = feed::context_ops(t, rows);
    if t.ple_dim > 0 {
        assert(rows * t.n_layers <= rows * slab) by (nonlinear_arith)
            requires
                rows >= 0,
                slab == t.n_layers * t.ple_dim,
                t.n_layers >= 0,
                t.ple_dim >= 1,
        ;
        assert(b =~= seq![b[0], b[1], b[2], b[3], b[4]]);
        meaning::lemma_five(s, layer, w, b[0], b[1], b[2], b[3], b[4]);
    } else {
        assert(b =~= Seq::<Op>::empty());
    }
    let d = feed::pool_ops(t, rows);
    assert(d =~= seq![d[0], d[1]]);
    meaning::lemma_two(s, layer, w, d[0], d[1]);
}

/// A recorded step goes from the uploaded token to the pick: the token's row of
/// the embedding table, scaled, through all layers with the per-layer inputs
/// made from it, at the position of the counter; then the head on that row. The
/// counter moves on by one.
#[verifier::spinoff_prover]
#[verifier::rlimit(60)]
pub proof fn law_recorded_steps_go_from_token_to_pick(g: Gemma4, ple: bool, s: State)
    requires
        schedule::runnable(g),
        g.cfg.text.max_seq >= 1,
    ensures
        ({
            let t = g.cfg.text;
            let w = whole();
            let hid = t.hidden as int;
            let c = Pass { rows: 1, pos0: 0, blocks: false, counter: true };
            let s1 = run(s, 0, w, feed::embed_ops(t, g.embed_gguf, 1) + feed::context_ops(t, 1));
            let s2 = passed(s1, g, c, ple, t.n_layers as int);
            let s3 = run(
                s2,
                0,
                w,
                feed::head_ops(t, g.embed_gguf, 0) + feed::pick_ops(t, feed::Pick::Greedy) + seq![
                    Op::PosBump,
                ],
            );
            let looked = Term::Looked {
                table: of(0, Weight::Embed),
                row0: 0,
                ids: Box::new(s[Buf::Ids]),
                rows: 1,
                width: hid,
            };
            &&& s1[Buf::X] == Term::Scaled {
                of: Box::new(looked),
                factor: Format::F32.root(Format::F32.of_int(hid)) as u32,
                n: 1 * hid,
            }
            &&& t.n_layers > 0 ==> s2[Buf::X] == layer_result(s1, g, c, ple, t.n_layers - 1).x
            &&& s3[Buf::ArgmaxSlot] == Term::Greatest {
                of: Box::new(
                    product(
                        0,
                        Weight::Embed,
                        normed(0, Some(Weight::FinalNorm), s2[Buf::X], 1, hid),
                        1,
                        t.vocab as int,
                        hid,
                    ),
                ),
                n: t.vocab as int,
                cap: t.softcap,
            }
            &&& s3[Buf::PosDev] == Term::Next { of: Box::new(s2[Buf::PosDev]) }
        }),
{
    let t = g.cfg.text;
    let w = whole();
    let c = Pass { rows: 1, pos0: 0, blocks: false, counter: true };
    let (a, b) = (feed::embed_ops(t, g.embed_gguf, 1), feed::context_ops(t, 1));
    law_tokens_are_looked_up_and_mixed(t, g.embed_gguf, 0, 1, s);
    meaning::lemma_run_on(s, 0, w, a, b);
    let s0 = run(s, 0, w, a);
    law_tokens_are_looked_up_and_mixed(t, g.embed_gguf, 0, 1, s0);
    let s1 = run(s, 0, w, a + b);
    law_passes_stack_the_layers(g, c, ple, s1, t.n_layers as int);
    let s2 = passed(s1, g, c, ple, t.n_layers as int);
    let d = feed::head_ops(t, g.embed_gguf, 0);
    let e = feed::pick_ops(t, feed::Pick::Greedy);
    assert(d =~= seq![d[0], d[1]]);
    assert(e =~= seq![e[0]]);
    meaning::lemma_two(s2, 0, w, d[0], d[1]);
    meaning::lemma_run_on(s2, 0, w, d, e);
    meaning::lemma_one(run(s2, 0, w, d), 0, w, e[0]);
    meaning::lemma_run_on(s2, 0, w, d + e, seq![Op::PosBump]);
    meaning::lemma_one(run(s2, 0, w, d + e), 0, w, Op::PosBump);
}

} // verus!
