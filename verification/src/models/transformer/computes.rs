//! What a forward pass through the dense decoder computes.
use vstd::prelude::*;

use crate::ieee::Format;
use crate::models::gemma4::feed;
use crate::models::meaning;
use crate::models::meaning::{
    biased, cached, gated, normed, of, plus, product, run, start, Act, At, State, Term, Widths,
};
use crate::models::ops::{Buf, Op, Weight};
use crate::models::transformer::config::ModelConfig;
use crate::models::transformer::forecast;
use crate::models::transformer::graph::Transformer;
use crate::models::transformer::schedule;
use crate::models::transformer::schedule::{LayerKind, Pass};
use crate::models::ONE;

verus! {

/// A projection of `rows` rows of the hidden width, with its bias where there
/// is one.
pub open spec fn projected(
    layer: int,
    weight: Weight,
    bias: Weight,
    has_bias: bool,
    h: Term,
    rows: int,
    n: int,
    k: int,
) -> Term {
    let y = product(layer, weight, h, rows, n, k);
    if has_bias {
        biased(layer, Some(bias), y, rows, n)
    } else {
        y
    }
}

/// The rows of a pass, rotated to their positions.
pub open spec fn rotated(c: ModelConfig, p: Pass, x: Term, heads: int) -> Term {
    Term::Rotated {
        of: Box::new(x),
        rows: p.rows as int,
        heads,
        dim: c.head_dim as int,
        at: start(p.pos0, p.counter),
        theta: c.rope_theta,
        nfreqs: c.head_dim as int / 2,
        factors: false,
    }
}

/// Where attention has the first row. Several rows stand at given positions.
pub open spec fn looking_from(p: Pass) -> At {
    if p.rows == 1 {
        start(p.pos0, p.counter)
    } else {
        At::Pos(p.pos0 as int)
    }
}

/// What dot products are scaled by: one over the root of the head width.
pub open spec fn scale(c: ModelConfig) -> u32 {
    Format::F32.quotient(ONE as int, feed::root_of(c.head_dim as int)) as u32
}

/// What a layer makes of the residual stream and of its caches.
pub struct Layered {
    pub x: Term,
    pub keys: Term,
    pub values: Term,
}

/// A layer of a dense decoder:
///
/// ```text
/// h = norm(x)
/// x += Wo attn(rope(Wq h), keys + rope(Wk h), values + Wv h)
/// h = norm(x)
/// x += Wdown (silu(Wgate h) * Wup h)
/// ```
pub open spec fn layered(c: ModelConfig, has_bias: bool, i: int, p: Pass, x: Term, keys: Term, values: Term) -> Layered {
    let (r, hid, f) = (p.rows as int, c.hidden_size as int, c.intermediate_size as int);
    let (q, kv) = (c.n_heads * c.head_dim, c.n_kv_heads * c.head_dim);
    let (kvh, d, cap) = (c.n_kv_heads as int, c.head_dim as int, c.max_seq as int);
    let at = start(p.pos0, p.counter);
    let h = normed(i, Some(Weight::InputNorm), x, r, hid);
    let query = rotated(c, p, projected(i, Weight::Wq, Weight::BiasQ, has_bias, h, r, q, hid), c.n_heads as int);
    let key = rotated(c, p, projected(i, Weight::Wk, Weight::BiasK, has_bias, h, r, kv, hid), kvh);
    let value = projected(i, Weight::Wv, Weight::BiasV, has_bias, h, r, kv, hid);
    let ks = cached(keys, key, r, kvh, d, at, cap);
    let vs = cached(values, value, r, kvh, d, at, cap);
    let att = Term::Attended {
        q: Box::new(query),
        keys: Box::new(ks),
        values: Box::new(vs),
        scale: scale(c),
        rows: r,
        heads: c.n_heads as int,
        kv_heads: kvh,
        dim: d,
        at: looking_from(p),
        cap,
        causal: true,
        window: 0,
        blocks: None,
    };
    let y = plus(x, product(i, Weight::Wo, att, r, hid, q), r * hid);
    let g = normed(i, Some(Weight::PreFfwNorm), y, r, hid);
    let m = gated(
        product(i, Weight::WGate, g, r, f, hid),
        product(i, Weight::WUp, g, r, f, hid),
        Act::Silu,
        r * f,
    );
    Layered { x: plus(y, product(i, Weight::WDown, m, r, hid, f), r * hid), keys: ks, values: vs }
}

/// How a row of queries, keys and values is divided.
pub open spec fn widths(c: ModelConfig) -> Widths {
    Widths { q: c.n_heads * c.head_dim, kv: c.n_kv_heads * c.head_dim }
}

/// The caches of all layers are as they were.
pub open spec fn caches_kept(s: State, t: State) -> bool {
    forall|j: usize| #![trigger t[Buf::KCache(j)]] #![trigger t[Buf::VCache(j)]]
        t[Buf::KCache(j)] == s[Buf::KCache(j)] && t[Buf::VCache(j)] == s[Buf::VCache(j)]
}

/// The caches of the other layers are as they were.
pub open spec fn other_caches_kept(s: State, t: State, i: int) -> bool {
    forall|j: usize| #![trigger t[Buf::KCache(j)]] #![trigger t[Buf::VCache(j)]]
        j != i ==> t[Buf::KCache(j)] == s[Buf::KCache(j)] && t[Buf::VCache(j)] == s[Buf::VCache(j)]
}

proof fn lemma_sizes(c: ModelConfig, p: Pass)
    requires
        forecast::sized(c),
        schedule::admissible(c, p),
    ensures
        schedule::qd(c) as int == c.n_heads * c.head_dim,
        schedule::kvd(c) as int == c.n_kv_heads * c.head_dim,
        (schedule::qd(c) + 2 * schedule::kvd(c)) as usize as int == c.n_heads * c.head_dim + 2 * (
        c.n_kv_heads * c.head_dim),
        (p.rows * c.hidden_size) as usize as int == p.rows * c.hidden_size,
        (p.rows * c.intermediate_size) as usize as int == p.rows * c.intermediate_size,
        p.rows == 1 ==> p.rows * c.hidden_size == c.hidden_size && p.rows * c.intermediate_size
            == c.intermediate_size,
{
    forecast::lemma_widths(c);
    let (r, h, f) = (p.rows as int, c.hidden_size as int, c.intermediate_size as int);
    assert(0 <= r * h <= 512 * h && 0 <= r * f <= 512 * f) by (nonlinear_arith)
        requires
            0 <= r <= 512,
            h >= 0,
            f >= 0,
    ;
}

#[verifier::spinoff_prover]
#[verifier::rlimit(40)]
proof fn lemma_qkv(c: ModelConfig, l: LayerKind, i: int, p: Pass, s: State)
    requires
        forecast::sized(c),
        schedule::admissible(c, p),
    ensures
        ({
            let t = run(s, i, widths(c), schedule::qkv_ops(c, l, p));
            let (r, hid) = (p.rows as int, c.hidden_size as int);
            let (q, kv) = (c.n_heads * c.head_dim, c.n_kv_heads * c.head_dim);
            let h = s[Buf::H];
            &&& t[schedule::q_buf(p)] == projected(i, Weight::Wq, Weight::BiasQ, l.biased, h, r, q, hid)
            &&& t[schedule::k_buf(p)] == projected(i, Weight::Wk, Weight::BiasK, l.biased, h, r, kv, hid)
            &&& t[schedule::v_buf(p)] == projected(i, Weight::Wv, Weight::BiasV, l.biased, h, r, kv, hid)
            &&& t[Buf::X] == s[Buf::X]
            &&& caches_kept(s, t)
        }),
{
    lemma_sizes(c, p);
    let w = widths(c);
    let v = schedule::qkv_ops(c, l, p);
    if p.rows == 1 {
        if l.split {
            meaning::lemma_three(s, i, w, v[0], v[1], v[2]);
            assert(v =~= seq![v[0], v[1], v[2]]);
        } else {
            meaning::lemma_one(s, i, w, v[0]);
            assert(v =~= seq![v[0]]);
        }
    } else {
        let a = seq![v[0], v[1], v[2]];
        meaning::lemma_three(s, i, w, v[0], v[1], v[2]);
        if l.biased {
            let b = seq![v[3], v[4], v[5]];
            assert(v =~= a + b);
            meaning::lemma_run_on(s, i, w, a, b);
            meaning::lemma_three(run(s, i, w, a), i, w, v[3], v[4], v[5]);
        } else {
            assert(v =~= a);
        }
    }
}

#[verifier::spinoff_prover]
#[verifier::rlimit(40)]
proof fn lemma_caching(c: ModelConfig, i: int, p: Pass, s: State)
    requires
        0 <= i <= usize::MAX,
    ensures
        ({
            let t = run(s, i, widths(c), schedule::cache_ops(c, i, p));
            let at = start(p.pos0, p.counter);
            let (kvh, d, cap) = (c.n_kv_heads as int, c.head_dim as int, c.max_seq as int);
            let (kc, vc) = (Buf::KCache(i as usize), Buf::VCache(i as usize));
            &&& t[schedule::q_buf(p)] == rotated(c, p, s[schedule::q_buf(p)], c.n_heads as int)
            &&& t[kc] == cached(
                s[kc],
                rotated(c, p, s[schedule::k_buf(p)], kvh),
                p.rows as int,
                kvh,
                d,
                at,
                cap,
            )
            &&& t[vc] == cached(s[vc], s[schedule::v_buf(p)], p.rows as int, kvh, d, at, cap)
            &&& t[Buf::X] == s[Buf::X]
            &&& other_caches_kept(s, t, i)
        }),
{
    let v = schedule::cache_ops(c, i, p);
    assert(v =~= seq![v[0], v[1], v[2]]);
    meaning::lemma_three(s, i, widths(c), v[0], v[1], v[2]);
}

#[verifier::spinoff_prover]
#[verifier::rlimit(40)]
proof fn lemma_attention(c: ModelConfig, i: int, p: Pass, csz: int, s: State)
    requires
        schedule::admissible(c, p),
        0 <= i <= usize::MAX,
    ensures
        ({
            let t = run(s, i, widths(c), schedule::attn_ops(c, i, p, csz));
            &&& t[Buf::Att] == Term::Attended {
                q: Box::new(s[schedule::q_buf(p)]),
                keys: Box::new(s[Buf::KCache(i as usize)]),
                values: Box::new(s[Buf::VCache(i as usize)]),
                scale: scale(c),
                rows: p.rows as int,
                heads: c.n_heads as int,
                kv_heads: c.n_kv_heads as int,
                dim: c.head_dim as int,
                at: looking_from(p),
                cap: c.max_seq as int,
                causal: true,
                window: 0,
                blocks: None,
            }
            &&& t[Buf::X] == s[Buf::X]
            &&& caches_kept(s, t)
        }),
{
    let w = widths(c);
    let v = schedule::attn_ops(c, i, p, csz);
    if p.rows == 1 && c.head_dim % 32 == 0 && c.head_dim <= 128 {
        assert(v =~= seq![v[0], v[1]]);
        meaning::lemma_two(s, i, w, v[0], v[1]);
    } else {
        assert(v =~= seq![v[0]]);
        meaning::lemma_one(s, i, w, v[0]);
    }
}

#[verifier::spinoff_prover]
#[verifier::rlimit(40)]
proof fn lemma_out(c: ModelConfig, i: int, p: Pass, s: State)
    requires
        forecast::sized(c),
        schedule::admissible(c, p),
    ensures
        ({
            let t = run(s, i, widths(c), schedule::out_ops(c, p));
            let (r, hid) = (p.rows as int, c.hidden_size as int);
            &&& t[Buf::X] == plus(
                s[Buf::X],
                product(i, Weight::Wo, s[Buf::Att], r, hid, c.n_heads * c.head_dim),
                r * hid,
            )
            &&& caches_kept(s, t)
        }),
{
    lemma_sizes(c, p);
    let w = widths(c);
    let v = schedule::out_ops(c, p);
    if p.rows == 1 {
        assert(v =~= seq![v[0]]);
        meaning::lemma_one(s, i, w, v[0]);
    } else {
        assert(v =~= seq![v[0], v[1]]);
        meaning::lemma_two(s, i, w, v[0], v[1]);
    }
}

#[verifier::spinoff_prover]
#[verifier::rlimit(40)]
proof fn lemma_mlp(c: ModelConfig, l: LayerKind, i: int, p: Pass, s: State)
    requires
        forecast::sized(c),
        schedule::admissible(c, p),
    ensures
        ({
            let t = run(s, i, widths(c), schedule::mlp_ops(c, l, p));
            let (r, hid, f) = (p.rows as int, c.hidden_size as int, c.intermediate_size as int);
            let g = normed(i, Some(Weight::PreFfwNorm), s[Buf::X], r, hid);
            let m = gated(
                product(i, Weight::WGate, g, r, f, hid),
                product(i, Weight::WUp, g, r, f, hid),
                Act::Silu,
                r * f,
            );
            &&& t[Buf::X] == plus(s[Buf::X], product(i, Weight::WDown, m, r, hid, f), r * hid)
            &&& caches_kept(s, t)
        }),
{
    lemma_sizes(c, p);
    let w = widths(c);
    let v = schedule::mlp_ops(c, l, p);
    if p.rows == 1 {
        if l.split {
            assert(v =~= seq![v[0], v[1], v[2], v[3], v[4]]);
            meaning::lemma_five(s, i, w, v[0], v[1], v[2], v[3], v[4]);
        } else {
            assert(v =~= seq![v[0], v[1], v[2]]);
            meaning::lemma_three(s, i, w, v[0], v[1], v[2]);
        }
    } else {
        let a = seq![v[0], v[1], v[2], v[3]];
        let b = seq![v[4], v[5]];
        assert(v =~= a + b);
        meaning::lemma_run_on(s, i, w, a, b);
        meaning::lemma_four(s, i, w, v[0], v[1], v[2], v[3]);
        meaning::lemma_two(run(s, i, w, a), i, w, v[4], v[5]);
    }
}

/// A layer computes what a layer of a dense decoder is, for one row as for
/// several, and however its projections are stored: queries and keys are
/// rotated to their positions, values are not; the keys and values of the pass
/// join the caches of the layer before its queries attend to them; both blocks
/// add to the residual stream. The caches of the other layers stay.
#[verifier::spinoff_prover]
#[verifier::rlimit(40)]
pub proof fn law_layers_compute_attention_and_mlp(g: Transformer, i: int, p: Pass, s: State)
    requires
        schedule::runnable(g),
        schedule::admissible(g.cfg, p),
        0 <= i < g.cfg.n_layers,
    ensures
        ({
            let c = g.cfg;
            let ops = schedule::layer_ops(c, schedule::kind(g, i), i, p, g.csz as int);
            let t = run(s, i, widths(c), ops);
            let (kc, vc) = (Buf::KCache(i as usize), Buf::VCache(i as usize));
            let y = layered(c, g.layers@[i].biased, i, p, s[Buf::X], s[kc], s[vc]);
            &&& t[Buf::X] == y.x
            &&& t[kc] == y.keys
            &&& t[vc] == y.values
            &&& other_caches_kept(s, t, i)
        }),
{
    let c = g.cfg;
    let l = schedule::kind(g, i);
    let w = widths(c);
    let csz = g.csz as int;
    let z = seq![schedule::norm_op(Weight::InputNorm, p, c)];
    let (a, b, d, e, f) = (
        schedule::qkv_ops(c, l, p),
        schedule::cache_ops(c, i, p),
        schedule::attn_ops(c, i, p, csz),
        schedule::out_ops(c, p),
        schedule::mlp_ops(c, l, p),
    );
    let s0 = run(s, i, w, z);
    meaning::lemma_one(s, i, w, z[0]);
    let s1 = run(s0, i, w, a);
    lemma_qkv(c, l, i, p, s0);
    meaning::lemma_run_on(s, i, w, z, a);
    let s2 = run(s1, i, w, b);
    lemma_caching(c, i, p, s1);
    meaning::lemma_run_on(s, i, w, z + a, b);
    let s3 = run(s2, i, w, d);
    lemma_attention(c, i, p, csz, s2);
    meaning::lemma_run_on(s, i, w, z + a + b, d);
    let s4 = run(s3, i, w, e);
    lemma_out(c, i, p, s3);
    meaning::lemma_run_on(s, i, w, z + a + b + d, e);
    let s5 = run(s4, i, w, f);
    lemma_mlp(c, l, i, p, s4);
    meaning::lemma_run_on(s, i, w, z + a + b + d + e, f);
    assert(s0[Buf::X] == s[Buf::X]);
    assert(caches_kept(s, s0));
}

/// The contents after the first `n` layers of a pass.
pub open spec fn passed(s: State, g: Transformer, p: Pass, n: int) -> State
    decreases n,
{
    if n <= 0 {
        s
    } else {
        run(
            passed(s, g, p, n - 1),
            n - 1,
            widths(g.cfg),
            schedule::forward_ops(g, p, g.cfg.n_layers as int)[n - 1],
        )
    }
}

/// What the first `n` layers make of the residual stream.
pub open spec fn stacked(s: State, g: Transformer, p: Pass, n: int) -> Term
    decreases n,
{
    if n <= 0 {
        s[Buf::X]
    } else {
        layer_result(s, g, p, n - 1).x
    }
}

/// What layer `i` makes of what the layers before it left, and of its own
/// caches.
pub open spec fn layer_result(s: State, g: Transformer, p: Pass, i: int) -> Layered
    decreases i,
{
    let x = if i <= 0 {
        s[Buf::X]
    } else {
        layer_result(s, g, p, i - 1).x
    };
    layered(
        g.cfg,
        g.layers@[i].biased,
        i,
        p,
        x,
        s[Buf::KCache(i as usize)],
        s[Buf::VCache(i as usize)],
    )
}

/// A pass stacks the layers: each reads the residual stream that the one
/// before it left, and each cache is that of its own layer.
pub proof fn law_passes_stack_the_layers(g: Transformer, p: Pass, s: State, n: int)
    requires
        schedule::runnable(g),
        schedule::admissible(g.cfg, p),
        0 <= n <= g.cfg.n_layers,
    ensures
        ({
            let t = passed(s, g, p, n);
            &&& t[Buf::X] == stacked(s, g, p, n)
            &&& forall|j: usize| #![trigger t[Buf::KCache(j)]] #![trigger t[Buf::VCache(j)]]
                if j < n {
                    &&& t[Buf::KCache(j)] == layer_result(s, g, p, j as int).keys
                    &&& t[Buf::VCache(j)] == layer_result(s, g, p, j as int).values
                } else {
                    &&& t[Buf::KCache(j)] == s[Buf::KCache(j)]
                    &&& t[Buf::VCache(j)] == s[Buf::VCache(j)]
                }
        }),
    decreases n,
{
    if n > 0 {
        law_passes_stack_the_layers(g, p, s, n - 1);
        let u = passed(s, g, p, n - 1);
        law_layers_compute_attention_and_mlp(g, n - 1, p, u);
        let j = (n - 1) as usize;
        assert(u[Buf::KCache(j)] == s[Buf::KCache(j)]);
        assert(u[Buf::VCache(j)] == s[Buf::VCache(j)]);
        assert(u[Buf::X] == stacked(s, g, p, n - 1));
    }
}

/// The logits of one row: its final norm times the head, or times the
/// embeddings where they are tied.
pub open spec fn logits(g: Transformer, layer: int, x: Term, row: int) -> Term {
    let c = g.cfg;
    product(
        layer,
        if g.tied {
            Weight::Embed
        } else {
            Weight::Head
        },
        Term::Normed {
            of: Box::new(x),
            row0: row,
            by: Some(of(layer, Weight::FinalNorm)),
            rows: 1,
            width: c.hidden_size as int,
        },
        1,
        c.vocab_size as int,
        c.hidden_size as int,
    )
}

/// What is read back after the head is of the logits of the row that was asked
/// for: all of them, the greatest, or the 64 greatest once the penalty is
/// applied.
#[verifier::spinoff_prover]
#[verifier::rlimit(40)]
pub proof fn law_heads_pick_from_the_logits(
    g: Transformer,
    layer: int,
    row: usize,
    pick: feed::Pick,
    s: State,
)
    ensures
        ({
            let t = run(
                s,
                layer,
                widths(g.cfg),
                schedule::head_ops(g, row as int) + schedule::pick_ops(g.cfg, pick),
            );
            let l = logits(g, layer, s[Buf::X], row as int);
            let n = g.cfg.vocab_size as int;
            match pick {
                feed::Pick::Logits => t[Buf::LogitsF] == Term::Single { of: Box::new(l), n },
                feed::Pick::Greedy => t[Buf::ArgmaxSlot] == Term::Greatest {
                    of: Box::new(l),
                    n,
                    cap: 0,
                },
                feed::Pick::Sample { penalty } => t[Buf::Cand] == Term::Ranked {
                    of: Box::new(
                        if Format::F32.equal(penalty as int, ONE as int) {
                            l
                        } else {
                            Term::Penalized {
                                of: Box::new(l),
                                counts: Box::new(s[Buf::HistCounts]),
                                n,
                                factor: penalty,
                            }
                        },
                    ),
                    n,
                    cap: 0,
                    k: 64,
                },
            }
        }),
{
    let w = widths(g.cfg);
    let a = schedule::head_ops(g, row as int);
    let b = schedule::pick_ops(g.cfg, pick);
    assert(a =~= seq![a[0], a[1]]);
    meaning::lemma_two(s, layer, w, a[0], a[1]);
    meaning::lemma_run_on(s, layer, w, a, b);
    let u = run(s, layer, w, a);
    if b.len() == 1 {
        assert(b =~= seq![b[0]]);
        meaning::lemma_one(u, layer, w, b[0]);
    } else {
        assert(b =~= seq![b[0], b[1]]);
        meaning::lemma_two(u, layer, w, b[0], b[1]);
    }
}

/// Uploaded tokens become the rows of the embedding table that they number, and
/// an embedding is the mean of the normed rows.
#[verifier::spinoff_prover]
pub proof fn law_tokens_are_looked_up_and_pooled(g: Transformer, layer: int, rows: usize, s: State)
    ensures
        ({
            let t = meaning::step(s, layer, widths(g.cfg), schedule::gather_op(g, rows as int));
            let u = run(s, layer, widths(g.cfg), schedule::pool_ops(g.cfg, rows as int));
            let hid = g.cfg.hidden_size as int;
            &&& t[Buf::X] == Term::Looked {
                table: of(layer, Weight::Embed),
                row0: 0,
                ids: Box::new(s[Buf::Ids]),
                rows: rows as int,
                width: hid,
            }
            &&& u[Buf::LogitsF] == Term::Mean {
                of: Box::new(normed(layer, Some(Weight::FinalNorm), s[Buf::X], rows as int, hid)),
                rows: rows as int,
                width: hid,
            }
        }),
{
    let v = schedule::pool_ops(g.cfg, rows as int);
    assert(v =~= seq![v[0], v[1]]);
    meaning::lemma_two(s, layer, widths(g.cfg), v[0], v[1]);
}

/// A recorded greedy step feeds itself: the greatest logit of its only row
/// becomes the next token, and the counter moves on by one.
#[verifier::spinoff_prover]
#[verifier::rlimit(40)]
pub proof fn law_recorded_steps_feed_themselves(g: Transformer, layer: int, s: State)
    ensures
        ({
            let t = run(
                s,
                layer,
                widths(g.cfg),
                schedule::head_ops(g, 0) + schedule::pick_ops(g.cfg, feed::Pick::Greedy) + seq![
                    Op::TokenFromArgmax,
                ] + seq![Op::PosBump],
            );
            let pick = Term::Greatest {
                of: Box::new(logits(g, layer, s[Buf::X], 0)),
                n: g.cfg.vocab_size as int,
                cap: 0,
            };
            &&& t[Buf::Ids] == Term::Token { of: Box::new(pick) }
            &&& t[Buf::PosDev] == Term::Next { of: Box::new(s[Buf::PosDev]) }
        }),
{
    let w = widths(g.cfg);
    let a = schedule::head_ops(g, 0);
    let b = schedule::pick_ops(g.cfg, feed::Pick::Greedy);
    assert(a =~= seq![a[0], a[1]]);
    assert(b =~= seq![b[0]]);
    meaning::lemma_two(s, layer, w, a[0], a[1]);
    let u = run(s, layer, w, a);
    meaning::lemma_run_on(s, layer, w, a, b);
    meaning::lemma_one(u, layer, w, b[0]);
    let x = run(s, layer, w, a + b);
    meaning::lemma_run_on(s, layer, w, a + b, seq![Op::TokenFromArgmax]);
    meaning::lemma_one(x, layer, w, Op::TokenFromArgmax);
    let y = run(s, layer, w, a + b + seq![Op::TokenFromArgmax]);
    meaning::lemma_run_on(s, layer, w, a + b + seq![Op::TokenFromArgmax], seq![Op::PosBump]);
    meaning::lemma_one(y, layer, w, Op::PosBump);
}

} // verus!
