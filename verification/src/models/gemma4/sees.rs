//! What the vision tower computes.
use vstd::prelude::*;

use crate::models::gemma4::clipping;
use crate::models::gemma4::clipping::clipped;
use crate::models::gemma4::config::G4VisionCfg;
use crate::models::gemma4::tower;
use crate::models::gemma4::vision;
use crate::models::gemma4::vision::VisionClips;
use crate::models::meaning;
use crate::models::meaning::{
    cached, gated, normed, of, part, plus, product, run, Act, At, State, Term, Widths,
};
use crate::models::ops::{Buf, Op, Weight};
use crate::models::ONE;

verus! {

/// Heads, each normed, rotated by their columns and lines.
pub open spec fn placed(c: G4VisionCfg, n: int, x: Term, xs: Term, ys: Term) -> Term {
    Term::Placed {
        of: Box::new(x),
        xs: Box::new(xs),
        ys: Box::new(ys),
        rows: n,
        heads: c.n_heads as int,
        dim: c.head_dim as int,
        theta: c.theta,
    }
}

/// A layer: attention of all patches to all patches, and a feed-forward block,
/// each normed before it is added. Queries and keys are normed with a weight
/// and rotated, values without a weight and not rotated.
pub open spec fn seen(c: G4VisionCfg, l: VisionClips, i: int, n: int, x: Term, xs: Term, ys: Term) -> Term {
    let (h, f, nh, d) = (c.hidden as int, c.inter as int, c.n_heads as int, c.head_dim as int);
    let q = nh * d;
    let g = normed(i, Some(Weight::InputNorm), x, n, h);
    let query = placed(c, n, normed(i, Some(Weight::QNorm), clipped(i, l.q, Weight::Wq, g, n, h, q), n * nh, d), xs, ys);
    let key = placed(c, n, normed(i, Some(Weight::KNorm), clipped(i, l.k, Weight::Wk, g, n, h, q), n * nh, d), xs, ys);
    let value = normed(i, None, clipped(i, l.v, Weight::Wv, g, n, h, q), n * nh, d);
    let att = Term::Attended {
        q: Box::new(query),
        keys: Box::new(cached(Term::Lost, key, n, nh, d, At::Pos(0), n)),
        values: Box::new(cached(Term::Lost, value, n, nh, d, At::Pos(0), n)),
        scale: ONE,
        rows: n,
        heads: nh,
        kv_heads: nh,
        dim: d,
        at: At::Pos(0),
        cap: n,
        causal: false,
        window: 0,
        blocks: None,
    };
    let y = plus(x, normed(i, Some(Weight::PostAttnNorm), clipped(i, l.o, Weight::Wo, att, n, q, h), n, h), n * h);
    let e = normed(i, Some(Weight::PreFfwNorm), y, n, h);
    let m = gated(
        clipped(i, l.gate, Weight::WGate, e, n, h, f),
        clipped(i, l.up, Weight::WUp, e, n, h, f),
        Act::Gelu,
        n * f,
    );
    plus(y, normed(i, Some(Weight::PostFfwNorm), clipped(i, l.down, Weight::WDown, m, n, f, h), n, h), n * h)
}

/// The positions of the patches are as they were.
spec fn positions_kept(s: State, t: State) -> bool {
    t[Buf::PosX] == s[Buf::PosX] && t[Buf::PosY] == s[Buf::PosY]
}

proof fn lemma_sizes(c: G4VisionCfg, n: int)
    requires
        vision::sized(c, 0),
        0 <= n <= 2520,
    ensures
        n as usize as int == n,
        vision::qd(c) as usize as int == c.n_heads * c.head_dim,
        0 <= n * c.hidden <= usize::MAX,
        0 <= n * c.inter <= usize::MAX,
        0 <= n * vision::qd(c) <= usize::MAX,
        0 <= n * (vision::qd(c) as usize) <= usize::MAX,
        (n * c.hidden) as usize as int == n * c.hidden,
        (n * c.inter) as usize as int == n * c.inter,
        (n * c.n_heads) as usize as int == n * c.n_heads,
{
    vision::lemma_rows(c, n);
}

#[verifier::spinoff_prover]
#[verifier::rlimit(60)]
proof fn lemma_projections(c: G4VisionCfg, l: VisionClips, i: int, n: int, s: State, w: Widths)
    requires
        vision::sized(c, 0),
        0 <= n <= 2520,
    ensures
        ({
            let (h, q) = (c.hidden as int, c.n_heads * c.head_dim);
            let t = run(s, i, w, vision::qkv_ops(c, l, n));
            let g = normed(i, Some(Weight::InputNorm), s[Buf::X], n, h);
            &&& t[Buf::Q] == clipped(i, l.q, Weight::Wq, g, n, h, q)
            &&& t[Buf::K] == clipped(i, l.k, Weight::Wk, g, n, h, q)
            &&& t[Buf::V] == clipped(i, l.v, Weight::Wv, g, n, h, q)
            &&& t[Buf::X] == s[Buf::X]
            &&& positions_kept(s, t)
        }),
{
    lemma_sizes(c, n);
    let (h, q) = (c.hidden, vision::qd(c) as usize);
    let a = seq![vision::norm(Buf::X, Some(Weight::InputNorm), Buf::H, n, h)];
    let b = tower::clip_ops(l.q, Weight::Wq, Buf::H, Buf::Q, n, h, q);
    let d = tower::clip_ops(l.k, Weight::Wk, Buf::H, Buf::K, n, h, q);
    let e = tower::clip_ops(l.v, Weight::Wv, Buf::H, Buf::V, n, h, q);
    let s1 = run(s, i, w, a);
    meaning::lemma_one(s, i, w, a[0]);
    let s2 = run(s1, i, w, b);
    clipping::lemma_clip(s1, i, w, l.q, Weight::Wq, Buf::H, Buf::Q, n, h, q);
    meaning::lemma_run_on(s, i, w, a, b);
    let s3 = run(s2, i, w, d);
    clipping::lemma_clip(s2, i, w, l.k, Weight::Wk, Buf::H, Buf::K, n, h, q);
    meaning::lemma_run_on(s, i, w, a + b, d);
    clipping::lemma_clip(s3, i, w, l.v, Weight::Wv, Buf::H, Buf::V, n, h, q);
    meaning::lemma_run_on(s, i, w, a + b + d, e);
}

#[verifier::spinoff_prover]
#[verifier::rlimit(60)]
proof fn lemma_attention(c: G4VisionCfg, i: int, n: int, s: State, w: Widths)
    requires
        vision::sized(c, 0),
        0 <= n <= 2520,
    ensures
        ({
            let (nh, d) = (c.n_heads as int, c.head_dim as int);
            let t = run(s, i, w, vision::attn_ops(c, n));
            let (xs, ys) = (s[Buf::PosX], s[Buf::PosY]);
            let key = placed(c, n, normed(i, Some(Weight::KNorm), s[Buf::K], n * nh, d), xs, ys);
            let value = normed(i, None, s[Buf::V], n * nh, d);
            &&& t[Buf::Att] == Term::Attended {
                q: Box::new(
                    placed(c, n, normed(i, Some(Weight::QNorm), s[Buf::Q], n * nh, d), xs, ys),
                ),
                keys: Box::new(cached(Term::Lost, key, n, nh, d, At::Pos(0), n)),
                values: Box::new(cached(Term::Lost, value, n, nh, d, At::Pos(0), n)),
                scale: ONE,
                rows: n,
                heads: nh,
                kv_heads: nh,
                dim: d,
                at: At::Pos(0),
                cap: n,
                causal: false,
                window: 0,
                blocks: None,
            }
            &&& t[Buf::X] == s[Buf::X]
            &&& positions_kept(s, t)
        }),
{
    lemma_sizes(c, n);
    let v = vision::attn_ops(c, n);
    let a = seq![v[0], v[1], v[2]];
    let b = seq![v[3], v[4], v[5], v[6]];
    assert(v =~= a + b);
    meaning::lemma_run_on(s, i, w, a, b);
    meaning::lemma_three(s, i, w, v[0], v[1], v[2]);
    meaning::lemma_four(run(s, i, w, a), i, w, v[3], v[4], v[5], v[6]);
}

#[verifier::spinoff_prover]
#[verifier::rlimit(60)]
proof fn lemma_blocks(c: G4VisionCfg, l: VisionClips, i: int, n: int, s: State, w: Widths)
    requires
        vision::sized(c, 0),
        0 <= n <= 2520,
    ensures
        ({
            let (h, f, q) = (c.hidden as int, c.inter as int, c.n_heads * c.head_dim);
            let t = run(s, i, w, vision::out_ops(c, l, n) + vision::mlp_ops(c, l, n));
            let y = plus(
                s[Buf::X],
                normed(
                    i,
                    Some(Weight::PostAttnNorm),
                    clipped(i, l.o, Weight::Wo, s[Buf::Att], n, q, h),
                    n,
                    h,
                ),
                n * h,
            );
            let e = normed(i, Some(Weight::PreFfwNorm), y, n, h);
            let m = gated(
                clipped(i, l.gate, Weight::WGate, e, n, h, f),
                clipped(i, l.up, Weight::WUp, e, n, h, f),
                Act::Gelu,
                n * f,
            );
            &&& t[Buf::X] == plus(
                y,
                normed(
                    i,
                    Some(Weight::PostFfwNorm),
                    clipped(i, l.down, Weight::WDown, m, n, f, h),
                    n,
                    h,
                ),
                n * h,
            )
            &&& positions_kept(s, t)
        }),
{
    lemma_sizes(c, n);
    let (h, f, q) = (c.hidden, c.inter, vision::qd(c) as usize);
    let a = tower::clip_ops(l.o, Weight::Wo, Buf::Att, Buf::H2, n, q, h);
    let b = seq![
        vision::norm(Buf::H2, Some(Weight::PostAttnNorm), Buf::H2, n, h),
        Op::Add { dst: Buf::X, src: Buf::H2, n: (n * h) as usize },
    ];
    let s1 = run(s, i, w, a);
    clipping::lemma_clip(s, i, w, l.o, Weight::Wo, Buf::Att, Buf::H2, n, q, h);
    let s2 = run(s1, i, w, b);
    meaning::lemma_two(s1, i, w, b[0], b[1]);
    meaning::lemma_run_on(s, i, w, a, b);
    let d = seq![vision::norm(Buf::X, Some(Weight::PreFfwNorm), Buf::H, n, h)];
    let e = tower::clip_ops(l.gate, Weight::WGate, Buf::H, Buf::Gate, n, h, f);
    let g = tower::clip_ops(l.up, Weight::WUp, Buf::H, Buf::Up, n, h, f);
    let k = seq![Op::Geglu { n: (n * f) as usize }];
    let m = tower::clip_ops(l.down, Weight::WDown, Buf::Gate, Buf::H2, n, f, h);
    let o = seq![
        vision::norm(Buf::H2, Some(Weight::PostFfwNorm), Buf::H2, n, h),
        Op::Add { dst: Buf::X, src: Buf::H2, n: (n * h) as usize },
    ];
    let s3 = run(s2, i, w, d);
    meaning::lemma_one(s2, i, w, d[0]);
    let s4 = run(s3, i, w, e);
    clipping::lemma_clip(s3, i, w, l.gate, Weight::WGate, Buf::H, Buf::Gate, n, h, f);
    meaning::lemma_run_on(s2, i, w, d, e);
    let s5 = run(s4, i, w, g);
    clipping::lemma_clip(s4, i, w, l.up, Weight::WUp, Buf::H, Buf::Up, n, h, f);
    meaning::lemma_run_on(s2, i, w, d + e, g);
    let s6 = run(s5, i, w, k);
    meaning::lemma_one(s5, i, w, k[0]);
    meaning::lemma_run_on(s2, i, w, d + e + g, k);
    let s7 = run(s6, i, w, m);
    clipping::lemma_clip(s6, i, w, l.down, Weight::WDown, Buf::Gate, Buf::H2, n, f, h);
    meaning::lemma_run_on(s2, i, w, d + e + g + k, m);
    let s8 = run(s7, i, w, o);
    meaning::lemma_two(s7, i, w, o[0], o[1]);
    meaning::lemma_run_on(s2, i, w, d + e + g + k + m, o);
    meaning::lemma_run_on(s, i, w, a + b, d + e + g + k + m + o);
    assert(vision::mlp_ops(c, l, n) =~= d + e + g + k + m + o);
    assert(vision::out_ops(c, l, n) =~= a + b);
}

/// A layer of the vision tower computes attention of all patches to all
/// patches and a feed-forward block: queries, keys and values each come from
/// their own projection of the normed rows.
#[verifier::spinoff_prover]
#[verifier::rlimit(60)]
pub proof fn law_vision_layers_compute_their_blocks(
    c: G4VisionCfg,
    l: VisionClips,
    i: int,
    n: int,
    s: State,
    w: Widths,
)
    requires
        vision::sized(c, 0),
        0 <= n <= 2520,
    ensures
        ({
            let t = run(s, i, w, vision::layer_ops(c, l, n));
            &&& t[Buf::X] == seen(c, l, i, n, s[Buf::X], s[Buf::PosX], s[Buf::PosY])
            &&& t[Buf::PosX] == s[Buf::PosX]
            &&& t[Buf::PosY] == s[Buf::PosY]
        }),
{
    let (a, b, d, e) = (
        vision::qkv_ops(c, l, n),
        vision::attn_ops(c, n),
        vision::out_ops(c, l, n),
        vision::mlp_ops(c, l, n),
    );
    let s1 = run(s, i, w, a);
    lemma_projections(c, l, i, n, s, w);
    let s2 = run(s1, i, w, b);
    lemma_attention(c, i, n, s1, w);
    meaning::lemma_run_on(s, i, w, a, b);
    lemma_blocks(c, l, i, n, s2, w);
    meaning::lemma_run_on(s, i, w, a + b, d + e);
    assert(a + b + d + e =~= a + b + (d + e));
}

/// The contents after the first `k` layers.
pub open spec fn passed(s: State, c: G4VisionCfg, clips: Seq<VisionClips>, n: int, w: Widths, k: int) -> State
    decreases k,
{
    if k <= 0 {
        s
    } else {
        run(
            passed(s, c, clips, n, w, k - 1),
            k - 1,
            w,
            vision::encoder_ops(c, clips, n, c.n_layers as int)[k - 1],
        )
    }
}

/// What the first `k` layers make of the residual stream.
pub open spec fn stacked(c: G4VisionCfg, clips: Seq<VisionClips>, n: int, x: Term, xs: Term, ys: Term, k: int) -> Term
    decreases k,
{
    if k <= 0 {
        x
    } else {
        seen(c, clips[k - 1], k - 1, n, stacked(c, clips, n, x, xs, ys, k - 1), xs, ys)
    }
}

/// The layers of the vision tower are stacked: each reads what the one before
/// it left.
pub proof fn law_vision_layers_are_stacked(
    c: G4VisionCfg,
    clips: Seq<VisionClips>,
    n: int,
    s: State,
    w: Widths,
    k: int,
)
    requires
        vision::sized(c, 0),
        0 <= n <= 2520,
        0 <= k <= c.n_layers,
    ensures
        ({
            let t = passed(s, c, clips, n, w, k);
            &&& t[Buf::X] == stacked(c, clips, n, s[Buf::X], s[Buf::PosX], s[Buf::PosY], k)
            &&& t[Buf::PosX] == s[Buf::PosX]
            &&& t[Buf::PosY] == s[Buf::PosY]
        }),
    decreases k,
{
    if k > 0 {
        law_vision_layers_are_stacked(c, clips, n, s, w, k - 1);
        law_vision_layers_compute_their_blocks(
            c,
            clips[k - 1],
            k - 1,
            n,
            passed(s, c, clips, n, w, k - 1),
            w,
        );
    }
}

/// Patches become rows by the input projection, plus the learned position of
/// their column and that of their line, from the two halves of the table; the
/// pooled rows become rows of the text model by its projection.
#[verifier::spinoff_prover]
#[verifier::rlimit(60)]
pub proof fn law_patches_take_their_positions(
    c: G4VisionCfg,
    lm_hidden: usize,
    layer: int,
    n: int,
    tokens: usize,
    s: State,
    w: Widths,
)
    requires
        vision::sized(c, 0),
        0 <= n <= 2520,
        tokens * lm_hidden <= usize::MAX,
    ensures
        ({
            let h = c.hidden as int;
            let t = run(s, layer, w, vision::front_ops(c, n));
            let u = run(s, layer, w, vision::embed_ops(c, lm_hidden, tokens as int));
            let column = Term::Looked {
                table: of(layer, Weight::PosTable),
                row0: 0,
                ids: Box::new(s[Buf::GatherX]),
                rows: n,
                width: h,
            };
            let line = Term::Looked {
                table: of(layer, Weight::PosTable),
                row0: c.pos_table as int,
                ids: Box::new(s[Buf::GatherY]),
                rows: n,
                width: h,
            };
            &&& t[Buf::X] == plus(
                plus(product(layer, Weight::InputProj, s[Buf::H], n, h, 768), column, n * h),
                line,
                n * h,
            )
            &&& t[Buf::PosX] == s[Buf::PosX]
            &&& t[Buf::PosY] == s[Buf::PosY]
            &&& u[Buf::Encoded] == part(
                product(
                    layer,
                    Weight::EmbProj,
                    s[Buf::Pooled],
                    tokens as int,
                    lm_hidden as int,
                    h,
                ),
                0,
                tokens * lm_hidden,
            )
        }),
{
    lemma_sizes(c, n);
    vstd::arithmetic::mul::lemma_mul_nonnegative(tokens as int, lm_hidden as int);
    let a = vision::front_ops(c, n);
    assert(a =~= seq![a[0], a[1], a[2], a[3], a[4]]);
    meaning::lemma_five(s, layer, w, a[0], a[1], a[2], a[3], a[4]);
    let b = vision::embed_ops(c, lm_hidden, tokens as int);
    assert(b =~= seq![b[0], b[1]]);
    meaning::lemma_two(s, layer, w, b[0], b[1]);
}

} // verus!
