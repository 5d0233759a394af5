//! What the audio conformer computes.
use vstd::prelude::*;

use crate::models::gemma4::audio;
use crate::models::gemma4::audio::G4Audio;
use crate::models::gemma4::clipping;
use crate::models::gemma4::clipping::clipped;
use crate::models::gemma4::config::G4AudioCfg;
use crate::models::gemma4::conformer;
use crate::models::gemma4::conformer::AudioClips;
use crate::models::gemma4::tower;
use crate::models::gemma4::tower::Clips;
use crate::models::gemma4::vision;
use crate::models::meaning;
use crate::models::meaning::{biased, normed, of, plus, product, run, Act, State, Term, Widths};
use crate::models::ops::{Buf, Op, Weight};

verus! {

/// A feed-forward block: four times as wide inside, between two norms, added
/// with a weight.
pub open spec fn fed_forward(
    c: G4AudioCfg,
    i: int,
    n: int,
    pre: Weight,
    up: (Clips, Weight),
    down: (Clips, Weight),
    post: Weight,
    x: Term,
) -> Term {
    let h = c.hidden as int;
    let a = clipped(i, up.0, up.1, normed(i, Some(pre), x, n, h), n, h, 4 * h);
    let b = Term::Activated { of: Box::new(a), act: Act::Silu, n: n * (4 * h) };
    let y = normed(i, Some(post), clipped(i, down.0, down.1, b, n, 4 * h, h), n, h);
    plus(x, Term::Scaled { of: Box::new(y), factor: c.residual_w, n: n * h }, n * h)
}

/// Local attention: queries, keys and values are each their own projection of
/// the normed rows.
pub open spec fn listened(c: G4AudioCfg, l: AudioClips, i: int, n: int, k_scale: u32, x: Term, rel_pe: Term) -> Term {
    let h = c.hidden as int;
    let g = normed(i, Some(Weight::InputNorm), x, n, h);
    let q = Term::Weighed {
        of: Box::new(clipped(i, l.q, Weight::Wq, g, n, h, h)),
        by: of(i, Weight::QScale),
        rows: n,
        width: h,
    };
    let k = Term::Scaled {
        of: Box::new(clipped(i, l.k, Weight::Wk, g, n, h, h)),
        factor: k_scale,
        n: n * h,
    };
    let v = clipped(i, l.v, Weight::Wv, g, n, h, h);
    let a = Term::Heard {
        q: Box::new(q),
        k: Box::new(k),
        v: Box::new(v),
        rel: Box::new(product(i, Weight::RelKProj, rel_pe, c.past + 1, h, h)),
        rows: n,
        heads: c.n_heads as int,
        dim: h / c.n_heads as int,
        chunk: c.chunk as int,
        past: c.past as int,
        cap: c.logit_cap,
        invalid: c.invalid_logit,
    };
    plus(x, normed(i, Some(Weight::PostAttnNorm), clipped(i, l.post, Weight::Wo, a, n, h, h), n, h), n * h)
}

/// The light convolution: a gated linear unit, the convolution with its norm
/// and activation, and a linear, added.
pub open spec fn convolved(c: G4AudioCfg, l: AudioClips, i: int, n: int, x: Term) -> Term {
    let h = c.hidden as int;
    let g = normed(i, Some(Weight::ConvPre), x, n, h);
    let a = Term::Halved {
        of: Box::new(clipped(i, l.start, Weight::ConvStart, g, n, h, 2 * h)),
        rows: n,
        width: h,
    };
    let b = Term::Convolved {
        of: Box::new(a),
        by: of(i, Weight::ConvKernel),
        rows: n,
        width: h,
        taps: c.conv_k as int,
    };
    let d = Term::Activated {
        of: Box::new(normed(i, Some(Weight::ConvNorm), b, n, h)),
        act: Act::Silu,
        n: n * h,
    };
    plus(x, clipped(i, l.end, Weight::ConvEnd, d, n, h, h), n * h)
}

/// A layer: a feed-forward block, local attention, the light convolution, the
/// other feed-forward block, and a norm.
pub open spec fn heard(c: G4AudioCfg, l: AudioClips, i: int, n: int, k_scale: u32, x: Term, rel_pe: Term) -> Term {
    let a = fed_forward(
        c,
        i,
        n,
        Weight::Ff1Pre,
        (l.ff1_up, Weight::Ff1Up),
        (l.ff1_down, Weight::Ff1Down),
        Weight::Ff1Post,
        x,
    );
    let b = listened(c, l, i, n, k_scale, a, rel_pe);
    let d = convolved(c, l, i, n, b);
    let e = fed_forward(
        c,
        i,
        n,
        Weight::Ff2Pre,
        (l.ff2_up, Weight::Ff2Up),
        (l.ff2_down, Weight::Ff2Down),
        Weight::Ff2Post,
        d,
    );
    normed(i, Some(Weight::OutNorm), e, n, c.hidden as int)
}

/// The residual stream aside, what a block reads later is as it was.
spec fn positions_kept(s: State, t: State) -> bool {
    t[Buf::RelPe] == s[Buf::RelPe] && t[Buf::RelK] == s[Buf::RelK]
}

proof fn lemma_sizes(c: G4AudioCfg, n: int)
    requires
        audio::sized(c, 0),
        0 <= n <= 750,
    ensures
        n as usize as int == n,
        (c.hidden * 4) as usize as int == 4 * c.hidden,
        (c.hidden * 2) as usize as int == 2 * c.hidden,
        (n * c.hidden) as usize as int == n * c.hidden,
        0 <= n * c.hidden <= usize::MAX,
        0 <= n * (2 * c.hidden) <= usize::MAX,
        0 <= n * (4 * c.hidden) <= usize::MAX,
        (n * (4 * c.hidden)) as usize as int == n * (4 * c.hidden),
        n * ((c.hidden * 4) as usize) == n * (4 * c.hidden),
        n * ((c.hidden * 2) as usize) == n * (2 * c.hidden),
        (c.hidden as int / c.n_heads as int) as usize as int == c.hidden as int / c.n_heads as int,
        (c.past + 1) as usize as int == c.past + 1,
{
    conformer::lemma_rows(c, n);
    let h = c.hidden as int;
    assert(n * (2 * h) == 2 * (n * h) && n * (4 * h) == 4 * (n * h)) by (nonlinear_arith);
    vstd::arithmetic::div_mod::lemma_div_nonincreasing(h, c.n_heads as int);
    vstd::arithmetic::div_mod::lemma_div_pos_is_pos(h, c.n_heads as int);
}

#[verifier::spinoff_prover]
#[verifier::rlimit(40)]
proof fn lemma_feed_forward(
    c: G4AudioCfg,
    i: int,
    n: int,
    pre: Weight,
    up: (Clips, Weight),
    down: (Clips, Weight),
    post: Weight,
    s: State,
    w: Widths,
)
    requires
        audio::sized(c, 0),
        0 <= n <= 750,
    ensures
        ({
            let t = run(s, i, w, conformer::ff_ops(c, n, pre, up, down, post));
            &&& t[Buf::X] == fed_forward(c, i, n, pre, up, down, post, s[Buf::X])
            &&& positions_kept(s, t)
        }),
{
    lemma_sizes(c, n);
    let h = c.hidden;
    let h4 = (h * 4) as usize;
    let a = seq![vision::norm(Buf::X, Some(pre), Buf::H, n, h)];
    let b = tower::clip_ops(up.0, up.1, Buf::H, Buf::Wide, n, h, h4);
    let d = seq![Op::Silu { buf: Buf::Wide, n: (n * h4) as usize }];
    let e = tower::clip_ops(down.0, down.1, Buf::Wide, Buf::H2, n, h4, h);
    let f = seq![
        vision::norm(Buf::H2, Some(post), Buf::H2, n, h),
        Op::Scale { buf: Buf::H2, factor: c.residual_w, n: (n * h) as usize },
        Op::Add { dst: Buf::X, src: Buf::H2, n: (n * h) as usize },
    ];
    let s1 = run(s, i, w, a);
    meaning::lemma_one(s, i, w, a[0]);
    let s2 = run(s1, i, w, b);
    clipping::lemma_clip(s1, i, w, up.0, up.1, Buf::H, Buf::Wide, n, h, h4);
    meaning::lemma_run_on(s, i, w, a, b);
    let s3 = run(s2, i, w, d);
    meaning::lemma_one(s2, i, w, d[0]);
    meaning::lemma_run_on(s, i, w, a + b, d);
    let s4 = run(s3, i, w, e);
    clipping::lemma_clip(s3, i, w, down.0, down.1, Buf::Wide, Buf::H2, n, h4, h);
    let s5 = run(s4, i, w, f);
    meaning::lemma_three(s4, i, w, f[0], f[1], f[2]);
    meaning::lemma_run_on(s3, i, w, e, f);
    meaning::lemma_run_on(s, i, w, a + b + d, e + f);
}

#[verifier::spinoff_prover]
#[verifier::rlimit(60)]
proof fn lemma_listening(c: G4AudioCfg, l: AudioClips, i: int, n: int, k_scale: u32, s: State, w: Widths)
    requires
        audio::sized(c, 0),
        0 <= n <= 750,
    ensures
        ({
            let h = c.hidden as int;
            let t = run(s, i, w, conformer::qkv_ops(c, l, n) + conformer::attn_ops(c, l, n, k_scale));
            s[Buf::RelK] == product(i, Weight::RelKProj, s[Buf::RelPe], c.past + 1, h, h) ==> {
                &&& t[Buf::X] == listened(c, l, i, n, k_scale, s[Buf::X], s[Buf::RelPe])
                &&& positions_kept(s, t)
            }
        }),
{
    lemma_sizes(c, n);
    let h = c.hidden;
    let a = seq![vision::norm(Buf::X, Some(Weight::InputNorm), Buf::H, n, h)];
    let b = tower::clip_ops(l.q, Weight::Wq, Buf::H, Buf::Q, n, h, h);
    let d = tower::clip_ops(l.k, Weight::Wk, Buf::H, Buf::K, n, h, h);
    let e = tower::clip_ops(l.v, Weight::Wv, Buf::H, Buf::V, n, h, h);
    let s1 = run(s, i, w, a);
    meaning::lemma_one(s, i, w, a[0]);
    let s2 = run(s1, i, w, b);
    clipping::lemma_clip(s1, i, w, l.q, Weight::Wq, Buf::H, Buf::Q, n, h, h);
    meaning::lemma_run_on(s, i, w, a, b);
    let s3 = run(s2, i, w, d);
    clipping::lemma_clip(s2, i, w, l.k, Weight::Wk, Buf::H, Buf::K, n, h, h);
    meaning::lemma_run_on(s, i, w, a + b, d);
    let s4 = run(s3, i, w, e);
    clipping::lemma_clip(s3, i, w, l.v, Weight::Wv, Buf::H, Buf::V, n, h, h);
    meaning::lemma_run_on(s, i, w, a + b + d, e);
    let v = conformer::attn_ops(c, l, n, k_scale);
    let f = seq![v[0], v[1], v[2]];
    let g = tower::clip_ops(l.post, Weight::Wo, Buf::H2, Buf::H, n, h, h);
    let k = seq![
        vision::norm(Buf::H, Some(Weight::PostAttnNorm), Buf::H, n, h),
        Op::Add { dst: Buf::X, src: Buf::H, n: (n * h) as usize },
    ];
    assert(v =~= f + g + k);
    let s5 = run(s4, i, w, f);
    meaning::lemma_three(s4, i, w, v[0], v[1], v[2]);
    let s6 = run(s5, i, w, g);
    clipping::lemma_clip(s5, i, w, l.post, Weight::Wo, Buf::H2, Buf::H, n, h, h);
    meaning::lemma_run_on(s4, i, w, f, g);
    let s7 = run(s6, i, w, k);
    meaning::lemma_two(s6, i, w, k[0], k[1]);
    meaning::lemma_run_on(s4, i, w, f + g, k);
    meaning::lemma_run_on(s, i, w, a + b + d + e, v);
}

#[verifier::spinoff_prover]
#[verifier::rlimit(60)]
proof fn lemma_convolution(c: G4AudioCfg, l: AudioClips, i: int, n: int, s: State, w: Widths)
    requires
        audio::sized(c, 0),
        0 <= n <= 750,
    ensures
        ({
            let t = run(s, i, w, conformer::conv_ops(c, l, n));
            &&& t[Buf::X] == convolved(c, l, i, n, s[Buf::X])
            &&& positions_kept(s, t)
        }),
{
    lemma_sizes(c, n);
    let h = c.hidden;
    let h2 = (h * 2) as usize;
    let a = seq![vision::norm(Buf::X, Some(Weight::ConvPre), Buf::H, n, h)];
    let b = tower::clip_ops(l.start, Weight::ConvStart, Buf::H, Buf::Wide, n, h, h2);
    let d = conformer::conv_mid(c, n);
    let e = tower::clip_ops(l.end, Weight::ConvEnd, Buf::H2, Buf::H, n, h, h);
    let f = seq![Op::Add { dst: Buf::X, src: Buf::H, n: (n * h) as usize }];
    let s1 = run(s, i, w, a);
    meaning::lemma_one(s, i, w, a[0]);
    let s2 = run(s1, i, w, b);
    clipping::lemma_clip(s1, i, w, l.start, Weight::ConvStart, Buf::H, Buf::Wide, n, h, h2);
    meaning::lemma_run_on(s, i, w, a, b);
    let s3 = run(s2, i, w, d);
    assert(d =~= seq![d[0], d[1], d[2], d[3]]);
    meaning::lemma_four(s2, i, w, d[0], d[1], d[2], d[3]);
    meaning::lemma_run_on(s, i, w, a + b, d);
    let s4 = run(s3, i, w, e);
    clipping::lemma_clip(s3, i, w, l.end, Weight::ConvEnd, Buf::H2, Buf::H, n, h, h);
    meaning::lemma_run_on(s, i, w, a + b + d, e);
    let s5 = run(s4, i, w, f);
    meaning::lemma_one(s4, i, w, f[0]);
    meaning::lemma_run_on(s, i, w, a + b + d + e, f);
}

/// A conformer layer computes what a layer of the conformer is. Queries, keys
/// and values each come from their own projection of the normed rows; keys
/// alone take the key scale and queries alone the learned one.
#[verifier::spinoff_prover]
#[verifier::rlimit(60)]
pub proof fn law_conformer_layers_compute_their_blocks(
    c: G4AudioCfg,
    l: AudioClips,
    i: int,
    n: int,
    k_scale: u32,
    s: State,
    w: Widths,
)
    requires
        audio::sized(c, 0),
        0 <= n <= 750,
    ensures
        ({
            let t = run(s, i, w, conformer::layer_ops(c, l, n, k_scale));
            &&& t[Buf::X] == heard(c, l, i, n, k_scale, s[Buf::X], s[Buf::RelPe])
            &&& t[Buf::RelPe] == s[Buf::RelPe]
        }),
{
    lemma_sizes(c, n);
    let a = seq![conformer::rel_op(c)];
    let (b, d, e, f, k) = (
        conformer::ff1_ops(c, l, n),
        conformer::qkv_ops(c, l, n),
        conformer::attn_ops(c, l, n, k_scale),
        conformer::conv_ops(c, l, n),
        conformer::ff2_ops(c, l, n),
    );
    let z = seq![vision::norm(Buf::X, Some(Weight::OutNorm), Buf::X, n, c.hidden)];
    let s1 = run(s, i, w, a);
    meaning::lemma_one(s, i, w, a[0]);
    let s2 = run(s1, i, w, b);
    lemma_feed_forward(c, i, n, Weight::Ff1Pre, (l.ff1_up, Weight::Ff1Up), (l.ff1_down, Weight::Ff1Down), Weight::Ff1Post, s1, w);
    meaning::lemma_run_on(s, i, w, a, b);
    let s3 = run(s2, i, w, d + e);
    lemma_listening(c, l, i, n, k_scale, s2, w);
    meaning::lemma_run_on(s, i, w, a + b, d + e);
    assert(a + b + d + e =~= a + b + (d + e));
    let s4 = run(s3, i, w, f);
    lemma_convolution(c, l, i, n, s3, w);
    meaning::lemma_run_on(s, i, w, a + b + d + e, f);
    let s5 = run(s4, i, w, k);
    lemma_feed_forward(c, i, n, Weight::Ff2Pre, (l.ff2_up, Weight::Ff2Up), (l.ff2_down, Weight::Ff2Down), Weight::Ff2Post, s4, w);
    meaning::lemma_run_on(s, i, w, a + b + d + e + f, k);
    meaning::lemma_one(s5, i, w, z[0]);
    meaning::lemma_run_on(s, i, w, a + b + d + e + f + k, z);
}

/// The contents after the first `k` layers.
pub open spec fn passed(s: State, c: G4AudioCfg, clips: Seq<AudioClips>, n: int, k_scale: u32, w: Widths, k: int) -> State
    decreases k,
{
    if k <= 0 {
        s
    } else {
        run(
            passed(s, c, clips, n, k_scale, w, k - 1),
            k - 1,
            w,
            conformer::conformer_ops(c, clips, n, k_scale, c.n_layers as int)[k - 1],
        )
    }
}

/// What the first `k` layers make of the residual stream.
pub open spec fn stacked(c: G4AudioCfg, clips: Seq<AudioClips>, n: int, k_scale: u32, x: Term, rel_pe: Term, k: int) -> Term
    decreases k,
{
    if k <= 0 {
        x
    } else {
        heard(
            c,
            clips[k - 1],
            k - 1,
            n,
            k_scale,
            stacked(c, clips, n, k_scale, x, rel_pe, k - 1),
            rel_pe,
        )
    }
}

proof fn lemma_stack(c: G4AudioCfg, clips: Seq<AudioClips>, n: int, k_scale: u32, s: State, w: Widths, k: int)
    requires
        audio::sized(c, 0),
        0 <= n <= 750,
        0 <= k <= c.n_layers,
    ensures
        ({
            let t = passed(s, c, clips, n, k_scale, w, k);
            &&& t[Buf::X] == stacked(c, clips, n, k_scale, s[Buf::X], s[Buf::RelPe], k)
            &&& t[Buf::RelPe] == s[Buf::RelPe]
        }),
    decreases k,
{
    if k > 0 {
        lemma_stack(c, clips, n, k_scale, s, w, k - 1);
        law_conformer_layers_compute_their_blocks(
            c,
            clips[k - 1],
            k - 1,
            n,
            k_scale,
            passed(s, c, clips, n, k_scale, w, k - 1),
            w,
        );
    }
}

/// Encoding a clip: its subsampled frames go through the input projection, the
/// layers one after the other, the output projection with its bias and norm,
/// and the projection into the text model.
#[verifier::spinoff_prover]
#[verifier::rlimit(40)]
pub proof fn law_clips_become_rows_of_the_text_model(
    g: G4Audio,
    clips: Seq<AudioClips>,
    n: int,
    k_scale: u32,
    s: State,
    w: Widths,
)
    requires
        audio::sized(g.cfg, 0),
        0 <= n <= 750,
    ensures
        ({
            let c = g.cfg;
            let h = c.hidden as int;
            let t = run(
                passed(
                    meaning::step(s, 0, w, conformer::input_op(c, n)),
                    c,
                    clips,
                    n,
                    k_scale,
                    w,
                    c.n_layers as int,
                ),
                0,
                w,
                conformer::out_ops(c, g.lm_hidden, n),
            );
            let x = product(0, Weight::InputProj, s[Buf::H], n, h, (c.sub_ch.0 as int / 4) * c.sub_ch.1);
            let y = stacked(c, clips, n, k_scale, x, s[Buf::RelPe], c.n_layers as int);
            let o = c.out_dims as int;
            let z = biased(0, Some(Weight::OutBias), product(0, Weight::OutProj, y, n, o, h), n, o);
            t[Buf::Encoded] == product(
                0,
                Weight::EmbProj,
                normed(0, None, z, n, o),
                n,
                g.lm_hidden as int,
                o,
            )
        }),
{
    let c = g.cfg;
    lemma_sizes(c, n);
    let s1 = meaning::step(s, 0, w, conformer::input_op(c, n));
    lemma_stack(c, clips, n, k_scale, s1, w, c.n_layers as int);
    let s2 = passed(s1, c, clips, n, k_scale, w, c.n_layers as int);
    let v = conformer::out_ops(c, g.lm_hidden, n);
    assert(v =~= seq![v[0], v[1], v[2], v[3]]);
    meaning::lemma_four(s2, 0, w, v[0], v[1], v[2], v[3]);
    let p = (c.sub_ch.0 as int / 4) * c.sub_ch.1;
    assert(p >= 0) by (nonlinear_arith)
        requires
            p == (c.sub_ch.0 as int / 4) * c.sub_ch.1,
            c.sub_ch.0 as int / 4 >= 0,
            c.sub_ch.1 >= 0,
    ;
}

} // verus!
