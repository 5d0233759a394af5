//! What the encoders of the dense family compute.
use vstd::prelude::*;

use crate::ieee::Format;
use crate::models::meaning;
use crate::models::meaning::{
    biased, cached, of, part, plus, product, run, Act, At, State, Term, Widths,
};
use crate::models::ops::{Buf, Op, Weight};
use crate::models::towers::encode;
use crate::models::towers::encode::PatchGrid;
use crate::models::towers::EncoderTower;
use crate::models::ONE;

verus! {

/// A norm with mean and bias.
pub open spec fn centered(layer: int, weight: Weight, x: Term, rows: int, width: int) -> Term {
    Term::Centered { of: Box::new(x), by: of(layer, weight), rows, width }
}

/// A linear with its bias, where it has one.
pub open spec fn linear(layer: int, weight: Weight, bias: Weight, has_bias: bool, x: Term, rows: int, n: int, k: int) -> Term {
    let y = product(layer, weight, x, rows, n, k);
    if has_bias {
        biased(layer, Some(bias), y, rows, n)
    } else {
        y
    }
}

/// What a block makes of the residual stream and of the caches.
pub struct Blocked {
    pub x: Term,
    pub keys: Term,
    pub values: Term,
}

/// A block: attention of all rows to all rows, and a feed-forward block, each
/// behind a norm and added.
///
/// ```text
/// h = norm1(x);  x += Wo attn(Wq h + bq, Wk h + bk, Wv h + bv) + bo
/// h = norm2(x);  x += W2 gelu(W1 h + b1) + b2
/// ```
pub open spec fn blocked(t: EncoderTower, key_bias: bool, i: int, rows: int, b: Blocked) -> Blocked {
    let (h, f) = (t.ec.hidden_size as int, t.ec.intermediate_size as int);
    let (nh, d, cap) = (t.ec.n_heads as int, t.head_dim as int, t.max_tokens as int);
    let g = centered(i, Weight::Ln1, b.x, rows, h);
    let key = linear(i, Weight::Wk, Weight::BiasK, key_bias, g, rows, h, h);
    let value = linear(i, Weight::Wv, Weight::BiasV, true, g, rows, h, h);
    let keys = cached(b.keys, key, rows, nh, d, At::Pos(0), cap);
    let values = cached(b.values, value, rows, nh, d, At::Pos(0), cap);
    let att = Term::Attended {
        q: Box::new(linear(i, Weight::Wq, Weight::BiasQ, true, g, rows, h, h)),
        keys: Box::new(keys),
        values: Box::new(values),
        scale: Format::F32.quotient(
            ONE as int,
            Format::F32.root(Format::F32.of_int(t.head_dim as int)),
        ) as u32,
        rows,
        heads: nh,
        kv_heads: nh,
        dim: d,
        at: At::Pos(0),
        cap,
        causal: false,
        window: 0,
        blocks: None,
    };
    let y = plus(b.x, linear(i, Weight::Wo, Weight::BiasO, true, att, rows, h, h), rows * h);
    let e = centered(i, Weight::Ln2, y, rows, h);
    let m = Term::Activated {
        of: Box::new(linear(i, Weight::Fc1, Weight::BiasFc1, true, e, rows, f, h)),
        act: Act::Gelu,
        n: rows * f,
    };
    Blocked {
        x: plus(y, linear(i, Weight::Fc2, Weight::BiasFc2, true, m, rows, h, f), rows * h),
        keys,
        values,
    }
}

pub open spec fn contents(s: State) -> Blocked {
    Blocked { x: s[Buf::X], keys: s[Buf::EncK], values: s[Buf::EncV] }
}

#[verifier::spinoff_prover]
#[verifier::rlimit(60)]
proof fn lemma_attention(t: EncoderTower, key_bias: bool, i: int, rows: int, s: State, w: Widths)
    requires
        encode::rows_fit(t, rows),
    ensures
        ({
            let (h, nh, d) = (t.ec.hidden_size as int, t.ec.n_heads as int, t.head_dim as int);
            let cap = t.max_tokens as int;
            let u = run(s, i, w, encode::attn_ops(t, key_bias, rows));
            let g = centered(i, Weight::Ln1, s[Buf::X], rows, h);
            let key = linear(i, Weight::Wk, Weight::BiasK, key_bias, g, rows, h, h);
            let value = linear(i, Weight::Wv, Weight::BiasV, true, g, rows, h, h);
            let keys = cached(s[Buf::EncK], key, rows, nh, d, At::Pos(0), cap);
            let values = cached(s[Buf::EncV], value, rows, nh, d, At::Pos(0), cap);
            let att = Term::Attended {
                q: Box::new(linear(i, Weight::Wq, Weight::BiasQ, true, g, rows, h, h)),
                keys: Box::new(keys),
                values: Box::new(values),
                scale: Format::F32.quotient(
                    ONE as int,
                    Format::F32.root(Format::F32.of_int(t.head_dim as int)),
                ) as u32,
                rows,
                heads: nh,
                kv_heads: nh,
                dim: d,
                at: At::Pos(0),
                cap,
                causal: false,
                window: 0,
                blocks: None,
            };
            &&& u[Buf::X] == plus(
                s[Buf::X],
                linear(i, Weight::Wo, Weight::BiasO, true, att, rows, h, h),
                rows * h,
            )
            &&& u[Buf::EncK] == keys
            &&& u[Buf::EncV] == values
        }),
{
    let v = encode::attn_ops(t, key_bias, rows);
    vstd::arithmetic::mul::lemma_mul_nonnegative(rows, t.ec.hidden_size as int);
    let a = seq![v[0], v[1], v[2], v[3], v[4]];
    let s1 = run(s, i, w, a);
    meaning::lemma_five(s, i, w, v[0], v[1], v[2], v[3], v[4]);
    if key_bias {
        let b = seq![v[5], v[6], v[7], v[8]];
        let d = seq![v[9], v[10], v[11]];
        assert(v =~= a + b + d);
        meaning::lemma_run_on(s, i, w, a, b);
        meaning::lemma_four(s1, i, w, v[5], v[6], v[7], v[8]);
        let s2 = run(s1, i, w, b);
        meaning::lemma_run_on(s, i, w, a + b, d);
        meaning::lemma_three(s2, i, w, v[9], v[10], v[11]);
    } else {
        let b = seq![v[5], v[6], v[7]];
        let d = seq![v[8], v[9], v[10]];
        assert(v =~= a + b + d);
        meaning::lemma_run_on(s, i, w, a, b);
        meaning::lemma_three(s1, i, w, v[5], v[6], v[7]);
        let s2 = run(s1, i, w, b);
        meaning::lemma_run_on(s, i, w, a + b, d);
        meaning::lemma_three(s2, i, w, v[8], v[9], v[10]);
    }
}

#[verifier::spinoff_prover]
#[verifier::rlimit(60)]
proof fn lemma_mlp(t: EncoderTower, i: int, rows: int, s: State, w: Widths)
    requires
        encode::rows_fit(t, rows),
    ensures
        ({
            let (h, f) = (t.ec.hidden_size as int, t.ec.intermediate_size as int);
            let u = run(s, i, w, encode::mlp_ops(t, rows));
            let e = centered(i, Weight::Ln2, s[Buf::X], rows, h);
            let m = Term::Activated {
                of: Box::new(linear(i, Weight::Fc1, Weight::BiasFc1, true, e, rows, f, h)),
                act: Act::Gelu,
                n: rows * f,
            };
            &&& u[Buf::X] == plus(
                s[Buf::X],
                linear(i, Weight::Fc2, Weight::BiasFc2, true, m, rows, h, f),
                rows * h,
            )
            &&& u[Buf::EncK] == s[Buf::EncK]
            &&& u[Buf::EncV] == s[Buf::EncV]
        }),
{
    let v = encode::mlp_ops(t, rows);
    vstd::arithmetic::mul::lemma_mul_nonnegative(rows, t.ec.hidden_size as int);
    vstd::arithmetic::mul::lemma_mul_nonnegative(rows, t.ec.intermediate_size as int);
    let a = seq![v[0], v[1], v[2], v[3]];
    let b = seq![v[4], v[5], v[6]];
    assert(v =~= a + b);
    meaning::lemma_run_on(s, i, w, a, b);
    meaning::lemma_four(s, i, w, v[0], v[1], v[2], v[3]);
    meaning::lemma_three(run(s, i, w, a), i, w, v[4], v[5], v[6]);
}

/// A block of an encoder computes attention of all rows to all rows and a
/// feed-forward block; queries, keys and values each come from their own
/// projection and bias of the normed rows, and nothing is rotated.
pub proof fn law_encoder_blocks_compute_attention_and_mlp(
    t: EncoderTower,
    key_bias: bool,
    i: int,
    rows: int,
    s: State,
    w: Widths,
)
    requires
        encode::rows_fit(t, rows),
    ensures
        contents(run(s, i, w, encode::block_ops(t, key_bias, rows))) == blocked(
            t,
            key_bias,
            i,
            rows,
            contents(s),
        ),
{
    let (a, b) = (encode::attn_ops(t, key_bias, rows), encode::mlp_ops(t, rows));
    lemma_attention(t, key_bias, i, rows, s, w);
    lemma_mlp(t, i, rows, run(s, i, w, a), w);
    meaning::lemma_run_on(s, i, w, a, b);
}

/// An outer norm, where there is one.
pub open spec fn outer_normed(on: bool, layer: int, weight: Weight, x: Term, rows: int, h: int) -> Term {
    if on {
        part(centered(layer, weight, x, rows, h), 0, rows * h)
    } else {
        x
    }
}

/// The first `n` blocks, one after the other.
pub open spec fn stacked(t: EncoderTower, i: int, rows: int, b: Blocked, n: int) -> Blocked
    decreases n,
{
    if n <= 0 {
        b
    } else {
        blocked(t, encode::key_biased(t, n - 1), i, rows, stacked(t, i, rows, b, n - 1))
    }
}

proof fn lemma_outer(on: bool, layer: int, weight: Weight, rows: int, h: usize, s: State, w: Widths)
    requires
        0 <= rows <= usize::MAX,
        0 <= rows * h <= usize::MAX,
    ensures
        ({
            let u = run(s, layer, w, encode::outer_norm(on, weight, rows, h));
            &&& u[Buf::X] == outer_normed(on, layer, weight, s[Buf::X], rows, h as int)
            &&& u[Buf::EncK] == s[Buf::EncK]
            &&& u[Buf::EncV] == s[Buf::EncV]
        }),
{
    let v = encode::outer_norm(on, weight, rows, h);
    if on {
        assert(v =~= seq![v[0], v[1]]);
        meaning::lemma_two(s, layer, w, v[0], v[1]);
    } else {
        assert(v =~= Seq::<Op>::empty());
    }
}

proof fn lemma_blocks(t: EncoderTower, i: int, rows: int, s: State, w: Widths, n: int)
    requires
        encode::rows_fit(t, rows),
    ensures
        contents(run(s, i, w, encode::blocks(t, rows, n))) == stacked(
            t,
            i,
            rows,
            contents(s),
            n,
        ),
    decreases n,
{
    if n > 0 {
        lemma_blocks(t, i, rows, s, w, n - 1);
        let kb = encode::key_biased(t, n - 1);
        let u = run(s, i, w, encode::blocks(t, rows, n - 1));
        law_encoder_blocks_compute_attention_and_mlp(t, kb, i, rows, u, w);
        meaning::lemma_run_on(
            s,
            i,
            w,
            encode::blocks(t, rows, n - 1),
            encode::block_ops(t, kb, rows),
        );
    }
}

/// The body of an encoder: the norm in front where there is one, all blocks in
/// order, and the norm behind where there is one.
pub proof fn law_encoder_bodies_stack_their_blocks(t: EncoderTower, i: int, rows: int, s: State, w: Widths)
    requires
        encode::rows_fit(t, rows),
    ensures
        ({
            let h = t.ec.hidden_size as int;
            let x = outer_normed(encode::has_pre(t), i, Weight::PreLn, s[Buf::X], rows, h);
            let b = stacked(
                t,
                i,
                rows,
                Blocked { x, keys: s[Buf::EncK], values: s[Buf::EncV] },
                t.ec.n_layers as int,
            );
            run(s, i, w, encode::body_ops(t, rows))[Buf::X] == outer_normed(
                encode::has_final(t),
                i,
                Weight::FinalLn,
                b.x,
                rows,
                h,
            )
        }),
{
    let h = t.ec.hidden_size;
    vstd::arithmetic::mul::lemma_mul_nonnegative(rows, h as int);
    let a = encode::outer_norm(encode::has_pre(t), Weight::PreLn, rows, h);
    let b = encode::blocks(t, rows, t.ec.n_layers as int);
    let d = encode::outer_norm(encode::has_final(t), Weight::FinalLn, rows, h);
    let s1 = run(s, i, w, a);
    lemma_outer(encode::has_pre(t), i, Weight::PreLn, rows, h, s, w);
    let s2 = run(s1, i, w, b);
    lemma_blocks(t, i, rows, s1, w, t.ec.n_layers as int);
    meaning::lemma_run_on(s, i, w, a, b);
    lemma_outer(encode::has_final(t), i, Weight::FinalLn, rows, h, s2, w);
    meaning::lemma_run_on(s, i, w, a + b, d);
}

/// The projector: one linear into the text model, or two with an activation in
/// between, each with its bias where it has one.
#[verifier::spinoff_prover]
#[verifier::rlimit(60)]
pub proof fn law_projectors_lead_into_the_text_model(
    t: EncoderTower,
    i: int,
    rows: usize,
    mid: usize,
    s: State,
    w: Widths,
)
    requires
        rows * mid <= usize::MAX,
    ensures
        ({
            let (h, lm, r) = (t.ec.hidden_size as int, t.lm_hidden as int, rows as int);
            let p = t.projector;
            let u = run(s, i, w, encode::project_ops(t, r, mid));
            let x = s[Buf::X];
            u[Buf::Encoded] == (if p.w2 is Some {
                let a = linear(i, Weight::Proj1, Weight::Proj1Bias, p.b1 is Some, x, r, mid as int, h);
                let b = Term::Activated { of: Box::new(a), act: Act::Gelu, n: r * mid };
                linear(i, Weight::Proj2, Weight::Proj2Bias, p.b2 is Some, b, r, lm, mid as int)
            } else {
                linear(i, Weight::Proj1, Weight::Proj1Bias, p.b1 is Some, x, r, lm, h)
            })
        }),
{
    let v = encode::project_ops(t, rows as int, mid);
    vstd::arithmetic::mul::lemma_mul_nonnegative(rows as int, mid as int);
    let p = t.projector;
    if p.w2 is Some {
        if p.b1 is Some {
            if p.b2 is Some {
                assert(v =~= seq![v[0], v[1], v[2], v[3], v[4]]);
                meaning::lemma_five(s, i, w, v[0], v[1], v[2], v[3], v[4]);
            } else {
                assert(v =~= seq![v[0], v[1], v[2], v[3]]);
                meaning::lemma_four(s, i, w, v[0], v[1], v[2], v[3]);
            }
        } else {
            if p.b2 is Some {
                assert(v =~= seq![v[0], v[1], v[2], v[3]]);
                meaning::lemma_four(s, i, w, v[0], v[1], v[2], v[3]);
            } else {
                assert(v =~= seq![v[0], v[1], v[2]]);
                meaning::lemma_three(s, i, w, v[0], v[1], v[2]);
            }
        }
    } else {
        if p.b1 is Some {
            assert(v =~= seq![v[0], v[1]]);
            meaning::lemma_two(s, i, w, v[0], v[1]);
        } else {
            assert(v =~= seq![v[0]]);
            meaning::lemma_one(s, i, w, v[0]);
        }
    }
}

/// The rows of an image: its patches through the input projection, behind the
/// class token where there is one, plus the learned positions. The class token
/// is dropped again behind the body.
#[verifier::spinoff_prover]
#[verifier::rlimit(60)]
pub proof fn law_images_become_rows(
    t: EncoderTower,
    g: PatchGrid,
    patch_bias: bool,
    i: int,
    s: State,
    w: Widths,
)
    requires
        g.patches() <= usize::MAX,
        (g.patches() + 1) * t.ec.hidden_size <= usize::MAX,
        3 * t.ec.patch_size * t.ec.patch_size <= usize::MAX,
    ensures
        ({
            let (h, p, n) = (t.ec.hidden_size as int, t.ec.patch_size as int, g.patches());
            let u = run(s, i, w, encode::image_front(t, g, patch_bias));
            let rows = linear(
                i,
                Weight::InputProj,
                Weight::PatchBias,
                patch_bias,
                s[Buf::Stage],
                n,
                h,
                3 * p * p,
            );
            let x = if g.class {
                Term::Joined {
                    first: Box::new(Term::Table { table: of(i, Weight::ClassToken), n: h }),
                    rest: Box::new(rows),
                }
            } else {
                rows
            };
            let all = if g.class {
                (n + 1) * h
            } else {
                n * h
            };
            &&& u[Buf::X] == (if encode::outer_entry(t, 0) is Some {
                Term::PlusTable { of: Box::new(x), table: of(i, Weight::PosTable), n: all }
            } else {
                x
            })
            &&& run(s, i, w, encode::drop_class(t, g))[Buf::X] == (if g.class {
                part(part(s[Buf::X], h, n * h), 0, n * h)
            } else {
                s[Buf::X]
            })
        }),
{
    let (h, n) = (t.ec.hidden_size as int, g.patches());
    assert(0 <= n) by {
        vstd::arithmetic::mul::lemma_mul_nonnegative(g.h as int, g.w as int);
    }
    let p = t.ec.patch_size as int;
    assert(0 <= n * h <= (n + 1) * h && 0 <= 3 * p * p) by (nonlinear_arith)
        requires
            n >= 0,
            h >= 0,
            p >= 0,
    ;
    assert((n + 0) * h == n * h);
    let v = encode::image_front(t, g, patch_bias);
    if v.len() == 1 {
        assert(v =~= seq![v[0]]);
        meaning::lemma_one(s, i, w, v[0]);
    } else if v.len() == 2 {
        assert(v =~= seq![v[0], v[1]]);
        meaning::lemma_two(s, i, w, v[0], v[1]);
    } else if v.len() == 3 {
        assert(v =~= seq![v[0], v[1], v[2]]);
        meaning::lemma_three(s, i, w, v[0], v[1], v[2]);
    } else {
        assert(v =~= seq![v[0], v[1], v[2], v[3]]);
        meaning::lemma_four(s, i, w, v[0], v[1], v[2], v[3]);
    }
    let d = encode::drop_class(t, g);
    if g.class {
        assert(d =~= seq![d[0], d[1]]);
        meaning::lemma_two(s, i, w, d[0], d[1]);
    } else {
        assert(d =~= Seq::<Op>::empty());
    }
}

/// The rows of a clip: the second convolution with its bias and activation,
/// plus the learned positions.
#[verifier::spinoff_prover]
#[verifier::rlimit(60)]
pub proof fn law_clips_become_rows(t: EncoderTower, i: int, n: usize, s: State, w: Widths)
    requires
        n * t.ec.hidden_size <= usize::MAX,
        3 * t.ec.hidden_size <= usize::MAX,
    ensures
        ({
            let h = t.ec.hidden_size as int;
            let u = run(s, i, w, encode::second_conv(t, n as int));
            let x = Term::Activated {
                of: Box::new(
                    linear(
                        i,
                        Weight::Conv2,
                        Weight::Conv2Bias,
                        t.entries@[5] is Some,
                        s[Buf::Stage],
                        n as int,
                        h,
                        3 * h,
                    ),
                ),
                act: Act::Gelu,
                n: n * h,
            };
            u[Buf::X] == (if encode::outer_entry(t, 0) is Some {
                Term::PlusTable { of: Box::new(x), table: of(i, Weight::PosTable), n: n * h }
            } else {
                x
            })
        }),
{
    let h = t.ec.hidden_size as int;
    vstd::arithmetic::mul::lemma_mul_nonnegative(n as int, h);
    let v = encode::second_conv(t, n as int);
    if v.len() == 2 {
        assert(v =~= seq![v[0], v[1]]);
        meaning::lemma_two(s, i, w, v[0], v[1]);
    } else if v.len() == 3 {
        assert(v =~= seq![v[0], v[1], v[2]]);
        meaning::lemma_three(s, i, w, v[0], v[1], v[2]);
    } else {
        assert(v =~= seq![v[0], v[1], v[2], v[3]]);
        meaning::lemma_four(s, i, w, v[0], v[1], v[2], v[3]);
    }
}

} // verus!
