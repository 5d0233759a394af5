//! What a clamped linear computes.
use vstd::prelude::*;

use crate::models::gemma4::tower;
use crate::models::gemma4::tower::Clips;
use crate::models::meaning;
use crate::models::meaning::{clamped, part, product, run, State, Term, Widths};
use crate::models::ops::{Buf, Op, Weight};

verus! {

/// `rows` rows of `n_in`, clamped where inputs are, times a weight, clamped
/// where outputs are.
pub open spec fn clipped(
    layer: int,
    c: Clips,
    weight: Weight,
    x: Term,
    rows: int,
    n_in: int,
    n_out: int,
) -> Term {
    let y = match c.input {
        Some((lo, hi)) => clamped(part(x, 0, rows * n_in), lo, hi, rows * n_in),
        None => x,
    };
    let z = product(layer, weight, y, rows, n_out, n_in);
    match c.output {
        Some((lo, hi)) => clamped(z, lo, hi, rows * n_out),
        None => z,
    }
}

/// All buffers but the given one and the one where inputs are clamped are as
/// they were.
pub open spec fn kept_but(s: State, t: State, dst: Buf) -> bool {
    forall|b: Buf| b != dst && b != Buf::Clip ==> #[trigger] t[b] == s[b]
}

/// A clamped linear writes its product and touches nothing else; the rows that
/// it reads stay unclamped.
#[verifier::spinoff_prover]
pub proof fn lemma_clip(
    s: State,
    layer: int,
    w: Widths,
    c: Clips,
    weight: Weight,
    src: Buf,
    dst: Buf,
    rows: int,
    n_in: usize,
    n_out: usize,
)
    requires
        0 <= rows <= usize::MAX,
        0 <= rows * n_in <= usize::MAX,
        0 <= rows * n_out <= usize::MAX,
        src != Buf::Clip,
        dst != Buf::Clip,
    ensures
        ({
            let t = run(s, layer, w, tower::clip_ops(c, weight, src, dst, rows, n_in, n_out));
            &&& t[dst] == clipped(layer, c, weight, s[src], rows, n_in as int, n_out as int)
            &&& kept_but(s, t, dst)
        }),
{
    let v = tower::clip_ops(c, weight, src, dst, rows, n_in, n_out);
    if c.input is Some {
        if c.output is Some {
            assert(v =~= seq![v[0], v[1], v[2], v[3]]);
            meaning::lemma_four(s, layer, w, v[0], v[1], v[2], v[3]);
        } else {
            assert(v =~= seq![v[0], v[1], v[2]]);
            meaning::lemma_three(s, layer, w, v[0], v[1], v[2]);
        }
    } else {
        if c.output is Some {
            assert(v =~= seq![v[0], v[1]]);
            meaning::lemma_two(s, layer, w, v[0], v[1]);
        } else {
            assert(v =~= seq![v[0]]);
            meaning::lemma_one(s, layer, w, v[0]);
        }
    }
}

} // verus!
