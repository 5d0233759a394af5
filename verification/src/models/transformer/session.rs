//! What a session reads of the caches it wrote itself.
use vstd::prelude::*;

use crate::models::ops::Op;
use crate::models::transformer::config::ModelConfig;
use crate::models::transformer::schedule;
use crate::models::transformer::schedule::{LayerKind, Pass};

verus! {

/// The end of the cached positions that a step reads.
pub open spec fn reach(op: Op) -> Option<int> {
    match op {
        Op::AttnPrefill { pos0, rows, .. } => Some(pos0 + rows),
        Op::AttnSplit { len, .. } => Some(len as int),
        Op::AttnDecode { len, .. } => Some(len as int),
        _ => None,
    }
}

/// The step writes position `q` of the caches.
pub open spec fn stores(op: Op, q: int) -> bool {
    op matches Op::KvAppend { pos0, rows, .. } && pos0 <= q < pos0 + rows
}

/// Passes that follow one another without a gap.
pub open spec fn contiguous(ps: Seq<Pass>) -> bool {
    &&& forall|k: int| 0 <= k < ps.len() ==> (#[trigger] ps[k]).rows >= 1 && !ps[k].counter
    &&& forall|k: int|
        0 <= k < ps.len() - 1 ==> (#[trigger] ps[k]).pos0 + ps[k].rows == ps[k + 1].pos0
    &&& forall|k: int| 0 <= k < ps.len() ==> (#[trigger] ps[k]).pos0 + ps[k].rows <= usize::MAX
}

spec fn front(c: ModelConfig, l: LayerKind, p: Pass) -> Seq<Op> {
    seq![schedule::norm_op(crate::models::ops::Weight::InputNorm, p, c)] + schedule::qkv_ops(
        c,
        l,
        p,
    )
}

spec fn back(c: ModelConfig, l: LayerKind, p: Pass) -> Seq<Op> {
    schedule::out_ops(c, p) + schedule::mlp_ops(c, l, p)
}

proof fn lemma_others_read_nothing(c: ModelConfig, l: LayerKind, p: Pass)
    ensures
        forall|j: int| 0 <= j < front(c, l, p).len() ==> reach(#[trigger] front(c, l, p)[j]) is None,
        forall|j: int| 0 <= j < back(c, l, p).len() ==> reach(#[trigger] back(c, l, p)[j]) is None,
{
}

/// A layer's pass stores its rows at place `w`, and reads up to their end, and
/// only after that.
proof fn lemma_layer(c: ModelConfig, l: LayerKind, i: int, p: Pass, csz: int, j: int) -> (w: int)
    requires
        p.rows >= 1,
        !p.counter,
        p.pos0 + p.rows <= usize::MAX,
        0 <= j < schedule::layer_ops(c, l, i, p, csz).len(),
    ensures
        0 <= w < schedule::layer_ops(c, l, i, p, csz).len(),
        forall|q: int|
            p.pos0 <= q < p.pos0 + p.rows ==> #[trigger] stores(
                schedule::layer_ops(c, l, i, p, csz)[w],
                q,
            ),
        reach(schedule::layer_ops(c, l, i, p, csz)[j]) matches Some(r) ==> r == p.pos0 + p.rows && w
            < j,
{
    let ops = schedule::layer_ops(c, l, i, p, csz);
    let (a, b) = (front(c, l, p), back(c, l, p));
    let (m, t) = (schedule::cache_ops(c, i, p), schedule::attn_ops(c, i, p, csz));
    assert(ops =~= a + m + t + b);
    lemma_others_read_nothing(c, l, p);
    let w = a.len() as int + 2;
    assert(ops[w] == m[2]);
    if j < a.len() {
        assert(ops[j] == a[j]);
    } else if j < a.len() + m.len() {
        assert(ops[j] == m[j - a.len()]);
        assert(reach(ops[j]) is None);
    } else if j < a.len() + m.len() + t.len() {
        assert(ops[j] == t[j - a.len() - m.len()]);
    } else {
        assert(ops[j] == b[j - a.len() - m.len() - t.len()]);
    }
    w
}

/// Step `w` of layer `i` in pass `m` writes position `q`.
pub open spec fn stored_by(
    c: ModelConfig,
    l: LayerKind,
    i: int,
    csz: int,
    ps: Seq<Pass>,
    m: int,
    w: int,
    q: int,
) -> bool {
    let ops = schedule::layer_ops(c, l, i, ps[m], csz);
    0 <= w < ops.len() && stores(ops[w], q)
}

proof fn lemma_holder(ps: Seq<Pass>, k: int, q: int) -> (m: int)
    requires
        contiguous(ps),
        0 <= k < ps.len(),
        ps[0].pos0 <= q < ps[k].pos0 + ps[k].rows,
    ensures
        0 <= m <= k,
        ps[m].pos0 <= q < ps[m].pos0 + ps[m].rows,
    decreases k,
{
    if ps[k].pos0 <= q {
        k
    } else {
        assert(ps[k - 1].pos0 + ps[k - 1].rows == ps[k].pos0);
        lemma_holder(ps, k - 1, q)
    }
}

/// Forgetting a session takes no more than its position: what a later session
/// reads of the caches, from its own start on, an earlier step of it wrote.
pub proof fn law_sessions_read_what_they_wrote(
    c: ModelConfig,
    l: LayerKind,
    i: int,
    csz: int,
    ps: Seq<Pass>,
    k: int,
    j: int,
    q: int,
)
    requires
        contiguous(ps),
        0 <= k < ps.len(),
        0 <= j < schedule::layer_ops(c, l, i, ps[k], csz).len(),
        reach(schedule::layer_ops(c, l, i, ps[k], csz)[j]) is Some,
        ps[0].pos0 <= q < reach(schedule::layer_ops(c, l, i, ps[k], csz)[j])->0,
    ensures
        exists|m: int, w: int|
            0 <= m <= k && (m < k || w < j) && #[trigger] stored_by(c, l, i, csz, ps, m, w, q),
{
    let at = lemma_layer(c, l, i, ps[k], csz, j);
    let m = lemma_holder(ps, k, q);
    if m == k {
        assert(stored_by(c, l, i, csz, ps, k, at, q));
    } else {
        let w = lemma_layer(c, l, i, ps[m], csz, 0);
        assert(stored_by(c, l, i, csz, ps, m, w, q));
    }
}

} // verus!
