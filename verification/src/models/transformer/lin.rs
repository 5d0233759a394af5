//! Linear weights in either residency, and the steps that run them.
use vstd::prelude::*;

use crate::models::ops::Epilogue;
use crate::tensor;
use crate::tensor::{block_bytes, block_elems, DType};

verus! {

/// A linear weight of `n` rows of `k`.
#[derive(Clone, Copy, PartialEq, Eq, Debug, Structural)]
pub enum Lin {
    F16 { n: usize, k: usize },
    /// Blocks as stored.
    Quant { fmt: DType, n: usize, k: usize },
}

/// A step on one weight.
#[derive(Clone, Copy, PartialEq, Eq, Debug, Structural)]
pub enum LinStep {
    /// One row times the weight.
    Gemv { fmt: Option<DType>, n: usize, k: usize, epilogue: Epilogue },
    Gemm { rows: usize, n: usize, k: usize },
    /// Expands `blocks` blocks from byte `from` on.
    Expand { fmt: DType, from: usize, blocks: usize },
    /// Multiplies by the `n` expanded rows, into columns `col0..` of rows that
    /// are `stride` wide.
    GemmSlab { rows: usize, col0: usize, n: usize, k: usize, stride: usize },
}

/// A quantized weight needs somewhere to be expanded.
#[derive(Clone, Copy, PartialEq, Eq, Debug, Structural)]
pub struct NoScratch;

/// The product of one row.
pub fn lin_gemv(w: &Lin, epilogue: Epilogue) -> (r: LinStep)
    ensures
        r == (match *w {
            Lin::F16 { n, k } => LinStep::Gemv { fmt: None, n, k, epilogue },
            Lin::Quant { fmt, n, k } => LinStep::Gemv { fmt: Some(fmt), n, k, epilogue },
        }),
{
    match *w {
        Lin::F16 { n, k } => LinStep::Gemv { fmt: None, n, k, epilogue },
        Lin::Quant { fmt, n, k } => LinStep::Gemv { fmt: Some(fmt), n, k, epilogue },
    }
}

/// Rows that the scratch buffer holds at once; at least one.
pub open spec fn slab(scratch: int, k: int) -> int {
    let s = scratch / (k * 2);
    if s >= 1 {
        s
    } else {
        1
    }
}

/// Bytes of a row of blocks.
pub open spec fn row_bytes(fmt: DType, k: int) -> int {
    k / tensor::grain(fmt) * tensor::block_len(fmt)
}

/// The steps from row `r0` on.
pub open spec fn slab_steps(fmt: DType, n: int, k: int, s: int, rows: usize, r0: int) -> Seq<LinStep>
    decreases n - r0,
{
    if r0 >= n || s < 1 || r0 < 0 {
        Seq::empty()
    } else {
        let nr = if s <= n - r0 {
            s
        } else {
            n - r0
        };
        seq![
            LinStep::Expand {
                fmt,
                from: (r0 * row_bytes(fmt, k)) as usize,
                blocks: (nr * k / tensor::grain(fmt)) as usize,
            },
            LinStep::GemmSlab {
                rows,
                col0: r0 as usize,
                n: nr as usize,
                k: k as usize,
                stride: n as usize,
            },
        ] + slab_steps(fmt, n, k, s, rows, r0 + nr)
    }
}

/// The steps of a product of several rows.
pub open spec fn gemm_steps(w: Lin, scratch: Option<usize>, rows: usize) -> Result<
    Seq<LinStep>,
    NoScratch,
> {
    match w {
        Lin::F16 { n, k } => Ok(seq![LinStep::Gemm { rows, n, k }]),
        Lin::Quant { fmt, n, k } => match scratch {
            Some(b) => Ok(
                slab_steps(fmt, n as int, k as int, slab(b as int, k as int), rows, 0),
            ),
            None => Err(NoScratch),
        },
    }
}

/// The weight's sizes are machine numbers.
pub open spec fn lin_sized(w: Lin) -> bool {
    match w {
        Lin::F16 { .. } => true,
        Lin::Quant { fmt, n, k } => {
            &&& k >= 1
            &&& 2 * k <= usize::MAX
            &&& n * k <= usize::MAX
            &&& row_bytes(fmt, k as int) <= usize::MAX
            &&& n * row_bytes(fmt, k as int) <= usize::MAX
        },
    }
}

/// The product of several rows: a quantized weight is expanded slab by slab.
pub fn lin_gemm(w: &Lin, scratch: Option<usize>, rows: usize) -> (r: Result<Vec<LinStep>, NoScratch>)
    requires
        lin_sized(*w),
    ensures
        match r {
            Ok(v) => gemm_steps(*w, scratch, rows) == Ok::<Seq<LinStep>, NoScratch>(v@),
            Err(e) => gemm_steps(*w, scratch, rows) == Err::<Seq<LinStep>, NoScratch>(e),
        },
{
    let mut v: Vec<LinStep> = Vec::new();
    match *w {
        Lin::F16 { n, k } => {
            v.push(LinStep::Gemm { rows, n, k });
            assert(v@ =~= seq![LinStep::Gemm { rows, n, k }]);
            Ok(v)
        },
        Lin::Quant { fmt, n, k } => {
            let bytes: usize = match scratch {
                Some(b) => b,
                None => {
                    return Err(NoScratch);
                },
            };
            let q: usize = bytes / (k * 2);
            let s: usize = if q >= 1 {
                q
            } else {
                1
            };
            proof {
                let (g, l) = (tensor::grain(fmt), tensor::block_len(fmt));
                vstd::arithmetic::div_mod::lemma_div_pos_is_pos(k as int, g);
            }
            let elems: usize = block_elems(fmt);
            assert(k as int / tensor::grain(fmt) * tensor::block_len(fmt) == row_bytes(fmt, k as int));
            let rb: usize = (k / elems) * block_bytes(fmt);
            let mut r0: usize = 0;
            let ghost all = slab_steps(fmt, n as int, k as int, s as int, rows, 0);
            assert(v@ + slab_steps(fmt, n as int, k as int, s as int, rows, 0) =~= all);
            while r0 < n
                invariant
                    r0 <= n,
                    s >= 1,
                    k >= 1,
                    n * k <= usize::MAX,
                    rb == row_bytes(fmt, k as int),
                    n * rb <= usize::MAX,
                    elems == tensor::grain(fmt),
                    v@ + slab_steps(fmt, n as int, k as int, s as int, rows, r0 as int) == all,
                decreases n - r0,
            {
                let nr: usize = if s <= n - r0 {
                    s
                } else {
                    n - r0
                };
                proof {
                    let (a, b, c, d, e) = (nr as int, n as int, k as int, r0 as int, rb as int);
                    assert(0 <= a * c <= b * c && 0 <= d * e <= b * e) by (nonlinear_arith)
                        requires
                            0 <= a <= b,
                            0 <= d <= b,
                            c >= 0,
                            e >= 0,
                    ;
                }
                let ghost before = v@;
                let x: LinStep = LinStep::Expand { fmt, from: r0 * rb, blocks: nr * k / elems };
                let y: LinStep = LinStep::GemmSlab { rows, col0: r0, n: nr, k, stride: n };
                v.push(x);
                v.push(y);
                proof {
                    let rest = slab_steps(fmt, n as int, k as int, s as int, rows, r0 + nr);
                    assert(slab_steps(fmt, n as int, k as int, s as int, rows, r0 as int)
                        == seq![x, y] + rest);
                    assert(v@ + rest =~= before + (seq![x, y] + rest));
                }
                r0 = r0 + nr;
            }
            assert(slab_steps(fmt, n as int, k as int, s as int, rows, r0 as int).len() == 0);
            assert(v@ =~= all);
            Ok(v)
        },
    }
}

/// Every output column is written by exactly one slab, and no slab expands
/// more than the scratch buffer holds where it holds a row.
pub proof fn law_slabs_cover_every_column(fmt: DType, n: int, k: int, scratch: int, rows: usize, r0: int, c: int)
    requires
        k >= 1,
        scratch >= 2 * k,
        0 <= r0 <= c < n <= usize::MAX,
        n * k <= usize::MAX,
        k <= usize::MAX,
    ensures
        ({
            let v = slab_steps(fmt, n, k, slab(scratch, k), rows, r0);
            &&& exists|i: int|
                0 <= i < v.len() && #[trigger] writes(v[i], c)
            &&& forall|i: int, j: int|
                0 <= i < v.len() && 0 <= j < v.len() && #[trigger] writes(v[i], c)
                    && #[trigger] writes(v[j], c) ==> i == j
            &&& forall|i: int| 0 <= i < v.len() ==> #[trigger] expands_within(v[i], scratch)
        }),
    decreases n - r0,
{
    let s = slab(scratch, k);
    lemma_slab(scratch, k);
    let nr = if s <= n - r0 {
        s
    } else {
        n - r0
    };
    let v = slab_steps(fmt, n, k, s, rows, r0);
    let rest = slab_steps(fmt, n, k, s, rows, r0 + nr);
    assert(v[0] is Expand);
    assert(v[1] == (LinStep::GemmSlab {
        rows,
        col0: r0 as usize,
        n: nr as usize,
        k: k as usize,
        stride: n as usize,
    }));
    assert(2 * (nr * k) <= 2 * (s * k)) by (nonlinear_arith)
        requires
            nr <= s,
            k >= 0,
    ;
    if r0 + nr < n {
        let d = if c >= r0 + nr {
            c
        } else {
            r0 + nr
        };
        law_slabs_cover_every_column(fmt, n, k, scratch, rows, r0 + nr, d);
    }
    lemma_later_columns(fmt, n, k, s, rows, r0 + nr);
    assert forall|i: int| 0 <= i < v.len() implies #[trigger] expands_within(v[i], scratch) by {
        if i >= 2 {
            assert(v[i] == rest[i - 2]);
        }
    }
    if c < r0 + nr {
        assert(writes(v[1], c));
        assert forall|i: int| 0 <= i < v.len() && #[trigger] writes(v[i], c) implies i == 1 by {
            if i >= 2 {
                assert(v[i] == rest[i - 2]);
                assert(!writes(rest[i - 2], c));
            }
        }
    } else {
        let w = choose|i: int| 0 <= i < rest.len() && #[trigger] writes(rest[i], c);
        assert(v[w + 2] == rest[w]);
        assert(writes(v[w + 2], c));
        assert forall|i: int, j: int|
            0 <= i < v.len() && 0 <= j < v.len() && #[trigger] writes(v[i], c) && #[trigger] writes(
                v[j],
                c,
            ) implies i == j by {
            assert(!writes(v[0], c) && !writes(v[1], c));
            assert(v[i] == rest[i - 2]);
            assert(v[j] == rest[j - 2]);
            assert(writes(rest[i - 2], c) && writes(rest[j - 2], c));
        }
    }
}

/// A step writes column `c`.
pub open spec fn writes(x: LinStep, c: int) -> bool {
    match x {
        LinStep::GemmSlab { col0, n, .. } => col0 <= c < col0 + n,
        _ => false,
    }
}

/// What a step multiplies by was expanded within `scratch` bytes.
pub open spec fn expands_within(x: LinStep, scratch: int) -> bool {
    match x {
        LinStep::GemmSlab { n, k, .. } => 2 * (n * k) <= scratch,
        _ => true,
    }
}

proof fn lemma_slab(scratch: int, k: int)
    requires
        k >= 1,
        scratch >= 2 * k,
    ensures
        slab(scratch, k) >= 1,
        2 * (slab(scratch, k) * k) <= scratch,
{
    let d = k * 2;
    vstd::arithmetic::div_mod::lemma_fundamental_div_mod(scratch, d);
    vstd::arithmetic::div_mod::lemma_mod_bound(scratch, d);
    let q = scratch / d;
    assert(q >= 1) by (nonlinear_arith)
        requires
            scratch == d * q + scratch % d,
            scratch % d < d,
            scratch >= d,
            d >= 1,
    ;
    assert(d * q == 2 * (q * k)) by (nonlinear_arith)
        requires
            d == k * 2,
    ;
}

proof fn lemma_later_columns(fmt: DType, n: int, k: int, s: int, rows: usize, r0: int)
    requires
        s >= 1,
        0 <= r0 <= n <= usize::MAX,
    ensures
        ({
            let v = slab_steps(fmt, n, k, s, rows, r0);
            forall|i: int, c: int|
                0 <= i < v.len() && c < r0 ==> !#[trigger] writes(v[i], c)
        }),
    decreases n - r0,
{
    if r0 < n {
        let nr = if s <= n - r0 {
            s
        } else {
            n - r0
        };
        lemma_later_columns(fmt, n, k, s, rows, r0 + nr);
        let v = slab_steps(fmt, n, k, s, rows, r0);
        let rest = slab_steps(fmt, n, k, s, rows, r0 + nr);
        assert forall|i: int, c: int| 0 <= i < v.len() && c < r0 implies !#[trigger] writes(
            v[i],
            c,
        ) by {
            if i >= 2 {
                assert(v[i] == rest[i - 2]);
                assert(!writes(rest[i - 2], c));
            }
        }
    }
}

} // verus!
