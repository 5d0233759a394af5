//! What steps compute: the contents of the buffers as expressions over what
//! they held before and over the weights.
use vstd::prelude::*;

use crate::models::ops::{Buf, Epilogue, Op, Weight};

verus! {

/// Where the first row of a step stands.
pub enum At {
    Pos(int),
    /// Where the counter on the device says.
    Counter,
}

/// What is applied element by element.
pub enum Act {
    Silu,
    Gelu,
}

/// A weight of a layer.
pub struct Of {
    pub layer: int,
    pub weight: Weight,
}

/// The contents of a buffer, row-major, as far as they matter.
pub enum Term {
    /// What the buffer held before.
    Held(Buf),
    /// Nothing is said of the contents.
    Lost,
    /// `n` elements from element `skip` on.
    Part { of: Box<Term>, skip: int, n: int },
    /// Rows of a table, by their numbers.
    Looked { table: Of, row0: int, ids: Box<Term>, rows: int, width: int },
    /// Root-mean-square norm of `rows` rows from row `row0` on.
    Normed { of: Box<Term>, row0: int, by: Option<Of>, rows: int, width: int },
    /// Norm with mean and bias.
    Centered { of: Box<Term>, by: Of, rows: int, width: int },
    /// `rows` rows of `k` times the transposed weight `[n, k]`.
    Product { of: Box<Term>, by: Of, rows: int, n: int, k: int },
    Biased { of: Box<Term>, by: Of, rows: int, width: int },
    /// Rotary embedding.
    Rotated { of: Box<Term>, rows: int, heads: int, dim: int, at: At, theta: u32, nfreqs: int, factors: bool },
    /// Rotary embedding by columns and lines.
    Placed { of: Box<Term>, xs: Box<Term>, ys: Box<Term>, rows: int, heads: int, dim: int, theta: u32 },
    Clamped { of: Box<Term>, lo: u32, hi: u32, n: int },
    /// A cache with `rows` rows written into it.
    Cached { cache: Box<Term>, rows_of: Box<Term>, rows: int, heads: int, dim: int, at: At, cap: int },
    /// Attention of `rows` queries over a cache.
    Attended { q: Box<Term>, keys: Box<Term>, values: Box<Term>, scale: u32, rows: int, heads: int, kv_heads: int, dim: int, at: At, cap: int, causal: bool, window: int, blocks: Option<Box<Term>> },
    /// Such attention, in pieces.
    Pieces { of: Box<Term>, heads: int, dim: int, len: int, piece: int, pieces: int, window: int, counter: bool },
    Plus { a: Box<Term>, b: Box<Term>, n: int },
    /// `act(gate) * up`.
    Gated { gate: Box<Term>, up: Box<Term>, act: Act, n: int },
    Activated { of: Box<Term>, act: Act, n: int },
    Scaled { of: Box<Term>, factor: u32, n: int },
    /// Row by row times a part of the rows of `by`.
    Strided { of: Box<Term>, by: Box<Term>, rows: int, width: int, stride: int, offset: int },
    /// Row by row times a vector.
    Weighed { of: Box<Term>, by: Of, rows: int, width: int },
    /// A table itself.
    Table { table: Of, n: int },
    /// One after the other.
    Joined { first: Box<Term>, rest: Box<Term> },
    PlusTable { of: Box<Term>, table: Of, n: int },
    /// Local attention with relative positions.
    Heard { q: Box<Term>, k: Box<Term>, v: Box<Term>, rel: Box<Term>, rows: int, heads: int, dim: int, chunk: int, past: int, cap: u32, invalid: u32 },
    /// The first half of a row times the sigmoid of the second.
    Halved { of: Box<Term>, rows: int, width: int },
    /// Causal depthwise convolution.
    Convolved { of: Box<Term>, by: Of, rows: int, width: int, taps: int },
    /// Single precision.
    Single { of: Box<Term>, n: int },
    /// The mean of the rows.
    Mean { of: Box<Term>, rows: int, width: int },
    /// The greatest.
    Greatest { of: Box<Term>, n: int, cap: u32 },
    Penalized { of: Box<Term>, counts: Box<Term>, n: int, factor: u32 },
    /// The `k` greatest.
    Ranked { of: Box<Term>, n: int, cap: u32, k: int },
    /// The numbers of recent tokens, one more noted.
    Noted { of: Box<Term>, id: Box<Term>, at: At },
    /// The counter, moved on.
    Next { of: Box<Term> },
    /// The token of a pick.
    Token { of: Box<Term> },
}

/// The contents of all buffers.
pub type State = Map<Buf, Term>;

/// How a row of queries, keys and values is divided.
pub struct Widths {
    pub q: int,
    pub kv: int,
}

pub open spec fn start(pos0: usize, counter: bool) -> At {
    if counter {
        At::Counter
    } else {
        At::Pos(pos0 as int)
    }
}

pub open spec fn of(layer: int, weight: Weight) -> Of {
    Of { layer, weight }
}

pub open spec fn product(layer: int, weight: Weight, x: Term, rows: int, n: int, k: int) -> Term {
    Term::Product { of: Box::new(x), by: of(layer, weight), rows, n, k }
}

pub open spec fn biased(layer: int, weight: Option<Weight>, x: Term, rows: int, width: int) -> Term {
    match weight {
        Some(w) => Term::Biased { of: Box::new(x), by: of(layer, w), rows, width },
        None => x,
    }
}

pub open spec fn normed(layer: int, weight: Option<Weight>, x: Term, rows: int, width: int) -> Term {
    Term::Normed {
        of: Box::new(x),
        row0: 0,
        by: match weight {
            Some(w) => Some(of(layer, w)),
            None => None,
        },
        rows,
        width,
    }
}

pub open spec fn plus(a: Term, b: Term, n: int) -> Term {
    Term::Plus { a: Box::new(a), b: Box::new(b), n }
}

pub open spec fn part(x: Term, skip: int, n: int) -> Term {
    Term::Part { of: Box::new(x), skip, n }
}

pub open spec fn gated(gate: Term, up: Term, act: Act, n: int) -> Term {
    Term::Gated { gate: Box::new(gate), up: Box::new(up), act, n }
}

/// Rows that fill a cache leave nothing of what it held.
pub open spec fn cached(cache: Term, rows_of: Term, rows: int, heads: int, dim: int, at: At, cap: int) -> Term {
    Term::Cached {
        cache: Box::new(
            if at == At::Pos(0) && rows == cap {
                Term::Lost
            } else {
                cache
            },
        ),
        rows_of: Box::new(rows_of),
        rows,
        heads,
        dim,
        at,
        cap,
    }
}

pub open spec fn clamped(x: Term, lo: u32, hi: u32, n: int) -> Term {
    Term::Clamped { of: Box::new(x), lo, hi, n }
}

/// The row-concatenated bias of a projection.
pub open spec fn bias_part(bias: Option<Weight>, whole: Weight, own: Weight) -> Option<Weight> {
    if bias == Some(whole) {
        Some(own)
    } else {
        bias
    }
}

/// What the product of one row leaves.
pub open spec fn after_gemv(
    s: State,
    layer: int,
    w: Widths,
    weight: Weight,
    bias: Option<Weight>,
    src: Buf,
    dst: Buf,
    n: int,
    k: int,
    epilogue: Epilogue,
) -> State {
    let x = s[src];
    match epilogue {
        Epilogue::Store => if dst == Buf::Qkv {
            // rows of the weight are those of the queries, the keys and the values
            if weight == Weight::Wqkv && n == w.q + 2 * w.kv {
                let q = biased(
                    layer,
                    bias_part(bias, Weight::BiasQkv, Weight::BiasQ),
                    product(layer, Weight::Wq, x, 1, w.q, k),
                    1,
                    w.q,
                );
                let key = biased(
                    layer,
                    bias_part(bias, Weight::BiasQkv, Weight::BiasK),
                    product(layer, Weight::Wk, x, 1, w.kv, k),
                    1,
                    w.kv,
                );
                let v = biased(
                    layer,
                    bias_part(bias, Weight::BiasQkv, Weight::BiasV),
                    product(layer, Weight::Wv, x, 1, w.kv, k),
                    1,
                    w.kv,
                );
                s.insert(Buf::QRow, q).insert(Buf::KRow, key).insert(Buf::VRow, v)
            } else {
                s.insert(Buf::QRow, Term::Lost).insert(Buf::KRow, Term::Lost).insert(
                    Buf::VRow,
                    Term::Lost,
                )
            }
        } else {
            s.insert(dst, biased(layer, bias, product(layer, weight, x, 1, n, k), 1, n))
        },
        Epilogue::Accumulate => s.insert(
            dst,
            plus(s[dst], biased(layer, bias, product(layer, weight, x, 1, n, k), 1, n), n),
        ),
        Epilogue::SiluMul => s.insert(
            dst,
            if weight == Weight::WGateUp && bias is None {
                gated(
                    product(layer, Weight::WGate, x, 1, n, k),
                    product(layer, Weight::WUp, x, 1, n, k),
                    Act::Silu,
                    n,
                )
            } else {
                Term::Lost
            },
        ),
    }
}

/// Attention as a step has it.
pub open spec fn attended(
    s: State,
    q: Buf,
    scale: u32,
    kc: Buf,
    vc: Buf,
    rows: int,
    heads: usize,
    kv_heads: usize,
    dim: usize,
    at: At,
    cap: usize,
    causal: bool,
    window: usize,
    blocks: bool,
) -> Term {
    Term::Attended {
        q: Box::new(s[q]),
        keys: Box::new(s[kc]),
        values: Box::new(s[vc]),
        scale,
        rows,
        heads: heads as int,
        kv_heads: kv_heads as int,
        dim: dim as int,
        at,
        cap: cap as int,
        causal,
        window: window as int,
        blocks: if blocks {
            Some(Box::new(s[Buf::BlkId]))
        } else {
            None
        },
    }
}

/// One row over `len` positions stands at the last of them.
pub open spec fn last_of(len: usize, counter: bool) -> At {
    if counter {
        At::Counter
    } else {
        At::Pos(len - 1)
    }
}

/// The contents after a step with the weights of layer `layer`.
pub open spec fn step(s: State, layer: int, w: Widths, op: Op) -> State {
    match op {
        Op::Gather { table, packed, row0, ids, dst, rows, width } => s.insert(
            dst,
            Term::Looked {
                table: of(layer, table),
                row0: row0 as int,
                ids: Box::new(s[ids]),
                rows: rows as int,
                width: width as int,
            },
        ),
        Op::RmsNorm { src, row0, weight, dst, rows, width } => s.insert(
            dst,
            Term::Normed {
                of: Box::new(s[src]),
                row0: row0 as int,
                by: match weight {
                    Some(w) => Some(of(layer, w)),
                    None => None,
                },
                rows: rows as int,
                width: width as int,
            },
        ),
        Op::Gemm { weight, src, dst, rows, n, k } => s.insert(
            dst,
            product(layer, weight, s[src], rows as int, n as int, k as int),
        ),
        Op::AddBias { weight, buf, rows, width } => s.insert(
            buf,
            biased(layer, Some(weight), s[buf], rows as int, width as int),
        ),
        Op::Rope { buf, rows, heads, dim, pos0, theta, nfreqs, counter, factors } => s.insert(
            buf,
            Term::Rotated {
                of: Box::new(s[buf]),
                rows: rows as int,
                heads: heads as int,
                dim: dim as int,
                at: start(pos0, counter),
                theta,
                nfreqs: nfreqs as int,
                factors,
            },
        ),
        Op::Rope2d { buf, rows, heads, dim, theta } => s.insert(
            buf,
            Term::Placed {
                of: Box::new(s[buf]),
                xs: Box::new(s[Buf::PosX]),
                ys: Box::new(s[Buf::PosY]),
                rows: rows as int,
                heads: heads as int,
                dim: dim as int,
                theta,
            },
        ),
        Op::Copy { src, dst, n } => s.insert(dst, part(s[src], 0, n as int)),
        Op::CopyFrom { src, skip, dst, n } => s.insert(dst, part(s[src], skip as int, n as int)),
        Op::Clamp { buf, lo, hi, n } => s.insert(buf, clamped(s[buf], lo, hi, n as int)),
        Op::KvAppend { k, v, kc, vc, rows, heads, dim, pos0, cap, counter } => {
            let at = start(pos0, counter);
            let (r, h, d, c) = (rows as int, heads as int, dim as int, cap as int);
            s.insert(kc, cached(s[kc], s[k], r, h, d, at, c)).insert(
                vc,
                cached(s[vc], s[v], r, h, d, at, c),
            )
        },
        Op::AttnSplit { q, scale, kc, vc, heads, kv_heads, dim, len, cap, piece, pieces, window, counter } => s.insert(
            Buf::AttPart,
            Term::Pieces {
                of: Box::new(
                    attended(
                        s,
                        q,
                        scale,
                        kc,
                        vc,
                        1,
                        heads,
                        kv_heads,
                        dim,
                        last_of(len, counter),
                        cap,
                        true,
                        window,
                        false,
                    ),
                ),
                heads: heads as int,
                dim: dim as int,
                len: len as int,
                piece: piece as int,
                pieces: pieces as int,
                window: window as int,
                counter,
            },
        ),
        Op::AttnReduce { heads, dim, len, piece, pieces, window, counter } => s.insert(
            Buf::Att,
            match s[Buf::AttPart] {
                Term::Pieces { of, heads: h, dim: d, len: l, piece: p, pieces: n, window: w, counter: c } => if h
                    == heads && d == dim && l == len && p == piece && n == pieces && w == window && c
                    == counter {
                    *of
                } else {
                    Term::Lost
                },
                _ => Term::Lost,
            },
        ),
        Op::AttnDecode { q, scale, kc, vc, heads, kv_heads, dim, len, cap, window, counter } => s.insert(
            Buf::Att,
            attended(
                s,
                q,
                scale,
                kc,
                vc,
                1,
                heads,
                kv_heads,
                dim,
                last_of(len, counter),
                cap,
                true,
                window,
                false,
            ),
        ),
        Op::AttnPrefill { q, scale, kc, vc, rows, heads, kv_heads, dim, pos0, cap, causal, window, blocks } => s.insert(
            Buf::Att,
            attended(
                s,
                q,
                scale,
                kc,
                vc,
                rows as int,
                heads,
                kv_heads,
                dim,
                At::Pos(pos0 as int),
                cap,
                causal,
                window,
                blocks,
            ),
        ),
        Op::Add { dst, src, n } => s.insert(dst, plus(s[dst], s[src], n as int)),
        Op::Geglu { n } => s.insert(
            Buf::Gate,
            gated(s[Buf::Gate], s[Buf::Up], Act::Gelu, n as int),
        ),
        Op::SwiGlu { n } => s.insert(
            Buf::Gate,
            gated(s[Buf::Gate], s[Buf::Up], Act::Silu, n as int),
        ),
        Op::Gelu { buf, n } => s.insert(
            buf,
            Term::Activated { of: Box::new(s[buf]), act: Act::Gelu, n: n as int },
        ),
        Op::Silu { buf, n } => s.insert(
            buf,
            Term::Activated { of: Box::new(s[buf]), act: Act::Silu, n: n as int },
        ),
        Op::MulStrided { rows, width, stride, offset } => s.insert(
            Buf::PleG,
            Term::Strided {
                of: Box::new(s[Buf::PleG]),
                by: Box::new(s[Buf::Ple]),
                rows: rows as int,
                width: width as int,
                stride: stride as int,
                offset: offset as int,
            },
        ),
        Op::Scale { buf, factor, n } => s.insert(
            buf,
            Term::Scaled { of: Box::new(s[buf]), factor, n: n as int },
        ),
        Op::Widen { n } => s.insert(
            Buf::LogitsF,
            Term::Single { of: Box::new(s[Buf::LogitsH]), n: n as int },
        ),
        Op::MeanPool { rows, width } => s.insert(
            Buf::LogitsF,
            Term::Mean { of: Box::new(s[Buf::H]), rows: rows as int, width: width as int },
        ),
        Op::Argmax { n, cap } => s.insert(
            Buf::ArgmaxSlot,
            Term::Greatest { of: Box::new(s[Buf::LogitsH]), n: n as int, cap },
        ),
        Op::Penalty { n, factor } => s.insert(
            Buf::LogitsH,
            Term::Penalized {
                of: Box::new(s[Buf::LogitsH]),
                counts: Box::new(s[Buf::HistCounts]),
                n: n as int,
                factor,
            },
        ),
        Op::TopK { n, cap, k } => s.insert(
            Buf::Cand,
            Term::Ranked { of: Box::new(s[Buf::LogitsH]), n: n as int, cap, k: k as int },
        ).insert(Buf::ArgmaxSlot, Term::Lost),
        Op::HistPush { pos, counter } => s.insert(
            Buf::HistRing,
            Term::Noted {
                of: Box::new(s[Buf::HistRing]),
                id: Box::new(s[Buf::Ids]),
                at: start(pos, counter),
            },
        ).insert(
            Buf::HistCounts,
            Term::Noted {
                of: Box::new(s[Buf::HistCounts]),
                id: Box::new(s[Buf::Ids]),
                at: start(pos, counter),
            },
        ),
        Op::PosBump => s.insert(Buf::PosDev, Term::Next { of: Box::new(s[Buf::PosDev]) }),
        Op::Gemv { weight, bias, src, dst, n, k, epilogue } => after_gemv(
            s,
            layer,
            w,
            weight,
            bias,
            src,
            dst,
            n as int,
            k as int,
            epilogue,
        ),
        Op::TokenFromArgmax => s.insert(
            Buf::Ids,
            Term::Token { of: Box::new(s[Buf::ArgmaxSlot]) },
        ),
        Op::LayerNorm { src, weight, dst, rows, width } => s.insert(
            dst,
            Term::Centered {
                of: Box::new(s[src]),
                by: of(layer, weight),
                rows: rows as int,
                width: width as int,
            },
        ),
        Op::Load { weight, dst, n } => {
            let first = Term::Table { table: of(layer, weight), n: n as int };
            // a class token stands in front of the rows behind it
            s.insert(
                dst,
                if dst == Buf::X {
                    Term::Joined { first: Box::new(first), rest: Box::new(s[Buf::XTail]) }
                } else {
                    first
                },
            )
        },
        Op::AddTable { weight, dst, n } => s.insert(
            dst,
            Term::PlusTable { of: Box::new(s[dst]), table: of(layer, weight), n: n as int },
        ),
        Op::MulVec { weight, buf, rows, width } => s.insert(
            buf,
            Term::Weighed {
                of: Box::new(s[buf]),
                by: of(layer, weight),
                rows: rows as int,
                width: width as int,
            },
        ),
        Op::AudioAttn { dst, rows, heads, dim, chunk, past, cap, invalid } => s.insert(
            dst,
            Term::Heard {
                q: Box::new(s[Buf::Q]),
                k: Box::new(s[Buf::K]),
                v: Box::new(s[Buf::V]),
                rel: Box::new(s[Buf::RelK]),
                rows: rows as int,
                heads: heads as int,
                dim: dim as int,
                chunk: chunk as int,
                past: past as int,
                cap,
                invalid,
            },
        ),
        Op::Glu { dst, rows, width } => s.insert(
            dst,
            Term::Halved { of: Box::new(s[Buf::Wide]), rows: rows as int, width: width as int },
        ),
        Op::DwConv { weight, src, dst, rows, width, taps } => s.insert(
            dst,
            Term::Convolved {
                of: Box::new(s[src]),
                by: of(layer, weight),
                rows: rows as int,
                width: width as int,
                taps: taps as int,
            },
        ),
    }
}

/// The contents after all steps, in order.
pub open spec fn run(s: State, layer: int, w: Widths, ops: Seq<Op>) -> State
    decreases ops.len(),
{
    if ops.len() == 0 {
        s
    } else {
        step(run(s, layer, w, ops.drop_last()), layer, w, ops.last())
    }
}

/// Steps run on from where others ended.
pub proof fn lemma_run_on(s: State, layer: int, w: Widths, a: Seq<Op>, b: Seq<Op>)
    ensures
        run(s, layer, w, a + b) == run(run(s, layer, w, a), layer, w, b),
    decreases b.len(),
{
    if b.len() == 0 {
        assert(a + b =~= a);
    } else {
        lemma_run_on(s, layer, w, a, b.drop_last());
        assert((a + b).drop_last() =~= a + b.drop_last());
        assert((a + b).last() == b.last());
    }
}

pub proof fn lemma_one(s: State, layer: int, w: Widths, a: Op)
    ensures
        run(s, layer, w, seq![a]) == step(s, layer, w, a),
{
    assert(seq![a].drop_last() =~= Seq::<Op>::empty());
    assert(run(s, layer, w, Seq::<Op>::empty()) == s);
}

pub proof fn lemma_two(s: State, layer: int, w: Widths, a: Op, b: Op)
    ensures
        run(s, layer, w, seq![a, b]) == step(step(s, layer, w, a), layer, w, b),
{
    lemma_one(s, layer, w, a);
    assert(seq![a, b].drop_last() =~= seq![a]);
}

pub proof fn lemma_three(s: State, layer: int, w: Widths, a: Op, b: Op, c: Op)
    ensures
        run(s, layer, w, seq![a, b, c]) == step(
            step(step(s, layer, w, a), layer, w, b),
            layer,
            w,
            c,
        ),
{
    lemma_two(s, layer, w, a, b);
    assert(seq![a, b, c].drop_last() =~= seq![a, b]);
}

pub proof fn lemma_four(s: State, layer: int, w: Widths, a: Op, b: Op, c: Op, d: Op)
    ensures
        run(s, layer, w, seq![a, b, c, d]) == step(
            step(step(step(s, layer, w, a), layer, w, b), layer, w, c),
            layer,
            w,
            d,
        ),
{
    lemma_three(s, layer, w, a, b, c);
    assert(seq![a, b, c, d].drop_last() =~= seq![a, b, c]);
}

pub proof fn lemma_five(s: State, layer: int, w: Widths, a: Op, b: Op, c: Op, d: Op, e: Op)
    ensures
        run(s, layer, w, seq![a, b, c, d, e]) == step(
            step(step(step(step(s, layer, w, a), layer, w, b), layer, w, c), layer, w, d),
            layer,
            w,
            e,
        ),
{
    lemma_four(s, layer, w, a, b, c, d);
    assert(seq![a, b, c, d, e].drop_last() =~= seq![a, b, c, d]);
}

} // verus!
