//! The steps around the layers: embeddings, per-layer inputs, the head, and
//! one token at a time.
use vstd::prelude::*;

use crate::ieee::Format;
use crate::models::gemma4::config::G4TextCfg;
use crate::models::gemma4::graph::Gemma4;
use crate::models::gemma4::plan;
use crate::models::gemma4::schedule;
use crate::models::gemma4::schedule::Pass;
use crate::models::ops;
use crate::models::ops::{Buf, Epilogue, Op, Weight};
use crate::models::prompt;
use crate::models::prompt::FeedError;
use crate::models::{CHUNK, ONE, SAMPLE_TOPK};
use crate::num::f32_div;
use crate::tensor::DType;

verus! {

/// One half over its square root, in single precision.
pub const FRAC_1_SQRT_2: u32 = 0x3f35_04f3;

/// The square root of a whole number in single precision.
pub open spec fn root_of(n: int) -> int {
    Format::F32.root(Format::F32.of_int(n))
}

pub fn square_root_of(n: usize) -> (r: u32)
    ensures
        r == root_of(n as int),
{
    Format::F32.square_root(Format::F32.from_u64(n as u64)) as u32
}

/// Gathers and scales the embeddings of the uploaded tokens.
pub open spec fn embed_ops(t: G4TextCfg, packed: Option<DType>, rows: int) -> Seq<Op> {
    seq![
        Op::Gather {
            table: Weight::Embed,
            packed,
            row0: 0,
            ids: Buf::Ids,
            dst: Buf::X,
            rows: rows as usize,
            width: t.hidden,
        },
        Op::Scale {
            buf: Buf::X,
            factor: root_of(t.hidden as int) as u32,
            n: (rows * t.hidden) as usize,
        },
    ]
}

/// Combines the per-layer inputs: the projection of the residual stream with
/// the token identities.
pub open spec fn context_ops(t: G4TextCfg, rows: int) -> Seq<Op> {
    let slab = t.n_layers * t.ple_dim;
    if t.ple_dim == 0 {
        Seq::empty()
    } else {
        seq![
            Op::Gemm {
                weight: Weight::PleModelProj,
                src: Buf::X,
                dst: Buf::Ple,
                rows: rows as usize,
                n: slab as usize,
                k: t.hidden,
            },
            Op::Scale {
                buf: Buf::Ple,
                factor: Format::F32.quotient(ONE as int, root_of(t.hidden as int)) as u32,
                n: (rows * slab) as usize,
            },
            Op::RmsNorm {
                src: Buf::Ple,
                row0: 0,
                weight: Some(Weight::PleModelNorm),
                dst: Buf::Ple,
                rows: (rows * t.n_layers) as usize,
                width: t.ple_dim,
            },
            Op::Add { dst: Buf::Ple, src: Buf::PleId, n: (rows * slab) as usize },
            Op::Scale { buf: Buf::Ple, factor: FRAC_1_SQRT_2, n: (rows * slab) as usize },
        ]
    }
}

/// The logits of one row: a table that stays packed is multiplied by as it is.
pub open spec fn head_ops(t: G4TextCfg, packed: Option<DType>, row: int) -> Seq<Op> {
    seq![
        Op::RmsNorm {
            src: Buf::X,
            row0: row as usize,
            weight: Some(Weight::FinalNorm),
            dst: Buf::H,
            rows: 1,
            width: t.hidden,
        },
        if packed is Some {
            Op::Gemv {
                weight: Weight::Embed,
                bias: None,
                src: Buf::H,
                dst: Buf::LogitsH,
                n: t.vocab,
                k: t.hidden,
                epilogue: Epilogue::Store,
            }
        } else {
            Op::Gemm {
                weight: Weight::Embed,
                src: Buf::H,
                dst: Buf::LogitsH,
                rows: 1,
                n: t.vocab,
                k: t.hidden,
            }
        },
    ]
}

/// What becomes of the logits.
#[derive(Clone, Copy, PartialEq, Eq, Debug, Structural)]
pub enum Pick {
    /// They are read back.
    Logits,
    Greedy,
    /// The candidates for sampling, with a repeat penalty.
    Sample { penalty: u32 },
}

pub open spec fn pick_ops(t: G4TextCfg, pick: Pick) -> Seq<Op> {
    match pick {
        Pick::Logits => seq![Op::Widen { n: t.vocab }],
        Pick::Greedy => seq![Op::Argmax { n: t.vocab, cap: t.softcap }],
        Pick::Sample { penalty } => (if Format::F32.equal(penalty as int, ONE as int) {
            Seq::empty()
        } else {
            seq![Op::Penalty { n: t.vocab, factor: penalty }]
        }) + seq![Op::TopK { n: t.vocab, cap: t.softcap, k: SAMPLE_TOPK }],
    }
}

/// The pooled hidden state of `rows` rows.
pub open spec fn pool_ops(t: G4TextCfg, rows: int) -> Seq<Op> {
    seq![
        Op::RmsNorm {
            src: Buf::X,
            row0: 0,
            weight: Some(Weight::FinalNorm),
            dst: Buf::H,
            rows: rows as usize,
            width: t.hidden,
        },
        Op::MeanPool { rows: rows as usize, width: t.hidden },
    ]
}

proof fn lemma_chunk(t: G4TextCfg, rows: int)
    requires
        plan::sized(t),
        0 <= rows <= CHUNK,
    ensures
        0 <= rows * t.hidden <= CHUNK * t.hidden <= usize::MAX,
        0 <= t.n_layers * t.ple_dim <= usize::MAX,
        0 <= rows * (t.n_layers * t.ple_dim) <= (t.n_layers * t.ple_dim) * CHUNK <= usize::MAX,
        t.ple_dim > 0 ==> 0 <= rows * t.n_layers <= usize::MAX,
        (rows * t.n_layers) * t.ple_dim == rows * (t.n_layers * t.ple_dim),
{
    plan::lemma_sized(t);
    let ch = CHUNK as int;
    let (h, n, p) = (t.hidden as int, t.n_layers as int, t.ple_dim as int);
    let slab = n * p;
    assert(0 <= rows * h <= ch * h) by (nonlinear_arith)
        requires
            0 <= rows <= ch,
            h >= 0,
    ;
    assert(0 <= rows * slab <= slab * ch) by (nonlinear_arith)
        requires
            0 <= rows <= ch,
            slab >= 0,
    ;
    assert((rows * n) * p == rows * (n * p)) by (nonlinear_arith);
    if p > 0 {
        let rn = rows * n;
        assert(0 <= rn <= rn * p) by (nonlinear_arith)
            requires
                rn == rows * n,
                rows >= 0,
                n >= 0,
                p >= 1,
        ;
    }
}

impl Gemma4 {
    fn push_embed(&self, v: &mut Vec<Op>, rows: usize)
        requires
            plan::sized(self.cfg.text),
            rows <= CHUNK,
        ensures
            final(v)@ == old(v)@ + embed_ops(self.cfg.text, self.embed_gguf, rows as int),
    {
        let ghost before = v@;
        let t: &G4TextCfg = &self.cfg.text;
        proof {
            lemma_chunk(*t, rows as int);
        }
        v.push(
            Op::Gather {
                table: Weight::Embed,
                packed: self.embed_gguf,
                row0: 0,
                ids: Buf::Ids,
                dst: Buf::X,
                rows,
                width: t.hidden,
            },
        );
        v.push(Op::Scale { buf: Buf::X, factor: square_root_of(t.hidden), n: rows * t.hidden });
        assert(v@ =~= before + embed_ops(*t, self.embed_gguf, rows as int));
    }

    fn push_context(&self, v: &mut Vec<Op>, rows: usize)
        requires
            plan::sized(self.cfg.text),
            rows <= CHUNK,
        ensures
            final(v)@ == old(v)@ + context_ops(self.cfg.text, rows as int),
    {
        let ghost before = v@;
        let t: &G4TextCfg = &self.cfg.text;
        proof {
            lemma_chunk(*t, rows as int);
        }
        if t.ple_dim == 0 {
            assert(v@ =~= before + context_ops(*t, rows as int));
            return;
        }
        let slab: usize = t.n_layers * t.ple_dim;
        v.push(
            Op::Gemm {
                weight: Weight::PleModelProj,
                src: Buf::X,
                dst: Buf::Ple,
                rows,
                n: slab,
                k: t.hidden,
            },
        );
        v.push(
            Op::Scale {
                buf: Buf::Ple,
                factor: f32_div(ONE, square_root_of(t.hidden)),
                n: rows * slab,
            },
        );
        v.push(
            Op::RmsNorm {
                src: Buf::Ple,
                row0: 0,
                weight: Some(Weight::PleModelNorm),
                dst: Buf::Ple,
                rows: rows * t.n_layers,
                width: t.ple_dim,
            },
        );
        v.push(Op::Add { dst: Buf::Ple, src: Buf::PleId, n: rows * slab });
        v.push(Op::Scale { buf: Buf::Ple, factor: FRAC_1_SQRT_2, n: rows * slab });
        assert(v@ =~= before + context_ops(*t, rows as int));
    }

    fn push_head(&self, v: &mut Vec<Op>, row: usize, pick: Pick)
        ensures
            final(v)@ == old(v)@ + (head_ops(self.cfg.text, self.embed_gguf, row as int) + pick_ops(
                self.cfg.text,
                pick,
            )),
    {
        let ghost before = v@;
        let t: &G4TextCfg = &self.cfg.text;
        v.push(
            Op::RmsNorm {
                src: Buf::X,
                row0: row,
                weight: Some(Weight::FinalNorm),
                dst: Buf::H,
                rows: 1,
                width: t.hidden,
            },
        );
        let multiply: Op = if self.embed_gguf.is_some() {
            Op::Gemv {
                weight: Weight::Embed,
                bias: None,
                src: Buf::H,
                dst: Buf::LogitsH,
                n: t.vocab,
                k: t.hidden,
                epilogue: Epilogue::Store,
            }
        } else {
            Op::Gemm {
                weight: Weight::Embed,
                src: Buf::H,
                dst: Buf::LogitsH,
                rows: 1,
                n: t.vocab,
                k: t.hidden,
            }
        };
        v.push(multiply);
        match pick {
            Pick::Logits => {
                v.push(Op::Widen { n: t.vocab });
            },
            Pick::Greedy => {
                v.push(Op::Argmax { n: t.vocab, cap: t.softcap });
            },
            Pick::Sample { penalty } => {
                if !Format::F32.eq_value(penalty as u64, ONE as u64) {
                    v.push(Op::Penalty { n: t.vocab, factor: penalty });
                }
                v.push(Op::TopK { n: t.vocab, cap: t.softcap, k: SAMPLE_TOPK });
            },
        }
        assert(v@ =~= before + (head_ops(*t, self.embed_gguf, row as int) + pick_ops(*t, pick)));
    }

    /// The steps before the layers of a chunk of `rows` rows: embeddings, and
    /// after the media rows are in place the per-layer inputs.
    pub fn embed_tokens(&self, rows: usize) -> (r: Vec<Op>)
        requires
            plan::sized(self.cfg.text),
            rows <= CHUNK,
        ensures
            r@ == embed_ops(self.cfg.text, self.embed_gguf, rows as int),
    {
        let mut v: Vec<Op> = Vec::new();
        self.push_embed(&mut v, rows);
        assert(v@ =~= embed_ops(self.cfg.text, self.embed_gguf, rows as int));
        v
    }

    pub fn compute_ple(&self, rows: usize) -> (r: Vec<Op>)
        requires
            plan::sized(self.cfg.text),
            rows <= CHUNK,
        ensures
            r@ == context_ops(self.cfg.text, rows as int),
    {
        let mut v: Vec<Op> = Vec::new();
        self.push_context(&mut v, rows);
        assert(v@ =~= context_ops(self.cfg.text, rows as int));
        v
    }

    /// The head on row `row` of the last chunk.
    pub fn project(&self, row: usize, pick: Pick) -> (r: Vec<Op>)
        ensures
            r@ == head_ops(self.cfg.text, self.embed_gguf, row as int) + pick_ops(self.cfg.text, pick),
    {
        let mut v: Vec<Op> = Vec::new();
        self.push_head(&mut v, row, pick);
        assert(v@ =~= head_ops(self.cfg.text, self.embed_gguf, row as int) + pick_ops(self.cfg.text, pick));
        v
    }

    /// The decode tail of one uploaded token, as it is captured: positions come
    /// from the counter on the device, which moves on at the end. `ple` is
    /// false where per-layer inputs are switched off.
    pub fn enqueue_tail(&self, pick: Pick, ple: bool) -> (r: (Vec<Op>, Vec<Vec<Op>>, Vec<Op>))
        requires
            schedule::runnable(*self),
            self.cfg.text.max_seq >= 1,
        ensures
            ({
                let t = self.cfg.text;
                let c = Pass { rows: 1, pos0: 0, blocks: false, counter: true };
                &&& r.0@ == embed_ops(t, self.embed_gguf, 1) + context_ops(t, 1)
                &&& schedule::op_views(r.1@) == schedule::forward_ops(
                    *self,
                    t.n_layers as int,
                    c,
                    ple,
                )
                &&& r.2@ == head_ops(t, self.embed_gguf, 0) + pick_ops(t, pick) + seq![Op::PosBump]
            }),
    {
        let mut front: Vec<Op> = Vec::new();
        self.push_embed(&mut front, 1);
        self.push_context(&mut front, 1);
        assert(front@ =~= embed_ops(self.cfg.text, self.embed_gguf, 1) + context_ops(
            self.cfg.text,
            1,
        ));
        let layers: Vec<Vec<Op>> = self.forward_chunk(
            Pass { rows: 1, pos0: 0, blocks: false, counter: true },
            ple,
        );
        let mut back: Vec<Op> = Vec::new();
        self.push_head(&mut back, 0, pick);
        back.push(Op::PosBump);
        assert(back@ =~= head_ops(self.cfg.text, self.embed_gguf, 0) + pick_ops(self.cfg.text, pick) + seq![
            Op::PosBump,
        ]);
        (front, layers, back)
    }

    /// Takes one token at position `pos` into account.
    pub fn decode_step(&mut self, pos: usize) -> (r: Result<Pass, FeedError>)
        requires
            pos < usize::MAX,
        ensures
            ({
                let max_seq = old(self).cfg.text.max_seq;
                if pos + 1 > max_seq {
                    r == Err::<Pass, FeedError>(
                        FeedError::Capacity { want: (pos + 1) as usize, max_seq },
                    ) && *final(self) == *old(self)
                } else {
                    &&& r == Ok::<Pass, FeedError>(
                        (Pass { rows: 1, pos0: pos, blocks: false, counter: false }),
                    )
                    &&& final(self).pos == pos + 1
                    &&& final(self).blk_host@ == (if pos < old(self).blk_host@.len() {
                        old(self).blk_host@.take(pos as int)
                    } else {
                        old(self).blk_host@
                    }).push(-1i32)
                    &&& *final(self) == (Gemma4 {
                        pos: final(self).pos,
                        blk_host: final(self).blk_host,
                        ..*old(self)
                    })
                }
            }),
    {
        self.check_capacity(pos + 1)?;
        self.blk_host.truncate(pos);
        self.blk_host.push(-1);
        self.pos = pos + 1;
        Ok(Pass { rows: 1, pos0: pos, blocks: false, counter: false })
    }

    /// Rows of an embedding request.
    pub fn embed_rows(&self, tokens: usize) -> (r: usize)
        ensures
            r == prompt::embedded(tokens as int, self.cfg.text.max_seq as int),
    {
        let a: usize = if tokens <= self.cfg.text.max_seq {
            tokens
        } else {
            self.cfg.text.max_seq
        };
        if a <= CHUNK {
            a
        } else {
            CHUNK
        }
    }

    /// The steps after the layers of an embedding request.
    pub fn embed_pool(&self, rows: usize) -> (r: Vec<Op>)
        ensures
            r@ == pool_ops(self.cfg.text, rows as int),
    {
        let mut v: Vec<Op> = Vec::new();
        v.push(
            Op::RmsNorm {
                src: Buf::X,
                row0: 0,
                weight: Some(Weight::FinalNorm),
                dst: Buf::H,
                rows,
                width: self.cfg.text.hidden,
            },
        );
        v.push(Op::MeanPool { rows, width: self.cfg.text.hidden });
        assert(v@ =~= pool_ops(self.cfg.text, rows as int));
        v
    }

    /// Forgets the sequence. The caches of the computing layers and the
    /// history are zeroed: `r` names the buffers.
    pub fn reset(&mut self) -> (r: Vec<Buf>)
        ensures
            final(self).pos == 0,
            final(self).blk_host@ == Seq::<i32>::empty(),
            *final(self) == (Gemma4 { pos: 0, blk_host: final(self).blk_host, ..*old(self) }),
            r@ == stale(old(self).layers@, old(self).layers@.len() as int) + seq![
                Buf::HistRing,
                Buf::HistCounts,
            ],
    {
        self.pos = 0;
        self.blk_host.clear();
        let mut v: Vec<Buf> = Vec::new();
        let mut i: usize = 0;
        while i < self.layers.len()
            invariant
                i <= self.layers@.len(),
                v@ == stale(self.layers@, i as int),
            decreases self.layers@.len() - i,
        {
            if !self.layers[i].shared {
                v.push(Buf::KCache(i));
                v.push(Buf::VCache(i));
                assert(v@ =~= stale(self.layers@, i as int) + seq![
                    Buf::KCache(i),
                    Buf::VCache(i),
                ]);
            }
            i = i + 1;
        }
        let ghost before = v@;
        v.push(Buf::HistRing);
        v.push(Buf::HistCounts);
        assert(v@ =~= before + seq![Buf::HistRing, Buf::HistCounts]);
        v
    }
}

/// The caches of the computing layers among the first `n`.
pub open spec fn stale(layers: Seq<plan::LayerPlan>, n: int) -> Seq<Buf>
    decreases n,
{
    if n <= 0 {
        Seq::empty()
    } else if layers[n - 1].shared {
        stale(layers, n - 1)
    } else {
        stale(layers, n - 1) + seq![
            Buf::KCache((n - 1) as usize),
            Buf::VCache((n - 1) as usize),
        ]
    }
}

/// After a reset no layer reads what an earlier sequence wrote: the cache that
/// a layer attends over is among those that are zeroed.
pub proof fn law_reset_clears_every_source(g: Gemma4, i: int)
    requires
        schedule::runnable(g),
        0 <= i < g.cfg.text.n_layers,
    ensures
        stale(g.layers@, g.layers@.len() as int).contains(Buf::KCache(g.layers@[i].kv_src)),
        stale(g.layers@, g.layers@.len() as int).contains(Buf::VCache(g.layers@[i].kv_src)),
{
    let t = g.cfg.text;
    assert(plan::is_layer(g.layers@[i], t, i));
    plan::law_sources_compute(t.layer_types@, plan::first_shared(t), i);
    let s = g.layers@[i].kv_src as int;
    assert(plan::is_layer(g.layers@[s], t, s));
    lemma_stale(g.layers@, g.layers@.len() as int, s);
}

proof fn lemma_stale(layers: Seq<plan::LayerPlan>, n: int, s: int)
    requires
        0 <= s < n <= layers.len(),
        n <= usize::MAX,
        !layers[s].shared,
    ensures
        stale(layers, n).contains(Buf::KCache(s as usize)),
        stale(layers, n).contains(Buf::VCache(s as usize)),
    decreases n,
{
    let z = stale(layers, n);
    if s == n - 1 {
        let m = stale(layers, n - 1).len();
        assert(z[m as int] == Buf::KCache(s as usize));
        assert(z[m as int + 1] == Buf::VCache(s as usize));
    } else {
        lemma_stale(layers, n - 1, s);
        let y = stale(layers, n - 1);
        let a = choose|a: int| 0 <= a < y.len() && y[a] == Buf::KCache(s as usize);
        let b = choose|b: int| 0 <= b < y.len() && y[b] == Buf::VCache(s as usize);
        assert(z[a] == y[a]);
        assert(z[b] == y[b]);
    }
}

proof fn lemma_front_fits(g: Gemma4, rows: int)
    requires
        schedule::runnable(g),
        1 <= rows <= CHUNK,
    ensures
        ({
            let t = g.cfg.text;
            let size = |b: Buf| schedule::size_of(g.ws, g.layers@, b);
            &&& ops::all_fit(embed_ops(t, g.embed_gguf, rows), size)
            &&& ops::all_fit(context_ops(t, rows), size)
        }),
{
    let t = g.cfg.text;
    lemma_chunk(t, rows);
    assert((0 + rows * t.n_layers) * t.ple_dim == (rows * t.n_layers) * t.ple_dim);
}

proof fn lemma_head_fits(g: Gemma4, row: int)
    requires
        schedule::runnable(g),
        0 <= row < CHUNK,
    ensures
        ops::all_fit(
            head_ops(g.cfg.text, g.embed_gguf, row),
            |b: Buf| schedule::size_of(g.ws, g.layers@, b),
        ),
{
    let t = g.cfg.text;
    lemma_chunk(t, row + 1);
    let size = |b: Buf| schedule::size_of(g.ws, g.layers@, b);
    let v = head_ops(t, g.embed_gguf, row);
    let norm = v[0];
    assert(ops::extents(norm)[0].bytes == 2 * ((row + 1) * t.hidden));
    assert(ops::extents(norm)[1].bytes == 2 * t.hidden);
    assert(1 * t.hidden == t.hidden && 1 * t.vocab == t.vocab);
    assert(ops::fits(v[0], size));
    assert(ops::fits(v[1], size));
}

proof fn lemma_pick_fits(g: Gemma4, pick: Pick)
    requires
        schedule::runnable(g),
    ensures
        ops::all_fit(
            pick_ops(g.cfg.text, pick),
            |b: Buf| schedule::size_of(g.ws, g.layers@, b),
        ),
{
}

proof fn lemma_pool_fits(g: Gemma4, rows: int)
    requires
        schedule::runnable(g),
        1 <= rows <= CHUNK,
        g.cfg.text.hidden <= g.cfg.text.vocab,
    ensures
        ops::all_fit(
            pool_ops(g.cfg.text, rows),
            |b: Buf| schedule::size_of(g.ws, g.layers@, b),
        ),
{
    let t = g.cfg.text;
    lemma_chunk(t, rows);
    assert((0 + rows) * t.hidden == rows * t.hidden);
}

/// The steps around the layers stay within the workspace, for every row of a
/// chunk; pooling needs a vocabulary no narrower than the hidden state, whose
/// buffer it borrows.
pub proof fn law_feeding_stays_in_its_buffers(g: Gemma4, rows: int, row: int, pick: Pick)
    requires
        schedule::runnable(g),
        1 <= rows <= CHUNK,
        0 <= row < CHUNK,
    ensures
        ({
            let t = g.cfg.text;
            let size = |b: Buf| schedule::size_of(g.ws, g.layers@, b);
            &&& ops::all_fit(embed_ops(t, g.embed_gguf, rows), size)
            &&& ops::all_fit(context_ops(t, rows), size)
            &&& ops::all_fit(head_ops(t, g.embed_gguf, row) + pick_ops(t, pick), size)
            &&& t.hidden <= t.vocab ==> ops::all_fit(pool_ops(t, rows), size)
        }),
{
    let t = g.cfg.text;
    let size = |b: Buf| schedule::size_of(g.ws, g.layers@, b);
    lemma_front_fits(g, rows);
    lemma_head_fits(g, row);
    lemma_pick_fits(g, pick);
    if t.hidden <= t.vocab {
        lemma_pool_fits(g, rows);
    }
    ops::lemma_all_fit_concat(head_ops(t, g.embed_gguf, row), pick_ops(t, pick), size);
}

} // verus!
