//! Feeding tokens through the dense decoder.
use vstd::prelude::*;

use crate::ieee::Format;
use crate::models::gemma4::feed::Pick;
use crate::models::ops;
use crate::models::ops::Op;
use crate::models::prompt;
use crate::models::prompt::{
    logits_row, splices_of, Chunk, ChunkPlan, FeedError, PreparedPrompt, Splice,
};
use crate::models::sampler;
use crate::models::transformer::graph::Transformer;
use crate::models::transformer::schedule;
use crate::models::transformer::schedule::Pass;
use crate::models::CHUNK;

verus! {

/// Full chunks, and one for the rest.
pub open spec fn cuts(n: int, done: int) -> Seq<Chunk>
    decreases n - done,
{
    if done < 0 || done >= n {
        Seq::empty()
    } else {
        let take = if n - done <= CHUNK {
            n - done
        } else {
            CHUNK as int
        };
        seq![Chunk { start: done as usize, take: take as usize }] + cuts(n, done + take)
    }
}

/// The chunks follow one another without a gap and cover the prompt.
pub proof fn law_chunks_cover_the_prompt(n: int, done: int)
    requires
        0 <= done < n <= usize::MAX,
    ensures
        ({
            let cs = cuts(n, done);
            &&& cs.len() > 0
            &&& cs[0].start == done
            &&& cs.last().start + cs.last().take == n
            &&& forall|i: int| 0 <= i < cs.len() ==> 1 <= (#[trigger] cs[i]).take <= CHUNK
            &&& forall|i: int|
                0 <= i < cs.len() - 1 ==> (#[trigger] cs[i]).start + cs[i].take == cs[i + 1].start
        }),
    decreases n - done,
{
    let cs = cuts(n, done);
    if n - done <= CHUNK {
        assert(cuts(n, n).len() == 0);
        assert(cs.len() == 1);
    } else {
        let rest = cuts(n, done + CHUNK);
        law_chunks_cover_the_prompt(n, done + CHUNK);
        assert(cs.last() == rest.last());
        assert forall|i: int| 0 <= i < cs.len() implies 1 <= (#[trigger] cs[i]).take <= CHUNK by {
            if i > 0 {
                assert(cs[i] == rest[i - 1]);
            }
        }
        assert forall|i: int| 0 <= i < cs.len() - 1 implies (#[trigger] cs[i]).start + cs[i].take
            == cs[i + 1].start by {
            assert(cs[i + 1] == rest[i]);
            if i > 0 {
                assert(cs[i] == rest[i - 1]);
            }
        }
    }
}

/// A prefill at any position yields the logits of the prompt's last token: the
/// last row of the last chunk holds it.
pub proof fn law_logits_are_of_the_last_token(pos0: int, n: int)
    requires
        pos0 >= 0,
        1 <= n <= usize::MAX,
    ensures
        cuts(n, 0).len() > 0,
        ({
            let c = cuts(n, 0).last();
            c.take >= 1 && pos0 + c.start + (c.take - 1) == pos0 + n - 1
        }),
{
    law_chunks_cover_the_prompt(n, 0);
}

/// A greedy prefill picks from the logits that the prefill yields, at any
/// position: both project the row of the prompt's last token, one to read the
/// logits back, the other to pick among them uncapped. Over logits without NaN
/// the picked token has the greatest of those that are read back, and is the
/// token that greedy sampling takes from them.
pub proof fn law_greedy_prefill_picks_the_greatest_logit(
    g: Transformer,
    pos0: int,
    n: int,
    h: Seq<u16>,
    id: int,
)
    requires
        pos0 >= 0,
        1 <= n <= usize::MAX,
        h.len() == g.cfg.vocab_size,
        forall|i: int| 0 <= i < h.len() ==> !Format::F16.is_nan(#[trigger] h[i] as int),
        ops::greatest(h, id),
    ensures
        ({
            let c = cuts(n, 0).last();
            let row = c.take - 1;
            let l = ops::widened(h);
            &&& row >= 0
            &&& pos0 + c.start + row == pos0 + n - 1
            &&& schedule::pick_ops(g.cfg, Pick::Logits) == seq![Op::Widen { n: g.cfg.vocab_size }]
            &&& schedule::pick_ops(g.cfg, Pick::Greedy) == seq![
                Op::Argmax { n: g.cfg.vocab_size, cap: 0 },
            ]
            &&& forall|j: int|
                0 <= j < l.len() ==> sampler::at_most(#[trigger] l[j] as int, l[id] as int)
            &&& sampler::best(l, l.len() as int) == id
        }),
{
    law_logits_are_of_the_last_token(pos0, n);
    sampler::law_device_pick_is_the_greatest_logit(h, id);
}

/// The hidden state is wider than the buffer that it is pooled into.
#[derive(Clone, Copy, PartialEq, Eq, Debug, Structural)]
pub struct NoPool {
    pub hidden: usize,
}

impl Transformer {
    /// The sequence fits the caches.
    pub fn check_capacity(&self, want: usize) -> (r: Result<(), FeedError>)
        ensures
            match r {
                Ok(_) => want <= self.cfg.max_seq,
                Err(e) => want > self.cfg.max_seq && e == FeedError::Capacity {
                    want,
                    max_seq: self.cfg.max_seq,
                },
            },
    {
        if want > self.cfg.max_seq {
            return Err(FeedError::Capacity { want, max_seq: self.cfg.max_seq });
        }
        Ok(())
    }

    /// Plans a prefill at position `pos0` and takes its length into account.
    pub fn prefill(&mut self, prompt: &PreparedPrompt, pos0: usize) -> (r: Result<
        Vec<ChunkPlan>,
        FeedError,
    >)
        requires
            pos0 + prompt.tokens@.len() <= usize::MAX,
            forall|i: int|
                0 <= i < prompt.media_embeds@.len() ==> (#[trigger] prompt.media_embeds@[i]).at
                    + prompt.media_embeds@[i].rows <= usize::MAX,
        ensures
            ({
                let n = prompt.tokens@.len() as int;
                let max_seq = old(self).cfg.max_seq;
                if n == 0 {
                    r == Err::<Vec<ChunkPlan>, FeedError>(FeedError::Empty) && *final(self) == *old(
                        self,
                    )
                } else if pos0 + n > max_seq {
                    r == Err::<Vec<ChunkPlan>, FeedError>(
                        FeedError::Capacity { want: (pos0 + n) as usize, max_seq },
                    ) && *final(self) == *old(self)
                } else {
                    &&& *final(self) == (Transformer { pos: (pos0 + n) as usize, ..*old(self) })
                    &&& r matches Ok(cs)
                    &&& prompt::chunks_of(cs@) == cuts(n, 0)
                    &&& cs@.len() > 0
                    &&& cs@.last().chunk.take >= 1
                    &&& cs@.last().chunk.start + cs@.last().chunk.take == n
                    &&& forall|i: int|
                        0 <= i < cs@.len() ==> (#[trigger] cs@[i]).splices@ == prompt::splices(
                            prompt.media_embeds@,
                            prompt.media_embeds@.len() as int,
                            cs@[i].chunk,
                        )
                }
            }),
    {
        let n: usize = prompt.tokens.len();
        if n == 0 {
            return Err(FeedError::Empty);
        }
        self.check_capacity(pos0 + n)?;
        let mut chunks: Vec<ChunkPlan> = Vec::new();
        let mut done: usize = 0;
        assert(prompt::chunks_of(chunks@) + cuts(n as int, 0) =~= cuts(n as int, 0));
        while done < n
            invariant
                done <= n,
                n == prompt.tokens@.len(),
                forall|i: int|
                    0 <= i < prompt.media_embeds@.len() ==> (#[trigger] prompt.media_embeds@[i]).at
                        + prompt.media_embeds@[i].rows <= usize::MAX,
                prompt::chunks_of(chunks@) + cuts(n as int, done as int) == cuts(n as int, 0),
                forall|i: int|
                    0 <= i < chunks@.len() ==> (#[trigger] chunks@[i]).splices@ == prompt::splices(
                        prompt.media_embeds@,
                        prompt.media_embeds@.len() as int,
                        chunks@[i].chunk,
                    ),
            decreases n - done,
        {
            let take: usize = if n - done <= CHUNK {
                n - done
            } else {
                CHUNK
            };
            let c: Chunk = Chunk { start: done, take };
            let sp: Vec<Splice> = splices_of(&prompt.media_embeds, c);
            let ghost before = prompt::chunks_of(chunks@);
            chunks.push(ChunkPlan { chunk: c, splices: sp });
            proof {
                assert(prompt::chunks_of(chunks@) =~= before.push(c));
                let rest = cuts(n as int, done + take);
                assert(cuts(n as int, done as int) == seq![c] + rest);
                assert(before.push(c) + rest =~= before + (seq![c] + rest));
            }
            done = done + take;
        }
        proof {
            assert(cuts(n as int, done as int).len() == 0);
            assert(prompt::chunks_of(chunks@) =~= cuts(n as int, 0));
            law_chunks_cover_the_prompt(n as int, 0);
            assert(prompt::chunks_of(chunks@).last() == chunks@.last().chunk);
        }
        self.pos = pos0 + n;
        Ok(chunks)
    }

    /// The head after a prefill: on the last row of the last chunk.
    pub fn project_last(&self, chunks: &Vec<ChunkPlan>, pick: Pick) -> (r: Vec<Op>)
        requires
            chunks@.len() > 0,
            chunks@.last().chunk.take >= 1,
        ensures
            r@ == schedule::head_ops(*self, chunks@.last().chunk.take - 1) + schedule::pick_ops(
                self.cfg,
                pick,
            ),
    {
        self.project(logits_row(chunks), pick)
    }

    /// A prefill whose token the device picks: the chunks, and the head on the
    /// row whose logits the same prefill yields.
    pub fn prefill_argmax(&mut self, prompt: &PreparedPrompt, pos0: usize) -> (r: Result<
        (Vec<ChunkPlan>, Vec<Op>),
        FeedError,
    >)
        requires
            pos0 + prompt.tokens@.len() <= usize::MAX,
            forall|i: int|
                0 <= i < prompt.media_embeds@.len() ==> (#[trigger] prompt.media_embeds@[i]).at
                    + prompt.media_embeds@[i].rows <= usize::MAX,
        ensures
            ({
                let n = prompt.tokens@.len() as int;
                let max_seq = old(self).cfg.max_seq;
                if n == 0 {
                    r == Err::<(Vec<ChunkPlan>, Vec<Op>), FeedError>(FeedError::Empty)
                        && *final(self) == *old(self)
                } else if pos0 + n > max_seq {
                    r == Err::<(Vec<ChunkPlan>, Vec<Op>), FeedError>(
                        FeedError::Capacity { want: (pos0 + n) as usize, max_seq },
                    ) && *final(self) == *old(self)
                } else {
                    &&& *final(self) == (Transformer { pos: (pos0 + n) as usize, ..*old(self) })
                    &&& r matches Ok(p)
                    &&& prompt::chunks_of(p.0@) == cuts(n, 0)
                    &&& p.1@ == schedule::head_ops(*final(self), cuts(n, 0).last().take - 1)
                        + schedule::pick_ops(old(self).cfg, Pick::Greedy)
                    &&& forall|i: int|
                        0 <= i < p.0@.len() ==> (#[trigger] p.0@[i]).splices@ == prompt::splices(
                            prompt.media_embeds@,
                            prompt.media_embeds@.len() as int,
                            p.0@[i].chunk,
                        )
                }
            }),
    {
        match self.prefill(prompt, pos0) {
            Ok(chunks) => {
                let ops: Vec<Op> = self.project_last(&chunks, Pick::Greedy);
                assert(prompt::chunks_of(chunks@).last() == chunks@.last().chunk);
                Ok((chunks, ops))
            },
            Err(e) => Err(e),
        }
    }

    /// Takes one token at position `pos` into account.
    pub fn decode_step(&mut self, pos: usize) -> (r: Result<Pass, FeedError>)
        requires
            pos < usize::MAX,
        ensures
            ({
                let max_seq = old(self).cfg.max_seq;
                if pos + 1 > max_seq {
                    r == Err::<Pass, FeedError>(
                        FeedError::Capacity { want: (pos + 1) as usize, max_seq },
                    ) && *final(self) == *old(self)
                } else {
                    &&& r == Ok::<Pass, FeedError>((Pass { rows: 1, pos0: pos, counter: false }))
                    &&& *final(self) == (Transformer { pos: (pos + 1) as usize, ..*old(self) })
                }
            }),
    {
        self.check_capacity(pos + 1)?;
        self.pos = pos + 1;
        Ok(Pass { rows: 1, pos0: pos, counter: false })
    }

    /// Rows of an embedding request; the sequence is forgotten.
    pub fn embed(&mut self, tokens: usize) -> (r: Result<usize, NoPool>)
        ensures
            *final(self) == (Transformer { pos: 0, ..*old(self) }),
            ({
                let c = old(self).cfg;
                match r {
                    Ok(n) => {
                        &&& c.hidden_size * 4 <= old(self).ws.logits_f
                        &&& n == prompt::embedded(tokens as int, c.max_seq as int)
                    },
                    Err(e) => c.hidden_size * 4 > old(self).ws.logits_f && e.hidden
                        == c.hidden_size,
                }
            }),
    {
        self.pos = 0;
        if self.cfg.hidden_size > self.ws.logits_f / 4 {
            return Err(NoPool { hidden: self.cfg.hidden_size });
        }
        let a: usize = if tokens <= self.cfg.max_seq {
            tokens
        } else {
            self.cfg.max_seq
        };
        if a <= CHUNK {
            Ok(a)
        } else {
            Ok(CHUNK)
        }
    }

    /// Forgets the sequence.
    pub fn reset(&mut self)
        ensures
            *final(self) == (Transformer { pos: 0, ..*old(self) }),
    {
        self.pos = 0;
    }
}

} // verus!
