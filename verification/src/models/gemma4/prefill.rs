//! Feeding a prompt through the text model: media blocks and chunk cuts.
use vstd::prelude::*;

use crate::models::gemma4::feed;
use crate::models::gemma4::feed::Pick;
use crate::models::gemma4::graph::Gemma4;
use crate::models::ops::Op;
use crate::models::prompt;
use crate::models::prompt::{
    logits_row, splices_of, Chunk, ChunkPlan, FeedError, PreparedPrompt, Splice,
};
use crate::models::CHUNK;

verus! {

/// The largest number of at most `k` rows from `base` on that does not end in
/// block `b`.
pub open spec fn retreat(blk: Seq<i32>, base: int, k: int, b: i32) -> int
    decreases k,
{
    if k <= 0 {
        0
    } else if blk[base + k - 1] == b {
        retreat(blk, base, k - 1, b)
    } else {
        k
    }
}

/// Position `cut` continues the media block of the position before it.
pub open spec fn inside(blk: Seq<i32>, cut: int) -> bool {
    1 <= cut < blk.len() && blk[cut] >= 0 && blk[cut] == blk[cut - 1]
}

/// Rows of the chunk that begins at `base` with `left` rows to go: a full
/// chunk, cut back to the start of a media block that it would split; a block
/// that fills the chunk is split after all.
pub open spec fn chunk_rows(blk: Seq<i32>, base: int, left: int) -> int {
    if left <= CHUNK {
        left
    } else if inside(blk, base + CHUNK) {
        let back = retreat(blk, base, CHUNK as int, blk[base + CHUNK]);
        if back > 0 {
            back
        } else {
            CHUNK as int
        }
    } else {
        CHUNK as int
    }
}

proof fn lemma_retreat(blk: Seq<i32>, base: int, k: int, b: i32)
    requires
        k >= 0,
    ensures
        0 <= retreat(blk, base, k, b) <= k,
        forall|j: int| retreat(blk, base, k, b) <= j < k ==> #[trigger] blk[base + j] == b,
        retreat(blk, base, k, b) > 0 ==> blk[base + retreat(blk, base, k, b) - 1] != b,
    decreases k,
{
    if k > 0 && blk[base + k - 1] == b {
        lemma_retreat(blk, base, k - 1, b);
        let r = retreat(blk, base, k - 1, b);
        assert forall|j: int| r <= j < k implies #[trigger] blk[base + j] == b by {
            if j == k - 1 {
                assert(blk[base + (k - 1)] == b);
            }
        }
    }
}

/// A chunk is never empty, never too long, and splits a media block only where
/// the block fills the whole chunk.
pub proof fn law_cuts_respect_blocks(blk: Seq<i32>, base: int, left: int)
    requires
        base >= 0,
        left >= 1,
    ensures
        1 <= chunk_rows(blk, base, left) <= CHUNK,
        chunk_rows(blk, base, left) <= left,
        ({
            let n = chunk_rows(blk, base, left);
            n < left && inside(blk, base + n) ==> n == CHUNK && forall|j: int|
                0 <= j < CHUNK ==> #[trigger] blk[base + j] == blk[base + CHUNK]
        }),
{
    if left > CHUNK && inside(blk, base + CHUNK) {
        let b = blk[base + CHUNK];
        lemma_retreat(blk, base, CHUNK as int, b);
        let back = retreat(blk, base, CHUNK as int, b);
        if back > 0 && back < CHUNK {
            assert(blk[base + back] == b);
        }
    }
}

/// The chunks of the rows from `done` on.
pub open spec fn cuts(blk: Seq<i32>, pos0: int, n: int, done: int) -> Seq<Chunk>
    decreases n - done,
{
    if done < 0 || done >= n || pos0 < 0 {
        Seq::empty()
    } else {
        let take = chunk_rows(blk, pos0 + done, n - done);
        if take < 1 || take > n - done {
            Seq::empty()
        } else {
            seq![Chunk { start: done as usize, take: take as usize }] + cuts(
                blk,
                pos0,
                n,
                done + take,
            )
        }
    }
}

/// The chunks follow one another without a gap and cover the prompt.
pub proof fn law_chunks_cover_the_prompt(blk: Seq<i32>, pos0: int, n: int, done: int)
    requires
        pos0 >= 0,
        0 <= done <= n <= usize::MAX,
    ensures
        ({
            let cs = cuts(blk, pos0, n, done);
            &&& done < n ==> cs.len() > 0 && cs[0].start == done && cs.last().start
                + cs.last().take == n
            &&& done == n ==> cs.len() == 0
            &&& forall|i: int|
                0 <= i < cs.len() ==> 1 <= (#[trigger] cs[i]).take <= CHUNK
            &&& forall|i: int|
                0 <= i < cs.len() - 1 ==> (#[trigger] cs[i]).start + cs[i].take == cs[i + 1].start
        }),
    decreases n - done,
{
    if done < n {
        law_cuts_respect_blocks(blk, pos0 + done, n - done);
        let take = chunk_rows(blk, pos0 + done, n - done);
        law_chunks_cover_the_prompt(blk, pos0, n, done + take);
        let cs = cuts(blk, pos0, n, done);
        let rest = cuts(blk, pos0, n, done + take);
        assert(cs.len() == rest.len() + 1);
        assert forall|i: int| 0 <= i < cs.len() implies 1 <= (#[trigger] cs[i]).take <= CHUNK by {
            if i > 0 {
                assert(cs[i] == rest[i - 1]);
            }
        }
        assert forall|i: int| 0 <= i < cs.len() - 1 implies (#[trigger] cs[i]).start + cs[i].take
            == cs[i + 1].start by {
            assert(cs[i + 1] == rest[i]);
            if i > 0 {
                assert(cs[i] == rest[i - 1]);
            }
        }
        if rest.len() > 0 {
            assert(cs.last() == rest.last());
        }
    }
}

fn chunk_len(blk: &Vec<i32>, base: usize, left: usize) -> (r: usize)
    requires
        left >= 1,
        base + left <= usize::MAX,
    ensures
        r == chunk_rows(blk@, base as int, left as int),
        1 <= r <= left,
        r <= CHUNK,
{
    proof {
        law_cuts_respect_blocks(blk@, base as int, left as int);
    }
    if left <= CHUNK {
        return left;
    }
    let cut: usize = base + CHUNK;
    if cut < blk.len() && blk[cut] >= 0 && blk[cut] == blk[cut - 1] {
        let b: i32 = blk[cut];
        let mut back: usize = CHUNK;
        while back > 0 && blk[base + (back - 1)] == b
            invariant
                back <= CHUNK,
                cut == base + CHUNK,
                cut < blk@.len(),
                retreat(blk@, base as int, CHUNK as int, b) == retreat(
                    blk@,
                    base as int,
                    back as int,
                    b,
                ),
            decreases back,
        {
            back = back - 1;
        }
        if back > 0 {
            return back;
        }
    }
    CHUNK
}

/// A prefill: whether media blocks are uploaded, and the chunks.
pub struct PrefillPlan {
    pub has_blocks: bool,
    pub chunks: Vec<ChunkPlan>,
}

/// The blocks of all positions after a prompt of `n` tokens at `pos0`.
pub open spec fn blocks_after(blk: Seq<i32>, pos0: int, n: int, ids: Seq<i32>) -> Seq<i32> {
    let kept = if pos0 < blk.len() {
        blk.take(pos0)
    } else {
        blk
    };
    kept + (if ids.len() == 0 {
        Seq::new(n as nat, |i: int| -1i32)
    } else {
        ids
    })
}

pub open spec fn any_block(blk: Seq<i32>) -> bool {
    exists|i: int| 0 <= i < blk.len() && #[trigger] blk[i] >= 0
}

fn has_block(blk: &Vec<i32>) -> (r: bool)
    ensures
        r == any_block(blk@),
{
    let mut i: usize = 0;
    while i < blk.len()
        invariant
            i <= blk@.len(),
            forall|k: int| 0 <= k < i ==> #[trigger] blk@[k] < 0,
        decreases blk@.len() - i,
    {
        if blk[i] >= 0 {
            return true;
        }
        i = i + 1;
    }
    false
}

impl Gemma4 {
    /// The sequence fits the caches.
    pub fn check_capacity(&self, want: usize) -> (r: Result<(), FeedError>)
        ensures
            match r {
                Ok(_) => want <= self.cfg.text.max_seq,
                Err(e) => want > self.cfg.text.max_seq && e == FeedError::Capacity {
                    want,
                    max_seq: self.cfg.text.max_seq,
                },
            },
    {
        if want > self.cfg.text.max_seq {
            return Err(FeedError::Capacity { want, max_seq: self.cfg.text.max_seq });
        }
        Ok(())
    }

    /// Plans a prefill at position `pos0` and takes its media blocks and its
    /// length into account.
    pub fn prefill(&mut self, prompt: &PreparedPrompt, pos0: usize) -> (r: Result<
        PrefillPlan,
        FeedError,
    >)
        requires
            pos0 + prompt.tokens@.len() <= usize::MAX,
            prompt.block_ids@.len() == 0 || prompt.block_ids@.len() == prompt.tokens@.len(),
            forall|i: int|
                0 <= i < prompt.media_embeds@.len() ==> (#[trigger] prompt.media_embeds@[i]).at
                    + prompt.media_embeds@[i].rows <= usize::MAX,
            old(self).blk_host@.len() + prompt.tokens@.len() <= usize::MAX,
        ensures
            *final(self) == (Gemma4 {
                pos: final(self).pos,
                blk_host: final(self).blk_host,
                ..*old(self)
            }),
            ({
                let n = prompt.tokens@.len() as int;
                let max_seq = old(self).cfg.text.max_seq;
                let blk = blocks_after(old(self).blk_host@, pos0 as int, n, prompt.block_ids@);
                if n == 0 {
                    r == Err::<PrefillPlan, FeedError>(FeedError::Empty) && *final(self) == *old(
                        self,
                    )
                } else if pos0 + n > max_seq {
                    r == Err::<PrefillPlan, FeedError>(
                        FeedError::Capacity { want: (pos0 + n) as usize, max_seq },
                    ) && *final(self) == *old(self)
                } else {
                    &&& final(self).blk_host@ == blk
                    &&& final(self).pos == pos0 + n
                    &&& r matches Ok(p)
                    &&& p.has_blocks == any_block(blk)
                    &&& prompt::chunks_of(p.chunks@) == cuts(blk, pos0 as int, n, 0)
                    &&& p.chunks@.len() > 0
                    &&& p.chunks@.last().chunk.take >= 1
                    &&& p.chunks@.last().chunk.start + p.chunks@.last().chunk.take == n
                    &&& forall|i: int|
                        0 <= i < p.chunks@.len() ==> (#[trigger] p.chunks@[i]).splices@
                            == prompt::splices(
                            prompt.media_embeds@,
                            prompt.media_embeds@.len() as int,
                            p.chunks@[i].chunk,
                        )
                }
            }),
    {
        let n: usize = prompt.tokens.len();
        if n == 0 {
            return Err(FeedError::Empty);
        }
        self.check_capacity(pos0 + n)?;
        let ghost blk0 = self.blk_host@;
        self.blk_host.truncate(pos0);
        if prompt.block_ids.len() == 0 {
            let mut i: usize = 0;
            let ghost kept = self.blk_host@;
            assert(kept =~= kept + Seq::new(0nat, |i: int| -1i32));
            while i < n
                invariant
                    i <= n,
                    *self == (Gemma4 { blk_host: self.blk_host, ..*old(self) }),
                    self.blk_host@ == kept + Seq::new(i as nat, |i: int| -1i32),
                decreases n - i,
            {
                let ghost before = self.blk_host@;
                self.blk_host.push(-1);
                assert(self.blk_host@ =~= kept + Seq::new((i + 1) as nat, |i: int| -1i32));
                i = i + 1;
            }
        } else {
            self.blk_host.extend_from_slice(prompt.block_ids.as_slice());
        }
        assert(self.blk_host@ =~= blocks_after(blk0, pos0 as int, n as int, prompt.block_ids@));
        let ghost blk = self.blk_host@;
        let has_blocks: bool = has_block(&self.blk_host);
        let mut chunks: Vec<ChunkPlan> = Vec::new();
        let mut done: usize = 0;
        assert(prompt::chunks_of(chunks@) =~= Seq::empty());
        assert(prompt::chunks_of(chunks@) + cuts(blk, pos0 as int, n as int, 0) =~= cuts(
            blk,
            pos0 as int,
            n as int,
            0,
        ));
        while done < n
            invariant
                done <= n,
                n == prompt.tokens@.len(),
                pos0 + n <= usize::MAX,
                self.blk_host@ == blk,
                *self == (Gemma4 { blk_host: self.blk_host, ..*old(self) }),
                forall|i: int|
                    0 <= i < prompt.media_embeds@.len() ==> (#[trigger] prompt.media_embeds@[i]).at
                        + prompt.media_embeds@[i].rows <= usize::MAX,
                prompt::chunks_of(chunks@) + cuts(blk, pos0 as int, n as int, done as int) == cuts(
                    blk,
                    pos0 as int,
                    n as int,
                    0,
                ),
                forall|i: int|
                    0 <= i < chunks@.len() ==> (#[trigger] chunks@[i]).splices@ == prompt::splices(
                        prompt.media_embeds@,
                        prompt.media_embeds@.len() as int,
                        chunks@[i].chunk,
                    ),
            decreases n - done,
        {
            let take: usize = chunk_len(&self.blk_host, pos0 + done, n - done);
            let c: Chunk = Chunk { start: done, take };
            let sp: Vec<Splice> = splices_of(&prompt.media_embeds, c);
            let ghost before = prompt::chunks_of(chunks@);
            chunks.push(ChunkPlan { chunk: c, splices: sp });
            proof {
                assert(prompt::chunks_of(chunks@) =~= before.push(c));
                let rest = cuts(blk, pos0 as int, n as int, done + take);
                assert(cuts(blk, pos0 as int, n as int, done as int) == seq![c] + rest);
                assert(before.push(c) + rest =~= before + (seq![c] + rest));
            }
            done = done + take;
        }
        proof {
            assert(cuts(blk, pos0 as int, n as int, done as int).len() == 0);
            assert(prompt::chunks_of(chunks@) =~= cuts(blk, pos0 as int, n as int, 0));
            law_chunks_cover_the_prompt(blk, pos0 as int, n as int, 0);
            assert(prompt::chunks_of(chunks@).last() == chunks@.last().chunk);
        }
        self.pos = pos0 + n;
        Ok(PrefillPlan { has_blocks, chunks })
    }

    /// The head after a prefill: on the last row of the last chunk.
    pub fn project_last(&self, chunks: &Vec<ChunkPlan>, pick: Pick) -> (r: Vec<Op>)
        requires
            chunks@.len() > 0,
            chunks@.last().chunk.take >= 1,
        ensures
            r@ == feed::head_ops(
                self.cfg.text,
                self.embed_gguf,
                chunks@.last().chunk.take - 1,
            ) + feed::pick_ops(self.cfg.text, pick),
    {
        self.project(logits_row(chunks), pick)
    }

    /// A prefill whose token the device picks: the plan, and the head on the
    /// row whose logits the same prefill yields.
    pub fn prefill_argmax(&mut self, prompt: &PreparedPrompt, pos0: usize) -> (r: Result<
        (PrefillPlan, Vec<Op>),
        FeedError,
    >)
        requires
            pos0 + prompt.tokens@.len() <= usize::MAX,
            prompt.block_ids@.len() == 0 || prompt.block_ids@.len() == prompt.tokens@.len(),
            forall|i: int|
                0 <= i < prompt.media_embeds@.len() ==> (#[trigger] prompt.media_embeds@[i]).at
                    + prompt.media_embeds@[i].rows <= usize::MAX,
            old(self).blk_host@.len() + prompt.tokens@.len() <= usize::MAX,
        ensures
            *final(self) == (Gemma4 {
                pos: final(self).pos,
                blk_host: final(self).blk_host,
                ..*old(self)
            }),
            ({
                let n = prompt.tokens@.len() as int;
                let t = old(self).cfg.text;
                let blk = blocks_after(old(self).blk_host@, pos0 as int, n, prompt.block_ids@);
                let cs = cuts(blk, pos0 as int, n, 0);
                if n == 0 {
                    r == Err::<(PrefillPlan, Vec<Op>), FeedError>(FeedError::Empty)
                        && *final(self) == *old(self)
                } else if pos0 + n > t.max_seq {
                    r == Err::<(PrefillPlan, Vec<Op>), FeedError>(
                        FeedError::Capacity { want: (pos0 + n) as usize, max_seq: t.max_seq },
                    ) && *final(self) == *old(self)
                } else {
                    &&& final(self).blk_host@ == blk
                    &&& final(self).pos == pos0 + n
                    &&& r matches Ok(p)
                    &&& p.0.has_blocks == any_block(blk)
                    &&& prompt::chunks_of(p.0.chunks@) == cs
                    &&& p.1@ == feed::head_ops(t, old(self).embed_gguf, cs.last().take - 1)
                        + feed::pick_ops(t, Pick::Greedy)
                    &&& forall|i: int|
                        0 <= i < p.0.chunks@.len() ==> (#[trigger] p.0.chunks@[i]).splices@
                            == prompt::splices(
                            prompt.media_embeds@,
                            prompt.media_embeds@.len() as int,
                            p.0.chunks@[i].chunk,
                        )
                }
            }),
    {
        match self.prefill(prompt, pos0) {
            Ok(plan) => {
                let ops: Vec<Op> = self.project_last(&plan.chunks, Pick::Greedy);
                assert(prompt::chunks_of(plan.chunks@).last() == plan.chunks@.last().chunk);
                Ok((plan, ops))
            },
            Err(e) => Err(e),
        }
    }
}

/// A prefill at any position yields the logits of the prompt's last token,
/// wherever media blocks move the seams: the last row of the last chunk holds
/// it.
pub proof fn law_logits_are_of_the_last_token(blk: Seq<i32>, pos0: int, n: int)
    requires
        pos0 >= 0,
        1 <= n <= usize::MAX,
    ensures
        cuts(blk, pos0, n, 0).len() > 0,
        ({
            let c = cuts(blk, pos0, n, 0).last();
            c.take >= 1 && pos0 + c.start + (c.take - 1) == pos0 + n - 1
        }),
{
    law_chunks_cover_the_prompt(blk, pos0, n, 0);
}

} // verus!
