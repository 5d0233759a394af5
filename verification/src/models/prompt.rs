//! Prompts as models consume them: tokens in chunks, media rows in their
//! places, and the history that sampling starts from.
use vstd::prelude::*;

use crate::models::CHUNK;

verus! {

/// Encoded media: `rows` rows that replace the embeddings from position `at`
/// of the prompt on.
#[derive(Clone, Copy, PartialEq, Eq, Debug, Structural)]
pub struct MediaRows {
    pub at: usize,
    pub ptr: u64,
    pub rows: usize,
}

/// A tokenized prompt with its media. `block_ids` is empty or names the media
/// block of every token, `-1` outside blocks.
pub struct PreparedPrompt {
    pub tokens: Vec<u32>,
    pub media_embeds: Vec<MediaRows>,
    pub block_ids: Vec<i32>,
}

/// Tokens `start..start + take` of a prompt.
#[derive(Clone, Copy, PartialEq, Eq, Debug, Structural)]
pub struct Chunk {
    pub start: usize,
    pub take: usize,
}

/// Why a prompt cannot be fed.
#[derive(Clone, Copy, PartialEq, Eq, Debug, Structural)]
pub enum FeedError {
    Empty,
    /// The sequence is longer than the caches.
    Capacity { want: usize, max_seq: usize },
}

/// The rows of a media span that fall into a chunk.
#[derive(Clone, Copy, PartialEq, Eq, Debug, Structural)]
pub struct Splice {
    pub media: usize,
    pub src_row: usize,
    pub dst_row: usize,
    pub rows: usize,
}

/// The overlap of media span `k` with a chunk.
pub open spec fn overlap(m: MediaRows, k: int, c: Chunk) -> Option<Splice> {
    let end = m.at + m.rows;
    let c1 = c.start + c.take;
    if end > c.start && m.at < c1 {
        let s = if m.at >= c.start {
            m.at as int
        } else {
            c.start as int
        };
        let e = if end <= c1 {
            end
        } else {
            c1
        };
        Some(
            Splice {
                media: k as usize,
                src_row: (s - m.at) as usize,
                dst_row: (s - c.start) as usize,
                rows: (e - s) as usize,
            },
        )
    } else {
        None
    }
}

/// The splices of the first `n` media spans into a chunk.
pub open spec fn splices(ms: Seq<MediaRows>, n: int, c: Chunk) -> Seq<Splice>
    decreases n,
{
    if n <= 0 {
        Seq::empty()
    } else {
        match overlap(ms[n - 1], n - 1, c) {
            Some(s) => splices(ms, n - 1, c).push(s),
            None => splices(ms, n - 1, c),
        }
    }
}

/// Every media row lands at its own position: row `j` of a span is spliced
/// into the chunk that holds position `at + j`, at that position, and into no
/// other chunk.
pub proof fn law_media_rows_land_in_place(m: MediaRows, k: int, c: Chunk, j: int)
    requires
        0 <= j < m.rows,
        m.at + m.rows <= usize::MAX,
        c.start + c.take <= usize::MAX,
        0 <= k <= usize::MAX,
    ensures
        ({
            let p = m.at + j;
            let held = c.start <= p < c.start + c.take;
            match overlap(m, k, c) {
                Some(s) => {
                    &&& s.media == k
                    &&& (s.src_row <= j < s.src_row + s.rows) == held
                    &&& held ==> s.dst_row + (j - s.src_row) == p - c.start
                    &&& s.src_row + s.rows <= m.rows
                    &&& s.dst_row + s.rows <= c.take
                },
                None => !held,
            }
        }),
{
}

pub(crate) fn splices_of(ms: &Vec<MediaRows>, c: Chunk) -> (r: Vec<Splice>)
    requires
        c.start + c.take <= usize::MAX,
        forall|i: int|
            0 <= i < ms@.len() ==> (#[trigger] ms@[i]).at + ms@[i].rows <= usize::MAX,
    ensures
        r@ == splices(ms@, ms@.len() as int, c),
{
    let mut out: Vec<Splice> = Vec::new();
    let mut i: usize = 0;
    while i < ms.len()
        invariant
            i <= ms@.len(),
            c.start + c.take <= usize::MAX,
            forall|k: int|
                0 <= k < ms@.len() ==> (#[trigger] ms@[k]).at + ms@[k].rows <= usize::MAX,
            out@ == splices(ms@, i as int, c),
        decreases ms@.len() - i,
    {
        let m: MediaRows = ms[i];
        assert(ms@[i as int] == m);
        let end: usize = m.at + m.rows;
        let c1: usize = c.start + c.take;
        if end > c.start && m.at < c1 {
            let s: usize = if m.at >= c.start {
                m.at
            } else {
                c.start
            };
            let e: usize = if end <= c1 {
                end
            } else {
                c1
            };
            out.push(
                Splice { media: i, src_row: s - m.at, dst_row: s - c.start, rows: e - s },
            );
        }
        i = i + 1;
    }
    out
}

/// One chunk of a prefill.
pub struct ChunkPlan {
    pub chunk: Chunk,
    pub splices: Vec<Splice>,
}

pub open spec fn chunks_of(v: Seq<ChunkPlan>) -> Seq<Chunk> {
    Seq::new(v.len(), |i: int| v[i].chunk)
}

/// Tokens of an embedding request that are embedded: what fits one chunk and
/// the sequence.
pub open spec fn embedded(tokens: int, max_seq: int) -> int {
    let n = if tokens <= max_seq {
        tokens
    } else {
        max_seq
    };
    if n <= CHUNK {
        n
    } else {
        CHUNK as int
    }
}

/// The row of the last chunk whose logits a prefill yields: its last one,
/// wherever the chunks were cut. A greedy pick on the device reads the same
/// row.
pub fn logits_row(chunks: &Vec<ChunkPlan>) -> (r: usize)
    requires
        chunks@.len() > 0,
        chunks@.last().chunk.take >= 1,
    ensures
        r == chunks@.last().chunk.take - 1,
{
    chunks[chunks.len() - 1].chunk.take - 1
}

/// What seeds the sampling history: the last tokens, at most 64, each at its
/// position, before `next_pos`.
pub open spec fn seeds(history: Seq<u32>, next_pos: int) -> Seq<(usize, u32)> {
    let a = if history.len() <= next_pos {
        history.len() as int
    } else {
        next_pos
    };
    let k = if a <= 64 {
        a
    } else {
        64
    };
    Seq::new(
        k as nat,
        |j: int| ((next_pos - k + j) as usize, history[history.len() - k + j]),
    )
}

pub fn hist_seeds(history: &[u32], next_pos: usize) -> (r: Vec<(usize, u32)>)
    ensures
        r@ == seeds(history@, next_pos as int),
{
    let n: usize = history.len();
    let a: usize = if n <= next_pos {
        n
    } else {
        next_pos
    };
    let k: usize = if a <= 64 {
        a
    } else {
        64
    };
    let mut out: Vec<(usize, u32)> = Vec::new();
    let mut j: usize = 0;
    while j < k
        invariant
            j <= k <= n,
            k <= next_pos,
            n == history@.len(),
            out@.len() == j,
            forall|i: int|
                0 <= i < j ==> #[trigger] out@[i] == ((next_pos - k + i) as usize, history@[n - k
                    + i]),
        decreases k - j,
    {
        out.push((next_pos - k + j, history[n - k + j]));
        j = j + 1;
    }
    assert(out@ =~= seeds(history@, next_pos as int));
    out
}

} // verus!
