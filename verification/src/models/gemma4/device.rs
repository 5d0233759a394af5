//! Decoding with captured steps.
use vstd::prelude::*;

use crate::models::capture;
use crate::models::capture::{reset_and_seed, Arming, Captures, Launch};
use crate::models::gemma4::graph::Gemma4;
use crate::models::gemma4::schedule::Pass;
use crate::models::ops::{Buf, Op};
use crate::models::prompt::FeedError;

verus! {

/// The graph after one token at `pos`.
pub open spec fn stepped(before: Gemma4, after: Gemma4, pos: int) -> bool {
    &&& after.pos == pos + 1
    &&& after.blk_host@ == (if pos < before.blk_host@.len() {
        before.blk_host@.take(pos)
    } else {
        before.blk_host@
    }).push(-1i32)
    &&& after == (Gemma4 { pos: after.pos, blk_host: after.blk_host, ..before })
}

impl Gemma4 {
    /// The greedy step is captured once.
    pub fn arm_decode_graph(&self, pos: usize, off: bool) -> (r: Arming)
        ensures
            r.counter == pos as u32,
            r.capture == (!self.captures.decode && !off),
    {
        Arming { counter: pos as u32, capture: !self.captures.decode && !off }
    }

    /// The greedy step was captured, or could not be.
    pub fn keep_decode_graph(&mut self, ok: bool)
        ensures
            *final(self) == (Gemma4 {
                captures: Captures {
                    decode: old(self).captures.decode || ok,
                    ..old(self).captures
                },
                ..*old(self)
            }),
    {
        self.captures.decode = self.captures.decode || ok;
    }

    /// The sampling step is captured anew when the penalty changes.
    pub fn arm_sample_graph(&mut self, pos: usize, penalty: u32, off: bool) -> (r: Arming)
        ensures
            r.counter == pos as u32,
            r.capture == (!off && !capture::applies(old(self).captures.sample, penalty)),
            *final(self) == (Gemma4 {
                captures: capture::armed(old(self).captures, penalty, off),
                ..*old(self)
            }),
    {
        let capture: bool = self.captures.arm_sample(penalty, off);
        Arming { counter: pos as u32, capture }
    }

    pub fn keep_sample_graph(&mut self, penalty: u32, ok: bool)
        ensures
            *final(self) == (Gemma4 {
                captures: capture::kept(old(self).captures, penalty, ok),
                ..*old(self)
            }),
    {
        self.captures.keep_sample(penalty, ok);
    }

    pub fn decode_graph_active(&self) -> (r: bool)
        ensures
            r == self.captures.decode,
    {
        self.captures.decode
    }

    pub fn sample_graph_active(&self) -> (r: bool)
        ensures
            r == (self.captures.sample is Some),
    {
        self.captures.sample.is_some()
    }

    /// One greedy token at `pos`: a replay where the step was captured.
    pub fn decode_step_argmax(&mut self, pos: usize) -> (r: Result<Launch<Pass>, FeedError>)
        requires
            pos < usize::MAX,
        ensures
            ({
                let max_seq = old(self).cfg.text.max_seq;
                if pos + 1 > max_seq {
                    &&& r matches Err(e) && e == (FeedError::Capacity {
                        want: (pos + 1) as usize,
                        max_seq,
                    })
                    &&& *final(self) == *old(self)
                } else {
                    &&& stepped(*old(self), *final(self), pos as int)
                    &&& r matches Ok(l) && l == (if old(self).captures.decode {
                        Launch::Replay
                    } else {
                        Launch::Steps(
                            Pass { rows: 1, pos0: pos, blocks: false, counter: false },
                        )
                    })
                }
            }),
    {
        match self.decode_step(pos) {
            Err(e) => Err(e),
            Ok(p) => if self.captures.decode {
                Ok(Launch::Replay)
            } else {
                Ok(Launch::Steps(p))
            },
        }
    }

    /// One sampled token at `pos`, replayed: `r` is the step in front of the
    /// replay, which puts the token into the ring.
    pub fn decode_step_sample(&mut self, pos: usize) -> (r: Result<Op, FeedError>)
        requires
            pos < usize::MAX,
            old(self).captures.sample is Some,
        ensures
            ({
                let max_seq = old(self).cfg.text.max_seq;
                if pos + 1 > max_seq {
                    &&& r == Err::<Op, FeedError>(
                        FeedError::Capacity { want: (pos + 1) as usize, max_seq },
                    )
                    &&& *final(self) == *old(self)
                } else {
                    &&& stepped(*old(self), *final(self), pos as int)
                    &&& r == Ok::<Op, FeedError>((Op::HistPush { pos: 0, counter: true }))
                }
            }),
    {
        match self.decode_step(pos) {
            Err(e) => Err(e),
            Ok(_) => Ok(Op::HistPush { pos: 0, counter: true }),
        }
    }

    /// Makes the device's window that of `history`, in front of `next_pos`.
    pub fn hist_reset_and_seed(&self, history: &[u32], next_pos: usize) -> (r: (
        Vec<Buf>,
        Vec<(u32, Op)>,
    ))
        ensures
            r.0@ == seq![Buf::HistRing, Buf::HistCounts],
            r.1@ == capture::pushes(history@, next_pos as int),
    {
        reset_and_seed(history, next_pos)
    }
}

} // verus!
