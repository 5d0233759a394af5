//! Decoding with captured steps.
use vstd::prelude::*;

use crate::models::capture;
use crate::models::capture::{reset_and_seed, Arming, Captures, Launch};
use crate::models::transformer::graph::Transformer;
use crate::models::transformer::schedule::Pass;
use crate::models::ops::{Buf, Op};
use crate::models::prompt::FeedError;

verus! {

impl Transformer {
    /// The greedy step is captured once.
    pub fn arm_decode_graph(&self, pos: usize, off: bool) -> (r: Arming)
        ensures
            r.counter == pos as u32,
            r.capture == (!self.captures.decode && !off),
    {
        Arming { counter: pos as u32, capture: !self.captures.decode && !off }
    }

    /// The greedy step was captured, or could not be.
    pub fn keep_decode_graph(&mut self, ok: bool)
        ensures
            *final(self) == (Transformer {
                captures: Captures {
                    decode: old(self).captures.decode || ok,
                    ..old(self).captures
                },
                ..*old(self)
            }),
    {
        self.captures.decode = self.captures.decode || ok;
    }

    /// The sampling step is captured anew when the penalty changes.
    pub fn arm_sample_graph(&mut self, pos: usize, penalty: u32, off: bool) -> (r: Arming)
        ensures
            r.counter == pos as u32,
            r.capture == (!off && !capture::applies(old(self).captures.sample, penalty)),
            *final(self) == (Transformer {
                captures: capture::armed(old(self).captures, penalty, off),
                ..*old(self)
            }),
    {
        let capture: bool = self.captures.arm_sample(penalty, off);
        Arming { counter: pos as u32, capture }
    }

    pub fn keep_sample_graph(&mut self, penalty: u32, ok: bool)
        ensures
            *final(self) == (Transformer {
                captures: capture::kept(old(self).captures, penalty, ok),
                ..*old(self)
            }),
    {
        self.captures.keep_sample(penalty, ok);
    }

    pub fn decode_graph_active(&self) -> (r: bool)
        ensures
            r == self.captures.decode,
    {
        self.captures.decode
    }

    pub fn sample_graph_active(&self) -> (r: bool)
        ensures
            r == (self.captures.sample is Some),
    {
        self.captures.sample.is_some()
    }

    /// One greedy token at `pos`, uploaded by the host.
    pub fn decode_step_argmax(&mut self, pos: usize) -> (r: Result<Pass, FeedError>)
        requires
            pos < usize::MAX,
        ensures
            ({
                let max_seq = old(self).cfg.max_seq;
                if pos + 1 > max_seq {
                    &&& r == Err::<Pass, FeedError>(
                        FeedError::Capacity { want: (pos + 1) as usize, max_seq },
                    )
                    &&& *final(self) == *old(self)
                } else {
                    &&& *final(self) == (Transformer { pos: (pos + 1) as usize, ..*old(self) })
                    &&& r == Ok::<Pass, FeedError>((Pass { rows: 1, pos0: pos, counter: false }))
                }
            }),
    {
        self.decode_step(pos)
    }

    /// One greedy token at `pos` that the device picked itself: a replay where
    /// the step was captured, else its parts, with positions from the counter.
    pub fn decode_step_device(&mut self, pos: usize) -> (r: Result<Launch<Pass>, FeedError>)
        requires
            pos < usize::MAX,
        ensures
            ({
                let max_seq = old(self).cfg.max_seq;
                if pos + 1 > max_seq {
                    &&& r matches Err(e) && e == (FeedError::Capacity {
                        want: (pos + 1) as usize,
                        max_seq,
                    })
                    &&& *final(self) == *old(self)
                } else {
                    &&& *final(self) == (Transformer { pos: (pos + 1) as usize, ..*old(self) })
                    &&& r matches Ok(l) && l == (if old(self).captures.decode {
                        Launch::Replay
                    } else {
                        Launch::Steps(Pass { rows: 1, pos0: 0, counter: true })
                    })
                }
            }),
    {
        match self.decode_step(pos) {
            Err(e) => Err(e),
            Ok(_) => if self.captures.decode {
                Ok(Launch::Replay)
            } else {
                Ok(Launch::Steps(Pass { rows: 1, pos0: 0, counter: true }))
            },
        }
    }

    /// One sampled token at `pos`, replayed: `r` is the step in front of the
    /// replay, which puts the token into the ring.
    pub fn decode_step_sample(&mut self, pos: usize) -> (r: Result<Op, FeedError>)
        requires
            pos < usize::MAX,
            old(self).captures.sample is Some,
        ensures
            ({
                let max_seq = old(self).cfg.max_seq;
                if pos + 1 > max_seq {
                    &&& r == Err::<Op, FeedError>(
                        FeedError::Capacity { want: (pos + 1) as usize, max_seq },
                    )
                    &&& *final(self) == *old(self)
                } else {
                    &&& *final(self) == (Transformer { pos: (pos + 1) as usize, ..*old(self) })
                    &&& r == Ok::<Op, FeedError>((Op::HistPush { pos: 0, counter: true }))
                }
            }),
    {
        match self.decode_step(pos) {
            Err(e) => Err(e),
            Ok(_) => Ok(Op::HistPush { pos: 0, counter: true }),
        }
    }

    /// Makes the device's window that of `history`, in front of `next_pos`.
    pub fn hist_reset_and_seed(&self, history: &[u32], next_pos: usize) -> (r: (
        Vec<Buf>,
        Vec<(u32, Op)>,
    ))
        ensures
            r.0@ == seq![Buf::HistRing, Buf::HistCounts],
            r.1@ == capture::pushes(history@, next_pos as int),
    {
        reset_and_seed(history, next_pos)
    }
}

} // verus!
