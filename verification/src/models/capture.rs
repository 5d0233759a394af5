//! Decode steps that the device replays in one launch, and the ring of recent
//! tokens that they read.
use vstd::prelude::*;

use crate::ieee::Format;
use crate::models::ops::{Buf, Op};
use crate::models::prompt;
use crate::models::prompt::hist_seeds;
use crate::models::sampler;

verus! {

/// What was captured for replay.
#[derive(Clone, Copy, Debug)]
pub struct Captures {
    /// The greedy step.
    pub decode: bool,
    /// The sampling step, with the repeat penalty that it applies.
    pub sample: Option<u32>,
}

/// What arming a step asks of the device.
#[derive(Clone, Copy, Debug)]
pub struct Arming {
    /// The new value of the position counter.
    pub counter: u32,
    /// The step has to be captured now.
    pub capture: bool,
}

/// How a step runs.
pub enum Launch<P> {
    /// The captured step is replayed.
    Replay,
    /// Its parts are launched one by one.
    Steps(P),
}

/// A captured sampling step that applies `penalty`.
pub open spec fn applies(sample: Option<u32>, penalty: u32) -> bool {
    sample is Some && Format::F32.equal(sample->0 as int, penalty as int)
}

/// What is captured once sampling with `penalty` is armed; `off` turns
/// captures off.
pub open spec fn armed(c: Captures, penalty: u32, off: bool) -> Captures {
    if off || applies(c.sample, penalty) {
        c
    } else {
        Captures { sample: None, ..c }
    }
}

/// What is captured after an attempt at the sampling step.
pub open spec fn kept(c: Captures, penalty: u32, ok: bool) -> Captures {
    if ok {
        Captures { sample: Some(penalty), ..c }
    } else {
        c
    }
}

impl Captures {
    pub fn none() -> (r: Self)
        ensures
            r == (Captures { decode: false, sample: None }),
    {
        Captures { decode: false, sample: None }
    }

    /// The greedy step is captured once; the sampling step whenever the
    /// penalty changes.
    pub fn arm_sample(&mut self, penalty: u32, off: bool) -> (r: bool)
        ensures
            *final(self) == armed(*old(self), penalty, off),
            r == (!off && !applies(old(self).sample, penalty)),
    {
        if off {
            return false;
        }
        if let Some(p) = self.sample {
            if Format::F32.eq_value(p as u64, penalty as u64) {
                return false;
            }
        }
        self.sample = None;
        true
    }

    pub fn keep_sample(&mut self, penalty: u32, ok: bool)
        ensures
            *final(self) == kept(*old(self), penalty, ok),
    {
        if ok {
            self.sample = Some(penalty);
        }
    }
}

/// Sampling never replays another penalty: once armed, the captured step, if
/// there is one, applies the penalty of the request, and a failed capture
/// leaves none.
pub proof fn law_replays_apply_the_penalty(c: Captures, penalty: u32, ok: bool)
    requires
        !Format::F32.is_nan(penalty as int),
    ensures
        ({
            let a = armed(c, penalty, false);
            let after = if applies(c.sample, penalty) {
                a
            } else {
                kept(a, penalty, ok)
            };
            &&& after.sample is Some ==> applies(after.sample, penalty)
            &&& !ok && !applies(c.sample, penalty) ==> after.sample is None
            &&& after.decode == c.decode
        }),
{
}

// The ring of recent tokens.

/// Slots of the ring.
pub const RING: usize = 64;

/// The tokens that seed the ring, and the step that notes each of them.
pub open spec fn pushes(history: Seq<u32>, next_pos: int) -> Seq<(u32, Op)> {
    let s = prompt::seeds(history, next_pos);
    Seq::new(s.len(), |j: int| (s[j].1, Op::HistPush { pos: s[j].0, counter: false }))
}

/// What makes the device's window that of the history: buffers to zero, then
/// a token to upload and a step for each place.
pub fn reset_and_seed(history: &[u32], next_pos: usize) -> (r: (Vec<Buf>, Vec<(u32, Op)>))
    ensures
        r.0@ == seq![Buf::HistRing, Buf::HistCounts],
        r.1@ == pushes(history@, next_pos as int),
{
    let mut zero: Vec<Buf> = Vec::new();
    zero.push(Buf::HistRing);
    zero.push(Buf::HistCounts);
    assert(zero@ =~= seq![Buf::HistRing, Buf::HistCounts]);
    let seeds: Vec<(usize, u32)> = hist_seeds(history, next_pos);
    let mut steps: Vec<(u32, Op)> = Vec::new();
    let mut j: usize = 0;
    while j < seeds.len()
        invariant
            j <= seeds@.len(),
            seeds@ == prompt::seeds(history@, next_pos as int),
            steps@ =~= pushes(history@, next_pos as int).take(j as int),
        decreases seeds@.len() - j,
    {
        let (pos, token): (usize, u32) = seeds[j];
        steps.push((token, Op::HistPush { pos, counter: false }));
        j = j + 1;
    }
    assert(steps@ =~= pushes(history@, next_pos as int));
    (zero, steps)
}

/// The ring after `tokens` were noted at the positions from `base` on: a
/// token goes to the slot of its position.
pub open spec fn ring_of(ring: Seq<u32>, tokens: Seq<u32>, base: int) -> Seq<u32>
    decreases tokens.len(),
{
    if tokens.len() == 0 {
        ring
    } else {
        let before = ring_of(ring, tokens.drop_last(), base);
        before.update((base + tokens.len() - 1) % (RING as int), tokens.last())
    }
}

/// The ring holds the latest tokens, each in the slot of its position.
pub proof fn law_ring_holds_the_latest(ring: Seq<u32>, tokens: Seq<u32>, base: int, i: int)
    requires
        ring.len() == RING,
        base >= 0,
        0 <= i < tokens.len(),
        tokens.len() - i <= RING,
    ensures
        ring_of(ring, tokens, base)[(base + i) % (RING as int)] == tokens[i],
    decreases tokens.len(),
{
    let t = tokens.drop_last();
    let n = tokens.len() as int;
    lemma_ring_len(ring, t, base);
    let last = (base + n - 1) % (RING as int);
    if i < n - 1 {
        law_ring_holds_the_latest(ring, t, base, i);
        assert(t[i] == tokens[i]);
        assert((base + i) % 64 != (base + n - 1) % 64);
    }
}

proof fn lemma_ring_len(ring: Seq<u32>, tokens: Seq<u32>, base: int)
    requires
        ring.len() == RING,
        base >= 0,
    ensures
        ring_of(ring, tokens, base).len() == ring.len(),
    decreases tokens.len(),
{
    if tokens.len() > 0 {
        lemma_ring_len(ring, tokens.drop_last(), base);
    }
}

/// The device penalizes what the host would: the tokens that seed the ring
/// are the recent part of the history, at the positions in front of the next
/// one.
pub proof fn law_device_window_is_the_host_window(history: Seq<u32>, next_pos: int)
    requires
        history.len() <= next_pos <= usize::MAX,
    ensures
        ({
            let p = pushes(history, next_pos);
            let w = sampler::window(history);
            &&& p.len() == w.len()
            &&& forall|j: int|
                0 <= j < p.len() ==> #[trigger] p[j] == (
                    w[j],
                    Op::HistPush { pos: (next_pos - w.len() + j) as usize, counter: false },
                )
        }),
{
}

} // verus!
