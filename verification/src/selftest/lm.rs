//! The checks of a language model: same runs give same tokens, whatever ran
//! between and wherever the chunks are cut.
use vstd::prelude::*;

use crate::models::CHUNK;

verus! {

/// Tokens `from, from + 1, ..` up to `to`.
pub open spec fn counting(from: int, to: int) -> Seq<u32> {
    Seq::new((to - from) as nat, |i: int| (from + i) as u32)
}

/// `n` tokens that go round from one to two hundred and fifty.
pub open spec fn round(n: int) -> Seq<u32> {
    Seq::new(n as nat, |i: int| (1 + i % 250) as u32)
}

fn count_tokens(from: u32, to: u32) -> (r: Vec<u32>)
    requires
        from <= to,
    ensures
        r@ == counting(from as int, to as int),
{
    let mut r: Vec<u32> = Vec::new();
    let mut t: u32 = from;
    while t < to
        invariant
            from <= t <= to,
            r@ =~= counting(from as int, t as int),
        decreases to - t,
    {
        r.push(t);
        t = t + 1;
    }
    r
}

fn round_tokens(n: usize) -> (r: Vec<u32>)
    ensures
        r@ == round(n as int),
{
    let mut r: Vec<u32> = Vec::new();
    let mut i: usize = 0;
    while i < n
        invariant
            i <= n,
            r@ =~= round(i as int),
        decreases n - i,
    {
        r.push(1 + (i % 250) as u32);
        i = i + 1;
    }
    r
}

/// The prompts of the checks.
pub struct LmPrompts {
    /// Run twice, and once more after another prompt.
    pub plain: Vec<u32>,
    pub other: Vec<u32>,
    /// One less than a chunk, a chunk, and one more.
    pub seams: Vec<Vec<u32>>,
    /// The plain prompt with one more token.
    pub longer: Vec<u32>,
    pub single: Vec<u32>,
    /// Longer than the caches.
    pub huge: Vec<u32>,
    /// Sampled on the host and by the device.
    pub sampled: Vec<u32>,
}

/// The prompts for a model of `max_seq` positions.
pub fn lm_prompts(max_seq: usize) -> (r: LmPrompts)
    requires
        max_seq + 8 <= usize::MAX,
    ensures
        r.plain@ == counting(1, 40),
        r.other@ == counting(100, 160),
        r.seams@.len() == 3,
        r.seams@[0]@ == round(CHUNK - 1),
        r.seams@[1]@ == round(CHUNK as int),
        r.seams@[2]@ == round(CHUNK + 1),
        r.longer@ == counting(1, 40).push(41),
        r.single@ == seq![7u32],
        r.huge@ == round(max_seq + 8),
        r.sampled@ == seq![3u32, 14, 15, 92, 65, 35],
{
    let mut seams: Vec<Vec<u32>> = Vec::new();
    seams.push(round_tokens(CHUNK - 1));
    seams.push(round_tokens(CHUNK));
    seams.push(round_tokens(CHUNK + 1));
    let mut longer: Vec<u32> = count_tokens(1, 40);
    longer.push(41);
    let mut single: Vec<u32> = Vec::new();
    single.push(7);
    assert(single@ =~= seq![7u32]);
    let mut sampled: Vec<u32> = Vec::new();
    sampled.push(3);
    sampled.push(14);
    sampled.push(15);
    sampled.push(92);
    sampled.push(65);
    sampled.push(35);
    assert(sampled@ =~= seq![3u32, 14, 15, 92, 65, 35]);
    LmPrompts {
        plain: count_tokens(1, 40),
        other: count_tokens(100, 160),
        seams,
        longer,
        single,
        huge: round_tokens(max_seq + 8),
        sampled,
    }
}

/// What the runs gave.
pub struct LmRuns {
    /// The plain prompt, run twice and once after another prompt.
    pub first: Vec<u32>,
    pub second: Vec<u32>,
    pub after: Vec<u32>,
    /// Every seam prompt, run twice.
    pub seams: Vec<(Vec<u32>, Vec<u32>)>,
    pub longer: Vec<u32>,
    /// The single token ran.
    pub single_ran: bool,
    /// The huge prompt was refused.
    pub huge_refused: bool,
    /// Sampled over all logits, and over the device's candidates.
    pub full: Vec<u32>,
    pub device: Vec<u32>,
    /// The device's candidates were in use.
    pub device_active: bool,
}

/// The first `n` seams gave different tokens so many times.
pub open spec fn seam_failures(v: Seq<(Vec<u32>, Vec<u32>)>, n: int) -> int
    decreases n,
{
    if n <= 0 {
        0
    } else {
        seam_failures(v, n - 1) + failed(v[n - 1].0@ == v[n - 1].1@)
    }
}

pub open spec fn failed(ok: bool) -> int {
    if ok {
        0
    } else {
        1
    }
}

/// The start that the longer prompt's tokens are held against.
pub open spec fn start_of(v: Seq<u32>) -> Seq<u32> {
    if v.len() <= 8 {
        v
    } else {
        v.take(8)
    }
}

/// How many checks fail.
pub open spec fn lm_failures(o: LmRuns) -> int {
    failed(o.first@ == o.second@) + failed(o.first@ == o.after@) + seam_failures(
        o.seams@,
        o.seams@.len() as int,
    ) + failed(o.longer@ != start_of(o.first@)) + failed(o.single_ran) + failed(o.huge_refused)
        + failed(o.full@ == o.device@ && o.device_active)
}

fn same_tokens(a: &Vec<u32>, b: &Vec<u32>) -> (r: bool)
    ensures
        r == (a@ == b@),
{
    if a.len() != b.len() {
        return false;
    }
    let mut i: usize = 0;
    while i < a.len()
        invariant
            i <= a@.len(),
            a@.len() == b@.len(),
            forall|k: int| 0 <= k < i ==> a@[k] == b@[k],
        decreases a@.len() - i,
    {
        if a[i] != b[i] {
            return false;
        }
        i = i + 1;
    }
    assert(a@ =~= b@);
    true
}

fn miss(ok: bool) -> (r: usize)
    ensures
        r == failed(ok),
{
    if ok {
        0
    } else {
        1
    }
}

proof fn lemma_seams(v: Seq<(Vec<u32>, Vec<u32>)>, n: int)
    requires
        0 <= n,
    ensures
        0 <= seam_failures(v, n) <= n,
    decreases n,
{
    if n > 0 {
        lemma_seams(v, n - 1);
    }
}

/// Judge the runs: every failed check is counted.
pub fn run_lm(o: &LmRuns) -> (r: Result<(), usize>)
    requires
        o.seams@.len() + 6 <= usize::MAX,
    ensures
        match r {
            Ok(()) => lm_failures(*o) == 0,
            Err(n) => n > 0 && n == lm_failures(*o),
        },
{
    let mut fails: usize = 0;
    let mut i: usize = 0;
    while i < o.seams.len()
        invariant
            i <= o.seams@.len(),
            o.seams@.len() + 6 <= usize::MAX,
            fails <= i,
            fails == seam_failures(o.seams@, i as int),
        decreases o.seams@.len() - i,
    {
        fails = fails + miss(same_tokens(&o.seams[i].0, &o.seams[i].1));
        i = i + 1;
    }
    let mut start: Vec<u32> = o.first.clone();
    start.truncate(8);
    assert(start@ =~= start_of(o.first@));
    fails = fails + miss(same_tokens(&o.first, &o.second));
    fails = fails + miss(same_tokens(&o.first, &o.after));
    fails = fails + miss(!same_tokens(&o.longer, &start));
    fails = fails + miss(o.single_ran);
    fails = fails + miss(o.huge_refused);
    fails = fails + miss(same_tokens(&o.full, &o.device) && o.device_active);
    if fails == 0 {
        Ok(())
    } else {
        Err(fails)
    }
}

} // verus!
