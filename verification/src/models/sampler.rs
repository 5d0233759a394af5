//! Token selection on the host: repeat penalty, temperature, top-k, top-p and
//! a categorical draw. Values are single-precision patterns.
use vstd::prelude::*;

use crate::ieee::Format;
use crate::models::ops;
use crate::models::ONE;
use crate::num;
use crate::num::{f32_add, f32_div, f32_from_i32, f32_lt, f32_mul, f32_sub};

verus! {

/// Tokens of history that the repeat penalty looks back on.
pub const PENALTY_WINDOW: usize = 64;

/// The smallest temperature that divides: 1e-4.
pub const MIN_TEMPERATURE: u32 = 0x38d1_b717;

/// Multiplier of the generator's output.
pub const STAR: u64 = 0x2545_F491_4F6C_DD1D;

/// Two to the twenty-fourth.
pub const DRAW_RANGE: u32 = 0x4b80_0000;

/// What a request asks of a generation.
#[derive(Clone, Debug)]
pub struct GenOptions {
    pub temperature: u32,
    pub top_p: u32,
    pub top_k: usize,
    pub repeat_penalty: u32,
    pub seed: u64,
    pub max_tokens: usize,
    pub stop: Vec<String>,
    pub ignore_eos: bool,
    pub json_mode: bool,
    pub json_schema: Option<String>,
}

/// `a <= b`; false where either is NaN.
pub open spec fn at_most(a: int, b: int) -> bool {
    Format::F32.less(a, b) || Format::F32.equal(a, b)
}

pub fn f32_le(a: u32, b: u32) -> (r: bool)
    ensures
        r == at_most(a as int, b as int),
{
    f32_lt(a, b) || Format::F32.eq_value(a as u64, b as u64)
}

impl GenOptions {
    /// Sampling takes the top candidate.
    pub open spec fn greedy(&self) -> bool {
        at_most(self.temperature as int, 0)
    }

    pub fn is_greedy(&self) -> (r: bool)
        ensures
            r == self.greedy(),
    {
        f32_le(self.temperature, 0)
    }
}

/// How many of `n` candidates `top_k` keeps; zero keeps all.
pub open spec fn kept(top_k: int, n: int) -> int {
    if top_k == 0 || n <= top_k {
        n
    } else {
        top_k
    }
}

fn keep(top_k: usize, n: usize) -> (r: usize)
    ensures
        r == kept(top_k as int, n as int),
        r <= n,
{
    if top_k == 0 || n <= top_k {
        n
    } else {
        top_k
    }
}

// Repeat penalty.

/// A logit after one penalty.
pub open spec fn penalized(l: int, penalty: int) -> int {
    if Format::F32.less(0, l) {
        Format::F32.quotient(l, penalty)
    } else {
        Format::F32.product(l, penalty)
    }
}

/// The logits after a penalty for every token of `window`, in order.
pub open spec fn penalties(l: Seq<u32>, window: Seq<u32>, penalty: int) -> Seq<u32>
    decreases window.len(),
{
    if window.len() == 0 {
        l
    } else {
        let p = penalties(l, window.drop_last(), penalty);
        let t = window.last() as int;
        if t < p.len() {
            p.update(t, penalized(p[t] as int, penalty) as u32)
        } else {
            p
        }
    }
}

/// The recent part of the history.
pub open spec fn window(history: Seq<u32>) -> Seq<u32> {
    if history.len() <= PENALTY_WINDOW {
        history
    } else {
        history.skip(history.len() - PENALTY_WINDOW)
    }
}

/// The logits that a step samples from.
pub open spec fn weighed(l: Seq<u32>, history: Seq<u32>, penalty: int) -> Seq<u32> {
    if Format::F32.equal(penalty, ONE as int) {
        l
    } else {
        penalties(l, window(history), penalty)
    }
}

pub proof fn lemma_penalties_len(l: Seq<u32>, w: Seq<u32>, penalty: int)
    ensures
        penalties(l, w, penalty).len() == l.len(),
    decreases w.len(),
{
    if w.len() > 0 {
        lemma_penalties_len(l, w.drop_last(), penalty);
    }
}

/// Weigh the logits by the recent history.
pub fn apply_penalty(logits: &mut Vec<u32>, history: &Vec<u32>, penalty: u32)
    ensures
        final(logits)@ == weighed(old(logits)@, history@, penalty as int),
        final(logits)@.len() == old(logits)@.len(),
{
    if Format::F32.eq_value(penalty as u64, ONE as u64) {
        return;
    }
    let n: usize = history.len();
    let from: usize = if n <= PENALTY_WINDOW {
        0
    } else {
        n - PENALTY_WINDOW
    };
    let ghost w = window(history@);
    let ghost l0 = logits@;
    assert(w =~= history@.skip(from as int));
    let mut i: usize = from;
    assert(w.take(0) =~= Seq::<u32>::empty());
    while i < n
        invariant
            from <= i <= n,
            n == history@.len(),
            w == history@.skip(from as int),
            logits@ == penalties(l0, w.take(i - from), penalty as int),
        decreases n - i,
    {
        let t: usize = history[i] as usize;
        let ghost part = w.take(i + 1 - from);
        proof {
            assert(part.drop_last() =~= w.take(i - from));
            assert(part.last() == history@[i as int]);
        }
        if t < logits.len() {
            let l: u32 = logits[t];
            let v: u32 = if f32_lt(0, l) {
                f32_div(l, penalty)
            } else {
                f32_mul(l, penalty)
            };
            logits.set(t, v);
        }
        i = i + 1;
    }
    proof {
        assert(w.take(n - from) =~= w);
        lemma_penalties_len(l0, w, penalty as int);
    }
}

// Ranking.

/// The best of the first `n` logits; of equals the later.
pub open spec fn best(l: Seq<u32>, n: int) -> int
    decreases n,
{
    if n <= 1 {
        0
    } else {
        let b = best(l, n - 1);
        if Format::F32.less(l[n - 1] as int, l[b] as int) {
            b
        } else {
            n - 1
        }
    }
}

pub proof fn lemma_best(l: Seq<u32>, n: int)
    ensures
        0 <= best(l, n),
        1 <= n ==> best(l, n) < n,
    decreases n,
{
    if n > 1 {
        lemma_best(l, n - 1);
    }
}

/// Token `a` ranks before token `b`: a greater logit, of equals the greater
/// token.
pub open spec fn before(l: Seq<u32>, a: int, b: int) -> bool {
    Format::F32.less(l[b] as int, l[a] as int) || (!Format::F32.less(l[a] as int, l[b] as int)
        && a > b)
}

fn is_before(l: &Vec<u32>, a: u32, b: u32) -> (r: bool)
    requires
        a < l@.len(),
        b < l@.len(),
    ensures
        r == before(l@, a as int, b as int),
{
    let x: u32 = l[a as usize];
    let y: u32 = l[b as usize];
    f32_lt(y, x) || (!f32_lt(x, y) && a > b)
}

pub open spec fn no_nan(l: Seq<u32>) -> bool {
    forall|i: int| 0 <= i < l.len() ==> !Format::F32.is_nan(#[trigger] l[i] as int)
}

pub open spec fn in_order(l: Seq<u32>, ids: Seq<u32>) -> bool {
    forall|i: int, j: int| 0 <= i < j < ids.len() ==> before(l, #[trigger] ids[i] as int, #[trigger] ids[j] as int)
}

pub open spec fn tokens_below(ids: Seq<u32>, n: int) -> bool {
    forall|i: int| 0 <= i < ids.len() ==> (#[trigger] ids[i]) < n
}

/// `ids` are the first `k` tokens of the ranking, in order.
pub open spec fn ranked(l: Seq<u32>, ids: Seq<u32>, k: int) -> bool {
    &&& ids.len() == k
    &&& tokens_below(ids, l.len() as int)
    &&& in_order(l, ids)
    &&& forall|i: int, t: u32|
        0 <= i < k && t < l.len() && !ids.contains(t) ==> #[trigger] before(
            l,
            ids[i] as int,
            t as int,
        )
}

/// Two rankings of equal length are one.
pub proof fn law_ranking_is_unique(l: Seq<u32>, a: Seq<u32>, b: Seq<u32>, k: int)
    requires
        no_nan(l),
        ranked(l, a, k),
        ranked(l, b, k),
    ensures
        a == b,
{
    if a != b {
        assert(a =~= b) by {
            assert forall|i: int| 0 <= i < k implies a[i] == b[i] by {
                lemma_same_rank(l, a, b, k, i);
            }
        }
    }
}

proof fn lemma_same_rank(l: Seq<u32>, a: Seq<u32>, b: Seq<u32>, k: int, i: int)
    requires
        no_nan(l),
        ranked(l, a, k),
        ranked(l, b, k),
        0 <= i < k,
    ensures
        a[i] == b[i],
    decreases i,
{
    assert forall|j: int| 0 <= j < i implies a[j] == b[j] by {
        lemma_same_rank(l, a, b, k, j);
    }
    if a[i] != b[i] {
        let x = a[i];
        let y = b[i];
        // Whichever ranks first must occur in the other, further on.
        if b.contains(x) {
            let j = choose|j: int| 0 <= j < b.len() && b[j] == x;
            if j < i {
                assert(a[j] == x);
                assert(before(l, a[j] as int, a[i] as int));
            }
            assert(j > i);
            assert(before(l, b[i] as int, b[j] as int));
        } else {
            assert(before(l, b[i] as int, x as int));
        }
        if a.contains(y) {
            let j = choose|j: int| 0 <= j < a.len() && a[j] == y;
            if j < i {
                assert(b[j] == y);
                assert(before(l, b[j] as int, b[i] as int));
            }
            assert(j > i);
            assert(before(l, a[i] as int, a[j] as int));
        } else {
            assert(before(l, a[i] as int, y as int));
        }
    }
}

/// Cutting a longer ranking gives the shorter: candidates taken on the device
/// are exact for every smaller top-k.
pub proof fn law_cut_rankings_are_rankings(l: Seq<u32>, ids: Seq<u32>, n: int, k: int)
    requires
        ranked(l, ids, n),
        0 <= k <= n,
    ensures
        ranked(l, ids.take(k), k),
{
    let s = ids.take(k);
    assert forall|i: int, t: u32| 0 <= i < k && t < l.len() && !s.contains(t) implies #[trigger] before(
        l,
        s[i] as int,
        t as int,
    ) by {
        if ids.contains(t) {
            let j = choose|j: int| 0 <= j < ids.len() && ids[j] == t;
            if j < k {
                assert(s[j] == t);
            }
            assert(before(l, ids[i] as int, ids[j] as int));
        } else {
            assert(before(l, ids[i] as int, t as int));
        }
    }
}

/// The greedy pick over all logits is the first candidate of any ranking.
pub proof fn law_greedy_is_the_first_candidate(l: Seq<u32>, ids: Seq<u32>, k: int)
    requires
        no_nan(l),
        1 <= k,
        l.len() <= u32::MAX,
        ranked(l, ids, k),
    ensures
        best(l, l.len() as int) == ids[0],
{
    let n = l.len() as int;
    assert(ids[0] < l.len());
    lemma_best(l, n);
    lemma_best_is_first(l, n);
    let b = best(l, n);
    if b != ids[0] {
        let t = b as u32;
        if ids.contains(t) {
            let j = choose|j: int| 0 <= j < ids.len() && ids[j] == t;
            assert(before(l, ids[0] as int, ids[j] as int));
        } else {
            assert(before(l, ids[0] as int, t as int));
        }
        assert(before(l, b, ids[0] as int));
    }
}

proof fn lemma_best_is_first(l: Seq<u32>, n: int)
    requires
        no_nan(l),
        1 <= n <= l.len(),
    ensures
        forall|i: int| 0 <= i < n && i != best(l, n) ==> #[trigger] before(l, best(l, n), i),
    decreases n,
{
    lemma_best(l, n);
    if n > 1 {
        lemma_best_is_first(l, n - 1);
        lemma_best(l, n - 1);
        let b = best(l, n - 1);
        assert forall|i: int| 0 <= i < n && i != best(l, n) implies #[trigger] before(
            l,
            best(l, n),
            i,
        ) by {
            if i < n - 1 && i != b {
                assert(before(l, b, i));
            }
        }
    }
}

/// The device's greedy pick is the host's: over logits without NaN, the token
/// that the device picks has the greatest of the logits that the host reads
/// back, and is the token that greedy sampling takes from them.
pub proof fn law_device_pick_is_the_greatest_logit(h: Seq<u16>, id: int)
    requires
        forall|i: int| 0 <= i < h.len() ==> !Format::F16.is_nan(#[trigger] h[i] as int),
        ops::greatest(h, id),
    ensures
        no_nan(ops::widened(h)),
        forall|j: int|
            0 <= j < h.len() ==> at_most(
                #[trigger] ops::widened(h)[j] as int,
                ops::widened(h)[id] as int,
            ),
        best(ops::widened(h), h.len() as int) == id,
{
    let l = ops::widened(h);
    let n = h.len() as int;
    assert forall|i: int| 0 <= i < l.len() implies !Format::F32.is_nan(#[trigger] l[i] as int) by {
        lemma_wide(h, i, i);
    }
    assert forall|j: int| 0 <= j < n implies at_most(#[trigger] l[j] as int, l[id] as int) by {
        lemma_wide(h, j, id);
    }
    lemma_best(l, n);
    lemma_best_is_first(l, n);
    let b = best(l, n);
    if b != id {
        lemma_wide(h, b, id);
        lemma_wide(h, id, b);
        assert(before(l, b, id));
    }
}

/// Logits compare as they did before they were widened.
proof fn lemma_wide(h: Seq<u16>, i: int, j: int)
    requires
        0 <= i < h.len(),
        0 <= j < h.len(),
        !Format::F16.is_nan(h[i] as int),
        !Format::F16.is_nan(h[j] as int),
    ensures
        ({
            let (x, y) = (ops::widened(h)[i] as int, ops::widened(h)[j] as int);
            &&& !Format::F32.is_nan(x)
            &&& Format::F32.less(x, y) == Format::F16.less(h[i] as int, h[j] as int)
            &&& Format::F32.equal(x, y) == Format::F16.equal(h[i] as int, h[j] as int)
        }),
{
    let (a, b) = (h[i] as int, h[j] as int);
    num::law_widening_keeps_order(a, b);
    num::law_nan_class_is_kept(a, 0);
    num::lemma_wide_holds(a);
    num::lemma_wide_holds(b);
}

/// `a` and `b` in one order: whichever front ranks first comes first.
pub open spec fn merged(l: Seq<u32>, a: Seq<u32>, b: Seq<u32>) -> Seq<u32>
    decreases a.len() + b.len(),
{
    if a.len() == 0 {
        b
    } else if b.len() == 0 {
        a
    } else if before(l, a[0] as int, b[0] as int) {
        seq![a[0]] + merged(l, a.skip(1), b)
    } else {
        seq![b[0]] + merged(l, a, b.skip(1))
    }
}

/// The tokens `from..to` in rank order: each half ranked, and the halves
/// merged.
pub open spec fn ranking(l: Seq<u32>, from: int, to: int) -> Seq<u32>
    decreases to - from,
{
    if to <= from {
        Seq::empty()
    } else if to - from == 1 {
        seq![from as u32]
    } else {
        let mid = from + (to - from) / 2;
        merged(l, ranking(l, from, mid), ranking(l, mid, to))
    }
}

/// No token is in both.
pub open spec fn apart(a: Seq<u32>, b: Seq<u32>) -> bool {
    forall|i: int, j: int| 0 <= i < a.len() && 0 <= j < b.len() ==> a[i] != b[j]
}

proof fn lemma_merged_holds(l: Seq<u32>, a: Seq<u32>, b: Seq<u32>, x: u32)
    ensures
        merged(l, a, b).len() == a.len() + b.len(),
        merged(l, a, b).contains(x) <==> a.contains(x) || b.contains(x),
    decreases a.len() + b.len(),
{
    if a.len() > 0 && b.len() > 0 {
        let m = merged(l, a, b);
        if before(l, a[0] as int, b[0] as int) {
            lemma_merged_holds(l, a.skip(1), b, x);
            lemma_fronted(a, x);
            assert(m.skip(1) =~= merged(l, a.skip(1), b));
        } else {
            lemma_merged_holds(l, a, b.skip(1), x);
            lemma_fronted(b, x);
            assert(m.skip(1) =~= merged(l, a, b.skip(1)));
        }
        lemma_fronted(m, x);
    }
}

/// What a sequence holds is its front, or further on.
proof fn lemma_fronted(s: Seq<u32>, x: u32)
    requires
        s.len() > 0,
    ensures
        s.contains(x) <==> s[0] == x || s.skip(1).contains(x),
{
    if s.contains(x) {
        let k = choose|k: int| 0 <= k < s.len() && s[k] == x;
        if k > 0 {
            assert(s.skip(1)[k - 1] == x);
        }
    }
    if s.skip(1).contains(x) {
        let k = choose|k: int| 0 <= k < s.len() - 1 && s.skip(1)[k] == x;
        assert(s[k + 1] == x);
    }
}

/// A front that differs from all that follows makes no duplicate.
proof fn lemma_fresh_front(m: Seq<u32>, x: u32, rest: Seq<u32>)
    requires
        m == seq![x] + rest,
        rest.no_duplicates(),
        !rest.contains(x),
    ensures
        m.no_duplicates(),
{
    assert forall|i: int, j: int| 0 <= i < m.len() && 0 <= j < m.len() && i != j implies m[i]
        != m[j] by {
        if i > 0 && j > 0 {
            assert(m[i] == rest[i - 1] && m[j] == rest[j - 1]);
        } else if i == 0 {
            assert(rest.contains(rest[j - 1]));
        } else {
            assert(rest.contains(rest[i - 1]));
        }
    }
}

proof fn lemma_merged_distinct(l: Seq<u32>, a: Seq<u32>, b: Seq<u32>)
    requires
        a.no_duplicates(),
        b.no_duplicates(),
        apart(a, b),
    ensures
        merged(l, a, b).no_duplicates(),
    decreases a.len() + b.len(),
{
    if a.len() > 0 && b.len() > 0 {
        let m = merged(l, a, b);
        if before(l, a[0] as int, b[0] as int) {
            lemma_merged_distinct(l, a.skip(1), b);
            lemma_merged_holds(l, a.skip(1), b, a[0]);
            lemma_fresh_front(m, a[0], merged(l, a.skip(1), b));
        } else {
            lemma_merged_distinct(l, a, b.skip(1));
            lemma_merged_holds(l, a, b.skip(1), b[0]);
            lemma_fresh_front(m, b[0], merged(l, a, b.skip(1)));
        }
    }
}

/// A front that ranks before all that follows keeps the order.
proof fn lemma_first_front(l: Seq<u32>, m: Seq<u32>, x: u32, rest: Seq<u32>)
    requires
        m == seq![x] + rest,
        in_order(l, rest),
        forall|y: u32| #[trigger] rest.contains(y) ==> before(l, x as int, y as int),
    ensures
        in_order(l, m),
{
    assert forall|i: int, j: int| 0 <= i < j < m.len() implies before(
        l,
        #[trigger] m[i] as int,
        #[trigger] m[j] as int,
    ) by {
        assert(m[j] == rest[j - 1]);
        if i == 0 {
            assert(rest.contains(rest[j - 1]));
        } else {
            assert(m[i] == rest[i - 1]);
        }
    }
}

/// The front of an ordered sequence ranks before the rest, and so does all
/// that ranks before the front.
proof fn lemma_front_leads(l: Seq<u32>, s: Seq<u32>, y: u32)
    requires
        in_order(l, s),
        s.len() > 0,
        s.contains(y),
    ensures
        y == s[0] || before(l, s[0] as int, y as int),
{
    let k = choose|k: int| 0 <= k < s.len() && s[k] == y;
    if k > 0 {
        assert(before(l, s[0] as int, s[k] as int));
    }
}

proof fn lemma_before_chain(l: Seq<u32>, a: int, b: int, c: int)
    requires
        no_nan(l),
        0 <= a < l.len(),
        0 <= b < l.len(),
        0 <= c < l.len(),
        before(l, a, b),
        before(l, b, c),
    ensures
        before(l, a, c),
{
    assert(!Format::F32.is_nan(l[a] as int));
    assert(!Format::F32.is_nan(l[b] as int));
    assert(!Format::F32.is_nan(l[c] as int));
}

proof fn lemma_skip_front(l: Seq<u32>, s: Seq<u32>)
    requires
        s.len() > 0,
        in_order(l, s),
        tokens_below(s, l.len() as int),
    ensures
        in_order(l, s.skip(1)),
        tokens_below(s.skip(1), l.len() as int),
{
    let t = s.skip(1);
    assert forall|i: int, j: int| 0 <= i < j < t.len() implies before(
        l,
        #[trigger] t[i] as int,
        #[trigger] t[j] as int,
    ) by {
        assert(before(l, s[i + 1] as int, s[j + 1] as int));
    }
}

proof fn lemma_merged_ordered(l: Seq<u32>, a: Seq<u32>, b: Seq<u32>)
    requires
        no_nan(l),
        tokens_below(a, l.len() as int),
        tokens_below(b, l.len() as int),
        in_order(l, a),
        in_order(l, b),
        apart(a, b),
    ensures
        in_order(l, merged(l, a, b)),
    decreases a.len() + b.len(),
{
    if a.len() > 0 && b.len() > 0 {
        let m = merged(l, a, b);
        let (x, z) = (a[0], b[0]);
        if before(l, x as int, z as int) {
            let rest = merged(l, a.skip(1), b);
            lemma_skip_front(l, a);
            lemma_merged_ordered(l, a.skip(1), b);
            assert forall|y: u32| #[trigger] rest.contains(y) implies before(
                l,
                x as int,
                y as int,
            ) by {
                lemma_merged_holds(l, a.skip(1), b, y);
                if a.skip(1).contains(y) {
                    let k = choose|k: int| 0 <= k < a.len() - 1 && a.skip(1)[k] == y;
                    assert(before(l, a[0] as int, a[k + 1] as int));
                } else {
                    lemma_front_leads(l, b, y);
                    if y != z {
                        lemma_before_chain(l, x as int, z as int, y as int);
                    }
                }
            }
            lemma_first_front(l, m, x, rest);
        } else {
            let rest = merged(l, a, b.skip(1));
            lemma_skip_front(l, b);
            lemma_merged_ordered(l, a, b.skip(1));
            assert(x != z);
            assert(before(l, z as int, x as int));
            assert forall|y: u32| #[trigger] rest.contains(y) implies before(
                l,
                z as int,
                y as int,
            ) by {
                lemma_merged_holds(l, a, b.skip(1), y);
                if b.skip(1).contains(y) {
                    let k = choose|k: int| 0 <= k < b.len() - 1 && b.skip(1)[k] == y;
                    assert(before(l, b[0] as int, b[k + 1] as int));
                } else {
                    lemma_front_leads(l, a, y);
                    if y != x {
                        lemma_before_chain(l, z as int, x as int, y as int);
                    }
                }
            }
            lemma_first_front(l, m, z, rest);
        }
    }
}

proof fn lemma_ranking_holds(l: Seq<u32>, from: int, to: int, x: u32)
    requires
        0 <= from <= to <= u32::MAX,
    ensures
        ranking(l, from, to).len() == to - from,
        ranking(l, from, to).contains(x) <==> from <= x < to,
    decreases to - from,
{
    if to - from == 1 {
        if x == from {
            assert(ranking(l, from, to)[0] == x);
        }
    } else if to > from {
        let mid = from + (to - from) / 2;
        lemma_ranking_holds(l, from, mid, x);
        lemma_ranking_holds(l, mid, to, x);
        lemma_merged_holds(l, ranking(l, from, mid), ranking(l, mid, to), x);
    }
}

proof fn lemma_halves_apart(l: Seq<u32>, from: int, mid: int, to: int)
    requires
        0 <= from <= mid <= to <= u32::MAX,
    ensures
        apart(ranking(l, from, mid), ranking(l, mid, to)),
{
    let (a, b) = (ranking(l, from, mid), ranking(l, mid, to));
    assert forall|i: int, j: int| 0 <= i < a.len() && 0 <= j < b.len() implies a[i] != b[j] by {
        lemma_ranking_holds(l, from, mid, a[i]);
        lemma_ranking_holds(l, mid, to, b[j]);
        assert(a.contains(a[i]));
        assert(b.contains(b[j]));
    }
}

proof fn lemma_ranking_below(l: Seq<u32>, from: int, to: int, n: int)
    requires
        0 <= from <= to <= n <= u32::MAX,
    ensures
        tokens_below(ranking(l, from, to), n),
{
    let r = ranking(l, from, to);
    assert forall|i: int| 0 <= i < r.len() implies (#[trigger] r[i]) < n by {
        lemma_ranking_holds(l, from, to, r[i]);
        assert(r.contains(r[i]));
    }
}

proof fn lemma_ranking_distinct(l: Seq<u32>, from: int, to: int)
    requires
        0 <= from <= to <= u32::MAX,
    ensures
        ranking(l, from, to).no_duplicates(),
    decreases to - from,
{
    if to - from > 1 {
        let mid = from + (to - from) / 2;
        lemma_ranking_distinct(l, from, mid);
        lemma_ranking_distinct(l, mid, to);
        lemma_halves_apart(l, from, mid, to);
        lemma_merged_distinct(l, ranking(l, from, mid), ranking(l, mid, to));
    }
}

proof fn lemma_ranking_ordered(l: Seq<u32>, from: int, to: int)
    requires
        no_nan(l),
        0 <= from <= to <= l.len() <= u32::MAX,
    ensures
        in_order(l, ranking(l, from, to)),
    decreases to - from,
{
    if to - from > 1 {
        let mid = from + (to - from) / 2;
        lemma_ranking_ordered(l, from, mid);
        lemma_ranking_ordered(l, mid, to);
        lemma_halves_apart(l, from, mid, to);
        lemma_ranking_below(l, from, mid, l.len() as int);
        lemma_ranking_below(l, mid, to, l.len() as int);
        lemma_merged_ordered(l, ranking(l, from, mid), ranking(l, mid, to));
    }
}

/// The ranking of all tokens, and every start of it, ranks.
pub proof fn law_rankings_rank(l: Seq<u32>, k: int)
    requires
        no_nan(l),
        0 <= k <= l.len() <= u32::MAX,
    ensures
        ranked(l, ranking(l, 0, l.len() as int).take(k), k),
{
    let n = l.len() as int;
    let all = ranking(l, 0, n);
    lemma_ranking_ordered(l, 0, n);
    lemma_ranking_below(l, 0, n, n);
    lemma_ranking_holds(l, 0, n, 0);
    assert forall|i: int, t: u32| 0 <= i < n && t < n && !all.contains(t) implies #[trigger] before(
        l,
        all[i] as int,
        t as int,
    ) by {
        lemma_ranking_holds(l, 0, n, t);
    }
    law_cut_rankings_are_rankings(l, all, n, k);
}

fn merge(l: &Vec<u32>, a: &Vec<u32>, b: &Vec<u32>) -> (r: Vec<u32>)
    requires
        tokens_below(a@, l@.len() as int),
        tokens_below(b@, l@.len() as int),
        a@.len() + b@.len() <= usize::MAX,
    ensures
        r@ == merged(l@, a@, b@),
{
    let mut r: Vec<u32> = Vec::new();
    let mut i: usize = 0;
    let mut j: usize = 0;
    proof {
        assert(a@.skip(0) =~= a@);
        assert(b@.skip(0) =~= b@);
        assert(r@ + merged(l@, a@, b@) =~= merged(l@, a@, b@));
    }
    while i < a.len() || j < b.len()
        invariant
            i <= a@.len(),
            j <= b@.len(),
            tokens_below(a@, l@.len() as int),
            tokens_below(b@, l@.len() as int),
            a@.len() + b@.len() <= usize::MAX,
            r@ + merged(l@, a@.skip(i as int), b@.skip(j as int)) == merged(l@, a@, b@),
        decreases a@.len() + b@.len() - i - j,
    {
        let left: bool = if i < a.len() && j < b.len() {
            is_before(l, a[i], b[j])
        } else {
            i < a.len()
        };
        let ghost r0 = r@;
        let ghost (x, y) = (a@.skip(i as int), b@.skip(j as int));
        if left {
            r.push(a[i]);
            i = i + 1;
            proof {
                assert(x.skip(1) =~= a@.skip(i as int));
                let rest = merged(l@, x.skip(1), y);
                if y.len() == 0 {
                    assert(rest =~= x.skip(1));
                }
                assert(merged(l@, x, y) =~= seq![x[0]] + rest);
                assert(r0.push(x[0]) + rest =~= r0 + (seq![x[0]] + rest));
            }
        } else {
            r.push(b[j]);
            j = j + 1;
            proof {
                assert(y.skip(1) =~= b@.skip(j as int));
                let rest = merged(l@, x, y.skip(1));
                if x.len() == 0 {
                    assert(rest =~= y.skip(1));
                }
                assert(merged(l@, x, y) =~= seq![y[0]] + rest);
                assert(r0.push(y[0]) + rest =~= r0 + (seq![y[0]] + rest));
            }
        }
    }
    assert(merged(l@, a@.skip(i as int), b@.skip(j as int)).len() == 0);
    assert(r@ =~= merged(l@, a@, b@));
    r
}

/// The tokens `from..to` in rank order.
fn sorted(l: &Vec<u32>, from: usize, to: usize) -> (r: Vec<u32>)
    requires
        from <= to <= l@.len(),
        l@.len() <= u32::MAX,
    ensures
        r@ == ranking(l@, from as int, to as int),
    decreases to - from,
{
    if from == to {
        return Vec::new();
    }
    if to - from == 1 {
        let mut r: Vec<u32> = Vec::new();
        r.push(from as u32);
        return r;
    }
    let mid: usize = from + (to - from) / 2;
    let a: Vec<u32> = sorted(l, from, mid);
    let b: Vec<u32> = sorted(l, mid, to);
    proof {
        lemma_ranking_below(l@, from as int, mid as int, l@.len() as int);
        lemma_ranking_below(l@, mid as int, to as int, l@.len() as int);
        lemma_ranking_holds(l@, from as int, mid as int, 0);
        lemma_ranking_holds(l@, mid as int, to as int, 0);
    }
    merge(l, &a, &b)
}

/// The candidates of a step: the values and tokens of the ranking's start.
pub struct Candidates {
    pub vals: Vec<u32>,
    pub ids: Vec<u32>,
}

/// What a step samples from.
pub enum Draw {
    Token(u32),
    Ranked(Candidates),
}

/// What a step samples from, as values.
pub enum Prepared {
    Token(u32),
    Ranked { vals: Seq<u32>, ids: Seq<u32> },
}

impl View for Draw {
    type V = Prepared;

    open spec fn view(&self) -> Prepared {
        match *self {
            Draw::Token(t) => Prepared::Token(t),
            Draw::Ranked(c) => Prepared::Ranked { vals: c.vals@, ids: c.ids@ },
        }
    }
}

/// The logits of `ids`.
pub open spec fn values(l: Seq<u32>, ids: Seq<u32>) -> Seq<u32> {
    Seq::new(ids.len(), |i: int| l[ids[i] as int])
}

/// What weighed logits leave to sample from: the best token, or the start of
/// the ranking.
pub open spec fn prepared(l: Seq<u32>, opts: GenOptions) -> Prepared {
    let n = l.len() as int;
    if opts.greedy() {
        Prepared::Token(best(l, n) as u32)
    } else {
        let ids = ranking(l, 0, n).take(kept(opts.top_k as int, n));
        Prepared::Ranked { vals: values(l, ids), ids }
    }
}

/// Weigh the logits and either pick greedily or rank the candidates. Where a
/// weighed logit is NaN, it counts as equal to every other: the candidates are
/// then distinct tokens, but no ranking.
pub fn prepare_draw(logits: &mut Vec<u32>, history: &Vec<u32>, opts: &GenOptions) -> (r: Draw)
    requires
        old(logits)@.len() <= u32::MAX,
        opts.greedy() || old(logits)@.len() > 0,
    ensures
        final(logits)@ == weighed(old(logits)@, history@, opts.repeat_penalty as int),
        r@ == prepared(final(logits)@, *opts),
        match r {
            Draw::Token(t) => opts.greedy() && t == best(final(logits)@, old(logits)@.len() as int),
            Draw::Ranked(c) => {
                let k = kept(opts.top_k as int, old(logits)@.len() as int);
                &&& !opts.greedy()
                &&& c.ids@.len() == k
                &&& k > 0
                &&& c.vals@ == values(final(logits)@, c.ids@)
                &&& tokens_below(c.ids@, old(logits)@.len() as int)
                &&& c.ids@.no_duplicates()
                &&& no_nan(final(logits)@) ==> ranked(final(logits)@, c.ids@, k)
            },
        },
{
    apply_penalty(logits, history, opts.repeat_penalty);
    let n: usize = logits.len();
    if opts.is_greedy() {
        if n == 0 {
            return Draw::Token(0);
        }
        let mut b: usize = 0;
        let mut i: usize = 1;
        while i < n
            invariant
                1 <= i <= n,
                n == logits@.len(),
                b == best(logits@, i as int),
                b < n,
            decreases n - i,
        {
            if !f32_lt(logits[i], logits[b]) {
                b = i;
            }
            i = i + 1;
        }
        return Draw::Token(b as u32);
    }
    let k: usize = keep(opts.top_k, n);
    let mut ids: Vec<u32> = sorted(logits, 0, n);
    let ghost all = ids@;
    proof {
        lemma_ranking_holds(logits@, 0, n as int, 0);
        lemma_ranking_below(logits@, 0, n as int, n as int);
        lemma_ranking_distinct(logits@, 0, n as int);
    }
    ids.truncate(k);
    assert(ids@ =~= all.take(k as int));
    let mut vals: Vec<u32> = Vec::new();
    let mut i: usize = 0;
    while i < k
        invariant
            i <= k,
            k == ids@.len(),
            n == logits@.len(),
            tokens_below(ids@, n as int),
            vals@ =~= values(logits@, ids@).take(i as int),
        decreases k - i,
    {
        assert(ids@[i as int] < n);
        let v: u32 = logits[ids[i] as usize];
        vals.push(v);
        i = i + 1;
    }
    proof {
        assert(vals@ =~= values(logits@, ids@));
        if no_nan(logits@) {
            law_rankings_rank(logits@, k as int);
        }
    }
    Draw::Ranked(Candidates { vals, ids })
}

// The categorical draw.

/// The reciprocal of the temperature, kept off zero.
pub open spec fn inverse_temperature(t: int) -> int {
    Format::F32.quotient(
        ONE as int,
        if Format::F32.is_nan(t) || Format::F32.less(t, MIN_TEMPERATURE as int) {
            MIN_TEMPERATURE as int
        } else {
            t
        },
    )
}

/// What the candidates' weights are the exponentials of.
pub open spec fn exponents_of(vals: Seq<u32>, t: int) -> Seq<u32> {
    Seq::new(
        vals.len(),
        |i: int|
            Format::F32.product(
                Format::F32.difference(vals[i] as int, vals[0] as int),
                inverse_temperature(t),
            ) as u32,
    )
}

/// The exponents of candidates in descending order.
pub fn exponents(vals: &Vec<u32>, temperature: u32) -> (r: Vec<u32>)
    requires
        vals@.len() > 0,
    ensures
        r@ == exponents_of(vals@, temperature as int),
{
    let t: u32 = if Format::F32.nan_pattern(temperature as u64) || f32_lt(
        temperature,
        MIN_TEMPERATURE,
    ) {
        MIN_TEMPERATURE
    } else {
        temperature
    };
    let inv: u32 = f32_div(ONE, t);
    let top: u32 = vals[0];
    let mut r: Vec<u32> = Vec::new();
    let mut i: usize = 0;
    while i < vals.len()
        invariant
            i <= vals@.len(),
            vals@.len() > 0,
            top == vals@[0],
            inv == inverse_temperature(temperature as int),
            r@ =~= exponents_of(vals@, temperature as int).take(i as int),
        decreases vals@.len() - i,
    {
        let d: u32 = f32_sub(vals[i], top);
        let e: u32 = f32_mul(d, inv);
        r.push(e);
        i = i + 1;
    }
    assert(r@ =~= exponents_of(vals@, temperature as int));
    r
}

/// The sum, added up from the left.
pub open spec fn total(s: Seq<u32>) -> int
    decreases s.len(),
{
    if s.len() == 0 {
        0
    } else {
        Format::F32.sum(total(s.drop_last()), s.last() as int)
    }
}

/// The weights over their sum.
pub open spec fn normalized(w: Seq<u32>) -> Seq<u32> {
    Seq::new(w.len(), |i: int| Format::F32.quotient(w[i] as int, total(w)) as u32)
}

/// How many probabilities from `i` on it takes to reach `top_p`; all where
/// they never do.
pub open spec fn nucleus(p: Seq<u32>, top_p: int, i: int) -> int
    decreases p.len() - i,
{
    if i < 0 || i >= p.len() {
        p.len() as int
    } else if at_most(top_p, total(p.take(i + 1))) {
        i + 1
    } else {
        nucleus(p, top_p, i + 1)
    }
}

/// What is left of `r` after the first `n` probabilities.
pub open spec fn remaining(p: Seq<u32>, r: int, n: int) -> int
    decreases n,
{
    if n <= 0 {
        r
    } else {
        Format::F32.difference(remaining(p, r, n - 1), p[n - 1] as int)
    }
}

/// The first from `i` on that uses `r` up; the last where none does.
pub open spec fn struck(p: Seq<u32>, r: int, i: int) -> int
    decreases p.len() - i,
{
    if i < 0 || i >= p.len() {
        p.len() - 1
    } else if at_most(remaining(p, r, i + 1), 0) {
        i
    } else {
        struck(p, r, i + 1)
    }
}

/// The candidate that a uniform number picks.
pub open spec fn picked(weights: Seq<u32>, top_p: int, uniform: int) -> int {
    let p = normalized(weights);
    let q = p.take(nucleus(p, top_p, 0));
    struck(q, Format::F32.product(uniform, total(q)), 0)
}

proof fn lemma_nucleus(p: Seq<u32>, top_p: int, i: int)
    requires
        0 <= i,
    ensures
        i < p.len() ==> i < nucleus(p, top_p, i) <= p.len(),
        i >= p.len() ==> nucleus(p, top_p, i) == p.len(),
    decreases p.len() - i,
{
    if i < p.len() && !at_most(top_p, total(p.take(i + 1))) {
        lemma_nucleus(p, top_p, i + 1);
    }
}

proof fn lemma_struck(p: Seq<u32>, r: int, i: int)
    requires
        0 <= i,
        p.len() > 0,
    ensures
        0 <= struck(p, r, i) < p.len(),
    decreases p.len() - i,
{
    if i < p.len() && !at_most(remaining(p, r, i + 1), 0) {
        lemma_struck(p, r, i + 1);
    }
}

/// The draw always lands in the nucleus, whatever the weights.
pub proof fn law_draws_stay_in_the_nucleus(weights: Seq<u32>, top_p: int, uniform: int)
    requires
        weights.len() > 0,
    ensures
        0 <= picked(weights, top_p, uniform) < nucleus(normalized(weights), top_p, 0)
            <= weights.len(),
{
    let p = normalized(weights);
    lemma_nucleus(p, top_p, 0);
    let q = p.take(nucleus(p, top_p, 0));
    lemma_struck(q, Format::F32.product(uniform, total(q)), 0);
}

fn add_up(s: &Vec<u32>, n: usize) -> (r: u32)
    requires
        n <= s@.len(),
    ensures
        r == total(s@.take(n as int)),
{
    let mut r: u32 = 0;
    let mut i: usize = 0;
    assert(s@.take(0).len() == 0);
    while i < n
        invariant
            i <= n <= s@.len(),
            r == total(s@.take(i as int)),
        decreases n - i,
    {
        proof {
            assert(s@.take(i + 1).drop_last() =~= s@.take(i as int));
        }
        r = f32_add(r, s[i]);
        i = i + 1;
    }
    r
}

/// Index of the picked candidate.
pub fn pick(weights: &Vec<u32>, top_p: u32, uniform: u32) -> (r: usize)
    requires
        weights@.len() > 0,
    ensures
        r == picked(weights@, top_p as int, uniform as int),
        r < weights@.len(),
{
    let n: usize = weights.len();
    let sum: u32 = add_up(weights, n);
    assert(weights@.take(n as int) =~= weights@);
    let mut p: Vec<u32> = Vec::new();
    let mut i: usize = 0;
    while i < n
        invariant
            i <= n,
            n == weights@.len(),
            sum == total(weights@),
            p@ =~= normalized(weights@).take(i as int),
        decreases n - i,
    {
        let v: u32 = f32_div(weights[i], sum);
        p.push(v);
        i = i + 1;
    }
    assert(p@ =~= normalized(weights@));
    let ghost all = p@;
    let mut cut: usize = n;
    let mut cum: u32 = 0;
    let mut j: usize = 0;
    let mut going: bool = true;
    assert(all.take(0).len() == 0);
    while going && j < n
        invariant
            j <= n,
            n == p@.len(),
            all == p@,
            going ==> cum == total(all.take(j as int)) && nucleus(all, top_p as int, 0) == nucleus(
                all,
                top_p as int,
                j as int,
            ) && cut == n,
            !going ==> cut == nucleus(all, top_p as int, 0),
        decreases n - j,
    {
        proof {
            assert(all.take(j + 1).drop_last() =~= all.take(j as int));
        }
        cum = f32_add(cum, p[j]);
        if f32_le(top_p, cum) {
            cut = j + 1;
            going = false;
        }
        j = j + 1;
    }
    proof {
        lemma_nucleus(all, top_p as int, 0);
    }
    p.truncate(cut);
    let ghost q = p@;
    assert(q =~= all.take(nucleus(all, top_p as int, 0)));
    let norm: u32 = add_up(&p, cut);
    assert(p@.take(cut as int) =~= p@);
    let r0: u32 = f32_mul(uniform, norm);
    let mut r: u32 = r0;
    let mut m: usize = 0;
    proof {
        lemma_struck(q, r0 as int, 0);
    }
    while m < cut
        invariant
            m <= cut,
            0 < cut <= weights@.len(),
            cut == p@.len(),
            q == p@,
            r == remaining(q, r0 as int, m as int),
            struck(q, r0 as int, 0) == struck(q, r0 as int, m as int),
            struck(q, r0 as int, 0) == picked(weights@, top_p as int, uniform as int),
        decreases cut - m,
    {
        r = f32_sub(r, p[m]);
        if f32_le(r, 0) {
            return m;
        }
        m = m + 1;
    }
    cut - 1
}

/// Sampler state: a shift-register generator, never zero.
pub struct DefaultSampler {
    pub rng: u64,
}

/// The generator's next state.
pub open spec fn shifted(x: u64) -> u64 {
    let a = x ^ (x >> 12);
    let b = a ^ (a << 25);
    b ^ (b >> 27)
}

/// The uniform number that a state stands for: twenty-four bits over their
/// range.
pub open spec fn uniform_of(x: u64) -> int {
    Format::F32.quotient(
        Format::F32.of_int((x.wrapping_mul(STAR) >> 40) as int),
        DRAW_RANGE as int,
    )
}

/// The state that a seed stands for; zero counts as one.
pub open spec fn seeded(seed: u64) -> u64 {
    if seed == 0 {
        1
    } else {
        seed
    }
}

/// The token picked from weighed candidates, and the state after it: the first
/// where sampling is greedy, else by a draw.
pub open spec fn finished(
    rng: u64,
    weights: Seq<u32>,
    ids: Seq<u32>,
    opts: GenOptions,
) -> (u32, u64) {
    if opts.greedy() {
        (ids[0], rng)
    } else {
        let next = shifted(rng);
        (ids[picked(weights, opts.top_p as int, uniform_of(next))], next)
    }
}

impl DefaultSampler {
    pub open spec fn wf(&self) -> bool {
        self.rng != 0
    }

    /// A sampler whose draws follow from `seed`; zero counts as one.
    pub fn new(seed: u64) -> (r: Self)
        ensures
            r.rng == seeded(seed),
            r.wf(),
    {
        DefaultSampler { rng: if seed == 0 { 1 } else { seed } }
    }

    /// Advance the generator by one draw.
    pub fn next_f32(&mut self) -> (r: u32)
        ensures
            final(self).rng == shifted(old(self).rng),
            r == uniform_of(final(self).rng),
            old(self).wf() ==> final(self).wf(),
    {
        let x0: u64 = self.rng;
        let x1: u64 = x0 ^ (x0 >> 12);
        let x2: u64 = x1 ^ (x1 << 25);
        let x3: u64 = x2 ^ (x2 >> 27);
        proof {
            assert(x0 != 0 ==> x0 ^ (x0 >> 12) != 0) by (bit_vector);
            assert(x1 != 0 ==> x1 ^ (x1 << 25) != 0) by (bit_vector);
            assert(x2 != 0 ==> x2 ^ (x2 >> 27) != 0) by (bit_vector);
        }
        self.rng = x3;
        let y: u64 = x3.wrapping_mul(STAR);
        let m: u64 = y >> 40;
        assert(m == y >> 40 ==> m < 0x100_0000) by (bit_vector);
        f32_div(f32_from_i32(m as i32), DRAW_RANGE)
    }

    /// Pick from candidates in descending order, whose weights are
    /// `weights`: the first where sampling is greedy, else by a draw.
    pub fn finish(&mut self, weights: &Vec<u32>, ids: &Vec<u32>, opts: &GenOptions) -> (r: u32)
        requires
            weights@.len() == ids@.len(),
            ids@.len() > 0,
        ensures
            (r, final(self).rng) == finished(old(self).rng, weights@, ids@, *opts),
            ids@.contains(r),
            old(self).wf() ==> final(self).wf(),
    {
        if opts.is_greedy() {
            assert(ids@.contains(ids@[0]));
            return ids[0];
        }
        let u: u32 = self.next_f32();
        let i: usize = pick(weights, opts.top_p, u);
        assert(ids@.contains(ids@[i as int]));
        ids[i]
    }
}

// Whole steps.

/// The weights of candidates: `exp` of their exponents, where `exp` is the
/// platform's exponential.
pub open spec fn weights_of(vals: Seq<u32>, t: int, exp: spec_fn(u32) -> u32) -> Seq<u32> {
    let e = exponents_of(vals, t);
    Seq::new(e.len(), |i: int| exp(e[i]))
}

/// A step that samples from logits.
pub struct Turn {
    pub logits: Seq<u32>,
    pub history: Seq<u32>,
    pub opts: GenOptions,
}

/// The token of a step over all logits, and the state after it.
pub open spec fn sampled(rng: u64, t: Turn, exp: spec_fn(u32) -> u32) -> (u32, u64) {
    match prepared(weighed(t.logits, t.history, t.opts.repeat_penalty as int), t.opts) {
        Prepared::Token(x) => (x, rng),
        Prepared::Ranked { vals, ids } => finished(
            rng,
            weights_of(vals, t.opts.temperature as int, exp),
            ids,
            t.opts,
        ),
    }
}

/// The token of a step over candidates that the device ranked, and the state
/// after it: they are cut to top-k first.
pub open spec fn sampled_cut(
    rng: u64,
    vals: Seq<u32>,
    ids: Seq<u32>,
    opts: GenOptions,
    exp: spec_fn(u32) -> u32,
) -> (u32, u64) {
    let k = kept(opts.top_k as int, ids.len() as int);
    finished(rng, weights_of(vals.take(k), opts.temperature as int, exp), ids.take(k), opts)
}

/// `f` is what calls of `exp` compute.
pub open spec fn computes<E: Fn(u32) -> u32>(exp: E, f: spec_fn(u32) -> u32) -> bool {
    forall|x: u32, y: u32| #[trigger] call_ensures(exp, (x,), y) ==> y == f(x)
}

/// `exp` of every exponent.
fn weigh<E: Fn(u32) -> u32>(e: &Vec<u32>, exp: &E) -> (r: Vec<u32>)
    requires
        forall|x: u32| call_requires(*exp, (x,)),
    ensures
        r@.len() == e@.len(),
        forall|i: int| 0 <= i < r@.len() ==> call_ensures(*exp, (e@[i],), #[trigger] r@[i]),
{
    let mut r: Vec<u32> = Vec::new();
    let mut i: usize = 0;
    while i < e.len()
        invariant
            i <= e@.len(),
            forall|x: u32| call_requires(*exp, (x,)),
            r@.len() == i,
            forall|k: int| 0 <= k < i ==> call_ensures(*exp, (e@[k],), #[trigger] r@[k]),
        decreases e@.len() - i,
    {
        let w: u32 = exp(e[i]);
        r.push(w);
        i = i + 1;
    }
    r
}

impl DefaultSampler {
    /// A token from a row of logits, which are weighed in place; `exp` is the
    /// exponential. Whatever function `exp` computes, the token and the state
    /// after it are those of the step.
    pub fn sample<E: Fn(u32) -> u32>(
        &mut self,
        logits: &mut Vec<u32>,
        history: &Vec<u32>,
        opts: &GenOptions,
        exp: &E,
    ) -> (r: u32)
        requires
            old(logits)@.len() <= u32::MAX,
            opts.greedy() || old(logits)@.len() > 0,
            forall|x: u32| call_requires(*exp, (x,)),
        ensures
            final(logits)@ == weighed(old(logits)@, history@, opts.repeat_penalty as int),
            r < old(logits)@.len() || old(logits)@.len() == 0 && r == 0,
            opts.greedy() ==> r == best(final(logits)@, old(logits)@.len() as int) && *final(self)
                == *old(self),
            !opts.greedy() ==> final(self).rng == shifted(old(self).rng),
            forall|f: spec_fn(u32) -> u32| #[trigger]
                computes(*exp, f) ==> (r, final(self).rng) == sampled(
                    old(self).rng,
                    (Turn { logits: old(logits)@, history: history@, opts: *opts }),
                    f,
                ),
            old(self).wf() ==> final(self).wf(),
    {
        let ghost l0 = logits@;
        match prepare_draw(logits, history, opts) {
            Draw::Token(t) => {
                proof {
                    lemma_best(logits@, logits@.len() as int);
                    lemma_weighed_len(l0, history@, opts.repeat_penalty as int);
                }
                t
            },
            Draw::Ranked(c) => {
                let e: Vec<u32> = exponents(&c.vals, opts.temperature);
                let w: Vec<u32> = weigh(&e, exp);
                let ghost rng = self.rng;
                let r: u32 = self.finish(&w, &c.ids, opts);
                proof {
                    assert forall|f: spec_fn(u32) -> u32| #[trigger] computes(*exp, f) implies (
                        r,
                        self.rng,
                    ) == sampled(
                        rng,
                        (Turn { logits: l0, history: history@, opts: *opts }),
                        f,
                    ) by {
                        assert forall|i: int| 0 <= i < w@.len() implies w@[i] == f(e@[i]) by {
                            assert(call_ensures(*exp, (e@[i],), w@[i]));
                        }
                        assert(w@ =~= weights_of(c.vals@, opts.temperature as int, f));
                    }
                }
                r
            },
        }
    }
}

impl DefaultSampler {
    /// A token from candidates that the device ranked, `vals` their logits:
    /// cut to top-k, then as from all logits. `exp` is the exponential.
    pub fn sample_candidates<E: Fn(u32) -> u32>(
        &mut self,
        vals: &Vec<u32>,
        ids: &Vec<u32>,
        opts: &GenOptions,
        exp: &E,
    ) -> (r: u32)
        requires
            vals@.len() == ids@.len(),
            ids@.len() > 0,
            forall|x: u32| call_requires(*exp, (x,)),
        ensures
            ids@.take(kept(opts.top_k as int, ids@.len() as int)).contains(r),
            opts.greedy() ==> r == ids@[0] && *final(self) == *old(self),
            !opts.greedy() ==> final(self).rng == shifted(old(self).rng),
            forall|f: spec_fn(u32) -> u32| #[trigger]
                computes(*exp, f) ==> (r, final(self).rng) == sampled_cut(
                    old(self).rng,
                    vals@,
                    ids@,
                    *opts,
                    f,
                ),
            old(self).wf() ==> final(self).wf(),
    {
        let k: usize = keep(opts.top_k, ids.len());
        let mut v: Vec<u32> = vals.clone();
        v.truncate(k);
        let mut c: Vec<u32> = ids.clone();
        c.truncate(k);
        assert(v@ =~= vals@.take(k as int));
        assert(c@ =~= ids@.take(k as int));
        let e: Vec<u32> = exponents(&v, opts.temperature);
        let w: Vec<u32> = weigh(&e, exp);
        let ghost rng = self.rng;
        let r: u32 = self.finish(&w, &c, opts);
        proof {
            assert forall|f: spec_fn(u32) -> u32| #[trigger] computes(*exp, f) implies (
                r,
                self.rng,
            ) == sampled_cut(rng, vals@, ids@, *opts, f) by {
                assert forall|i: int| 0 <= i < w@.len() implies w@[i] == f(e@[i]) by {
                    assert(call_ensures(*exp, (e@[i],), w@[i]));
                }
                assert(w@ =~= weights_of(v@, opts.temperature as int, f));
            }
        }
        r
    }
}

proof fn lemma_weighed_len(l: Seq<u32>, history: Seq<u32>, penalty: int)
    ensures
        weighed(l, history, penalty).len() == l.len(),
{
    if !Format::F32.equal(penalty, ONE as int) {
        lemma_penalties_len(l, window(history), penalty);
    }
}

/// `tokens` are what a sampler in state `states[0]` draws over `turns`, and
/// `states` those that it goes through.
pub open spec fn draws(
    states: Seq<u64>,
    turns: Seq<Turn>,
    tokens: Seq<u32>,
    exp: spec_fn(u32) -> u32,
) -> bool {
    &&& tokens.len() == turns.len()
    &&& states.len() == turns.len() + 1
    &&& forall|i: int|
        0 <= i < turns.len() ==> (#[trigger] tokens[i], states[i + 1]) == sampled(
            states[i],
            turns[i],
            exp,
        )
}

/// Sampling is determined by the seed: two samplers of one seed that are fed
/// the same steps draw the same tokens and end in the same state. Seed zero
/// draws what seed one draws.
pub proof fn law_draws_follow_from_the_seed(
    a: u64,
    b: u64,
    turns: Seq<Turn>,
    exp: spec_fn(u32) -> u32,
    x: (Seq<u64>, Seq<u32>),
    y: (Seq<u64>, Seq<u32>),
)
    requires
        a == b || (a <= 1 && b <= 1),
        draws(x.0, turns, x.1, exp),
        draws(y.0, turns, y.1, exp),
        x.0[0] == seeded(a),
        y.0[0] == seeded(b),
    ensures
        x.1 == y.1,
        x.0 == y.0,
{
    lemma_same_states(turns, exp, x, y, turns.len() as int);
    assert forall|i: int| 0 <= i < turns.len() implies x.1[i] == y.1[i] by {
        lemma_same_states(turns, exp, x, y, i);
        assert((x.1[i], x.0[i + 1]) == sampled(x.0[i], turns[i], exp));
        assert((y.1[i], y.0[i + 1]) == sampled(y.0[i], turns[i], exp));
    }
    assert(x.1 =~= y.1);
    assert forall|i: int| 0 <= i < x.0.len() implies x.0[i] == y.0[i] by {
        lemma_same_states(turns, exp, x, y, i);
    }
    assert(x.0 =~= y.0);
}

proof fn lemma_same_states(
    turns: Seq<Turn>,
    exp: spec_fn(u32) -> u32,
    x: (Seq<u64>, Seq<u32>),
    y: (Seq<u64>, Seq<u32>),
    i: int,
)
    requires
        draws(x.0, turns, x.1, exp),
        draws(y.0, turns, y.1, exp),
        x.0[0] == y.0[0],
        0 <= i <= turns.len(),
    ensures
        x.0[i] == y.0[i],
    decreases i,
{
    if i > 0 {
        lemma_same_states(turns, exp, x, y, i - 1);
        assert((x.1[i - 1], x.0[i - 1 + 1]) == sampled(x.0[i - 1], turns[i - 1], exp));
        assert((y.1[i - 1], y.0[i - 1 + 1]) == sampled(y.0[i - 1], turns[i - 1], exp));
    }
}

/// Without a repeat penalty, candidates that the device ranked stand for all
/// logits: a step over them draws the same token and leaves the same state as
/// a step over the logits, which it leaves as they are. All tokens may be
/// ranked, or at least as many as top-k keeps.
pub proof fn law_candidates_stand_for_all_logits(
    rng: u64,
    t: Turn,
    vals: Seq<u32>,
    ids: Seq<u32>,
    exp: spec_fn(u32) -> u32,
)
    requires
        Format::F32.equal(t.opts.repeat_penalty as int, ONE as int),
        no_nan(t.logits),
        0 < t.logits.len() <= u32::MAX,
        ranked(t.logits, ids, ids.len() as int),
        ids.len() == t.logits.len() || 1 <= t.opts.top_k <= ids.len() <= t.logits.len(),
        vals == values(t.logits, ids),
    ensures
        weighed(t.logits, t.history, t.opts.repeat_penalty as int) == t.logits,
        sampled_cut(rng, vals, ids, t.opts, exp) == sampled(rng, t, exp),
{
    let l = t.logits;
    let n = l.len() as int;
    let m = ids.len() as int;
    let k = kept(t.opts.top_k as int, n);
    assert(kept(t.opts.top_k as int, m) == k);
    let all = ranking(l, 0, n).take(k);
    law_rankings_rank(l, k);
    law_cut_rankings_are_rankings(l, ids, m, k);
    law_ranking_is_unique(l, ids.take(k), all, k);
    if t.opts.greedy() {
        law_greedy_is_the_first_candidate(l, ids, m);
        assert(ids.take(k)[0] == ids[0]);
    } else {
        assert(values(l, all) =~= vals.take(k));
    }
}

} // verus!
