//! The decisions of a generation: which prompt is fed, how far the caches
//! reach, which decoding path runs, and what each token does to the output.
use vstd::prelude::*;
use vstd::utf8::encode_utf8;

use crate::ieee::Format;
use crate::models::prompt::PreparedPrompt;
use crate::models::sampler::GenOptions;
use crate::models::{ONE, SAMPLE_TOPK};
use crate::text;
use crate::utf8;

verus! {

/// Positions that truncation leaves for the answer.
pub const ANSWER_SLOTS: usize = 16;

/// Draws of one constrained token before the generation gives up.
pub const MAX_DRAWS: usize = 4096;

/// Negative infinity.
pub const MASKED: u32 = 0xff80_0000;

// Stop sequences.

/// Some stop sequence stands in `t` at `i`. Empty ones do not count.
pub open spec fn stops_at(t: Seq<char>, stops: Seq<String>, i: int) -> bool {
    exists|k: int|
        0 <= k < stops.len() && (#[trigger] stops[k])@.len() > 0 && text::at(t, i, stops[k]@)
}

/// Where the earliest stop sequence stands, from `i` on.
pub open spec fn stop_from(t: Seq<char>, stops: Seq<String>, i: int) -> Option<int>
    decreases t.len() - i,
{
    if i >= t.len() {
        None
    } else if stops_at(t, stops, i) {
        Some(i)
    } else {
        stop_from(t, stops, i + 1)
    }
}

/// The part of a text before its earliest stop sequence.
pub open spec fn trimmed(t: Seq<char>, stops: Seq<String>) -> Seq<char> {
    match stop_from(t, stops, 0) {
        Some(i) => t.take(i),
        None => t,
    }
}

proof fn lemma_stop_from(t: Seq<char>, stops: Seq<String>, i: int)
    requires
        0 <= i,
    ensures
        match stop_from(t, stops, i) {
            Some(j) => i <= j < t.len() && stops_at(t, stops, j) && forall|k: int|
                i <= k < j ==> !#[trigger] stops_at(t, stops, k),
            None => forall|k: int| i <= k ==> !#[trigger] stops_at(t, stops, k),
        },
    decreases t.len() - i,
{
    if i < t.len() {
        if !stops_at(t, stops, i) {
            lemma_stop_from(t, stops, i + 1);
        }
    } else {
        assert forall|k: int| i <= k implies !#[trigger] stops_at(t, stops, k) by {}
    }
}

/// A trimmed text is free of stop sequences.
pub proof fn law_stops_are_exclusive(t: Seq<char>, stops: Seq<String>, k: int, i: int)
    requires
        0 <= k < stops.len(),
        stops[k]@.len() > 0,
    ensures
        !text::at(trimmed(t, stops), i, stops[k]@),
{
    let s = trimmed(t, stops);
    lemma_stop_from(t, stops, 0);
    if text::at(s, i, stops[k]@) {
        let p = stops[k]@;
        assert(t.subrange(i, i + p.len()) =~= s.subrange(i, i + p.len()));
        assert(stops_at(t, stops, i));
    }
}

fn is_stop(t: &Vec<char>, stops: &Vec<Vec<char>>, i: usize, Ghost(ss): Ghost<Seq<String>>) -> (r:
    bool)
    requires
        stops@.len() == ss.len(),
        forall|k: int| 0 <= k < ss.len() ==> (#[trigger] stops@[k])@ == ss[k]@,
    ensures
        r == stops_at(t@, ss, i as int),
{
    let mut k: usize = 0;
    while k < stops.len()
        invariant
            k <= stops@.len(),
            stops@.len() == ss.len(),
            forall|k: int| 0 <= k < ss.len() ==> (#[trigger] stops@[k])@ == ss[k]@,
            forall|m: int|
                0 <= m < k ==> !((#[trigger] ss[m])@.len() > 0 && text::at(t@, i as int, ss[m]@)),
        decreases stops@.len() - k,
    {
        assert(stops@[k as int]@ == ss[k as int]@);
        if stops[k].len() > 0 && text::is_at(t, i, &stops[k]) {
            return true;
        }
        k = k + 1;
    }
    false
}

/// Character index of the earliest stop sequence.
fn stop_index(t: &Vec<char>, stops: &Vec<String>) -> (r: Option<usize>)
    ensures
        match r {
            Some(i) => stop_from(t@, stops@, 0) == Some(i as int) && i < t@.len(),
            None => stop_from(t@, stops@, 0) is None,
        },
{
    let mut ps: Vec<Vec<char>> = Vec::new();
    let mut k: usize = 0;
    while k < stops.len()
        invariant
            k <= stops@.len(),
            ps@.len() == k,
            forall|m: int| 0 <= m < k ==> (#[trigger] ps@[m])@ == stops@[m]@,
        decreases stops@.len() - k,
    {
        let p: Vec<char> = text::to_chars(stops[k].as_str());
        ps.push(p);
        k = k + 1;
    }
    let mut i: usize = 0;
    while i < t.len()
        invariant
            i <= t@.len(),
            ps@.len() == stops@.len(),
            forall|m: int| 0 <= m < stops@.len() ==> (#[trigger] ps@[m])@ == stops@[m]@,
            stop_from(t@, stops@, 0) == stop_from(t@, stops@, i as int),
        decreases t@.len() - i,
    {
        if is_stop(t, &ps, i, Ghost(stops@)) {
            return Some(i);
        }
        i = i + 1;
    }
    None
}

/// Byte offset of the earliest stop sequence in `text`.
pub fn earliest_stop(text: &str, stops: &Vec<String>) -> (r: Option<usize>)
    ensures
        match r {
            Some(b) => stop_from(text@, stops@, 0) is Some && b == encode_utf8(
                text@.take(stop_from(text@, stops@, 0)->0),
            ).len(),
            None => stop_from(text@, stops@, 0) is None,
        },
{
    let t: Vec<char> = text::to_chars(text);
    match stop_index(&t, stops) {
        Some(i) => Some(utf8::prefix_bytes(text, &t, i)),
        None => None,
    }
}

// The prompt and the caches.

/// How many tokens a truncated prompt keeps.
pub open spec fn room(max_seq: int) -> int {
    if max_seq - ANSWER_SLOTS >= 2 {
        max_seq - ANSWER_SLOTS
    } else {
        2
    }
}

/// The tokens that fit the caches: all, or the first and the most recent.
pub open spec fn fitted(tokens: Seq<u32>, plain: bool, max_seq: int) -> Seq<u32> {
    if plain && tokens.len() + ANSWER_SLOTS > max_seq {
        seq![tokens[0]] + tokens.skip(tokens.len() - (room(max_seq) - 1))
    } else {
        tokens
    }
}

impl PreparedPrompt {
    /// Neither media nor blocks address positions of the prompt.
    pub open spec fn plain(&self) -> bool {
        self.media_embeds@.len() == 0 && self.block_ids@.len() == 0
    }

    pub fn is_plain(&self) -> (r: bool)
        ensures
            r == self.plain(),
    {
        self.media_embeds.len() == 0 && self.block_ids.len() == 0
    }
}

/// The prompt's tokens cut to the context window. Prompts with media are not
/// cut.
pub fn fit_prompt(p: &PreparedPrompt, max_seq: usize) -> (r: Vec<u32>)
    requires
        p.plain() ==> p.tokens@.len() > 0 || max_seq >= ANSWER_SLOTS,
    ensures
        r@ == fitted(p.tokens@, p.plain(), max_seq as int),
{
    let n: usize = p.tokens.len();
    let long: bool = if max_seq < ANSWER_SLOTS {
        true
    } else {
        n > max_seq - ANSWER_SLOTS
    };
    if p.is_plain() && long {
        let keep: usize = if max_seq >= ANSWER_SLOTS + 2 {
            max_seq - ANSWER_SLOTS
        } else {
            2
        };
        let from: usize = n - (keep - 1);
        let mut r: Vec<u32> = Vec::new();
        r.push(p.tokens[0]);
        let mut i: usize = from;
        while i < n
            invariant
                from <= i <= n,
                n == p.tokens@.len(),
                r@ =~= seq![p.tokens@[0]] + p.tokens@.subrange(from as int, i as int),
            decreases n - i,
        {
            r.push(p.tokens[i]);
            i = i + 1;
        }
        assert(p.tokens@.subrange(from as int, n as int) =~= p.tokens@.skip(from as int));
        return r;
    }
    p.tokens.clone()
}

/// A truncated prompt starts with the first token, ends with the last ones
/// and leaves room to answer.
pub proof fn law_truncation_keeps_both_ends(tokens: Seq<u32>, max_seq: int)
    requires
        max_seq >= ANSWER_SLOTS + 2,
        tokens.len() + ANSWER_SLOTS > max_seq,
    ensures
        fitted(tokens, true, max_seq).len() == max_seq - ANSWER_SLOTS,
        fitted(tokens, true, max_seq)[0] == tokens[0],
        fitted(tokens, true, max_seq).skip(1) == tokens.skip(
            tokens.len() - (max_seq - ANSWER_SLOTS - 1),
        ),
{
    let f = fitted(tokens, true, max_seq);
    assert(f.skip(1) =~= tokens.skip(tokens.len() - (max_seq - ANSWER_SLOTS - 1)));
}

/// Tokens from `i` on that the session and the prompt share, with one of the
/// prompt left over.
pub open spec fn shared_from(session: Seq<u32>, tokens: Seq<u32>, i: int) -> int
    decreases session.len() - i,
{
    if i < session.len() && i < tokens.len() - 1 && session[i] == tokens[i] {
        shared_from(session, tokens, i + 1)
    } else {
        i
    }
}

/// How many rows of the caches a prompt reuses.
pub open spec fn reused(session: Seq<u32>, tokens: Seq<u32>, allowed: bool) -> int {
    if allowed {
        shared_from(session, tokens, 0)
    } else {
        0
    }
}

/// The rows that are reused hold the prompt's own tokens, at least one token
/// is computed afresh, and no longer start is shared.
pub proof fn law_reuse_is_the_common_prefix(session: Seq<u32>, tokens: Seq<u32>)
    ensures
        0 <= reused(session, tokens, true) <= session.len(),
        tokens.len() > 0 ==> reused(session, tokens, true) < tokens.len(),
        session.take(reused(session, tokens, true)) == tokens.take(
            reused(session, tokens, true),
        ),
        forall|n: int|
            reused(session, tokens, true) < n <= session.len() && n < tokens.len()
                ==> session.take(n) != #[trigger] tokens.take(n),
{
    lemma_shared(session, tokens, 0);
    let c = reused(session, tokens, true);
    assert(session.take(c) =~= tokens.take(c));
    assert forall|n: int| c < n <= session.len() && n < tokens.len() implies session.take(n)
        != #[trigger] tokens.take(n) by {
        assert(session.take(n)[c] != tokens.take(n)[c]);
    }
}

proof fn lemma_shared(session: Seq<u32>, tokens: Seq<u32>, i: int)
    requires
        0 <= i <= session.len(),
        i == 0 || i < tokens.len(),
        forall|k: int| 0 <= k < i ==> session[k] == tokens[k],
    ensures
        ({
            let c = shared_from(session, tokens, i);
            &&& i <= c <= session.len()
            &&& c == 0 || c < tokens.len()
            &&& forall|k: int| 0 <= k < c ==> session[k] == tokens[k]
            &&& c < session.len() && c < tokens.len() - 1 ==> session[c] != tokens[c]
        }),
    decreases session.len() - i,
{
    if i < session.len() && i < tokens.len() - 1 && session[i] == tokens[i] {
        lemma_shared(session, tokens, i + 1);
    }
}

/// Rows of the caches that need no computing. Only families whose reset keeps
/// them, and only prompts without media, reuse any.
pub fn reuse(session: &Vec<u32>, tokens: &Vec<u32>, plain: bool, keeps_rows: bool, off: bool) -> (r:
    usize)
    ensures
        r == reused(session@, tokens@, keeps_rows && plain && !off),
        r <= tokens@.len(),
{
    if !(keeps_rows && plain && !off) {
        return 0;
    }
    let mut i: usize = 0;
    while i < session.len() && i < tokens.len() && i + 1 < tokens.len() && session[i] == tokens[i]
        invariant
            i <= session@.len(),
            i <= tokens@.len(),
            shared_from(session@, tokens@, 0) == shared_from(session@, tokens@, i as int),
        decreases session@.len() - i,
    {
        i = i + 1;
    }
    i
}

// Decoding paths.

/// How tokens are chosen.
#[derive(Clone, Copy, PartialEq, Eq, Debug, Structural)]
pub struct Paths {
    /// The device's argmax is the token.
    pub greedy: bool,
    /// The device feeds its own argmax ahead of the host.
    pub pipeline: bool,
    /// The device ranks the candidates.
    pub sample_graph: bool,
}

/// Decide the paths. `constrained` output needs every logit on the host.
pub fn paths(
    opts: &GenOptions,
    constrained: bool,
    device_pipeline: bool,
    pipeline_off: bool,
    graph_off: bool,
) -> (r: Paths)
    ensures
        r.greedy == ((opts.greedy() || opts.top_k == 1) && Format::F32.equal(
            opts.repeat_penalty as int,
            ONE as int,
        ) && !constrained),
        r.pipeline == (r.greedy && device_pipeline && !pipeline_off),
        r.sample_graph == (!r.greedy && !constrained && 1 <= opts.top_k <= SAMPLE_TOPK
            && !graph_off),
{
    let greedy: bool = (opts.is_greedy() || opts.top_k == 1) && Format::F32.eq_value(
        opts.repeat_penalty as u64,
        ONE as u64,
    ) && !constrained;
    Paths {
        greedy,
        pipeline: greedy && device_pipeline && !pipeline_off,
        sample_graph: !greedy && !constrained && 1 <= opts.top_k && opts.top_k <= SAMPLE_TOPK
            && !graph_off,
    }
}

/// Where the next token comes from.
#[derive(Clone, Copy, PartialEq, Eq, Debug, Structural)]
pub enum Source {
    /// Text that a schema fixes.
    Scaffold,
    /// Draws that keep a constraint.
    Constrained,
    /// The device's argmax.
    Argmax,
    /// The device's ranked candidates.
    Candidates,
    /// All logits.
    Logits,
}

pub open spec fn source_of(p: Paths, scaffold: bool, constrained: bool, ranked: bool) -> Source {
    if scaffold {
        Source::Scaffold
    } else if constrained {
        Source::Constrained
    } else if p.greedy {
        Source::Argmax
    } else if ranked {
        Source::Candidates
    } else {
        Source::Logits
    }
}

/// Fixed text that waits goes first, then a constraint draws; else the paths
/// decide. `ranked`: candidates have been read.
pub fn source(p: &Paths, scaffold: bool, constrained: bool, ranked: bool) -> (r: Source)
    ensures
        r == source_of(*p, scaffold, constrained, ranked),
{
    if scaffold {
        Source::Scaffold
    } else if constrained {
        Source::Constrained
    } else if p.greedy {
        Source::Argmax
    } else if ranked {
        Source::Candidates
    } else {
        Source::Logits
    }
}

/// How a token is fed.
#[derive(Clone, Copy, PartialEq, Eq, Debug, Structural)]
pub enum Feeding {
    /// The device has fed it; its pick is waited for.
    Fetch,
    Argmax,
    Ranked,
    Logits,
}

pub open spec fn feeding_of(p: Paths, active: bool) -> Feeding {
    if p.pipeline {
        Feeding::Fetch
    } else if p.greedy {
        Feeding::Argmax
    } else if p.sample_graph && active {
        Feeding::Ranked
    } else {
        Feeding::Logits
    }
}

/// The step that follows a token; `active`: the sampling step was captured.
pub fn feeding(p: &Paths, active: bool) -> (r: Feeding)
    ensures
        r == feeding_of(*p, active),
{
    if p.pipeline {
        Feeding::Fetch
    } else if p.greedy {
        Feeding::Argmax
    } else if p.sample_graph && active {
        Feeding::Ranked
    } else {
        Feeding::Logits
    }
}

/// A token is picked from what the step before it read back: from its argmax,
/// from its candidates, or from its logits, which are all that a constraint
/// draws from.
pub proof fn law_tokens_come_from_what_was_read(p: Paths, constrained: bool, active: bool)
    requires
        p.pipeline ==> p.greedy,
        p.greedy ==> !p.sample_graph,
        constrained ==> !p.greedy && !p.sample_graph,
    ensures
        ({
            let f = feeding_of(p, active);
            let s = source_of(p, false, constrained, f is Ranked);
            &&& (f is Fetch || f is Argmax) == (s is Argmax)
            &&& (f is Ranked) == (s is Candidates)
            &&& (f is Logits) == (s is Logits || s is Constrained)
        }),
{
}

// Constrained draws.

/// What becomes of a constrained draw.
#[derive(Clone, Copy, PartialEq, Eq, Debug, Structural)]
pub enum Verdict {
    Take,
    Redraw,
    GiveUp,
}

/// Judge token `t`, drawn after `tries` refused ones. A token that ends the
/// generation needs a `complete` value, any other must `extend` it. A refused
/// token is masked.
pub fn judge(
    logits: &mut Vec<u32>,
    t: u32,
    tries: usize,
    ends: bool,
    complete: bool,
    extends: bool,
) -> (r: Verdict)
    requires
        t < old(logits)@.len(),
        tries < MAX_DRAWS,
    ensures
        (r is Take) == (if ends {
            complete
        } else {
            extends
        }),
        r is Take ==> final(logits)@ == old(logits)@,
        !(r is Take) ==> final(logits)@ == old(logits)@.update(t as int, MASKED),
        (r is GiveUp) == (!(r is Take) && tries + 1 == MAX_DRAWS),
{
    let taken: bool = if ends {
        complete
    } else {
        extends
    };
    if taken {
        return Verdict::Take;
    }
    logits.set(t as usize, MASKED);
    if tries + 1 == MAX_DRAWS {
        Verdict::GiveUp
    } else {
        Verdict::Redraw
    }
}

/// The penalty of a constrained draw: the first draw weighs the logits in
/// place, further ones leave them.
pub fn draw_penalty(opts: &GenOptions, tries: usize) -> (r: u32)
    ensures
        r == (if tries == 0 {
            opts.repeat_penalty
        } else {
            ONE
        }),
{
    if tries == 0 {
        opts.repeat_penalty
    } else {
        ONE
    }
}

/// The pieces one after the other.
pub open spec fn joined(pieces: Seq<Vec<u8>>) -> Seq<u8>
    decreases pieces.len(),
{
    if pieces.len() == 0 {
        Seq::empty()
    } else {
        joined(pieces.drop_last()) + pieces.last()@
    }
}

/// The tokens' bytes spell the text exactly, so that it may be fed unsampled.
pub fn spells(pieces: &Vec<Vec<u8>>, text: &str) -> (r: bool)
    ensures
        r == (joined(pieces@) == encode_utf8(text@)),
{
    let mut all: Vec<u8> = Vec::new();
    let mut k: usize = 0;
    assert(pieces@.take(0) =~= Seq::<Vec<u8>>::empty());
    while k < pieces.len()
        invariant
            k <= pieces@.len(),
            all@ == joined(pieces@.take(k as int)),
        decreases pieces@.len() - k,
    {
        proof {
            assert(pieces@.take(k + 1).drop_last() =~= pieces@.take(k as int));
        }
        append(&mut all, &pieces[k]);
        k = k + 1;
    }
    assert(pieces@.take(k as int) =~= pieces@);
    let b: &[u8] = text.as_bytes();
    if all.len() != b.len() {
        return false;
    }
    let mut i: usize = 0;
    while i < all.len()
        invariant
            i <= all@.len(),
            all@.len() == b@.len(),
            all@ == joined(pieces@),
            b@ == encode_utf8(text@),
            forall|m: int| 0 <= m < i ==> all@[m] == b@[m],
        decreases all@.len() - i,
    {
        if all[i] != b[i] {
            return false;
        }
        i = i + 1;
    }
    assert(all@ =~= b@);
    true
}

pub(crate) fn append(v: &mut Vec<u8>, w: &Vec<u8>)
    ensures
        final(v)@ == old(v)@ + w@,
{
    let mut i: usize = 0;
    let ghost v0 = v@;
    while i < w.len()
        invariant
            i <= w@.len(),
            v@ =~= v0 + w@.take(i as int),
        decreases w@.len() - i,
    {
        v.push(w[i]);
        i = i + 1;
    }
    assert(w@.take(w@.len() as int) =~= w@);
}

/// `t` is one of the tokens that end a turn.
pub fn ends_turn(t: u32, eos: &Vec<u32>, extra: &Vec<u32>, turn: &Vec<u32>) -> (r: bool)
    ensures
        r == (eos@.contains(t) || extra@.contains(t) || turn@.contains(t)),
{
    holds(eos, t) || holds(extra, t) || holds(turn, t)
}

fn holds(v: &Vec<u32>, t: u32) -> (r: bool)
    ensures
        r == v@.contains(t),
{
    let mut i: usize = 0;
    while i < v.len()
        invariant
            i <= v@.len(),
            forall|k: int| 0 <= k < i ==> v@[k] != t,
        decreases v@.len() - i,
    {
        if v[i] == t {
            assert(v@[i as int] == t);
            return true;
        }
        i = i + 1;
    }
    false
}

// The token loop.

/// Why a generation ended.
#[derive(Clone, Copy, PartialEq, Eq, Debug, Structural)]
pub enum StopReason {
    Length,
    Stop,
}

impl StopReason {
    pub fn name(&self) -> (r: &'static str)
        ensures
            r@ == (match *self {
                StopReason::Length => "length"@,
                StopReason::Stop => "stop"@,
            }),
    {
        match *self {
            StopReason::Length => "length",
            StopReason::Stop => "stop",
        }
    }
}

/// A running generation.
pub struct Generation {
    pub prompt: usize,
    pub budget: usize,
    pub history: Vec<u32>,
    /// Tokens of `history` whose rows the caches hold.
    pub fed: usize,
    /// Bytes that are not whole characters yet.
    pub pending: Vec<u8>,
    pub text: Vec<char>,
    pub generated: usize,
    pub reason: StopReason,
    pub ended: bool,
}

/// What a token leads to: text to stream, and the position at which it is fed
/// if the generation goes on.
pub struct Outcome {
    pub piece: Option<String>,
    pub feed: Option<usize>,
}

/// Bytes that are streamed: whole characters, or all where what is left is too
/// long to become one.
pub open spec fn flushed(b: Seq<u8>) -> int {
    if b.len() - utf8::valid_len(b) > 3 {
        b.len() as int
    } else {
        utf8::valid_len(b)
    }
}

/// Unless bytes are flushed broken, what is streamed and what is kept back
/// are the bytes of the tokens.
pub proof fn law_streaming_keeps_every_byte(b: Seq<u8>)
    requires
        b.len() - utf8::valid_len(b) <= 3,
    ensures
        encode_utf8(utf8::text_of(b.take(flushed(b)))) + b.skip(flushed(b)) == b,
{
    utf8::lemma_valid_within(b, b.len() as int);
    let n = flushed(b);
    vstd::utf8::decode_utf8_encode_utf8(b.take(n));
    assert(b.take(n) + b.skip(n) =~= b);
}

/// The text after streaming what `b` allows.
pub open spec fn streamed(t: Seq<char>, b: Seq<u8>) -> Seq<char> {
    if flushed(b) > 0 {
        t + utf8::text_of(b.take(flushed(b)))
    } else {
        t
    }
}

/// `after` and `r` are what token `tok`, spelled `bytes`, makes of `before`.
pub open spec fn taken(
    before: Generation,
    after: Generation,
    r: Outcome,
    tok: u32,
    bytes: Seq<u8>,
    ends: bool,
    closed: bool,
    ahead: bool,
    opts: GenOptions,
) -> bool {
    let b = before.pending@ + bytes;
    let t = streamed(before.text@, b);
    let hit = stop_from(t, opts.stop@, 0) is Some;
    &&& after.prompt == before.prompt
    &&& after.budget == before.budget
    &&& if ends && !opts.ignore_eos {
        &&& after.ended
        &&& after.reason is Stop
        &&& after.history == before.history
        &&& after.fed == before.fed
        &&& after.text == before.text
        &&& after.pending == before.pending
        &&& after.generated == before.generated
        &&& r.piece is None
        &&& r.feed is None
    } else {
        &&& after.history@ == before.history@.push(tok)
        &&& after.generated == before.generated + 1
        &&& after.text@ == trimmed(t, opts.stop@)
        &&& after.pending@ == (if hit {
            Seq::empty()
        } else {
            b.skip(flushed(b))
        })
        &&& after.ended == (hit || closed)
        &&& after.reason == (if hit || closed {
            StopReason::Stop
        } else {
            before.reason
        })
        &&& after.fed == (if (hit || closed) && !ahead {
            before.fed as int
        } else {
            before.fed + 1
        })
        &&& (r.piece is Some) == (flushed(b) > 0)
        &&& r.piece is Some ==> r.piece->0@ == utf8::text_of(b.take(flushed(b)))
        &&& r.feed == (if hit || closed {
            None
        } else {
            Some((before.prompt + before.generated) as usize)
        })
    }
}

/// Reading ahead changes no output: whether the device fed a token already or
/// not, the text, the tokens and the end of the generation are the same.
pub proof fn law_reading_ahead_changes_no_output(
    before: Generation,
    a: Generation,
    ra: Outcome,
    b: Generation,
    rb: Outcome,
    tok: u32,
    bytes: Seq<u8>,
    ends: bool,
    closed: bool,
    opts: GenOptions,
)
    requires
        taken(before, a, ra, tok, bytes, ends, closed, false, opts),
        taken(before, b, rb, tok, bytes, ends, closed, true, opts),
    ensures
        a.history@ == b.history@,
        a.text@ == b.text@,
        a.pending@ == b.pending@,
        a.generated == b.generated,
        a.ended == b.ended,
        a.reason == b.reason,
        ra.feed == rb.feed,
        (ra.piece is Some) == (rb.piece is Some),
        ra.piece is Some ==> ra.piece->0@ == rb.piece->0@,
{
}

impl Generation {
    pub open spec fn wf(&self) -> bool {
        &&& self.prompt + self.budget <= usize::MAX
        &&& self.generated <= self.budget
        &&& self.history@.len() == self.prompt + self.generated
        &&& self.fed <= self.history@.len()
        &&& !self.ended ==> self.fed == self.history@.len()
        &&& self.fed + 1 >= self.history@.len()
        &&& self.pending@.len() <= 3
    }

    /// Another token is wanted.
    pub open spec fn going(&self) -> bool {
        !self.ended && self.generated < self.budget
    }

    pub fn is_going(&self) -> (r: bool)
        ensures
            r == self.going(),
    {
        !self.ended && self.generated < self.budget
    }

    /// Before the first token: the prompt is fed, and the budget is what was
    /// asked for and the caches hold.
    pub fn start(tokens: &Vec<u32>, max_tokens: usize, max_seq: usize) -> (r: Self)
        ensures
            r.wf(),
            r.prompt == tokens@.len(),
            r.history@ == tokens@,
            r.fed == tokens@.len(),
            r.budget == ({
                let left = if max_seq >= tokens@.len() {
                    max_seq - tokens@.len()
                } else {
                    0
                };
                if max_tokens <= left {
                    max_tokens as int
                } else {
                    left
                }
            }),
            r.pending@.len() == 0,
            r.text@.len() == 0,
            r.generated == 0,
            r.reason is Length,
            !r.ended,
    {
        let n: usize = tokens.len();
        let left: usize = if max_seq >= n {
            max_seq - n
        } else {
            0
        };
        Generation {
            prompt: n,
            budget: if max_tokens <= left {
                max_tokens
            } else {
                left
            },
            history: tokens.clone(),
            fed: n,
            pending: Vec::new(),
            text: Vec::new(),
            generated: 0,
            reason: StopReason::Length,
            ended: false,
        }
    }

    /// Take token `tok`, spelled `bytes`. `ends`: it closes the turn;
    /// `closed`: it completes a constrained value; `ahead`: the device has fed
    /// it already.
    pub fn take(
        &mut self,
        tok: u32,
        bytes: &Vec<u8>,
        ends: bool,
        closed: bool,
        ahead: bool,
        opts: &GenOptions,
    ) -> (r: Outcome)
        requires
            old(self).wf(),
            old(self).going(),
        ensures
            final(self).wf(),
            taken(*old(self), *final(self), r, tok, bytes@, ends, closed, ahead, *opts),
    {
        if ends && !opts.ignore_eos {
            self.ended = true;
            self.reason = StopReason::Stop;
            return Outcome { piece: None, feed: None };
        }
        let step: usize = self.generated;
        self.generated = step + 1;
        self.history.push(tok);
        append(&mut self.pending, bytes);
        let ghost b = self.pending@;
        let n: usize = self.pending.len();
        let valid: usize = utf8::valid_up_to(&self.pending);
        let flush: usize = if n - valid > 3 {
            n
        } else {
            valid
        };
        let mut piece: Option<String> = None;
        if flush > 0 {
            let s: String = utf8::lossy(vstd::slice::slice_subrange(self.pending.as_slice(), 0, flush));
            assert(b.subrange(0, flush as int) =~= b.take(flush as int));
            self.pending = rest(&self.pending, flush);
            push_text(&mut self.text, s.as_str());
            piece = Some(s);
        } else {
            assert(b.skip(0) =~= b);
        }
        match stop_index(&self.text, &opts.stop) {
            Some(i) => {
                let ghost t = self.text@;
                self.text.truncate(i);
                assert(self.text@ =~= t.take(i as int));
                self.pending = Vec::new();
                self.reason = StopReason::Stop;
                self.ended = true;
                if ahead {
                    self.fed = self.fed + 1;
                }
                return Outcome { piece, feed: None };
            },
            None => {},
        }
        if closed {
            self.reason = StopReason::Stop;
            self.ended = true;
            if ahead {
                self.fed = self.fed + 1;
            }
            return Outcome { piece, feed: None };
        }
        self.fed = self.fed + 1;
        Outcome { piece, feed: Some(self.prompt + step) }
    }

    /// End without a token: nothing can continue a constrained value, or it
    /// is finished before the first token.
    pub fn stop(&mut self)
        requires
            old(self).wf(),
        ensures
            *final(self) == (Generation { ended: true, ..*old(self) }),
            final(self).wf(),
    {
        self.ended = true;
    }

    /// The end of the stream: bytes that never became characters.
    pub fn finish(&mut self) -> (r: Option<String>)
        requires
            old(self).wf(),
        ensures
            final(self).wf(),
            (r is Some) == (old(self).pending@.len() > 0),
            r is Some ==> r->0@ == utf8::text_of(old(self).pending@),
            final(self).text@ == (if old(self).pending@.len() > 0 {
                old(self).text@ + utf8::text_of(old(self).pending@)
            } else {
                old(self).text@
            }),
            final(self).pending@.len() == 0,
            final(self).history == old(self).history,
            final(self).fed == old(self).fed,
            final(self).reason == old(self).reason,
            final(self).generated == old(self).generated,
            final(self).prompt == old(self).prompt,
    {
        if self.pending.len() == 0 {
            return None;
        }
        let s: String = utf8::lossy(self.pending.as_slice());
        self.pending = Vec::new();
        push_text(&mut self.text, s.as_str());
        Some(s)
    }

    /// The tokens whose rows the next prompt may reuse.
    pub fn session(&self) -> (r: Vec<u32>)
        requires
            self.wf(),
        ensures
            r@ == self.history@.take(self.fed as int),
    {
        let mut r: Vec<u32> = self.history.clone();
        r.truncate(self.fed);
        assert(r@ =~= self.history@.take(self.fed as int));
        r
    }
}

fn rest(v: &Vec<u8>, from: usize) -> (r: Vec<u8>)
    requires
        from <= v@.len(),
    ensures
        r@ == v@.skip(from as int),
{
    let mut r: Vec<u8> = Vec::new();
    let mut i: usize = from;
    while i < v.len()
        invariant
            from <= i <= v@.len(),
            r@ =~= v@.subrange(from as int, i as int),
        decreases v@.len() - i,
    {
        r.push(v[i]);
        i = i + 1;
    }
    assert(v@.subrange(from as int, v@.len() as int) =~= v@.skip(from as int));
    r
}

fn push_text(t: &mut Vec<char>, s: &str)
    ensures
        final(t)@ == old(t)@ + s@,
{
    let v: Vec<char> = text::to_chars(s);
    let mut i: usize = 0;
    let ghost t0 = t@;
    while i < v.len()
        invariant
            i <= v@.len(),
            t@ =~= t0 + v@.take(i as int),
        decreases v@.len() - i,
    {
        t.push(v[i]);
        i = i + 1;
    }
    assert(v@.take(v@.len() as int) =~= v@);
}

} // verus!
