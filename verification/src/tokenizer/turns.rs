//! What a rendered chat says, and where.
use vstd::prelude::*;

use crate::json::Value;
use crate::text;
use crate::tokenizer::chat;
use crate::tokenizer::chat::{ChatTurn, Dialect, Told};
use crate::tokenizer::BpeTokenizer;

verus! {

pub open spec fn of_system(t: ChatTurn) -> bool {
    t.role@ == "system"@
}

pub open spec fn of_model(t: ChatTurn) -> bool {
    t.role@ == "assistant"@
}

/// Neither the system nor the model speaks.
pub open spec fn of_user(t: ChatTurn) -> bool {
    !of_system(t) && !of_model(t)
}

/// What opens a turn of a Gemma dialect.
pub open spec fn opener(d: Dialect) -> Seq<char> {
    if d == Dialect::Classic {
        "<start_of_turn>"@
    } else {
        "<|turn>"@
    }
}

pub open spec fn is_gemma(d: Dialect) -> bool {
    d == Dialect::Classic || d == Dialect::Turn
}

/// What stands in front of the first turn of a Gemma chat.
pub open spec fn start_of(tk: &BpeTokenizer) -> Seq<char> {
    if !tk.add_bos && tk.bos_literal is Some {
        tk.bos_literal->0@
    } else {
        Seq::empty()
    }
}

/// The opening of the answer, at the end of every prompt of a dialect.
pub open spec fn answer(d: Dialect) -> Seq<char> {
    match d {
        Dialect::Header => "<|start_header_id|>assistant<|end_header_id|>\n\n"@,
        Dialect::ChatMl => "<|im_start|>assistant\n"@,
        _ => opener(d) + "model\n"@,
    }
}

/// A prompt without the opening of the answer.
pub open spec fn body(d: Dialect, prompt: Seq<char>) -> Seq<char> {
    prompt.take(prompt.len() - answer(d).len())
}

/// What a turn of a Gemma chat says between the name of its speaker and the
/// next turn.
pub open spec fn saying(t: ChatTurn, d: Dialect) -> Seq<char> {
    chat::repeated("<image>"@, t.n_images as int) + chat::repeated("<audio>"@, t.n_audio as int)
        + t.content@ + chat::closer(d)->0 + "\n"@
}

/// A turn of a Gemma chat that the system has nothing to add to.
pub open spec fn said(t: ChatTurn, d: Dialect) -> Seq<char> {
    opener(d) + (if of_model(t) {
        "model\n"@
    } else {
        "user\n"@
    }) + saying(t, d)
}

/// Such turns, one after the other.
pub open spec fn all_said(turns: Seq<ChatTurn>, d: Dialect) -> Seq<char>
    decreases turns.len(),
{
    if turns.len() == 0 {
        Seq::empty()
    } else {
        all_said(turns.drop_last(), d) + said(turns.last(), d)
    }
}

/// What the system says in front of a user turn.
pub open spec fn lead(s: Seq<char>) -> Seq<char> {
    if s.len() > 0 {
        s + "\n\n"@
    } else {
        Seq::empty()
    }
}

pub open spec fn without_system(turns: Seq<ChatTurn>) -> bool {
    forall|i: int| 0 <= i < turns.len() ==> !of_system(#[trigger] turns[i])
}

pub open spec fn model_only(turns: Seq<ChatTurn>) -> bool {
    forall|i: int| 0 <= i < turns.len() ==> of_model(#[trigger] turns[i])
}

/// A chat taken up where `b` left off.
spec fn resumed(b: Told, turns: Seq<ChatTurn>, n: int, d: Dialect) -> Told
    decreases n,
{
    if n <= 0 {
        b
    } else {
        onward(resumed(b, turns, n - 1, d), turns[n - 1], d)
    }
}

spec fn onward(b: Told, t: ChatTurn, d: Dialect) -> Told {
    if of_system(t) {
        Told {
            out: b.out,
            sys: (if b.sys.len() > 0 {
                b.sys + "\n"@
            } else {
                b.sys
            }) + t.content@,
        }
    } else {
        Told {
            out: b.out + chat::marked_turn(t, b.sys, opener(d), chat::closer(d)->0),
            sys: if of_model(t) {
                b.sys
            } else {
                Seq::empty()
            },
        }
    }
}

spec fn fresh(out: Seq<char>) -> Told {
    Told { out, sys: Seq::empty() }
}

proof fn lemma_told(start: Seq<char>, turns: Seq<ChatTurn>, n: int, d: Dialect)
    requires
        is_gemma(d),
        n <= turns.len(),
    ensures
        chat::told(start, turns, n, opener(d), chat::closer(d)->0) == resumed(
            fresh(start),
            turns,
            n,
            d,
        ),
    decreases n,
{
    if n > 0 {
        lemma_told(start, turns, n - 1, d);
    }
}

proof fn lemma_resumed_ext(b: Told, x: Seq<ChatTurn>, y: Seq<ChatTurn>, n: int, d: Dialect)
    requires
        n <= x.len(),
        n <= y.len(),
        forall|i: int| 0 <= i < n ==> x[i] == y[i],
    ensures
        resumed(b, x, n, d) == resumed(b, y, n, d),
    decreases n,
{
    if n > 0 {
        lemma_resumed_ext(b, x, y, n - 1, d);
    }
}

proof fn lemma_split(b: Told, x: Seq<ChatTurn>, y: Seq<ChatTurn>, n: int, d: Dialect)
    requires
        0 <= n <= y.len(),
    ensures
        resumed(b, x + y, x.len() + n, d) == resumed(resumed(b, x, x.len() as int, d), y, n, d),
    decreases n,
{
    if n == 0 {
        lemma_resumed_ext(b, x + y, x, x.len() as int, d);
    } else {
        lemma_split(b, x, y, n - 1, d);
        assert((x + y)[x.len() + n - 1] == y[n - 1]);
    }
}

/// What was told before stays in front, and changes nothing behind it.
proof fn lemma_front(p: Seq<char>, b: Told, turns: Seq<ChatTurn>, n: int, d: Dialect)
    requires
        0 <= n <= turns.len(),
    ensures
        resumed(Told { out: p + b.out, sys: b.sys }, turns, n, d).out == p + resumed(
            b,
            turns,
            n,
            d,
        ).out,
        resumed(Told { out: p + b.out, sys: b.sys }, turns, n, d).sys == resumed(
            b,
            turns,
            n,
            d,
        ).sys,
    decreases n,
{
    if n > 0 {
        lemma_front(p, b, turns, n - 1, d);
        let r = resumed(b, turns, n - 1, d);
        let m = chat::marked_turn(turns[n - 1], r.sys, opener(d), chat::closer(d)->0);
        assert(p + (r.out + m) =~= (p + r.out) + m);
    }
}

#[verifier::spinoff_prover]
proof fn lemma_marked(t: ChatTurn, sys: Seq<char>, d: Dialect)
    requires
        is_gemma(d),
    ensures
        chat::marked_turn(t, sys, opener(d), chat::closer(d)->0) == (if of_model(t) {
            said(t, d)
        } else {
            opener(d) + "user\n"@ + lead(sys) + saying(t, d)
        }),
{
    reveal_strlit("model");
    reveal_strlit("user");
    reveal_strlit("\n");
    reveal_strlit("model\n");
    reveal_strlit("user\n");
    assert("model"@ + "\n"@ =~= "model\n"@);
    assert("user"@ + "\n"@ =~= "user\n"@);
    let (o, c) = (opener(d), chat::closer(d)->0);
    let (i, a) = (
        chat::repeated("<image>"@, t.n_images as int),
        chat::repeated("<audio>"@, t.n_audio as int),
    );
    let m = chat::marked_turn(t, sys, o, c);
    if of_model(t) {
        assert(m =~= o + ("model"@ + "\n"@) + (i + a + t.content@ + c + "\n"@));
    } else {
        assert(m =~= o + ("user"@ + "\n"@) + lead(sys) + (i + a + t.content@ + c + "\n"@));
    }
}

/// Where nothing is left to say for the system, turns are said as they are.
proof fn lemma_said(b: Told, turns: Seq<ChatTurn>, n: int, d: Dialect)
    requires
        is_gemma(d),
        0 <= n <= turns.len(),
        forall|i: int| 0 <= i < n ==> !of_system(#[trigger] turns[i]),
        b.sys.len() == 0 || forall|i: int| 0 <= i < n ==> of_model(#[trigger] turns[i]),
    ensures
        resumed(b, turns, n, d).out == b.out + all_said(turns.take(n), d),
        resumed(b, turns, n, d).sys =~= b.sys,
    decreases n,
{
    if n > 0 {
        lemma_said(b, turns, n - 1, d);
        let r = resumed(b, turns, n - 1, d);
        let t = turns[n - 1];
        assert(turns.take(n).drop_last() =~= turns.take(n - 1));
        assert(turns.take(n).last() == t);
        lemma_marked(t, r.sys, d);
        if !of_model(t) {
            assert(opener(d) + "user\n"@ + lead(r.sys) + saying(t, d) =~= said(t, d));
        }
        assert(b.out + all_said(turns.take(n - 1), d) + said(t, d) =~= b.out + (all_said(
            turns.take(n - 1),
            d,
        ) + said(t, d)));
    } else {
        assert(b.out + all_said(turns.take(0), d) =~= b.out);
    }
}

/// A Gemma prompt is what was told, and the opening of the answer.
proof fn lemma_prompt(tk: &BpeTokenizer, d: Dialect, turns: Seq<ChatTurn>, media: Option<Seq<char>>)
    requires
        is_gemma(d),
    ensures
        ({
            let out = resumed(fresh(start_of(tk)), turns, turns.len() as int, d).out;
            &&& chat::rendered(tk, d, turns, media) == out + answer(d)
            &&& body(d, chat::rendered(tk, d, turns, media)) == out
        }),
{
    lemma_told(start_of(tk), turns, turns.len() as int, d);
    let out = resumed(fresh(start_of(tk)), turns, turns.len() as int, d).out;
    assert(out + opener(d) + "model\n"@ =~= out + answer(d));
    assert((out + answer(d)).take(out.len() as int) =~= out);
}

/// A Gemma chat in which the system says nothing is its turns, in order, each
/// between its markers, behind the start literal.
pub proof fn law_turns_are_said_in_order(
    tk: &BpeTokenizer,
    d: Dialect,
    turns: Seq<ChatTurn>,
    media: Option<Seq<char>>,
)
    requires
        is_gemma(d),
        without_system(turns),
    ensures
        chat::rendered(tk, d, turns, media) == start_of(tk) + all_said(turns, d) + answer(d),
{
    lemma_prompt(tk, d, turns, media);
    lemma_said(fresh(start_of(tk)), turns, turns.len() as int, d);
    assert(turns.take(turns.len() as int) =~= turns);
}

/// What a system turn at the front says stands in the prompt once, at the head
/// of the first user turn. All else is as in the chat without it.
#[verifier::spinoff_prover]
pub proof fn law_system_words_stand_once(
    tk: &BpeTokenizer,
    d: Dialect,
    s: ChatTurn,
    ahead: Seq<ChatTurn>,
    user: ChatTurn,
    after: Seq<ChatTurn>,
    media: Option<Seq<char>>,
)
    requires
        is_gemma(d),
        of_system(s),
        model_only(ahead),
        of_user(user),
        without_system(after),
    ensures
        ({
            let front = start_of(tk) + all_said(ahead, d) + opener(d) + "user\n"@;
            let rest = saying(user, d) + all_said(after, d) + answer(d);
            &&& chat::rendered(tk, d, ahead + seq![user] + after, media) == front + rest
            &&& chat::rendered(tk, d, seq![s] + (ahead + seq![user] + after), media) == front + lead(
                s.content@,
            ) + rest
        }),
{
    reveal_strlit("system");
    reveal_strlit("assistant");
    assert("system"@.len() == 6 && "assistant"@.len() == 9);
    let z = start_of(tk);
    let all = ahead + seq![user] + after;
    let front = z + all_said(ahead, d) + opener(d) + "user\n"@;
    let rest = saying(user, d) + all_said(after, d) + answer(d);
    lemma_prompt(tk, d, all, media);
    lemma_prompt(tk, d, seq![s] + all, media);
    lemma_split(fresh(z), seq![s], all, all.len() as int, d);
    let b1 = resumed(fresh(z), seq![s], 1, d);
    assert(b1 == onward(resumed(fresh(z), seq![s], 0, d), s, d));
    assert(b1.sys =~= s.content@);
    assert(b1.out == z);
    assert((seq![s] + all).len() == 1 + all.len());
    lemma_from(fresh(z), ahead, user, after, d);
    lemma_from(b1, ahead, user, after, d);
    let (u, v, w, x) = (all_said(ahead, d), saying(user, d), all_said(after, d), answer(d));
    lemma_regroup(z + u, opener(d), "user\n"@, lead(Seq::empty()), v, w, x);
    lemma_regroup(z + u, opener(d), "user\n"@, lead(s.content@), v, w, x);
    assert(front + lead(Seq::empty()) =~= front);
}

proof fn lemma_regroup(
    a: Seq<char>,
    b: Seq<char>,
    c: Seq<char>,
    e: Seq<char>,
    f: Seq<char>,
    g: Seq<char>,
    h: Seq<char>,
)
    ensures
        a + (b + c + e + f) + g + h == a + b + c + e + (f + g + h),
{
    assert(a + (b + c + e + f) + g + h =~= a + b + c + e + (f + g + h));
}

proof fn lemma_from(b: Told, ahead: Seq<ChatTurn>, user: ChatTurn, after: Seq<ChatTurn>, d: Dialect)
    requires
        is_gemma(d),
        model_only(ahead),
        of_user(user),
        without_system(after),
        "system"@ != "assistant"@,
    ensures
        resumed(
            b,
            ahead + seq![user] + after,
            (ahead + seq![user] + after).len() as int,
            d,
        ).out == b.out + all_said(ahead, d) + (opener(d) + "user\n"@ + lead(b.sys) + saying(
            user,
            d,
        )) + all_said(after, d),
{
    let n = ahead.len() as int;
    lemma_split(b, ahead + seq![user], after, after.len() as int, d);
    lemma_split(b, ahead, seq![user], 1, d);
    lemma_said(b, ahead, n, d);
    assert(ahead.take(n) =~= ahead);
    let b1 = resumed(b, ahead, n, d);
    let b2 = resumed(b1, seq![user], 1, d);
    assert(b2 == onward(resumed(b1, seq![user], 0, d), user, d));
    lemma_marked(user, b1.sys, d);
    assert(b1.sys == b.sys);
    lemma_said(b2, after, after.len() as int, d);
    assert(after.take(after.len() as int) =~= after);
    assert((ahead + seq![user]).len() == n + 1);
}

/// A user turn uses up what the system said: what follows it is rendered as in
/// a chat of its own.
pub proof fn law_user_turns_end_what_the_system_said(
    tk: &BpeTokenizer,
    d: Dialect,
    a: Seq<ChatTurn>,
    b: Seq<ChatTurn>,
    media: Option<Seq<char>>,
)
    requires
        is_gemma(d),
        a.len() > 0,
        of_user(a.last()),
    ensures
        body(d, chat::rendered(tk, d, a + b, media)) == body(d, chat::rendered(tk, d, a, media))
            + body(d, chat::rendered(tk, d, b, media)).skip(start_of(tk).len() as int),
{
    let z = start_of(tk);
    lemma_prompt(tk, d, a + b, media);
    lemma_prompt(tk, d, a, media);
    lemma_prompt(tk, d, b, media);
    lemma_split(fresh(z), a, b, b.len() as int, d);
    let e = fresh(Seq::empty());
    let ra = resumed(fresh(z), a, a.len() as int, d);
    assert(ra.sys =~= Seq::<char>::empty());
    lemma_front(ra.out, e, b, b.len() as int, d);
    lemma_front(z, e, b, b.len() as int, d);
    assert(ra.out + e.out =~= ra.out);
    assert(z + e.out =~= z);
    let rb = resumed(e, b, b.len() as int, d).out;
    assert((z + rb).skip(z.len() as int) =~= rb);
}

/// Two system turns in a row say what one turn says that has both contents, a
/// line each.
pub proof fn law_system_turns_are_joined_by_lines(
    tk: &BpeTokenizer,
    d: Dialect,
    a: Seq<ChatTurn>,
    x: ChatTurn,
    y: ChatTurn,
    both: ChatTurn,
    b: Seq<ChatTurn>,
    media: Option<Seq<char>>,
)
    requires
        is_gemma(d),
        of_system(x),
        of_system(y),
        of_system(both),
        x.content@.len() > 0,
        both.content@ == x.content@ + "\n"@ + y.content@,
    ensures
        chat::rendered(tk, d, a + seq![x, y] + b, media) == chat::rendered(
            tk,
            d,
            a + seq![both] + b,
            media,
        ),
{
    let z = fresh(start_of(tk));
    lemma_prompt(tk, d, a + seq![x, y] + b, media);
    lemma_prompt(tk, d, a + seq![both] + b, media);
    lemma_split(z, a + seq![x, y], b, b.len() as int, d);
    lemma_split(z, a + seq![both], b, b.len() as int, d);
    lemma_split(z, a, seq![x, y], 2, d);
    lemma_split(z, a, seq![both], 1, d);
    let r = resumed(z, a, a.len() as int, d);
    assert(resumed(r, seq![x, y], 0, d) == r);
    assert(resumed(r, seq![x, y], 1, d) == onward(r, x, d));
    assert(resumed(r, seq![x, y], 2, d) == onward(onward(r, x, d), y, d));
    assert(resumed(r, seq![both], 0, d) == r);
    assert(resumed(r, seq![both], 1, d) == onward(r, both, d));
    assert(onward(onward(r, x, d), y, d).sys =~= onward(r, both, d).sys);
    assert((a + seq![x, y]).len() == a.len() + 2);
    assert((a + seq![both]).len() == a.len() + 1);
}

/// What the system says waits for the next user turn: a turn of the model in
/// between is said first, as it would be without it.
pub proof fn law_system_words_wait_for_the_user(
    tk: &BpeTokenizer,
    d: Dialect,
    a: Seq<ChatTurn>,
    s: ChatTurn,
    m: ChatTurn,
    b: Seq<ChatTurn>,
    media: Option<Seq<char>>,
)
    requires
        is_gemma(d),
        of_system(s),
        of_model(m),
    ensures
        chat::rendered(tk, d, a + seq![s, m] + b, media) == chat::rendered(
            tk,
            d,
            a + seq![m, s] + b,
            media,
        ),
        chat::rendered(tk, d, a + seq![s], media) == chat::rendered(tk, d, a, media),
{
    reveal_strlit("system");
    reveal_strlit("assistant");
    assert("system"@.len() == 6 && "assistant"@.len() == 9);
    let z = fresh(start_of(tk));
    lemma_prompt(tk, d, a + seq![s, m] + b, media);
    lemma_prompt(tk, d, a + seq![m, s] + b, media);
    lemma_prompt(tk, d, a + seq![s], media);
    lemma_prompt(tk, d, a, media);
    lemma_split(z, a + seq![s, m], b, b.len() as int, d);
    lemma_split(z, a + seq![m, s], b, b.len() as int, d);
    lemma_split(z, a, seq![s, m], 2, d);
    lemma_split(z, a, seq![m, s], 2, d);
    lemma_split(z, a, seq![s], 1, d);
    let r = resumed(z, a, a.len() as int, d);
    assert(resumed(r, seq![s], 0, d) == r);
    assert(resumed(r, seq![s], 1, d) == onward(r, s, d));
    assert(resumed(r, seq![s, m], 0, d) == r);
    assert(resumed(r, seq![s, m], 1, d) == onward(r, s, d));
    assert(resumed(r, seq![s, m], 2, d) == onward(onward(r, s, d), m, d));
    assert(resumed(r, seq![m, s], 0, d) == r);
    assert(resumed(r, seq![m, s], 1, d) == onward(r, m, d));
    assert(resumed(r, seq![m, s], 2, d) == onward(onward(r, m, d), s, d));
    lemma_marked(m, r.sys, d);
    lemma_marked(m, onward(r, s, d).sys, d);
    assert((a + seq![s, m]).len() == a.len() + 2);
    assert((a + seq![m, s]).len() == a.len() + 2);
    assert((a + seq![s]).len() == a.len() + 1);
}

// The other dialects.

/// What stands in front of the first turn.
pub open spec fn head_of(d: Dialect) -> Seq<char> {
    if d == Dialect::Header {
        "<|begin_of_text|>"@
    } else {
        Seq::empty()
    }
}

spec fn others(d: Dialect, turns: Seq<ChatTurn>, n: int, media: Option<Seq<char>>) -> Seq<char> {
    if d == Dialect::Header {
        chat::header_turns(turns, n, media)
    } else {
        chat::chatml_turns(turns, n, media)
    }
}

proof fn lemma_others_ext(d: Dialect, x: Seq<ChatTurn>, y: Seq<ChatTurn>, n: int, media: Option<Seq<char>>)
    requires
        !is_gemma(d),
        n <= x.len(),
        n <= y.len(),
        forall|i: int| 0 <= i < n ==> x[i] == y[i],
    ensures
        others(d, x, n, media) == others(d, y, n, media),
    decreases n,
{
    if n > 0 {
        lemma_others_ext(d, x, y, n - 1, media);
    }
}

/// A turn between its markers.
spec fn other_turn(d: Dialect, t: ChatTurn, media: Option<Seq<char>>) -> Seq<char> {
    let p = chat::placeholders(media, t.n_images + t.n_audio);
    if d == Dialect::Header {
        "<|start_header_id|>"@ + t.role@ + "<|end_header_id|>\n\n"@ + p + t.content@ + "<|eot_id|>"@
    } else {
        "<|im_start|>"@ + t.role@ + "\n"@ + p + t.content@ + "<|im_end|>\n"@
    }
}

#[verifier::spinoff_prover]
proof fn lemma_other_turn(d: Dialect, turns: Seq<ChatTurn>, n: int, media: Option<Seq<char>>)
    requires
        !is_gemma(d),
        1 <= n <= turns.len(),
    ensures
        others(d, turns, n, media) == others(d, turns, n - 1, media) + other_turn(
            d,
            turns[n - 1],
            media,
        ),
{
    let t = turns[n - 1];
    let y = others(d, turns, n - 1, media);
    let p = chat::placeholders(media, t.n_images + t.n_audio);
    if d == Dialect::Header {
        assert(y + "<|start_header_id|>"@ + t.role@ + "<|end_header_id|>\n\n"@ + p + t.content@
            + "<|eot_id|>"@ =~= y + ("<|start_header_id|>"@ + t.role@ + "<|end_header_id|>\n\n"@ + p
            + t.content@ + "<|eot_id|>"@));
    } else {
        assert(y + "<|im_start|>"@ + t.role@ + "\n"@ + p + t.content@ + "<|im_end|>\n"@ =~= y + (
        "<|im_start|>"@ + t.role@ + "\n"@ + p + t.content@ + "<|im_end|>\n"@));
    }
}

proof fn lemma_skipped(x: Seq<char>, y: Seq<char>, m: Seq<char>, h: int)
    requires
        0 <= h <= y.len(),
    ensures
        x + y.skip(h) + m == x + (y + m).skip(h),
{
    assert((y + m).skip(h) =~= y.skip(h) + m);
    assert(x + (y.skip(h) + m) =~= x + y.skip(h) + m);
}

proof fn lemma_others_split(d: Dialect, a: Seq<ChatTurn>, b: Seq<ChatTurn>, n: int, media: Option<Seq<char>>)
    requires
        !is_gemma(d),
        0 <= n <= b.len(),
    ensures
        head_of(d).len() <= others(d, b, n, media).len(),
        others(d, a + b, a.len() + n, media) == others(d, a, a.len() as int, media) + others(
            d,
            b,
            n,
            media,
        ).skip(head_of(d).len() as int),
    decreases n,
{
    let h = head_of(d).len() as int;
    let x = others(d, a, a.len() as int, media);
    if n == 0 {
        lemma_others_ext(d, a + b, a, a.len() as int, media);
        assert(others(d, b, 0, media) == head_of(d));
        assert(x + others(d, b, 0, media).skip(h) =~= x);
    } else {
        lemma_others_split(d, a, b, n - 1, media);
        assert((a + b)[a.len() + n - 1] == b[n - 1]);
        lemma_other_turn(d, b, n, media);
        lemma_other_turn(d, a + b, a.len() + n, media);
        lemma_skipped(x, others(d, b, n - 1, media), other_turn(d, b[n - 1], media), h);
    }
}

/// Outside the Gemma dialects every turn, the system's too, stands on its own:
/// a chat is its turns one after the other.
pub proof fn law_other_dialects_say_every_turn(
    tk: &BpeTokenizer,
    d: Dialect,
    a: Seq<ChatTurn>,
    b: Seq<ChatTurn>,
    media: Option<Seq<char>>,
)
    requires
        !is_gemma(d),
    ensures
        body(d, chat::rendered(tk, d, a + b, media)) == body(d, chat::rendered(tk, d, a, media))
            + body(d, chat::rendered(tk, d, b, media)).skip(head_of(d).len() as int),
        chat::rendered(tk, d, a, media) == body(d, chat::rendered(tk, d, a, media)) + answer(d),
        chat::rendered(tk, d, Seq::empty(), media) == head_of(d) + answer(d),
{
    lemma_others_split(d, a, b, b.len() as int, media);
    let (x, y, z) = (
        others(d, a + b, (a + b).len() as int, media),
        others(d, a, a.len() as int, media),
        others(d, b, b.len() as int, media),
    );
    let e = answer(d);
    assert((x + e).take(x.len() as int) =~= x);
    assert((y + e).take(y.len() as int) =~= y);
    assert((z + e).take(z.len() as int) =~= z);
}

/// One turn outside the Gemma dialects: its speaker as given, a line for each
/// medium, and its content, between the markers of the dialect.
#[verifier::spinoff_prover]
pub proof fn law_other_dialects_mark_a_turn(
    tk: &BpeTokenizer,
    d: Dialect,
    t: ChatTurn,
    media: Option<Seq<char>>,
)
    requires
        !is_gemma(d),
    ensures
        ({
            let said = chat::placeholders(media, t.n_images + t.n_audio) + t.content@;
            body(d, chat::rendered(tk, d, seq![t], media)) == (if d == Dialect::Header {
                "<|begin_of_text|><|start_header_id|>"@ + t.role@ + "<|end_header_id|>\n\n"@ + said
                    + "<|eot_id|>"@
            } else {
                "<|im_start|>"@ + t.role@ + "\n"@ + said + "<|im_end|>\n"@
            })
        }),
{
    let e = answer(d);
    let p = chat::placeholders(media, t.n_images + t.n_audio);
    let v = others(d, seq![t], 1, media);
    assert((v + e).take(v.len() as int) =~= v);
    if d == Dialect::Header {
        assert(chat::header_turns(seq![t], 0, media) == "<|begin_of_text|>"@);
        reveal_strlit("<|begin_of_text|>");
        reveal_strlit("<|start_header_id|>");
        reveal_strlit("<|begin_of_text|><|start_header_id|>");
        assert("<|begin_of_text|><|start_header_id|>"@ =~= "<|begin_of_text|>"@
            + "<|start_header_id|>"@);
        assert(v =~= ("<|begin_of_text|>"@ + "<|start_header_id|>"@) + t.role@
            + "<|end_header_id|>\n\n"@ + (p + t.content@) + "<|eot_id|>"@);
    } else {
        assert(chat::chatml_turns(seq![t], 0, media) == Seq::<char>::empty());
        assert(v =~= "<|im_start|>"@ + t.role@ + "\n"@ + (p + t.content@) + "<|im_end|>\n"@);
    }
}

/// A medium takes one line of its own, however many there are and of whichever
/// kind.
pub proof fn law_media_take_a_line_each(token: Seq<char>, n: int)
    requires
        n >= 0,
    ensures
        chat::placeholders(Some(token), n + 1) == chat::placeholders(Some(token), n) + token
            + seq!['\n'],
        chat::placeholders(Some(token), 0).len() == 0,
        chat::placeholders(None, n).len() == 0,
{
    let line = token + seq!['\n'];
    assert(chat::repeated(line, n) + line =~= chat::repeated(line, n) + token + seq!['\n']);
}

// The dialect.

/// Which dialect a chat is rendered in. A Gemma model, or one that speaks of
/// the classic markers, gets a Gemma dialect: the one asked for; else one whose
/// opener is a token, if any is, and of two such the one that the template
/// names alone. Any other model gets headers where it speaks of them.
pub proof fn law_dialects_use_markers_that_are_tokens(
    tk: &BpeTokenizer,
    gemma_family: bool,
    forced: Option<Dialect>,
    template: Seq<char>,
    raw: Seq<char>,
)
    ensures
        ({
            let d = chat::dialect_of(tk, gemma_family, forced, template, raw);
            let (a, b) = (opener(Dialect::Classic), opener(Dialect::Turn));
            let asked = forced is Some && is_gemma(forced->0);
            let spoken = |m: Seq<char>|
                tk.token(m) is Some || text::has(template, m) || text::has(raw, m);
            if gemma_family || spoken(a) {
                &&& is_gemma(d)
                &&& asked ==> d == forced->0
                &&& !asked ==> {
                    &&& tk.token(a) is Some || tk.token(b) is Some ==> tk.token(opener(d)) is Some
                    &&& tk.token(a) is None && tk.token(b) is None ==> d == Dialect::Classic
                    &&& tk.token(a) is Some && tk.token(b) is Some && text::has(template, a)
                        != text::has(template, b) ==> text::has(template, opener(d))
                    &&& tk.token(a) is Some && tk.token(b) is Some && text::has(template, a)
                        == text::has(template, b) ==> d == Dialect::Classic
                }
            } else {
                d == (if spoken("<|start_header_id|>"@) {
                    Dialect::Header
                } else {
                    Dialect::ChatMl
                })
            }
        }),
{
}

/// Which template speaks for a model: the container's own; else that of the
/// tokenizer's configuration, of a list the one named default, else its first;
/// else the file's.
pub proof fn law_templates_of_the_container_come_first(raw: Seq<char>, file: Seq<char>, own: Seq<char>)
    ensures
        chat::template_of(raw, file, Some(own)) == own,
        chat::cfg_template(raw).len() > 0 ==> chat::template_of(raw, file, None)
            == chat::cfg_template(raw),
        chat::cfg_template(raw).len() == 0 ==> chat::template_of(raw, file, None) == file,
{
}

/// The first entry of a list that is named default is its template, wherever it
/// stands.
pub proof fn law_default_templates_are_found(a: Seq<Value>, i: int)
    requires
        0 <= i < a.len(),
        a[i].str_of("name"@) == Some("default"@),
        forall|j: int| 0 <= j < i ==> (#[trigger] a[j]).str_of("name"@) != Some("default"@),
    ensures
        chat::listed_template(a) == a[i].str_of("template"@),
{
    lemma_default_from(a, 0, i);
}

proof fn lemma_default_from(a: Seq<Value>, k: int, i: int)
    requires
        0 <= k <= i < a.len(),
        a[i].str_of("name"@) == Some("default"@),
        forall|j: int| 0 <= j < i ==> (#[trigger] a[j]).str_of("name"@) != Some("default"@),
    ensures
        chat::default_at(a, k) == Some(i),
    decreases i - k,
{
    if k < i {
        lemma_default_from(a, k + 1, i);
    }
}

} // verus!
