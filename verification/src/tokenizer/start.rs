//! Chats start with one start token, whoever supplies it.
use vstd::prelude::*;

use crate::text;
use crate::tokenizer::chat;
use crate::tokenizer::chat::ChatTurn;
use crate::tokenizer::encode;
use crate::tokenizer::split;
use crate::tokenizer::split::Stretch;
use crate::tokenizer::BpeTokenizer;

verus! {

/// No other literal stands in front of where `lit` ends.
pub open spec fn alone_in_front(lits: Seq<(String, u32)>, lit: Seq<char>, s: Seq<char>) -> bool {
    forall|k: int, j: int|
        0 <= k < lits.len() && lits[k].0@ != lit && 0 <= j < lit.len() ==> !#[trigger] text::at(
            s,
            j,
            lits[k].0@,
        )
}

proof fn lemma_cut_each_concat(a: Seq<Stretch>, b: Seq<Stretch>, q: Seq<char>)
    ensures
        split::cut_each(a + b, q) == split::cut_each(a, q) + split::cut_each(b, q),
    decreases b.len(),
{
    if b.len() == 0 {
        assert(a + b =~= a);
        assert(split::cut_each(a, q) + split::cut_each(b, q) =~= split::cut_each(a, q));
    } else {
        lemma_cut_each_concat(a, b.drop_last(), q);
        assert((a + b).drop_last() =~= a + b.drop_last());
        assert(split::cut_each(a + b, q) =~= split::cut_each(a, q) + split::cut_each(b, q));
    }
}

proof fn lemma_cut_each_one(x: Stretch, q: Seq<char>)
    ensures
        split::cut_each(seq![x], q) == (if x.literal {
            seq![x]
        } else {
            split::cut(x.text, q)
        }),
{
    let v = seq![x];
    assert(v.drop_last() =~= Seq::<Stretch>::empty());
    assert(split::cut_each(v.drop_last(), q).len() == 0);
    assert(split::cut_each(v, q) =~= (if x.literal {
        seq![x]
    } else {
        split::cut(x.text, q)
    }));
}

proof fn lemma_cut_each_between(x: Seq<char>, q: Seq<char>)
    ensures
        split::cut_each(split::between(x), q) == split::cut(x, q),
{
    if x.len() > 0 {
        lemma_cut_each_one(Stretch { literal: false, text: x }, q);
    } else {
        text::lemma_find(x, q, 0);
        assert(split::cut_each(split::between(x), q).len() == 0);
        assert(split::cut(x, q).len() == 0);
    }
}

/// A literal that does not stand in the front is found behind it.
proof fn lemma_find_behind(front: Seq<char>, x: Seq<char>, q: Seq<char>)
    requires
        forall|j: int| 0 <= j < front.len() ==> !#[trigger] text::at(front + x, j, q),
    ensures
        text::find(front + x, q, 0) == (match text::find(x, q, 0) {
            Some(p) => Some(p + front.len()),
            None => None,
        }),
{
    let n = front.len() as int;
    let s = front + x;
    text::lemma_find(s, q, 0);
    text::lemma_find(x, q, 0);
    assert forall|j: int| 0 <= j implies #[trigger] text::at(x, j, q) == text::at(s, j + n, q) by {
        if j + q.len() <= x.len() {
            assert(s.subrange(j + n, j + n + q.len()) =~= x.subrange(j, j + q.len()));
        }
    }
    match (text::find(s, q, 0), text::find(x, q, 0)) {
        (Some(j), Some(p)) => {
            assert(text::at(s, p + n, q));
            assert(j >= n);
            assert(text::at(x, j - n, q));
        },
        (Some(j), None) => {
            assert(j >= n);
            assert(text::at(x, j - n, q));
        },
        (None, Some(p)) => {
            assert(text::at(s, p + n, q));
        },
        (None, None) => {},
    }
}

/// While other literals are cut, `lit` stays in front of the first stretch.
proof fn lemma_before(lit: Seq<char>, body: Seq<char>, lits: Seq<(String, u32)>, n: int) -> (r: (
    Seq<char>,
    Seq<Stretch>,
))
    requires
        lit.len() > 0,
        body.len() > 0,
        0 <= n <= lits.len(),
        forall|k: int| 0 <= k < n ==> (#[trigger] lits[k]).0@ != lit,
        alone_in_front(lits, lit, lit + body),
    ensures
        split::cut_at(lit + body, lits, n) == seq![Stretch { literal: false, text: lit + r.0 }]
            + r.1,
        split::cut_at(body, lits, n) == split::between(r.0) + r.1,
        text::starts(body, r.0),
    decreases n,
{
    if n == 0 {
        let none = Seq::<Stretch>::empty();
        assert(seq![Stretch { literal: false, text: lit + body }] + none =~= split::cut_at(
            lit + body,
            lits,
            0,
        ));
        assert(split::between(body) + none =~= split::cut_at(body, lits, 0));
        assert(body.take(body.len() as int) =~= body);
        (body, none)
    } else {
        let (x, t) = lemma_before(lit, body, lits, n - 1);
        let q = lits[n - 1].0@;
        let first = Stretch { literal: false, text: lit + x };
        lemma_cut_each_concat(seq![first], t, q);
        lemma_cut_each_one(first, q);
        lemma_cut_each_concat(split::between(x), t, q);
        lemma_cut_each_between(x, q);
        assert forall|j: int| 0 <= j < lit.len() implies !#[trigger] text::at(lit + x, j, q) by {
            if text::at(lit + x, j, q) {
                let e = j + q.len();
                assert((lit + body).subrange(j, e) =~= (lit + x).subrange(j, e)) by {
                    assert(lit + x =~= (lit + body).take((lit.len() + x.len()) as int)) by {
                        assert(body.take(x.len() as int) == x);
                    }
                }
                assert(text::at(lit + body, j, lits[n - 1].0@));
            }
        }
        lemma_find_behind(lit, x, q);
        text::lemma_find(x, q, 0);
        let rest = split::cut_each(t, q);
        match text::find(x, q, 0) {
            Some(p) => {
                if q.len() > 0 {
                    let y = x.take(p);
                    let one = seq![Stretch { literal: true, text: q }];
                    let tail = split::cut(x.skip(p + q.len()), q);
                    assert((lit + x).take(p + lit.len()) =~= lit + y);
                    assert((lit + x).skip(p + lit.len() + q.len()) =~= x.skip(p + q.len()));
                    assert(split::cut(lit + x, q) == split::between(lit + y) + one + tail);
                    assert(split::cut(x, q) == split::between(y) + one + tail);
                    let more = one + tail + rest;
                    assert(split::between(lit + y) + one + tail + rest =~= seq![
                        Stretch { literal: false, text: lit + y },
                    ] + more);
                    assert(split::between(y) + one + tail + rest =~= split::between(y) + more);
                    assert(body.take(y.len() as int) =~= y) by {
                        assert(body.take(x.len() as int) == x);
                        assert(body.take(y.len() as int) =~= x.take(p));
                    }
                    (y, more)
                } else {
                    assert(split::cut(lit + x, q) == split::between(lit + x));
                    assert(split::cut(x, q) == split::between(x));
                    (x, rest)
                }
            },
            None => {
                assert(split::cut(lit + x, q) == split::between(lit + x));
                assert(split::cut(x, q) == split::between(x));
                (x, rest)
            },
        }
    }
}

/// A literal in front is cut off as the first stretch.
proof fn lemma_cut_off(lit: Seq<char>, body: Seq<char>, lits: Seq<(String, u32)>, at: int, n: int)
    requires
        lit.len() > 0,
        body.len() > 0,
        0 <= at < n <= lits.len(),
        lits[at].0@ == lit,
        forall|k: int| 0 <= k < at ==> (#[trigger] lits[k]).0@ != lit,
        alone_in_front(lits, lit, lit + body),
    ensures
        split::cut_at(lit + body, lits, n) == seq![Stretch { literal: true, text: lit }]
            + split::cut_at(body, lits, n),
    decreases n,
{
    let one = Stretch { literal: true, text: lit };
    let q = lits[n - 1].0@;
    if n == at + 1 {
        let (x, t) = lemma_before(lit, body, lits, at);
        let first = Stretch { literal: false, text: lit + x };
        lemma_cut_each_concat(seq![first], t, q);
        lemma_cut_each_one(first, q);
        lemma_cut_each_concat(split::between(x), t, q);
        lemma_cut_each_between(x, q);
        assert((lit + x).subrange(0, lit.len() as int) =~= lit);
        assert(text::at(lit + x, 0, lit));
        assert(text::find(lit + x, lit, 0) == Some(0int));
        assert((lit + x).take(0) =~= Seq::<char>::empty());
        assert((lit + x).skip(lit.len() as int) =~= x);
        assert(split::cut(lit + x, lit) =~= seq![one] + split::cut(x, lit));
        let rest = split::cut_each(t, q);
        assert(seq![one] + split::cut(x, lit) + rest =~= seq![one] + (split::cut(x, lit) + rest));
    } else {
        lemma_cut_off(lit, body, lits, at, n - 1);
        lemma_cut_each_concat(seq![one], split::cut_at(body, lits, n - 1), q);
        lemma_cut_each_one(one, q);
    }
}

/// A literal in front of stretches adds its token.
proof fn lemma_tokens_behind(tk: &BpeTokenizer, one: Stretch, v: Seq<Stretch>, n: int)
    requires
        one.literal,
        0 <= n <= v.len(),
    ensures
        encode::stretches_tokens(tk, seq![one] + v, n + 1) == seq![tk.vocab@[one.text]]
            + encode::stretches_tokens(tk, v, n),
    decreases n,
{
    let w = seq![one] + v;
    let id = seq![tk.vocab@[one.text]];
    if n == 0 {
        assert(w[0] == one);
        assert(encode::stretches_tokens(tk, w, 0).len() == 0);
        assert(encode::stretches_tokens(tk, w, 1) =~= id + encode::stretches_tokens(tk, v, 0));
    } else {
        lemma_tokens_behind(tk, one, v, n - 1);
        assert(w[n] == v[n - 1]);
        assert(encode::has_text(w, n) == encode::has_text(v, n - 1)) by {
            if encode::has_text(w, n) {
                let i = choose|i: int| 0 <= i < n && !(#[trigger] w[i]).literal;
                assert(v[i - 1] == w[i]);
            }
            if encode::has_text(v, n - 1) {
                let i = choose|i: int| 0 <= i < n - 1 && !(#[trigger] v[i]).literal;
                assert(w[i + 1] == v[i]);
            }
        }
        assert(encode::stretches_tokens(tk, w, n + 1) =~= id + encode::stretches_tokens(tk, v, n));
    }
}

proof fn lemma_told(
    start: Seq<char>,
    turns: Seq<ChatTurn>,
    n: int,
    open: Seq<char>,
    close: Seq<char>,
)
    ensures
        ({
            let a = chat::told(start, turns, n, open, close);
            let b = chat::told(Seq::empty(), turns, n, open, close);
            a.out == start + b.out && a.sys == b.sys
        }),
    decreases n,
{
    if n <= 0 {
        assert(start + Seq::<char>::empty() =~= start);
    } else {
        lemma_told(start, turns, n - 1, open, close);
        let b = chat::told(Seq::empty(), turns, n - 1, open, close);
        let t = chat::marked_turn(turns[n - 1], b.sys, open, close);
        assert(start + b.out + t =~= start + (b.out + t));
    }
}

/// The turns of a chat, without the start literal.
pub open spec fn turns_alone(turns: Seq<ChatTurn>, open: Seq<char>, close: Seq<char>) -> Seq<char> {
    chat::told(Seq::empty(), turns, turns.len() as int, open, close).out + open + "model\n"@
}

/// Exactly one of tokenizer and template supplies the start token: the tokens
/// of a chat are the start token and then those of its turns, whether encoding
/// adds the token or the template writes its literal.
pub proof fn law_chats_start_once(
    tk: &BpeTokenizer,
    turns: Seq<ChatTurn>,
    open: Seq<char>,
    close: Seq<char>,
    at: int,
)
    requires
        tk.bos is Some,
        tk.bos_literal is Some,
        tk.bos_literal->0@.len() > 0,
        tk.token(tk.bos_literal->0@) == tk.bos,
        0 <= at < tk.specials@.len(),
        tk.specials@[at].0@ == tk.bos_literal->0@,
        forall|k: int| 0 <= k < at ==> (#[trigger] tk.specials@[k]).0@ != tk.bos_literal->0@,
        alone_in_front(
            tk.specials@,
            tk.bos_literal->0@,
            tk.bos_literal->0@ + turns_alone(turns, open, close),
        ),
    ensures
        encode::encoded(tk, chat::gemma_chat(tk, turns, open, close), true) == seq![tk.bos->0]
            + encode::encoded(tk, turns_alone(turns, open, close), false),
{
    let lit = tk.bos_literal->0@;
    let body = turns_alone(turns, open, close);
    let whole = chat::gemma_chat(tk, turns, open, close);
    let lits = tk.specials@;
    let n = lits.len() as int;
    let v = split::cut_at(body, lits, n);
    let none = Seq::<u32>::empty();
    assert(none + encode::stretches_tokens(tk, v, v.len() as int) =~= encode::stretches_tokens(
        tk,
        v,
        v.len() as int,
    ));
    if tk.add_bos {
        assert(whole == body);
    } else {
        lemma_told(lit, turns, turns.len() as int, open, close);
        assert(whole =~= lit + body);
        reveal_strlit("model\n");
        lemma_cut_off(lit, body, lits, at, n);
        let one = Stretch { literal: true, text: lit };
        lemma_tokens_behind(tk, one, v, v.len() as int);
        let w = split::cut_at(whole, lits, n);
        assert(w == seq![one] + v);
        assert(none + encode::stretches_tokens(tk, w, w.len() as int)
            =~= encode::stretches_tokens(tk, w, w.len() as int));
    }
}

} // verus!
