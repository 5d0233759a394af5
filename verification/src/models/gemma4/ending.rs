//! Which tokens end a text.
use vstd::prelude::*;

use crate::json::Value;
use crate::models::gemma4::config;
use crate::models::gemma4::config::{low32, sat32};

verus! {

/// An array names the id `x`.
pub open spec fn names(a: Seq<Value>, x: u32) -> bool {
    exists|k: int|
        0 <= k < a.len() && ((#[trigger] a[k]).as_u64() matches Some(n) && low32(n) == x)
}

/// A configuration of the text model names the id `x`: as its one end, or among
/// its ends.
pub open spec fn ends_by(t: Value, x: u32) -> bool {
    match t.get("eos_token_id"@) {
        Some(Value::Num(n)) => x == sat32(n),
        Some(Value::Arr(a)) => names(a, x),
        _ => false,
    }
}

proof fn lemma_names(a: Seq<Value>, x: u32)
    requires
        a.len() > 0,
    ensures
        names(a, x) == (names(a.drop_last(), x) || (a.last().as_u64() matches Some(n) && low32(n)
            == x)),
{
    let b = a.drop_last();
    if names(b, x) {
        let k = choose|k: int|
            0 <= k < b.len() && ((#[trigger] b[k]).as_u64() matches Some(n) && low32(n) == x);
        assert(a[k] == b[k]);
    }
    if names(a, x) {
        let k = choose|k: int|
            0 <= k < a.len() && ((#[trigger] a[k]).as_u64() matches Some(n) && low32(n) == x);
        if k < b.len() {
            assert(a[k] == b[k]);
        }
    }
    if a.last().as_u64() matches Some(n) && low32(n) == x {
        assert(a[a.len() - 1] == a.last());
    }
}

proof fn lemma_contains(s: Seq<u32>, y: u32, x: u32)
    ensures
        s.push(y).contains(x) == (s.contains(x) || x == y),
{
    let t = s.push(y);
    if s.contains(x) {
        let k = choose|k: int| 0 <= k < s.len() && s[k] == x;
        assert(t[k] == x);
    }
    assert(t[s.len() as int] == y);
    if t.contains(x) {
        let k = choose|k: int| 0 <= k < t.len() && t[k] == x;
        if k < s.len() {
            assert(s[k] == x);
        }
    }
}

proof fn lemma_ids(a: Seq<Value>, x: u32)
    ensures
        config::ids(a).contains(x) == names(a, x),
    decreases a.len(),
{
    if a.len() > 0 {
        lemma_ids(a.drop_last(), x);
        lemma_names(a, x);
        if let Some(n) = a.last().as_u64() {
            lemma_contains(config::ids(a.drop_last()), low32(n), x);
        }
    }
}

proof fn lemma_add_new(acc: Seq<u32>, a: Seq<Value>, x: u32)
    ensures
        config::add_new(acc, a).contains(x) == (acc.contains(x) || names(a, x)),
        acc.len() <= config::add_new(acc, a).len(),
        config::add_new(acc, a).take(acc.len() as int) == acc,
        acc.no_duplicates() ==> config::add_new(acc, a).no_duplicates(),
    decreases a.len(),
{
    if a.len() > 0 {
        lemma_add_new(acc, a.drop_last(), x);
        lemma_names(a, x);
        if let Some(n) = a.last().as_u64() {
            let b = config::add_new(acc, a.drop_last());
            lemma_contains(b, low32(n), x);
            assert(b.push(low32(n)).take(acc.len() as int) =~= b.take(acc.len() as int));
        }
    } else {
        assert(acc.take(acc.len() as int) =~= acc);
    }
}

/// A text ends at the tokens that the text model's configuration or the whole
/// configuration names as its ends, and at no others. An end that both name is
/// kept once.
pub proof fn law_texts_end_at_the_tokens_named(cfg: Value, t: Value, x: u32)
    ensures
        config::eos_ids(cfg, t).contains(x) <==> ends_by(t, x) || (cfg.arr_of(
            "eos_token_id"@,
        ) matches Some(a) && names(a, x)),
        t.get("eos_token_id"@) !is Some || t.get("eos_token_id"@)->0 !is Arr
            ==> config::eos_ids(cfg, t).no_duplicates(),
{
    let own = match t.get("eos_token_id"@) {
        Some(Value::Num(n)) => seq![sat32(n)],
        Some(Value::Arr(a)) => config::ids(a),
        _ => Seq::empty(),
    };
    assert(own.contains(x) == ends_by(t, x)) by {
        match t.get("eos_token_id"@) {
            Some(Value::Num(n)) => {
                assert(own[0] == sat32(n));
            },
            Some(Value::Arr(a)) => {
                lemma_ids(a, x);
            },
            _ => {},
        }
    }
    if let Some(a) = cfg.arr_of("eos_token_id"@) {
        lemma_add_new(own, a, x);
    }
}

} // verus!
