//! Which tokens start and end a sequence, and who writes the first.
use vstd::hash_map::StringHashMap;
use vstd::prelude::*;

use crate::json;
use crate::json::{Json, Value};
use crate::text;

verus! {

/// Some text or member name in a value is `needle`.
pub open spec fn mentions(v: Value, needle: Seq<char>) -> bool
    decreases v, 0int,
{
    match v {
        Value::Str(s) => s == needle,
        Value::Arr(a) => items_mention(a, needle, a.len() as int),
        Value::Obj(m) => members_mention(m, needle, m.len() as int),
        _ => false,
    }
}

/// One of the first `n` items mentions `needle`.
pub open spec fn items_mention(a: Seq<Value>, needle: Seq<char>, n: int) -> bool
    decreases a, n,
{
    0 < n <= a.len() && (mentions(a[n - 1], needle) || items_mention(a, needle, n - 1))
}

/// One of the first `n` members is or mentions `needle`.
pub open spec fn members_mention(m: Seq<(Seq<char>, Value)>, needle: Seq<char>, n: int) -> bool
    decreases m, n,
{
    0 < n <= m.len() && (m[n - 1].0 == needle || mentions(m[n - 1].1, needle) || members_mention(
        m,
        needle,
        n - 1,
    ))
}

/// Some text or member name in a value is `needle`.
pub fn json_mentions(j: &Json, needle: &str) -> (r: bool)
    ensures
        r == mentions(j@, needle@),
    decreases *j,
{
    match j {
        Json::Str(s) => text::same(s.as_str(), needle),
        Json::Arr(a) => {
            proof {
                json::lemma_view_arr(*a);
            }
            let ghost vs = json::views(a@);
            let mut found: bool = false;
            let mut i: usize = 0;
            while i < a.len()
                invariant
                    i <= a@.len(),
                    *j == Json::Arr(*a),
                    vs == json::views(a@),
                    found == items_mention(vs, needle@, i as int),
                decreases a@.len() - i,
            {
                assert(vs[i as int] == a@[i as int]@);
                assert(decreases_to!(*j => j->Arr_0));
                assert(decreases_to!(j->Arr_0 => j->Arr_0@));
                assert(decreases_to!(j->Arr_0@ => j->Arr_0@[i as int]));
                if json_mentions(&a[i], needle) {
                    found = true;
                }
                i = i + 1;
            }
            found
        },
        Json::Obj(o) => {
            proof {
                json::lemma_view_obj(*o);
            }
            let ghost ms = json::member_views(o@);
            let mut found: bool = false;
            let mut i: usize = 0;
            while i < o.len()
                invariant
                    i <= o@.len(),
                    *j == Json::Obj(*o),
                    ms == json::member_views(o@),
                    found == members_mention(ms, needle@, i as int),
                decreases o@.len() - i,
            {
                assert(ms[i as int] == (o@[i as int].0@, o@[i as int].1@));
                assert(decreases_to!(*j => j->Obj_0));
                assert(decreases_to!(j->Obj_0 => j->Obj_0@));
                assert(decreases_to!(j->Obj_0@ => j->Obj_0@[i as int]));
                assert(decreases_to!(j->Obj_0@[i as int] => j->Obj_0@[i as int].1));
                if text::same(o[i].0.as_str(), needle) || json_mentions(&o[i].1, needle) {
                    found = true;
                }
                i = i + 1;
            }
            found
        },
        _ => false,
    }
}

/// What a document says, if it is there and well-formed.
pub open spec fn read(doc: Option<Seq<char>>) -> Option<Value> {
    match doc {
        Some(s) => json::document(s),
        None => None,
    }
}

pub open spec fn chars_of(s: Option<&str>) -> Option<Seq<char>> {
    match s {
        Some(t) => Some(t@),
        None => None,
    }
}

fn read_doc(s: Option<&str>) -> (r: Option<Json>)
    ensures
        match r {
            Some(j) => read(chars_of(s)) == Some(j@),
            None => read(chars_of(s)) is None,
        },
{
    match s {
        Some(t) => match json::parse(t) {
            Ok(j) => Some(j),
            Err(_) => None,
        },
        None => None,
    }
}

/// Encoding adds the start token: as the configuration says; else if the
/// post-processor mentions its literal; else always.
pub open spec fn adds_start(
    tok_cfg: Option<Value>,
    tok_json: Option<Value>,
    literal: Option<Seq<char>>,
) -> bool {
    let flag = match tok_cfg {
        Some(v) => v.bool_of("add_bos_token"@),
        None => None,
    };
    let post = match tok_json {
        Some(v) => v.get("post_processor"@),
        None => None,
    };
    if flag is Some {
        flag->0
    } else if literal is Some && post is Some && !(post->0 is Null) {
        mentions(post->0, literal->0)
    } else {
        true
    }
}

/// Whether encoding adds the start token, from the two tokenizer files.
pub fn resolve_add_bos(
    tok_cfg: Option<&str>,
    tok_json: Option<&str>,
    bos_literal: Option<&str>,
) -> (r: bool)
    ensures
        r == adds_start(
            read(chars_of(tok_cfg)),
            read(chars_of(tok_json)),
            chars_of(bos_literal),
        ),
{
    match read_doc(tok_cfg) {
        Some(j) => match j.bool_of("add_bos_token") {
            Some(b) => return b,
            None => {},
        },
        None => {},
    }
    match bos_literal {
        Some(lit) => match read_doc(tok_json) {
            Some(j) => match j.get("post_processor") {
                Some(pp) => match pp {
                    Json::Null => true,
                    _ => json_mentions(pp, lit),
                },
                None => true,
            },
            None => true,
        },
        None => true,
    }
}

// End tokens.

/// `ids` with `id` at the end, unless it is there.
pub open spec fn with_id(ids: Seq<u32>, id: u32) -> Seq<u32> {
    if ids.contains(id) {
        ids
    } else {
        ids.push(id)
    }
}

/// `ids` with the numbers among the first `n` values.
pub open spec fn with_ids(ids: Seq<u32>, a: Seq<Value>, n: int) -> Seq<u32>
    decreases n,
{
    if n <= 0 {
        ids
    } else {
        match a[n - 1].as_u64() {
            Some(v) => with_id(with_ids(ids, a, n - 1), v as u32),
            None => with_ids(ids, a, n - 1),
        }
    }
}

/// End tokens after a configuration: one number or a list.
pub open spec fn ends_after(ids: Seq<u32>, cfg: Option<Value>) -> Seq<u32> {
    match cfg {
        Some(v) => match v.get("eos_token_id"@) {
            Some(Value::Arr(a)) => with_ids(ids, a, a.len() as int),
            Some(e) => match e.as_u64() {
                Some(x) => with_id(ids, x as u32),
                None => ids,
            },
            None => ids,
        },
        None => ids,
    }
}

/// The start token of a configuration.
pub open spec fn start_of(cfg: Option<Value>) -> Option<u32> {
    match cfg {
        Some(v) => match v.u64_of("bos_token_id"@) {
            Some(x) => Some(x as u32),
            None => None,
        },
        None => None,
    }
}

/// The start token: of the generation settings, else of the model's.
pub open spec fn start_token(gen: Option<Value>, cfg: Option<Value>) -> Option<u32> {
    match start_of(gen) {
        Some(b) => Some(b),
        None => start_of(cfg),
    }
}

/// The end tokens: of the generation settings, then of the model's, then the
/// literal of the tokenizer's.
pub open spec fn end_tokens(
    gen: Option<Value>,
    cfg: Option<Value>,
    tok_cfg: Option<Value>,
    vocab: Map<Seq<char>, u32>,
) -> Seq<u32> {
    let e = ends_after(ends_after(Seq::empty(), gen), cfg);
    match tok_cfg {
        Some(v) => match v.str_of("eos_token"@) {
            Some(s) => if vocab.contains_key(s) {
                with_id(e, vocab[s])
            } else {
                e
            },
            None => e,
        },
        None => e,
    }
}

fn add_id(ids: &mut Vec<u32>, id: u32)
    ensures
        final(ids)@ == with_id(old(ids)@, id),
{
    let mut i: usize = 0;
    while i < ids.len()
        invariant
            i <= ids@.len(),
            ids@ == old(ids)@,
            forall|k: int| 0 <= k < i ==> ids@[k] != id,
        decreases ids@.len() - i,
    {
        if ids[i] == id {
            assert(ids@[i as int] == id);
            return;
        }
        i = i + 1;
    }
    ids.push(id);
}

fn add_ends(ids: &mut Vec<u32>, cfg: &Option<Json>)
    ensures
        final(ids)@ == ends_after(
            old(ids)@,
            match *cfg {
                Some(j) => Some(j@),
                None => None,
            },
        ),
{
    match cfg {
        None => {},
        Some(j) => match j.get("eos_token_id") {
            None => {},
            Some(e) => match e {
                Json::Arr(a) => {
                    proof {
                        json::lemma_view_arr(*a);
                    }
                    let ghost ids0 = ids@;
                    let ghost vs = json::views(a@);
                    let mut i: usize = 0;
                    while i < a.len()
                        invariant
                            i <= a@.len(),
                            vs == json::views(a@),
                            ids@ == with_ids(ids0, vs, i as int),
                        decreases a@.len() - i,
                    {
                        assert(vs[i as int] == a@[i as int]@);
                        match a[i].as_u64() {
                            Some(v) => {
                                add_id(ids, v as u32);
                            },
                            None => {},
                        }
                        i = i + 1;
                    }
                },
                _ => match e.as_u64() {
                    Some(v) => {
                        add_id(ids, v as u32);
                    },
                    None => {},
                },
            },
        },
    }
}

fn first_of(cfg: &Option<Json>) -> (r: Option<u32>)
    ensures
        r == start_of(
            match *cfg {
                Some(j) => Some(j@),
                None => None,
            },
        ),
{
    match cfg {
        None => None,
        Some(j) => match j.u64_of("bos_token_id") {
            Some(v) => Some(v as u32),
            None => None,
        },
    }
}

/// Start and end tokens from the configuration files.
pub fn discover_bos_eos(
    gen: Option<&str>,
    cfg: Option<&str>,
    tok_cfg: Option<&str>,
    vocab: &StringHashMap<u32>,
) -> (r: (Option<u32>, Vec<u32>))
    ensures
        r.0 == start_token(read(chars_of(gen)), read(chars_of(cfg))),
        r.1@ == end_tokens(
            read(chars_of(gen)),
            read(chars_of(cfg)),
            read(chars_of(tok_cfg)),
            vocab@,
        ),
{
    let g: Option<Json> = read_doc(gen);
    let c: Option<Json> = read_doc(cfg);
    let mut eos: Vec<u32> = Vec::new();
    add_ends(&mut eos, &g);
    add_ends(&mut eos, &c);
    match read_doc(tok_cfg) {
        Some(j) => match j.str_of("eos_token") {
            Some(s) => match vocab.get(s) {
                Some(id) => {
                    add_id(&mut eos, *id);
                },
                None => {},
            },
            None => {},
        },
        None => {},
    }
    let bos: Option<u32> = match first_of(&g) {
        Some(b) => Some(b),
        None => first_of(&c),
    };
    (bos, eos)
}

} // verus!
