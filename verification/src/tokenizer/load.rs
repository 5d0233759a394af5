//! Tokenizers from `tokenizer.json` and the configuration files beside it.
use std::collections::HashMap;
use vstd::hash_map::StringHashMap;
use vstd::prelude::*;

use crate::json;
use crate::json::{Json, Value};
use crate::text;
use crate::tokenizer::alphabet;
use crate::tokenizer::gguf;
use crate::tokenizer::merge::MergeRanks;
use crate::tokenizer::policy;
use crate::tokenizer::words;
use crate::tokenizer::words::Entry;
use crate::tokenizer::{BpeTokenizer, METASPACE};

verus! {

/// What is wrong with a merge.
#[derive(Clone, Copy, PartialEq, Eq, Debug, Structural)]
pub enum MergeFault {
    /// A text without a space.
    NoSpace,
    /// The left side is no text.
    Left,
    /// The right side is no text.
    Right,
    /// Neither a text nor a pair.
    Shape,
}

/// Why a tokenizer cannot be loaded.
#[derive(Debug)]
pub enum TokenizerError {
    Malformed,
    NoModel,
    ModelType(String),
    NoVocab,
    /// The number of this token is none.
    VocabId(String),
    NoMerges,
    Merge { rank: usize, fault: MergeFault },
    /// A token number is the greatest there is: no table holds it.
    IdRange,
}

/// The kind of fault, mathematically.
pub enum Fault {
    Malformed,
    NoModel,
    ModelType(Seq<char>),
    NoVocab,
    VocabId(Seq<char>),
    NoMerges,
    Merge { rank: int, fault: MergeFault },
    IdRange,
}

impl View for TokenizerError {
    type V = Fault;

    open spec fn view(&self) -> Fault {
        match self {
            TokenizerError::Malformed => Fault::Malformed,
            TokenizerError::NoModel => Fault::NoModel,
            TokenizerError::ModelType(s) => Fault::ModelType(s@),
            TokenizerError::NoVocab => Fault::NoVocab,
            TokenizerError::VocabId(s) => Fault::VocabId(s@),
            TokenizerError::NoMerges => Fault::NoMerges,
            TokenizerError::Merge { rank, fault } => Fault::Merge {
                rank: *rank as int,
                fault: *fault,
            },
            TokenizerError::IdRange => Fault::IdRange,
        }
    }
}

// The vocabulary.

/// A number as a token.
pub open spec fn id_of(v: Value) -> Option<u32> {
    match v.as_u64() {
        Some(n) => Some(n as u32),
        None => None,
    }
}

/// The first member from `i` on whose number is none.
pub open spec fn bad_id(ms: Seq<(Seq<char>, Value)>, i: int) -> Option<int>
    decreases ms.len() - i,
{
    if i < 0 || i >= ms.len() {
        None
    } else if id_of(ms[i].1) is None {
        Some(i)
    } else {
        bad_id(ms, i + 1)
    }
}

/// The tokens of the first `n` members; of equals the last counts.
pub open spec fn listed(ms: Seq<(Seq<char>, Value)>, n: int) -> Map<Seq<char>, u32>
    decreases n,
{
    if n <= 0 {
        Map::empty()
    } else {
        match id_of(ms[n - 1].1) {
            Some(id) => listed(ms, n - 1).insert(ms[n - 1].0, id),
            None => listed(ms, n - 1),
        }
    }
}

/// The literals among the first `n` added tokens.
pub open spec fn added(vs: Seq<Value>, n: int) -> Seq<Entry>
    decreases n,
{
    if n <= 0 {
        Seq::empty()
    } else {
        match (vs[n - 1].str_of("content"@), vs[n - 1].u64_of("id"@)) {
            (Some(c), Some(i)) => added(vs, n - 1).push(Entry { text: c, id: i as u32 }),
            _ => added(vs, n - 1),
        }
    }
}

/// A vocabulary with the first `n` literals that it did not hold.
pub open spec fn completed(m: Map<Seq<char>, u32>, es: Seq<Entry>, n: int) -> Map<Seq<char>, u32>
    decreases n,
{
    if n <= 0 {
        m
    } else {
        let c = completed(m, es, n - 1);
        if c.contains_key(es[n - 1].text) {
            c
        } else {
            c.insert(es[n - 1].text, es[n - 1].id)
        }
    }
}

/// A token number that no table holds occurs.
pub open spec fn overflows(ms: Seq<(Seq<char>, Value)>, es: Seq<Entry>) -> bool {
    ||| exists|i: int| 0 <= i < ms.len() && id_of((#[trigger] ms[i]).1) == Some(u32::MAX)
    ||| exists|i: int| 0 <= i < es.len() && (#[trigger] es[i]).id == u32::MAX
}

// Merges.

/// What a merge says.
pub enum Line {
    Pair(Seq<char>, Seq<char>),
    Bad(MergeFault),
}

pub open spec fn line_of(v: Value) -> Line {
    match v {
        Value::Str(s) => match gguf::pair_of(s) {
            Some((a, b)) => Line::Pair(a, b),
            None => Line::Bad(MergeFault::NoSpace),
        },
        Value::Arr(p) => if p.len() == 2 {
            match (p[0].as_str(), p[1].as_str()) {
                (Some(a), Some(b)) => Line::Pair(a, b),
                (None, _) => Line::Bad(MergeFault::Left),
                (_, None) => Line::Bad(MergeFault::Right),
            }
        } else {
            Line::Bad(MergeFault::Shape)
        },
        _ => Line::Bad(MergeFault::Shape),
    }
}

/// The first bad merge from `i` on.
pub open spec fn bad_line(vs: Seq<Value>, i: int) -> Option<int>
    decreases vs.len() - i,
{
    if i < 0 || i >= vs.len() {
        None
    } else if line_of(vs[i]) is Bad {
        Some(i)
    } else {
        bad_line(vs, i + 1)
    }
}

/// The rank of a pair among the first `n` merges; of equals the last counts.
pub open spec fn value_rank(vs: Seq<Value>, n: int, a: Seq<char>, b: Seq<char>) -> Option<u32>
    decreases n,
{
    if n <= 0 {
        None
    } else if line_of(vs[n - 1]) == Line::Pair(a, b) {
        Some((n - 1) as u32)
    } else {
        value_rank(vs, n - 1, a, b)
    }
}

// The family.

/// The metaspace family: byte fallback, or a token that starts with a
/// metaspace.
pub open spec fn is_metaspace(model: Value, vocab: Map<Seq<char>, u32>) -> bool {
    ||| model.bool_of("byte_fallback"@) == Some(true)
    ||| exists|t: Seq<char>| #[trigger]
        vocab.contains_key(t) && t.len() > 0 && t[0] == METASPACE
}

/// Place of the first member named `key`, from `i` on.
pub open spec fn place(m: Seq<(Seq<char>, Value)>, key: Seq<char>, i: int) -> int
    decreases m.len() - i,
{
    if i < 0 || i >= m.len() {
        m.len() as int
    } else if m[i].0 == key {
        i
    } else {
        place(m, key, i + 1)
    }
}

/// A normalizer, or one of the normalizers within, puts a text before.
pub open spec fn prepends(v: Value) -> bool
    decreases v, 0int,
{
    match v {
        Value::Arr(a) => some_prepends(a, a.len() as int),
        Value::Obj(m) => v.str_of("type"@) == Some("Prepend"@) || listed_prepends(
            m,
            place(m, "normalizers"@, 0),
        ),
        _ => false,
    }
}

/// The list that member `p` holds has one that prepends.
pub open spec fn listed_prepends(m: Seq<(Seq<char>, Value)>, p: int) -> bool
    decreases m, 0int,
{
    0 <= p < m.len() && m[p].1 is Arr && prepends(m[p].1)
}

/// One of the first `n` prepends.
pub open spec fn some_prepends(a: Seq<Value>, n: int) -> bool
    decreases a, n,
{
    0 < n <= a.len() && (prepends(a[n - 1]) || some_prepends(a, n - 1))
}

// The whole.

/// What is wrong with a tokenizer file, if anything is.
pub open spec fn fault_of(doc: Option<Value>) -> Option<Fault> {
    match doc {
        None => Some(Fault::Malformed),
        Some(j) => match j.get("model"@) {
            None => Some(Fault::NoModel),
            Some(model) => {
                let kind = match model.str_of("type"@) {
                    Some(t) => t,
                    None => "BPE"@,
                };
                if kind != "BPE"@ {
                    Some(Fault::ModelType(kind))
                } else {
                    match model.get("vocab"@) {
                        Some(Value::Obj(ms)) => match bad_id(ms, 0) {
                            Some(i) => Some(Fault::VocabId(ms[i].0)),
                            None => match model.arr_of("merges"@) {
                                None => Some(Fault::NoMerges),
                                Some(vs) => match bad_line(vs, 0) {
                                    Some(i) => Some(
                                        Fault::Merge { rank: i, fault: line_of(vs[i])->Bad_0 },
                                    ),
                                    None => if overflows(ms, added_of(j)) {
                                        Some(Fault::IdRange)
                                    } else {
                                        None
                                    },
                                },
                            },
                        },
                        _ => Some(Fault::NoVocab),
                    }
                }
            },
        },
    }
}

/// The literals that a tokenizer file adds.
pub open spec fn added_of(j: Value) -> Seq<Entry> {
    match j.arr_of("added_tokens"@) {
        Some(vs) => added(vs, vs.len() as int),
        None => Seq::empty(),
    }
}

/// The vocabulary of a tokenizer file.
pub open spec fn vocab_of(j: Value) -> Map<Seq<char>, u32> {
    let ms = j.get("model"@)->0.get("vocab"@)->0->Obj_0;
    let es = added_of(j);
    completed(listed(ms, ms.len() as int), es, es.len() as int)
}

struct Listed {
    vocab: StringHashMap<u32>,
    names: Vec<String>,
    top: u32,
}

impl Listed {
    spec fn wf(&self) -> bool {
        &&& forall|t: Seq<char>| #[trigger]
            self.vocab@.contains_key(t) == words::among(self.names@, t)
        &&& forall|t: Seq<char>| #[trigger]
            self.vocab@.contains_key(t) ==> self.vocab@[t] <= self.top
    }

    fn put(&mut self, tok: &str, id: u32)
        requires
            old(self).wf(),
        ensures
            final(self).wf(),
            final(self).vocab@ == old(self).vocab@.insert(tok@, id),
            final(self).top == (if old(self).top < id {
                id
            } else {
                old(self).top
            }),
    {
        let ghost before = *self;
        let name: String = tok.to_owned();
        self.names.push(name);
        self.vocab.insert(tok.to_owned(), id);
        if self.top < id {
            self.top = id;
        }
        proof {
            assert(self.names@.take(before.names@.len() as int) =~= before.names@);
            lemma_named(before.names@, self.names@, tok@);
            assert forall|t: Seq<char>| #[trigger] self.vocab@.contains_key(t) == words::among(
                self.names@,
                t,
            ) by {
                assert(before.vocab@.contains_key(t) == words::among(before.names@, t));
            }
            assert forall|t: Seq<char>| #[trigger] self.vocab@.contains_key(t) implies self.vocab@[t]
                <= self.top by {
                if t != tok@ {
                    assert(before.vocab@.contains_key(t));
                }
            }
        }
    }

    fn offer(&mut self, tok: &str, id: u32)
        requires
            old(self).wf(),
        ensures
            final(self).wf(),
            final(self).vocab@ == (if old(self).vocab@.contains_key(tok@) {
                old(self).vocab@
            } else {
                old(self).vocab@.insert(tok@, id)
            }),
            final(self).top == (if old(self).top < id {
                id
            } else {
                old(self).top
            }),
    {
        if self.vocab.contains_key(tok) {
            if self.top < id {
                self.top = id;
            }
        } else {
            self.put(tok, id);
        }
    }
}

proof fn lemma_named(a: Seq<String>, b: Seq<String>, x: Seq<char>)
    requires
        b.len() == a.len() + 1,
        b.take(a.len() as int) == a,
        b.last()@ == x,
    ensures
        forall|t: Seq<char>| #[trigger]
            words::among(b, t) == (words::among(a, t) || t == x),
{
    assert forall|t: Seq<char>| #[trigger] words::among(b, t) == (words::among(a, t) || t == x) by {
        if words::among(b, t) {
            let i = choose|i: int| 0 <= i < b.len() && (#[trigger] b[i])@ == t;
            if i < a.len() {
                assert(b.take(a.len() as int)[i]@ == t);
                assert(a[i]@ == t);
            }
        }
        if words::among(a, t) {
            let i = choose|i: int| 0 <= i < a.len() && (#[trigger] a[i])@ == t;
            assert(b.take(a.len() as int)[i]@ == t);
            assert(b[i]@ == t);
        }
        if t == x {
            assert(b[b.len() - 1]@ == t);
        }
    }
}

/// The greatest number so far is the greatest there is.
spec fn topped(ms: Seq<(Seq<char>, Value)>, n: int, es: Seq<Entry>, k: int) -> bool {
    ||| exists|i: int| 0 <= i < n && id_of((#[trigger] ms[i]).1) == Some(u32::MAX)
    ||| exists|i: int| 0 <= i < k && (#[trigger] es[i]).id == u32::MAX
}

fn read_vocab(o: &Vec<(String, Json)>) -> (r: Result<Listed, String>)
    ensures
        ({
            let ms = json::member_views(o@);
            match r {
                Ok(l) => bad_id(ms, 0) is None && l.wf() && l.vocab@ == listed(ms, ms.len() as int)
                    && (l.top == u32::MAX) == topped(ms, ms.len() as int, Seq::empty(), 0),
                Err(t) => bad_id(ms, 0) matches Some(i) && ms[i].0 == t@,
            }
        }),
{
    let ghost ms = json::member_views(o@);
    let mut l: Listed = Listed { vocab: StringHashMap::new(), names: Vec::new(), top: 0 };
    let mut i: usize = 0;
    while i < o.len()
        invariant
            i <= o@.len(),
            ms == json::member_views(o@),
            bad_id(ms, 0) == bad_id(ms, i as int),
            l.wf(),
            l.vocab@ == listed(ms, i as int),
            (l.top == u32::MAX) == topped(ms, i as int, Seq::empty(), 0),
        decreases o@.len() - i,
    {
        assert(ms[i as int] == (o@[i as int].0@, o@[i as int].1@));
        match o[i].1.as_u64() {
            None => {
                return Err(o[i].0.clone());
            },
            Some(v) => {
                let ghost top = l.top;
                l.put(o[i].0.as_str(), v as u32);
                proof {
                    if top == u32::MAX {
                        let k = choose|k: int|
                            0 <= k < i && id_of((#[trigger] ms[k]).1) == Some(u32::MAX);
                        assert(id_of(ms[k].1) == Some(u32::MAX));
                    }
                    if v as u32 == u32::MAX {
                        assert(id_of(ms[i as int].1) == Some(u32::MAX));
                    }
                }
            },
        }
        i = i + 1;
    }
    Ok(l)
}

fn read_merges(a: &Vec<Json>) -> (r: Result<MergeRanks, (usize, MergeFault)>)
    ensures
        ({
            let vs = json::views(a@);
            match r {
                Ok(m) => bad_line(vs, 0) is None && m.wf() && forall|x: Seq<char>, y: Seq<char>|
                    #[trigger]
                    m.rank(x, y) == value_rank(vs, vs.len() as int, x, y),
                Err((i, f)) => bad_line(vs, 0) == Some(i as int) && line_of(vs[i as int])
                    == Line::Bad(f),
            }
        }),
{
    let ghost vs = json::views(a@);
    let mut m: MergeRanks = MergeRanks::new();
    let mut i: usize = 0;
    while i < a.len()
        invariant
            i <= a@.len(),
            vs == json::views(a@),
            bad_line(vs, 0) == bad_line(vs, i as int),
            m.wf(),
            forall|x: Seq<char>, y: Seq<char>| #[trigger]
                m.rank(x, y) == value_rank(vs, i as int, x, y),
        decreases a@.len() - i,
    {
        assert(vs[i as int] == a@[i as int]@);
        match &a[i] {
            Json::Str(s) => match gguf::split_pair(s.as_str()) {
                Some((x, y)) => {
                    m.insert(x, y, i as u32);
                },
                None => {
                    return Err((i, MergeFault::NoSpace));
                },
            },
            Json::Arr(p) => {
                proof {
                    json::lemma_view_arr(*p);
                }
                if p.len() != 2 {
                    return Err((i, MergeFault::Shape));
                }
                assert(json::views(p@)[0] == p@[0]@);
                assert(json::views(p@)[1] == p@[1]@);
                match p[0].as_str() {
                    None => {
                        return Err((i, MergeFault::Left));
                    },
                    Some(x) => match p[1].as_str() {
                        None => {
                            return Err((i, MergeFault::Right));
                        },
                        Some(y) => {
                            m.insert(x.to_owned(), y.to_owned(), i as u32);
                        },
                    },
                }
            },
            _ => {
                return Err((i, MergeFault::Shape));
            },
        }
        i = i + 1;
    }
    Ok(m)
}

fn read_added(j: &Json, l: &mut Listed, Ghost(ms): Ghost<Seq<(Seq<char>, Value)>>) -> (r: Vec<
    (String, u32),
>)
    requires
        old(l).wf(),
        (old(l).top == u32::MAX) == topped(ms, ms.len() as int, Seq::empty(), 0),
    ensures
        final(l).wf(),
        words::entries(r@) == added_of(j@),
        final(l).vocab@ == completed(
            old(l).vocab@,
            added_of(j@),
            added_of(j@).len() as int,
        ),
        (final(l).top == u32::MAX) == overflows(ms, added_of(j@)),
{
    let mut r: Vec<(String, u32)> = Vec::new();
    let ghost v0 = l.vocab@;
    assert(words::entries(r@) =~= Seq::<Entry>::empty());
    proof {
        assert(topped(ms, ms.len() as int, Seq::empty(), 0) == topped(
            ms,
            ms.len() as int,
            added_of(j@),
            0,
        ));
    }
    match j.arr_of("added_tokens") {
        None => {},
        Some(a) => {
            let ghost vs = json::views(a@);
            assert(j@.arr_of("added_tokens"@) == Some(vs));
            let ghost all = added(vs, vs.len() as int);
            let mut i: usize = 0;
            while i < a.len()
                invariant
                    i <= a@.len(),
                    vs == json::views(a@),
                    all == added(vs, vs.len() as int),
                    l.wf(),
                    words::entries(r@) == added(vs, i as int),
                    l.vocab@ == completed(v0, added(vs, i as int), added(vs, i as int).len() as int),
                    (l.top == u32::MAX) == topped(
                        ms,
                        ms.len() as int,
                        added(vs, i as int),
                        added(vs, i as int).len() as int,
                    ),
                decreases a@.len() - i,
            {
                assert(vs[i as int] == a@[i as int]@);
                let ghost before = added(vs, i as int);
                let content: Option<&str> = a[i].str_of("content");
                let id: Option<u64> = a[i].u64_of("id");
                match (content, id) {
                    (Some(c), Some(n)) => {
                        let ghost e0 = words::entries(r@);
                        let ghost top = l.top;
                        l.offer(c, n as u32);
                        r.push((c.to_owned(), n as u32));
                        proof {
                            let e = Entry { text: c@, id: n as u32 };
                            assert(words::entries(r@) =~= e0.push(e));
                            lemma_completed_prefix(v0, before, before.push(e), before.len() as int);
                            lemma_topped(ms, before, e, top, l.top);
                        }
                    },
                    _ => {},
                }
                i = i + 1;
            }
        },
    }
    r
}

proof fn lemma_topped(
    ms: Seq<(Seq<char>, Value)>,
    es: Seq<Entry>,
    e: Entry,
    top: u32,
    next: u32,
)
    requires
        (top == u32::MAX) == topped(ms, ms.len() as int, es, es.len() as int),
        next == (if top < e.id {
            e.id
        } else {
            top
        }),
    ensures
        (next == u32::MAX) == topped(ms, ms.len() as int, es.push(e), es.len() as int + 1),
{
    let f = es.push(e);
    if exists|i: int| 0 <= i < es.len() && (#[trigger] es[i]).id == u32::MAX {
        let i = choose|i: int| 0 <= i < es.len() && (#[trigger] es[i]).id == u32::MAX;
        assert(f[i].id == u32::MAX);
    }
    if exists|i: int| 0 <= i < f.len() && (#[trigger] f[i]).id == u32::MAX {
        let i = choose|i: int| 0 <= i < f.len() && (#[trigger] f[i]).id == u32::MAX;
        if i < es.len() {
            assert(es[i].id == u32::MAX);
        }
    }
    if e.id == u32::MAX {
        assert(f[es.len() as int].id == u32::MAX);
    }
}

proof fn lemma_completed_prefix(m: Map<Seq<char>, u32>, a: Seq<Entry>, b: Seq<Entry>, n: int)
    requires
        0 <= n <= a.len() <= b.len(),
        forall|i: int| 0 <= i < n ==> a[i] == b[i],
    ensures
        completed(m, a, n) == completed(m, b, n),
    decreases n,
{
    if n > 0 {
        lemma_completed_prefix(m, a, b, n - 1);
    }
}

proof fn lemma_completed(m: Map<Seq<char>, u32>, es: Seq<Entry>, n: int)
    requires
        0 <= n <= es.len(),
    ensures
        forall|i: int|
            0 <= i < n ==> completed(m, es, n).contains_key((#[trigger] es[i]).text),
    decreases n,
{
    if n > 0 {
        lemma_completed(m, es, n - 1);
    }
}

fn starts_marked(names: &Vec<String>) -> (r: bool)
    ensures
        r == exists|i: int|
            0 <= i < names@.len() && (#[trigger] names@[i])@.len() > 0 && names@[i]@[0]
                == METASPACE,
{
    let mut i: usize = 0;
    while i < names.len()
        invariant
            i <= names@.len(),
            forall|k: int|
                0 <= k < i ==> !((#[trigger] names@[k])@.len() > 0 && names@[k]@[0] == METASPACE),
        decreases names@.len() - i,
    {
        let v: Vec<char> = text::to_chars(names[i].as_str());
        if v.len() > 0 && v[0] == METASPACE {
            assert(names@[i as int]@.len() > 0 && names@[i as int]@[0] == METASPACE);
            return true;
        }
        i = i + 1;
    }
    false
}

fn has_prepend(j: &Json) -> (r: bool)
    ensures
        r == prepends(j@),
    decreases *j,
{
    match j {
        Json::Arr(a) => {
            proof {
                json::lemma_view_arr(*a);
            }
            let ghost vs = json::views(a@);
            let mut found: bool = false;
            let mut i: usize = 0;
            while i < a.len()
                invariant
                    i <= a@.len(),
                    *j == Json::Arr(*a),
                    vs == json::views(a@),
                    found == some_prepends(vs, i as int),
                decreases a@.len() - i,
            {
                assert(vs[i as int] == a@[i as int]@);
                assert(decreases_to!(*j => j->Arr_0));
                assert(decreases_to!(j->Arr_0 => j->Arr_0@));
                assert(decreases_to!(j->Arr_0@ => j->Arr_0@[i as int]));
                if has_prepend(&a[i]) {
                    found = true;
                }
                i = i + 1;
            }
            found
        },
        Json::Obj(o) => {
            proof {
                json::lemma_view_obj(*o);
            }
            let ghost ms = json::member_views(o@);
            match j.str_of("type") {
                Some(t) => {
                    if text::same(t, "Prepend") {
                        return true;
                    }
                },
                None => {},
            }
            let mut p: usize = 0;
            while p < o.len() && !text::same(o[p].0.as_str(), "normalizers")
                invariant
                    p <= o@.len(),
                    ms == json::member_views(o@),
                    place(ms, "normalizers"@, 0) == place(ms, "normalizers"@, p as int),
                decreases o@.len() - p,
            {
                assert(ms[p as int] == (o@[p as int].0@, o@[p as int].1@));
                p = p + 1;
            }
            if p == o.len() {
                return false;
            }
            assert(ms[p as int] == (o@[p as int].0@, o@[p as int].1@));
            assert(decreases_to!(*j => j->Obj_0));
            assert(decreases_to!(j->Obj_0 => j->Obj_0@));
            assert(decreases_to!(j->Obj_0@ => j->Obj_0@[p as int]));
            assert(decreases_to!(j->Obj_0@[p as int] => j->Obj_0@[p as int].1));
            match &o[p].1 {
                Json::Arr(_) => has_prepend(&o[p].1),
                _ => false,
            }
        },
        _ => false,
    }
}

/// The literal of the start token: the first special that has its number.
pub open spec fn literal_for(es: Seq<Entry>, id: u32, i: int) -> Option<Seq<char>>
    decreases es.len() - i,
{
    if i < 0 || i >= es.len() {
        None
    } else if es[i].id == id {
        Some(es[i].text)
    } else {
        literal_for(es, id, i + 1)
    }
}

fn start_literal(bos: Option<u32>, specials: &Vec<(String, u32)>) -> (r: Option<String>)
    ensures
        match r {
            Some(s) => bos is Some && literal_for(words::entries(specials@), bos->0, 0) == Some(s@),
            None => bos is None || literal_for(words::entries(specials@), bos->0, 0) is None,
        },
{
    match bos {
        None => None,
        Some(id) => {
            let ghost es = words::entries(specials@);
            let mut i: usize = 0;
            while i < specials.len()
                invariant
                    i <= specials@.len(),
                    bos == Some(id),
                    es == words::entries(specials@),
                    literal_for(es, id, 0) == literal_for(es, id, i as int),
                decreases specials@.len() - i,
            {
                assert(es[i as int].text == specials@[i as int].0@);
                if specials[i].1 == id {
                    return Some(specials[i].0.clone());
                }
                i = i + 1;
            }
            None
        },
    }
}

/// Everything a loaded tokenizer is.
pub open spec fn loaded(
    r: BpeTokenizer,
    j: Value,
    gen: Option<Value>,
    cfg: Option<Value>,
    tok_cfg: Option<Value>,
) -> bool {
    let model = j.get("model"@)->0;
    let merges = model.arr_of("merges"@)->0;
    let es = added_of(j);
    &&& r.vocab@ == vocab_of(j)
    &&& forall|a: Seq<char>, b: Seq<char>| #[trigger]
        r.merges.rank(a, b) == value_rank(merges, merges.len() as int, a, b)
    &&& words::entries(r.specials@) == words::ordered(es, es.len() as int)
    &&& r.sp == is_metaspace(model, r.vocab@)
    &&& r.sp_prepend == (r.sp && (j.get("normalizer"@) matches Some(n) && prepends(n)))
    &&& r.byte_ids@ == words::byte_ids_of(r.vocab@, r.sp)
    &&& words::table_of(
        r.id_to_bytes@,
        r.vocab@,
        words::entries(r.specials@),
        r.sp,
        true,
    )
    &&& forall|t: Seq<char>| #[trigger]
        r.vocab@.contains_key(t) ==> r.vocab@[t] < r.id_to_bytes@.len()
    &&& r.bos == policy::start_token(gen, cfg)
    &&& r.eos@ == policy::end_tokens(gen, cfg, tok_cfg, r.vocab@)
    &&& match r.bos_literal {
        Some(s) => r.bos is Some && literal_for(words::entries(r.specials@), r.bos->0, 0) == Some(
            s@,
        ),
        None => r.bos is None || literal_for(words::entries(r.specials@), r.bos->0, 0) is None,
    }
    &&& r.add_bos == policy::adds_start(
        tok_cfg,
        Some(j),
        match r.bos_literal {
            Some(s) => Some(s@),
            None => None,
        },
    )
    &&& r.scores@.len() == 0
    &&& r.max_piece_chars == 0
    &&& r.byte_pen == 0
}

impl BpeTokenizer {
    /// A tokenizer from the text of `tokenizer.json`, and those of
    /// `generation_config.json`, `config.json` and `tokenizer_config.json`
    /// where they are there.
    pub fn load(
        tok_json: &str,
        gen: Option<&str>,
        cfg: Option<&str>,
        tok_cfg: Option<&str>,
    ) -> (r: Result<BpeTokenizer, TokenizerError>)
        ensures
            match r {
                Ok(t) => fault_of(json::document(tok_json@)) is None && t.wf() && loaded(
                    t,
                    json::document(tok_json@)->0,
                    policy::read(policy::chars_of(gen)),
                    policy::read(policy::chars_of(cfg)),
                    policy::read(policy::chars_of(tok_cfg)),
                ),
                Err(e) => fault_of(json::document(tok_json@)) == Some(e@),
            },
    {
        let j: Json = match json::parse(tok_json) {
            Ok(j) => j,
            Err(_) => return Err(TokenizerError::Malformed),
        };
        let model: &Json = match j.get("model") {
            Some(m) => m,
            None => return Err(TokenizerError::NoModel),
        };
        match model.str_of("type") {
            Some(t) => {
                if !text::same(t, "BPE") {
                    return Err(TokenizerError::ModelType(t.to_owned()));
                }
            },
            None => {},
        }
        let members: &Vec<(String, Json)> = match model.get("vocab") {
            Some(v) => match v {
                Json::Obj(o) => o,
                _ => return Err(TokenizerError::NoVocab),
            },
            None => return Err(TokenizerError::NoVocab),
        };
        let ghost ms = json::member_views(members@);
        proof {
            json::lemma_view_obj(*members);
            assert(model@.get("vocab"@) == Some(Value::Obj(ms)));
        }
        let mut l: Listed = match read_vocab(members) {
            Ok(l) => l,
            Err(t) => return Err(TokenizerError::VocabId(t)),
        };
        let lines: &Vec<Json> = match model.arr_of("merges") {
            Some(a) => a,
            None => return Err(TokenizerError::NoMerges),
        };
        let merges: MergeRanks = match read_merges(lines) {
            Ok(m) => m,
            Err((rank, fault)) => return Err(TokenizerError::Merge { rank, fault }),
        };
        let lits: Vec<(String, u32)> = read_added(&j, &mut l, Ghost(ms));
        if l.top == u32::MAX {
            return Err(TokenizerError::IdRange);
        }
        let specials: Vec<(String, u32)> = words::longest_first(&lits);
        let fallback: bool = match model.bool_of("byte_fallback") {
            Some(b) => b,
            None => false,
        };
        let sp: bool = fallback || starts_marked(&l.names);
        proof {
            lemma_family(l, model@, fallback);
        }
        let sp_prepend: bool = if sp {
            match j.get("normalizer") {
                Some(n) => has_prepend(n),
                None => false,
            }
        } else {
            false
        };
        let byte_ids: Vec<Option<u32>> = words::byte_tokens(&l.vocab, sp);
        let (byte_enc, byte_dec): (Vec<char>, HashMap<u32, u8>) = alphabet::byte_alphabet();
        let len: usize = l.top as usize + 1;
        let id_to_bytes: Vec<Vec<u8>> = words::bytes_table(
            &l.names,
            &l.vocab,
            &specials,
            sp,
            true,
            &byte_dec,
            len,
        );
        let (bos, eos): (Option<u32>, Vec<u32>) = policy::discover_bos_eos(
            gen,
            cfg,
            tok_cfg,
            &l.vocab,
        );
        let bos_literal: Option<String> = start_literal(bos, &specials);
        let literal: Option<&str> = match &bos_literal {
            Some(s) => Some(s.as_str()),
            None => None,
        };
        let add_bos: bool = policy::resolve_add_bos(tok_cfg, Some(tok_json), literal);
        proof {
            let es = words::entries(specials@);
            let ls = words::entries(lits@);
            let base = listed(ms, ms.len() as int);
            lemma_completed(base, ls, ls.len() as int);
            assert forall|i: int| 0 <= i < specials@.len() implies l.vocab@.contains_key(
                (#[trigger] specials@[i]).0@,
            ) by {
                let t = specials@[i].0@;
                assert(es[i].text == t);
                assert(words::names(es, t));
                words::lemma_ordered_names(ls, ls.len() as int, t);
                assert(ls.take(ls.len() as int) =~= ls);
                let k = choose|k: int| 0 <= k < ls.len() && (#[trigger] ls[k]).text == t;
                assert(l.vocab@.contains_key(ls[k].text));
            }
        }
        Ok(
            BpeTokenizer {
                vocab: l.vocab,
                id_to_bytes,
                merges,
                specials,
                bos,
                add_bos,
                bos_literal,
                eos,
                byte_enc,
                sp,
                sp_prepend,
                byte_ids,
                scores: Vec::new(),
                max_piece_chars: 0,
                byte_pen: 0,
            },
        )
    }
}

proof fn lemma_family(l: Listed, model: Value, fallback: bool)
    requires
        l.wf(),
        fallback == (model.bool_of("byte_fallback"@) == Some(true)),
    ensures
        is_metaspace(model, l.vocab@) == (fallback || exists|i: int|
            0 <= i < l.names@.len() && (#[trigger] l.names@[i])@.len() > 0 && l.names@[i]@[0]
                == METASPACE),
{
    let v = l.vocab@;
    if exists|t: Seq<char>| #[trigger] v.contains_key(t) && t.len() > 0 && t[0] == METASPACE {
        let t = choose|t: Seq<char>| #[trigger]
            v.contains_key(t) && t.len() > 0 && t[0] == METASPACE;
        let i = choose|i: int| 0 <= i < l.names@.len() && (#[trigger] l.names@[i])@ == t;
        assert(l.names@[i]@[0] == METASPACE);
    }
    if exists|i: int|
        0 <= i < l.names@.len() && (#[trigger] l.names@[i])@.len() > 0 && l.names@[i]@[0]
            == METASPACE {
        let i = choose|i: int|
            0 <= i < l.names@.len() && (#[trigger] l.names@[i])@.len() > 0 && l.names@[i]@[0]
                == METASPACE;
        assert(words::among(l.names@, l.names@[i]@));
        assert(v.contains_key(l.names@[i]@));
    }
}

} // verus!
