//! Tokenizers from the arrays that a GGUF file carries.
use std::collections::HashMap;
use vstd::hash_map::StringHashMap;
use vstd::prelude::*;

use crate::ieee::Format;
use crate::num::{f32_lt, f32_sub};
use crate::text;
use crate::tokenizer::alphabet;
use crate::tokenizer::merge;
use crate::tokenizer::merge::MergeRanks;
use crate::tokenizer::words;
use crate::tokenizer::words::Entry;
use crate::tokenizer::BpeTokenizer;

verus! {

/// Ten, in single precision.
pub const TEN: u32 = 0x4120_0000;

/// Infinity, in single precision.
pub const INFINITY: u32 = 0x7f80_0000;

/// Longest piece that segmentation tries, in characters.
pub const MAX_PIECE: usize = 64;

/// The first `n` texts, each with its number; of equals the last counts.
pub open spec fn numbered(v: Seq<Seq<char>>, n: int) -> Map<Seq<char>, u32>
    decreases n,
{
    if n <= 0 {
        Map::empty()
    } else {
        numbered(v, n - 1).insert(v[n - 1], (n - 1) as u32)
    }
}

/// The two sides of the first space.
pub open spec fn pair_of(s: Seq<char>) -> Option<(Seq<char>, Seq<char>)> {
    match text::find(s, seq![' '], 0) {
        Some(p) => Some((s.take(p), s.skip(p + 1))),
        None => None,
    }
}

/// The rank of a pair among the first `n` lines; of equals the last counts.
pub open spec fn line_rank(lines: Seq<Seq<char>>, n: int, a: Seq<char>, b: Seq<char>) -> Option<
    u32,
>
    decreases n,
{
    if n <= 0 {
        None
    } else if pair_of(lines[n - 1]) == Some((a, b)) {
        Some((n - 1) as u32)
    } else {
        line_rank(lines, n - 1, a, b)
    }
}

/// Control and user-defined tokens are literals.
pub open spec fn is_literal_type(t: i64) -> bool {
    t == 3 || t == 4
}

/// The literals among the first `n` tokens.
pub open spec fn typed(v: Seq<Seq<char>>, types: Seq<i64>, n: int) -> Seq<Entry>
    decreases n,
{
    if n <= 0 {
        Seq::empty()
    } else if is_literal_type(types[n - 1]) && n - 1 < v.len() {
        typed(v, types, n - 1).push(Entry { text: v[n - 1], id: (n - 1) as u32 })
    } else {
        typed(v, types, n - 1)
    }
}

/// The least of the first `n` scores; what is no number is passed over.
pub open spec fn least(s: Seq<u32>, n: int) -> int
    decreases n,
{
    if n <= 0 {
        INFINITY as int
    } else {
        let m = least(s, n - 1);
        if Format::F32.less(s[n - 1] as int, m) {
            s[n - 1] as int
        } else {
            m
        }
    }
}

/// The most characters among the first `n` texts, up to the longest piece.
pub open spec fn longest(v: Seq<Seq<char>>, n: int) -> int
    decreases n,
{
    if n <= 0 {
        0
    } else {
        let m = longest(v, n - 1);
        let k = if v[n - 1].len() < MAX_PIECE {
            v[n - 1].len() as int
        } else {
            MAX_PIECE as int
        };
        if k > m {
            k
        } else {
            m
        }
    }
}

pub(crate) fn split_pair(s: &str) -> (r: Option<(String, String)>)
    ensures
        match r {
            Some((a, b)) => pair_of(s@) == Some((a@, b@)),
            None => pair_of(s@) is None,
        },
{
    let v: Vec<char> = text::to_chars(s);
    let n: usize = v.len();
    let mut sp: Vec<char> = Vec::new();
    sp.push(' ');
    assert(sp@ =~= seq![' ']);
    match text::find_from(&v, &sp, 0) {
        None => None,
        Some(p) => {
            let a: String = text::to_string_range(&v, 0, p);
            let b: String = text::to_string_range(&v, p + 1, n);
            proof {
                assert(v@.subrange(0, p as int) =~= s@.take(p as int));
                assert(v@.subrange(p + 1, v@.len() as int) =~= s@.skip(p + 1));
            }
            Some((a, b))
        },
    }
}

proof fn lemma_numbered(v: Seq<Seq<char>>, n: int)
    requires
        0 <= n <= v.len(),
        v.len() <= u32::MAX,
    ensures
        forall|t: Seq<char>| #[trigger]
            numbered(v, n).contains_key(t) == v.take(n).contains(t),
        forall|t: Seq<char>| #[trigger]
            numbered(v, n).contains_key(t) ==> numbered(v, n)[t] < n && v[numbered(v, n)[t] as int]
                == t,
    decreases n,
{
    if n > 0 {
        lemma_numbered(v, n - 1);
        let m = numbered(v, n);
        assert forall|t: Seq<char>| #[trigger] m.contains_key(t) == v.take(n).contains(t) by {
            if m.contains_key(t) {
                if t == v[n - 1] {
                    assert(v.take(n)[n - 1] == t);
                } else {
                    assert(numbered(v, n - 1).contains_key(t));
                    let w = v.take(n - 1);
                    let i = choose|i: int| 0 <= i < w.len() && w[i] == t;
                    assert(v.take(n)[i] == t);
                }
            }
            if v.take(n).contains(t) {
                let w = v.take(n);
                let i = choose|i: int| 0 <= i < w.len() && w[i] == t;
                if i < n - 1 {
                    assert(v.take(n - 1)[i] == t);
                    assert(numbered(v, n - 1).contains_key(t));
                }
            }
        }
        assert forall|t: Seq<char>| #[trigger] m.contains_key(t) implies m[t] < n && v[m[t] as int]
            == t by {
            if t != v[n - 1] {
                assert(numbered(v, n - 1).contains_key(t));
            }
        }
    }
}

proof fn lemma_typed(v: Seq<Seq<char>>, types: Seq<i64>, n: int)
    requires
        0 <= n <= types.len(),
    ensures
        forall|i: int|
            0 <= i < typed(v, types, n).len() ==> v.contains((#[trigger] typed(v, types, n)[i]).text),
    decreases n,
{
    if n > 0 {
        lemma_typed(v, types, n - 1);
        let e = typed(v, types, n);
        assert forall|i: int| 0 <= i < e.len() implies v.contains((#[trigger] e[i]).text) by {
            if i < typed(v, types, n - 1).len() {
                assert(e[i] == typed(v, types, n - 1)[i]);
            } else {
                assert(v[n - 1] == e[i].text);
            }
        }
    }
}

proof fn lemma_among(v: Seq<String>, t: Seq<char>)
    ensures
        words::among(v, t) == merge::texts(v).contains(t),
{
    if words::among(v, t) {
        let i = choose|i: int| 0 <= i < v.len() && (#[trigger] v[i])@ == t;
        assert(merge::texts(v)[i] == t);
    }
    if merge::texts(v).contains(t) {
        let i = choose|i: int| 0 <= i < v.len() && merge::texts(v)[i] == t;
        assert(v[i]@ == t);
    }
}

fn number_tokens(tokens: &Vec<String>) -> (r: StringHashMap<u32>)
    requires
        tokens@.len() <= u32::MAX,
    ensures
        r@ == numbered(merge::texts(tokens@), tokens@.len() as int),
{
    let mut r: StringHashMap<u32> = StringHashMap::new();
    let mut i: usize = 0;
    while i < tokens.len()
        invariant
            i <= tokens@.len(),
            tokens@.len() <= u32::MAX,
            r@ == numbered(merge::texts(tokens@), i as int),
        decreases tokens@.len() - i,
    {
        assert(merge::texts(tokens@)[i as int] == tokens@[i as int]@);
        r.insert(tokens[i].clone(), i as u32);
        i = i + 1;
    }
    r
}

fn rank_lines(lines: &Vec<String>) -> (r: MergeRanks)
    ensures
        r.wf(),
        forall|a: Seq<char>, b: Seq<char>| #[trigger]
            r.rank(a, b) == line_rank(merge::texts(lines@), lines@.len() as int, a, b),
{
    let mut r: MergeRanks = MergeRanks::new();
    let mut i: usize = 0;
    while i < lines.len()
        invariant
            i <= lines@.len(),
            r.wf(),
            forall|a: Seq<char>, b: Seq<char>| #[trigger]
                r.rank(a, b) == line_rank(merge::texts(lines@), i as int, a, b),
        decreases lines@.len() - i,
    {
        assert(merge::texts(lines@)[i as int] == lines@[i as int]@);
        match split_pair(lines[i].as_str()) {
            Some((a, b)) => {
                r.insert(a, b, i as u32);
            },
            None => {},
        }
        i = i + 1;
    }
    r
}

fn typed_tokens(tokens: &Vec<String>, types: &Vec<i64>) -> (r: Vec<(String, u32)>)
    requires
        tokens@.len() <= u32::MAX,
    ensures
        words::entries(r@) == typed(merge::texts(tokens@), types@, types@.len() as int),
{
    let mut r: Vec<(String, u32)> = Vec::new();
    let mut i: usize = 0;
    assert(words::entries(r@) =~= Seq::<Entry>::empty());
    while i < types.len()
        invariant
            i <= types@.len(),
            tokens@.len() <= u32::MAX,
            words::entries(r@) == typed(merge::texts(tokens@), types@, i as int),
        decreases types@.len() - i,
    {
        if (types[i] == 3 || types[i] == 4) && i < tokens.len() {
            let ghost e = words::entries(r@);
            r.push((tokens[i].clone(), i as u32));
            assert(merge::texts(tokens@)[i as int] == tokens@[i as int]@);
            assert(words::entries(r@) =~= e.push(Entry { text: tokens@[i as int]@, id: i as u32 }));
        }
        i = i + 1;
    }
    r
}

fn least_score(s: &Vec<u32>) -> (r: u32)
    ensures
        r == least(s@, s@.len() as int),
{
    let mut m: u32 = INFINITY;
    let mut i: usize = 0;
    while i < s.len()
        invariant
            i <= s@.len(),
            m == least(s@, i as int),
        decreases s@.len() - i,
    {
        if f32_lt(s[i], m) {
            m = s[i];
        }
        i = i + 1;
    }
    m
}

fn longest_token(v: &Vec<String>) -> (r: usize)
    ensures
        r == longest(merge::texts(v@), v@.len() as int),
{
    let mut m: usize = 0;
    let mut i: usize = 0;
    while i < v.len()
        invariant
            i <= v@.len(),
            m == longest(merge::texts(v@), i as int),
        decreases v@.len() - i,
    {
        assert(merge::texts(v@)[i as int] == v@[i as int]@);
        let n: usize = text::to_chars(v[i].as_str()).len();
        let k: usize = if n < MAX_PIECE {
            n
        } else {
            MAX_PIECE
        };
        if k > m {
            m = k;
        }
        i = i + 1;
    }
    m
}

/// Everything a tokenizer made from arrays is.
pub open spec fn made(
    r: BpeTokenizer,
    tokens: Seq<Seq<char>>,
    lines: Seq<Seq<char>>,
    types: Seq<i64>,
    bos: Option<u32>,
    eos: Seq<u32>,
    add_bos: bool,
    scores: Seq<u32>,
) -> bool {
    let n = tokens.len() as int;
    let lits = typed(tokens, types, types.len() as int);
    &&& r.vocab@ == numbered(tokens, n)
    &&& forall|a: Seq<char>, b: Seq<char>| #[trigger]
        r.merges.rank(a, b) == line_rank(lines, lines.len() as int, a, b)
    &&& words::entries(r.specials@) == words::ordered(lits, lits.len() as int)
    &&& r.sp == r.vocab@.contains_key(words::byte_literal(0))
    &&& r.byte_ids@ == words::byte_ids_of(r.vocab@, r.sp)
    &&& r.id_to_bytes@.len() == n
    &&& forall|t: Seq<char>| #[trigger]
        r.vocab@.contains_key(t) ==> r.bytes(r.vocab@[t]) == words::token_bytes(
            t,
            words::names(words::entries(r.specials@), t),
            r.sp,
            false,
        )
    &&& r.bos == bos
    &&& r.eos@ == eos
    &&& r.add_bos == add_bos
    &&& !r.sp_prepend
    &&& match r.bos_literal {
        Some(s) => bos is Some && bos->0 < n && tokens[bos->0 as int] == s@,
        None => bos is None || bos->0 >= n,
    }
    &&& r.scores@ == (if r.sp && scores.len() == n {
        scores
    } else {
        Seq::empty()
    })
    &&& r.max_piece_chars == (if r.scores@.len() == 0 {
        0
    } else {
        longest(tokens, n)
    })
    &&& r.byte_pen == Format::F32.difference(least(r.scores@, r.scores@.len() as int), TEN as int)
}

impl BpeTokenizer {
    /// A tokenizer from token texts, merge lines and token types. Token texts
    /// with byte literals make a metaspace vocabulary; scores count only
    /// there, one for every token.
    pub fn from_gguf(
        tokens: &Vec<String>,
        merge_lines: &Vec<String>,
        token_types: &Vec<i64>,
        bos: Option<u32>,
        eos: Vec<u32>,
        add_bos: bool,
        scores: Vec<u32>,
    ) -> (r: BpeTokenizer)
        requires
            tokens@.len() <= u32::MAX,
        ensures
            r.wf(),
            made(
                r,
                merge::texts(tokens@),
                merge::texts(merge_lines@),
                token_types@,
                bos,
                eos@,
                add_bos,
                scores@,
            ),
    {
        let n: usize = tokens.len();
        let ghost ts = merge::texts(tokens@);
        let vocab: StringHashMap<u32> = number_tokens(tokens);
        proof {
            lemma_numbered(ts, n as int);
            assert(ts.take(n as int) =~= ts);
            assert forall|t: Seq<char>| #[trigger] vocab@.contains_key(t) == words::among(
                tokens@,
                t,
            ) by {
                lemma_among(tokens@, t);
            }
        }
        let merges: MergeRanks = rank_lines(merge_lines);
        let lits: Vec<(String, u32)> = typed_tokens(tokens, token_types);
        let specials: Vec<(String, u32)> = words::longest_first(&lits);
        let zero: String = words::literal_of(0);
        let sp: bool = vocab.contains_key(zero.as_str());
        let byte_ids: Vec<Option<u32>> = words::byte_tokens(&vocab, sp);
        let (byte_enc, byte_dec): (Vec<char>, HashMap<u32, u8>) = alphabet::byte_alphabet();
        let id_to_bytes: Vec<Vec<u8>> = words::bytes_table(
            tokens,
            &vocab,
            &specials,
            sp,
            false,
            &byte_dec,
            n,
        );
        let bos_literal: Option<String> = match bos {
            Some(b) => if (b as usize) < n {
                Some(tokens[b as usize].clone())
            } else {
                None
            },
            None => None,
        };
        let scores: Vec<u32> = if sp && scores.len() == n {
            scores
        } else {
            Vec::new()
        };
        let max_piece_chars: usize = if scores.len() == 0 {
            0
        } else {
            longest_token(tokens)
        };
        let byte_pen: u32 = f32_sub(least_score(&scores), TEN);
        proof {
            let es = words::entries(specials@);
            let ls = words::entries(lits@);
            lemma_typed(ts, token_types@, token_types@.len() as int);
            assert forall|i: int| 0 <= i < specials@.len() implies vocab@.contains_key(
                (#[trigger] specials@[i]).0@,
            ) by {
                let t = specials@[i].0@;
                assert(es[i].text == t);
                assert(words::names(es, t));
                words::lemma_ordered_names(ls, ls.len() as int, t);
                assert(ls.take(ls.len() as int) =~= ls);
                let k = choose|k: int| 0 <= k < ls.len() && (#[trigger] ls[k]).text == t;
                assert(ts.contains(ls[k].text));
                assert(vocab@.contains_key(t));
            }
            assert forall|t: Seq<char>| #[trigger] vocab@.contains_key(t) implies (
            id_to_bytes@[vocab@[t] as int]@ == words::token_bytes(
                t,
                words::names(es, t),
                sp,
                false,
            )) by {
                let id = vocab@[t] as int;
                assert(0 <= id < n);
                let row = id_to_bytes@[id]@;
                if exists|u: Seq<char>| #[trigger]
                    vocab@.contains_key(u) && vocab@[u] == id && id_to_bytes@[id]@
                        == words::token_bytes(u, words::names(es, u), sp, false) {
                    let u = choose|u: Seq<char>| #[trigger]
                        vocab@.contains_key(u) && vocab@[u] == id && id_to_bytes@[id]@
                            == words::token_bytes(u, words::names(es, u), sp, false);
                    assert(ts[id] == u);
                    assert(ts[id] == t);
                }
            }
        }
        BpeTokenizer {
            vocab,
            id_to_bytes,
            merges,
            specials,
            bos,
            add_bos,
            bos_literal,
            eos,
            byte_enc,
            sp,
            sp_prepend: false,
            byte_ids,
            scores,
            max_piece_chars,
            byte_pen,
        }
    }
}

} // verus!
