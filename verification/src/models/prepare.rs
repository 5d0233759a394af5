//! Prompts with media: placeholders, framing and the chained chat.
use vstd::prelude::*;
use vstd::utf8::encode_utf8;

use crate::models::prompt::{MediaRows, PreparedPrompt};
use crate::text;
use crate::tokenizer::chat;
use crate::tokenizer::encode;
use crate::tokenizer::roundtrip;
use crate::tokenizer::unigram::push_all;
use crate::tokenizer::BpeTokenizer;
use crate::utf8;

verus! {

/// Encoded media: where its rows are, and how many.
#[derive(Clone, Copy, PartialEq, Eq, Debug, Structural)]
pub struct Encoded {
    pub ptr: u64,
    pub rows: usize,
}

/// Why media cannot go into a prompt.
#[derive(Clone, Copy, PartialEq, Eq, Debug, Structural)]
pub enum MediaError {
    /// An image without a vision tower.
    NoVision,
    /// A clip without an audio tower.
    NoAudio,
    /// More placeholders than items.
    Placeholders,
    /// More items than placeholders.
    Unused,
    /// The audio markers are not known.
    Markers,
    /// A framed prompt names more items than there are.
    Named { images: usize, clips: usize },
}

/// The towers can encode what was supplied; images come first.
pub fn check_media(images: usize, clips: usize, vision: bool, audio: bool) -> (r: Result<
    (),
    MediaError,
>)
    ensures
        match r {
            Ok(()) => (images == 0 || vision) && (clips == 0 || audio),
            Err(e) => e == (if images > 0 && !vision {
                MediaError::NoVision
            } else {
                MediaError::NoAudio
            }) && ((images > 0 && !vision) || (clips > 0 && !audio)),
        },
{
    if images > 0 && !vision {
        return Err(MediaError::NoVision);
    }
    if clips > 0 && !audio {
        return Err(MediaError::NoAudio);
    }
    Ok(())
}

/// The first literal that is a token, of those known as placeholders.
pub open spec fn placeholder_of(tk: &BpeTokenizer) -> Option<Seq<char>> {
    if tk.token("<image>"@) is Some {
        Some("<image>"@)
    } else if tk.token("<|image_pad|>"@) is Some {
        Some("<|image_pad|>"@)
    } else if tk.token("<|IMAGE|>"@) is Some {
        Some("<|IMAGE|>"@)
    } else if tk.token("<|vision_pad|>"@) is Some {
        Some("<|vision_pad|>"@)
    } else if tk.token("<|AUDIO|>"@) is Some {
        Some("<|AUDIO|>"@)
    } else if tk.token("<|audio_pad|>"@) is Some {
        Some("<|audio_pad|>"@)
    } else if tk.token("<audio>"@) is Some {
        Some("<audio>"@)
    } else {
        None
    }
}

pub fn media_token(tk: &BpeTokenizer) -> (r: Option<&'static str>)
    ensures
        match r {
            Some(s) => placeholder_of(tk) == Some(s@),
            None => placeholder_of(tk) is None,
        },
{
    if tk.special("<image>").is_some() {
        Some("<image>")
    } else if tk.special("<|image_pad|>").is_some() {
        Some("<|image_pad|>")
    } else if tk.special("<|IMAGE|>").is_some() {
        Some("<|IMAGE|>")
    } else if tk.special("<|vision_pad|>").is_some() {
        Some("<|vision_pad|>")
    } else if tk.special("<|AUDIO|>").is_some() {
        Some("<|AUDIO|>")
    } else if tk.special("<|audio_pad|>").is_some() {
        Some("<|audio_pad|>")
    } else if tk.special("<audio>").is_some() {
        Some("<audio>")
    } else {
        None
    }
}

// Placeholders that expand.

/// The prompt with a placeholder line per item before it, unless it holds one.
pub open spec fn with_placeholders(s: Seq<char>, token: Option<Seq<char>>, items: int) -> Seq<
    char,
> {
    if items > 0 && (token is None || !text::has(s, token->0)) {
        chat::placeholders(token, items) + s
    } else {
        s
    }
}

/// A prompt so far: its tokens, the media put in, and how many items.
pub struct Laid {
    pub tokens: Seq<u32>,
    pub media: Seq<MediaRows>,
    pub used: int,
}

/// The first `n` tokens with every placeholder widened to its item's rows.
pub open spec fn laid(tokens: Seq<u32>, n: int, ph: Option<u32>, items: Seq<Encoded>) -> Laid
    decreases n,
{
    if n <= 0 {
        Laid { tokens: Seq::empty(), media: Seq::empty(), used: 0 }
    } else {
        let b = laid(tokens, n - 1, ph, items);
        let t = tokens[n - 1];
        if ph == Some(t) {
            let e = items[b.used];
            Laid {
                tokens: b.tokens + Seq::new(e.rows as nat, |i: int| t),
                media: b.media.push(
                    MediaRows { at: b.tokens.len() as usize, ptr: e.ptr, rows: e.rows },
                ),
                used: b.used + 1,
            }
        } else {
            Laid { tokens: b.tokens.push(t), ..b }
        }
    }
}

/// How many of the first `n` tokens are placeholders.
pub open spec fn placeholder_count(tokens: Seq<u32>, n: int, ph: Option<u32>) -> int
    decreases n,
{
    if n <= 0 {
        0
    } else {
        placeholder_count(tokens, n - 1, ph) + (if ph == Some(tokens[n - 1]) {
            1int
        } else {
            0int
        })
    }
}

proof fn lemma_count_mono(tokens: Seq<u32>, n: int, m: int, ph: Option<u32>)
    requires
        0 <= n <= m,
    ensures
        0 <= placeholder_count(tokens, n, ph) <= placeholder_count(tokens, m, ph),
    decreases m,
{
    if n < m {
        lemma_count_mono(tokens, n, m - 1, ph);
    } else if n > 0 {
        lemma_count_mono(tokens, n - 1, n - 1, ph);
    }
}

proof fn lemma_laid_used(tokens: Seq<u32>, n: int, ph: Option<u32>, items: Seq<Encoded>)
    ensures
        laid(tokens, n, ph, items).used == placeholder_count(tokens, n, ph),
        laid(tokens, n, ph, items).media.len() == laid(tokens, n, ph, items).used,
    decreases n,
{
    if n > 0 {
        lemma_laid_used(tokens, n - 1, ph, items);
    }
}

/// Every item's rows replace placeholders: within the prompt, all of them the
/// placeholder token, in order and without overlap.
pub proof fn law_rows_replace_placeholders(
    tokens: Seq<u32>,
    n: int,
    ph: Option<u32>,
    items: Seq<Encoded>,
    k: int,
)
    requires
        0 <= n <= tokens.len(),
        laid(tokens, n, ph, items).tokens.len() <= usize::MAX,
        0 <= k < laid(tokens, n, ph, items).media.len(),
    ensures
        ({
            let l = laid(tokens, n, ph, items);
            let m = l.media[k];
            &&& m.ptr == items[k].ptr
            &&& m.rows == items[k].rows
            &&& m.at + m.rows <= l.tokens.len()
            &&& forall|i: int| m.at <= i < m.at + m.rows ==> Some(#[trigger] l.tokens[i]) == ph
            &&& k + 1 < l.media.len() ==> m.at + m.rows <= l.media[k + 1].at
        }),
    decreases n,
{
    if n > 0 {
        let b = laid(tokens, n - 1, ph, items);
        lemma_laid_used(tokens, n - 1, ph, items);
        if k < b.media.len() {
            law_rows_replace_placeholders(tokens, n - 1, ph, items, k);
            let l = laid(tokens, n, ph, items);
            assert forall|i: int| b.media[k].at <= i < b.media[k].at + b.media[k].rows implies Some(
                #[trigger] l.tokens[i],
            ) == ph by {
                assert(l.tokens[i] == b.tokens[i]);
            }
        }
    }
}

/// Widen every placeholder to its item's rows.
pub fn splice_media(tokens: &Vec<u32>, ph: Option<u32>, items: &Vec<Encoded>) -> (r: Result<
    PreparedPrompt,
    MediaError,
>)
    ensures
        ({
            let n = placeholder_count(tokens@, tokens@.len() as int, ph);
            match r {
                Ok(p) => {
                    let l = laid(tokens@, tokens@.len() as int, ph, items@);
                    &&& n == items@.len()
                    &&& p.tokens@ == l.tokens
                    &&& p.media_embeds@ == l.media
                    &&& p.block_ids@.len() == 0
                },
                Err(e) => n != items@.len() && e == (if n > items@.len() {
                    MediaError::Placeholders
                } else {
                    MediaError::Unused
                }),
            }
        }),
{
    let mut out: Vec<u32> = Vec::new();
    let mut media: Vec<MediaRows> = Vec::new();
    let mut used: usize = 0;
    let mut k: usize = 0;
    while k < tokens.len()
        invariant
            k <= tokens@.len(),
            used <= items@.len(),
            used == placeholder_count(tokens@, k as int, ph),
            laid(tokens@, k as int, ph, items@) == (Laid {
                tokens: out@,
                media: media@,
                used: used as int,
            }),
        decreases tokens@.len() - k,
    {
        let t: u32 = tokens[k];
        let is_ph: bool = match ph {
            Some(p) => p == t,
            None => false,
        };
        if is_ph {
            if used >= items.len() {
                proof {
                    lemma_count_mono(tokens@, k + 1, tokens@.len() as int, ph);
                }
                return Err(MediaError::Placeholders);
            }
            let e: Encoded = items[used];
            media.push(MediaRows { at: out.len(), ptr: e.ptr, rows: e.rows });
            push_many(&mut out, t, e.rows);
            used = used + 1;
        } else {
            out.push(t);
        }
        k = k + 1;
    }
    if used < items.len() {
        return Err(MediaError::Unused);
    }
    Ok(PreparedPrompt { tokens: out, media_embeds: media, block_ids: Vec::new() })
}

fn push_many(v: &mut Vec<u32>, t: u32, n: usize)
    ensures
        final(v)@ == old(v)@ + Seq::new(n as nat, |i: int| t),
{
    let ghost v0 = v@;
    let mut i: usize = 0;
    while i < n
        invariant
            i <= n,
            v@ =~= v0 + Seq::new(i as nat, |k: int| t),
        decreases n - i,
    {
        v.push(t);
        i = i + 1;
    }
}

/// Tokenize a prompt and put encoded media over its placeholders.
pub fn prepare(tk: &BpeTokenizer, prompt: &str, token: Option<&str>, items: &Vec<Encoded>) -> (r:
    Result<PreparedPrompt, MediaError>)
    requires
        tk.wf(),
    ensures
        ({
            let s = with_placeholders(prompt@, chat::chars_of(token), items@.len() as int);
            let tokens = encode::encoded(tk, s, true);
            let ph = match token {
                Some(t) => tk.token(t@),
                None => None,
            };
            let n = placeholder_count(tokens, tokens.len() as int, ph);
            match r {
                Ok(p) => {
                    let l = laid(tokens, tokens.len() as int, ph, items@);
                    &&& n == items@.len()
                    &&& p.tokens@ == l.tokens
                    &&& p.media_embeds@ == l.media
                    &&& p.block_ids@.len() == 0
                },
                Err(e) => n != items@.len() && e == (if n > items@.len() {
                    MediaError::Placeholders
                } else {
                    MediaError::Unused
                }),
            }
        }),
{
    let lacks: bool = match token {
        Some(t) => !text::contains(prompt, t),
        None => true,
    };
    let mut s: String = String::new();
    if items.len() > 0 && lacks {
        chat::push_media(&mut s, items.len(), token);
        assert(s@ =~= chat::placeholders(chat::chars_of(token), items@.len() as int));
    }
    text::push_str(&mut s, prompt);
    assert(s@ =~= with_placeholders(prompt@, chat::chars_of(token), items@.len() as int));
    let tokens: Vec<u32> = tk.encode(s.as_str(), true);
    let ph: Option<u32> = match token {
        Some(t) => tk.special(t),
        None => None,
    };
    splice_media(&tokens, ph, items)
}

// The chained chat.

/// The prompt that extends the session: its tokens, then those of what is new.
pub open spec fn chained(
    tk: &BpeTokenizer,
    ids: Seq<u32>,
    told: Seq<char>,
    rendered: Seq<char>,
) -> Seq<u32> {
    ids + encode::encoded(tk, rendered.skip(told.len() as int), false)
}

/// The rendered chat extends the session.
pub open spec fn extends(ids: Seq<u32>, told: Seq<char>, rendered: Seq<char>) -> bool {
    ids.len() > 0 && told.len() > 0 && text::starts(rendered, told)
}

/// The tokens of a rendered chat that extends the session, if it does.
pub fn prepare_chat(
    tk: &BpeTokenizer,
    session_ids: &Vec<u32>,
    session_text: &str,
    rendered: &str,
    off: bool,
) -> (r: Option<Vec<u32>>)
    requires
        tk.wf(),
    ensures
        match r {
            Some(t) => !off && extends(session_ids@, session_text@, rendered@) && t@ == chained(
                tk,
                session_ids@,
                session_text@,
                rendered@,
            ),
            None => off || !extends(session_ids@, session_text@, rendered@),
        },
{
    if off || session_ids.len() == 0 || session_text.is_empty() || !text::starts_with(
        rendered,
        session_text,
    ) {
        return None;
    }
    let all: Vec<char> = text::to_chars(rendered);
    let n: usize = text::to_chars(session_text).len();
    let suffix: String = text::to_string_range(&all, n, all.len());
    assert(suffix@ =~= rendered@.skip(n as int));
    let mut t: Vec<u32> = session_ids.clone();
    let ids: Vec<u32> = tk.encode(suffix.as_str(), false);
    push_all(&mut t, &ids);
    Some(t)
}

/// The first place from `i` on where two rows of tokens differ, as far as both
/// go.
pub open spec fn differs_from(a: Seq<u32>, b: Seq<u32>, i: int) -> Option<usize>
    decreases a.len() - i,
{
    if i >= a.len() || i >= b.len() {
        None
    } else if a[i] != b[i] {
        Some(i as usize)
    } else {
        differs_from(a, b, i + 1)
    }
}

/// How chained tokens compare with those of the whole chat.
#[derive(Clone, Copy, PartialEq, Eq, Debug)]
pub struct ChainCheck {
    pub divergence: Option<usize>,
    /// There are more or fewer tokens: the whole chat's are used.
    pub drift: bool,
}

/// Hold chained tokens against those of the whole chat. They may differ within
/// earlier replies, where the session keeps its own tokens, but not in number.
pub fn check_chain(chained: &Vec<u32>, canonical: &Vec<u32>) -> (r: ChainCheck)
    ensures
        r.divergence == differs_from(chained@, canonical@, 0),
        r.drift == (chained@.len() != canonical@.len()),
{
    let drift: bool = chained.len() != canonical.len();
    let mut i: usize = 0;
    while i < chained.len() && i < canonical.len()
        invariant
            i <= chained@.len(),
            i <= canonical@.len(),
            drift == (chained@.len() != canonical@.len()),
            differs_from(chained@, canonical@, 0) == differs_from(
                chained@,
                canonical@,
                i as int,
            ),
        decreases chained@.len() - i,
    {
        if chained[i] != canonical[i] {
            return ChainCheck { divergence: Some(i), drift };
        }
        i = i + 1;
    }
    ChainCheck { divergence: None, drift }
}

/// Where the session's tokens spell its text, the chained tokens spell the
/// whole chat.
pub proof fn law_chained_chats_are_whole(
    tk: &BpeTokenizer,
    ids: Seq<u32>,
    told: Seq<char>,
    rendered: Seq<char>,
)
    requires
        roundtrip::spells_bytes(tk),
        extends(ids, told, rendered),
        tk.spelling(ids) == encode_utf8(told),
    ensures
        tk.spelling(chained(tk, ids, told, rendered)) == encode_utf8(rendered),
{
    let rest = rendered.skip(told.len() as int);
    roundtrip::law_byte_level_texts_come_back(tk, rest);
    roundtrip::lemma_spelling_concat(tk, ids, encode::encoded(tk, rest, false));
    utf8::lemma_encode_concat(told, rest);
    assert(told + rest =~= rendered);
}

} // verus!
