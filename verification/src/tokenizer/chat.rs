//! Chats as prompts.
use vstd::prelude::*;

use crate::json;
use crate::json::{Json, Value};
use crate::text;
use crate::tokenizer::BpeTokenizer;

verus! {

/// One turn of a chat.
pub struct ChatTurn {
    pub role: String,
    pub content: String,
    /// Attached images.
    pub n_images: usize,
    /// Attached audio clips.
    pub n_audio: usize,
}

/// `s`, `n` times over.
pub open spec fn repeated(s: Seq<char>, n: int) -> Seq<char>
    decreases n,
{
    if n <= 0 {
        Seq::empty()
    } else {
        repeated(s, n - 1) + s
    }
}

fn push_repeated(out: &mut String, s: &str, n: usize)
    ensures
        final(out)@ == old(out)@ + repeated(s@, n as int),
{
    let ghost out0 = out@;
    let mut i: usize = 0;
    while i < n
        invariant
            i <= n,
            out@ =~= out0 + repeated(s@, i as int),
        decreases n - i,
    {
        text::push_str(out, s);
        i = i + 1;
    }
}

/// Placeholders for `n` media items, a line each.
pub open spec fn placeholders(token: Option<Seq<char>>, n: int) -> Seq<char> {
    match token {
        Some(t) => repeated(t + seq!['\n'], n),
        None => Seq::empty(),
    }
}

pub open spec fn chars_of(s: Option<&str>) -> Option<Seq<char>> {
    match s {
        Some(t) => Some(t@),
        None => None,
    }
}

/// Append placeholders for `n` media items.
pub fn push_media(out: &mut String, n: usize, token: Option<&str>)
    ensures
        final(out)@ == old(out)@ + placeholders(chars_of(token), n as int),
{
    match token {
        Some(t) => {
            let line: String = text::join(t, "\n");
            proof {
                reveal_strlit("\n");
                assert(line@ =~= t@ + seq!['\n']);
            }
            push_repeated(out, line.as_str(), n);
        },
        None => {
            assert(out@ =~= out@ + Seq::<char>::empty());
        },
    }
}

proof fn lemma_repeated_add(s: Seq<char>, a: int, b: int)
    requires
        0 <= a,
        0 <= b,
    ensures
        repeated(s, a) + repeated(s, b) == repeated(s, a + b),
    decreases b,
{
    if b == 0 {
        assert(repeated(s, a) + repeated(s, 0) =~= repeated(s, a));
    } else {
        lemma_repeated_add(s, a, b - 1);
        assert(repeated(s, a) + (repeated(s, b - 1) + s) =~= repeated(s, a) + repeated(s, b - 1)
            + s);
    }
}

// The template.

/// The first entry from `i` on that is named default.
pub open spec fn default_at(a: Seq<Value>, i: int) -> Option<int>
    decreases a.len() - i,
{
    if i < 0 || i >= a.len() {
        None
    } else if a[i].str_of("name"@) == Some("default"@) {
        Some(i)
    } else {
        default_at(a, i + 1)
    }
}

/// The template of a list: the one named default, else the first.
pub open spec fn listed_template(a: Seq<Value>) -> Option<Seq<char>> {
    match default_at(a, 0) {
        Some(i) => a[i].str_of("template"@),
        None => if a.len() > 0 {
            a[0].str_of("template"@)
        } else {
            None
        },
    }
}

/// The template that the tokenizer's configuration holds.
pub open spec fn cfg_template(raw: Seq<char>) -> Seq<char> {
    let t = match json::document(raw) {
        Some(j) => match j.get("chat_template"@) {
            Some(Value::Str(s)) => Some(s),
            Some(Value::Arr(a)) => listed_template(a),
            _ => None,
        },
        None => None,
    };
    match t {
        Some(s) => s,
        None => Seq::empty(),
    }
}

/// The template: the container's, else the configuration's, else the file's.
pub open spec fn template_of(
    raw: Seq<char>,
    file: Seq<char>,
    container: Option<Seq<char>>,
) -> Seq<char> {
    match container {
        Some(s) => s,
        None => if cfg_template(raw).len() > 0 {
            cfg_template(raw)
        } else {
            file
        },
    }
}

fn is_default(j: &Json) -> (r: bool)
    ensures
        r == (j@.str_of("name"@) == Some("default"@)),
{
    match j.str_of("name") {
        Some(n) => text::same(n, "default"),
        None => false,
    }
}

fn find_template(raw: &str, file: &str, container: Option<&str>) -> (r: String)
    ensures
        r@ == template_of(raw@, file@, chars_of(container)),
{
    match container {
        Some(s) => {
            return s.to_owned();
        },
        None => {},
    }
    let mut src: String = String::new();
    match json::parse(raw) {
        Ok(j) => match j.get("chat_template") {
            Some(ct) => match ct {
                Json::Str(s) => {
                    src = s.clone();
                },
                Json::Arr(a) => {
                    proof {
                        json::lemma_view_arr(*a);
                    }
                    let ghost vs = json::views(a@);
                    let mut i: usize = 0;
                    while i < a.len() && !is_default(&a[i])
                        invariant
                            i <= a@.len(),
                            vs == json::views(a@),
                            default_at(vs, 0) == default_at(vs, i as int),
                        decreases a@.len() - i,
                    {
                        assert(vs[i as int] == a@[i as int]@);
                        i = i + 1;
                    }
                    if a.len() > 0 {
                        let k: usize = if i < a.len() {
                            i
                        } else {
                            0
                        };
                        assert(vs[k as int] == a@[k as int]@);
                        match a[k].str_of("template") {
                            Some(s) => {
                                src = s.to_owned();
                            },
                            None => {},
                        }
                    }
                },
                _ => {},
            },
            None => {},
        },
        Err(_) => {},
    }
    assert(src@ =~= cfg_template(raw@));
    if src.as_str().is_empty() {
        file.to_owned()
    } else {
        src
    }
}

// The dialect.

/// How turns are marked.
#[derive(Clone, Copy, PartialEq, Eq, Debug, Structural)]
pub enum Dialect {
    /// `<start_of_turn>`.
    Classic,
    /// `<|turn>`.
    Turn,
    /// `<|start_header_id|>`.
    Header,
    /// `<|im_start|>`.
    ChatMl,
}

/// The marker is a token, or the template or the configuration speaks of it.
pub open spec fn speaks(
    tk: &BpeTokenizer,
    template: Seq<char>,
    raw: Seq<char>,
    marker: Seq<char>,
) -> bool {
    tk.token(marker) is Some || text::has(template, marker) || text::has(raw, marker)
}

/// The dialect of a chat. Where a Gemma template names markers that are
/// tokens, those; else the markers that are tokens; else the classic ones.
pub open spec fn dialect_of(
    tk: &BpeTokenizer,
    gemma_family: bool,
    forced: Option<Dialect>,
    template: Seq<char>,
    raw: Seq<char>,
) -> Dialect {
    let classic = "<start_of_turn>"@;
    let turn = "<|turn>"@;
    if gemma_family || speaks(tk, template, raw, classic) {
        if forced == Some(Dialect::Classic) {
            Dialect::Classic
        } else if forced == Some(Dialect::Turn) {
            Dialect::Turn
        } else if text::has(template, classic) && tk.token(classic) is Some {
            Dialect::Classic
        } else if text::has(template, turn) && tk.token(turn) is Some {
            Dialect::Turn
        } else if tk.token(classic) is Some {
            Dialect::Classic
        } else if tk.token(turn) is Some {
            Dialect::Turn
        } else {
            Dialect::Classic
        }
    } else if speaks(tk, template, raw, "<|start_header_id|>"@) {
        Dialect::Header
    } else {
        Dialect::ChatMl
    }
}

fn is_spoken(tk: &BpeTokenizer, template: &str, raw: &str, marker: &str) -> (r: bool)
    ensures
        r == speaks(tk, template@, raw@, marker@),
{
    tk.special(marker).is_some() || text::contains(template, marker) || text::contains(raw, marker)
}

fn pick_dialect(
    tk: &BpeTokenizer,
    gemma_family: bool,
    forced: Option<Dialect>,
    template: &str,
    raw: &str,
) -> (r: Dialect)
    ensures
        r == dialect_of(tk, gemma_family, forced, template@, raw@),
{
    let classic: &str = "<start_of_turn>";
    let turn: &str = "<|turn>";
    if gemma_family || is_spoken(tk, template, raw, classic) {
        match forced {
            Some(Dialect::Classic) => {
                return Dialect::Classic;
            },
            Some(Dialect::Turn) => {
                return Dialect::Turn;
            },
            _ => {},
        }
        let has_classic: bool = tk.special(classic).is_some();
        let has_turn: bool = tk.special(turn).is_some();
        if text::contains(template, classic) && has_classic {
            Dialect::Classic
        } else if text::contains(template, turn) && has_turn {
            Dialect::Turn
        } else if has_classic {
            Dialect::Classic
        } else if has_turn {
            Dialect::Turn
        } else {
            Dialect::Classic
        }
    } else if is_spoken(tk, template, raw, "<|start_header_id|>") {
        Dialect::Header
    } else {
        Dialect::ChatMl
    }
}

// Gemma.

/// A chat so far: its text, and what the system said since the last user
/// turn.
pub struct Told {
    pub out: Seq<char>,
    pub sys: Seq<char>,
}

/// A turn between its markers.
pub open spec fn marked_turn(t: ChatTurn, sys: Seq<char>, open: Seq<char>, close: Seq<char>) -> Seq<
    char,
> {
    let assistant = t.role@ == "assistant"@;
    open + (if assistant {
        "model"@
    } else {
        "user"@
    }) + "\n"@ + (if !assistant && sys.len() > 0 {
        sys + "\n\n"@
    } else {
        Seq::empty()
    }) + repeated("<image>"@, t.n_images as int) + repeated("<audio>"@, t.n_audio as int)
        + t.content@ + close + "\n"@
}

/// The first `n` turns after `start`. What the system says goes before the
/// next user turn.
pub open spec fn told(
    start: Seq<char>,
    turns: Seq<ChatTurn>,
    n: int,
    open: Seq<char>,
    close: Seq<char>,
) -> Told
    decreases n,
{
    if n <= 0 {
        Told { out: start, sys: Seq::empty() }
    } else {
        let b = told(start, turns, n - 1, open, close);
        let t = turns[n - 1];
        if t.role@ == "system"@ {
            Told {
                sys: (if b.sys.len() > 0 {
                    b.sys + "\n"@
                } else {
                    b.sys
                }) + t.content@,
                ..b
            }
        } else {
            Told {
                out: b.out + marked_turn(t, b.sys, open, close),
                sys: if t.role@ == "assistant"@ {
                    b.sys
                } else {
                    Seq::empty()
                },
            }
        }
    }
}

/// A Gemma chat: the start literal where the tokenizer does not add it, the
/// turns, and the opening of the model's.
pub open spec fn gemma_chat(
    tk: &BpeTokenizer,
    turns: Seq<ChatTurn>,
    open: Seq<char>,
    close: Seq<char>,
) -> Seq<char> {
    let start = if !tk.add_bos && tk.bos_literal is Some {
        tk.bos_literal->0@
    } else {
        Seq::empty()
    };
    told(start, turns, turns.len() as int, open, close).out + open + "model\n"@
}

/// What closes a turn of a Gemma dialect.
pub open spec fn closer(d: Dialect) -> Option<Seq<char>> {
    match d {
        Dialect::Classic => Some("<end_of_turn>"@),
        Dialect::Turn => Some("<turn|>"@),
        _ => None,
    }
}

/// The closers that are tokens.
pub open spec fn closers(tk: &BpeTokenizer) -> Seq<u32> {
    (match tk.token("<end_of_turn>"@) {
        Some(id) => seq![id],
        None => Seq::empty(),
    }) + (match tk.token("<turn|>"@) {
        Some(id) => seq![id],
        None => Seq::empty(),
    })
}

/// The tokens that close a turn, of either dialect.
pub fn turn_stops(tk: &BpeTokenizer) -> (r: Vec<u32>)
    ensures
        r@ == closers(tk),
{
    let mut r: Vec<u32> = Vec::new();
    if let Some(id) = tk.special("<end_of_turn>") {
        r.push(id);
    }
    if let Some(id) = tk.special("<turn|>") {
        r.push(id);
    }
    assert(r@ =~= closers(tk));
    r
}

/// Whichever dialect a chat is rendered in, its closing token is among those
/// that end a turn.
pub proof fn law_every_dialect_ends_its_turns(tk: &BpeTokenizer, d: Dialect)
    requires
        closer(d) is Some,
        tk.token(closer(d)->0) is Some,
    ensures
        closers(tk).contains(tk.token(closer(d)->0)->0),
{
    let c = closers(tk);
    if d == Dialect::Classic {
        assert(c[0] == tk.token("<end_of_turn>"@)->0);
    } else {
        assert(c.last() == tk.token("<turn|>"@)->0);
        assert(c[c.len() - 1] == c.last());
    }
}

// The other families.

pub open spec fn header_turns(turns: Seq<ChatTurn>, n: int, media: Option<Seq<char>>) -> Seq<char>
    decreases n,
{
    if n <= 0 {
        "<|begin_of_text|>"@
    } else {
        let t = turns[n - 1];
        header_turns(turns, n - 1, media) + "<|start_header_id|>"@ + t.role@
            + "<|end_header_id|>\n\n"@ + placeholders(media, t.n_images + t.n_audio) + t.content@
            + "<|eot_id|>"@
    }
}

pub open spec fn chatml_turns(turns: Seq<ChatTurn>, n: int, media: Option<Seq<char>>) -> Seq<char>
    decreases n,
{
    if n <= 0 {
        Seq::empty()
    } else {
        let t = turns[n - 1];
        chatml_turns(turns, n - 1, media) + "<|im_start|>"@ + t.role@ + "\n"@ + placeholders(
            media,
            t.n_images + t.n_audio,
        ) + t.content@ + "<|im_end|>\n"@
    }
}

/// A chat in a dialect, open for the answer.
pub open spec fn rendered(
    tk: &BpeTokenizer,
    d: Dialect,
    turns: Seq<ChatTurn>,
    media: Option<Seq<char>>,
) -> Seq<char> {
    match d {
        Dialect::Classic => gemma_chat(tk, turns, "<start_of_turn>"@, "<end_of_turn>"@),
        Dialect::Turn => gemma_chat(tk, turns, "<|turn>"@, "<turn|>"@),
        Dialect::Header => header_turns(turns, turns.len() as int, media)
            + "<|start_header_id|>assistant<|end_header_id|>\n\n"@,
        Dialect::ChatMl => chatml_turns(turns, turns.len() as int, media)
            + "<|im_start|>assistant\n"@,
    }
}

fn turn_text(t: &ChatTurn, sys: &str, open: &str, close: &str) -> (r: String)
    ensures
        r@ == marked_turn(*t, sys@, open@, close@),
{
    let assistant: bool = text::same(t.role.as_str(), "assistant");
    let mut s: String = text::join(open, if assistant {
        "model"
    } else {
        "user"
    });
    text::push_str(&mut s, "\n");
    if !assistant && !sys.is_empty() {
        let lead: String = text::join(sys, "\n\n");
        text::push_str(&mut s, lead.as_str());
    } else {
        assert(s@ =~= s@ + Seq::<char>::empty());
    }
    push_repeated(&mut s, "<image>", t.n_images);
    push_repeated(&mut s, "<audio>", t.n_audio);
    text::push_str(&mut s, t.content.as_str());
    text::push_str(&mut s, close);
    text::push_str(&mut s, "\n");
    s
}

fn render_gemma(tk: &BpeTokenizer, turns: &Vec<ChatTurn>, open: &str, close: &str) -> (r: String)
    ensures
        r@ == gemma_chat(tk, turns@, open@, close@),
{
    let mut out: String = String::new();
    if !tk.adds_bos() {
        match tk.bos_literal() {
            Some(b) => {
                out = b.to_owned();
            },
            None => {},
        }
    }
    let ghost start = out@;
    let mut sys: String = String::new();
    let mut k: usize = 0;
    while k < turns.len()
        invariant
            k <= turns@.len(),
            out@ == told(start, turns@, k as int, open@, close@).out,
            sys@ =~= told(start, turns@, k as int, open@, close@).sys,
        decreases turns@.len() - k,
    {
        let t: &ChatTurn = &turns[k];
        if text::same(t.role.as_str(), "system") {
            if !sys.as_str().is_empty() {
                text::push_str(&mut sys, "\n");
            }
            text::push_str(&mut sys, t.content.as_str());
        } else {
            let s: String = turn_text(t, sys.as_str(), open, close);
            text::push_str(&mut out, s.as_str());
            if !text::same(t.role.as_str(), "assistant") {
                sys = String::new();
            }
        }
        k = k + 1;
    }
    text::push_str(&mut out, open);
    text::push_str(&mut out, "model\n");
    out
}

fn push_both(out: &mut String, t: &ChatTurn, media: Option<&str>)
    ensures
        final(out)@ == old(out)@ + placeholders(chars_of(media), t.n_images + t.n_audio),
{
    let ghost out0 = out@;
    push_media(out, t.n_images, media);
    push_media(out, t.n_audio, media);
    proof {
        match chars_of(media) {
            Some(m) => {
                let line = m + seq!['\n'];
                lemma_repeated_add(line, t.n_images as int, t.n_audio as int);
                assert(out@ =~= out0 + (repeated(line, t.n_images as int) + repeated(
                    line,
                    t.n_audio as int,
                )));
            },
            None => {
                assert(out@ =~= out0 + Seq::<char>::empty());
            },
        }
    }
}

/// A chat as a prompt. `raw_cfg` and `template_file` are the texts of
/// `tokenizer_config.json` and `chat_template.jinja`, empty where there are
/// none; `template` is the container's own.
pub fn render_chat(
    raw_cfg: &str,
    template_file: &str,
    tk: &BpeTokenizer,
    gemma_family: bool,
    forced: Option<Dialect>,
    turns: &Vec<ChatTurn>,
    media_token: Option<&str>,
    template: Option<&str>,
) -> (r: String)
    ensures
        r@ == rendered(
            tk,
            dialect_of(
                tk,
                gemma_family,
                forced,
                template_of(raw_cfg@, template_file@, chars_of(template)),
                raw_cfg@,
            ),
            turns@,
            chars_of(media_token),
        ),
{
    let src: String = find_template(raw_cfg, template_file, template);
    match pick_dialect(tk, gemma_family, forced, src.as_str(), raw_cfg) {
        Dialect::Classic => render_gemma(tk, turns, "<start_of_turn>", "<end_of_turn>"),
        Dialect::Turn => render_gemma(tk, turns, "<|turn>", "<turn|>"),
        Dialect::Header => {
            let mut out: String = "<|begin_of_text|>".to_owned();
            let mut k: usize = 0;
            while k < turns.len()
                invariant
                    k <= turns@.len(),
                    out@ == header_turns(turns@, k as int, chars_of(media_token)),
                decreases turns@.len() - k,
            {
                let t: &ChatTurn = &turns[k];
                text::push_str(&mut out, "<|start_header_id|>");
                text::push_str(&mut out, t.role.as_str());
                text::push_str(&mut out, "<|end_header_id|>\n\n");
                push_both(&mut out, t, media_token);
                text::push_str(&mut out, t.content.as_str());
                text::push_str(&mut out, "<|eot_id|>");
                k = k + 1;
            }
            text::push_str(&mut out, "<|start_header_id|>assistant<|end_header_id|>\n\n");
            out
        },
        Dialect::ChatMl => {
            let mut out: String = String::new();
            let mut k: usize = 0;
            while k < turns.len()
                invariant
                    k <= turns@.len(),
                    out@ == chatml_turns(turns@, k as int, chars_of(media_token)),
                decreases turns@.len() - k,
            {
                let t: &ChatTurn = &turns[k];
                text::push_str(&mut out, "<|im_start|>");
                text::push_str(&mut out, t.role.as_str());
                text::push_str(&mut out, "\n");
                push_both(&mut out, t, media_token);
                text::push_str(&mut out, t.content.as_str());
                text::push_str(&mut out, "<|im_end|>\n");
                k = k + 1;
            }
            text::push_str(&mut out, "<|im_start|>assistant\n");
            out
        },
    }
}

} // verus!
