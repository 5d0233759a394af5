//! Prompts with framed media: every item between its start and end markers.
use vstd::prelude::*;

use crate::models::prepare::{check_media, Encoded, MediaError};
use crate::models::prompt::{MediaRows, PreparedPrompt};
use crate::text;
use crate::tokenizer::encode;
use crate::tokenizer::split::part;
use crate::tokenizer::BpeTokenizer;

verus! {

/// Characters of a placeholder.
pub const MARK_CHARS: usize = 7;

/// A kind of media.
#[derive(Clone, Copy, PartialEq, Eq, Debug, Structural)]
pub enum Mark {
    Image,
    Audio,
}

/// Tokens that frame and fill media.
#[derive(Clone, Copy, PartialEq, Eq, Debug, Structural)]
pub struct Markers {
    pub image: u32,
    pub image_start: u32,
    pub image_end: u32,
    pub audio: u32,
    pub audio_start: u32,
    pub audio_end: u32,
    /// Image spans attend both ways within themselves.
    pub bidirectional: bool,
}

/// A stretch of text and the placeholder after it.
pub struct Span {
    pub text: Seq<char>,
    pub mark: Option<Mark>,
}

/// The first placeholder: where, and of what.
pub open spec fn first_mark(s: Seq<char>) -> Option<(int, Mark)> {
    match (text::find(s, "<image>"@, 0), text::find(s, "<audio>"@, 0)) {
        (Some(i), Some(a)) => if i < a {
            Some((i, Mark::Image))
        } else {
            Some((a, Mark::Audio))
        },
        (Some(i), None) => Some((i, Mark::Image)),
        (None, Some(a)) => Some((a, Mark::Audio)),
        (None, None) => None,
    }
}

/// A prompt cut at its placeholders. The last stretch has none.
pub open spec fn spans(s: Seq<char>) -> Seq<Span>
    decreases s.len(),
{
    match first_mark(s) {
        Some((p, m)) => if 0 <= p && p + MARK_CHARS <= s.len() {
            seq![Span { text: s.take(p), mark: Some(m) }] + spans(s.skip(p + MARK_CHARS))
        } else {
            seq![Span { text: s, mark: None }]
        },
        None => seq![Span { text: s, mark: None }],
    }
}

pub open spec fn mark_text(m: Option<Mark>) -> Seq<char> {
    match m {
        Some(Mark::Image) => "<image>"@,
        Some(Mark::Audio) => "<audio>"@,
        None => Seq::empty(),
    }
}

/// The stretches with their placeholders, from `i` on.
pub open spec fn spans_text(v: Seq<Span>) -> Seq<char>
    decreases v.len(),
{
    if v.len() == 0 {
        Seq::empty()
    } else {
        v[0].text + mark_text(v[0].mark) + spans_text(v.skip(1))
    }
}

proof fn lemma_first_mark(s: Seq<char>)
    ensures
        first_mark(s) matches Some((p, m)) ==> 0 <= p && p + MARK_CHARS <= s.len() && text::at(
            s,
            p,
            mark_text(Some(m)),
        ),
        "<image>"@.len() == MARK_CHARS,
        "<audio>"@.len() == MARK_CHARS,
{
    reveal_strlit("<image>");
    reveal_strlit("<audio>");
    text::lemma_find(s, "<image>"@, 0);
    text::lemma_find(s, "<audio>"@, 0);
}

/// Cutting a prompt at its placeholders keeps it, placeholders and all.
pub proof fn law_spans_keep_the_prompt(s: Seq<char>)
    ensures
        spans_text(spans(s)) == s,
    decreases s.len(),
{
    lemma_first_mark(s);
    match first_mark(s) {
        Some((p, m)) => {
            let rest = s.skip(p + MARK_CHARS);
            law_spans_keep_the_prompt(rest);
            let v = spans(s);
            assert(v.skip(1) =~= spans(rest));
            let mt = mark_text(Some(m));
            assert(s.subrange(p, p + mt.len()) == mt);
            assert(s.take(p) + mt + rest =~= s);
        },
        None => {
            let v = spans(s);
            assert(v.skip(1) =~= Seq::<Span>::empty());
            assert(spans_text(v.skip(1)) =~= Seq::<char>::empty());
            assert(s + mark_text(None) + Seq::<char>::empty() =~= s);
        },
    }
}

/// How many of the first `n` stretches end in a placeholder of kind `m`.
pub open spec fn marks(v: Seq<Span>, n: int, m: Mark) -> int
    decreases n,
{
    if n <= 0 {
        0
    } else {
        marks(v, n - 1, m) + (if v[n - 1].mark == Some(m) {
            1int
        } else {
            0int
        })
    }
}

/// A prompt so far.
pub struct Frame {
    pub tokens: Seq<u32>,
    pub blocks: Seq<i32>,
    pub media: Seq<MediaRows>,
    pub images: int,
    pub clips: int,
    /// No start token has been due yet.
    pub first: bool,
}

/// With the tokens of a text. The first text brings the start token.
pub open spec fn with_text(tk: &BpeTokenizer, f: Frame, s: Seq<char>) -> Frame {
    let ids = if s.len() == 0 && !f.first {
        Seq::empty()
    } else {
        encode::encoded(tk, s, f.first)
    };
    Frame {
        tokens: f.tokens + ids,
        blocks: f.blocks + Seq::new(ids.len(), |i: int| -1i32),
        first: false,
        ..f
    }
}

/// With an item between its markers.
pub open spec fn framed(
    f: Frame,
    e: Encoded,
    start: u32,
    fill: u32,
    end: u32,
    block: i32,
) -> Frame {
    Frame {
        tokens: f.tokens.push(start) + Seq::new(e.rows as nat, |i: int| fill) + seq![end],
        blocks: f.blocks.push(-1i32) + Seq::new(e.rows as nat, |i: int| block) + seq![-1i32],
        media: f.media.push(
            MediaRows { at: (f.tokens.len() + 1) as usize, ptr: e.ptr, rows: e.rows },
        ),
        ..f
    }
}

/// With the next image. Where spans attend both ways, each is a block.
pub open spec fn with_image(f: Frame, images: Seq<Encoded>, k: Markers) -> Frame {
    let g = framed(
        f,
        images[f.images],
        k.image_start,
        k.image,
        k.image_end,
        if k.bidirectional {
            f.images as i32
        } else {
            -1i32
        },
    );
    Frame { images: f.images + 1, ..g }
}

/// With the next clip.
pub open spec fn with_clip(f: Frame, clips: Seq<Encoded>, k: Markers) -> Frame {
    let g = framed(f, clips[f.clips], k.audio_start, k.audio, k.audio_end, -1i32);
    Frame { clips: f.clips + 1, ..g }
}

/// With the start token, if it is still due.
pub open spec fn started(tk: &BpeTokenizer, f: Frame) -> Frame {
    if f.first {
        with_text(tk, f, Seq::empty())
    } else {
        f
    }
}

/// With the next `n` images.
pub open spec fn with_images(
    tk: &BpeTokenizer,
    f: Frame,
    images: Seq<Encoded>,
    k: Markers,
    n: int,
) -> Frame
    decreases n,
{
    if n <= 0 {
        f
    } else {
        with_image(started(tk, with_images(tk, f, images, k, n - 1)), images, k)
    }
}

/// With the next `n` clips.
pub open spec fn with_clips(
    tk: &BpeTokenizer,
    f: Frame,
    clips: Seq<Encoded>,
    k: Markers,
    n: int,
) -> Frame
    decreases n,
{
    if n <= 0 {
        f
    } else {
        with_clip(started(tk, with_clips(tk, f, clips, k, n - 1)), clips, k)
    }
}

/// With the first `n` stretches and the items at their placeholders.
pub open spec fn with_spans(
    tk: &BpeTokenizer,
    f: Frame,
    v: Seq<Span>,
    n: int,
    images: Seq<Encoded>,
    clips: Seq<Encoded>,
    k: Markers,
) -> Frame
    decreases n,
{
    if n <= 0 {
        f
    } else {
        let b = with_text(tk, with_spans(tk, f, v, n - 1, images, clips, k), v[n - 1].text);
        match v[n - 1].mark {
            Some(Mark::Image) => with_image(b, images, k),
            Some(Mark::Audio) => with_clip(b, clips, k),
            None => b,
        }
    }
}

/// The whole prompt: items without a placeholder first, then the text with
/// the others in place.
pub open spec fn assembled(
    tk: &BpeTokenizer,
    s: Seq<char>,
    images: Seq<Encoded>,
    clips: Seq<Encoded>,
    k: Markers,
) -> Frame {
    let v = spans(s);
    let n = v.len() as int;
    let f0 = Frame {
        tokens: Seq::empty(),
        blocks: Seq::empty(),
        media: Seq::empty(),
        images: 0,
        clips: 0,
        first: true,
    };
    let f1 = with_images(tk, f0, images, k, images.len() - marks(v, n, Mark::Image));
    let f2 = with_clips(tk, f1, clips, k, clips.len() - marks(v, n, Mark::Audio));
    with_spans(tk, f2, v, n, images, clips, k)
}

/// Held stretches.
struct HeldSpan {
    text: Vec<char>,
    mark: Option<Mark>,
}

spec fn held(v: Seq<HeldSpan>) -> Seq<Span> {
    Seq::new(v.len(), |i: int| Span { text: v[i].text@, mark: v[i].mark })
}

fn cut_spans(s: &Vec<char>) -> (r: Vec<HeldSpan>)
    ensures
        held(r@) == spans(s@),
{
    let n: usize = s.len();
    let img: Vec<char> = text::to_chars("<image>");
    let aud: Vec<char> = text::to_chars("<audio>");
    let mut r: Vec<HeldSpan> = Vec::new();
    let mut from: usize = 0;
    let ghost want = spans(s@);
    assert(s@.skip(0) =~= s@);
    assert(held(r@) + spans(s@.skip(0)) =~= want);
    loop
        invariant
            from <= n,
            n == s@.len(),
            img@ == "<image>"@,
            aud@ == "<audio>"@,
            held(r@) + spans(s@.skip(from as int)) == want,
            want == spans(s@),
        decreases n - from,
    {
        let rest: Vec<char> = part(s, from, n);
        assert(rest@ =~= s@.skip(from as int));
        proof {
            lemma_first_mark(rest@);
        }
        let i: Option<usize> = text::find_from(&rest, &img, 0);
        let a: Option<usize> = text::find_from(&rest, &aud, 0);
        let hit: Option<(usize, Mark)> = match i {
            Some(i) => match a {
                Some(a) => if i < a {
                    Some((i, Mark::Image))
                } else {
                    Some((a, Mark::Audio))
                },
                None => Some((i, Mark::Image)),
            },
            None => match a {
                Some(a) => Some((a, Mark::Audio)),
                None => None,
            },
        };
        let ghost before = held(r@);
        match hit {
            Some((p, m)) => {
                let head: Vec<char> = part(&rest, 0, p);
                assert(head@ =~= rest@.take(p as int));
                r.push(HeldSpan { text: head, mark: Some(m) });
                proof {
                    let one = seq![Span { text: rest@.take(p as int), mark: Some(m) }];
                    let tail = spans(rest@.skip(p + MARK_CHARS));
                    assert(held(r@) =~= before + one);
                    assert(rest@.skip(p + MARK_CHARS) =~= s@.skip(from + p + MARK_CHARS));
                    assert(before + (one + tail) =~= before + one + tail);
                }
                from = from + p + MARK_CHARS;
            },
            None => {
                let ghost t = rest@;
                r.push(HeldSpan { text: rest, mark: None });
                assert(held(r@) =~= before + seq![Span { text: t, mark: None }]);
                return r;
            },
        }
    }
}

fn count_marks(v: &Vec<HeldSpan>, m: Mark) -> (r: usize)
    ensures
        r == marks(held(v@), v@.len() as int, m),
{
    let mut r: usize = 0;
    let mut i: usize = 0;
    while i < v.len()
        invariant
            i <= v@.len(),
            r <= i,
            r == marks(held(v@), i as int, m),
        decreases v@.len() - i,
    {
        assert(held(v@)[i as int].mark == v@[i as int].mark);
        match v[i].mark {
            Some(k) => {
                if k == m {
                    r = r + 1;
                }
            },
            None => {},
        }
        i = i + 1;
    }
    r
}

/// A prompt in the making.
struct Draft {
    tokens: Vec<u32>,
    blocks: Vec<i32>,
    media: Vec<MediaRows>,
    images: usize,
    clips: usize,
    first: bool,
}

impl Draft {
    spec fn frame(&self) -> Frame {
        Frame {
            tokens: self.tokens@,
            blocks: self.blocks@,
            media: self.media@,
            images: self.images as int,
            clips: self.clips as int,
            first: self.first,
        }
    }

    fn push_text(&mut self, tk: &BpeTokenizer, s: &str)
        requires
            tk.wf(),
        ensures
            final(self).frame() == with_text(tk, old(self).frame(), s@),
    {
        let bos: bool = self.first;
        self.first = false;
        if s.is_empty() && !bos {
            assert(self.tokens@ =~= self.tokens@ + Seq::<u32>::empty());
            assert(self.blocks@ =~= self.blocks@ + Seq::new(0, |i: int| -1i32));
            return;
        }
        let ids: Vec<u32> = tk.encode(s, bos);
        let ghost t0 = self.tokens@;
        let ghost b0 = self.blocks@;
        let mut i: usize = 0;
        while i < ids.len()
            invariant
                i <= ids@.len(),
                self.tokens@ =~= t0 + ids@.take(i as int),
                self.blocks@ =~= b0 + Seq::new(i as nat, |k: int| -1i32),
                !self.first,
                self.media == old(self).media,
                self.images == old(self).images,
                self.clips == old(self).clips,
            decreases ids@.len() - i,
        {
            self.tokens.push(ids[i]);
            self.blocks.push(-1);
            i = i + 1;
        }
        assert(ids@.take(i as int) =~= ids@);
    }

    fn push_item(&mut self, e: Encoded, start: u32, fill: u32, end: u32, block: i32)
        ensures
            final(self).frame() == framed(old(self).frame(), e, start, fill, end, block),
    {
        self.tokens.push(start);
        self.blocks.push(-1);
        let at: usize = self.tokens.len();
        self.media.push(MediaRows { at, ptr: e.ptr, rows: e.rows });
        let ghost t0 = self.tokens@;
        let ghost b0 = self.blocks@;
        let ghost m0 = self.media@;
        let mut i: usize = 0;
        while i < e.rows
            invariant
                i <= e.rows,
                self.tokens@ =~= t0 + Seq::new(i as nat, |k: int| fill),
                self.blocks@ =~= b0 + Seq::new(i as nat, |k: int| block),
                self.media@ == m0,
                self.images == old(self).images,
                self.clips == old(self).clips,
                self.first == old(self).first,
            decreases e.rows - i,
        {
            self.tokens.push(fill);
            self.blocks.push(block);
            i = i + 1;
        }
        self.tokens.push(end);
        self.blocks.push(-1);
        proof {
            let want = framed(old(self).frame(), e, start, fill, end, block);
            assert(self.tokens@ =~= want.tokens);
            assert(self.blocks@ =~= want.blocks);
        }
    }

    fn push_image(&mut self, images: &Vec<Encoded>, k: &Markers)
        requires
            old(self).images < images@.len(),
            images@.len() <= i32::MAX,
        ensures
            final(self).frame() == with_image(old(self).frame(), images@, *k),
    {
        let i: usize = self.images;
        let block: i32 = if k.bidirectional {
            i as i32
        } else {
            -1
        };
        self.push_item(images[i], k.image_start, k.image, k.image_end, block);
        self.images = i + 1;
    }

    fn push_clip(&mut self, clips: &Vec<Encoded>, k: &Markers)
        requires
            old(self).clips < clips@.len(),
        ensures
            final(self).frame() == with_clip(old(self).frame(), clips@, *k),
    {
        let i: usize = self.clips;
        assert(i < clips.len());
        self.push_item(clips[i], k.audio_start, k.audio, k.audio_end, -1i32);
        self.clips = i + 1;
    }

    fn start(&mut self, tk: &BpeTokenizer)
        requires
            tk.wf(),
        ensures
            final(self).frame() == started(tk, old(self).frame()),
    {
        if self.first {
            let empty: String = String::new();
            self.push_text(tk, empty.as_str());
        }
    }
}

proof fn lemma_marks(v: Seq<Span>, n: int, m: int, k: Mark)
    requires
        0 <= n <= m,
    ensures
        0 <= marks(v, n, k) <= marks(v, m, k),
    decreases m,
{
    if n < m {
        lemma_marks(v, n, m - 1, k);
    } else if n > 0 {
        lemma_marks(v, n - 1, n - 1, k);
    }
}

/// What keeps media out of a framed prompt: clips without known markers, then
/// images and clips without a tower.
pub open spec fn framed_fault(
    images: int,
    clips: int,
    vision: bool,
    audio: bool,
    k: Markers,
) -> Option<MediaError> {
    if clips > 0 && (k.audio == 0 || k.audio_start == 0 || k.audio_end == 0) {
        Some(MediaError::Markers)
    } else if images > 0 && !vision {
        Some(MediaError::NoVision)
    } else if clips > 0 && !audio {
        Some(MediaError::NoAudio)
    } else {
        None
    }
}

/// The media can be framed and the towers can encode them.
pub fn check_framed_media(
    images: usize,
    clips: usize,
    vision: bool,
    audio: bool,
    k: &Markers,
) -> (r: Result<(), MediaError>)
    ensures
        match r {
            Ok(()) => framed_fault(images as int, clips as int, vision, audio, *k) is None,
            Err(e) => framed_fault(images as int, clips as int, vision, audio, *k) == Some(e),
        },
{
    if clips > 0 && (k.audio == 0 || k.audio_start == 0 || k.audio_end == 0) {
        return Err(MediaError::Markers);
    }
    check_media(images, clips, vision, audio)
}

/// Assemble a prompt with framed media. Clips need known markers; the prompt
/// may not name more items than there are.
pub fn prepare_gemma4(
    tk: &BpeTokenizer,
    prompt: &str,
    images: &Vec<Encoded>,
    clips: &Vec<Encoded>,
    k: &Markers,
) -> (r: Result<PreparedPrompt, MediaError>)
    requires
        tk.wf(),
        images@.len() <= i32::MAX,
    ensures
        ({
            let v = spans(prompt@);
            let n = v.len() as int;
            let unknown = clips@.len() > 0 && (k.audio == 0 || k.audio_start == 0 || k.audio_end
                == 0);
            let ni = marks(v, n, Mark::Image);
            let na = marks(v, n, Mark::Audio);
            match r {
                Ok(p) => {
                    let f = assembled(tk, prompt@, images@, clips@, *k);
                    &&& !unknown
                    &&& ni <= images@.len()
                    &&& na <= clips@.len()
                    &&& p.tokens@ == f.tokens
                    &&& p.media_embeds@ == f.media
                    &&& p.block_ids@ == f.blocks
                },
                Err(e) => if unknown {
                    e == MediaError::Markers
                } else {
                    e == MediaError::Named { images: ni as usize, clips: na as usize } && (ni
                        > images@.len() || na > clips@.len())
                },
            }
        }),
{
    if clips.len() > 0 && (k.audio == 0 || k.audio_start == 0 || k.audio_end == 0) {
        return Err(MediaError::Markers);
    }
    let s: Vec<char> = text::to_chars(prompt);
    let spans_held: Vec<HeldSpan> = cut_spans(&s);
    let ghost v = spans(prompt@);
    let ni: usize = count_marks(&spans_held, Mark::Image);
    let na: usize = count_marks(&spans_held, Mark::Audio);
    if ni > images.len() || na > clips.len() {
        return Err(MediaError::Named { images: ni, clips: na });
    }
    let mut d: Draft = Draft {
        tokens: Vec::new(),
        blocks: Vec::new(),
        media: Vec::new(),
        images: 0,
        clips: 0,
        first: true,
    };
    let ghost f0 = d.frame();
    assert(f0.tokens =~= Seq::<u32>::empty());
    assert(f0.blocks =~= Seq::<i32>::empty());
    assert(f0.media =~= Seq::<MediaRows>::empty());
    let extra_images: usize = images.len() - ni;
    let mut i: usize = 0;
    while i < extra_images
        invariant
            tk.wf(),
            i <= extra_images <= images@.len(),
            images@.len() <= i32::MAX,
            d.images == i,
            d.clips == 0,
            d.frame() == with_images(tk, f0, images@, *k, i as int),
        decreases extra_images - i,
    {
        d.start(tk);
        d.push_image(images, k);
        i = i + 1;
    }
    let ghost f1 = d.frame();
    let extra_clips: usize = clips.len() - na;
    let mut c: usize = 0;
    while c < extra_clips
        invariant
            tk.wf(),
            c <= extra_clips <= clips@.len(),
            d.images == extra_images,
            d.clips == c,
            d.frame() == with_clips(tk, f1, clips@, *k, c as int),
        decreases extra_clips - c,
    {
        d.start(tk);
        d.push_clip(clips, k);
        c = c + 1;
    }
    let ghost f2 = d.frame();
    let mut j: usize = 0;
    while j < spans_held.len()
        invariant
            tk.wf(),
            j <= spans_held@.len(),
            v == held(spans_held@),
            images@.len() <= i32::MAX,
            extra_images + ni == images@.len(),
            extra_clips + na == clips@.len(),
            ni == marks(v, v.len() as int, Mark::Image),
            na == marks(v, v.len() as int, Mark::Audio),
            d.images == extra_images + marks(v, j as int, Mark::Image),
            d.clips == extra_clips + marks(v, j as int, Mark::Audio),
            d.frame() == with_spans(tk, f2, v, j as int, images@, clips@, *k),
        decreases spans_held@.len() - j,
    {
        proof {
            assert(v[j as int].text == spans_held@[j as int].text@);
            lemma_marks(v, j + 1, v.len() as int, Mark::Image);
            lemma_marks(v, j + 1, v.len() as int, Mark::Audio);
        }
        let t: String = text::to_string(&spans_held[j].text);
        d.push_text(tk, t.as_str());
        match spans_held[j].mark {
            Some(m) => match m {
                Mark::Image => {
                    d.push_image(images, k);
                },
                Mark::Audio => {
                    d.push_clip(clips, k);
                },
            },
            None => {},
        }
        j = j + 1;
    }
    Ok(PreparedPrompt { tokens: d.tokens, media_embeds: d.media, block_ids: d.blocks })
}

/// How many of the first `n` items are of kind `m`.
pub open spec fn count(ks: Seq<Mark>, n: int, m: Mark) -> int
    decreases n,
{
    if n <= 0 {
        0
    } else {
        count(ks, n - 1, m) + (if ks[n - 1] == m {
            1int
        } else {
            0int
        })
    }
}

/// The item `e` stands at `r`: its rows between the markers `start` and `end`,
/// filled with `fill` and of block `block`; the markers are of none.
pub open spec fn stands(
    f: Frame,
    r: MediaRows,
    e: Encoded,
    start: u32,
    fill: u32,
    end: u32,
    block: i32,
) -> bool {
    &&& r.ptr == e.ptr
    &&& r.rows == e.rows
    &&& 1 <= r.at
    &&& r.at + r.rows < f.tokens.len()
    &&& f.tokens[r.at - 1] == start
    &&& f.blocks[r.at - 1] == -1
    &&& forall|i: int|
        r.at <= i < r.at + r.rows ==> #[trigger] f.tokens[i] == fill && f.blocks[i] == block
    &&& f.tokens[r.at + r.rows] == end
    &&& f.blocks[r.at + r.rows] == -1
}

/// Item `m` of a prompt whose items are of the kinds `ks` stands as one of its
/// kind: an image between image markers and filled with the image token, a
/// clip between audio markers and filled with the audio token. The items of a
/// kind come in order. An image is a block of its own where spans attend both
/// ways.
pub open spec fn stands_as(
    f: Frame,
    ks: Seq<Mark>,
    m: int,
    images: Seq<Encoded>,
    clips: Seq<Encoded>,
    k: Markers,
) -> bool {
    let j = count(ks, m, ks[m]);
    match ks[m] {
        Mark::Image => stands(
            f,
            f.media[m],
            images[j],
            k.image_start,
            k.image,
            k.image_end,
            if k.bidirectional {
                j as i32
            } else {
                -1i32
            },
        ),
        Mark::Audio => stands(
            f,
            f.media[m],
            clips[j],
            k.audio_start,
            k.audio,
            k.audio_end,
            -1i32,
        ),
    }
}

/// What holds of a prompt in the making whose items are of the kinds `ks`: a
/// block number for every token, and every item in its place.
pub open spec fn well_framed(
    f: Frame,
    ks: Seq<Mark>,
    images: Seq<Encoded>,
    clips: Seq<Encoded>,
    k: Markers,
) -> bool {
    &&& f.blocks.len() == f.tokens.len()
    &&& f.media.len() == ks.len()
    &&& f.images == count(ks, ks.len() as int, Mark::Image)
    &&& f.clips == count(ks, ks.len() as int, Mark::Audio)
    &&& forall|m: int| 0 <= m < ks.len() ==> #[trigger] stands_as(f, ks, m, images, clips, k)
}

/// `n` items of one kind.
pub open spec fn alike(m: Mark, n: int) -> Seq<Mark>
    decreases n,
{
    if n <= 0 {
        Seq::empty()
    } else {
        alike(m, n - 1).push(m)
    }
}

/// The kinds of the placeholders of the first `n` stretches.
pub open spec fn marked(v: Seq<Span>, n: int) -> Seq<Mark>
    decreases n,
{
    if n <= 0 {
        Seq::empty()
    } else {
        match v[n - 1].mark {
            Some(m) => marked(v, n - 1).push(m),
            None => marked(v, n - 1),
        }
    }
}

/// The kinds of a prompt's items: images without a placeholder, clips without
/// a placeholder, then the placeholders in order.
pub open spec fn kinds(s: Seq<char>, images: int, clips: int) -> Seq<Mark> {
    let v = spans(s);
    let n = v.len() as int;
    alike(Mark::Image, images - marks(v, n, Mark::Image)) + alike(
        Mark::Audio,
        clips - marks(v, n, Mark::Audio),
    ) + marked(v, n)
}

proof fn lemma_count_push(ks: Seq<Mark>, x: Mark, n: int, m: Mark)
    requires
        n <= ks.len(),
    ensures
        count(ks.push(x), n, m) == count(ks, n, m),
    decreases n,
{
    if n > 0 {
        lemma_count_push(ks, x, n - 1, m);
    }
}

/// `g` goes on where `f` ends.
spec fn extends(f: Frame, g: Frame) -> bool {
    &&& f.tokens.len() <= g.tokens.len()
    &&& f.blocks.len() == f.tokens.len()
    &&& g.blocks.len() == g.tokens.len()
    &&& forall|i: int| 0 <= i < f.tokens.len() ==> #[trigger] g.tokens[i] == f.tokens[i]
    &&& forall|i: int| 0 <= i < f.blocks.len() ==> #[trigger] g.blocks[i] == f.blocks[i]
}

/// What stands in a prompt still does when the prompt grows.
proof fn lemma_stands_on(
    f: Frame,
    g: Frame,
    r: MediaRows,
    e: Encoded,
    start: u32,
    fill: u32,
    end: u32,
    block: i32,
)
    requires
        extends(f, g),
        stands(f, r, e, start, fill, end, block),
    ensures
        stands(g, r, e, start, fill, end, block),
{
    assert forall|i: int| r.at <= i < r.at + r.rows implies #[trigger] g.tokens[i] == fill
        && g.blocks[i] == block by {
        assert(f.tokens[i] == fill);
        assert(f.blocks[i] == block);
    }
}

proof fn lemma_grown(
    f: Frame,
    g: Frame,
    ks: Seq<Mark>,
    x: Seq<Mark>,
    m: int,
    images: Seq<Encoded>,
    clips: Seq<Encoded>,
    k: Markers,
)
    requires
        well_framed(f, ks, images, clips, k),
        0 <= m < ks.len(),
        extends(f, g),
        g.media[m] == f.media[m],
        x[m] == ks[m],
        count(x, m, ks[m]) == count(ks, m, ks[m]),
    ensures
        stands_as(g, x, m, images, clips, k),
{
    assert(stands_as(f, ks, m, images, clips, k));
    let r = f.media[m];
    let n = count(ks, m, ks[m]);
    match ks[m] {
        Mark::Image => {
            let block = if k.bidirectional {
                n as i32
            } else {
                -1i32
            };
            lemma_stands_on(f, g, r, images[n], k.image_start, k.image, k.image_end, block);
        },
        Mark::Audio => {
            lemma_stands_on(f, g, r, clips[n], k.audio_start, k.audio, k.audio_end, -1i32);
        },
    }
}

proof fn lemma_text_framed(
    tk: &BpeTokenizer,
    f: Frame,
    s: Seq<char>,
    ks: Seq<Mark>,
    images: Seq<Encoded>,
    clips: Seq<Encoded>,
    k: Markers,
)
    requires
        well_framed(f, ks, images, clips, k),
    ensures
        well_framed(with_text(tk, f, s), ks, images, clips, k),
{
    let g = with_text(tk, f, s);
    assert forall|m: int| 0 <= m < ks.len() implies #[trigger] stands_as(
        g,
        ks,
        m,
        images,
        clips,
        k,
    ) by {
        lemma_grown(f, g, ks, ks, m, images, clips, k);
    }
}

/// A prompt with one more item.
spec fn with_item(
    f: Frame,
    m: Mark,
    images: Seq<Encoded>,
    clips: Seq<Encoded>,
    k: Markers,
) -> Frame {
    match m {
        Mark::Image => with_image(f, images, k),
        Mark::Audio => with_clip(f, clips, k),
    }
}

proof fn lemma_item_framed(
    f: Frame,
    x: Mark,
    ks: Seq<Mark>,
    images: Seq<Encoded>,
    clips: Seq<Encoded>,
    k: Markers,
)
    requires
        well_framed(f, ks, images, clips, k),
        with_item(f, x, images, clips, k).tokens.len() <= usize::MAX,
    ensures
        well_framed(with_item(f, x, images, clips, k), ks.push(x), images, clips, k),
{
    let g = with_item(f, x, images, clips, k);
    let y = ks.push(x);
    let n = ks.len() as int;
    lemma_count_push(ks, x, n, Mark::Image);
    lemma_count_push(ks, x, n, Mark::Audio);
    assert forall|m: int| 0 <= m < y.len() implies #[trigger] stands_as(
        g,
        y,
        m,
        images,
        clips,
        k,
    ) by {
        if m < n {
            lemma_count_push(ks, x, m, ks[m]);
            lemma_grown(f, g, ks, y, m, images, clips, k);
        } else {
            let r = g.media[n];
            assert(r.at == f.tokens.len() + 1);
        }
    }
}

proof fn lemma_images_framed(
    tk: &BpeTokenizer,
    f: Frame,
    n: int,
    ks: Seq<Mark>,
    images: Seq<Encoded>,
    clips: Seq<Encoded>,
    k: Markers,
)
    requires
        well_framed(f, ks, images, clips, k),
        with_images(tk, f, images, k, n).tokens.len() <= usize::MAX,
    ensures
        well_framed(
            with_images(tk, f, images, k, n),
            ks + alike(Mark::Image, n),
            images,
            clips,
            k,
        ),
        f.tokens.len() <= with_images(tk, f, images, k, n).tokens.len(),
    decreases n,
{
    if n > 0 {
        let b = with_images(tk, f, images, k, n - 1);
        let c = started(tk, b);
        let x = ks + alike(Mark::Image, n - 1);
        assert(b.tokens.len() <= c.tokens.len());
        lemma_images_framed(tk, f, n - 1, ks, images, clips, k);
        lemma_text_framed(tk, b, Seq::empty(), x, images, clips, k);
        lemma_item_framed(c, Mark::Image, x, images, clips, k);
        assert(x.push(Mark::Image) =~= ks + alike(Mark::Image, n));
    } else {
        assert(ks + alike(Mark::Image, n) =~= ks);
    }
}

proof fn lemma_clips_framed(
    tk: &BpeTokenizer,
    f: Frame,
    n: int,
    ks: Seq<Mark>,
    images: Seq<Encoded>,
    clips: Seq<Encoded>,
    k: Markers,
)
    requires
        well_framed(f, ks, images, clips, k),
        with_clips(tk, f, clips, k, n).tokens.len() <= usize::MAX,
    ensures
        well_framed(
            with_clips(tk, f, clips, k, n),
            ks + alike(Mark::Audio, n),
            images,
            clips,
            k,
        ),
        f.tokens.len() <= with_clips(tk, f, clips, k, n).tokens.len(),
    decreases n,
{
    if n > 0 {
        let b = with_clips(tk, f, clips, k, n - 1);
        let c = started(tk, b);
        let x = ks + alike(Mark::Audio, n - 1);
        assert(b.tokens.len() <= c.tokens.len());
        lemma_clips_framed(tk, f, n - 1, ks, images, clips, k);
        lemma_text_framed(tk, b, Seq::empty(), x, images, clips, k);
        lemma_item_framed(c, Mark::Audio, x, images, clips, k);
        assert(x.push(Mark::Audio) =~= ks + alike(Mark::Audio, n));
    } else {
        assert(ks + alike(Mark::Audio, n) =~= ks);
    }
}

proof fn lemma_spans_grow(
    tk: &BpeTokenizer,
    f: Frame,
    v: Seq<Span>,
    n: int,
    images: Seq<Encoded>,
    clips: Seq<Encoded>,
    k: Markers,
)
    ensures
        f.tokens.len() <= with_spans(tk, f, v, n, images, clips, k).tokens.len(),
    decreases n,
{
    if n > 0 {
        lemma_spans_grow(tk, f, v, n - 1, images, clips, k);
    }
}

proof fn lemma_spans_framed(
    tk: &BpeTokenizer,
    f: Frame,
    v: Seq<Span>,
    n: int,
    ks: Seq<Mark>,
    images: Seq<Encoded>,
    clips: Seq<Encoded>,
    k: Markers,
)
    requires
        well_framed(f, ks, images, clips, k),
        with_spans(tk, f, v, n, images, clips, k).tokens.len() <= usize::MAX,
    ensures
        well_framed(
            with_spans(tk, f, v, n, images, clips, k),
            ks + marked(v, n),
            images,
            clips,
            k,
        ),
    decreases n,
{
    if n > 0 {
        let a = with_spans(tk, f, v, n - 1, images, clips, k);
        let b = with_text(tk, a, v[n - 1].text);
        let x = ks + marked(v, n - 1);
        assert(a.tokens.len() <= b.tokens.len());
        lemma_spans_framed(tk, f, v, n - 1, ks, images, clips, k);
        lemma_text_framed(tk, a, v[n - 1].text, x, images, clips, k);
        match v[n - 1].mark {
            Some(m) => {
                lemma_item_framed(b, m, x, images, clips, k);
                assert(x.push(m) =~= ks + marked(v, n));
            },
            None => {},
        }
    } else {
        assert(ks + marked(v, n) =~= ks);
    }
}

proof fn lemma_clips_grow(tk: &BpeTokenizer, f: Frame, clips: Seq<Encoded>, k: Markers, n: int)
    ensures
        f.tokens.len() <= with_clips(tk, f, clips, k, n).tokens.len(),
    decreases n,
{
    if n > 0 {
        lemma_clips_grow(tk, f, clips, k, n - 1);
    }
}

/// Every item of a prompt stands between the markers of its own kind, filled
/// with its own token, the items of a kind in order; and every token has its
/// block number.
pub proof fn law_media_are_framed(
    tk: &BpeTokenizer,
    s: Seq<char>,
    images: Seq<Encoded>,
    clips: Seq<Encoded>,
    k: Markers,
)
    requires
        assembled(tk, s, images, clips, k).tokens.len() <= usize::MAX,
    ensures
        well_framed(
            assembled(tk, s, images, clips, k),
            kinds(s, images.len() as int, clips.len() as int),
            images,
            clips,
            k,
        ),
{
    let v = spans(s);
    let n = v.len() as int;
    let f0 = Frame {
        tokens: Seq::empty(),
        blocks: Seq::empty(),
        media: Seq::empty(),
        images: 0,
        clips: 0,
        first: true,
    };
    let ei = images.len() - marks(v, n, Mark::Image);
    let ea = clips.len() - marks(v, n, Mark::Audio);
    let f1 = with_images(tk, f0, images, k, ei);
    let f2 = with_clips(tk, f1, clips, k, ea);
    let none = Seq::<Mark>::empty();
    let (a, b) = (alike(Mark::Image, ei), alike(Mark::Audio, ea));
    lemma_spans_grow(tk, f2, v, n, images, clips, k);
    lemma_clips_grow(tk, f1, clips, k, ea);
    lemma_images_framed(tk, f0, ei, none, images, clips, k);
    assert(none + a =~= a);
    lemma_clips_framed(tk, f1, ea, a, images, clips, k);
    lemma_spans_framed(tk, f2, v, n, a + b, images, clips, k);
}

} // verus!
