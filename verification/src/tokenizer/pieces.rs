//! The tokens of merged pieces, with fallback to characters and bytes.
use vstd::prelude::*;
use vstd::utf8::encode_utf8;

use crate::text;
use crate::tokenizer::merge;
use crate::tokenizer::BpeTokenizer;

verus! {

/// Tokens of the first `n` bytes, where there are any.
pub open spec fn byte_tokens(tk: &BpeTokenizer, b: Seq<u8>, n: int) -> Seq<u32>
    decreases n,
{
    if n <= 0 {
        Seq::empty()
    } else {
        byte_tokens(tk, b, n - 1) + (match tk.byte_ids@[b[n - 1] as int] {
            Some(id) => seq![id],
            None => Seq::empty(),
        })
    }
}

/// A character as bytes.
pub open spec fn fallback(tk: &BpeTokenizer, c: char) -> Seq<u32> {
    let b = encode_utf8(seq![c]);
    byte_tokens(tk, b, b.len() as int)
}

/// A character by itself: its token; in metaspace vocabularies its bytes.
pub open spec fn char_tokens(tk: &BpeTokenizer, c: char) -> Seq<u32> {
    match tk.token(seq![c]) {
        Some(id) => seq![id],
        None => if tk.sp {
            fallback(tk, c)
        } else {
            Seq::empty()
        },
    }
}

/// The first `n` characters, each by itself.
pub open spec fn chars_tokens(tk: &BpeTokenizer, s: Seq<char>, n: int) -> Seq<u32>
    decreases n,
{
    if n <= 0 {
        Seq::empty()
    } else {
        chars_tokens(tk, s, n - 1) + char_tokens(tk, s[n - 1])
    }
}

/// A part: its token, or its characters.
pub open spec fn part_tokens(tk: &BpeTokenizer, p: Seq<char>) -> Seq<u32> {
    match tk.token(p) {
        Some(id) => seq![id],
        None => chars_tokens(tk, p, p.len() as int),
    }
}

/// The first `n` parts.
pub open spec fn parts_tokens(tk: &BpeTokenizer, parts: Seq<Seq<char>>, n: int) -> Seq<u32>
    decreases n,
{
    if n <= 0 {
        Seq::empty()
    } else {
        parts_tokens(tk, parts, n - 1) + part_tokens(tk, parts[n - 1])
    }
}

/// The tokens of a piece by pair merging.
pub open spec fn bpe_tokens(tk: &BpeTokenizer, piece: Seq<char>) -> Seq<u32> {
    let parts = merge::merged(&tk.merges, merge::singles(piece));
    parts_tokens(tk, parts, parts.len() as int)
}

impl BpeTokenizer {
    pub(crate) fn push_fallback(&self, c: char, out: &mut Vec<u32>)
        requires
            self.wf(),
        ensures
            final(out)@ == old(out)@ + fallback(self, c),
    {
        let mut s: String = String::new();
        text::push_char(&mut s, c);
        assert(s@ =~= seq![c]);
        let b: &[u8] = s.as_str().as_bytes();
        let ghost out0 = out@;
        let mut i: usize = 0;
        while i < b.len()
            invariant
                self.wf(),
                i <= b@.len(),
                b@ == encode_utf8(seq![c]),
                out@ =~= out0 + byte_tokens(self, b@, i as int),
            decreases b@.len() - i,
        {
            match self.byte_ids[b[i] as usize] {
                Some(id) => {
                    out.push(id);
                },
                None => {},
            }
            i = i + 1;
        }
    }

    fn push_chars(&self, p: &Vec<char>, out: &mut Vec<u32>)
        requires
            self.wf(),
        ensures
            final(out)@ == old(out)@ + chars_tokens(self, p@, p@.len() as int),
    {
        let ghost out0 = out@;
        let mut i: usize = 0;
        while i < p.len()
            invariant
                self.wf(),
                i <= p@.len(),
                out@ =~= out0 + chars_tokens(self, p@, i as int),
            decreases p@.len() - i,
        {
            let c: char = p[i];
            let mut one: String = String::new();
            text::push_char(&mut one, c);
            assert(one@ =~= seq![c]);
            match self.special(one.as_str()) {
                Some(id) => {
                    out.push(id);
                },
                None => {
                    if self.sp {
                        self.push_fallback(c, out);
                    }
                },
            }
            i = i + 1;
        }
    }

    /// Append the tokens of a piece by pair merging.
    pub fn bpe(&self, piece: &Vec<char>, out: &mut Vec<u32>)
        requires
            self.wf(),
        ensures
            final(out)@ == old(out)@ + bpe_tokens(self, piece@),
    {
        let parts: Vec<String> = merge::merge_all(&self.merges, piece);
        let ghost ps = merge::texts(parts@);
        let ghost out0 = out@;
        let mut i: usize = 0;
        while i < parts.len()
            invariant
                self.wf(),
                i <= parts@.len(),
                ps == merge::texts(parts@),
                out@ =~= out0 + parts_tokens(self, ps, i as int),
            decreases parts@.len() - i,
        {
            assert(ps[i as int] == parts@[i as int]@);
            match self.special(parts[i].as_str()) {
                Some(id) => {
                    out.push(id);
                },
                None => {
                    let p: Vec<char> = text::to_chars(parts[i].as_str());
                    self.push_chars(&p, out);
                },
            }
            i = i + 1;
        }
    }
}

} // verus!
