//! Texts to tokens.
use vstd::prelude::*;
use vstd::utf8::encode_utf8;

use crate::text;
use crate::tokenizer::alphabet;
use crate::tokenizer::pieces;
use crate::tokenizer::split;
use crate::tokenizer::split::{Segment, Stretch};
use crate::tokenizer::unigram;
use crate::tokenizer::{BpeTokenizer, METASPACE};

verus! {

// Metaspace vocabularies.

/// Spaces as metaspaces, with one more before the text where it is asked for.
pub open spec fn marked(s: Seq<char>, before: bool) -> Seq<char> {
    (if before {
        seq![METASPACE]
    } else {
        Seq::empty()
    }) + s.map_values(
        |c: char|
            if c == ' ' {
                METASPACE
            } else {
                c
            },
    )
}

/// The next place from `i` on where a run of metaspaces starts, or the end.
pub open spec fn marked_end(s: Seq<char>, i: int) -> int
    decreases s.len() - i,
{
    if i >= s.len() {
        s.len() as int
    } else if 0 < i && s[i] == METASPACE && s[i - 1] != METASPACE {
        i
    } else {
        marked_end(s, i + 1)
    }
}

pub proof fn lemma_marked_end(s: Seq<char>, i: int)
    requires
        0 <= i <= s.len(),
    ensures
        i <= marked_end(s, i) <= s.len(),
    decreases s.len() - i,
{
    if i < s.len() && !(0 < i && s[i] == METASPACE && s[i - 1] != METASPACE) {
        lemma_marked_end(s, i + 1);
    }
}

/// The tokens of a word of a metaspace vocabulary.
pub open spec fn piece_tokens(tk: &BpeTokenizer, p: Seq<char>) -> Seq<u32> {
    if tk.scores@.len() == 0 {
        pieces::bpe_tokens(tk, p)
    } else {
        unigram::unigram_tokens(tk, p)
    }
}

/// The tokens of the words from `i` on. A word starts with its metaspaces.
pub open spec fn marked_tokens(tk: &BpeTokenizer, s: Seq<char>, i: int) -> Seq<u32>
    decreases s.len() - i,
{
    let e = marked_end(s, i + 1);
    if i < 0 || i >= s.len() || e <= i || e > s.len() {
        Seq::empty()
    } else {
        piece_tokens(tk, s.subrange(i, e)) + marked_tokens(tk, s, e)
    }
}

// Byte-level vocabularies.

/// The characters that stand for the bytes of a text.
pub open spec fn remapped(s: Seq<char>) -> Seq<char> {
    encode_utf8(s).map_values(|b: u8| alphabet::letter(b))
}

/// The tokens of the first `n` words.
pub open spec fn word_tokens(tk: &BpeTokenizer, ws: Seq<Seq<char>>, n: int) -> Seq<u32>
    decreases n,
{
    if n <= 0 {
        Seq::empty()
    } else {
        word_tokens(tk, ws, n - 1) + pieces::bpe_tokens(tk, remapped(ws[n - 1]))
    }
}

// Both.

/// The tokens of a stretch; `first`: no text stands before it.
pub open spec fn stretch_tokens(tk: &BpeTokenizer, st: Stretch, first: bool) -> Seq<u32> {
    if st.literal {
        seq![tk.vocab@[st.text]]
    } else if tk.sp {
        marked_tokens(tk, marked(st.text, tk.sp_prepend && first), 0)
    } else {
        let ws = split::words(st.text, 0);
        word_tokens(tk, ws, ws.len() as int)
    }
}

/// One of the first `n` stretches is text.
pub open spec fn has_text(v: Seq<Stretch>, n: int) -> bool {
    exists|i: int| 0 <= i < n && !(#[trigger] v[i]).literal
}

/// The tokens of the first `n` stretches.
pub open spec fn stretches_tokens(tk: &BpeTokenizer, v: Seq<Stretch>, n: int) -> Seq<u32>
    decreases n,
{
    if n <= 0 {
        Seq::empty()
    } else {
        stretches_tokens(tk, v, n - 1) + stretch_tokens(tk, v[n - 1], !has_text(v, n - 1))
    }
}

/// The tokens of a text: the start token where it is due, then those of its
/// stretches.
pub open spec fn encoded(tk: &BpeTokenizer, s: Seq<char>, add_bos: bool) -> Seq<u32> {
    let v = split::cut_at(s, tk.specials@, tk.specials@.len() as int);
    (if add_bos && tk.add_bos && tk.bos is Some {
        seq![tk.bos->0]
    } else {
        Seq::empty()
    }) + stretches_tokens(tk, v, v.len() as int)
}

impl BpeTokenizer {
    fn push_piece(&self, p: &Vec<char>, out: &mut Vec<u32>)
        requires
            self.wf(),
        ensures
            final(out)@ == old(out)@ + piece_tokens(self, p@),
    {
        if self.scores.len() == 0 {
            self.bpe(p, out);
        } else {
            self.unigram(p, out);
        }
    }

    /// Append the tokens of a text in a metaspace vocabulary.
    pub fn encode_sp(&self, seg: &Vec<char>, first_segment: bool, out: &mut Vec<u32>)
        requires
            self.wf(),
        ensures
            final(out)@ == old(out)@ + marked_tokens(
                self,
                marked(seg@, self.sp_prepend && first_segment),
                0,
            ),
    {
        let mut norm: Vec<char> = Vec::new();
        let before: bool = self.sp_prepend && first_segment;
        if before {
            norm.push(METASPACE);
        }
        let ghost head = norm@;
        let mut k: usize = 0;
        while k < seg.len()
            invariant
                k <= seg@.len(),
                head == (if before {
                    seq![METASPACE]
                } else {
                    Seq::empty()
                }),
                norm@ =~= head + marked(seg@, false).take(k as int),
                marked(seg@, false).len() == seg@.len(),
            decreases seg@.len() - k,
        {
            let c: char = seg[k];
            norm.push(if c == ' ' {
                METASPACE
            } else {
                c
            });
            k = k + 1;
        }
        let ghost m = marked(seg@, before);
        assert(norm@ =~= m);
        let n: usize = norm.len();
        let ghost out0 = out@;
        let ghost want = out0 + marked_tokens(self, m, 0);
        let mut i: usize = 0;
        while i < n
            invariant
                self.wf(),
                i <= n,
                n == norm@.len(),
                norm@ == m,
                want == out@ + marked_tokens(self, m, i as int),
            decreases n - i,
        {
            proof {
                lemma_marked_end(m, i + 1);
            }
            let mut e: usize = i + 1;
            while e < n && !(norm[e] == METASPACE && norm[e - 1] != METASPACE)
                invariant
                    i < e <= n,
                    n == norm@.len(),
                    norm@ == m,
                    marked_end(m, i + 1) == marked_end(m, e as int),
                decreases n - e,
            {
                e = e + 1;
            }
            let p: Vec<char> = split::part(&norm, i, e);
            let ghost o1 = out@;
            self.push_piece(&p, out);
            proof {
                let a = piece_tokens(self, p@);
                let b = marked_tokens(self, m, e as int);
                assert(o1 + (a + b) =~= o1 + a + b);
            }
            i = e;
        }
        assert(out@ =~= out@ + marked_tokens(self, m, n as int));
    }

    fn push_words(&self, seg: &Vec<char>, out: &mut Vec<u32>)
        requires
            self.wf(),
        ensures
            final(out)@ == old(out)@ + word_tokens(
                self,
                split::words(seg@, 0),
                split::words(seg@, 0).len() as int,
            ),
    {
        let ws: Vec<Vec<char>> = split::pretokenize(seg);
        let ghost want = split::words(seg@, 0);
        let ghost out0 = out@;
        let mut k: usize = 0;
        while k < ws.len()
            invariant
                self.wf(),
                k <= ws@.len(),
                ws@.len() == want.len(),
                forall|i: int| 0 <= i < ws@.len() ==> (#[trigger] ws@[i])@ == want[i],
                out@ =~= out0 + word_tokens(self, want, k as int),
            decreases ws@.len() - k,
        {
            assert(ws@[k as int]@ == want[k as int]);
            let w: String = text::to_string(&ws[k]);
            let b: &[u8] = w.as_str().as_bytes();
            let ghost r = remapped(want[k as int]);
            let mut m: Vec<char> = Vec::new();
            let mut i: usize = 0;
            while i < b.len()
                invariant
                    self.wf(),
                    i <= b@.len(),
                    b@ == encode_utf8(want[k as int]),
                    r == remapped(want[k as int]),
                    m@ =~= r.take(i as int),
                decreases b@.len() - i,
            {
                assert(r[i as int] == alphabet::letter(b@[i as int]));
                assert(self.byte_enc@[b@[i as int] as int] == alphabet::letter(b@[i as int]));
                m.push(self.byte_enc[b[i] as usize]);
                i = i + 1;
            }
            assert(m@ =~= r);
            self.bpe(&m, out);
            k = k + 1;
        }
    }

    /// The tokens of a text.
    pub fn encode(&self, s: &str, add_bos: bool) -> (r: Vec<u32>)
        requires
            self.wf(),
        ensures
            r@ == encoded(self, s@, add_bos),
    {
        let mut ids: Vec<u32> = Vec::new();
        if add_bos && self.add_bos {
            match self.bos {
                Some(b) => {
                    ids.push(b);
                },
                None => {},
            }
        }
        let ghost start = ids@;
        let t: Vec<char> = text::to_chars(s);
        let v: Vec<Segment> = split::segments(&t, &self.specials);
        let ghost vs = split::stretches(v@);
        let mut first: bool = true;
        let mut k: usize = 0;
        while k < v.len()
            invariant
                self.wf(),
                k <= v@.len(),
                vs == split::stretches(v@),
                vs == split::cut_at(s@, self.specials@, self.specials@.len() as int),
                first == !has_text(vs, k as int),
                ids@ =~= start + stretches_tokens(self, vs, k as int),
            decreases v@.len() - k,
        {
            assert(vs[k as int] == v@[k as int]@);
            if v[k].literal {
                proof {
                    split::lemma_literals(s@, self.specials@, self.specials@.len() as int, k as int);
                    let m = choose|m: int|
                        0 <= m < self.specials@.len() && vs[k as int].text == (
                        #[trigger] self.specials@[m]).0@;
                    assert(self.vocab@.contains_key(self.specials@[m].0@));
                }
                let lit: String = text::to_string(&v[k].text);
                match self.special(lit.as_str()) {
                    Some(id) => {
                        ids.push(id);
                    },
                    None => {},
                }
                assert(has_text(vs, k + 1) == has_text(vs, k as int)) by {
                    if has_text(vs, k as int) {
                        let i = choose|i: int| 0 <= i < k && !(#[trigger] vs[i]).literal;
                        assert(!vs[i].literal);
                    }
                }
            } else {
                if self.sp {
                    self.encode_sp(&v[k].text, first, &mut ids);
                } else {
                    self.push_words(&v[k].text, &mut ids);
                }
                assert(has_text(vs, k + 1)) by {
                    assert(!vs[k as int].literal);
                }
                first = false;
            }
            k = k + 1;
        }
        ids
    }
}

} // verus!
