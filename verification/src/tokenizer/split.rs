//! Splitting a text: literals first, then words.
use vstd::prelude::*;

use crate::text;

verus! {

// Words of byte-level vocabularies.

/// What a run of characters is made of.
#[derive(Clone, Copy, PartialEq, Eq, Debug, Structural)]
pub enum Kind {
    Letter,
    Digit,
    Space,
    Newline,
    Other,
}

/// Letters are the ASCII ones and all that is not ASCII.
pub open spec fn kind(c: char) -> Kind {
    if 'a' <= c <= 'z' || 'A' <= c <= 'Z' || c as u32 >= 0x80 {
        Kind::Letter
    } else if '0' <= c <= '9' {
        Kind::Digit
    } else if c == ' ' {
        Kind::Space
    } else if c == '\n' || c == '\r' {
        Kind::Newline
    } else {
        Kind::Other
    }
}

fn kind_of(c: char) -> (r: Kind)
    ensures
        r == kind(c),
{
    if ('a' <= c && c <= 'z') || ('A' <= c && c <= 'Z') || c as u32 >= 0x80 {
        Kind::Letter
    } else if '0' <= c && c <= '9' {
        Kind::Digit
    } else if c == ' ' {
        Kind::Space
    } else if c == '\n' || c == '\r' {
        Kind::Newline
    } else {
        Kind::Other
    }
}

/// The end of the run of `k` from `i` on.
pub open spec fn run_end(s: Seq<char>, k: Kind, i: int) -> int
    decreases s.len() - i,
{
    if 0 <= i < s.len() && kind(s[i]) == k {
        run_end(s, k, i + 1)
    } else {
        i
    }
}

/// The end of the word at `i`: a run, with a space before it.
pub open spec fn word_end(s: Seq<char>, i: int) -> int {
    let j = if s[i] == ' ' {
        i + 1
    } else {
        i
    };
    if j >= s.len() {
        j
    } else {
        run_end(s, kind(s[j]), j)
    }
}

proof fn lemma_run_end(s: Seq<char>, k: Kind, i: int)
    requires
        0 <= i <= s.len(),
    ensures
        i <= run_end(s, k, i) <= s.len(),
        i < s.len() && kind(s[i]) == k ==> i < run_end(s, k, i),
    decreases s.len() - i,
{
    if i < s.len() && kind(s[i]) == k {
        lemma_run_end(s, k, i + 1);
    }
}

pub proof fn lemma_word_end(s: Seq<char>, i: int)
    requires
        0 <= i < s.len(),
    ensures
        i < word_end(s, i) <= s.len(),
{
    let j = if s[i] == ' ' {
        i + 1
    } else {
        i
    };
    if j < s.len() {
        lemma_run_end(s, kind(s[j]), j);
    }
}

/// The words from `i` on.
pub open spec fn words(s: Seq<char>, i: int) -> Seq<Seq<char>>
    decreases s.len() - i,
{
    if i < 0 || i >= s.len() || word_end(s, i) <= i || word_end(s, i) > s.len() {
        Seq::empty()
    } else {
        seq![s.subrange(i, word_end(s, i))] + words(s, word_end(s, i))
    }
}

/// All parts, one after the other.
pub open spec fn rejoined(parts: Seq<Seq<char>>) -> Seq<char>
    decreases parts.len(),
{
    if parts.len() == 0 {
        Seq::empty()
    } else {
        parts[0] + rejoined(parts.skip(1))
    }
}

/// The words are the whole text, in order.
pub proof fn law_words_cover_the_text(s: Seq<char>, i: int)
    requires
        0 <= i <= s.len(),
    ensures
        rejoined(words(s, i)) == s.skip(i),
    decreases s.len() - i,
{
    if i < s.len() {
        lemma_word_end(s, i);
        let e = word_end(s, i);
        law_words_cover_the_text(s, e);
        let w = words(s, i);
        assert(w.skip(1) =~= words(s, e));
        assert(s.skip(i) =~= s.subrange(i, e) + s.skip(e));
    } else {
        assert(s.skip(i) =~= Seq::<char>::empty());
    }
}

/// The ends of the words of `s`, in order.
pub fn pretokenize(s: &Vec<char>) -> (r: Vec<Vec<char>>)
    ensures
        r@.len() == words(s@, 0).len(),
        forall|k: int| 0 <= k < r@.len() ==> (#[trigger] r@[k])@ == words(s@, 0)[k],
{
    let n: usize = s.len();
    let mut r: Vec<Vec<char>> = Vec::new();
    let mut i: usize = 0;
    let ghost all = words(s@, 0);
    while i < n
        invariant
            i <= n,
            n == s@.len(),
            all == words(s@, 0),
            r@.len() + words(s@, i as int).len() == all.len(),
            all.skip(r@.len() as int) =~= words(s@, i as int),
            forall|k: int| 0 <= k < r@.len() ==> (#[trigger] r@[k])@ == all[k],
        decreases n - i,
    {
        proof {
            lemma_word_end(s@, i as int);
        }
        let start: usize = i;
        let mut j: usize = if s[i] == ' ' {
            i + 1
        } else {
            i
        };
        if j < n {
            let k: Kind = kind_of(s[j]);
            let ghost j0 = j as int;
            while j < n && kind_of(s[j]) == k
                invariant
                    j0 <= j <= n,
                    n == s@.len(),
                    run_end(s@, k, j0) == run_end(s@, k, j as int),
                decreases n - j,
            {
                j = j + 1;
            }
        }
        assert(j == word_end(s@, i as int));
        let w: Vec<char> = part(s, start, j);
        let ghost rest = all.skip(r@.len() as int);
        proof {
            assert(rest[0] == s@.subrange(i as int, j as int));
            assert(all.skip(r@.len() as int + 1) =~= rest.skip(1));
            assert(rest.skip(1) =~= words(s@, j as int));
        }
        r.push(w);
        i = j;
    }
    r
}

/// The characters `from..to`.
pub(crate) fn part(v: &Vec<char>, from: usize, to: usize) -> (r: Vec<char>)
    requires
        from <= to <= v@.len(),
    ensures
        r@ == v@.subrange(from as int, to as int),
{
    let mut r: Vec<char> = Vec::new();
    let mut i: usize = from;
    while i < to
        invariant
            from <= i <= to <= v@.len(),
            r@ =~= v@.subrange(from as int, i as int),
        decreases to - i,
    {
        r.push(v[i]);
        i = i + 1;
    }
    r
}

// Literals.

/// A stretch of text: a literal or what stands between.
pub struct Stretch {
    pub literal: bool,
    pub text: Seq<char>,
}

/// A stretch, held.
pub struct Segment {
    pub literal: bool,
    pub text: Vec<char>,
}

impl View for Segment {
    type V = Stretch;

    open spec fn view(&self) -> Stretch {
        Stretch { literal: self.literal, text: self.text@ }
    }
}

pub open spec fn stretches(v: Seq<Segment>) -> Seq<Stretch> {
    Seq::new(v.len(), |i: int| v[i]@)
}

pub open spec fn between(s: Seq<char>) -> Seq<Stretch> {
    if s.len() > 0 {
        seq![Stretch { literal: false, text: s }]
    } else {
        Seq::empty()
    }
}

/// `rest` cut at every occurrence of a literal, from the left. An empty
/// literal occurs nowhere.
pub open spec fn cut(rest: Seq<char>, lit: Seq<char>) -> Seq<Stretch>
    decreases rest.len(),
{
    match text::find(rest, lit, 0) {
        Some(p) => if lit.len() > 0 && 0 <= p && p + lit.len() <= rest.len() {
            between(rest.take(p)) + seq![Stretch { literal: true, text: lit }] + cut(
                rest.skip(p + lit.len()),
                lit,
            )
        } else {
            between(rest)
        },
        None => between(rest),
    }
}

/// Every stretch between literals cut at a further literal.
pub open spec fn cut_each(v: Seq<Stretch>, lit: Seq<char>) -> Seq<Stretch>
    decreases v.len(),
{
    if v.len() == 0 {
        Seq::empty()
    } else {
        cut_each(v.drop_last(), lit) + (if v.last().literal {
            seq![v.last()]
        } else {
            cut(v.last().text, lit)
        })
    }
}

/// A text cut at the first `n` literals, one literal after the other.
pub open spec fn cut_at(s: Seq<char>, lits: Seq<(String, u32)>, n: int) -> Seq<Stretch>
    decreases n,
{
    if n <= 0 {
        seq![Stretch { literal: false, text: s }]
    } else {
        cut_each(cut_at(s, lits, n - 1), lits[n - 1].0@)
    }
}

/// The stretches, one after the other.
pub open spec fn laid_out(v: Seq<Stretch>) -> Seq<char>
    decreases v.len(),
{
    if v.len() == 0 {
        Seq::empty()
    } else {
        laid_out(v.drop_last()) + v.last().text
    }
}

pub proof fn lemma_laid_out_concat(a: Seq<Stretch>, b: Seq<Stretch>)
    ensures
        laid_out(a + b) == laid_out(a) + laid_out(b),
    decreases b.len(),
{
    if b.len() == 0 {
        assert(a + b =~= a);
        assert(laid_out(a) + laid_out(b) =~= laid_out(a));
    } else {
        assert((a + b).drop_last() =~= a + b.drop_last());
        lemma_laid_out_concat(a, b.drop_last());
        assert(laid_out(a) + laid_out(b.drop_last()) + b.last().text =~= laid_out(a) + laid_out(
            b,
        ));
    }
}

proof fn lemma_laid_out_one(x: Stretch)
    ensures
        laid_out(seq![x]) == x.text,
{
    assert(seq![x].drop_last() =~= Seq::<Stretch>::empty());
    assert(laid_out(seq![x].drop_last()) + x.text =~= x.text);
}

proof fn lemma_between(s: Seq<char>)
    ensures
        laid_out(between(s)) == s,
{
    if s.len() > 0 {
        lemma_laid_out_one(Stretch { literal: false, text: s });
    } else {
        assert(s =~= Seq::<char>::empty());
    }
}

pub proof fn lemma_cut_covers(rest: Seq<char>, lit: Seq<char>)
    ensures
        laid_out(cut(rest, lit)) == rest,
    decreases rest.len(),
{
    text::lemma_find(rest, lit, 0);
    lemma_between(rest);
    match text::find(rest, lit, 0) {
        Some(p) => {
            if lit.len() > 0 && 0 <= p && p + lit.len() <= rest.len() {
                let a = between(rest.take(p));
                let l = seq![Stretch { literal: true, text: lit }];
                let tail = rest.skip(p + lit.len());
                lemma_between(rest.take(p));
                lemma_laid_out_one(Stretch { literal: true, text: lit });
                lemma_laid_out_concat(a, l);
                lemma_laid_out_concat(a + l, cut(tail, lit));
                lemma_cut_covers(tail, lit);
                assert(rest.take(p) + lit + tail =~= rest);
            }
        },
        None => {},
    }
}

proof fn lemma_cut_each_covers(v: Seq<Stretch>, lit: Seq<char>)
    ensures
        laid_out(cut_each(v, lit)) == laid_out(v),
    decreases v.len(),
{
    if v.len() > 0 {
        lemma_cut_each_covers(v.drop_last(), lit);
        lemma_cut_covers(v.last().text, lit);
        lemma_laid_out_one(v.last());
        let last = if v.last().literal {
            seq![v.last()]
        } else {
            cut(v.last().text, lit)
        };
        lemma_laid_out_concat(cut_each(v.drop_last(), lit), last);
    }
}

/// Cutting a text at literals loses and adds no character.
pub proof fn law_cutting_keeps_the_text(s: Seq<char>, lits: Seq<(String, u32)>, n: int)
    requires
        0 <= n <= lits.len(),
    ensures
        laid_out(cut_at(s, lits, n)) == s,
    decreases n,
{
    if n == 0 {
        lemma_laid_out_one(Stretch { literal: false, text: s });
    } else {
        law_cutting_keeps_the_text(s, lits, n - 1);
        lemma_cut_each_covers(cut_at(s, lits, n - 1), lits[n - 1].0@);
    }
}

/// Every literal stretch is one of the literals.
pub proof fn lemma_literals(s: Seq<char>, lits: Seq<(String, u32)>, n: int, i: int)
    requires
        0 <= n <= lits.len(),
        0 <= i < cut_at(s, lits, n).len(),
        cut_at(s, lits, n)[i].literal,
    ensures
        exists|k: int| 0 <= k < n && cut_at(s, lits, n)[i].text == (#[trigger] lits[k]).0@,
    decreases n,
{
    if n > 0 {
        let v = cut_at(s, lits, n - 1);
        assert forall|j: int|
            0 <= j < v.len() && (#[trigger] v[j]).literal implies exists|k: int|
            0 <= k < n - 1 && v[j].text == (#[trigger] lits[k]).0@ by {
            lemma_literals(s, lits, n - 1, j);
        }
        lemma_literals_each(v, lits, n, i);
    }
}

proof fn lemma_literals_each(v: Seq<Stretch>, lits: Seq<(String, u32)>, n: int, i: int)
    requires
        0 < n <= lits.len(),
        forall|j: int|
            0 <= j < v.len() && (#[trigger] v[j]).literal ==> exists|k: int|
                0 <= k < n - 1 && v[j].text == (#[trigger] lits[k]).0@,
        0 <= i < cut_each(v, lits[n - 1].0@).len(),
        cut_each(v, lits[n - 1].0@)[i].literal,
    ensures
        exists|k: int|
            0 <= k < n && cut_each(v, lits[n - 1].0@)[i].text == (#[trigger] lits[k]).0@,
    decreases v.len(),
{
    if v.len() > 0 {
        let lit = lits[n - 1].0@;
        let head = cut_each(v.drop_last(), lit);
        let w = v.drop_last();
        assert forall|j: int|
            0 <= j < w.len() && (#[trigger] w[j]).literal implies exists|k: int|
            0 <= k < n - 1 && w[j].text == (#[trigger] lits[k]).0@ by {
            assert(v[j] == w[j]);
        }
        if i < head.len() {
            lemma_literals_each(w, lits, n, i);
        } else if v.last().literal {
            assert(v[v.len() - 1].literal);
            assert(cut_each(v, lit)[i] == v.last());
        } else {
            lemma_cut_literal(v.last().text, lit, i - head.len());
            assert(cut_each(v, lit)[i] == cut(v.last().text, lit)[i - head.len()]);
            assert(cut_each(v, lit)[i].text == lits[n - 1].0@);
        }
    }
}

proof fn lemma_cut_literal(rest: Seq<char>, lit: Seq<char>, i: int)
    requires
        0 <= i < cut(rest, lit).len(),
        cut(rest, lit)[i].literal,
    ensures
        cut(rest, lit)[i].text == lit,
    decreases rest.len(),
{
    match text::find(rest, lit, 0) {
        Some(p) => {
            if lit.len() > 0 && 0 <= p && p + lit.len() <= rest.len() {
                let a = between(rest.take(p));
                let tail = rest.skip(p + lit.len());
                if i > a.len() {
                    lemma_cut_literal(tail, lit, i - a.len() - 1);
                }
            }
        },
        None => {},
    }
}

fn push_cut(s: Vec<char>, lit: &Vec<char>, out: &mut Vec<Segment>)
    ensures
        stretches(final(out)@) == stretches(old(out)@) + cut(s@, lit@),
{
    let n: usize = s.len();
    let ghost out0 = stretches(out@);
    let mut from: usize = 0;
    assert(s@.skip(0) =~= s@);
    assert(stretches(out@) =~= out0 + Seq::<Stretch>::empty());
    let ghost want = out0 + cut(s@, lit@);
    while lit.len() > 0
        invariant
            from <= n,
            n == s@.len(),
            want == stretches(out@) + cut(s@.skip(from as int), lit@),
        ensures
            from <= n,
            want == stretches(out@) + between(s@.skip(from as int)),
        decreases n - from,
    {
        let rest: Vec<char> = part(&s, from, n);
        assert(rest@ =~= s@.skip(from as int));
        match text::find_from(&rest, lit, 0) {
            None => {
                break ;
            },
            Some(p) => {
                let ghost before = stretches(out@);
                let ghost a = between(rest@.take(p as int));
                let ghost l = seq![Stretch { literal: true, text: lit@ }];
                let ghost tail = cut(rest@.skip(p + lit@.len()), lit@);
                if p > 0 {
                    let head: Vec<char> = part(&rest, 0, p);
                    assert(head@ =~= rest@.take(p as int));
                    out.push(Segment { literal: false, text: head });
                    assert(stretches(out@) =~= before + a);
                } else {
                    assert(stretches(out@) =~= before + a);
                }
                let lc: Vec<char> = part(lit, 0, lit.len());
                assert(lc@ =~= lit@);
                out.push(Segment { literal: true, text: lc });
                proof {
                    assert(stretches(out@) =~= before + a + l);
                    assert(rest@.skip(p + lit@.len()) =~= s@.skip(from + p + lit@.len()));
                    assert(before + (a + l + tail) =~= before + a + l + tail);
                }
                from = from + p + lit.len();
            },
        }
    }
    proof {
        if lit@.len() == 0 {
            assert(cut(s@.skip(from as int), lit@) == between(s@.skip(from as int)));
        }
    }
    if from < n {
        let ghost before = stretches(out@);
        let t: Vec<char> = part(&s, from, n);
        assert(t@ =~= s@.skip(from as int));
        out.push(Segment { literal: false, text: t });
        assert(stretches(out@) =~= before + between(s@.skip(from as int)));
    } else {
        assert(stretches(out@) =~= stretches(out@) + between(s@.skip(from as int)));
    }
}

/// A text cut at the literals.
pub fn segments(s: &Vec<char>, lits: &Vec<(String, u32)>) -> (r: Vec<Segment>)
    ensures
        stretches(r@) == cut_at(s@, lits@, lits@.len() as int),
{
    let whole: Vec<char> = part(s, 0, s.len());
    assert(whole@ =~= s@);
    let mut v: Vec<Segment> = Vec::new();
    v.push(Segment { literal: false, text: whole });
    assert(stretches(v@) =~= seq![Stretch { literal: false, text: s@ }]);
    let mut n: usize = 0;
    while n < lits.len()
        invariant
            n <= lits@.len(),
            stretches(v@) == cut_at(s@, lits@, n as int),
        decreases lits@.len() - n,
    {
        let lit: Vec<char> = text::to_chars(lits[n].0.as_str());
        let mut next: Vec<Segment> = Vec::new();
        let ghost vs = stretches(v@);
        assert(stretches(next@) =~= Seq::<Stretch>::empty());
        let mut k: usize = 0;
        assert(vs.take(0) =~= Seq::<Stretch>::empty());
        while k < v.len()
            invariant
                k <= v@.len(),
                vs == stretches(v@),
                stretches(next@) == cut_each(vs.take(k as int), lit@),
            decreases v@.len() - k,
        {
            let ghost before = stretches(next@);
            proof {
                assert(vs.take(k + 1).drop_last() =~= vs.take(k as int));
                assert(vs.take(k + 1).last() == v@[k as int]@);
            }
            let t: Vec<char> = part(&v[k].text, 0, v[k].text.len());
            assert(t@ =~= v@[k as int].text@);
            if v[k].literal {
                next.push(Segment { literal: true, text: t });
                assert(stretches(next@) =~= before + seq![v@[k as int]@]);
            } else {
                push_cut(t, &lit, &mut next);
            }
            k = k + 1;
        }
        assert(vs.take(k as int) =~= vs);
        v = next;
        n = n + 1;
    }
    v
}

} // verus!
