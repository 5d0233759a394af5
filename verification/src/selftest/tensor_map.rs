//! Which tensor is which: two checkpoints matched by what their tensors hold.
use vstd::prelude::*;

use crate::ieee::Format;
use crate::num;
use crate::num::{bf16_to_f32, f16_to_f32, read_le16, read_le32};
use crate::quant::gguf;
use crate::tensor;
use crate::tensor::{DType, TensorMeta};
use crate::text;
use crate::tokenizer::split::part;
use crate::weights::LoadedWeights;

verus! {

/// Elements past which a tensor is not compared.
pub const MAX_ELEMS: usize = 33_554_432;

/// Doubles: 1e-30, 1, -1 and 0.02.
pub const TINY: u64 = 0x39b4_484b_feeb_c2a0;

pub const UNIT: u64 = 0x3ff0_0000_0000_0000;

pub const MINUS_UNIT: u64 = 0xbff0_0000_0000_0000;

pub const SLACK: u64 = 0x3f94_7ae1_47ae_147b;

// Names.

/// What stands before the first point.
pub open spec fn before_point(s: Seq<char>) -> Seq<char> {
    match text::find(s, seq!['.'], 0) {
        Some(p) => s.take(p),
        None => s,
    }
}

/// The layer that a name speaks of, as it is written.
pub open spec fn layer_of(k: Seq<char>) -> Option<Seq<char>> {
    match text::find(k, "layers."@, 0) {
        Some(i) => Some(before_point(k.skip(i + 7))),
        None => None,
    }
}

/// Ranges that were recorded for calibration.
pub open spec fn is_stat(k: Seq<char>) -> bool {
    text::ends(k, ".input_min"@) || text::ends(k, ".input_max"@) || text::ends(k, ".output_min"@)
        || text::ends(k, ".output_max"@)
}

/// A name without its leading `model.`.
pub open spec fn canonical(k: Seq<char>) -> Seq<char> {
    if text::starts(k, "model."@) {
        k.skip(6)
    } else {
        k
    }
}

/// A tensor that is looked at: one whose name holds the prefix, or one of the
/// audio tower.
pub open spec fn is_audio(k: Seq<char>, prefix: Option<Seq<char>>) -> bool {
    match prefix {
        Some(p) => text::has(canonical(k), p),
        None => text::starts(canonical(k), "audio_tower."@) || text::starts(
            canonical(k),
            "embed_audio."@,
        ),
    }
}

fn layer(k: &str) -> (r: Option<String>)
    ensures
        match r {
            Some(s) => layer_of(k@) == Some(s@),
            None => layer_of(k@) is None,
        },
{
    let v: Vec<char> = text::to_chars(k);
    let n: usize = v.len();
    let l: Vec<char> = text::to_chars("layers.");
    proof {
        reveal_strlit("layers.");
    }
    match text::find_from(&v, &l, 0) {
        None => None,
        Some(i) => {
            let rest: Vec<char> = part(&v, i + 7, n);
            assert(rest@ =~= k@.skip(i + 7));
            let mut dot: Vec<char> = Vec::new();
            dot.push('.');
            assert(dot@ =~= seq!['.']);
            match text::find_from(&rest, &dot, 0) {
                Some(p) => {
                    let s: String = text::to_string_range(&rest, 0, p);
                    assert(s@ =~= rest@.take(p as int));
                    Some(s)
                },
                None => Some(text::to_string(&rest)),
            }
        },
    }
}

pub(crate) fn stat(k: &str) -> (r: bool)
    ensures
        r == is_stat(k@),
{
    text::ends_with(k, ".input_min") || text::ends_with(k, ".input_max") || text::ends_with(
        k,
        ".output_min",
    ) || text::ends_with(k, ".output_max")
}

fn bare(k: &str) -> (r: String)
    ensures
        r@ == canonical(k@),
{
    if text::starts_with(k, "model.") {
        let v: Vec<char> = text::to_chars(k);
        proof {
            reveal_strlit("model.");
        }
        let s: String = text::to_string_range(&v, 6, v.len());
        assert(s@ =~= k@.skip(6));
        s
    } else {
        k.to_owned()
    }
}

pub open spec fn chars_of(s: Option<&str>) -> Option<Seq<char>> {
    match s {
        Some(t) => Some(t@),
        None => None,
    }
}

fn looked_at(k: &str, prefix: Option<&str>) -> (r: bool)
    ensures
        r == is_audio(k@, chars_of(prefix)),
{
    let c: String = bare(k);
    match prefix {
        Some(p) => text::contains(c.as_str(), p),
        None => text::starts_with(c.as_str(), "audio_tower.") || text::starts_with(
            c.as_str(),
            "embed_audio.",
        ),
    }
}

fn same_layer(a: &Option<String>, b: &Option<String>) -> (r: bool)
    ensures
        r == (match (*a, *b) {
            (Some(x), Some(y)) => x@ == y@,
            (None, None) => true,
            _ => false,
        }),
{
    match a {
        Some(x) => match b {
            Some(y) => text::same(x.as_str(), y.as_str()),
            None => false,
        },
        None => b.is_none(),
    }
}

// Values.

/// The elements of a tensor in single precision; `None` where the encoding
/// has no decoder or the bytes fall short of its blocks.
pub open spec fn floats_of(m: TensorMeta, b: Seq<u8>) -> Option<Seq<u32>> {
    match m.dtype {
        DType::F32 => Some(Seq::new(b.len() / 4, |i: int| num::le32(b, 4 * i) as u32)),
        DType::F16 => Some(
            Seq::new(
                b.len() / 2,
                |i: int| Format::F16.convert(Format::F32, num::le16(b, 2 * i)) as u32,
            ),
        ),
        DType::BF16 => Some(
            Seq::new(b.len() / 2, |i: int| (num::le16(b, 2 * i) * 0x1_0000) as u32),
        ),
        DType::U8 => None,
        dt => if gguf::fits(dt, b.len() as int, m.count()) {
            Some(
                Seq::new(
                    m.count() as nat,
                    |i: int|
                        Format::F16.convert(
                            Format::F32,
                            gguf::element(
                                dt,
                                gguf::block(dt, b, i / tensor::grain(dt)),
                                i % tensor::grain(dt),
                            ),
                        ) as u32,
                ),
            )
        } else {
            None
        },
    }
}

fn halves(b: &[u8], wide: bool) -> (r: Vec<u32>)
    ensures
        r@ == Seq::new(
            b@.len() / 2,
            |i: int|
                if wide {
                    (num::le16(b@, 2 * i) * 0x1_0000) as u32
                } else {
                    Format::F16.convert(Format::F32, num::le16(b@, 2 * i)) as u32
                },
        ),
{
    let n: usize = b.len() / 2;
    let mut r: Vec<u32> = Vec::new();
    let mut i: usize = 0;
    while i < n
        invariant
            i <= n,
            n == b@.len() / 2,
            r@ =~= Seq::new(
                i as nat,
                |i: int|
                    if wide {
                        (num::le16(b@, 2 * i) * 0x1_0000) as u32
                    } else {
                        Format::F16.convert(Format::F32, num::le16(b@, 2 * i)) as u32
                    },
            ),
        decreases n - i,
    {
        assert(b.len() == b@.len());
        let h: u16 = read_le16(b, 2 * i);
        r.push(if wide {
            bf16_to_f32(h)
        } else {
            f16_to_f32(h)
        });
        i = i + 1;
    }
    r
}

fn floats(m: &TensorMeta, b: &[u8]) -> (r: Option<Vec<u32>>)
    requires
        m.countable(),
    ensures
        match r {
            Some(v) => floats_of(*m, b@) == Some(v@),
            None => floats_of(*m, b@) is None,
        },
{
    match m.dtype {
        DType::F32 => {
            let n: usize = b.len() / 4;
            let mut r: Vec<u32> = Vec::new();
            let mut i: usize = 0;
            while i < n
                invariant
                    i <= n,
                    n == b@.len() / 4,
                    r@ =~= Seq::new(i as nat, |i: int| num::le32(b@, 4 * i) as u32),
                decreases n - i,
            {
                assert(b.len() == b@.len());
                r.push(read_le32(b, 4 * i));
                i = i + 1;
            }
            Some(r)
        },
        DType::F16 => {
            let r: Vec<u32> = halves(b, false);
            assert(floats_of(*m, b@)->0 =~= r@);
            Some(r)
        },
        DType::BF16 => {
            let r: Vec<u32> = halves(b, true);
            assert(floats_of(*m, b@)->0 =~= r@);
            Some(r)
        },
        DType::U8 => None,
        _ => {
            let n: usize = m.numel();
            let mut h: Vec<u16> = Vec::new();
            let mut i: usize = 0;
            while i < n
                invariant
                    i <= n,
                    h@.len() == i,
                decreases n - i,
            {
                h.push(0);
                i = i + 1;
            }
            match gguf::dequant_host(m.dtype, b, n, h.as_mut_slice()) {
                Err(_) => None,
                Ok(()) => {
                    let ghost want = floats_of(*m, b@)->0;
                    let mut r: Vec<u32> = Vec::new();
                    let mut k: usize = 0;
                    while k < n
                        invariant
                            k <= n,
                            n == want.len(),
                            h@.len() == n,
                            forall|i: int|
                                0 <= i < n ==> want[i] == Format::F16.convert(
                                    Format::F32,
                                    #[trigger] h@[i] as int,
                                ) as u32,
                            r@ =~= want.take(k as int),
                        decreases n - k,
                    {
                        r.push(f16_to_f32(h[k]));
                        k = k + 1;
                    }
                    assert(r@ =~= want);
                    Some(r)
                },
            }
        },
    }
}

pub open spec fn wide(b: u32) -> int {
    Format::F32.convert(Format::F64, b as int)
}

/// The first `n` products, added up.
pub open spec fn inner(a: Seq<u32>, b: Seq<u32>, n: int) -> int
    decreases n,
{
    if n <= 0 {
        0
    } else {
        Format::F64.sum(
            inner(a, b, n - 1),
            Format::F64.product(wide(a[n - 1]), wide(b[n - 1])),
        )
    }
}

pub open spec fn at_least_tiny(x: int) -> int {
    if Format::F64.is_nan(x) || Format::F64.less(x, TINY as int) {
        TINY as int
    } else {
        x
    }
}

/// How alike two tensors are: the cosine between them, and the ratio of
/// their norms. A cosine alone does not see a wrong scale.
#[derive(Clone, Copy, PartialEq, Eq, Debug, Structural)]
pub struct Likeness {
    pub cosine: u64,
    pub ratio: u64,
}

/// Elements that both have.
pub open spec fn shared(a: Seq<u32>, b: Seq<u32>) -> int {
    if a.len() <= b.len() {
        a.len() as int
    } else {
        b.len() as int
    }
}

pub open spec fn likeness(a: Seq<u32>, b: Seq<u32>) -> Likeness {
    let n = shared(a, b);
    let na = Format::F64.root(inner(a, a, n));
    let nb = Format::F64.root(inner(b, b, n));
    Likeness {
        cosine: Format::F64.quotient(
            inner(a, b, n),
            at_least_tiny(Format::F64.product(na, nb)),
        ) as u64,
        ratio: Format::F64.quotient(na, at_least_tiny(nb)) as u64,
    }
}

fn floor_tiny(x: u64) -> (r: u64)
    ensures
        r == at_least_tiny(x as int),
{
    if Format::F64.nan_pattern(x) || Format::F64.lt(x, TINY) {
        TINY
    } else {
        x
    }
}

/// Compare two tensors.
pub fn compare(a: &Vec<u32>, b: &Vec<u32>) -> (r: Likeness)
    ensures
        r == likeness(a@, b@),
{
    let n: usize = if a.len() <= b.len() {
        a.len()
    } else {
        b.len()
    };
    let mut dot: u64 = 0;
    let mut na: u64 = 0;
    let mut nb: u64 = 0;
    let mut i: usize = 0;
    while i < n
        invariant
            i <= n,
            n == shared(a@, b@),
            dot == inner(a@, b@, i as int),
            na == inner(a@, a@, i as int),
            nb == inner(b@, b@, i as int),
        decreases n - i,
    {
        let x: u64 = Format::F32.to_format(Format::F64, a[i] as u64);
        let y: u64 = Format::F32.to_format(Format::F64, b[i] as u64);
        dot = Format::F64.plus(dot, Format::F64.multiply(x, y));
        na = Format::F64.plus(na, Format::F64.multiply(x, x));
        nb = Format::F64.plus(nb, Format::F64.multiply(y, y));
        i = i + 1;
    }
    let ra: u64 = Format::F64.square_root(na);
    let rb: u64 = Format::F64.square_root(nb);
    Likeness {
        cosine: Format::F64.divide(dot, floor_tiny(Format::F64.multiply(ra, rb))),
        ratio: Format::F64.divide(ra, floor_tiny(rb)),
    }
}

// Matching.

/// A tensor of the other checkpoint that could be this one: of the same layer
/// and size.
pub open spec fn is_candidate(
    g: TensorMeta,
    m: TensorMeta,
    prefix: Option<Seq<char>>,
) -> bool {
    is_audio(m.name@, prefix) && layer_of(m.name@) == layer_of(g.name@) && m.count() == g.count()
}

/// Some of the first `n` tensors is a candidate.
pub open spec fn some_candidate(
    g: TensorMeta,
    st: &LoadedWeights,
    prefix: Option<Seq<char>>,
    n: int,
) -> bool
    decreases n,
{
    0 < n && (is_candidate(g, st.metas@[n - 1], prefix) || some_candidate(g, st, prefix, n - 1))
}

/// The best match among the first `n` tensors, and the cosine of the next
/// best, if there is another. Of equals the first.
pub struct Best {
    pub at: int,
    pub like: Likeness,
    pub second: Option<int>,
}

/// The cosine that the best is held against: the next best, or minus one.
pub open spec fn next_best(b: Best) -> int {
    match b.second {
        Some(c) => c,
        None => MINUS_UNIT as int,
    }
}

pub open spec fn best_of(
    g: TensorMeta,
    gv: Seq<u32>,
    st: &LoadedWeights,
    prefix: Option<Seq<char>>,
    n: int,
) -> Option<Best>
    decreases n,
{
    if n <= 0 {
        None
    } else {
        let b = best_of(g, gv, st, prefix, n - 1);
        let m = st.metas@[n - 1];
        let v = floats_of(m, st.data@[n - 1]@);
        if !is_candidate(g, m, prefix) || v is None {
            b
        } else {
            let l = likeness(gv, v->0);
            match b {
                None => Some(Best { at: n - 1, like: l, second: None }),
                Some(b) => if Format::F64.less(b.like.cosine as int, l.cosine as int) {
                    Some(Best { at: n - 1, like: l, second: Some(b.like.cosine as int) })
                } else if b.second is None || Format::F64.less(b.second->0, l.cosine as int) {
                    Some(Best { second: Some(l.cosine as int), ..b })
                } else {
                    Some(b)
                },
            }
        }
    }
}

/// What a match says of a tensor's name.
#[derive(Clone, Copy, PartialEq, Eq, Debug, Structural)]
pub enum Mark {
    Same,
    Renamed,
    /// The norms differ by more than a fiftieth.
    Scale,
}

/// What is found out about a tensor.
#[derive(Clone, Copy, PartialEq, Eq, Debug, Structural)]
pub enum Row {
    NoCandidate,
    TooLarge,
    /// The tensor cannot be decoded.
    Skipped,
    /// No candidate can be decoded.
    Undecodable,
    Match { at: usize, like: Likeness, margin: u64, mark: Mark },
}

/// The mark of a match.
pub open spec fn mark_of(name: Seq<char>, found: Seq<char>, ratio: int) -> Mark {
    if Format::F64.less(
        SLACK as int,
        Format::F64.mag(Format::F64.difference(ratio, UNIT as int)),
    ) {
        Mark::Scale
    } else if canonical(found) == name {
        Mark::Same
    } else {
        Mark::Renamed
    }
}

/// What is found out about tensor `i` of the first checkpoint.
pub open spec fn row_of(
    gw: &LoadedWeights,
    st: &LoadedWeights,
    prefix: Option<Seq<char>>,
    i: int,
) -> Row {
    let g = gw.metas@[i];
    let n = st.metas@.len() as int;
    let gv = floats_of(g, gw.data@[i]@);
    if !some_candidate(g, st, prefix, n) {
        Row::NoCandidate
    } else if g.count() > MAX_ELEMS {
        Row::TooLarge
    } else if gv is None {
        Row::Skipped
    } else {
        match best_of(g, gv->0, st, prefix, n) {
            None => Row::Undecodable,
            Some(b) => Row::Match {
                at: b.at as usize,
                like: b.like,
                margin: Format::F64.difference(b.like.cosine as int, next_best(b)) as u64,
                mark: mark_of(g.name@, st.metas@[b.at].name@, b.like.ratio as int),
            },
        }
    }
}

pub open spec fn countable(w: &LoadedWeights) -> bool {
    forall|i: int| 0 <= i < w.metas@.len() ==> (#[trigger] w.metas@[i]).countable()
}

fn candidate(g: &TensorMeta, m: &TensorMeta, prefix: Option<&str>) -> (r: bool)
    requires
        g.countable(),
        m.countable(),
    ensures
        r == is_candidate(*g, *m, chars_of(prefix)),
{
    looked_at(m.name.as_str(), prefix) && same_layer(
        &layer(m.name.as_str()),
        &layer(g.name.as_str()),
    ) && m.numel() == g.numel()
}

fn any_candidate(g: &TensorMeta, st: &LoadedWeights, prefix: Option<&str>) -> (r: bool)
    requires
        g.countable(),
        countable(st),
    ensures
        r == some_candidate(*g, st, chars_of(prefix), st.metas@.len() as int),
{
    let mut any: bool = false;
    let mut k: usize = 0;
    while k < st.metas.len()
        invariant
            k <= st.metas@.len(),
            countable(st),
            g.countable(),
            any == some_candidate(*g, st, chars_of(prefix), k as int),
        decreases st.metas@.len() - k,
    {
        assert(st.metas@[k as int].countable());
        if candidate(g, &st.metas[k], prefix) {
            any = true;
        }
        k = k + 1;
    }
    any
}

/// A match so far: where it is, how alike it is, and the next best cosine.
struct Found {
    at: usize,
    like: Likeness,
    second: Option<u64>,
}

spec fn found_of(f: Option<Found>) -> Option<Best> {
    match f {
        None => None,
        Some(f) => Some(
            Best {
                at: f.at as int,
                like: f.like,
                second: match f.second {
                    Some(c) => Some(c as int),
                    None => None,
                },
            },
        ),
    }
}

fn better(f: Option<Found>, at: usize, l: Likeness) -> (r: Option<Found>)
    ensures
        found_of(r) == (match found_of(f) {
            None => Some(Best { at: at as int, like: l, second: None }),
            Some(b) => if Format::F64.less(b.like.cosine as int, l.cosine as int) {
                Some(Best { at: at as int, like: l, second: Some(b.like.cosine as int) })
            } else if b.second is None || Format::F64.less(b.second->0, l.cosine as int) {
                Some(Best { second: Some(l.cosine as int), ..b })
            } else {
                Some(b)
            },
        }),
        r is Some,
        f is Some && f->0.at < at ==> r->0.at <= at,
        f is None ==> r->0.at == at,
{
    match f {
        None => Some(Found { at, like: l, second: None }),
        Some(b) => {
            if Format::F64.lt(b.like.cosine, l.cosine) {
                return Some(Found { at, like: l, second: Some(b.like.cosine) });
            }
            let closer: bool = match b.second {
                Some(c) => Format::F64.lt(c, l.cosine),
                None => true,
            };
            if closer {
                Some(Found { at: b.at, like: b.like, second: Some(l.cosine) })
            } else {
                Some(b)
            }
        },
    }
}

fn best_match(g: &TensorMeta, gv: &Vec<u32>, st: &LoadedWeights, prefix: Option<&str>) -> (r: Option<
    Found,
>)
    requires
        g.countable(),
        st.wf(),
        countable(st),
    ensures
        found_of(r) == best_of(*g, gv@, st, chars_of(prefix), st.metas@.len() as int),
        r matches Some(f) ==> f.at < st.metas@.len(),
{
    let mut f: Option<Found> = None;
    let mut c: usize = 0;
    while c < st.metas.len()
        invariant
            c <= st.metas@.len(),
            st.wf(),
            countable(st),
            g.countable(),
            found_of(f) == best_of(*g, gv@, st, chars_of(prefix), c as int),
            f matches Some(b) ==> b.at < c,
        decreases st.metas@.len() - c,
    {
        assert(st.metas@[c as int].countable());
        if candidate(g, &st.metas[c], prefix) {
            if let Some(v) = floats(&st.metas[c], st.data[c]) {
                f = better(f, c, compare(gv, &v));
            }
        }
        c = c + 1;
    }
    f
}

fn mark(name: &str, found: &str, ratio: u64) -> (r: Mark)
    ensures
        r == mark_of(name@, found@, ratio as int),
{
    let off: u64 = Format::F64.magnitude(Format::F64.minus(ratio, UNIT));
    if Format::F64.lt(SLACK, off) {
        Mark::Scale
    } else if text::same(bare(found).as_str(), name) {
        Mark::Same
    } else {
        Mark::Renamed
    }
}

fn find_row(gw: &LoadedWeights, st: &LoadedWeights, prefix: Option<&str>, i: usize) -> (r: Row)
    requires
        gw.wf(),
        st.wf(),
        countable(gw),
        countable(st),
        i < gw.metas@.len(),
    ensures
        r == row_of(gw, st, chars_of(prefix), i as int),
{
    let g: &TensorMeta = &gw.metas[i];
    assert(gw.metas@[i as int].countable());
    if !any_candidate(g, st, prefix) {
        return Row::NoCandidate;
    }
    if g.numel() > MAX_ELEMS {
        return Row::TooLarge;
    }
    let gv: Vec<u32> = match floats(g, gw.data[i]) {
        None => {
            return Row::Skipped;
        },
        Some(v) => v,
    };
    match best_match(g, &gv, st, prefix) {
        None => Row::Undecodable,
        Some(f) => {
            let next: u64 = match f.second {
                Some(c) => c,
                None => MINUS_UNIT,
            };
            Row::Match {
                at: f.at,
                like: f.like,
                margin: Format::F64.minus(f.like.cosine, next),
                mark: mark(g.name.as_str(), st.metas[f.at].name.as_str(), f.like.ratio),
            }
        },
    }
}

// Order.

/// `a` stands before `b` in the dictionary.
pub open spec fn earlier(a: Seq<char>, b: Seq<char>) -> bool
    decreases a.len(),
{
    if b.len() == 0 {
        false
    } else if a.len() == 0 {
        true
    } else if a[0] != b[0] {
        a[0] < b[0]
    } else {
        earlier(a.skip(1), b.skip(1))
    }
}

fn is_earlier(a: &Vec<char>, b: &Vec<char>) -> (r: bool)
    ensures
        r == earlier(a@, b@),
{
    let mut i: usize = 0;
    assert(a@.skip(0) =~= a@);
    assert(b@.skip(0) =~= b@);
    while i < a.len() && i < b.len()
        invariant
            i <= a@.len(),
            i <= b@.len(),
            earlier(a@, b@) == earlier(a@.skip(i as int), b@.skip(i as int)),
        decreases a@.len() - i,
    {
        assert(a@.skip(i as int)[0] == a@[i as int]);
        assert(b@.skip(i as int)[0] == b@[i as int]);
        if a[i] != b[i] {
            return a[i] < b[i];
        }
        assert(a@.skip(i as int).skip(1) =~= a@.skip(i + 1));
        assert(b@.skip(i as int).skip(1) =~= b@.skip(i + 1));
        i = i + 1;
    }
    i < b.len()
}

/// Where tensor `x` goes: after all that are not after it, from `i` on.
pub open spec fn slot(w: &LoadedWeights, v: Seq<usize>, x: usize, i: int) -> int
    decreases v.len() - i,
{
    if 0 <= i < v.len() && !earlier(w.metas@[x as int].name@, w.metas@[v[i] as int].name@) {
        slot(w, v, x, i + 1)
    } else {
        i
    }
}

/// Of the first `n` tensors those that are chosen, by name.
pub open spec fn by_name(w: &LoadedWeights, chosen: spec_fn(int) -> bool, n: int) -> Seq<usize>
    decreases n,
{
    if n <= 0 {
        Seq::empty()
    } else {
        let v = by_name(w, chosen, n - 1);
        if chosen(n - 1) {
            v.insert(slot(w, v, (n - 1) as usize, 0), (n - 1) as usize)
        } else {
            v
        }
    }
}

pub(crate) fn put_by_name(w: &LoadedWeights, v: &mut Vec<usize>, x: usize)
    requires
        x < w.metas@.len(),
        forall|i: int| 0 <= i < old(v)@.len() ==> (#[trigger] old(v)@[i]) < x,
    ensures
        final(v)@ == old(v)@.insert(slot(w, old(v)@, x, 0), x),
        forall|i: int| 0 <= i < final(v)@.len() ==> (#[trigger] final(v)@[i]) <= x,
{
    let name: Vec<char> = text::to_chars(w.metas[x].name.as_str());
    let mut p: usize = 0;
    let n: usize = v.len();
    while p < n
        invariant
            p <= n,
            n == v@.len(),
            v@ == old(v)@,
            x < w.metas@.len(),
            name@ == w.metas@[x as int].name@,
            forall|i: int| 0 <= i < v@.len() ==> (#[trigger] v@[i]) < x,
            slot(w, v@, x, 0) == slot(w, v@, x, p as int),
        decreases n - p,
    {
        assert(v@[p as int] < x);
        let other: Vec<char> = text::to_chars(w.metas[v[p]].name.as_str());
        if is_earlier(&name, &other) {
            v.insert(p, x);
            return;
        }
        p = p + 1;
    }
    v.insert(p, x);
}

/// Not one of the tensors that were matched.
pub open spec fn unmatched(rows: Seq<Row>, k: int) -> bool {
    forall|i: int|
        0 <= i < rows.len() ==> !(#[trigger] rows[i] is Match && rows[i]->at as int == k)
}

/// How many of the first `n` rows ask for a correction.
pub open spec fn corrections(rows: Seq<Row>, n: int) -> int
    decreases n,
{
    if n <= 0 {
        0
    } else {
        corrections(rows, n - 1) + (if rows[n - 1] is Match && rows[n - 1]->mark != Mark::Same {
            1int
        } else {
            0int
        })
    }
}

/// The audit of a checkpoint against another.
pub struct MapReport {
    /// Tensors of the first, by name, and what was found out about each.
    pub order: Vec<usize>,
    pub rows: Vec<Row>,
    pub corrections: usize,
    /// Tensors of the other that nothing was matched with, by name.
    pub orphans: Vec<usize>,
}

/// Match every tensor of one checkpoint with the other's, and list what of
/// the other was matched by nothing. `None` where the other has no tensor to
/// match.
pub fn run_tensor_map(gw: &LoadedWeights, st: &LoadedWeights, prefix: Option<&str>) -> (r: Option<
    MapReport,
>)
    requires
        gw.wf(),
        st.wf(),
        countable(gw),
        countable(st),
    ensures
        (r is None) == (forall|k: int|
            0 <= k < st.metas@.len() ==> !is_audio(
                (#[trigger] st.metas@[k]).name@,
                chars_of(prefix),
            )),
        r matches Some(p) ==> {
            &&& p.order@ == by_name(
                gw,
                |k: int|
                    is_audio(gw.metas@[k].name@, chars_of(prefix)) && !is_stat(gw.metas@[k].name@),
                gw.metas@.len() as int,
            )
            &&& p.rows@ == Seq::new(
                p.order@.len(),
                |k: int| row_of(gw, st, chars_of(prefix), p.order@[k] as int),
            )
            &&& p.corrections == corrections(p.rows@, p.rows@.len() as int)
            &&& p.orphans@ == by_name(
                st,
                |k: int|
                    is_audio(st.metas@[k].name@, chars_of(prefix)) && unmatched(p.rows@, k),
                st.metas@.len() as int,
            )
        },
{
    let ghost px = chars_of(prefix);
    let mut any: bool = false;
    let mut k: usize = 0;
    while k < st.metas.len()
        invariant
            k <= st.metas@.len(),
            px == chars_of(prefix),
            any == exists|i: int| 0 <= i < k && is_audio((#[trigger] st.metas@[i]).name@, px),
        decreases st.metas@.len() - k,
    {
        if looked_at(st.metas[k].name.as_str(), prefix) {
            assert(is_audio(st.metas@[k as int].name@, px));
            any = true;
        }
        k = k + 1;
    }
    if !any {
        return None;
    }
    let ghost want = |k: int| is_audio(gw.metas@[k].name@, px) && !is_stat(gw.metas@[k].name@);
    let mut order: Vec<usize> = Vec::new();
    let mut i: usize = 0;
    while i < gw.metas.len()
        invariant
            i <= gw.metas@.len(),
            px == chars_of(prefix),
            want == |k: int| is_audio(gw.metas@[k].name@, px) && !is_stat(gw.metas@[k].name@),
            forall|m: int| 0 <= m < order@.len() ==> (#[trigger] order@[m]) < i,
            order@ == by_name(gw, want, i as int),
        decreases gw.metas@.len() - i,
    {
        let name: &str = gw.metas[i].name.as_str();
        if looked_at(name, prefix) && !stat(name) {
            assert(want(i as int));
            put_by_name(gw, &mut order, i);
        } else {
            assert(!want(i as int));
        }
        i = i + 1;
    }
    let mut rows: Vec<Row> = Vec::new();
    let mut fixes: usize = 0;
    let mut j: usize = 0;
    while j < order.len()
        invariant
            j <= order@.len(),
            gw.wf(),
            st.wf(),
            countable(gw),
            countable(st),
            px == chars_of(prefix),
            forall|m: int| 0 <= m < order@.len() ==> (#[trigger] order@[m]) < gw.metas@.len(),
            rows@ =~= Seq::new(j as nat, |k: int| row_of(gw, st, px, order@[k] as int)),
            fixes <= j,
            fixes == corrections(rows@, j as int),
        decreases order@.len() - j,
    {
        assert(order@[j as int] < gw.metas@.len());
        let row: Row = find_row(gw, st, prefix, order[j]);
        let ghost before = rows@;
        rows.push(row);
        proof {
            lemma_corrections_prefix(before, rows@, j as int);
        }
        match row {
            Row::Match { mark, .. } => match mark {
                Mark::Same => {},
                _ => {
                    fixes = fixes + 1;
                },
            },
            _ => {},
        }
        j = j + 1;
    }
    let ghost lost = |k: int| is_audio(st.metas@[k].name@, px) && unmatched(rows@, k);
    let mut orphans: Vec<usize> = Vec::new();
    let mut o: usize = 0;
    while o < st.metas.len()
        invariant
            o <= st.metas@.len(),
            px == chars_of(prefix),
            lost == |k: int| is_audio(st.metas@[k].name@, px) && unmatched(rows@, k),
            forall|m: int| 0 <= m < orphans@.len() ==> (#[trigger] orphans@[m]) < o,
            orphans@ == by_name(st, lost, o as int),
        decreases st.metas@.len() - o,
    {
        if looked_at(st.metas[o].name.as_str(), prefix) && is_unmatched(&rows, o) {
            assert(lost(o as int));
            put_by_name(st, &mut orphans, o);
        } else {
            assert(!lost(o as int));
        }
        o = o + 1;
    }
    proof {
        let w2 = |k: int|
            is_audio(gw.metas@[k].name@, chars_of(prefix)) && !is_stat(gw.metas@[k].name@);
        assert(w2 =~= want);
        let l2 = |k: int| is_audio(st.metas@[k].name@, chars_of(prefix)) && unmatched(rows@, k);
        assert(l2 =~= lost);
    }
    Some(MapReport { order, rows, corrections: fixes, orphans })
}

fn is_unmatched(rows: &Vec<Row>, k: usize) -> (r: bool)
    ensures
        r == unmatched(rows@, k as int),
{
    let mut i: usize = 0;
    while i < rows.len()
        invariant
            i <= rows@.len(),
            forall|m: int|
                0 <= m < i ==> !(#[trigger] rows@[m] is Match && rows@[m]->at as int == k),
        decreases rows@.len() - i,
    {
        match rows[i] {
            Row::Match { at, .. } => {
                if at == k {
                    assert(rows@[i as int] is Match && rows@[i as int]->at as int == k);
                    return false;
                }
            },
            _ => {},
        }
        i = i + 1;
    }
    true
}

proof fn lemma_corrections_prefix(a: Seq<Row>, b: Seq<Row>, n: int)
    requires
        0 <= n <= a.len() <= b.len(),
        forall|i: int| 0 <= i < n ==> a[i] == b[i],
    ensures
        corrections(a, n) == corrections(b, n),
    decreases n,
{
    if n > 0 {
        lemma_corrections_prefix(a, b, n - 1);
    }
}

/// The audit of the audio tower.
pub fn run_audio_map(gw: &LoadedWeights, st: &LoadedWeights) -> (r: Option<MapReport>)
    requires
        gw.wf(),
        st.wf(),
        countable(gw),
        countable(st),
    ensures
        (r is None) == (forall|k: int|
            0 <= k < st.metas@.len() ==> !is_audio((#[trigger] st.metas@[k]).name@, None)),
        r matches Some(p) ==> {
            &&& p.order@ == by_name(
                gw,
                |k: int| is_audio(gw.metas@[k].name@, None) && !is_stat(gw.metas@[k].name@),
                gw.metas@.len() as int,
            )
            &&& p.rows@ == Seq::new(
                p.order@.len(),
                |k: int| row_of(gw, st, None, p.order@[k] as int),
            )
            &&& p.corrections == corrections(p.rows@, p.rows@.len() as int)
            &&& p.orphans@ == by_name(
                st,
                |k: int| is_audio(st.metas@[k].name@, None) && unmatched(p.rows@, k),
                st.metas@.len() as int,
            )
        },
{
    let r: Option<MapReport> = run_tensor_map(gw, st, None);
    proof {
        let none: Option<Seq<char>> = None;
        assert(chars_of(None) == none);
        let w1 = |k: int| is_audio(gw.metas@[k].name@, none) && !is_stat(gw.metas@[k].name@);
        let w2 = |k: int|
            is_audio(gw.metas@[k].name@, chars_of(None)) && !is_stat(gw.metas@[k].name@);
        assert(w1 =~= w2);
        if r is Some {
            let p = r->0;
            let l1 = |k: int| is_audio(st.metas@[k].name@, none) && unmatched(p.rows@, k);
            let l2 = |k: int|
                is_audio(st.metas@[k].name@, chars_of(None)) && unmatched(p.rows@, k);
            assert(l1 =~= l2);
        }
    }
    r
}

} // verus!
