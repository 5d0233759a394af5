//! Instruments that look into a running model: digests of what must not
//! change, dumps, a search for values that are not finite, and a test image.
use vstd::prelude::*;

use crate::ieee::Format;
use crate::models::ops::{Buf, Op};
use crate::num;
use crate::num::f16_to_f32;
use crate::selftest::tensor_map;
use crate::selftest::tensor_map::{put_by_name, stat};
use crate::text;
use crate::weights::LoadedWeights;

verus! {

// Digests.

/// Bytes of a buffer that a digest covers.
pub const DIGEST_BYTES: usize = 65536;

/// The 64-bit FNV-1a hash.
pub open spec fn fnv(b: Seq<u8>) -> u64
    decreases b.len(),
{
    if b.len() == 0 {
        0xcbf2_9ce4_8422_2325
    } else {
        (fnv(b.drop_last()) ^ (b.last() as u64)).wrapping_mul(0x100_0000_01b3)
    }
}

/// The part of a buffer that its digest covers.
pub open spec fn covered(b: Seq<u8>) -> Seq<u8> {
    if b.len() <= DIGEST_BYTES {
        b
    } else {
        b.take(DIGEST_BYTES as int)
    }
}

fn fold(b: &[u8], n: usize) -> (r: u64)
    requires
        n <= b@.len(),
    ensures
        r == fnv(b@.take(n as int)),
{
    let mut h: u64 = 0xcbf2_9ce4_8422_2325;
    let mut i: usize = 0;
    assert(b@.take(0) =~= Seq::empty());
    while i < n
        invariant
            i <= n <= b@.len(),
            h == fnv(b@.take(i as int)),
        decreases n - i,
    {
        proof {
            let t = b@.take(i + 1);
            assert(t.drop_last() =~= b@.take(i as int));
            assert(t.last() == b@[i as int]);
        }
        h = (h ^ (b[i] as u64)).wrapping_mul(0x100_0000_01b3);
        i = i + 1;
    }
    h
}

/// The digest of a buffer that must not change.
pub fn digest(b: &[u8]) -> (r: u64)
    ensures
        r == fnv(covered(b@)),
{
    let n: usize = if b.len() <= DIGEST_BYTES {
        b.len()
    } else {
        DIGEST_BYTES
    };
    assert(b@.take(n as int) =~= covered(b@));
    fold(b, n)
}

/// The digest of all of a buffer.
pub fn full_digest(b: &[u8]) -> (r: u64)
    ensures
        r == fnv(b@),
{
    assert(b@.take(b@.len() as int) =~= b@);
    fold(b, b.len())
}

// Dumps.

/// Byte `k` of a number, the lowest first.
pub open spec fn byte(x: int, k: int) -> u8 {
    (if k == 0 {
        x % 256
    } else if k == 1 {
        x / 256 % 256
    } else if k == 2 {
        x / 65536 % 256
    } else {
        x / 16777216 % 256
    }) as u8
}

/// A half in single precision.
pub open spec fn single(h: u16) -> u32 {
    Format::F16.convert(Format::F32, h as int) as u32
}

/// The file form of a matrix: rows, columns, then the elements in single
/// precision, all little-endian.
pub open spec fn matrix_file(rows: u32, cols: u32, v: Seq<u16>) -> Seq<u8> {
    Seq::new(
        8 + 4 * v.len(),
        |i: int|
            if i < 4 {
                byte(rows as int, i)
            } else if i < 8 {
                byte(cols as int, i - 4)
            } else {
                byte(single(v[(i - 8) / 4]) as int, (i - 8) % 4)
            },
    )
}

fn push_le32(out: &mut Vec<u8>, x: u32)
    ensures
        final(out)@ == old(out)@ + Seq::new(4, |k: int| byte(x as int, k)),
{
    let ghost before = out@;
    out.push((x % 256) as u8);
    out.push((x / 256 % 256) as u8);
    out.push((x / 65536 % 256) as u8);
    out.push((x / 16777216 % 256) as u8);
    assert(out@ =~= before + Seq::new(4, |k: int| byte(x as int, k)));
}

/// Writes out a matrix of half-precision elements.
pub fn dump_f16_matrix(rows: u32, cols: u32, v: &Vec<u16>) -> (r: Vec<u8>)
    ensures
        r@ == matrix_file(rows, cols, v@),
{
    let mut out: Vec<u8> = Vec::new();
    push_le32(&mut out, rows);
    push_le32(&mut out, cols);
    assert(out@ =~= matrix_file(rows, cols, v@.take(0)));
    let mut i: usize = 0;
    while i < v.len()
        invariant
            i <= v@.len(),
            out@ == matrix_file(rows, cols, v@.take(i as int)),
        decreases v@.len() - i,
    {
        push_le32(&mut out, f16_to_f32(v[i]));
        proof {
            let a = matrix_file(rows, cols, v@.take(i as int));
            let b = matrix_file(rows, cols, v@.take(i + 1));
            assert forall|k: int| 0 <= k < b.len() implies #[trigger] out@[k] == b[k] by {
                if k < a.len() {
                    if k >= 8 {
                        assert((k - 8) / 4 < i);
                        assert(v@.take(i as int)[(k - 8) / 4] == v@.take(i + 1)[(k - 8) / 4]);
                    }
                } else {
                    assert((k - 8) / 4 == i);
                    assert((k - 8) % 4 == k - a.len());
                    assert(v@.take(i + 1)[i as int] == v@[i as int]);
                }
            }
            assert(out@ =~= b);
        }
        i = i + 1;
    }
    assert(v@.take(v@.len() as int) =~= v@);
    out
}

/// A reader of the file gets back every element: dumping loses nothing.
pub proof fn law_dumps_read_back(rows: u32, cols: u32, v: Seq<u16>, i: int)
    requires
        0 <= i < v.len(),
    ensures
        num::le32(matrix_file(rows, cols, v), 0) == rows,
        num::le32(matrix_file(rows, cols, v), 4) == cols,
        num::le32(matrix_file(rows, cols, v), 8 + 4 * i) == single(v[i]),
{
    let f = matrix_file(rows, cols, v);
    lemma_bytes(rows);
    lemma_bytes(cols);
    lemma_bytes(single(v[i]));
    let at = 8 + 4 * i;
    assert((at - 8) / 4 == i && (at - 8) % 4 == 0);
    assert((at + 1 - 8) / 4 == i && (at + 1 - 8) % 4 == 1);
    assert((at + 2 - 8) / 4 == i && (at + 2 - 8) % 4 == 2);
    assert((at + 3 - 8) / 4 == i && (at + 3 - 8) % 4 == 3);
    assert(f[at] == byte(single(v[i]) as int, 0));
    assert(f[at + 1] == byte(single(v[i]) as int, 1));
    assert(f[at + 2] == byte(single(v[i]) as int, 2));
    assert(f[at + 3] == byte(single(v[i]) as int, 3));
}

proof fn lemma_bytes(x: u32)
    ensures
        byte(x as int, 0) + 0x100 * byte(x as int, 1) + 0x1_0000 * byte(x as int, 2) + 0x100_0000
            * byte(x as int, 3) == x,
{
}

// Values that are not finite.

/// Where a value stands.
#[derive(Clone, Copy, PartialEq, Eq, Debug, Structural)]
pub struct Spot {
    pub stage: Stage,
    pub layer: usize,
    pub row: usize,
    pub col: usize,
    /// The token of the row; 0 where it is not known.
    pub token: u32,
}

/// The part of a layer that has just run.
#[derive(Clone, Copy, PartialEq, Eq, Debug, Structural)]
pub enum Stage {
    Attn,
    Ffn,
    Ple,
}

/// The places behind the first `n` steps at which a part of a layer has been
/// added onto the residual stream.
pub open spec fn ends(v: Seq<Op>, n: int) -> Seq<usize>
    decreases n,
{
    if n <= 0 {
        Seq::empty()
    } else if v[n - 1] matches Op::Add { dst, .. } && dst == Buf::X {
        ends(v, n - 1).push(n as usize)
    } else {
        ends(v, n - 1)
    }
}

/// Where the parts of a layer end: attention, the feed-forward block, and the
/// per-layer inputs where they run.
pub fn stage_ends(v: &Vec<Op>) -> (r: Vec<usize>)
    ensures
        r@ == ends(v@, v@.len() as int),
{
    let mut out: Vec<usize> = Vec::new();
    let mut i: usize = 0;
    while i < v.len()
        invariant
            i <= v@.len(),
            out@ == ends(v@, i as int),
        decreases v@.len() - i,
    {
        let added: bool = match v[i] {
            Op::Add { dst, .. } => dst == Buf::X,
            _ => false,
        };
        i = i + 1;
        if added {
            out.push(i);
        }
    }
    out
}

/// A search over the residual stream: the largest magnitude so far, as a half
/// precision pattern, where it stands, and whether a value was not finite.
#[derive(Clone, Copy, Debug)]
pub struct NanHunt {
    pub peak: u16,
    pub place: Option<Spot>,
    pub fired: bool,
}

pub open spec fn size_of(v: u16) -> u16 {
    Format::F16.mag(v as int) as u16
}

/// The first of the values from `i` on that is not finite, or their number.
pub open spec fn first_bad(v: Seq<u16>, i: int) -> int
    decreases v.len() - i,
{
    if i >= v.len() || !Format::F16.is_finite(v[i] as int) {
        i
    } else {
        first_bad(v, i + 1)
    }
}

pub open spec fn spot_of(stage: Stage, layer: usize, width: int, tokens: Seq<u32>, i: int) -> Spot {
    let row = i / width;
    Spot {
        stage,
        layer,
        row: row as usize,
        col: (i % width) as usize,
        token: if row < tokens.len() {
            tokens[row]
        } else {
            0
        },
    }
}

/// The search after the first `n` values, all finite.
pub open spec fn seen(
    h: NanHunt,
    stage: Stage,
    layer: usize,
    width: int,
    v: Seq<u16>,
    tokens: Seq<u32>,
    n: int,
) -> NanHunt
    decreases n,
{
    if n <= 0 {
        h
    } else {
        let b = seen(h, stage, layer, width, v, tokens, n - 1);
        if size_of(v[n - 1]) > b.peak {
            NanHunt {
                peak: size_of(v[n - 1]),
                place: Some(spot_of(stage, layer, width, tokens, n - 1)),
                ..b
            }
        } else {
            b
        }
    }
}

fn spot(stage: Stage, layer: usize, width: usize, tokens: &Vec<u32>, i: usize) -> (r: Spot)
    requires
        width > 0,
    ensures
        r == spot_of(stage, layer, width as int, tokens@, i as int),
{
    let row: usize = i / width;
    Spot {
        stage,
        layer,
        row,
        col: i % width,
        token: if row < tokens.len() {
            tokens[row]
        } else {
            0
        },
    }
}

impl NanHunt {
    pub fn new() -> (r: Self)
        ensures
            r == (NanHunt { peak: 0, place: None, fired: false }),
    {
        NanHunt { peak: 0, place: None, fired: false }
    }

    /// Looks at rows of `width` values after a part of a layer. The first
    /// value that is not finite is reported, and ends the search.
    pub fn scan(
        &mut self,
        stage: Stage,
        layer: usize,
        width: usize,
        v: &Vec<u16>,
        tokens: &Vec<u32>,
    ) -> (r: Option<Spot>)
        requires
            width > 0,
        ensures
            ({
                let n = first_bad(v@, 0);
                let s = seen(*old(self), stage, layer, width as int, v@, tokens@, n);
                if old(self).fired {
                    r is None && *final(self) == *old(self)
                } else if n < v@.len() {
                    &&& r == Some(spot_of(stage, layer, width as int, tokens@, n))
                    &&& *final(self) == (NanHunt { fired: true, ..s })
                } else {
                    r is None && *final(self) == s
                }
            }),
    {
        if self.fired {
            return None;
        }
        let mut i: usize = 0;
        while i < v.len()
            invariant
                width > 0,
                i <= v@.len(),
                first_bad(v@, 0) == first_bad(v@, i as int),
                !old(self).fired,
                *self == seen(*old(self), stage, layer, width as int, v@, tokens@, i as int),
            decreases v@.len() - i,
        {
            let m: u64 = Format::F16.magnitude(v[i] as u64);
            if m >= Format::F16.infinity() {
                self.fired = true;
                return Some(spot(stage, layer, width, tokens, i));
            }
            if m > self.peak as u64 {
                self.peak = m as u16;
                self.place = Some(spot(stage, layer, width, tokens, i));
            }
            i = i + 1;
        }
        None
    }

    /// The figures of one prefill; the search starts over.
    pub fn summary(&mut self) -> (r: NanHunt)
        ensures
            r == *old(self),
            *final(self) == (NanHunt { peak: 0, place: None, fired: false }),
    {
        let r: NanHunt = *self;
        *self = NanHunt::new();
        r
    }
}

// Names.

/// Names that repeat per layer, and statistics, are not listed.
pub open spec fn is_solved(k: Seq<char>) -> bool {
    text::has(k, ".layers."@) || text::has(k, ".blk."@) || tensor_map::is_stat(k)
}

/// The tensors that a tower ships.
pub struct Shipped {
    pub total: usize,
    /// Those outside the layers, by name.
    pub outside: Vec<usize>,
}

/// Tensors of the first `n` whose names start with `prefix`.
pub open spec fn carried(w: &LoadedWeights, prefix: Seq<char>, n: int) -> int
    decreases n,
{
    if n <= 0 {
        0
    } else {
        carried(w, prefix, n - 1) + (if text::starts(w.metas@[n - 1].name@, prefix) {
            1int
        } else {
            0
        })
    }
}

/// Lists what a tower ships outside its layers.
pub fn dump_tower_names(w: &LoadedWeights, prefix: &str) -> (r: Shipped)
    ensures
        r.total == carried(w, prefix@, w.metas@.len() as int),
        r.outside@ == tensor_map::by_name(
            w,
            |i: int| text::starts(w.metas@[i].name@, prefix@) && !is_solved(w.metas@[i].name@),
            w.metas@.len() as int,
        ),
{
    let ghost chosen = |i: int|
        text::starts(w.metas@[i].name@, prefix@) && !is_solved(w.metas@[i].name@);
    let mut total: usize = 0;
    let mut outside: Vec<usize> = Vec::new();
    let mut i: usize = 0;
    while i < w.metas.len()
        invariant
            i <= w.metas@.len(),
            total == carried(w, prefix@, i as int),
            total <= i,
            chosen == (|i: int|
                text::starts(w.metas@[i].name@, prefix@) && !is_solved(w.metas@[i].name@)),
            outside@ == tensor_map::by_name(w, chosen, i as int),
            forall|k: int| 0 <= k < outside@.len() ==> (#[trigger] outside@[k]) < i,
        decreases w.metas@.len() - i,
    {
        let name: &str = w.metas[i].name.as_str();
        if text::starts_with(name, prefix) {
            total = total + 1;
            if !(text::contains(name, ".layers.") || text::contains(name, ".blk.") || stat(name)) {
                put_by_name(w, &mut outside, i);
            }
        }
        i = i + 1;
    }
    Shipped { total, outside }
}

// The test image.

/// The colour of a quadrant: red and green over blue and yellow.
pub open spec fn quadrant(lower: bool, right: bool, c: int) -> u8 {
    if !lower && !right {
        if c == 0 { 220 } else { 40 }
    } else if !lower {
        if c == 0 { 40 } else if c == 1 { 180 } else { 60 }
    } else if !right {
        if c == 0 { 50 } else if c == 1 { 80 } else { 220 }
    } else {
        if c == 0 { 240 } else if c == 1 { 200 } else { 40 }
    }
}

/// Pixels of a square image of `side`, row by row.
pub open spec fn quadrants(side: int) -> Seq<u8> {
    Seq::new(
        (3 * (side * side)) as nat,
        |i: int| quadrant(i / 3 / side >= side / 2, i / 3 % side >= side / 2, i % 3),
    )
}

/// Four colours in the quadrants of a square image: what mixes positions
/// anywhere downstream shows up in the rows of the media.
pub fn quadrant_image(side: u16) -> (r: Vec<u8>)
    requires
        side > 0,
    ensures
        r@ == quadrants(side as int),
{
    let s: usize = side as usize;
    assert(0 <= s * s <= 0xffff * 0xffff) by (nonlinear_arith)
        requires
            0 <= s <= 0xffff,
    ;
    let n: u64 = 3 * (side as u64 * side as u64);
    let mut out: Vec<u8> = Vec::new();
    let mut i: u64 = 0;
    while i < n
        invariant
            side > 0,
            i <= n,
            n == 3 * (side * side),
            out@ =~= quadrants(side as int).take(i as int),
        decreases n - i,
    {
        let p: u64 = i / 3;
        let lower: bool = p / side as u64 >= side as u64 / 2;
        let right: bool = p % side as u64 >= side as u64 / 2;
        let c: u64 = i % 3;
        let b: u8 = if !lower && !right {
            if c == 0 { 220 } else { 40 }
        } else if !lower {
            if c == 0 { 40 } else if c == 1 { 180 } else { 60 }
        } else if !right {
            if c == 0 { 50 } else if c == 1 { 80 } else { 220 }
        } else {
            if c == 0 { 240 } else if c == 1 { 200 } else { 40 }
        };
        out.push(b);
        i = i + 1;
    }
    assert(out@ =~= quadrants(side as int));
    out
}

} // verus!
