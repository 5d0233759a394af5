//! ggml block-quantization codecs.
//!
//! A tensor is a run of blocks; each block holds a fixed number of elements
//! and the scales they share. Every decoder turns one block element into a
//! half-precision pattern by single-precision arithmetic, bit for bit.
//!
//! Block layouts (little-endian):
//! * `Q8_0` - 32 elements: d f16, qs i8[32]; x = d * qs
//! * `Q4_0` - 32 elements: d f16, qs u8[16] (byte j: element j in the low
//!   nibble, element j+16 in the high one); x = d * (q - 8)
//! * `Q4_1` - 32 elements: d f16, m f16, qs u8[16]; x = d * q + m
//! * `Q5_0` - 32 elements: d f16, qh u8[4] (bit j is the fifth bit of
//!   element j), qs u8[16]; x = d * (q - 16)
//! * `Q5_1` - 32 elements: d f16, m f16, qh u8[4], qs u8[16]; x = d * q + m
//! * `Q4_K` - 256 elements: d f16, dmin f16, scales u8[12] (6-bit pairs of 8
//!   sub-blocks), qs u8[128]; x = d * sc * q - dmin * m
//! * `Q5_K` - 256 elements: d, dmin, scales u8[12], qh u8[32] (fifth bits),
//!   qs u8[128]; x = d * sc * q - dmin * m
//! * `Q6_K` - 256 elements: ql u8[128], qh u8[64], scales i8[16], d f16;
//!   x = d * sc * (q - 32)
//! * `IQ4_XS` - 256 elements: d f16, split 6-bit scales, nibbles into a
//!   non-linear codebook; x = d * (ls - 32) * codebook[q]
use vstd::prelude::*;

use crate::ieee;
use crate::ieee::Format;
use crate::num;
use crate::num::{f16_to_f32, f32_add, f32_from_i32, f32_mul, f32_sub, f32_to_f16, read_le16, read_le32};
use crate::tensor;
use crate::tensor::{block_bytes, block_elems, is_gguf_block, DType};

verus! {

/// The non-linear 4-bit codebook of IQ4_XS.
pub const IQ4NL: [i32; 16] = [
    -127,
    -104,
    -83,
    -65,
    -49,
    -35,
    -22,
    -10,
    1,
    13,
    25,
    38,
    53,
    69,
    89,
    113,
];

/// Why a tensor could not be decoded.
#[derive(Clone, Copy, PartialEq, Eq, Debug, Structural)]
pub enum DequantError {
    /// The element count is no whole number of blocks, or the bytes fall short.
    SizeMismatch { format: DType, elems: usize, bytes: usize },
    /// The encoding has no block decoder.
    NoDecoder { format: DType },
}

/// The half at byte `i` as a single.
pub open spec fn half_at(b: Seq<u8>, i: int) -> int {
    Format::F16.convert(Format::F32, num::le16(b, i))
}

/// A single times a whole number.
pub open spec fn times(x: int, n: int) -> int {
    Format::F32.product(x, Format::F32.of_int(n))
}

/// A single rounded to a half.
pub open spec fn narrow(x: int) -> int {
    Format::F32.convert(Format::F16, x)
}

/// A byte read as two's complement.
pub open spec fn signed8(b: u8) -> int {
    if b < 128 {
        b as int
    } else {
        b - 256
    }
}

/// Bit `j` of `x`.
pub open spec fn bit(x: int, j: int) -> int {
    (x / ieee::p2(j)) % 2
}

/// Nibble `i` of 16 bytes at `at`: the low ones first, then the high ones.
pub open spec fn nibble(b: Seq<u8>, at: int, i: int) -> int {
    if i < 16 {
        b[at + i] as int % 16
    } else {
        b[at + i - 16] as int / 16
    }
}

/// The 6-bit scale of sub-block `j`, packed into 12 bytes at `at`.
pub open spec fn scale_k4(b: Seq<u8>, at: int, j: int) -> int {
    if j < 4 {
        b[at + j] as int % 64
    } else {
        b[at + j + 4] as int % 16 + 16 * (b[at + j - 4] as int / 64)
    }
}

/// The 6-bit minimum of sub-block `j`.
pub open spec fn min_k4(b: Seq<u8>, at: int, j: int) -> int {
    if j < 4 {
        b[at + j + 4] as int % 64
    } else {
        b[at + j + 4] as int / 16 + 16 * (b[at + j] as int / 64)
    }
}

/// Nibble `i` of a 256-element block at `at`: 4 chunks of 32 bytes, the low
/// nibbles of a chunk before its high ones.
pub open spec fn nibble_k(b: Seq<u8>, at: int, i: int) -> int {
    let q = b[at + i / 64 * 32 + i % 32] as int;
    if i / 32 % 2 == 0 {
        q % 16
    } else {
        q / 16
    }
}

/// Scale times level minus minimum, in single precision.
pub open spec fn scaled_minus_min(b: Seq<u8>, j: int, q: int) -> int {
    narrow(
        Format::F32.difference(
            times(times(half_at(b, 0), scale_k4(b, 4, j)), q),
            times(half_at(b, 2), min_k4(b, 4, j)),
        ),
    )
}

/// The split 6-bit scale of sub-block `ib` of an IQ4_XS block.
pub open spec fn scale_iq4(b: Seq<u8>, ib: int) -> int {
    (if ib % 2 == 0 {
        b[4 + ib / 2] as int % 16
    } else {
        b[4 + ib / 2] as int / 16
    }) + 16 * ((num::le16(b, 2) / ieee::p2(2 * ib)) % 4)
}

/// The 6-bit level of element `i` of a Q6_K block.
pub open spec fn level_q6(b: Seq<u8>, i: int) -> int {
    let l = i % 32;
    let g = i % 128 / 32;
    let lo = b[i / 128 * 64 + g % 2 * 32 + l] as int;
    (if g < 2 {
        lo % 16
    } else {
        lo / 16
    }) + 16 * ((b[128 + i / 128 * 32 + l] as int / ieee::p2(2 * g)) % 4)
}

/// Element `i` of the block `b`, as a half-precision pattern.
pub open spec fn element(dt: DType, b: Seq<u8>, i: int) -> int {
    match dt {
        DType::GgufQ8_0 => narrow(times(half_at(b, 0), signed8(b[2 + i]))),
        DType::GgufQ4_0 => narrow(times(half_at(b, 0), nibble(b, 2, i) - 8)),
        DType::GgufQ4_1 => narrow(
            Format::F32.sum(times(half_at(b, 0), nibble(b, 4, i)), half_at(b, 2)),
        ),
        DType::GgufQ5_0 => narrow(
            times(half_at(b, 0), nibble(b, 6, i) + 16 * bit(num::le32(b, 2), i) - 16),
        ),
        DType::GgufQ5_1 => narrow(
            Format::F32.sum(
                times(half_at(b, 0), nibble(b, 8, i) + 16 * bit(num::le32(b, 4), i)),
                half_at(b, 2),
            ),
        ),
        DType::GgufQ4K => scaled_minus_min(b, i / 32, nibble_k(b, 16, i)),
        DType::GgufQ5K => scaled_minus_min(
            b,
            i / 32,
            nibble_k(b, 48, i) + 16 * bit(b[16 + i % 32] as int, i / 32),
        ),
        DType::GgufQ6K => narrow(
            times(
                times(half_at(b, 208), signed8(b[192 + i / 128 * 8 + i % 32 / 16 + i % 128 / 32 * 2])),
                level_q6(b, i) - 32,
            ),
        ),
        DType::GgufIQ4XS => narrow(
            times(
                times(half_at(b, 0), scale_iq4(b, i / 32) - 32),
                IQ4NL[nibble(b, 8 + i / 32 * 16, i % 32)] as int,
            ),
        ),
        _ => 0,
    }
}

/// The bytes of block `n`.
pub open spec fn block(dt: DType, src: Seq<u8>, n: int) -> Seq<u8> {
    src.subrange(n * tensor::block_len(dt), n * tensor::block_len(dt) + tensor::block_len(dt))
}

/// `numel` elements are whole blocks that `bytes` bytes hold.
pub open spec fn fits(dt: DType, bytes: int, numel: int) -> bool {
    numel % tensor::grain(dt) == 0 && numel / tensor::grain(dt) * tensor::block_len(dt) <= bytes
}

/// `out` holds the decoded elements and is otherwise as before.
pub open spec fn decoded(dt: DType, src: Seq<u8>, numel: int, before: Seq<u16>, out: Seq<u16>) -> bool {
    &&& out.len() == before.len()
    &&& forall|i: int|
        0 <= i < numel ==> #[trigger] out[i] == element(
            dt,
            block(dt, src, i / tensor::grain(dt)),
            i % tensor::grain(dt),
        )
    &&& forall|i: int| numel <= i < out.len() ==> #[trigger] out[i] == before[i]
}

/// The single-precision value of the half at byte `i`.
fn d16(b: &[u8], i: usize) -> (r: u32)
    requires
        i + 2 <= b@.len(),
    ensures
        r == half_at(b@, i as int),
{
    f16_to_f32(read_le16(b, i))
}

fn scale(x: u32, n: i32) -> (r: u32)
    ensures
        r == times(x as int, n as int),
{
    f32_mul(x, f32_from_i32(n))
}

fn as_signed(b: u8) -> (r: i32)
    ensures
        r == signed8(b),
{
    if b < 128 {
        b as i32
    } else {
        b as i32 - 256
    }
}

/// `x / 2^j`.
fn shifted(x: u32, j: u32) -> (r: u32)
    requires
        j < 32,
    ensures
        r == x as int / ieee::p2(j as int),
{
    proof {
        vstd::bits::lemma_u32_shr_is_div(x, j);
        ieee::lemma_p2_is_pow2(j as int);
    }
    x >> j
}

fn nibble_of(b: &[u8], at: usize, i: usize) -> (r: i32)
    requires
        i < 32,
        at + 16 <= b.len(),
    ensures
        r == nibble(b@, at as int, i as int),
        0 <= r < 16,
{
    if i < 16 {
        (b[at + i] % 16) as i32
    } else {
        (b[at + (i - 16)] / 16) as i32
    }
}

/// The 6-bit scale and minimum of sub-block `j`.
fn scale_min_k4(b: &[u8], at: usize, j: usize) -> (r: (i32, i32))
    requires
        j < 8,
        at + 12 <= b.len(),
    ensures
        r.0 == scale_k4(b@, at as int, j as int),
        r.1 == min_k4(b@, at as int, j as int),
{
    if j < 4 {
        ((b[at + j] % 64) as i32, (b[at + j + 4] % 64) as i32)
    } else {
        (
            (b[at + j + 4] % 16) as i32 + 16 * ((b[at + (j - 4)] / 64) as i32),
            (b[at + j + 4] / 16) as i32 + 16 * ((b[at + j] / 64) as i32),
        )
    }
}

fn nibble_k_of(b: &[u8], at: usize, i: usize) -> (r: i32)
    requires
        i < 256,
        at + 128 <= b.len(),
    ensures
        r == nibble_k(b@, at as int, i as int),
        0 <= r < 16,
{
    let q: u8 = b[at + i / 64 * 32 + i % 32];
    if i / 32 % 2 == 0 {
        (q % 16) as i32
    } else {
        (q / 16) as i32
    }
}

fn minus_min(b: &[u8], j: usize, q: i32) -> (r: u16)
    requires
        j < 8,
        16 <= b@.len(),
    ensures
        r == scaled_minus_min(b@, j as int, q as int),
{
    let (sc, m) = scale_min_k4(b, 4, j);
    let d: u32 = scale(d16(b, 0), sc);
    let low: u32 = scale(d16(b, 2), m);
    f32_to_f16(f32_sub(scale(d, q), low))
}

fn scale_iq4_of(b: &[u8], ib: usize) -> (r: i32)
    requires
        ib < 8,
        b@.len() == 136,
    ensures
        r == scale_iq4(b@, ib as int),
        0 <= r < 64,
{
    let low: u8 = if ib % 2 == 0 {
        b[4 + ib / 2] % 16
    } else {
        b[4 + ib / 2] / 16
    };
    let high: u32 = shifted(read_le16(b, 2) as u32, 2 * (ib as u32)) % 4;
    low as i32 + 16 * (high as i32)
}

fn level_q6_of(b: &[u8], i: usize) -> (r: i32)
    requires
        i < 256,
        b@.len() == 210,
    ensures
        r == level_q6(b@, i as int),
        0 <= r < 64,
{
    let l: usize = i % 32;
    let g: usize = i % 128 / 32;
    let lo: u8 = b[i / 128 * 64 + g % 2 * 32 + l];
    let hi: u32 = shifted(b[128 + i / 128 * 32 + l] as u32, 2 * (g as u32)) % 4;
    let low: i32 = if g < 2 {
        (lo % 16) as i32
    } else {
        (lo / 16) as i32
    };
    low + 16 * (hi as i32)
}

/// Decodes element `i` of the block `b`.
fn decode(dt: DType, b: &[u8], i: usize) -> (r: u16)
    requires
        tensor::is_block(dt),
        b@.len() == tensor::block_len(dt),
        i < tensor::grain(dt),
    ensures
        r == element(dt, b@, i as int),
{
    match dt {
        DType::GgufQ8_0 => f32_to_f16(scale(d16(b, 0), as_signed(b[2 + i]))),
        DType::GgufQ4_0 => f32_to_f16(scale(d16(b, 0), nibble_of(b, 2, i) - 8)),
        DType::GgufQ4_1 => f32_to_f16(
            f32_add(scale(d16(b, 0), nibble_of(b, 4, i)), d16(b, 2)),
        ),
        DType::GgufQ5_0 => {
            let fifth: i32 = (shifted(read_le32(b, 2), i as u32) % 2) as i32;
            f32_to_f16(scale(d16(b, 0), nibble_of(b, 6, i) + 16 * fifth - 16))
        },
        DType::GgufQ5_1 => {
            let fifth: i32 = (shifted(read_le32(b, 4), i as u32) % 2) as i32;
            f32_to_f16(f32_add(scale(d16(b, 0), nibble_of(b, 8, i) + 16 * fifth), d16(b, 2)))
        },
        DType::GgufQ4K => minus_min(b, i / 32, nibble_k_of(b, 16, i)),
        DType::GgufQ5K => {
            let fifth: i32 = (shifted(b[16 + i % 32] as u32, (i / 32) as u32) % 2) as i32;
            minus_min(b, i / 32, nibble_k_of(b, 48, i) + 16 * fifth)
        },
        DType::GgufQ6K => {
            let sc: i32 = as_signed(b[192 + i / 128 * 8 + i % 32 / 16 + i % 128 / 32 * 2]);
            f32_to_f16(scale(scale(d16(b, 208), sc), level_q6_of(b, i) - 32))
        },
        DType::GgufIQ4XS => {
            let level: i32 = IQ4NL[nibble_of(b, 8 + i / 32 * 16, i % 32) as usize];
            f32_to_f16(scale(scale(d16(b, 0), scale_iq4_of(b, i / 32) - 32), level))
        },
        _ => 0,
    }
}

/// Decodes `numel` elements of `src` into the front of `out`.
fn dequant_blocks(dt: DType, src: &[u8], numel: usize, out: &mut [u16]) -> (r: Result<
    (),
    DequantError,
>)
    requires
        tensor::is_block(dt),
        fits(dt, src@.len() as int, numel as int) ==> numel <= old(out)@.len(),
    ensures
        fits(dt, src@.len() as int, numel as int) ==> r is Ok && decoded(
            dt,
            src@,
            numel as int,
            old(out)@,
            final(out)@,
        ),
        !fits(dt, src@.len() as int, numel as int) ==> final(out)@ == old(out)@ && r == Err::<
            (),
            DequantError,
        >(
            (DequantError::SizeMismatch { format: dt, elems: numel, bytes: src@.len() as usize }),
        ),
{
    let g: usize = block_elems(dt);
    let bs: usize = block_bytes(dt);
    let blocks: usize = numel / g;
    proof {
        lemma_fits(dt, src@.len() as int, blocks as int);
    }
    if src.len() / bs < blocks || numel % g != 0 {
        return Err(
            DequantError::SizeMismatch { format: dt, elems: numel, bytes: src.len() },
        );
    }
    let ghost before = out@;
    assert(before.len() == out.len());
    let mut n: usize = 0;
    while n < blocks
        invariant
            n <= blocks,
            g == tensor::grain(dt),
            bs == tensor::block_len(dt),
            tensor::is_block(dt),
            blocks * g == numel,
            blocks * bs <= src.len(),
            numel <= before.len(),
            before.len() <= usize::MAX,
            decoded(dt, src@, n * g, before, out@),
        decreases blocks - n,
    {
        proof {
            let (ni, bi, bsi, gi) = (n as int, blocks as int, bs as int, g as int);
            assert(ni * bsi + bsi <= bi * bsi) by (nonlinear_arith)
                requires
                    ni + 1 <= bi,
                    bsi >= 1,
            ;
            assert(ni * gi + gi <= bi * gi) by (nonlinear_arith)
                requires
                    ni + 1 <= bi,
                    gi >= 1,
            ;
            assert((ni + 1) * gi == ni * gi + gi) by (nonlinear_arith);
        }
        let at: usize = n * bs;
        let base: usize = n * g;
        let blk: &[u8] = vstd::slice::slice_subrange(src, at, at + bs);
        assert(blk@ == block(dt, src@, n as int));
        let mut i: usize = 0;
        while i < g
            invariant
                i <= g,
                n < blocks,
                g == tensor::grain(dt),
                tensor::is_block(dt),
                base == n * g,
                base + g <= before.len(),
                before.len() <= usize::MAX,
                blk@ == block(dt, src@, n as int),
                blk@.len() == tensor::block_len(dt),
                decoded(dt, src@, base + i, before, out@),
            decreases g - i,
        {
            let v: u16 = decode(dt, blk, i);
            proof {
                let (ni, gi, ii) = (n as int, g as int, i as int);
                vstd::arithmetic::div_mod::lemma_fundamental_div_mod_converse(
                    ni * gi + ii,
                    gi,
                    ni,
                    ii,
                );
            }
            out[base + i] = v;
            i = i + 1;
        }
        n = n + 1;
    }
    Ok(())
}

proof fn lemma_fits(dt: DType, bytes: int, blocks: int)
    requires
        tensor::is_block(dt),
        bytes >= 0,
    ensures
        (bytes / tensor::block_len(dt) < blocks) == (bytes < blocks * tensor::block_len(dt)),
{
    let bs = tensor::block_len(dt);
    vstd::arithmetic::div_mod::lemma_fundamental_div_mod(bytes, bs);
    let q = bytes / bs;
    if q < blocks {
        assert(q * bs + bs <= blocks * bs) by (nonlinear_arith)
            requires
                q + 1 <= blocks,
                bs >= 1,
        ;
        assert(q * bs == bs * q) by (nonlinear_arith);
    } else {
        assert(blocks * bs <= bs * q) by (nonlinear_arith)
            requires
                blocks <= q,
                bs >= 1,
        ;
    }
}

/// What decoding gives: every element of the whole blocks, or an error that
/// leaves `out` alone.
pub open spec fn dequantized(
    dt: DType,
    src: Seq<u8>,
    numel: usize,
    before: Seq<u16>,
    out: Seq<u16>,
    r: Result<(), DequantError>,
) -> bool {
    if fits(dt, src.len() as int, numel as int) {
        r is Ok && decoded(dt, src, numel as int, before, out)
    } else {
        out == before && r == Err::<(), DequantError>(
            DequantError::SizeMismatch { format: dt, elems: numel, bytes: src.len() as usize },
        )
    }
}

/// Q8_0: 34-byte blocks of 32.
pub fn dequant_q8_0(src: &[u8], numel: usize, out: &mut [u16]) -> (r: Result<(), DequantError>)
    requires
        fits(DType::GgufQ8_0, src@.len() as int, numel as int) ==> numel <= old(out)@.len(),
    ensures
        dequantized(DType::GgufQ8_0, src@, numel, old(out)@, final(out)@, r),
{
    dequant_blocks(DType::GgufQ8_0, src, numel, out)
}

/// Q4_0: 18-byte blocks of 32; x = d * (q - 8).
pub fn dequant_q4_0(src: &[u8], numel: usize, out: &mut [u16]) -> (r: Result<(), DequantError>)
    requires
        fits(DType::GgufQ4_0, src@.len() as int, numel as int) ==> numel <= old(out)@.len(),
    ensures
        dequantized(DType::GgufQ4_0, src@, numel, old(out)@, final(out)@, r),
{
    dequant_blocks(DType::GgufQ4_0, src, numel, out)
}

/// Q4_1: 20-byte blocks of 32; x = d * q + m.
pub fn dequant_q4_1(src: &[u8], numel: usize, out: &mut [u16]) -> (r: Result<(), DequantError>)
    requires
        fits(DType::GgufQ4_1, src@.len() as int, numel as int) ==> numel <= old(out)@.len(),
    ensures
        dequantized(DType::GgufQ4_1, src@, numel, old(out)@, final(out)@, r),
{
    dequant_blocks(DType::GgufQ4_1, src, numel, out)
}

/// Q5_0: 22-byte blocks of 32 with a fifth bit; x = d * (q - 16).
pub fn dequant_q5_0(src: &[u8], numel: usize, out: &mut [u16]) -> (r: Result<(), DequantError>)
    requires
        fits(DType::GgufQ5_0, src@.len() as int, numel as int) ==> numel <= old(out)@.len(),
    ensures
        dequantized(DType::GgufQ5_0, src@, numel, old(out)@, final(out)@, r),
{
    dequant_blocks(DType::GgufQ5_0, src, numel, out)
}

/// Q5_1: 24-byte blocks of 32 with a fifth bit; x = d * q + m.
pub fn dequant_q5_1(src: &[u8], numel: usize, out: &mut [u16]) -> (r: Result<(), DequantError>)
    requires
        fits(DType::GgufQ5_1, src@.len() as int, numel as int) ==> numel <= old(out)@.len(),
    ensures
        dequantized(DType::GgufQ5_1, src@, numel, old(out)@, final(out)@, r),
{
    dequant_blocks(DType::GgufQ5_1, src, numel, out)
}

/// Q4_K: 144-byte super-blocks of 256 (8 sub-blocks of 32).
pub fn dequant_q4_k(src: &[u8], numel: usize, out: &mut [u16]) -> (r: Result<(), DequantError>)
    requires
        fits(DType::GgufQ4K, src@.len() as int, numel as int) ==> numel <= old(out)@.len(),
    ensures
        dequantized(DType::GgufQ4K, src@, numel, old(out)@, final(out)@, r),
{
    dequant_blocks(DType::GgufQ4K, src, numel, out)
}

/// Q5_K: 176-byte super-blocks of 256, a fifth bit per element.
pub fn dequant_q5_k(src: &[u8], numel: usize, out: &mut [u16]) -> (r: Result<(), DequantError>)
    requires
        fits(DType::GgufQ5K, src@.len() as int, numel as int) ==> numel <= old(out)@.len(),
    ensures
        dequantized(DType::GgufQ5K, src@, numel, old(out)@, final(out)@, r),
{
    dequant_blocks(DType::GgufQ5K, src, numel, out)
}

/// IQ4_XS: 136-byte super-blocks of 256; nibbles index a codebook.
pub fn dequant_iq4_xs(src: &[u8], numel: usize, out: &mut [u16]) -> (r: Result<(), DequantError>)
    requires
        fits(DType::GgufIQ4XS, src@.len() as int, numel as int) ==> numel <= old(out)@.len(),
    ensures
        dequantized(DType::GgufIQ4XS, src@, numel, old(out)@, final(out)@, r),
{
    dequant_blocks(DType::GgufIQ4XS, src, numel, out)
}

/// Q6_K: 210-byte super-blocks of 256.
pub fn dequant_q6_k(src: &[u8], numel: usize, out: &mut [u16]) -> (r: Result<(), DequantError>)
    requires
        fits(DType::GgufQ6K, src@.len() as int, numel as int) ==> numel <= old(out)@.len(),
    ensures
        dequantized(DType::GgufQ6K, src@, numel, old(out)@, final(out)@, r),
{
    dequant_blocks(DType::GgufQ6K, src, numel, out)
}

/// Decodes any block format.
pub fn dequant_host(dt: DType, src: &[u8], numel: usize, out: &mut [u16]) -> (r: Result<
    (),
    DequantError,
>)
    requires
        tensor::is_block(dt) && fits(dt, src@.len() as int, numel as int) ==> numel <= old(
            out,
        )@.len(),
    ensures
        tensor::is_block(dt) ==> dequantized(dt, src@, numel, old(out)@, final(out)@, r),
        !tensor::is_block(dt) ==> final(out)@ == old(out)@ && r == Err::<(), DequantError>(
            (DequantError::NoDecoder { format: dt }),
        ),
{
    if is_gguf_block(dt) {
        dequant_blocks(dt, src, numel, out)
    } else {
        Err(DequantError::NoDecoder { format: dt })
    }
}

/// The weight codec over block tensors: packed blocks stay as stored where
/// `resident` is set, everything else becomes half precision.
pub struct GgufCodec {
    pub resident: bool,
}

/// What goes to the device.
pub enum DeviceData {
    Packed(Vec<u8>),
    Half(Vec<u16>),
}

/// Why a tensor was not prepared for the device.
#[derive(Clone, Copy, PartialEq, Eq, Debug, Structural)]
pub enum CodecError {
    /// The bytes fall short of what the encoding predicts.
    Short,
    /// The encoding is not executable.
    Unsupported { format: DType },
    Dequant(DequantError),
}

impl GgufCodec {
    /// The half-precision pattern of plain element `i`.
    pub open spec fn plain(dt: DType, host: Seq<u8>, i: int) -> int {
        match dt {
            DType::F16 => num::le16(host, 2 * i),
            DType::F32 => narrow(num::le32(host, 4 * i)),
            _ => narrow(num::le16(host, 2 * i) * 0x1_0000),
        }
    }

    /// The bytes that `numel` elements of `dt` take as stored.
    pub open spec fn stored(dt: DType, numel: int) -> int {
        numel / tensor::grain(dt) * tensor::block_len(dt)
    }

    pub fn resident_quant(&self) -> (r: bool)
        ensures
            r == self.resident,
    {
        self.resident
    }

    pub fn accepts(&self, dtype: DType) -> (r: bool)
        ensures
            r == (dtype != DType::U8),
    {
        match dtype {
            DType::U8 => false,
            _ => true,
        }
    }

    /// Bytes the tensor takes on the device.
    pub fn device_bytes(&self, meta: &tensor::TensorMeta) -> (r: usize)
        requires
            meta.countable(),
            Self::stored(meta.dtype, meta.count()) <= usize::MAX,
            2 * meta.count() <= usize::MAX,
        ensures
            r == (if self.resident && tensor::is_block(meta.dtype) {
                Self::stored(meta.dtype, meta.count())
            } else {
                2 * meta.count()
            }),
    {
        let n: usize = meta.numel();
        if self.resident && is_gguf_block(meta.dtype) {
            tensor::storage_bytes(meta.dtype, n)
        } else {
            2 * n
        }
    }

    fn plain_half(dt: DType, host: &[u8]) -> (r: Vec<u16>)
        requires
            dt == DType::F16 || dt == DType::F32 || dt == DType::BF16,
        ensures
            r@.len() == host@.len() / (tensor::block_len(dt) as nat),
            forall|i: int| 0 <= i < r@.len() ==> #[trigger] r@[i] == Self::plain(dt, host@, i),
    {
        let w: usize = block_bytes(dt);
        let n: usize = host.len() / w;
        let mut out: Vec<u16> = Vec::new();
        let mut i: usize = 0;
        while i < n
            invariant
                i <= n,
                out@.len() == i,
                w == tensor::block_len(dt),
                n == host.len() / w,
                dt == DType::F16 || dt == DType::F32 || dt == DType::BF16,
                forall|j: int| 0 <= j < i ==> #[trigger] out@[j] == Self::plain(dt, host@, j),
            decreases n - i,
        {
            let v: u16 = match dt {
                DType::F16 => read_le16(host, 2 * i),
                DType::F32 => f32_to_f16(read_le32(host, 4 * i)),
                _ => f32_to_f16(num::bf16_to_f32(read_le16(host, 2 * i))),
            };
            out.push(v);
            i = i + 1;
        }
        out
    }

    /// Prepares a tensor for the device.
    pub fn upload(&self, meta: &tensor::TensorMeta, host: &[u8]) -> (r: Result<
        DeviceData,
        CodecError,
    >)
        requires
            meta.countable(),
            Self::stored(meta.dtype, meta.count()) <= usize::MAX,
        ensures
            ({
                let n = meta.count();
                let dt = meta.dtype;
                if Self::stored(dt, n) > host@.len() {
                    r == Err::<DeviceData, CodecError>(CodecError::Short)
                } else if tensor::is_block(dt) {
                    if self.resident {
                        r matches Ok(DeviceData::Packed(b)) && b@ == host@.take(
                            Self::stored(dt, n),
                        )
                    } else if n % tensor::grain(dt) == 0 {
                        r matches Ok(DeviceData::Half(v)) && v@.len() == n && forall|i: int|
                            0 <= i < n ==> #[trigger] v@[i] == element(
                                dt,
                                block(dt, host@, i / tensor::grain(dt)),
                                i % tensor::grain(dt),
                            )
                    } else {
                        r == Err::<DeviceData, CodecError>(
                            CodecError::Dequant(
                                DequantError::SizeMismatch {
                                    format: dt,
                                    elems: n as usize,
                                    bytes: host@.len() as usize,
                                },
                            ),
                        )
                    }
                } else if dt == DType::U8 {
                    r == Err::<DeviceData, CodecError>(CodecError::Unsupported { format: dt })
                } else {
                    r matches Ok(DeviceData::Half(v)) && v@.len() == host@.len() / (
                    tensor::block_len(dt) as nat) && forall|i: int|
                        0 <= i < v@.len() ==> #[trigger] v@[i] == Self::plain(dt, host@, i)
                }
            }),
    {
        let n: usize = meta.numel();
        let need: usize = tensor::storage_bytes(meta.dtype, n);
        if need > host.len() {
            return Err(CodecError::Short);
        }
        if is_gguf_block(meta.dtype) {
            if self.resident {
                let head: &[u8] = vstd::slice::slice_subrange(host, 0, need);
                return Ok(DeviceData::Packed(vstd::slice::slice_to_vec(head)));
            }
            let mut out: Vec<u16> = vec![0; n];
            let done: Result<(), DequantError> = dequant_blocks(
                meta.dtype,
                host,
                n,
                out.as_mut_slice(),
            );
            return match done {
                Ok(_) => Ok(DeviceData::Half(out)),
                Err(e) => Err(CodecError::Dequant(e)),
            };
        }
        match meta.dtype {
            DType::F16 | DType::F32 | DType::BF16 => Ok(
                DeviceData::Half(Self::plain_half(meta.dtype, host)),
            ),
            other => Err(CodecError::Unsupported { format: other }),
        }
    }
}

/// Storage holds exactly the whole blocks: a tensor of `numel` elements can be
/// decoded from its own storage if and only if it is a whole number of blocks.
pub proof fn law_storage_is_decodable(dt: DType, numel: int)
    requires
        tensor::is_block(dt),
        numel >= 0,
    ensures
        fits(dt, GgufCodec::stored(dt, numel), numel) == (numel % tensor::grain(dt) == 0),
{
}

/// Each element depends on its own block alone: decoding a tail of whole
/// blocks by itself gives the tail of the decoded tensor.
pub proof fn law_blocks_decode_independently(dt: DType, src: Seq<u8>, skip: int, i: int)
    requires
        tensor::is_block(dt),
        skip >= 0,
        i >= 0,
        (skip + i / tensor::grain(dt) + 1) * tensor::block_len(dt) <= src.len(),
    ensures
        element(
            dt,
            block(dt, src, (skip * tensor::grain(dt) + i) / tensor::grain(dt)),
            (skip * tensor::grain(dt) + i) % tensor::grain(dt),
        ) == element(
            dt,
            block(dt, src.skip(skip * tensor::block_len(dt)), i / tensor::grain(dt)),
            i % tensor::grain(dt),
        ),
{
    let g = tensor::grain(dt);
    let bs = tensor::block_len(dt);
    let q = i / g;
    vstd::arithmetic::div_mod::lemma_fundamental_div_mod(i, g);
    assert(skip * g + i == (skip + q) * g + i % g) by (nonlinear_arith)
        requires
            i == g * q + i % g,
    ;
    vstd::arithmetic::div_mod::lemma_fundamental_div_mod_converse(
        skip * g + i,
        g,
        skip + q,
        i % g,
    );
    assert(q >= 0) by (nonlinear_arith)
        requires
            i == g * q + i % g,
            0 <= i % g < g,
            i >= 0,
    ;
    assert((skip + q) * bs == skip * bs + q * bs) by (nonlinear_arith);
    assert((skip + q + 1) * bs == skip * bs + q * bs + bs) by (nonlinear_arith);
    assert(skip * bs >= 0 && q * bs >= 0) by (nonlinear_arith)
        requires
            skip >= 0,
            q >= 0,
            bs >= 1,
    ;
    assert(block(dt, src, skip + q) == block(dt, src.skip(skip * bs), q));
}

} // verus!
