//! Device kernels against host references: inputs, references and verdicts.
use vstd::prelude::*;

use crate::ieee::Format;
use crate::num::{f32_add, f32_div, f32_from_i32, f32_mul, f32_sub, f32_to_f16};
use crate::quant::gguf;
use crate::quant::gguf::DequantError;
use crate::selftest::mock;
use crate::tensor;
use crate::tensor::DType;

verus! {

/// Bytes of blocks that a format is run on.
pub const STRESS_BYTES: usize = 67_108_864;

/// What lies outside the columns that a product writes: -777 in half
/// precision.
pub const SENTINEL: u16 = 0xe212;

/// Doubles: the sentinel, and the factors of the tolerances.
pub const SENTINEL_VALUE: u64 = 0xc088_4800_0000_0000;

pub const TRACE: u64 = 0x3eb0_c6f7_a0b5_ed8d;

pub const ROUNDING: u64 = 0x3f40_0e6a_fcce_1c58;

pub const ROUNDING_AND_QUANT: u64 = 0x3f81_2ec6_bce8_533c;

pub const THOUSANDTH: u64 = 0x3f50_624d_d2f1_a9fc;

pub const HUNDREDTH: u64 = 0x3f84_7ae1_47ae_147b;

pub const FOUR: u64 = 0x4010_0000_0000_0000;

pub const EIGHT: u64 = 0x4020_0000_0000_0000;

/// The formats, in the order in which they are run.
pub open spec fn formats() -> Seq<DType> {
    seq![
        DType::GgufQ8_0,
        DType::GgufQ4_0,
        DType::GgufQ4_1,
        DType::GgufQ5_0,
        DType::GgufQ5_1,
        DType::GgufQ4K,
        DType::GgufQ5K,
        DType::GgufQ6K,
        DType::GgufIQ4XS,
    ]
}

pub fn format_list() -> (r: Vec<DType>)
    ensures
        r@ == formats(),
{
    let mut r: Vec<DType> = Vec::new();
    r.push(DType::GgufQ8_0);
    r.push(DType::GgufQ4_0);
    r.push(DType::GgufQ4_1);
    r.push(DType::GgufQ5_0);
    r.push(DType::GgufQ5_1);
    r.push(DType::GgufQ4K);
    r.push(DType::GgufQ5K);
    r.push(DType::GgufQ6K);
    r.push(DType::GgufIQ4XS);
    assert(r@ =~= formats());
    r
}

/// Every format of the list is one of packed blocks.
pub proof fn law_listed_formats_are_packed(i: int)
    requires
        0 <= i < formats().len(),
    ensures
        tensor::is_block(formats()[i]),
{
}

// Random blocks.

/// Byte `j` of a number, the lowest first.
pub open spec fn byte_at(s: u64, j: int) -> u8
    decreases j,
{
    if j <= 0 {
        (s % 256) as u8
    } else {
        byte_at((s / 256) as u64, j - 1)
    }
}

/// `n` random bytes, eight to a draw; what is left over stays zero.
pub open spec fn random_bytes(s: u64, n: int) -> Seq<u8> {
    Seq::new(
        n as nat,
        |i: int|
            if i < n / 8 * 8 {
                byte_at(mock::state_after(s, i / 8 + 1), i % 8)
            } else {
                0u8
            },
    )
}

fn stir(seed: &mut u64)
    ensures
        *final(seed) == mock::stirred(*old(seed)),
{
    let s1: u64 = *seed ^ (*seed << 13);
    let s2: u64 = s1 ^ (s1 >> 7);
    let s3: u64 = s2 ^ (s2 << 17);
    *seed = s3;
}

fn push_number(v: &mut Vec<u8>, s: u64)
    ensures
        final(v)@ == old(v)@ + Seq::new(8, |j: int| byte_at(s, j)),
{
    let ghost v0 = v@;
    let mut t: u64 = s;
    let mut j: usize = 0;
    while j < 8
        invariant
            j <= 8,
            forall|k: int| 0 <= k ==> #[trigger] byte_at(t, k) == byte_at(s, k + j),
            v@ =~= v0 + Seq::new(j as nat, |k: int| byte_at(s, k)),
        decreases 8 - j,
    {
        let ghost t0 = t;
        assert(byte_at(t0, 0) == byte_at(s, j as int));
        v.push((t % 256) as u8);
        t = t / 256;
        proof {
            assert forall|k: int| 0 <= k implies #[trigger] byte_at(t, k) == byte_at(
                s,
                k + (j + 1),
            ) by {
                assert(byte_at(t0, k + 1) == byte_at(s, k + 1 + j));
            }
        }
        j = j + 1;
    }
}

/// Draw `n` random bytes.
pub fn draw_bytes(seed: &mut u64, n: usize) -> (r: Vec<u8>)
    ensures
        r@ == random_bytes(*old(seed), n as int),
        *final(seed) == mock::state_after(*old(seed), (n as int) / 8),
{
    let ghost s0 = *seed;
    let ghost want = random_bytes(s0, n as int);
    let whole: usize = n / 8;
    let mut r: Vec<u8> = Vec::new();
    let mut i: usize = 0;
    while i < whole
        invariant
            i <= whole,
            whole == n / 8,
            want == random_bytes(s0, n as int),
            *seed == mock::state_after(s0, i as int),
            r@ =~= want.take(8 * i),
        decreases whole - i,
    {
        stir(seed);
        let ghost before = r@;
        push_number(&mut r, *seed);
        proof {
            assert(*seed == mock::state_after(s0, i + 1));
            assert(r@.len() == 8 * i + 8);
            assert forall|k: int| 0 <= k < 8 * i + 8 implies r@[k] == want.take(8 * i + 8)[k] by {
                if k >= 8 * i {
                    assert(k / 8 == i && k % 8 == k - 8 * i);
                } else {
                    assert(r@[k] == before[k]);
                    assert(before[k] == want.take(8 * i)[k]);
                }
            }
            assert(r@ =~= want.take(8 * i + 8));
        }
        i = i + 1;
    }
    while r.len() < n
        invariant
            8 * whole <= r@.len() <= n,
            whole == n / 8,
            want == random_bytes(s0, n as int),
            r@ =~= want.take(r@.len() as int),
        decreases n - r@.len(),
    {
        let ghost k = r@.len() as int;
        r.push(0);
        assert(want[k] == 0);
        assert(r@ =~= want.take(k + 1));
    }
    assert(want.take(n as int) =~= want);
    r
}

/// A half-precision pattern with its exponent set to fourteen.
pub open spec fn pinned(h: u16) -> u16 {
    (h & 0x83ff) | 0x3800
}

/// Where the scales of a block stand: the first, and the second if there is
/// one.
pub open spec fn scale_places(dt: DType) -> (int, Option<int>) {
    match dt {
        DType::GgufQ6K => (208, None),
        DType::GgufQ4_1 | DType::GgufQ5_1 | DType::GgufQ4K | DType::GgufQ5K => (0, Some(2int)),
        _ => (0, None),
    }
}

/// `b` with the half at `at` pinned.
pub open spec fn pinned_at(b: Seq<u8>, at: int) -> Seq<u8> {
    let h = pinned((b[at] + 256 * b[at + 1]) as u16);
    b.update(at, (h % 256) as u8).update(at + 1, (h / 256) as u8)
}

/// A block with its scales pinned.
pub open spec fn pinned_block(dt: DType, b: Seq<u8>) -> Seq<u8> {
    let (p, q) = scale_places(dt);
    match q {
        Some(q) => pinned_at(pinned_at(b, p), q),
        None => pinned_at(b, p),
    }
}

fn pin(b: &mut Vec<u8>, at: usize)
    requires
        at + 1 < old(b)@.len(),
    ensures
        final(b)@ == pinned_at(old(b)@, at as int),
{
    assert(b.len() == b@.len());
    let h: u16 = b[at] as u16 + 256 * (b[at + 1] as u16);
    let p: u16 = (h & 0x83ff) | 0x3800;
    b.set(at, (p % 256) as u8);
    b.set(at + 1, (p / 256) as u8);
}

/// Pin the scales of a block, so that no element is infinite.
pub fn pin_block(dt: DType, b: &mut Vec<u8>)
    requires
        tensor::is_block(dt),
        old(b)@.len() == tensor::block_len(dt),
    ensures
        final(b)@ == pinned_block(dt, old(b)@),
{
    match dt {
        DType::GgufQ6K => {
            pin(b, 208);
        },
        DType::GgufQ4_1 | DType::GgufQ5_1 | DType::GgufQ4K | DType::GgufQ5K => {
            pin(b, 0);
            pin(b, 2);
        },
        _ => {
            pin(b, 0);
        },
    }
}

/// A number between -1 and 1 from a draw, as single precision.
pub open spec fn unit_draw(s: u64) -> int {
    Format::F32.difference(
        Format::F32.quotient(Format::F32.of_int((s % 2000) as int), 0x447a_0000),
        0x3f80_0000,
    )
}

/// A half-precision input from a draw: `scale` times a number in reach of 1.
pub fn draw_half(seed: &mut u64, scale: u32) -> (r: u16)
    ensures
        *final(seed) == mock::stirred(*old(seed)),
        r == Format::F32.convert(
            Format::F16,
            Format::F32.product(unit_draw(*final(seed)), scale as int),
        ),
{
    stir(seed);
    let u: u32 = f32_sub(
        f32_div(f32_from_i32((*seed % 2000) as i32), 0x447a_0000),
        0x3f80_0000,
    );
    f32_to_f16(f32_mul(u, scale))
}

/// The input of column `i`: magnitudes that differ, small enough for every
/// product to stay finite.
pub fn draw_input(seed: &mut u64, i: usize) -> (r: u16)
    ensures
        *final(seed) == mock::stirred(*old(seed)),
        r == Format::F32.convert(
            Format::F16,
            Format::F32.product(
                Format::F32.product(
                    unit_draw(*final(seed)),
                    Format::F32.sum(
                        0x3f80_0000,
                        Format::F32.product(Format::F32.of_int((i as int) % 7), 0x3dcc_cccd),
                    ),
                ),
                0x3cf5_c28f,
            ),
        ),
{
    stir(seed);
    let u: u32 = f32_sub(
        f32_div(f32_from_i32((*seed % 2000) as i32), 0x447a_0000),
        0x3f80_0000,
    );
    let grow: u32 = f32_add(0x3f80_0000, f32_mul(f32_from_i32((i % 7) as i32), 0x3dcc_cccd));
    f32_to_f16(f32_mul(f32_mul(u, grow), 0x3cf5_c28f))
}

// Exact comparison.

pub open spec fn half_nan(h: u16) -> bool {
    Format::F16.is_nan(h as int)
}

/// The two agree: equal, or both no numbers.
pub open spec fn agree(a: u16, b: u16) -> bool {
    a == b || (half_nan(a) && half_nan(b))
}

/// The first place from `i` on where the two differ.
pub open spec fn first_difference(a: Seq<u16>, b: Seq<u16>, i: int) -> Option<int>
    decreases a.len() - i,
{
    if i < 0 || i >= a.len() || i >= b.len() {
        None
    } else if !agree(a[i], b[i]) {
        Some(i)
    } else {
        first_difference(a, b, i + 1)
    }
}

/// How many of the first `n` places differ.
pub open spec fn differences(a: Seq<u16>, b: Seq<u16>, n: int) -> int
    decreases n,
{
    if n <= 0 {
        0
    } else {
        differences(a, b, n - 1) + (if agree(a[n - 1], b[n - 1]) {
            0int
        } else {
            1int
        })
    }
}

/// A device result that is not the host's.
#[derive(Clone, Copy, PartialEq, Eq, Debug, Structural)]
pub struct Mismatch {
    pub count: usize,
    pub first: usize,
}

/// Hold a device result against the host's, bit for bit; patterns that are no
/// numbers count as equal.
pub fn exact(host: &Vec<u16>, device: &Vec<u16>) -> (r: Result<(), Mismatch>)
    requires
        host@.len() == device@.len(),
    ensures
        match r {
            Ok(()) => forall|i: int|
                0 <= i < host@.len() ==> agree(#[trigger] host@[i], device@[i]),
            Err(m) => first_difference(host@, device@, 0) == Some(m.first as int) && m.count
                == differences(host@, device@, host@.len() as int) && m.count > 0,
        },
{
    let n: usize = host.len();
    let mut count: usize = 0;
    let mut first: usize = 0;
    let mut i: usize = 0;
    while i < n
        invariant
            i <= n,
            n == host@.len(),
            n == device@.len(),
            count <= i,
            count == differences(host@, device@, i as int),
            count == 0 ==> first_difference(host@, device@, 0) == first_difference(
                host@,
                device@,
                i as int,
            ) && forall|k: int| 0 <= k < i ==> agree(#[trigger] host@[k], device@[k]),
            count > 0 ==> first_difference(host@, device@, 0) == Some(first as int),
        decreases n - i,
    {
        let a: u16 = host[i];
        let b: u16 = device[i];
        let same: bool = a == b || (Format::F16.nan_pattern(a as u64) && Format::F16.nan_pattern(
            b as u64,
        ));
        if !same {
            if count == 0 {
                first = i;
            }
            count = count + 1;
        }
        i = i + 1;
    }
    if count == 0 {
        Ok(())
    } else {
        Err(Mismatch { count, first })
    }
}

// References in double precision.

pub open spec fn wide(h: u16) -> int {
    Format::F16.convert(Format::F64, h as int)
}

/// The first `n` terms of a dot product, added up; with `squared` their
/// squares.
pub open spec fn dot(a: Seq<u16>, i: int, b: Seq<u16>, j: int, n: int, squared: bool) -> int
    decreases n,
{
    if n <= 0 {
        0
    } else {
        let t = Format::F64.product(wide(a[i + n - 1]), wide(b[j + n - 1]));
        Format::F64.sum(
            dot(a, i, b, j, n - 1, squared),
            if squared {
                Format::F64.product(t, t)
            } else {
                t
            },
        )
    }
}

fn dot_of(a: &Vec<u16>, i: usize, b: &Vec<u16>, j: usize, n: usize) -> (r: (u64, u64))
    requires
        i + n <= a@.len(),
        j + n <= b@.len(),
    ensures
        r.0 == dot(a@, i as int, b@, j as int, n as int, false),
        r.1 == dot(a@, i as int, b@, j as int, n as int, true),
{
    let mut acc: u64 = 0;
    let mut sq: u64 = 0;
    let mut e: usize = 0;
    while e < n
        invariant
            e <= n,
            i + n <= a@.len(),
            j + n <= b@.len(),
            acc == dot(a@, i as int, b@, j as int, e as int, false),
            sq == dot(a@, i as int, b@, j as int, e as int, true),
        decreases n - e,
    {
        assert(a.len() == a@.len() && b.len() == b@.len());
        let x: u64 = Format::F16.to_format(Format::F64, a[i + e] as u64);
        let y: u64 = Format::F16.to_format(Format::F64, b[j + e] as u64);
        let t: u64 = Format::F64.multiply(x, y);
        acc = Format::F64.plus(acc, t);
        sq = Format::F64.plus(sq, Format::F64.multiply(t, t));
        e = e + 1;
    }
    (acc, sq)
}

/// The distance of a half from a double.
pub open spec fn distance(got: u16, want: int) -> int {
    Format::F64.mag(Format::F64.difference(wide(got), want))
}

fn distance_of(got: u16, want: u64) -> (r: u64)
    ensures
        r == distance(got, want as int),
{
    let x: u64 = Format::F16.to_format(Format::F64, got as u64);
    Format::F64.magnitude(Format::F64.minus(x, want))
}

/// What a row of a matrix-vector product may be off by: rounded weights and
/// quantized inputs, in proportion to its terms.
pub open spec fn gemv_tolerance(sq: int) -> int {
    Format::F64.sum(
        Format::F64.product(
            FOUR as int,
            Format::F64.product(Format::F64.root(sq), ROUNDING_AND_QUANT as int),
        ),
        HUNDREDTH as int,
    )
}

/// Row `r` of a matrix-vector product is off.
pub open spec fn gemv_off(y: Seq<u16>, w: Seq<u16>, x: Seq<u16>, k: int, r: int) -> bool {
    Format::F64.less(
        gemv_tolerance(dot(w, r * k, x, 0, k, true)),
        distance(y[r], dot(w, r * k, x, 0, k, false)),
    )
}

/// The first row from `r` on that is off.
pub open spec fn gemv_fault(
    y: Seq<u16>,
    w: Seq<u16>,
    x: Seq<u16>,
    n: int,
    k: int,
    r: int,
) -> Option<int>
    decreases n - r,
{
    if r >= n {
        None
    } else if gemv_off(y, w, x, k, r) {
        Some(r)
    } else {
        gemv_fault(y, w, x, n, k, r + 1)
    }
}

/// Hold a device's matrix-vector product against the reference.
pub fn check_gemv(y: &Vec<u16>, w: &Vec<u16>, x: &Vec<u16>, n: usize, k: usize) -> (r: Result<
    (),
    usize,
>)
    requires
        n * k <= w@.len(),
        n <= y@.len(),
        k <= x@.len(),
    ensures
        match r {
            Ok(()) => gemv_fault(y@, w@, x@, n as int, k as int, 0) is None,
            Err(i) => gemv_fault(y@, w@, x@, n as int, k as int, 0) == Some(i as int),
        },
{
    let mut r: usize = 0;
    assert(w.len() == w@.len());
    while r < n
        invariant
            r <= n,
            n * k <= w@.len(),
            w@.len() <= usize::MAX,
            n <= y@.len(),
            k <= x@.len(),
            gemv_fault(y@, w@, x@, n as int, k as int, 0) == gemv_fault(
                y@,
                w@,
                x@,
                n as int,
                k as int,
                r as int,
            ),
        decreases n - r,
    {
        assert(w.len() == w@.len());
        assert(0 <= r * k && r * k + k <= n * k) by (nonlinear_arith)
            requires
                0 <= r < n,
                0 <= k,
        ;
        let (want, sq): (u64, u64) = dot_of(w, r * k, x, 0, k);
        let unit: u64 = Format::F64.multiply(Format::F64.square_root(sq), ROUNDING_AND_QUANT);
        let tol: u64 = Format::F64.plus(Format::F64.multiply(FOUR, unit), HUNDREDTH);
        let off: u64 = distance_of(y[r], want);
        if Format::F64.lt(tol, off) {
            return Err(r);
        }
        r = r + 1;
    }
    Ok(())
}

/// What an element of a matrix product may be off by.
pub open spec fn gemm_tolerance(sq: int) -> int {
    let unit = Format::F64.sum(
        Format::F64.product(Format::F64.root(sq), ROUNDING as int),
        THOUSANDTH as int,
    );
    Format::F64.sum(Format::F64.product(EIGHT as int, unit), HUNDREDTH as int)
}

/// What is wrong with a matrix product.
#[derive(Clone, Copy, PartialEq, Eq, Debug, Structural)]
pub enum GemmFault {
    /// Written outside its columns.
    Outside { row: usize, col: usize },
    /// Too far from the reference.
    Off { row: usize, col: usize },
}

/// The shape of a product: `m` rows of `n` columns over `k` terms, with rows
/// `ldc` apart.
#[derive(Clone, Copy, PartialEq, Eq, Debug, Structural)]
pub struct GemmShape {
    pub m: usize,
    pub n: usize,
    pub k: usize,
    pub ldc: usize,
}

/// What is wrong at a row and column.
pub open spec fn gemm_fault_at(
    c: Seq<u16>,
    a: Seq<u16>,
    b: Seq<u16>,
    s: GemmShape,
    row: int,
    col: int,
) -> Option<GemmFault> {
    let got = c[row * s.ldc + col];
    if col >= s.n {
        if Format::F64.less(TRACE as int, distance(got, SENTINEL_VALUE as int)) {
            Some(GemmFault::Outside { row: row as usize, col: col as usize })
        } else {
            None
        }
    } else if Format::F64.less(
        gemm_tolerance(dot(a, row * s.k, b, col * s.k, s.k as int, true)),
        distance(got, dot(a, row * s.k, b, col * s.k, s.k as int, false)),
    ) {
        Some(GemmFault::Off { row: row as usize, col: col as usize })
    } else {
        None
    }
}

/// The first fault from a row and column on, row by row.
pub open spec fn gemm_fault(
    c: Seq<u16>,
    a: Seq<u16>,
    b: Seq<u16>,
    s: GemmShape,
    row: int,
    col: int,
) -> Option<GemmFault>
    decreases s.m - row, s.ldc - col,
{
    if row >= s.m {
        None
    } else if col >= s.ldc {
        gemm_fault(c, a, b, s, row + 1, 0)
    } else {
        match gemm_fault_at(c, a, b, s, row, col) {
            Some(f) => Some(f),
            None => gemm_fault(c, a, b, s, row, col + 1),
        }
    }
}

/// Hold a device's matrix product against the reference, and what lies
/// outside its columns against the sentinel.
pub fn run_gemm(c: &Vec<u16>, a: &Vec<u16>, b: &Vec<u16>, s: GemmShape) -> (r: Result<
    (),
    GemmFault,
>)
    requires
        s.m * s.ldc <= c@.len(),
        s.m * s.k <= a@.len(),
        s.n * s.k <= b@.len(),
    ensures
        match r {
            Ok(()) => gemm_fault(c@, a@, b@, s, 0, 0) is None,
            Err(f) => gemm_fault(c@, a@, b@, s, 0, 0) == Some(f),
        },
{
    let mut row: usize = 0;
    while row < s.m
        invariant
            row <= s.m,
            s.m * s.ldc <= c@.len(),
            s.m * s.k <= a@.len(),
            s.n * s.k <= b@.len(),
            gemm_fault(c@, a@, b@, s, 0, 0) == gemm_fault(c@, a@, b@, s, row as int, 0),
        decreases s.m - row,
    {
        let mut col: usize = 0;
        assert(c.len() == c@.len() && a.len() == a@.len() && b.len() == b@.len());
        assert(0 <= row * s.ldc && row * s.ldc + s.ldc <= s.m * s.ldc) by (nonlinear_arith)
            requires
                0 <= row < s.m,
                0 <= s.ldc,
        ;
        assert(0 <= row * s.k && row * s.k + s.k <= s.m * s.k) by (nonlinear_arith)
            requires
                0 <= row < s.m,
                0 <= s.k,
        ;
        while col < s.ldc
            invariant
                row < s.m,
                col <= s.ldc,
                c@.len() <= usize::MAX,
                a@.len() <= usize::MAX,
                b@.len() <= usize::MAX,
                s.n * s.k <= b@.len(),
                0 <= row * s.ldc,
                row * s.ldc + s.ldc <= c@.len(),
                0 <= row * s.k,
                row * s.k + s.k <= a@.len(),
                gemm_fault(c@, a@, b@, s, 0, 0) == gemm_fault(
                    c@,
                    a@,
                    b@,
                    s,
                    row as int,
                    col as int,
                ),
            decreases s.ldc - col,
        {
            let got: u16 = c[row * s.ldc + col];
            if col >= s.n {
                if Format::F64.lt(TRACE, distance_of(got, SENTINEL_VALUE)) {
                    return Err(GemmFault::Outside { row, col });
                }
            } else {
                assert(b.len() == b@.len());
                assert(0 <= col * s.k && col * s.k + s.k <= s.n * s.k) by (nonlinear_arith)
                    requires
                        0 <= col < s.n,
                        0 <= s.k,
                ;
                let (want, sq): (u64, u64) = dot_of(a, row * s.k, b, col * s.k, s.k);
                let unit: u64 = Format::F64.plus(
                    Format::F64.multiply(Format::F64.square_root(sq), ROUNDING),
                    THOUSANDTH,
                );
                let tol: u64 = Format::F64.plus(Format::F64.multiply(EIGHT, unit), HUNDREDTH);
                if Format::F64.lt(tol, distance_of(got, want)) {
                    return Err(GemmFault::Off { row, col });
                }
            }
            col = col + 1;
        }
        row = row + 1;
    }
    Ok(())
}

// Gathered rows.

/// Row `id` of a packed table.
pub open spec fn table_row(table: Seq<u8>, id: int, row_bytes: int) -> Seq<u8> {
    table.subrange(id * row_bytes, id * row_bytes + row_bytes)
}

/// The rows of the ids, decoded on the host.
pub fn gather_reference(
    dt: DType,
    table: &Vec<u8>,
    row_bytes: usize,
    ids: &Vec<u32>,
    hidden: usize,
) -> (r: Result<Vec<u16>, DequantError>)
    requires
        tensor::is_block(dt),
        ids@.len() * hidden <= usize::MAX,
        forall|i: int|
            0 <= i < ids@.len() ==> (#[trigger] ids@[i]) * row_bytes + row_bytes <= table@.len(),
    ensures
        match r {
            Ok(v) => v@.len() == ids@.len() * hidden && forall|i: int|
                0 <= i < ids@.len() ==> gguf::decoded(
                    dt,
                    table_row(table@, #[trigger] ids@[i] as int, row_bytes as int),
                    hidden as int,
                    Seq::new(hidden as nat, |k: int| 0u16),
                    v@.subrange(i * hidden, i * hidden + hidden),
                ),
            Err(e) => ids@.len() > 0 && !gguf::fits(dt, row_bytes as int, hidden as int) && e
                == (DequantError::SizeMismatch { format: dt, elems: hidden, bytes: row_bytes }),
        },
{
    let mut r: Vec<u16> = Vec::new();
    let mut i: usize = 0;
    let ghost blank = Seq::new(hidden as nat, |k: int| 0u16);
    while i < ids.len()
        invariant
            i <= ids@.len(),
            tensor::is_block(dt),
            blank == Seq::new(hidden as nat, |k: int| 0u16),
            r@.len() == i * hidden,
            forall|k: int|
                0 <= k < ids@.len() ==> (#[trigger] ids@[k]) * row_bytes + row_bytes
                    <= table@.len(),
            forall|k: int|
                0 <= k < i ==> gguf::decoded(
                    dt,
                    table_row(table@, #[trigger] ids@[k] as int, row_bytes as int),
                    hidden as int,
                    blank,
                    r@.subrange(k * hidden, k * hidden + hidden),
                ),
        decreases ids@.len() - i,
    {
        let id: usize = ids[i] as usize;
        assert(ids@[i as int] * row_bytes + row_bytes <= table@.len());
        assert(table.len() == table@.len());
        assert(0 <= id * row_bytes) by (nonlinear_arith)
            requires
                0 <= id,
                0 <= row_bytes,
        ;
        let src: &[u8] = vstd::slice::slice_subrange(
            table.as_slice(),
            id * row_bytes,
            id * row_bytes + row_bytes,
        );
        assert(src@ == table_row(table@, id as int, row_bytes as int));
        let mut row: Vec<u16> = Vec::new();
        let mut k: usize = 0;
        while k < hidden
            invariant
                k <= hidden,
                row@ =~= Seq::new(k as nat, |m: int| 0u16),
            decreases hidden - k,
        {
            row.push(0);
            k = k + 1;
        }
        assert(row@ =~= blank);
        match gguf::dequant_host(dt, src, hidden, row.as_mut_slice()) {
            Err(e) => {
                return Err(e);
            },
            Ok(()) => {},
        }
        let ghost before = r@;
        let ghost got = row@;
        r.append(&mut row);
        proof {
            let h = hidden as int;
            assert((i + 1) * hidden == i * hidden + hidden) by (nonlinear_arith);
            assert(r@ =~= before + got);
            assert forall|k: int| 0 <= k < i + 1 implies gguf::decoded(
                dt,
                table_row(table@, #[trigger] ids@[k] as int, row_bytes as int),
                hidden as int,
                blank,
                r@.subrange(k * hidden, k * hidden + hidden),
            ) by {
                if k < i {
                    assert(k * h + h <= i * h && 0 <= k * h) by (nonlinear_arith)
                        requires
                            0 <= k < i,
                            0 <= h,
                    ;
                    assert(r@.subrange(k * hidden, k * hidden + hidden) =~= before.subrange(
                        k * hidden,
                        k * hidden + hidden,
                    ));
                } else {
                    assert(r@.subrange(k * hidden, k * hidden + hidden) =~= got);
                }
            }
        }
        i = i + 1;
    }
    Ok(r)
}

} // verus!
