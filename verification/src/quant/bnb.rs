//! bitsandbytes 4-bit weights.
//!
//! A quantized linear weight `W` is a family of tensors:
//!
//! | tensor                                  | dtype  | content |
//! |-----------------------------------------|--------|---------|
//! | `W`                                     | U8     | packed nibbles, the high one first |
//! | `W.absmax`                              | U8/F32 | per-block scale (U8 when quantized itself) |
//! | `W.quant_map`                           | F32    | the 16-entry codebook |
//! | `W.nested_absmax`                       | F32    | scale of the absmax blocks |
//! | `W.nested_quant_map`                    | F32    | codebook of the absmax |
//! | `W.quant_state.bitsandbytes__{nf4,fp4}` | U8     | JSON: blocksize, shape, offset |
//!
//! ```text
//! absmax[i] = nested_quant_map[absmax_u8[i]] * nested_absmax[i / nested_blocksize] + nested_offset
//! w[idx]    = quant_map[nibble(idx)] * absmax[idx / blocksize]
//! ```
use vstd::prelude::*;

use crate::ieee::Format;
use crate::json;
use crate::json::Json;
use crate::num;
use crate::num::{f32_add, f32_mul, f32_to_f16, read_le32};
use crate::tensor;
use crate::tensor::{block_elems, DType, TensorMeta};
use crate::text;
use crate::weights::LoadedWeights;

verus! {

/// A buffer on the device.
#[derive(Clone, Copy, PartialEq, Eq, Debug, Structural)]
pub struct DeviceBuf {
    pub ptr: u64,
    pub bytes: usize,
}

/// The parsed quantization state of a packed weight.
#[derive(Clone, Copy, PartialEq, Eq, Debug, Structural)]
pub struct BnbState {
    pub blocksize: usize,
    pub rows: usize,
    pub cols: usize,
    pub nested_blocksize: usize,
    pub nested_offset: u32,
}

/// A 4-bit weight on the device, row-major `[rows, cols]`.
#[derive(Clone, Copy, PartialEq, Eq, Debug, Structural)]
pub struct BnbNf4 {
    pub packed: DeviceBuf,
    pub absmax: DeviceBuf,
    pub qmap: DeviceBuf,
    pub rows: usize,
    pub cols: usize,
    pub blocksize: usize,
}

/// A linear weight on the device.
#[derive(Clone, Copy, PartialEq, Eq, Debug, Structural)]
pub enum WTensor {
    F16(DeviceBuf),
    Nf4(BnbNf4),
    /// A block-quantized weight, as stored.
    Gguf { buf: DeviceBuf, fmt: DType, n: usize, k: usize },
}

/// One launch on the device.
#[derive(Clone, Copy, PartialEq, Eq, Debug, Structural)]
pub enum Launch {
    /// `y[m, n] = x[m, k] @ w[n, k]^T` in half precision.
    GemmF16 { x: u64, w: u64, y: u64, m: usize, n: usize, k: usize },
    /// The fused product of one row with a block-quantized weight.
    GgufGemv { fmt: DType, x: u64, w: u64, y: u64, n: usize, k: usize },
    /// Expands blocks to half precision.
    GgufDequant { fmt: DType, src: u64, dst: u64, blocks: usize },
    /// The fused product of one row with a 4-bit weight.
    Nf4Gemv { x: u64, q: BnbNf4, y: u64, n: usize, k: usize },
    /// Expands a 4-bit weight to half precision.
    Nf4Dequant { q: BnbNf4, dst: u64, numel: usize },
}

/// Why a product cannot run.
#[derive(Clone, Copy, PartialEq, Eq, Debug, Structural)]
pub enum GemmError {
    /// The weight is `[rows, cols]`, the graph wants `[n, k]`.
    Shape { rows: usize, cols: usize, n: usize, k: usize },
    /// Several rows need a buffer to expand the weight into.
    NoScratch,
}

impl WTensor {
    /// The launches of `y[m, n] = x[m, k] @ W^T`: half precision directly; a
    /// single row on a quantized weight by its fused kernel; several rows by
    /// expanding the weight into `scratch` first.
    pub open spec fn launches(
        self,
        x: u64,
        y: u64,
        m: usize,
        n: usize,
        k: usize,
        scratch: u64,
    ) -> Result<Seq<Launch>, GemmError> {
        match self {
            WTensor::F16(w) => Ok(seq![Launch::GemmF16 { x, w: w.ptr, y, m, n, k }]),
            WTensor::Gguf { buf, fmt, n: wn, k: wk } => if wn != n || wk != k {
                Err(GemmError::Shape { rows: wn, cols: wk, n, k })
            } else if m == 1 {
                Ok(seq![Launch::GgufGemv { fmt, x, w: buf.ptr, y, n, k }])
            } else if scratch == 0 {
                Err(GemmError::NoScratch)
            } else {
                Ok(
                    seq![
                        Launch::GgufDequant {
                            fmt,
                            src: buf.ptr,
                            dst: scratch,
                            blocks: ((n * k) / tensor::grain(fmt)) as usize,
                        },
                        Launch::GemmF16 { x, w: scratch, y, m, n, k },
                    ],
                )
            },
            WTensor::Nf4(q) => if q.rows != n || q.cols != k {
                Err(GemmError::Shape { rows: q.rows, cols: q.cols, n, k })
            } else if m == 1 {
                Ok(seq![Launch::Nf4Gemv { x, q, y, n, k }])
            } else if scratch == 0 {
                Err(GemmError::NoScratch)
            } else {
                Ok(
                    seq![
                        Launch::Nf4Dequant { q, dst: scratch, numel: (n * k) as usize },
                        Launch::GemmF16 { x, w: scratch, y, m, n, k },
                    ],
                )
            },
        }
    }

    /// `y[m, n] = x[m, k] @ W[n, k]^T`, as the launches that compute it.
    /// `scratch` holds `n * k` half-precision elements where a quantized
    /// weight meets several rows.
    pub fn gemm(&self, x: u64, y: u64, m: usize, n: usize, k: usize, scratch: u64) -> (r: Result<
        Vec<Launch>,
        GemmError,
    >)
        requires
            n * k <= usize::MAX,
        ensures
            match r {
                Ok(v) => self.launches(x, y, m, n, k, scratch) == Ok::<Seq<Launch>, GemmError>(
                    v@,
                ),
                Err(e) => self.launches(x, y, m, n, k, scratch) == Err::<Seq<Launch>, GemmError>(
                    e,
                ),
            },
    {
        let mut out: Vec<Launch> = Vec::new();
        match self {
            WTensor::F16(w) => {
                out.push(Launch::GemmF16 { x, w: w.ptr, y, m, n, k });
                assert(out@ =~= seq![Launch::GemmF16 { x, w: w.ptr, y, m, n, k }]);
            },
            WTensor::Gguf { buf, fmt, n: wn, k: wk } => {
                if *wn != n || *wk != k {
                    return Err(GemmError::Shape { rows: *wn, cols: *wk, n, k });
                }
                if m == 1 {
                    out.push(Launch::GgufGemv { fmt: *fmt, x, w: buf.ptr, y, n, k });
                    assert(out@ =~= self.launches(x, y, m, n, k, scratch)->Ok_0);
                } else {
                    if scratch == 0 {
                        return Err(GemmError::NoScratch);
                    }
                    let blocks: usize = n * k / block_elems(*fmt);
                    out.push(
                        Launch::GgufDequant { fmt: *fmt, src: buf.ptr, dst: scratch, blocks },
                    );
                    out.push(Launch::GemmF16 { x, w: scratch, y, m, n, k });
                    assert(out@ =~= self.launches(x, y, m, n, k, scratch)->Ok_0);
                }
            },
            WTensor::Nf4(q) => {
                if q.rows != n || q.cols != k {
                    return Err(GemmError::Shape { rows: q.rows, cols: q.cols, n, k });
                }
                if m == 1 {
                    out.push(Launch::Nf4Gemv { x, q: *q, y, n, k });
                    assert(out@ =~= self.launches(x, y, m, n, k, scratch)->Ok_0);
                } else {
                    if scratch == 0 {
                        return Err(GemmError::NoScratch);
                    }
                    out.push(Launch::Nf4Dequant { q: *q, dst: scratch, numel: n * k });
                    out.push(Launch::GemmF16 { x, w: scratch, y, m, n, k });
                    assert(out@ =~= self.launches(x, y, m, n, k, scratch)->Ok_0);
                }
            },
        }
        Ok(out)
    }
}

/// The name of the state tensor of the quantization `kind`.
pub open spec fn state_key(name: Seq<char>, kind: Seq<char>) -> Seq<char> {
    name + ".quant_state.bitsandbytes__"@ + kind
}

/// The state tensor of `name`, where it is a packed weight: NF4 before FP4.
pub open spec fn state_of(w: &LoadedWeights, name: Seq<char>) -> Option<Seq<char>> {
    if w.holds(state_key(name, "nf4"@)) {
        Some(state_key(name, "nf4"@))
    } else if w.holds(state_key(name, "fp4"@)) {
        Some(state_key(name, "fp4"@))
    } else {
        None
    }
}

pub fn state_name(tensors: &LoadedWeights, name: &str) -> (r: Option<String>)
    ensures
        match r {
            Some(s) => state_of(tensors, name@) == Some(s@),
            None => state_of(tensors, name@) is None,
        },
{
    let base: String = text::join(name, ".quant_state.bitsandbytes__");
    let nf4: String = text::join(base.as_str(), "nf4");
    if tensors.contains(nf4.as_str()) {
        return Some(nf4);
    }
    let fp4: String = text::join(base.as_str(), "fp4");
    if tensors.contains(fp4.as_str()) {
        return Some(fp4);
    }
    None
}

/// A tensor that only serves to decode another.
pub open spec fn aux(name: Seq<char>) -> bool {
    ||| text::ends(name, ".absmax"@)
    ||| text::ends(name, ".quant_map"@)
    ||| text::ends(name, ".nested_absmax"@)
    ||| text::ends(name, ".nested_quant_map"@)
    ||| text::has(name, ".quant_state.bitsandbytes__"@)
}

/// Auxiliary tensors are consumed by the decoder and never uploaded or
/// counted as device weights.
pub fn is_aux(name: &str) -> (r: bool)
    ensures
        r == aux(name@),
{
    text::ends_with(name, ".absmax") || text::ends_with(name, ".quant_map") || text::ends_with(
        name,
        ".nested_absmax",
    ) || text::ends_with(name, ".nested_quant_map") || text::contains(
        name,
        ".quant_state.bitsandbytes__",
    )
}

/// Device bytes of a packed weight: nibbles, single-precision scales and the
/// codebook.
pub open spec fn nf4_bytes(numel: int, blocksize: int) -> int {
    numel / 2 + (numel / blocksize) * 4 + 64
}

pub fn nf4_device_bytes(numel: usize, blocksize: usize) -> (r: usize)
    requires
        blocksize > 0,
        nf4_bytes(numel as int, blocksize as int) <= usize::MAX,
    ensures
        r == nf4_bytes(numel as int, blocksize as int),
{
    numel / 2 + (numel / blocksize) * 4 + 64
}

/// Why a packed weight could not be decoded.
#[derive(Clone, Copy, PartialEq, Eq, Debug, Structural)]
pub enum BnbError {
    /// There is no state tensor.
    NoState,
    /// The state is no UTF-8 text.
    StateNotUtf8,
    /// The state is no JSON value.
    StateNotJson,
    /// Only matrices can be executed.
    NotMatrix { dims: usize },
    /// The elements are no whole number of blocks.
    Blocksize { numel: usize, blocksize: usize },
    /// The packed bytes are not what the shape calls for.
    Payload { nbytes: usize, dtype: DType, expected: usize },
    NoAbsmax,
    AbsmaxCount { found: usize, expected: usize },
    NoNestedMap,
    NoNestedAbsmax,
    NestedShort { found: usize, block: usize },
    AbsmaxType { dtype: DType },
    NoMap,
    MapCount { found: usize },
    /// No tensor of the checkpoint is packed.
    NothingPacked,
}

/// What a step of decoding comes to.
pub enum Outcome<T> {
    Good(T),
    Fault(BnbError),
    /// An index past a table, a block of no elements or a product past the
    /// machine range.
    Degenerate,
}

/// The shape that a state declares.
pub open spec fn declared_shape(j: json::Value) -> Seq<usize> {
    match j.arr_of("shape"@) {
        Some(a) => json::sizes(a),
        None => Seq::empty(),
    }
}

/// The state that a JSON value describes.
pub open spec fn state_from(j: json::Value) -> Outcome<BnbState> {
    let shape = declared_shape(j);
    let blocksize = j.usize_or("blocksize"@, 64);
    if shape.len() != 2 {
        Outcome::Fault(BnbError::NotMatrix { dims: shape.len() as usize })
    } else {
        let numel = shape[0] * shape[1];
        if blocksize == 0 || numel > usize::MAX {
            Outcome::Degenerate
        } else if numel % (blocksize as int) != 0 {
            Outcome::Fault(BnbError::Blocksize { numel: numel as usize, blocksize })
        } else {
            Outcome::Good(
                BnbState {
                    blocksize,
                    rows: shape[0],
                    cols: shape[1],
                    nested_blocksize: j.usize_or("nested_blocksize"@, 256),
                    nested_offset: j.f32_or("nested_offset"@, 0),
                },
            )
        }
    }
}

/// The stored bytes of entry `i`.
pub open spec fn bytes_at(w: &LoadedWeights, i: int) -> Seq<u8> {
    w.data@[i]@
}

/// The quantization state of `name`.
pub open spec fn state_outcome(w: &LoadedWeights, name: Seq<char>) -> Outcome<BnbState> {
    match state_of(w, name) {
        None => Outcome::Fault(BnbError::NoState),
        Some(key) => {
            let raw = bytes_at(w, w.find(key)->0);
            if !vstd::utf8::valid_utf8(raw) {
                Outcome::Fault(BnbError::StateNotUtf8)
            } else {
                match json::document(vstd::utf8::decode_utf8(raw)) {
                    None => Outcome::Fault(BnbError::StateNotJson),
                    Some(j) => state_from(j),
                }
            }
        },
    }
}

fn parse_value(j: &Json) -> (r: Result<BnbState, BnbError>)
    requires
        !(state_from(j@) is Degenerate),
    ensures
        match r {
            Ok(s) => state_from(j@) == Outcome::Good(s),
            Err(e) => state_from(j@) == Outcome::<BnbState>::Fault(e),
        },
{
    let shape: Vec<usize> = match j.arr_of("shape") {
        Some(a) => json::sizes_of(a),
        None => Vec::new(),
    };
    assert(shape@ =~= declared_shape(j@));
    if shape.len() != 2 {
        return Err(BnbError::NotMatrix { dims: shape.len() });
    }
    let blocksize: usize = j.usize_or("blocksize", 64);
    let numel: usize = shape[0] * shape[1];
    if numel % blocksize != 0 {
        return Err(BnbError::Blocksize { numel, blocksize });
    }
    Ok(
        BnbState {
            blocksize,
            rows: shape[0],
            cols: shape[1],
            nested_blocksize: j.usize_or("nested_blocksize", 256),
            nested_offset: j.f32_or("nested_offset", 0),
        },
    )
}

/// Parses the quantization state of the packed weight `name`.
pub fn parse_state(weights: &LoadedWeights, name: &str) -> (r: Result<BnbState, BnbError>)
    requires
        weights.wf(),
        !(state_outcome(weights, name@) is Degenerate),
    ensures
        match r {
            Ok(s) => state_outcome(weights, name@) == Outcome::Good(s),
            Err(e) => state_outcome(weights, name@) == Outcome::<BnbState>::Fault(e),
        },
{
    let key: String = match state_name(weights, name) {
        Some(k) => k,
        None => {
            return Err(BnbError::NoState);
        },
    };
    match weights.get(key.as_str()) {
        Some(i) => {
            let raw: &[u8] = weights.data[i];
            match text::from_utf8(raw) {
                None => Err(BnbError::StateNotUtf8),
                Some(txt) => match json::parse(txt.as_str()) {
                    Err(_) => Err(BnbError::StateNotJson),
                    Ok(j) => parse_value(&j),
                },
            }
        },
        None => Err(BnbError::NoState),
    }
}

/// The single-precision patterns of little-endian bytes; a rest is dropped.
pub open spec fn singles(b: Seq<u8>) -> Seq<u32> {
    Seq::new(b.len() / 4, |i: int| num::le32(b, 4 * i) as u32)
}

fn f32s(b: &[u8]) -> (r: Vec<u32>)
    ensures
        r@ == singles(b@),
{
    let n: usize = b.len() / 4;
    let mut out: Vec<u32> = Vec::new();
    let mut i: usize = 0;
    while i < n
        invariant
            i <= n,
            n == b.len() / 4,
            out@.len() == i,
            forall|k: int| 0 <= k < i ==> out@[k] == num::le32(b@, 4 * k) as u32,
        decreases n - i,
    {
        out.push(read_le32(b, 4 * i));
        i = i + 1;
    }
    assert(out@ =~= singles(b@));
    out
}

/// The entry of the member `suffix` of the family of `name`.
pub open spec fn sibling(w: &LoadedWeights, name: Seq<char>, suffix: Seq<char>) -> Option<int> {
    w.find(name + suffix)
}

fn sibling_of(w: &LoadedWeights, name: &str, suffix: &str) -> (r: Option<usize>)
    ensures
        match r {
            Some(i) => sibling(w, name@, suffix@) == Some(i as int) && i < w.metas@.len(),
            None => sibling(w, name@, suffix@) is None,
        },
{
    let key: String = text::join(name, suffix);
    w.get(key.as_str())
}

/// The scale of block `i` where the scales are quantized themselves.
pub open spec fn nested_scale(
    codes: Seq<u8>,
    map: Seq<u32>,
    scales: Seq<u32>,
    st: BnbState,
    i: int,
) -> u32 {
    Format::F32.sum(
        Format::F32.product(
            map[codes[i] as int] as int,
            scales[i / st.nested_blocksize as int] as int,
        ),
        st.nested_offset as int,
    ) as u32
}

/// The per-block scales with the double quantization folded in.
pub open spec fn absmax_outcome(
    w: &LoadedWeights,
    name: Seq<char>,
    st: BnbState,
    nblocks: int,
) -> Outcome<Seq<u32>> {
    match sibling(w, name, ".absmax"@) {
        None => Outcome::Fault(BnbError::NoAbsmax),
        Some(a) => {
            let raw = bytes_at(w, a);
            let dtype = w.metas@[a].dtype;
            match dtype {
                DType::F32 => if singles(raw).len() != nblocks {
                    Outcome::Fault(
                        BnbError::AbsmaxCount {
                            found: singles(raw).len() as usize,
                            expected: nblocks as usize,
                        },
                    )
                } else {
                    Outcome::Good(singles(raw))
                },
                DType::U8 => match (
                    sibling(w, name, ".nested_quant_map"@),
                    sibling(w, name, ".nested_absmax"@),
                ) {
                    (None, _) => Outcome::Fault(BnbError::NoNestedMap),
                    (_, None) => Outcome::Fault(BnbError::NoNestedAbsmax),
                    (Some(m), Some(s)) => {
                        let map = singles(bytes_at(w, m));
                        let scales = singles(bytes_at(w, s));
                        let bs = st.nested_blocksize as int;
                        if raw.len() != nblocks {
                            Outcome::Fault(
                                BnbError::AbsmaxCount {
                                    found: raw.len() as usize,
                                    expected: nblocks as usize,
                                },
                            )
                        } else if nblocks > 0 && (bs == 0 || exists|i: int|
                            0 <= i < nblocks && i / bs < scales.len() && #[trigger] raw[i]
                                >= map.len()) {
                            Outcome::Degenerate
                        } else if nblocks > 0 && (nblocks - 1) / bs >= scales.len() {
                            Outcome::Fault(
                                BnbError::NestedShort {
                                    found: scales.len() as usize,
                                    block: (scales.len() * bs) as usize,
                                },
                            )
                        } else {
                            Outcome::Good(
                                Seq::new(
                                    nblocks as nat,
                                    |i: int| nested_scale(raw, map, scales, st, i),
                                ),
                            )
                        }
                    },
                },
                _ => Outcome::Fault(BnbError::AbsmaxType { dtype }),
            }
        },
    }
}

fn fold_nested(codes: &[u8], map: &Vec<u32>, scales: &Vec<u32>, st: &BnbState) -> (r: Result<
    Vec<u32>,
    usize,
>)
    requires
        codes@.len() > 0 ==> st.nested_blocksize > 0,
        forall|i: int|
            0 <= i < codes@.len() && i / (st.nested_blocksize as int) < scales@.len()
                ==> #[trigger] codes@[i] < map@.len(),
    ensures
        match r {
            Ok(v) => (codes@.len() > 0 ==> (codes@.len() - 1) / (st.nested_blocksize as int)
                < scales@.len()) && v@ == Seq::new(
                codes@.len(),
                |i: int| nested_scale(codes@, map@, scales@, *st, i),
            ),
            Err(i) => codes@.len() > 0 && (codes@.len() - 1) / (st.nested_blocksize as int)
                >= scales@.len() && i == scales@.len() * st.nested_blocksize,
        },
{
    let mut out: Vec<u32> = Vec::new();
    let mut i: usize = 0;
    let n: usize = codes.len();
    let bs: usize = st.nested_blocksize;
    while i < n
        invariant
            i <= n,
            n == codes@.len(),
            bs == st.nested_blocksize,
            n > 0 ==> bs > 0,
            out@.len() == i,
            i > 0 ==> (i - 1) / (bs as int) < scales@.len(),
            forall|k: int|
                0 <= k < codes@.len() && k / (bs as int) < scales@.len()
                    ==> #[trigger] codes@[k] < map@.len(),
            forall|k: int|
                0 <= k < i ==> #[trigger] out@[k] == nested_scale(codes@, map@, scales@, *st, k),
        decreases n - i,
    {
        let b: usize = i / bs;
        if b >= scales.len() {
            proof {
                lemma_first_short(i as int, bs as int, scales@.len() as int);
                vstd::arithmetic::div_mod::lemma_div_is_ordered(i as int, n - 1, bs as int);
            }
            return Err(i);
        }
        assert(codes@[i as int] < map@.len());
        let v: u32 = f32_add(f32_mul(map[codes[i] as usize], scales[b]), st.nested_offset);
        out.push(v);
        i = i + 1;
    }
    assert(out@ =~= Seq::new(codes@.len(), |i: int| nested_scale(codes@, map@, scales@, *st, i)));
    Ok(out)
}

/// The first place whose quotient reaches `n` is `n * bs`.
proof fn lemma_first_short(i: int, bs: int, n: int)
    requires
        bs > 0,
        i >= 0,
        i / bs >= n,
        n >= 0,
        i > 0 ==> (i - 1) / bs < n,
    ensures
        i == n * bs,
{
    vstd::arithmetic::div_mod::lemma_fundamental_div_mod(i, bs);
    let q = i / bs;
    let r = i % bs;
    if i == 0 {
        vstd::arithmetic::div_mod::lemma_div_of0(bs);
        assert(n == 0);
        assert(0 * bs == 0);
    } else {
        assert(i >= n * bs) by (nonlinear_arith)
            requires
                i == bs * q + r,
                r >= 0,
                q >= n,
                bs > 0,
        ;
        if i > n * bs {
            assert((i - 1) / bs >= n) by (nonlinear_arith)
                requires
                    i - 1 >= n * bs,
                    bs > 0,
            ;
        }
    }
}

/// Folds the double quantization: one single-precision scale per block.
pub fn folded_absmax(
    weights: &LoadedWeights,
    name: &str,
    st: &BnbState,
    nblocks: usize,
) -> (r: Result<Vec<u32>, BnbError>)
    requires
        weights.wf(),
        !(absmax_outcome(weights, name@, *st, nblocks as int) is Degenerate),
    ensures
        match r {
            Ok(v) => absmax_outcome(weights, name@, *st, nblocks as int) == Outcome::Good(v@),
            Err(e) => absmax_outcome(weights, name@, *st, nblocks as int) == Outcome::<
                Seq<u32>,
            >::Fault(e),
        },
{
    let a: usize = match sibling_of(weights, name, ".absmax") {
        Some(i) => i,
        None => {
            return Err(BnbError::NoAbsmax);
        },
    };
    let raw: &[u8] = weights.data[a];
    let dtype: DType = weights.metas[a].dtype;
    match dtype {
        DType::F32 => {
            let v: Vec<u32> = f32s(raw);
            if v.len() != nblocks {
                return Err(BnbError::AbsmaxCount { found: v.len(), expected: nblocks });
            }
            Ok(v)
        },
        DType::U8 => {
            let m: usize = match sibling_of(weights, name, ".nested_quant_map") {
                Some(i) => i,
                None => {
                    return Err(BnbError::NoNestedMap);
                },
            };
            let s: usize = match sibling_of(weights, name, ".nested_absmax") {
                Some(i) => i,
                None => {
                    return Err(BnbError::NoNestedAbsmax);
                },
            };
            let map: Vec<u32> = f32s(weights.data[m]);
            let scales: Vec<u32> = f32s(weights.data[s]);
            if raw.len() != nblocks {
                return Err(BnbError::AbsmaxCount { found: raw.len(), expected: nblocks });
            }
            match fold_nested(raw, &map, &scales, st) {
                Ok(v) => Ok(v),
                Err(block) => Err(BnbError::NestedShort { found: scales.len(), block }),
            }
        },
        other => Err(BnbError::AbsmaxType { dtype: other }),
    }
}

/// A packed weight on the host: its state, one scale per block and the
/// codebook.
pub struct Nf4Host {
    pub state: BnbState,
    pub absmax: Vec<u32>,
    pub qmap: Vec<u32>,
}

/// What an [`Nf4Host`] is, mathematically.
pub struct Nf4Family {
    pub state: BnbState,
    pub absmax: Seq<u32>,
    pub qmap: Seq<u32>,
}

impl View for Nf4Host {
    type V = Nf4Family;

    open spec fn view(&self) -> Nf4Family {
        Nf4Family { state: self.state, absmax: self.absmax@, qmap: self.qmap@ }
    }
}

/// The family of the packed weight at entry `i`.
pub open spec fn family_outcome(w: &LoadedWeights, i: int, name: Seq<char>) -> Outcome<
    Nf4Family,
> {
    match state_outcome(w, name) {
        Outcome::Fault(e) => Outcome::Fault(e),
        Outcome::Degenerate => Outcome::Degenerate,
        Outcome::Good(st) => {
            let meta = w.metas@[i];
            let numel = st.rows * st.cols;
            if meta.dtype != DType::U8 || meta.nbytes != numel / 2 {
                Outcome::Fault(
                    BnbError::Payload {
                        nbytes: meta.nbytes,
                        dtype: meta.dtype,
                        expected: (numel / 2) as usize,
                    },
                )
            } else {
                match absmax_outcome(w, name, st, numel / (st.blocksize as int)) {
                    Outcome::Fault(e) => Outcome::Fault(e),
                    Outcome::Degenerate => Outcome::Degenerate,
                    Outcome::Good(absmax) => match sibling(w, name, ".quant_map"@) {
                        None => Outcome::Fault(BnbError::NoMap),
                        Some(m) => {
                            let qmap = singles(bytes_at(w, m));
                            if qmap.len() != 16 {
                                Outcome::Fault(BnbError::MapCount { found: qmap.len() as usize })
                            } else {
                                Outcome::Good(Nf4Family { state: st, absmax, qmap })
                            }
                        },
                    },
                }
            }
        },
    }
}

/// The state outcome of a sound state.
pub proof fn lemma_state_outcome_sound(w: &LoadedWeights, name: Seq<char>)
    ensures
        match state_outcome(w, name) {
            Outcome::Good(st) => st.blocksize > 0 && st.rows * st.cols <= usize::MAX && (st.rows
                * st.cols) % (st.blocksize as int) == 0,
            _ => true,
        },
{
}

/// The family outcome of a sound family has one scale per block.
proof fn lemma_family_sound(w: &LoadedWeights, i: int, name: Seq<char>)
    ensures
        match family_outcome(w, i, name) {
            Outcome::Good(f) => {
                &&& f.state.blocksize > 0
                &&& f.state.rows * f.state.cols <= usize::MAX
                &&& (f.state.rows * f.state.cols) % (f.state.blocksize as int) == 0
                &&& f.absmax.len() == (f.state.rows * f.state.cols) / (f.state.blocksize as int)
                &&& f.qmap.len() == 16
            },
            _ => true,
        },
{
    match family_outcome(w, i, name) {
        Outcome::Good(f) => {
            let st = f.state;
            let n = st.rows * st.cols;
            assert(n >= 0) by (nonlinear_arith)
                requires
                    n == st.rows * st.cols,
                    st.rows >= 0,
                    st.cols >= 0,
            ;
            vstd::arithmetic::div_mod::lemma_div_pos_is_pos(n, st.blocksize as int);
        },
        _ => {},
    }
}

/// The forecast of a packed weight is what is resident of it: its packed
/// bytes, four bytes per scale and four per entry of the codebook.
pub proof fn law_packed_weights_take_what_is_forecast(w: &LoadedWeights, i: int, name: Seq<char>)
    ensures
        family_outcome(w, i, name) matches Outcome::Good(f) ==> nf4_bytes(
            f.state.rows * f.state.cols,
            f.state.blocksize as int,
        ) == w.metas@[i].nbytes + 4 * f.absmax.len() + 4 * f.qmap.len(),
{
    lemma_family_sound(w, i, name);
}

/// Reads the family of the packed weight at entry `i`: what goes to the
/// device beside the packed bytes.
pub fn upload_nf4(weights: &LoadedWeights, i: usize, name: &str) -> (r: Result<Nf4Host, BnbError>)
    requires
        weights.wf(),
        i < weights.metas@.len(),
        !(family_outcome(weights, i as int, name@) is Degenerate),
    ensures
        match r {
            Ok(f) => family_outcome(weights, i as int, name@) == Outcome::Good(f@),
            Err(e) => family_outcome(weights, i as int, name@) == Outcome::<Nf4Family>::Fault(e),
        },
{
    let st: BnbState = parse_state(weights, name)?;
    let numel: usize = st.rows * st.cols;
    let meta: &TensorMeta = &weights.metas[i];
    if meta.dtype != DType::U8 || meta.nbytes != numel / 2 {
        return Err(
            BnbError::Payload { nbytes: meta.nbytes, dtype: meta.dtype, expected: numel / 2 },
        );
    }
    let nblocks: usize = numel / st.blocksize;
    let absmax: Vec<u32> = folded_absmax(weights, name, &st, nblocks)?;
    let m: usize = match sibling_of(weights, name, ".quant_map") {
        Some(m) => m,
        None => {
            return Err(BnbError::NoMap);
        },
    };
    let qmap: Vec<u32> = f32s(weights.data[m]);
    if qmap.len() != 16 {
        return Err(BnbError::MapCount { found: qmap.len() });
    }
    Ok(Nf4Host { state: st, absmax, qmap })
}

/// Nibble `i` of packed bytes: the high one comes first.
pub open spec fn nibble_at(packed: Seq<u8>, i: int) -> int {
    if i % 2 == 0 {
        packed[i / 2] as int / 16
    } else {
        packed[i / 2] as int % 16
    }
}

/// Element `i` of a packed weight in half precision.
pub open spec fn weight_at(f: Nf4Family, packed: Seq<u8>, i: int) -> int {
    Format::F32.convert(
        Format::F16,
        Format::F32.product(
            f.qmap[nibble_at(packed, i)] as int,
            f.absmax[i / (f.state.blocksize as int)] as int,
        ),
    )
}

/// Decodes a packed weight to half precision, row-major `[rows, cols]`.
pub fn dequant_host(weights: &LoadedWeights, i: usize, name: &str) -> (r: Result<
    Vec<u16>,
    BnbError,
>)
    requires
        weights.wf(),
        i < weights.metas@.len(),
        match family_outcome(weights, i as int, name@) {
            Outcome::Good(f) => f.state.rows * f.state.cols <= 2 * bytes_at(
                weights,
                i as int,
            ).len(),
            Outcome::Fault(_) => true,
            Outcome::Degenerate => false,
        },
    ensures
        match r {
            Ok(v) => {
                &&& family_outcome(weights, i as int, name@) matches Outcome::Good(f)
                &&& v@.len() == f.state.rows * f.state.cols
                &&& forall|k: int|
                    0 <= k < v@.len() ==> #[trigger] v@[k] == weight_at(
                        f,
                        bytes_at(weights, i as int),
                        k,
                    )
            },
            Err(e) => family_outcome(weights, i as int, name@) == Outcome::<Nf4Family>::Fault(e),
        },
{
    let fam: Nf4Host = upload_nf4(weights, i, name)?;
    proof {
        lemma_family_sound(weights, i as int, name@);
    }
    let numel: usize = fam.state.rows * fam.state.cols;
    let bs: usize = fam.state.blocksize;
    let packed: &[u8] = weights.data[i];
    let mut out: Vec<u16> = Vec::new();
    let mut k: usize = 0;
    while k < numel
        invariant
            k <= numel,
            out@.len() == k,
            bs == fam.state.blocksize,
            bs > 0,
            numel <= 2 * packed@.len(),
            numel % bs == 0,
            fam.absmax@.len() == numel / bs,
            fam.qmap@.len() == 16,
            forall|j: int| 0 <= j < k ==> #[trigger] out@[j] == weight_at(fam@, packed@, j),
        decreases numel - k,
    {
        let byte: u8 = packed[k / 2];
        let nib: u8 = if k % 2 == 0 {
            byte / 16
        } else {
            byte % 16
        };
        proof {
            lemma_block_index(k as int, numel as int, bs as int);
        }
        out.push(f32_to_f16(f32_mul(fam.qmap[nib as usize], fam.absmax[k / bs])));
        k = k + 1;
    }
    Ok(out)
}

proof fn lemma_block_index(k: int, n: int, bs: int)
    requires
        0 <= k < n,
        bs > 0,
        n % bs == 0,
    ensures
        0 <= k / bs < n / bs,
{
    vstd::arithmetic::div_mod::lemma_fundamental_div_mod(n, bs);
    vstd::arithmetic::div_mod::lemma_fundamental_div_mod(k, bs);
    let (q, r, m) = (k / bs, k % bs, n / bs);
    assert(0 <= q < m) by (nonlinear_arith)
        requires
            k == bs * q + r,
            0 <= r < bs,
            n == bs * m,
            0 <= k < n,
    ;
}

/// A checkpoint whose packed weights were decoded: they appear with their
/// logical shape in half precision, and the auxiliary tensors are gone.
pub struct DequantizedWeights {
    pub tensors: Vec<TensorMeta>,
    /// The entry of the packed checkpoint that each tensor comes from.
    pub source: Vec<usize>,
    /// The decoded bytes, where the tensor was packed.
    pub dense: Vec<Option<Vec<u8>>>,
}

/// Half-precision patterns as little-endian bytes.
pub open spec fn is_le_bytes(b: Seq<u8>, v: spec_fn(int) -> int, n: int) -> bool {
    &&& b.len() == 2 * n
    &&& forall|i: int| 0 <= i < n ==> #[trigger] num::le16(b, 2 * i) == v(i)
}

fn le_bytes(h: &Vec<u16>) -> (r: Vec<u8>)
    requires
        2 * h@.len() <= usize::MAX,
    ensures
        is_le_bytes(r@, |i: int| h@[i] as int, h@.len() as int),
{
    let mut out: Vec<u8> = Vec::new();
    let mut i: usize = 0;
    while i < h.len()
        invariant
            i <= h@.len(),
            out@.len() == 2 * i,
            forall|k: int| 0 <= k < i ==> #[trigger] num::le16(out@, 2 * k) == h@[k],
        decreases h@.len() - i,
    {
        let v: u16 = h[i];
        let ghost before = out@;
        out.push((v % 256) as u8);
        out.push((v / 256) as u8);
        proof {
            assert forall|k: int| 0 <= k < i + 1 implies #[trigger] num::le16(out@, 2 * k)
                == h@[k] by {
                if k < i {
                    assert(num::le16(before, 2 * k) == h@[k]);
                    assert(out@[2 * k] == before[2 * k]);
                    assert(out@[2 * k + 1] == before[2 * k + 1]);
                }
            }
        }
        i = i + 1;
    }
    out
}

/// Entry `i` is a packed weight.
pub open spec fn is_packed(w: &LoadedWeights, i: int) -> bool {
    !aux(w.metas@[i].name@) && state_of(w, w.metas@[i].name@) is Some
}

/// The entries before `n` that are not auxiliary, in order.
pub open spec fn kept(w: &LoadedWeights, n: int) -> Seq<int>
    decreases n,
{
    if n <= 0 {
        Seq::empty()
    } else if aux(w.metas@[n - 1].name@) {
        kept(w, n - 1)
    } else {
        kept(w, n - 1).push(n - 1)
    }
}

/// The error of the first packed weight before `n` that cannot be decoded.
pub open spec fn first_fault(w: &LoadedWeights, n: int) -> Option<BnbError>
    decreases n,
{
    if n <= 0 {
        None
    } else {
        match first_fault(w, n - 1) {
            Some(e) => Some(e),
            None => if is_packed(w, n - 1) {
                match family_outcome(w, n - 1, w.metas@[n - 1].name@) {
                    Outcome::Fault(e) => Some(e),
                    _ => None,
                }
            } else {
                None
            },
        }
    }
}

/// The tensor `t`, with decoded bytes where it was packed, is entry `i`.
pub open spec fn is_entry(t: TensorMeta, dense: Option<Vec<u8>>, w: &LoadedWeights, i: int) -> bool {
    let name = w.metas@[i].name@;
    if is_packed(w, i) {
        &&& family_outcome(w, i, name) matches Outcome::Good(f)
        &&& dense matches Some(b)
        &&& is_le_bytes(
            b@,
            |j: int| weight_at(f, bytes_at(w, i), j),
            f.state.rows * f.state.cols,
        )
        &&& t.name@ == name
        &&& t.dtype == DType::F16
        &&& t.shape@ == seq![f.state.rows, f.state.cols]
        &&& t.offset == 0
        &&& t.nbytes == b@.len()
        &&& t.file@ == w.metas@[i].file@
    } else {
        dense is None && tensor::same_meta(t, w.metas@[i])
    }
}

/// Tensor `k` of the decoded checkpoint comes from entry `i`.
pub open spec fn comes_from(d: DequantizedWeights, k: int, w: &LoadedWeights, i: int) -> bool {
    d.source@[k] == i && is_entry(d.tensors@[k], d.dense@[k], w, i)
}

/// Decodes entry `i` where it is packed, and copies it where it is not.
fn decode_entry(inner: &LoadedWeights, i: usize) -> (r: Result<
    (TensorMeta, Option<Vec<u8>>),
    BnbError,
>)
    requires
        inner.wf(),
        i < inner.metas@.len(),
        !aux(inner.metas@[i as int].name@),
        decodable(inner, i as int),
    ensures
        match r {
            Ok((t, b)) => {
                &&& is_entry(t, b, inner, i as int)
                &&& b is Some == is_packed(inner, i as int)
            },
            Err(e) => is_packed(inner, i as int) && family_outcome(
                inner,
                i as int,
                inner.metas@[i as int].name@,
            ) == Outcome::<Nf4Family>::Fault(e),
        },
{
    let name: &str = inner.metas[i].name.as_str();
    if state_name(inner, name).is_some() {
        let fam: Nf4Host = upload_nf4(inner, i, name)?;
        let h: Vec<u16> = dequant_host(inner, i, name)?;
        let b: Vec<u8> = le_bytes(&h);
        let nbytes: usize = b.len();
        let mut shape: Vec<usize> = Vec::new();
        shape.push(fam.state.rows);
        shape.push(fam.state.cols);
        assert(shape@ =~= seq![fam.state.rows, fam.state.cols]);
        let t: TensorMeta = TensorMeta {
            name: inner.metas[i].name.clone(),
            dtype: DType::F16,
            shape,
            offset: 0,
            nbytes,
            file: inner.metas[i].file.clone(),
        };
        Ok((t, Some(b)))
    } else {
        Ok((inner.metas[i].copy(), None))
    }
}

/// No packed weight runs past its tables, and the decoded sizes are machine
/// numbers.
pub open spec fn decodable(w: &LoadedWeights, i: int) -> bool {
    is_packed(w, i) ==> match family_outcome(w, i, w.metas@[i].name@) {
        Outcome::Good(f) => f.state.rows * f.state.cols <= 2 * bytes_at(w, i).len() && 2 * (
        f.state.rows * f.state.cols) <= usize::MAX,
        Outcome::Fault(_) => true,
        Outcome::Degenerate => false,
    }
}

impl DequantizedWeights {
    /// The first `n` entries are decoded.
    pub open spec fn covers(&self, w: &LoadedWeights, n: int) -> bool {
        let ks = kept(w, n);
        &&& self.tensors@.len() == ks.len()
        &&& self.source@.len() == ks.len()
        &&& self.dense@.len() == ks.len()
        &&& forall|k: int| 0 <= k < ks.len() ==> #[trigger] comes_from(*self, k, w, ks[k])
    }

    /// Decodes every packed weight of a checkpoint.
    pub fn wrap(inner: &LoadedWeights) -> (r: Result<DequantizedWeights, BnbError>)
        requires
            inner.wf(),
            forall|i: int| 0 <= i < inner.metas@.len() ==> #[trigger] decodable(inner, i),
        ensures
            match r {
                Ok(d) => {
                    &&& first_fault(inner, inner.metas@.len() as int) is None
                    &&& exists|i: int| 0 <= i < inner.metas@.len() && #[trigger] is_packed(inner, i)
                    &&& d.covers(inner, inner.metas@.len() as int)
                },
                Err(e) => match first_fault(inner, inner.metas@.len() as int) {
                    Some(f) => e == f,
                    None => e == BnbError::NothingPacked && forall|i: int|
                        0 <= i < inner.metas@.len() ==> !#[trigger] is_packed(inner, i),
                },
            },
    {
        let mut d: DequantizedWeights = DequantizedWeights {
            tensors: Vec::new(),
            source: Vec::new(),
            dense: Vec::new(),
        };
        let mut converted: bool = false;
        let mut i: usize = 0;
        while i < inner.metas.len()
            invariant
                i <= inner.metas@.len(),
                inner.wf(),
                forall|k: int| 0 <= k < inner.metas@.len() ==> #[trigger] decodable(inner, k),
                first_fault(inner, i as int) is None,
                d.covers(inner, i as int),
                converted == exists|k: int| 0 <= k < i && #[trigger] is_packed(inner, k),
            decreases inner.metas@.len() - i,
        {
            let ghost d0 = d;
            let ghost ks = kept(inner, i as int);
            let name: &str = inner.metas[i].name.as_str();
            assert(name@ == inner.metas@[i as int].name@);
            if is_aux(name) {
                assert(!is_packed(inner, i as int));
                assert(kept(inner, i + 1) =~= ks);
            } else {
                assert(decodable(inner, i as int));
                match decode_entry(inner, i) {
                    Err(e) => {
                        proof {
                            lemma_first_fault_stays(inner, i + 1, inner.metas@.len() as int);
                        }
                        return Err(e);
                    },
                    Ok((t, b)) => {
                        if b.is_some() {
                            converted = true;
                        }
                        d.tensors.push(t);
                        d.source.push(i);
                        d.dense.push(b);
                        proof {
                            assert(kept(inner, i + 1) =~= ks.push(i as int));
                            assert(d.tensors@.drop_last() =~= d0.tensors@);
                            assert(d.source@.drop_last() =~= d0.source@);
                            assert(d.dense@.drop_last() =~= d0.dense@);
                            assert(comes_from(d, ks.len() as int, inner, i as int));
                            lemma_covers_push(d0, d, inner, i as int);
                        }
                    },
                }
            }
            i = i + 1;
        }
        if !converted {
            return Err(BnbError::NothingPacked);
        }
        Ok(d)
    }

    /// The bytes of tensor `k`: decoded ones, else those of the packed
    /// checkpoint.
    pub fn bytes<'a>(&'a self, inner: &'a LoadedWeights, k: usize) -> (r: &'a [u8])
        requires
            k < self.dense@.len(),
            self.dense@.len() == self.source@.len(),
            self.source@[k as int] < inner.data@.len(),
        ensures
            r@ == (match self.dense@[k as int] {
                Some(b) => b@,
                None => bytes_at(inner, self.source@[k as int] as int),
            }),
    {
        match &self.dense[k] {
            Some(b) => b.as_slice(),
            None => inner.data[self.source[k]],
        }
    }
}

proof fn lemma_first_fault_stays(w: &LoadedWeights, a: int, n: int)
    requires
        0 <= a <= n,
        first_fault(w, a) is Some,
    ensures
        first_fault(w, n) == first_fault(w, a),
    decreases n - a,
{
    if a < n {
        lemma_first_fault_stays(w, a, n - 1);
    }
}

proof fn lemma_covers_push(
    d0: DequantizedWeights,
    d: DequantizedWeights,
    w: &LoadedWeights,
    i: int,
)
    requires
        0 <= i < w.metas@.len(),
        d0.covers(w, i),
        kept(w, i + 1) == kept(w, i).push(i),
        d.tensors@.len() == d0.tensors@.len() + 1,
        d.source@.len() == d0.source@.len() + 1,
        d.dense@.len() == d0.dense@.len() + 1,
        d.tensors@.drop_last() == d0.tensors@,
        d.source@.drop_last() == d0.source@,
        d.dense@.drop_last() == d0.dense@,
        comes_from(d, kept(w, i).len() as int, w, i),
    ensures
        d.covers(w, i + 1),
{
    let ks = kept(w, i + 1);
    assert forall|k: int| 0 <= k < ks.len() implies #[trigger] comes_from(d, k, w, ks[k]) by {
        if k < ks.len() - 1 {
            assert(ks[k] == kept(w, i)[k]);
            assert(comes_from(d0, k, w, kept(w, i)[k]));
            assert(d.tensors@[k] == d.tensors@.drop_last()[k]);
            assert(d.source@[k] == d.source@.drop_last()[k]);
            assert(d.dense@[k] == d.dense@.drop_last()[k]);
        }
    }
}

/// No auxiliary tensor survives decoding, and none but these vanish.
pub proof fn law_auxiliaries_vanish(d: DequantizedWeights, w: &LoadedWeights, n: int, i: int)
    requires
        0 <= i < n <= w.metas@.len(),
        d.covers(w, n),
    ensures
        (exists|k: int| 0 <= k < d.source@.len() && #[trigger] d.source@[k] == i) == !aux(
            w.metas@[i].name@,
        ),
{
    lemma_kept(w, n);
    let ks = kept(w, n);
    if !aux(w.metas@[i].name@) {
        let k = lemma_kept_has(w, n, i);
        assert(comes_from(d, k, w, ks[k]));
        assert(d.source@[k] == i);
    } else {
        assert forall|k: int| 0 <= k < d.source@.len() implies #[trigger] d.source@[k] != i by {
            assert(comes_from(d, k, w, ks[k]));
        }
    }
}

proof fn lemma_kept(w: &LoadedWeights, n: int)
    requires
        n <= w.metas@.len(),
    ensures
        forall|k: int|
            0 <= k < kept(w, n).len() ==> 0 <= #[trigger] kept(w, n)[k] < n && !aux(
                w.metas@[kept(w, n)[k]].name@,
            ),
    decreases n,
{
    if n > 0 {
        lemma_kept(w, n - 1);
    }
}

proof fn lemma_kept_has(w: &LoadedWeights, n: int, i: int) -> (k: int)
    requires
        0 <= i < n <= w.metas@.len(),
        !aux(w.metas@[i].name@),
    ensures
        0 <= k < kept(w, n).len(),
        kept(w, n)[k] == i,
    decreases n,
{
    if i == n - 1 {
        kept(w, n).len() - 1
    } else {
        lemma_kept_has(w, n - 1, i)
    }
}

/// A product reads the whole weight, whatever its form: the last launch writes
/// `y` from all rows of `x`, with the weight itself or with the scratch that the
/// launch before it filled with all `n * k` elements of the weight.
pub proof fn law_products_read_the_whole_weight(
    wt: WTensor,
    x: u64,
    y: u64,
    m: usize,
    n: usize,
    k: usize,
    scratch: u64,
)
    requires
        n * k <= usize::MAX,
        wt matches WTensor::Gguf { fmt, .. } ==> tensor::is_block(fmt) && (n * k) % tensor::grain(
            fmt,
        ) == 0,
        wt.launches(x, y, m, n, k, scratch) is Ok,
    ensures
        ({
            let v = wt.launches(x, y, m, n, k, scratch)->Ok_0;
            &&& 1 <= v.len() <= 2
            &&& match v.last() {
                Launch::GemmF16 { x: a, w, y: b, m: c, n: d, k: e } => {
                    &&& (a, b, c, d, e) == (x, y, m, n, k)
                    &&& match wt {
                        WTensor::F16(buf) => v.len() == 1 && w == buf.ptr,
                        WTensor::Gguf { buf, fmt, .. } => {
                            &&& v.len() == 2
                            &&& w == scratch
                            &&& v[0] matches Launch::GgufDequant { fmt: f, src, dst, blocks }
                            &&& (f, src, dst) == (fmt, buf.ptr, scratch)
                            &&& blocks * tensor::grain(fmt) == n * k
                        },
                        WTensor::Nf4(q) => v.len() == 2 && w == scratch && v[0]
                            == Launch::Nf4Dequant { q, dst: scratch, numel: (n * k) as usize },
                    }
                },
                Launch::GgufGemv { fmt, x: a, w, y: b, n: d, k: e } => {
                    &&& (m, a, b, d, e) == (1usize, x, y, n, k)
                    &&& wt matches WTensor::Gguf { buf, fmt: f, .. }
                    &&& f == fmt
                    &&& w == buf.ptr
                },
                Launch::Nf4Gemv { x: a, q, y: b, n: d, k: e } => {
                    &&& (m, a, b, d, e) == (1usize, x, y, n, k)
                    &&& wt == WTensor::Nf4(q)
                },
                _ => false,
            }
        }),
{
    if let WTensor::Gguf { fmt, .. } = wt {
        let (p, g) = (n * k, tensor::grain(fmt));
        vstd::arithmetic::div_mod::lemma_fundamental_div_mod(p, g);
        vstd::arithmetic::div_mod::lemma_div_nonincreasing(p, g);
        vstd::arithmetic::div_mod::lemma_div_pos_is_pos(p, g);
        assert((p / g) * g == g * (p / g)) by (nonlinear_arith);
    }
}

} // verus!
