//! Weight access: prefix-tolerant lookup, shape checks, and what a tensor
//! becomes on the way to the device.
use vstd::prelude::*;

use crate::ieee::Format;
use crate::num;
use crate::num::{bf16_to_f32, f16_to_f32, f32_add, f32_to_f16, read_le16, read_le32};
use crate::quant::bnb;
use crate::quant::bnb::{state_name, upload_nf4, BnbError, Nf4Host};
use crate::quant::gguf;
use crate::quant::gguf::{CodecError, DequantError, DeviceData, GgufCodec};
use crate::tensor;
use crate::tensor::{is_gguf_block, DType, TensorMeta};
use crate::text;
use crate::weights::LoadedWeights;

verus! {

/// The entry of `name`, with or without the leading `model.`.
pub open spec fn resolve(w: &LoadedWeights, name: Seq<char>) -> Option<int> {
    match w.find("model."@ + name) {
        Some(i) => Some(i),
        None => w.find(name),
    }
}

/// Why a tensor cannot take its place in the graph.
#[derive(Clone, Copy, PartialEq, Eq, Debug, Structural)]
pub enum IndexError {
    /// There is no such tensor under any prefix.
    Missing,
    /// The place must be dense, but the tensor is packed.
    Packed,
    /// The shape is not what the architecture requires.
    Shape,
    /// The codec cannot execute the encoding.
    Unsupported { dtype: DType },
    Dequant(DequantError),
    Codec(CodecError),
    Bnb(BnbError),
}

/// The product of the dimensions after the first.
pub open spec fn trailing(s: Seq<usize>) -> int {
    tensor::product(s.skip(1))
}

/// `got` is `expect`, or a row-major view of it: the same leading dimension
/// and as many elements behind it.
pub open spec fn view_ok(got: Seq<usize>, expect: Seq<usize>) -> bool {
    got == expect || (got.len() > 0 && expect.len() > 0 && got[0] == expect[0] && trailing(got)
        == trailing(expect))
}

/// Partial products of the trailing dimensions are machine numbers.
pub open spec fn small_shape(s: Seq<usize>) -> bool {
    s.len() > 0 ==> forall|i: int|
        0 <= i <= s.len() - 1 ==> #[trigger] tensor::product(s.skip(1).take(i)) <= usize::MAX
}

fn trailing_product(s: &[usize]) -> (r: usize)
    requires
        s@.len() > 0,
        small_shape(s@),
    ensures
        r == trailing(s@),
{
    let ghost t = s@.skip(1);
    let mut n: usize = 1;
    let mut i: usize = 1;
    assert(t.take(0).len() == 0);
    while i < s.len()
        invariant
            1 <= i <= s@.len(),
            t == s@.skip(1),
            small_shape(s@),
            n == tensor::product(t.take(i - 1)),
        decreases s@.len() - i,
    {
        proof {
            assert(t.take(i as int).drop_last() =~= t.take(i - 1));
            assert(t.take(i as int).last() == s@[i as int]);
            assert(tensor::product(t.take(i as int)) <= usize::MAX);
        }
        n = n * s[i];
        i = i + 1;
    }
    assert(t.take(i - 1) =~= t);
    n
}

pub fn same_shape(a: &[usize], b: &[usize]) -> (r: bool)
    ensures
        r == (a@ == b@),
{
    if a.len() != b.len() {
        return false;
    }
    let mut i: usize = 0;
    while i < a.len()
        invariant
            i <= a@.len(),
            a@.len() == b@.len(),
            forall|k: int| 0 <= k < i ==> a@[k] == b@[k],
        decreases a@.len() - i,
    {
        if a[i] != b[i] {
            return false;
        }
        i = i + 1;
    }
    assert(a@ =~= b@);
    true
}

/// Shape compatibility: equal, or a view with the same bytes. A transpose has
/// as many elements but other bytes, and stays rejected.
pub fn shape_view_ok(got: &[usize], expect: &[usize]) -> (r: bool)
    requires
        small_shape(got@),
        small_shape(expect@),
    ensures
        r == view_ok(got@, expect@),
{
    if same_shape(got, expect) {
        return true;
    }
    if got.len() == 0 || expect.len() == 0 || got[0] != expect[0] {
        return false;
    }
    trailing_product(got) == trailing_product(expect)
}

/// A matrix and its transpose are told apart, unless they have the same shape.
pub proof fn law_transposes_are_rejected(a: usize, b: usize)
    requires
        a != b,
    ensures
        !view_ok(seq![a, b], seq![b, a]),
{
    assert(seq![a, b][0] != seq![b, a][0]);
}

/// A view holds as many elements as what it is a view of.
pub proof fn law_views_keep_the_count(got: Seq<usize>, expect: Seq<usize>)
    requires
        view_ok(got, expect),
    ensures
        tensor::product(got) == tensor::product(expect),
{
    if got != expect {
        lemma_product_front(got);
        lemma_product_front(expect);
    }
}

proof fn lemma_product_front(s: Seq<usize>)
    requires
        s.len() > 0,
    ensures
        tensor::product(s) == s[0] * trailing(s),
    decreases s.len(),
{
    let t = s.skip(1);
    if s.len() == 1 {
        assert(t.len() == 0);
        assert(s.drop_last().len() == 0);
        assert(tensor::product(s.drop_last()) == 1);
        assert(1 * s[0] == s[0] * 1);
    } else {
        let u = s.drop_last();
        lemma_product_front(u);
        assert(u.skip(1) =~= t.drop_last());
        let (a, b, c) = (s[0] as int, tensor::product(t.drop_last()), s.last() as int);
        assert((a * b) * c == a * (b * c)) by (nonlinear_arith);
    }
}

/// The single-precision pattern of element `i` of plain bytes.
pub open spec fn plain_f32(dt: DType, b: Seq<u8>, i: int) -> int {
    match dt {
        DType::F32 => num::le32(b, 4 * i),
        DType::F16 => Format::F16.convert(Format::F32, num::le16(b, 2 * i)),
        _ => num::le16(b, 2 * i) * 0x1_0000,
    }
}

/// A plain 16- or 32-bit encoding.
pub open spec fn is_plain(dt: DType) -> bool {
    dt == DType::F32 || dt == DType::F16 || dt == DType::BF16
}

fn plain_at(dt: DType, b: &[u8], i: usize) -> (r: u32)
    requires
        is_plain(dt),
        (i + 1) * tensor::block_len(dt) <= b.len(),
    ensures
        r == plain_f32(dt, b@, i as int),
{
    match dt {
        DType::F32 => read_le32(b, 4 * i),
        DType::F16 => f16_to_f32(read_le16(b, 2 * i)),
        _ => bf16_to_f32(read_le16(b, 2 * i)),
    }
}

/// Decodes a plain tensor to single precision.
pub fn decode_f32(dtype: DType, b: &[u8]) -> (r: Result<Vec<u32>, IndexError>)
    ensures
        match r {
            Ok(v) => {
                &&& is_plain(dtype)
                &&& v@.len() == b@.len() / (tensor::block_len(dtype) as nat)
                &&& forall|i: int|
                    0 <= i < v@.len() ==> #[trigger] v@[i] == plain_f32(dtype, b@, i)
            },
            Err(e) => !is_plain(dtype) && e == IndexError::Unsupported { dtype },
        },
{
    match dtype {
        DType::F32 | DType::F16 | DType::BF16 => {},
        other => {
            return Err(IndexError::Unsupported { dtype: other });
        },
    }
    let w: usize = tensor::block_bytes(dtype);
    let n: usize = b.len() / w;
    let mut out: Vec<u32> = Vec::new();
    let mut i: usize = 0;
    while i < n
        invariant
            i <= n,
            is_plain(dtype),
            w == tensor::block_len(dtype),
            n == b.len() / w,
            out@.len() == i,
            forall|k: int| 0 <= k < i ==> #[trigger] out@[k] == plain_f32(dtype, b@, k),
        decreases n - i,
    {
        out.push(plain_at(dtype, b, i));
        i = i + 1;
    }
    Ok(out)
}

/// Every plain tensor has at least one element.
pub open spec fn filled(w: &LoadedWeights) -> bool {
    forall|i: int|
        0 <= i < w.metas@.len() && is_plain(#[trigger] w.metas@[i].dtype) ==> w.data@[i]@.len()
            >= tensor::block_len(w.metas@[i].dtype)
}

/// A dense slot that is shifted: the gammas of the norms.
pub open spec fn shifts(name: Seq<char>, shift: u32) -> bool {
    text::ends(name, "norm.weight"@) && !Format::F32.equal(shift as int, 0)
}

/// What a dense place of the graph receives.
pub open spec fn dense_outcome(
    w: &LoadedWeights,
    codec: GgufCodec,
    shift: u32,
    name: Seq<char>,
    expect: Seq<usize>,
    r: Result<DeviceData, IndexError>,
) -> bool {
    match resolve(w, name) {
        None => r == Err::<DeviceData, IndexError>(IndexError::Missing),
        Some(i) => {
            let m = w.metas@[i];
            let host = w.data@[i]@;
            if bnb::state_of(w, m.name@) is Some {
                r == Err::<DeviceData, IndexError>(IndexError::Packed)
            } else if expect.len() > 0 && !view_ok(m.shape@, expect) {
                r == Err::<DeviceData, IndexError>(IndexError::Shape)
            } else if shifts(name, shift) {
                if is_plain(m.dtype) {
                    &&& r matches Ok(DeviceData::Half(v))
                    &&& v@.len() == host.len() / (tensor::block_len(m.dtype) as nat)
                    &&& forall|k: int|
                        0 <= k < v@.len() ==> #[trigger] v@[k] == Format::F32.convert(
                            Format::F16,
                            Format::F32.sum(plain_f32(m.dtype, host, k), shift as int),
                        )
                } else {
                    r == Err::<DeviceData, IndexError>(IndexError::Unsupported { dtype: m.dtype })
                }
            } else if tensor::is_block(m.dtype) {
                if gguf::fits(m.dtype, host.len() as int, m.count()) {
                    &&& r matches Ok(DeviceData::Half(v))
                    &&& v@.len() == m.count()
                    &&& forall|k: int|
                        0 <= k < v@.len() ==> #[trigger] v@[k] == gguf::element(
                            m.dtype,
                            gguf::block(m.dtype, host, k / tensor::grain(m.dtype)),
                            k % tensor::grain(m.dtype),
                        )
                } else {
                    r == Err::<DeviceData, IndexError>(
                        IndexError::Dequant(
                            DequantError::SizeMismatch {
                                format: m.dtype,
                                elems: m.count() as usize,
                                bytes: host.len() as usize,
                            },
                        ),
                    )
                }
            } else if m.dtype == DType::U8 {
                r == Err::<DeviceData, IndexError>(IndexError::Unsupported { dtype: m.dtype })
            } else if host.len() < GgufCodec::stored(m.dtype, m.count()) {
                r == Err::<DeviceData, IndexError>(IndexError::Codec(CodecError::Short))
            } else {
                &&& r matches Ok(DeviceData::Half(v))
                &&& v@.len() == host.len() / (tensor::block_len(m.dtype) as nat)
                &&& forall|k: int|
                    0 <= k < v@.len() ==> #[trigger] v@[k] == GgufCodec::plain(m.dtype, host, k)
            }
        },
    }
}

/// The sizes of every tensor are machine numbers.
pub open spec fn sized(w: &LoadedWeights) -> bool {
    forall|i: int|
        0 <= i < w.metas@.len() ==> {
            let m = #[trigger] w.metas@[i];
            &&& m.countable()
            &&& small_shape(m.shape@)
            &&& 4 * m.count() <= usize::MAX
        }
}

/// Tensor lookup for one checkpoint and codec. `norm_shift` is added to the
/// gammas of the norms.
pub struct G4Index<'a, 'b> {
    pub weights: &'a LoadedWeights<'b>,
    pub codec: &'a GgufCodec,
    pub norm_shift: u32,
}

impl<'a, 'b> G4Index<'a, 'b> {
    pub fn new(weights: &'a LoadedWeights<'b>, codec: &'a GgufCodec, norm_shift: u32) -> (r: Self)
        ensures
            r.weights == weights,
            r.codec == codec,
            r.norm_shift == norm_shift,
    {
        G4Index { weights, codec, norm_shift }
    }

    /// The entry of a required tensor.
    pub fn meta(&self, name: &str) -> (r: Result<usize, IndexError>)
        ensures
            match r {
                Ok(i) => resolve(self.weights, name@) == Some(i as int) && i
                    < self.weights.metas@.len(),
                Err(e) => resolve(self.weights, name@) is None && e == IndexError::Missing,
            },
    {
        let full: String = text::join("model.", name);
        match self.weights.get(full.as_str()) {
            Some(i) => Ok(i),
            None => match self.weights.get(name) {
                Some(i) => Ok(i),
                None => Err(IndexError::Missing),
            },
        }
    }

    pub fn has(&self, name: &str) -> (r: bool)
        ensures
            r == resolve(self.weights, name@) is Some,
    {
        self.meta(name).is_ok()
    }

    fn shifted(&self, dtype: DType, host: &[u8]) -> (r: Result<DeviceData, IndexError>)
        ensures
            match r {
                Ok(d) => {
                    &&& is_plain(dtype)
                    &&& d matches DeviceData::Half(v)
                    &&& v@.len() == host@.len() / (tensor::block_len(dtype) as nat)
                    &&& forall|k: int|
                        0 <= k < v@.len() ==> #[trigger] v@[k] == Format::F32.convert(
                            Format::F16,
                            Format::F32.sum(plain_f32(dtype, host@, k), self.norm_shift as int),
                        )
                },
                Err(e) => !is_plain(dtype) && e == IndexError::Unsupported { dtype },
            },
    {
        let v: Vec<u32> = decode_f32(dtype, host)?;
        let mut out: Vec<u16> = Vec::new();
        let mut k: usize = 0;
        while k < v.len()
            invariant
                k <= v@.len(),
                out@.len() == k,
                forall|i: int|
                    0 <= i < v@.len() ==> #[trigger] v@[i] == plain_f32(dtype, host@, i),
                forall|i: int|
                    0 <= i < k ==> #[trigger] out@[i] == Format::F32.convert(
                        Format::F16,
                        Format::F32.sum(plain_f32(dtype, host@, i), self.norm_shift as int),
                    ),
            decreases v@.len() - k,
        {
            assert(v@[k as int] == plain_f32(dtype, host@, k as int));
            out.push(f32_to_f16(f32_add(v[k], self.norm_shift)));
            k = k + 1;
        }
        Ok(DeviceData::Half(out))
    }

    /// Prepares a tensor for a dense place: an embedding, a norm, a table.
    pub fn upload(&self, name: &str, expect: &[usize]) -> (r: Result<DeviceData, IndexError>)
        requires
            self.weights.wf(),
            sized(self.weights),
            small_shape(expect@),
        ensures
            dense_outcome(self.weights, *self.codec, self.norm_shift, name@, expect@, r),
    {
        let i: usize = self.meta(name)?;
        let m: &TensorMeta = &self.weights.metas[i];
        let host: &[u8] = self.weights.data[i];
        assert(*m == self.weights.metas@[i as int]);
        assert(m.countable());
        if state_name(self.weights, m.name.as_str()).is_some() {
            return Err(IndexError::Packed);
        }
        if expect.len() > 0 && !shape_view_ok(m.shape.as_slice(), expect) {
            return Err(IndexError::Shape);
        }
        if text::ends_with(name, "norm.weight") && !Format::F32.eq_value(
            self.norm_shift as u64,
            0,
        ) {
            return self.shifted(m.dtype, host);
        }
        proof {
            tensor::lemma_product_nonneg(m.shape@);
            let (c, g, b) = (m.count(), tensor::grain(m.dtype), tensor::block_len(m.dtype));
            let q = c / g;
            assert(0 <= q * b <= 4 * c) by (nonlinear_arith)
                requires
                    q == c / g,
                    c >= 0,
                    g >= 1,
                    0 <= b <= 4 * g,
            ;
        }
        if is_gguf_block(m.dtype) {
            let n: usize = m.numel();
            let mut out: Vec<u16> = vec![0; n];
            return match gguf::dequant_host(m.dtype, host, n, out.as_mut_slice()) {
                Ok(_) => Ok(DeviceData::Half(out)),
                Err(e) => Err(IndexError::Dequant(e)),
            };
        }
        if !self.codec.accepts(m.dtype) {
            return Err(IndexError::Unsupported { dtype: m.dtype });
        }
        match self.codec.upload(m, host) {
            Ok(d) => Ok(d),
            Err(e) => Err(IndexError::Codec(e)),
        }
    }
}

/// What a linear weight becomes.
pub enum LinearData {
    /// The packed blocks of the entry, as stored.
    Gguf { entry: usize, fmt: DType },
    /// The packed nibbles of the entry, with its scales and codebook.
    Nf4 { entry: usize, family: Nf4Host },
    Half(DeviceData),
}

/// What the linear weight `[n_out, n_in]` called `name` becomes.
pub open spec fn linear_outcome(
    w: &LoadedWeights,
    codec: GgufCodec,
    shift: u32,
    name: Seq<char>,
    n_out: usize,
    n_in: usize,
    r: Result<LinearData, IndexError>,
) -> bool {
    match resolve(w, name) {
        None => r == Err::<LinearData, IndexError>(IndexError::Missing),
        Some(i) => {
            let m = w.metas@[i];
            if tensor::is_block(m.dtype) {
                if view_ok(m.shape@, seq![n_out, n_in]) {
                    r == Ok::<LinearData, IndexError>(
                        LinearData::Gguf { entry: i as usize, fmt: m.dtype },
                    )
                } else {
                    r == Err::<LinearData, IndexError>(IndexError::Shape)
                }
            } else if bnb::state_of(w, m.name@) is Some {
                match bnb::family_outcome(w, i, m.name@) {
                    bnb::Outcome::Fault(e) => r == Err::<LinearData, IndexError>(
                        IndexError::Bnb(e),
                    ),
                    bnb::Outcome::Degenerate => true,
                    bnb::Outcome::Good(f) => if f.state.rows == n_out && f.state.cols == n_in {
                        r matches Ok(LinearData::Nf4 { entry, family }) && entry == i && family@ == f
                    } else {
                        r == Err::<LinearData, IndexError>(IndexError::Shape)
                    },
                }
            } else {
                match r {
                    Ok(LinearData::Half(d)) => dense_outcome(
                        w,
                        codec,
                        shift,
                        name,
                        seq![n_out, n_in],
                        Ok(d),
                    ),
                    Ok(_) => false,
                    Err(e) => dense_outcome(w, codec, shift, name, seq![n_out, n_in], Err(e)),
                }
            }
        },
    }
}

/// No packed weight runs past its tables.
pub open spec fn sound_states(w: &LoadedWeights) -> bool {
    forall|i: int|
        0 <= i < w.metas@.len() ==> !(bnb::family_outcome(
            w,
            i,
            (#[trigger] w.metas@[i]).name@,
        ) is Degenerate)
}

/// The scalar at entry `i`.
pub open spec fn scalar(w: &LoadedWeights, i: int) -> Option<u32> {
    if is_plain(w.metas@[i].dtype) {
        Some(plain_f32(w.metas@[i].dtype, w.data@[i]@, 0) as u32)
    } else {
        None
    }
}

/// A clip bound: a finite scalar below `1e30` in magnitude.
pub open spec fn bound(w: &LoadedWeights, name: Seq<char>) -> Option<u32> {
    match resolve(w, name) {
        Some(i) => match scalar(w, i) {
            Some(v) => if Format::F32.is_finite(v as int) && Format::F32.less(
                Format::F32.mag(v as int),
                0x7149_f2ca,
            ) {
                Some(v)
            } else {
                None
            },
            None => None,
        },
        None => None,
    }
}

/// The range between two bounds, open towards a missing one; nothing where
/// both are missing.
pub open spec fn clip_range(lo: Option<u32>, hi: Option<u32>) -> Option<(u32, u32)> {
    match (lo, hi) {
        (Some(a), Some(b)) => Some((a, b)),
        (Some(a), None) => Some((a, 0x7f7f_ffff)),
        (None, Some(b)) => Some((0xff7f_ffff, b)),
        (None, None) => None,
    }
}

/// A linear weight whose input and output may be clamped.
pub struct ClipLin {
    pub w: LinearData,
    pub clip_in: Option<(u32, u32)>,
    pub clip_out: Option<(u32, u32)>,
}

/// The weight of a clippable linear: the wrapped name where it exists.
pub open spec fn clip_weight(w: &LoadedWeights, base: Seq<char>) -> Seq<char> {
    if resolve(w, base + ".linear.weight"@) is Some {
        base + ".linear.weight"@
    } else {
        base + ".weight"@
    }
}

fn range_of(lo: Option<u32>, hi: Option<u32>) -> (r: Option<(u32, u32)>)
    ensures
        r == clip_range(lo, hi),
{
    match (lo, hi) {
        (Some(a), Some(b)) => Some((a, b)),
        (Some(a), None) => Some((a, 0x7f7f_ffff)),
        (None, Some(b)) => Some((0xff7f_ffff, b)),
        (None, None) => None,
    }
}

impl<'a, 'b> G4Index<'a, 'b> {
    /// Prepares a linear weight: packed as stored where the checkpoint packs
    /// it, else dense.
    #[verifier::spinoff_prover]
    #[verifier::rlimit(50)]
    pub fn upload_w(&self, name: &str, n_out: usize, n_in: usize) -> (r: Result<
        LinearData,
        IndexError,
    >)
        requires
            self.weights.wf(),
            sized(self.weights),
            sound_states(self.weights),
        ensures
            linear_outcome(
                self.weights,
                *self.codec,
                self.norm_shift,
                name@,
                n_out,
                n_in,
                r,
            ),
    {
        let i: usize = self.meta(name)?;
        let m: &TensorMeta = &self.weights.metas[i];
        assert(*m == self.weights.metas@[i as int]);
        let mut expect: Vec<usize> = Vec::new();
        expect.push(n_out);
        expect.push(n_in);
        proof {
            assert(expect@ =~= seq![n_out, n_in]);
            lemma_pair_is_small(n_out, n_in);
        }
        if is_gguf_block(m.dtype) {
            if !shape_view_ok(m.shape.as_slice(), expect.as_slice()) {
                return Err(IndexError::Shape);
            }
            return Ok(LinearData::Gguf { entry: i, fmt: m.dtype });
        }
        if state_name(self.weights, m.name.as_str()).is_some() {
            return match upload_nf4(self.weights, i, m.name.as_str()) {
                Err(e) => Err(IndexError::Bnb(e)),
                Ok(family) => {
                    if family.state.rows != n_out || family.state.cols != n_in {
                        Err(IndexError::Shape)
                    } else {
                        Ok(LinearData::Nf4 { entry: i, family })
                    }
                },
            };
        }
        match self.upload(name, expect.as_slice()) {
            Ok(d) => Ok(LinearData::Half(d)),
            Err(e) => Err(e),
        }
    }

    /// Reads a scalar tensor.
    pub fn scalar_f32(&self, i: usize) -> (r: Result<u32, IndexError>)
        requires
            self.weights.wf(),
            filled(self.weights),
            i < self.weights.metas@.len(),
        ensures
            match r {
                Ok(v) => scalar(self.weights, i as int) == Some(v),
                Err(e) => scalar(self.weights, i as int) is None && e == IndexError::Unsupported {
                    dtype: self.weights.metas@[i as int].dtype,
                },
            },
    {
        let dtype: DType = self.weights.metas[i].dtype;
        assert(dtype == self.weights.metas@[i as int].dtype);
        match dtype {
            DType::F32 | DType::F16 | DType::BF16 => Ok(plain_at(dtype, self.weights.data[i], 0)),
            other => Err(IndexError::Unsupported { dtype: other }),
        }
    }

    fn bound_of(&self, base: &str, suffix: &str) -> (r: Option<u32>)
        requires
            self.weights.wf(),
            filled(self.weights),
        ensures
            r == bound(self.weights, base@ + suffix@),
    {
        let name: String = text::join(base, suffix);
        match self.meta(name.as_str()) {
            Ok(i) => match self.scalar_f32(i) {
                Ok(v) => {
                    let m: u64 = Format::F32.magnitude(v as u64);
                    if m < Format::F32.infinity() && Format::F32.lt(m, 0x7149_f2ca) {
                        Some(v)
                    } else {
                        None
                    }
                },
                Err(_) => None,
            },
            Err(_) => None,
        }
    }

    /// Prepares a clippable linear: the weight under either layout, and the
    /// bounds stored next to it.
    pub fn upload_clip(&self, base: &str, n_out: usize, n_in: usize) -> (r: Result<
        ClipLin,
        IndexError,
    >)
        requires
            self.weights.wf(),
            sized(self.weights),
            sound_states(self.weights),
            filled(self.weights),
        ensures
            ({
                let name = clip_weight(self.weights, base@);
                match r {
                    Ok(c) => {
                        &&& linear_outcome(
                            self.weights,
                            *self.codec,
                            self.norm_shift,
                            name,
                            n_out,
                            n_in,
                            Ok(c.w),
                        )
                        &&& c.clip_in == clip_range(
                            bound(self.weights, base@ + ".input_min"@),
                            bound(self.weights, base@ + ".input_max"@),
                        )
                        &&& c.clip_out == clip_range(
                            bound(self.weights, base@ + ".output_min"@),
                            bound(self.weights, base@ + ".output_max"@),
                        )
                    },
                    Err(e) => linear_outcome(
                        self.weights,
                        *self.codec,
                        self.norm_shift,
                        name,
                        n_out,
                        n_in,
                        Err(e),
                    ),
                }
            }),
    {
        let wrapped: String = text::join(base, ".linear.weight");
        let plain: String = text::join(base, ".weight");
        let w: LinearData = if self.has(wrapped.as_str()) {
            self.upload_w(wrapped.as_str(), n_out, n_in)?
        } else {
            self.upload_w(plain.as_str(), n_out, n_in)?
        };
        let clip_in: Option<(u32, u32)> = range_of(
            self.bound_of(base, ".input_min"),
            self.bound_of(base, ".input_max"),
        );
        let clip_out: Option<(u32, u32)> = range_of(
            self.bound_of(base, ".output_min"),
            self.bound_of(base, ".output_max"),
        );
        Ok(ClipLin { w, clip_in, clip_out })
    }

    /// Reads a small tensor to the host in single precision.
    pub fn host_f32(&self, name: &str, expect: &[usize]) -> (r: Result<Vec<u32>, IndexError>)
        requires
            self.weights.wf(),
            sized(self.weights),
            small_shape(expect@),
        ensures
            match resolve(self.weights, name@) {
                None => r == Err::<Vec<u32>, IndexError>(IndexError::Missing),
                Some(i) => {
                    let m = self.weights.metas@[i];
                    let host = self.weights.data@[i]@;
                    if expect@.len() > 0 && !view_ok(m.shape@, expect@) {
                        r == Err::<Vec<u32>, IndexError>(IndexError::Shape)
                    } else if !is_plain(m.dtype) {
                        r == Err::<Vec<u32>, IndexError>(
                            IndexError::Unsupported { dtype: m.dtype },
                        )
                    } else {
                        &&& r matches Ok(v)
                        &&& v@.len() == host.len() / (tensor::block_len(m.dtype) as nat)
                        &&& forall|k: int|
                            0 <= k < v@.len() ==> #[trigger] v@[k] == plain_f32(m.dtype, host, k)
                    }
                },
            },
    {
        let i: usize = self.meta(name)?;
        let m: &TensorMeta = &self.weights.metas[i];
        assert(*m == self.weights.metas@[i as int]);
        if expect.len() > 0 && !shape_view_ok(m.shape.as_slice(), expect) {
            return Err(IndexError::Shape);
        }
        decode_f32(m.dtype, self.weights.data[i])
    }
}

pub proof fn lemma_pair_is_small(a: usize, b: usize)
    ensures
        small_shape(seq![a, b]),
{
    let t = seq![a, b].skip(1);
    assert forall|i: int| 0 <= i <= 1 implies #[trigger] tensor::product(t.take(i))
        <= usize::MAX by {
        if i == 0 {
            assert(t.take(0).len() == 0);
        } else {
            let u = t.take(1);
            assert(u.len() == 1 && u[0] == b);
            assert(u.drop_last().len() == 0);
            assert(tensor::product(u.drop_last()) == 1);
            assert(1 * b == b);
        }
    }
}

/// Why a dense place cannot be filled.
#[verifier::opaque]
pub open spec fn dense_fault(w: &LoadedWeights, shift: u32, name: Seq<char>, expect: Seq<usize>) -> Option<
    IndexError,
> {
    match resolve(w, name) {
        None => Some(IndexError::Missing),
        Some(i) => {
            let m = w.metas@[i];
            let host = w.data@[i]@;
            if bnb::state_of(w, m.name@) is Some {
                Some(IndexError::Packed)
            } else if expect.len() > 0 && !view_ok(m.shape@, expect) {
                Some(IndexError::Shape)
            } else if shifts(name, shift) {
                if is_plain(m.dtype) {
                    None
                } else {
                    Some(IndexError::Unsupported { dtype: m.dtype })
                }
            } else if tensor::is_block(m.dtype) {
                if gguf::fits(m.dtype, host.len() as int, m.count()) {
                    None
                } else {
                    Some(
                        IndexError::Dequant(
                            DequantError::SizeMismatch {
                                format: m.dtype,
                                elems: m.count() as usize,
                                bytes: host.len() as usize,
                            },
                        ),
                    )
                }
            } else if m.dtype == DType::U8 {
                Some(IndexError::Unsupported { dtype: m.dtype })
            } else if host.len() < GgufCodec::stored(m.dtype, m.count()) {
                Some(IndexError::Codec(CodecError::Short))
            } else {
                None
            }
        },
    }
}

/// Preparing a dense place fails exactly with its fault.
pub proof fn law_dense_faults(
    w: &LoadedWeights,
    codec: GgufCodec,
    shift: u32,
    name: Seq<char>,
    expect: Seq<usize>,
    r: Result<DeviceData, IndexError>,
)
    requires
        dense_outcome(w, codec, shift, name, expect, r),
    ensures
        match dense_fault(w, shift, name, expect) {
            Some(e) => r == Err::<DeviceData, IndexError>(e),
            None => r is Ok,
        },
{
    reveal(dense_fault);
}

/// Why a linear weight cannot be used.
#[verifier::opaque]
pub open spec fn linear_fault(
    w: &LoadedWeights,
    shift: u32,
    name: Seq<char>,
    n_out: usize,
    n_in: usize,
) -> Option<IndexError> {
    match resolve(w, name) {
        None => Some(IndexError::Missing),
        Some(i) => {
            let m = w.metas@[i];
            if tensor::is_block(m.dtype) {
                if view_ok(m.shape@, seq![n_out, n_in]) {
                    None
                } else {
                    Some(IndexError::Shape)
                }
            } else if bnb::state_of(w, m.name@) is Some {
                match bnb::family_outcome(w, i, m.name@) {
                    bnb::Outcome::Fault(e) => Some(IndexError::Bnb(e)),
                    bnb::Outcome::Degenerate => None,
                    bnb::Outcome::Good(f) => if f.state.rows == n_out && f.state.cols == n_in {
                        None
                    } else {
                        Some(IndexError::Shape)
                    },
                }
            } else {
                dense_fault(w, shift, name, seq![n_out, n_in])
            }
        },
    }
}

/// Preparing a linear weight fails exactly with its fault.
pub proof fn law_linear_faults(
    w: &LoadedWeights,
    codec: GgufCodec,
    shift: u32,
    name: Seq<char>,
    n_out: usize,
    n_in: usize,
    r: Result<LinearData, IndexError>,
)
    requires
        linear_outcome(w, codec, shift, name, n_out, n_in, r),
        sound_states(w),
    ensures
        match linear_fault(w, shift, name, n_out, n_in) {
            Some(e) => r == Err::<LinearData, IndexError>(e),
            None => r is Ok,
        },
{
    reveal(dense_fault);
    reveal(linear_fault);
    match resolve(w, name) {
        Some(i) => {
            crate::weights::lemma_position(w.metas@, "model."@ + name);
            crate::weights::lemma_position(w.metas@, name);
            assert(!(bnb::family_outcome(w, i, w.metas@[i].name@) is Degenerate));
        },
        None => {},
    }
}

impl<'a, 'b> G4Index<'a, 'b> {
    /// The entry that fills a dense place, without converting it.
    pub fn check_dense(&self, name: &str, expect: &[usize]) -> (r: Result<usize, IndexError>)
        requires
            self.weights.wf(),
            sized(self.weights),
            small_shape(expect@),
        ensures
            match r {
                Ok(i) => dense_fault(self.weights, self.norm_shift, name@, expect@) is None
                    && resolve(self.weights, name@) == Some(i as int),
                Err(e) => dense_fault(self.weights, self.norm_shift, name@, expect@) == Some(e),
            },
    {
        proof {
            reveal(dense_fault);
        }
        let i: usize = self.meta(name)?;
        let m: &TensorMeta = &self.weights.metas[i];
        let host: &[u8] = self.weights.data[i];
        assert(*m == self.weights.metas@[i as int]);
        assert(m.countable());
        if state_name(self.weights, m.name.as_str()).is_some() {
            return Err(IndexError::Packed);
        }
        if expect.len() > 0 && !shape_view_ok(m.shape.as_slice(), expect) {
            return Err(IndexError::Shape);
        }
        if text::ends_with(name, "norm.weight") && !Format::F32.eq_value(
            self.norm_shift as u64,
            0,
        ) {
            return match m.dtype {
                DType::F32 | DType::F16 | DType::BF16 => Ok(i),
                dtype => Err(IndexError::Unsupported { dtype }),
            };
        }
        let n: usize = m.numel();
        proof {
            tensor::lemma_product_nonneg(m.shape@);
            let (c, g, b) = (m.count(), tensor::grain(m.dtype), tensor::block_len(m.dtype));
            let q = c / g;
            assert(0 <= q * b <= 4 * c) by (nonlinear_arith)
                requires
                    q == c / g,
                    c >= 0,
                    g >= 1,
                    0 <= b <= 4 * g,
            ;
        }
        let need: usize = tensor::storage_bytes(m.dtype, n);
        if is_gguf_block(m.dtype) {
            return if n % tensor::block_elems(m.dtype) == 0 && need <= host.len() {
                Ok(i)
            } else {
                Err(
                    IndexError::Dequant(
                        DequantError::SizeMismatch {
                            format: m.dtype,
                            elems: n,
                            bytes: host.len(),
                        },
                    ),
                )
            };
        }
        if !self.codec.accepts(m.dtype) {
            return Err(IndexError::Unsupported { dtype: m.dtype });
        }
        if host.len() < need {
            return Err(IndexError::Codec(CodecError::Short));
        }
        Ok(i)
    }

    /// The entry of a linear weight, without converting it.
    pub fn check_linear(&self, name: &str, n_out: usize, n_in: usize) -> (r: Result<
        usize,
        IndexError,
    >)
        requires
            self.weights.wf(),
            sized(self.weights),
            sound_states(self.weights),
        ensures
            match r {
                Ok(i) => linear_fault(self.weights, self.norm_shift, name@, n_out, n_in) is None
                    && resolve(self.weights, name@) == Some(i as int),
                Err(e) => linear_fault(self.weights, self.norm_shift, name@, n_out, n_in) == Some(
                    e,
                ),
            },
    {
        proof {
            reveal(dense_fault);
            reveal(linear_fault);
        }
        let i: usize = self.meta(name)?;
        let m: &TensorMeta = &self.weights.metas[i];
        assert(*m == self.weights.metas@[i as int]);
        let mut expect: Vec<usize> = Vec::new();
        expect.push(n_out);
        expect.push(n_in);
        proof {
            assert(expect@ =~= seq![n_out, n_in]);
            lemma_pair_is_small(n_out, n_in);
        }
        if is_gguf_block(m.dtype) {
            return if shape_view_ok(m.shape.as_slice(), expect.as_slice()) {
                Ok(i)
            } else {
                Err(IndexError::Shape)
            };
        }
        if state_name(self.weights, m.name.as_str()).is_some() {
            return match upload_nf4(self.weights, i, m.name.as_str()) {
                Err(e) => Err(IndexError::Bnb(e)),
                Ok(family) => {
                    if family.state.rows == n_out && family.state.cols == n_in {
                        Ok(i)
                    } else {
                        Err(IndexError::Shape)
                    }
                },
            };
        }
        self.check_dense(name, expect.as_slice())
    }
}

} // verus!
