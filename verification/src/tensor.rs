//! Stored tensors: element encodings and index entries.
use vstd::prelude::*;

verus! {

/// How the elements of a stored tensor are encoded.
#[derive(Clone, Copy, PartialEq, Eq, Debug, Structural)]
pub enum DType {
    F32,
    F16,
    BF16,
    U8,
    GgufQ8_0,
    GgufQ4_0,
    GgufQ4_1,
    GgufQ5_0,
    GgufQ5_1,
    GgufQ4K,
    GgufQ5K,
    GgufQ6K,
    GgufIQ4XS,
}

/// Elements per block; `1` for the plain encodings.
pub open spec fn grain(dt: DType) -> int {
    match dt {
        DType::F32 | DType::F16 | DType::BF16 | DType::U8 => 1,
        DType::GgufQ8_0 | DType::GgufQ4_0 | DType::GgufQ4_1 | DType::GgufQ5_0
        | DType::GgufQ5_1 => 32,
        DType::GgufQ4K | DType::GgufQ5K | DType::GgufQ6K | DType::GgufIQ4XS => 256,
    }
}

/// Bytes per block, or per element of the plain encodings.
pub open spec fn block_len(dt: DType) -> int {
    match dt {
        DType::F32 => 4,
        DType::F16 | DType::BF16 => 2,
        DType::U8 => 1,
        DType::GgufQ8_0 => 34,
        DType::GgufQ4_0 => 18,
        DType::GgufQ4_1 => 20,
        DType::GgufQ5_0 => 22,
        DType::GgufQ5_1 => 24,
        DType::GgufQ4K => 144,
        DType::GgufQ5K => 176,
        DType::GgufQ6K => 210,
        DType::GgufIQ4XS => 136,
    }
}

/// The encoding packs elements into quantized blocks.
pub open spec fn is_block(dt: DType) -> bool {
    grain(dt) > 1
}

pub fn block_elems(dt: DType) -> (r: usize)
    ensures
        r == grain(dt),
{
    match dt {
        DType::F32 | DType::F16 | DType::BF16 | DType::U8 => 1,
        DType::GgufQ8_0 | DType::GgufQ4_0 | DType::GgufQ4_1 | DType::GgufQ5_0
        | DType::GgufQ5_1 => 32,
        DType::GgufQ4K | DType::GgufQ5K | DType::GgufQ6K | DType::GgufIQ4XS => 256,
    }
}

pub fn block_bytes(dt: DType) -> (r: usize)
    ensures
        r == block_len(dt),
{
    match dt {
        DType::F32 => 4,
        DType::F16 | DType::BF16 => 2,
        DType::U8 => 1,
        DType::GgufQ8_0 => 34,
        DType::GgufQ4_0 => 18,
        DType::GgufQ4_1 => 20,
        DType::GgufQ5_0 => 22,
        DType::GgufQ5_1 => 24,
        DType::GgufQ4K => 144,
        DType::GgufQ5K => 176,
        DType::GgufQ6K => 210,
        DType::GgufIQ4XS => 136,
    }
}

pub fn is_gguf_block(dt: DType) -> (r: bool)
    ensures
        r == is_block(dt),
{
    block_elems(dt) > 1
}

/// Bytes that `numel` elements take on disk; a trailing partial block is not
/// counted.
pub fn storage_bytes(dt: DType, numel: usize) -> (r: usize)
    requires
        (numel as int) / grain(dt) * block_len(dt) <= usize::MAX,
    ensures
        r == (numel as int) / grain(dt) * block_len(dt),
{
    (numel / block_elems(dt)) * block_bytes(dt)
}

/// One entry of a checkpoint's index.
#[derive(Debug)]
pub struct TensorMeta {
    pub name: String,
    pub dtype: DType,
    pub shape: Vec<usize>,
    pub offset: usize,
    pub nbytes: usize,
    pub file: String,
}

/// The product of the dimensions.
pub open spec fn product(shape: Seq<usize>) -> int
    decreases shape.len(),
{
    if shape.len() == 0 {
        1
    } else {
        product(shape.drop_last()) * shape.last()
    }
}

impl TensorMeta {
    /// The number of elements.
    pub open spec fn count(&self) -> int {
        product(self.shape@)
    }

    /// Every partial product of the dimensions is a machine number.
    pub open spec fn countable(&self) -> bool {
        forall|i: int| 0 <= i <= self.shape@.len() ==> #[trigger] product(self.shape@.take(i)) <= usize::MAX
    }

    pub fn numel(&self) -> (r: usize)
        requires
            self.countable(),
        ensures
            r == self.count(),
    {
        let mut n: usize = 1;
        let mut i: usize = 0;
        while i < self.shape.len()
            invariant
                i <= self.shape@.len(),
                self.countable(),
                n == product(self.shape@.take(i as int)),
            decreases self.shape@.len() - i,
        {
            proof {
                let next = self.shape@.take(i + 1);
                assert(next.drop_last() == self.shape@.take(i as int));
                assert(product(next) == n * self.shape@[i as int]);
            }
            n = n * self.shape[i];
            i = i + 1;
        }
        assert(self.shape@.take(i as int) == self.shape@);
        n
    }
}

/// Two entries say the same.
pub open spec fn same_meta(a: TensorMeta, b: TensorMeta) -> bool {
    &&& a.name@ == b.name@
    &&& a.dtype == b.dtype
    &&& a.shape@ == b.shape@
    &&& a.offset == b.offset
    &&& a.nbytes == b.nbytes
    &&& a.file@ == b.file@
}

pub fn copy_sizes(v: &Vec<usize>) -> (r: Vec<usize>)
    ensures
        r@ == v@,
{
    let mut out: Vec<usize> = Vec::new();
    let mut i: usize = 0;
    while i < v.len()
        invariant
            i <= v@.len(),
            out@ == v@.take(i as int),
        decreases v@.len() - i,
    {
        out.push(v[i]);
        i = i + 1;
    }
    out
}

impl TensorMeta {
    pub fn copy(&self) -> (r: TensorMeta)
        ensures
            same_meta(r, *self),
    {
        TensorMeta {
            name: self.name.clone(),
            dtype: self.dtype,
            shape: copy_sizes(&self.shape),
            offset: self.offset,
            nbytes: self.nbytes,
            file: self.file.clone(),
        }
    }
}

pub proof fn lemma_product_nonneg(s: Seq<usize>)
    ensures
        product(s) >= 0,
    decreases s.len(),
{
    if s.len() > 0 {
        lemma_product_nonneg(s.drop_last());
        let (a, b) = (product(s.drop_last()), s.last() as int);
        assert(a * b >= 0) by (nonlinear_arith)
            requires
                a >= 0,
                b >= 0,
        ;
    }
}

} // verus!
