//! The device footprint of a model, predicted before anything is allocated,
//! and the host memory that loading it takes.
use vstd::prelude::*;

use crate::models::transformer::config::ModelConfig;
use crate::models::CHUNK;
use crate::quant::gguf::GgufCodec;
use crate::tensor;
use crate::tensor::{DType, TensorMeta};
use crate::text;
use crate::weights::LoadedWeights;

verus! {

/// Ceiling of the buffer that prefill expands weights into.
pub const DQ_SCRATCH: usize = 33_554_432;

/// What must stay free on the device besides the model.
pub const HEADROOM: usize = 201_326_592;

/// What must stay free on the host besides the largest staging buffer.
pub const HOST_SLACK: usize = 268_435_456;

/// The predicted footprint.
#[derive(Clone, Copy, PartialEq, Eq, Debug, Structural)]
pub struct VramForecast {
    pub weights: usize,
    pub kv_cache: usize,
    pub workspace: usize,
    /// Peak of what conversion stages on the device while loading.
    pub load_transient: usize,
}

/// The model does not fit the device.
#[derive(Clone, Copy, PartialEq, Eq, Debug, Structural)]
pub struct NoFit {
    pub need: usize,
    pub free: usize,
}

/// Bytes per element of the plain encodings; packed ones are counted by
/// element.
pub open spec fn elem_size(dt: DType) -> int {
    match dt {
        DType::F32 => 4,
        DType::F16 | DType::BF16 => 2,
        _ => 1,
    }
}

pub(crate) fn elem_bytes(dt: DType) -> (r: usize)
    ensures
        r == elem_size(dt),
{
    match dt {
        DType::F32 => 4,
        DType::F16 | DType::BF16 => 2,
        _ => 1,
    }
}

/// Device bytes of one tensor.
pub open spec fn tensor_bytes(codec: GgufCodec, m: TensorMeta) -> int {
    if codec.resident && tensor::is_block(m.dtype) {
        GgufCodec::stored(m.dtype, m.count())
    } else {
        2 * m.count()
    }
}

/// Device bytes of the first `n` tensors.
pub open spec fn weight_bytes(w: &LoadedWeights, codec: GgufCodec, n: int) -> int
    decreases n,
{
    if n <= 0 {
        0
    } else {
        weight_bytes(w, codec, n - 1) + tensor_bytes(codec, w.metas@[n - 1])
    }
}

/// The largest conversion that the first `n` tensors stage.
pub open spec fn transient_bytes(w: &LoadedWeights, n: int) -> int
    decreases n,
{
    if n <= 0 {
        0
    } else {
        let m = w.metas@[n - 1];
        let before = transient_bytes(w, n - 1);
        let here = m.count() * elem_size(m.dtype);
        if m.dtype != DType::F16 && here > before {
            here
        } else {
            before
        }
    }
}

/// The largest half-precision conversion buffer on the host.
pub open spec fn staged_bytes(w: &LoadedWeights, n: int) -> int
    decreases n,
{
    if n <= 0 {
        0
    } else {
        let m = w.metas@[n - 1];
        let before = staged_bytes(w, n - 1);
        let here = m.count() * 2;
        if m.dtype != DType::F16 && m.dtype != DType::U8 && here > before {
            here
        } else {
            before
        }
    }
}

/// The element counts of all tensors are machine numbers.
pub open spec fn countable(w: &LoadedWeights) -> bool {
    forall|i: int|
        0 <= i < w.metas@.len() ==> (#[trigger] w.metas@[i]).countable() && 4 * w.metas@[i].count()
            <= usize::MAX
}

/// Width of all query heads.
pub open spec fn qd(c: ModelConfig) -> int {
    c.n_heads * c.head_dim
}

/// Width of all key heads.
pub open spec fn kvd(c: ModelConfig) -> int {
    c.n_kv_heads * c.head_dim
}

pub open spec fn max2(a: int, b: int) -> int {
    if a >= b {
        a
    } else {
        b
    }
}

/// Elements of the largest linear of a layer.
pub open spec fn largest_linear(c: ModelConfig) -> int {
    max2(max2(qd(c), kvd(c)), c.intermediate_size as int) * c.hidden_size
}

/// Bytes of the buffer that prefill expands weights into.
pub open spec fn scratch_bytes(c: ModelConfig) -> int {
    let n = largest_linear(c) * 2;
    if n <= DQ_SCRATCH {
        n
    } else {
        DQ_SCRATCH as int
    }
}

/// Bytes of one cache.
pub open spec fn cache_bytes(c: ModelConfig) -> int {
    c.n_kv_heads * c.max_seq * c.head_dim * 2
}

/// Bytes of all caches.
pub open spec fn kv_bytes(c: ModelConfig) -> int {
    c.n_layers * 2 * cache_bytes(c)
}

/// Bytes of the activations.
pub open spec fn ws_bytes(c: ModelConfig) -> int {
    let h = max2(c.hidden_size as int, qd(c));
    512 * (3 * h + qd(c) + 2 * kvd(c) + 2 * c.intermediate_size) * 2 + (qd(c) + 2 * kvd(c)) * 2
        + c.vocab_size * 8
}

/// The sizes that a model needs are machine numbers.
pub open spec fn sized(c: ModelConfig) -> bool {
    &&& c.hidden_size * 4096 <= usize::MAX
    &&& c.intermediate_size * 4096 <= usize::MAX
    &&& c.vocab_size * 8 <= usize::MAX
    &&& c.n_heads * 1024 <= usize::MAX
    &&& c.n_kv_heads * 1024 <= usize::MAX
    &&& qd(c) * 4096 <= usize::MAX
    &&& kvd(c) * 4096 <= usize::MAX
    &&& max2(max2(qd(c), kvd(c)), c.intermediate_size as int) * c.hidden_size * 2 <= usize::MAX
    &&& c.n_kv_heads * c.max_seq <= usize::MAX
    &&& c.n_kv_heads * c.max_seq * c.head_dim <= usize::MAX
    &&& cache_bytes(c) <= usize::MAX
    &&& c.n_layers * 2 <= usize::MAX
    &&& kv_bytes(c) <= usize::MAX
    &&& ws_bytes(c) <= usize::MAX
}

pub proof fn lemma_widths(c: ModelConfig)
    ensures
        0 <= qd(c),
        0 <= kvd(c),
        0 <= largest_linear(c),
        0 <= scratch_bytes(c) <= DQ_SCRATCH,
        0 <= cache_bytes(c),
        0 <= c.n_kv_heads * c.max_seq,
{
    let (a, b, d, s) = (c.n_heads as int, c.n_kv_heads as int, c.head_dim as int, c.max_seq as int);
    assert(a * d >= 0 && b * d >= 0 && b * s >= 0) by (nonlinear_arith)
        requires
            a >= 0,
            b >= 0,
            d >= 0,
            s >= 0,
    ;
    let bs = b * s;
    assert(bs * d >= 0) by (nonlinear_arith)
        requires
            bs >= 0,
            d >= 0,
    ;
    let m = max2(max2(qd(c), kvd(c)), c.intermediate_size as int);
    let h = c.hidden_size as int;
    assert(m * h >= 0) by (nonlinear_arith)
        requires
            m >= 0,
            h >= 0,
    ;
}

/// The buffer that prefill expands weights into.
pub fn scratch_of(c: &ModelConfig) -> (r: usize)
    requires
        sized(*c),
    ensures
        r == scratch_bytes(*c),
{
    proof {
        lemma_widths(*c);
    }
    let q: usize = c.n_heads * c.head_dim;
    let k: usize = c.n_kv_heads * c.head_dim;
    let a: usize = if q >= k {
        q
    } else {
        k
    };
    let m: usize = if a >= c.intermediate_size {
        a
    } else {
        c.intermediate_size
    };
    let n: usize = m * c.hidden_size * 2;
    if n <= DQ_SCRATCH {
        n
    } else {
        DQ_SCRATCH
    }
}

pub proof fn lemma_tensor_bytes(w: &LoadedWeights, codec: GgufCodec, i: int)
    requires
        countable(w),
        0 <= i < w.metas@.len(),
    ensures
        0 <= w.metas@[i].count(),
        0 <= tensor_bytes(codec, w.metas@[i]),
        0 <= GgufCodec::stored(w.metas@[i].dtype, w.metas@[i].count()) <= usize::MAX,
        w.metas@[i].count() * elem_size(w.metas@[i].dtype) <= usize::MAX,
{
    let m = w.metas@[i];
    tensor::lemma_product_nonneg(m.shape@);
    let c = m.count();
    let g = tensor::grain(m.dtype);
    let b = tensor::block_len(m.dtype);
    let q = c / g;
    assert(0 <= q * b <= 4 * c) by (nonlinear_arith)
        requires
            c >= 0,
            g >= 1,
            q == c / g,
            0 <= b <= 4 * g,
    ;
    let e = elem_size(m.dtype);
    assert(c * e <= 4 * c) by (nonlinear_arith)
        requires
            c >= 0,
            1 <= e <= 4,
    ;
}

proof fn lemma_weight_bytes(w: &LoadedWeights, codec: GgufCodec, a: int, n: int)
    requires
        countable(w),
        0 <= a <= n <= w.metas@.len(),
    ensures
        0 <= weight_bytes(w, codec, a) <= weight_bytes(w, codec, n),
    decreases n,
{
    if n > 0 {
        lemma_tensor_bytes(w, codec, n - 1);
        if a == n {
            lemma_weight_bytes(w, codec, n - 1, n - 1);
        } else {
            lemma_weight_bytes(w, codec, a, n - 1);
        }
    }
}

fn sum_weights(w: &LoadedWeights, codec: &GgufCodec) -> (r: usize)
    requires
        countable(w),
        weight_bytes(w, *codec, w.metas@.len() as int) <= usize::MAX,
    ensures
        r == weight_bytes(w, *codec, w.metas@.len() as int),
{
    let mut total: usize = 0;
    let mut i: usize = 0;
    while i < w.metas.len()
        invariant
            i <= w.metas@.len(),
            countable(w),
            weight_bytes(w, *codec, w.metas@.len() as int) <= usize::MAX,
            total == weight_bytes(w, *codec, i as int),
        decreases w.metas@.len() - i,
    {
        proof {
            lemma_tensor_bytes(w, *codec, i as int);
            lemma_weight_bytes(w, *codec, i + 1, w.metas@.len() as int);
        }
        assert(w.metas@[i as int].countable());
        total = total + codec.device_bytes(&w.metas[i]);
        i = i + 1;
    }
    total
}

fn max_transient(w: &LoadedWeights) -> (r: usize)
    requires
        countable(w),
    ensures
        r == transient_bytes(w, w.metas@.len() as int),
{
    let mut best: usize = 0;
    let mut i: usize = 0;
    while i < w.metas.len()
        invariant
            i <= w.metas@.len(),
            countable(w),
            best == transient_bytes(w, i as int),
        decreases w.metas@.len() - i,
    {
        proof {
            lemma_tensor_bytes(w, GgufCodec { resident: false }, i as int);
        }
        let m: &TensorMeta = &w.metas[i];
        assert(*m == w.metas@[i as int]);
        match m.dtype {
            DType::F16 => {},
            _ => {
                let here: usize = m.numel() * elem_bytes(m.dtype);
                if here > best {
                    best = here;
                }
            },
        }
        i = i + 1;
    }
    best
}

/// The largest half-precision conversion buffer on the host.
pub fn max_staged(w: &LoadedWeights) -> (r: usize)
    requires
        countable(w),
    ensures
        r == staged_bytes(w, w.metas@.len() as int),
{
    let mut best: usize = 0;
    let mut i: usize = 0;
    while i < w.metas.len()
        invariant
            i <= w.metas@.len(),
            countable(w),
            best == staged_bytes(w, i as int),
        decreases w.metas@.len() - i,
    {
        proof {
            lemma_tensor_bytes(w, GgufCodec { resident: false }, i as int);
        }
        let m: &TensorMeta = &w.metas[i];
        assert(*m == w.metas@[i as int]);
        match m.dtype {
            DType::F16 | DType::U8 => {},
            _ => {
                let here: usize = m.numel() * 2;
                if here > best {
                    best = here;
                }
            },
        }
        i = i + 1;
    }
    best
}

impl VramForecast {
    pub open spec fn sum(&self) -> int {
        self.weights + self.kv_cache + self.workspace + self.load_transient
    }

    /// All that the model takes at its peak.
    pub fn total(&self) -> (r: usize)
        requires
            self.sum() <= usize::MAX,
        ensures
            r == self.sum(),
    {
        self.weights + self.kv_cache + self.workspace + self.load_transient
    }

    /// The forecast of a checkpoint under a codec.
    pub fn compute(c: &ModelConfig, w: &LoadedWeights, codec: &GgufCodec) -> (r: VramForecast)
        requires
            sized(*c),
            countable(w),
            weight_bytes(w, *codec, w.metas@.len() as int) + DQ_SCRATCH <= usize::MAX,
        ensures
            r.weights == weight_bytes(w, *codec, w.metas@.len() as int) + (if codec.resident {
                scratch_bytes(*c)
            } else {
                0
            }),
            r.kv_cache == kv_bytes(*c),
            r.workspace == ws_bytes(*c),
            r.load_transient == transient_bytes(w, w.metas@.len() as int),
    {
        proof {
            lemma_widths(*c);
        }
        let mut weights: usize = sum_weights(w, codec);
        if codec.resident_quant() {
            weights = weights + scratch_of(c);
        }
        let kv: usize = (c.n_layers * 2) * (c.n_kv_heads * c.max_seq * c.head_dim * 2);
        let q: usize = c.n_heads * c.head_dim;
        let k: usize = c.n_kv_heads * c.head_dim;
        let h: usize = if c.hidden_size >= q {
            c.hidden_size
        } else {
            q
        };
        let ws: usize = CHUNK * (3 * h + q + 2 * k + 2 * c.intermediate_size) * 2 + (q + 2 * k) * 2
            + c.vocab_size * 8;
        VramForecast { weights, kv_cache: kv, workspace: ws, load_transient: max_transient(w) }
    }

    /// Refuses a model that does not leave the headroom of `free` device bytes.
    pub fn check(&self, free: usize) -> (r: Result<(), NoFit>)
        requires
            self.sum() + HEADROOM <= usize::MAX,
        ensures
            match r {
                Ok(_) => self.sum() + HEADROOM <= free,
                Err(e) => self.sum() + HEADROOM > free && e.need == self.sum() && e.free == free,
            },
    {
        let need: usize = self.total();
        if need + HEADROOM > free {
            return Err(NoFit { need, free });
        }
        Ok(())
    }

    /// Refuses to load where the host cannot stage the largest conversion.
    /// `avail_kb` is what the host reports as available, if it does.
    pub fn host_guard(w: &LoadedWeights, avail_kb: Option<usize>) -> (r: Result<(), NoFit>)
        requires
            countable(w),
            avail_kb matches Some(kb) ==> kb * 1024 <= usize::MAX,
            staged_bytes(w, w.metas@.len() as int) + HOST_SLACK <= usize::MAX,
        ensures
            match avail_kb {
                None => r is Ok,
                Some(kb) => {
                    let need = staged_bytes(w, w.metas@.len() as int) + HOST_SLACK;
                    match r {
                        Ok(_) => need <= kb * 1024,
                        Err(e) => need > kb * 1024 && e.need == need && e.free == kb * 1024,
                    }
                },
            },
    {
        let kb: usize = match avail_kb {
            Some(kb) => kb,
            None => {
                return Ok(());
            },
        };
        let need: usize = max_staged(w) + HOST_SLACK;
        if kb * 1024 < need {
            return Err(NoFit { need, free: kb * 1024 });
        }
        Ok(())
    }
}

/// The caches of the forecast are those of every layer, keys and values.
pub proof fn law_forecast_counts_every_cache(c: ModelConfig)
    ensures
        kv_bytes(c) == c.n_layers * (cache_bytes(c) + cache_bytes(c)),
{
    let (a, b) = (c.n_layers as int, cache_bytes(c));
    assert(a * 2 * b == a * (b + b)) by (nonlinear_arith);
}

/// A line begins at `i`.
pub open spec fn line_begins(s: Seq<char>, i: int) -> bool {
    i == 0 || (0 < i <= s.len() && s[i - 1] == '\n')
}

/// The first line from `i` on that begins with `p`.
pub open spec fn find_line(s: Seq<char>, p: Seq<char>, i: int) -> Option<int>
    decreases s.len() + 1 - i,
{
    if i < 0 || i > s.len() {
        None
    } else if line_begins(s, i) && text::at(s, i, p) {
        Some(i)
    } else {
        find_line(s, p, i + 1)
    }
}

/// The end of the word at `i`.
pub open spec fn word_end(s: Seq<char>, i: int) -> int
    decreases s.len() - i,
{
    if i < 0 || i >= s.len() || text::space(s[i]) {
        i
    } else {
        word_end(s, i + 1)
    }
}

/// The next word from `i` on, or the end of the line.
pub open spec fn word_start(s: Seq<char>, i: int) -> int
    decreases s.len() - i,
{
    if i < 0 || i >= s.len() || s[i] == '\n' || !text::space(s[i]) {
        i
    } else {
        word_start(s, i + 1)
    }
}

/// The number that follows the first word of the line that begins with `p`.
pub open spec fn reported(s: Seq<char>, p: Seq<char>) -> Option<usize> {
    match find_line(s, p, 0) {
        None => None,
        Some(i) => {
            let a = word_start(s, word_end(s, i));
            text::number(s.subrange(a, word_end(s, a)))
        },
    }
}

fn end_of_word(s: &Vec<char>, from: usize) -> (r: usize)
    requires
        from <= s@.len(),
    ensures
        r == word_end(s@, from as int),
        from <= r <= s@.len(),
{
    let mut i: usize = from;
    while i < s.len() && !text::is_space(s[i])
        invariant
            from <= i <= s@.len(),
            word_end(s@, from as int) == word_end(s@, i as int),
        decreases s@.len() - i,
    {
        i = i + 1;
    }
    i
}

fn start_of_word(s: &Vec<char>, from: usize) -> (r: usize)
    requires
        from <= s@.len(),
    ensures
        r == word_start(s@, from as int),
        from <= r <= s@.len(),
{
    let mut i: usize = from;
    while i < s.len() && s[i] != '\n' && text::is_space(s[i])
        invariant
            from <= i <= s@.len(),
            word_start(s@, from as int) == word_start(s@, i as int),
        decreases s@.len() - i,
    {
        i = i + 1;
    }
    i
}

/// Kibibytes that a memory report calls available.
pub fn mem_available(report: &str) -> (r: Option<usize>)
    ensures
        r == reported(report@, "MemAvailable:"@),
{
    let s: Vec<char> = text::to_chars(report);
    let p: Vec<char> = text::to_chars("MemAvailable:");
    let mut i: usize = 0;
    loop
        invariant
            i <= s@.len(),
            s@ == report@,
            p@ == "MemAvailable:"@,
            find_line(s@, p@, 0) == find_line(s@, p@, i as int),
        decreases s@.len() - i,
    {
        if (i == 0 || s[i - 1] == '\n') && text::is_at(&s, i, &p) {
            let a: usize = start_of_word(&s, end_of_word(&s, i));
            let b: usize = end_of_word(&s, a);
            return text::parse_number(&s, a, b);
        }
        if i == s.len() {
            assert(find_line(s@, p@, i + 1) is None);
            return None;
        }
        i = i + 1;
    }
}

} // verus!
