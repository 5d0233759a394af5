//! The resident graph of a dense decoder: what fills its places, how large its
//! buffers are, and the state that generation moves along.
use vstd::prelude::*;

use crate::models::capture::Captures;
use crate::models::towers;
use crate::models::towers::{EncoderTower, EncoderTowers, TowerError, TowerKind};
use crate::models::transformer::config::ModelConfig;
use crate::models::transformer::forecast;
use crate::models::transformer::forecast::scratch_of;
use crate::models::transformer::lin::Lin;
use crate::models::{CHUNK, SAMPLE_TOPK};
use crate::quant::gguf::{CodecError, DequantError, DeviceData, GgufCodec};
use crate::tensor;
use crate::tensor::{block_elems, is_gguf_block, storage_bytes, DType, TensorMeta};
use crate::text;
use crate::weights::LoadedWeights;

verus! {

/// The entry called `name` under the first prefix that has one.
pub open spec fn resolve(w: &LoadedWeights, name: Seq<char>) -> Option<int> {
    if w.find(name) is Some {
        w.find(name)
    } else if w.find("model."@ + name) is Some {
        w.find("model."@ + name)
    } else if w.find("language_model.model."@ + name) is Some {
        w.find("language_model.model."@ + name)
    } else if w.find("language_model."@ + name) is Some {
        w.find("language_model."@ + name)
    } else {
        w.find("transformer."@ + name)
    }
}

/// Why a place cannot be filled.
#[derive(Clone, Copy, PartialEq, Eq, Debug, Structural)]
pub enum PlaceError {
    /// There is no such tensor under any prefix.
    Missing,
    /// The shape is not what the configuration requires.
    Shape,
    /// A row is no whole number of blocks.
    RowBlocks { k: usize, elems: usize },
    /// The codec cannot execute the encoding.
    Unsupported { dtype: DType },
    Codec(CodecError),
}

/// Tensor lookup for one checkpoint and codec.
pub struct WeightIndex<'a, 'b> {
    pub weights: &'a LoadedWeights<'b>,
    pub codec: &'a GgufCodec,
}

/// What the codec objects to in entry `i`.
pub open spec fn codec_fault(w: &LoadedWeights, codec: GgufCodec, i: int) -> Option<PlaceError> {
    let m = w.metas@[i];
    let n = m.count();
    if GgufCodec::stored(m.dtype, n) > w.data@[i]@.len() {
        Some(PlaceError::Codec(CodecError::Short))
    } else if tensor::is_block(m.dtype) && !codec.resident && n % tensor::grain(m.dtype) != 0 {
        Some(
            PlaceError::Codec(
                CodecError::Dequant(
                    DequantError::SizeMismatch {
                        format: m.dtype,
                        elems: n as usize,
                        bytes: w.data@[i]@.len() as usize,
                    },
                ),
            ),
        )
    } else {
        None
    }
}

/// What stops a tensor of shape `expect` from being uploaded.
pub open spec fn upload_fault(
    w: &LoadedWeights,
    codec: GgufCodec,
    name: Seq<char>,
    expect: Seq<usize>,
) -> Option<PlaceError> {
    match resolve(w, name) {
        None => Some(PlaceError::Missing),
        Some(i) => if w.metas@[i].shape@ != expect {
            Some(PlaceError::Shape)
        } else if w.metas@[i].dtype == DType::U8 {
            Some(PlaceError::Unsupported { dtype: DType::U8 })
        } else {
            codec_fault(w, codec, i)
        },
    }
}

/// What stops a linear of `n` rows of `k`. Blocks stay as stored where the
/// codec keeps them; then every row must be whole in blocks.
pub open spec fn lin_fault(
    w: &LoadedWeights,
    codec: GgufCodec,
    name: Seq<char>,
    n: usize,
    k: usize,
) -> Option<PlaceError> {
    match resolve(w, name) {
        None => Some(PlaceError::Missing),
        Some(i) => {
            let m = w.metas@[i];
            if codec.resident && tensor::is_block(m.dtype) {
                if m.shape@ != seq![n, k] {
                    Some(PlaceError::Shape)
                } else if k as int % tensor::grain(m.dtype) != 0 {
                    Some(
                        PlaceError::RowBlocks { k, elems: tensor::grain(m.dtype) as usize },
                    )
                } else {
                    codec_fault(w, codec, i)
                }
            } else {
                upload_fault(w, codec, name, seq![n, k])
            }
        },
    }
}

/// The residency of a linear that can be filled.
pub open spec fn lin_of(w: &LoadedWeights, codec: GgufCodec, name: Seq<char>, n: usize, k: usize) -> Lin {
    let m = w.metas@[resolve(w, name)->0];
    if codec.resident && tensor::is_block(m.dtype) {
        Lin::Quant { fmt: m.dtype, n, k }
    } else {
        Lin::F16 { n, k }
    }
}

fn shape_is(v: &Vec<usize>, e: &[usize]) -> (r: bool)
    ensures
        r == (v@ == e@),
{
    if v.len() != e.len() {
        return false;
    }
    let mut i: usize = 0;
    while i < v.len()
        invariant
            i <= v@.len(),
            v@.len() == e@.len(),
            forall|k: int| 0 <= k < i ==> v@[k] == e@[k],
        decreases v@.len() - i,
    {
        if v[i] != e[i] {
            return false;
        }
        i = i + 1;
    }
    assert(v@ =~= e@);
    true
}

impl<'a, 'b> WeightIndex<'a, 'b> {
    pub fn new(weights: &'a LoadedWeights<'b>, codec: &'a GgufCodec) -> (r: Self)
        ensures
            r.weights == weights,
            r.codec == codec,
    {
        WeightIndex { weights, codec }
    }

    fn under(&self, prefix: &str, name: &str) -> (r: Option<usize>)
        ensures
            match r {
                Some(i) => self.weights.find(prefix@ + name@) == Some(i as int) && i
                    < self.weights.metas@.len(),
                None => self.weights.find(prefix@ + name@) is None,
            },
    {
        let full: String = text::join(prefix, name);
        self.weights.get(full.as_str())
    }

    /// The entry of a required tensor.
    pub fn meta(&self, name: &str) -> (r: Result<usize, PlaceError>)
        ensures
            match r {
                Ok(i) => resolve(self.weights, name@) == Some(i as int) && i
                    < self.weights.metas@.len(),
                Err(e) => resolve(self.weights, name@) is None && e == PlaceError::Missing,
            },
    {
        match self.weights.get(name) {
            Some(i) => {
                return Ok(i);
            },
            None => {},
        }
        match self.under("model.", name) {
            Some(i) => {
                return Ok(i);
            },
            None => {},
        }
        match self.under("language_model.model.", name) {
            Some(i) => {
                return Ok(i);
            },
            None => {},
        }
        match self.under("language_model.", name) {
            Some(i) => {
                return Ok(i);
            },
            None => {},
        }
        match self.under("transformer.", name) {
            Some(i) => Ok(i),
            None => Err(PlaceError::Missing),
        }
    }

    pub fn has(&self, name: &str) -> (r: bool)
        ensures
            r == resolve(self.weights, name@) is Some,
    {
        self.meta(name).is_ok()
    }

    pub(crate) fn codec_check(&self, i: usize) -> (r: Result<(), PlaceError>)
        requires
            self.weights.wf(),
            forecast::countable(self.weights),
            i < self.weights.metas@.len(),
        ensures
            match r {
                Ok(_) => codec_fault(self.weights, *self.codec, i as int) is None,
                Err(e) => codec_fault(self.weights, *self.codec, i as int) == Some(e),
            },
    {
        let m: &TensorMeta = &self.weights.metas[i];
        assert(*m == self.weights.metas@[i as int]);
        proof {
            forecast::lemma_tensor_bytes(self.weights, *self.codec, i as int);
        }
        let n: usize = m.numel();
        let len: usize = self.weights.data[i].len();
        if storage_bytes(m.dtype, n) > len {
            return Err(PlaceError::Codec(CodecError::Short));
        }
        if is_gguf_block(m.dtype) && !self.codec.resident_quant() && n % block_elems(m.dtype) != 0 {
            return Err(
                PlaceError::Codec(
                    CodecError::Dequant(
                        DequantError::SizeMismatch { format: m.dtype, elems: n, bytes: len },
                    ),
                ),
            );
        }
        Ok(())
    }

    fn check_upload(&self, name: &str, expect: &[usize]) -> (r: Result<usize, PlaceError>)
        requires
            self.weights.wf(),
            forecast::countable(self.weights),
        ensures
            match r {
                Ok(i) => upload_fault(self.weights, *self.codec, name@, expect@) is None && resolve(
                    self.weights,
                    name@,
                ) == Some(i as int) && i < self.weights.metas@.len(),
                Err(e) => upload_fault(self.weights, *self.codec, name@, expect@) == Some(e),
            },
    {
        let i: usize = self.meta(name)?;
        let m: &TensorMeta = &self.weights.metas[i];
        assert(*m == self.weights.metas@[i as int]);
        if !shape_is(&m.shape, expect) {
            return Err(PlaceError::Shape);
        }
        match m.dtype {
            DType::U8 => {
                return Err(PlaceError::Unsupported { dtype: DType::U8 });
            },
            _ => {},
        }
        self.codec_check(i)?;
        Ok(i)
    }

    /// Prepares a dense tensor of shape `expect` for the device.
    pub fn upload(&self, name: &str, expect: &[usize]) -> (r: Result<DeviceData, PlaceError>)
        requires
            self.weights.wf(),
            forecast::countable(self.weights),
        ensures
            match r {
                Ok(d) => {
                    &&& upload_fault(self.weights, *self.codec, name@, expect@) is None
                    &&& uploaded(self.weights, *self.codec, resolve(self.weights, name@)->0, d)
                },
                Err(e) => upload_fault(self.weights, *self.codec, name@, expect@) == Some(e),
            },
    {
        let i: usize = self.check_upload(name, expect)?;
        let m: &TensorMeta = &self.weights.metas[i];
        assert(*m == self.weights.metas@[i as int]);
        proof {
            forecast::lemma_tensor_bytes(self.weights, *self.codec, i as int);
        }
        match self.codec.upload(m, self.weights.data[i]) {
            Ok(d) => Ok(d),
            Err(e) => Err(PlaceError::Codec(e)),
        }
    }

    /// Checks a linear, and finds its entry and its residency.
    pub fn upload_lin(&self, name: &str, n: usize, k: usize) -> (r: Result<
        (usize, Lin),
        PlaceError,
    >)
        requires
            self.weights.wf(),
            forecast::countable(self.weights),
        ensures
            match r {
                Ok((i, l)) => {
                    &&& lin_fault(self.weights, *self.codec, name@, n, k) is None
                    &&& resolve(self.weights, name@) == Some(i as int)
                    &&& l == lin_of(self.weights, *self.codec, name@, n, k)
                },
                Err(e) => lin_fault(self.weights, *self.codec, name@, n, k) == Some(e),
            },
    {
        let i: usize = self.meta(name)?;
        let m: &TensorMeta = &self.weights.metas[i];
        assert(*m == self.weights.metas@[i as int]);
        let expect: [usize; 2] = [n, k];
        assert(expect@ =~= seq![n, k]);
        if self.codec.resident_quant() && is_gguf_block(m.dtype) {
            if !shape_is(&m.shape, &expect) {
                return Err(PlaceError::Shape);
            }
            let elems: usize = block_elems(m.dtype);
            if k % elems != 0 {
                return Err(PlaceError::RowBlocks { k, elems });
            }
            self.codec_check(i)?;
            return Ok((i, Lin::Quant { fmt: m.dtype, n, k }));
        }
        let j: usize = self.check_upload(name, &expect)?;
        Ok((j, Lin::F16 { n, k }))
    }
}

/// `d` is what entry `i` becomes on the device.
pub open spec fn uploaded(w: &LoadedWeights, codec: GgufCodec, i: int, d: DeviceData) -> bool {
    let m = w.metas@[i];
    let host = w.data@[i]@;
    let n = m.count();
    if tensor::is_block(m.dtype) {
        if codec.resident {
            d matches DeviceData::Packed(b) && b@ == host.take(GgufCodec::stored(m.dtype, n))
        } else {
            d matches DeviceData::Half(v) && v@.len() == n && forall|k: int|
                0 <= k < n ==> #[trigger] v@[k] == crate::quant::gguf::element(
                    m.dtype,
                    crate::quant::gguf::block(m.dtype, host, k / tensor::grain(m.dtype)),
                    k % tensor::grain(m.dtype),
                )
        }
    } else {
        d matches DeviceData::Half(v) && v@.len() == host.len() / (tensor::block_len(m.dtype) as nat)
            && forall|k: int|
            0 <= k < v@.len() ==> #[trigger] v@[k] == GgufCodec::plain(m.dtype, host, k)
    }
}

/// What a place of the graph asks for.
#[derive(Clone, Copy, PartialEq, Eq, Debug, Structural)]
pub enum Need {
    /// The embedding table, which only has to have its shape where it is
    /// uploaded as stored.
    RawTable { vocab: usize, hidden: usize },
    Vector { len: usize },
    Matrix { n: usize, k: usize },
    Linear { n: usize, k: usize },
}

/// A place of the graph.
pub struct Place {
    pub name: String,
    pub need: Need,
}

/// What a [`Place`] is, mathematically.
pub struct PlaceSpec {
    pub name: Seq<char>,
    pub need: Need,
}

impl View for Place {
    type V = PlaceSpec;

    open spec fn view(&self) -> PlaceSpec {
        PlaceSpec { name: self.name@, need: self.need }
    }
}

pub open spec fn views(v: Seq<Place>) -> Seq<PlaceSpec> {
    Seq::new(v.len(), |i: int| v[i]@)
}

pub open spec fn place(name: Seq<char>, need: Need) -> PlaceSpec {
    PlaceSpec { name, need }
}

/// What stops a place from being filled.
pub open spec fn place_fault(w: &LoadedWeights, codec: GgufCodec, s: PlaceSpec) -> Option<PlaceError> {
    match s.need {
        Need::RawTable { vocab, hidden } => match resolve(w, s.name) {
            None => Some(PlaceError::Missing),
            Some(i) => if w.metas@[i].shape@ != seq![vocab, hidden] {
                Some(PlaceError::Shape)
            } else {
                None
            },
        },
        Need::Vector { len } => upload_fault(w, codec, s.name, seq![len]),
        Need::Matrix { n, k } => upload_fault(w, codec, s.name, seq![n, k]),
        Need::Linear { n, k } => lin_fault(w, codec, s.name, n, k),
    }
}

/// The first of the first `n` places that cannot be filled.
pub open spec fn first_fault(w: &LoadedWeights, codec: GgufCodec, ss: Seq<PlaceSpec>, n: int) -> Option<
    (usize, PlaceError),
>
    decreases n,
{
    if n <= 0 {
        None
    } else {
        match first_fault(w, codec, ss, n - 1) {
            Some(e) => Some(e),
            None => match place_fault(w, codec, ss[n - 1]) {
                Some(error) => Some(((n - 1) as usize, error)),
                None => None,
            },
        }
    }
}

proof fn lemma_fault_stays(w: &LoadedWeights, codec: GgufCodec, ss: Seq<PlaceSpec>, a: int, n: int)
    requires
        0 <= a <= n,
        first_fault(w, codec, ss, a) is Some,
    ensures
        first_fault(w, codec, ss, n) == first_fault(w, codec, ss, a),
    decreases n - a,
{
    if a < n {
        lemma_fault_stays(w, codec, ss, a, n - 1);
    }
}

/// The head shares the embedding table.
pub open spec fn tied(c: ModelConfig, w: &LoadedWeights) -> bool {
    c.tie_word_embeddings || resolve(w, "lm_head.weight"@) is None
}

/// How the embedding table reaches the device.
#[derive(Clone, Copy, PartialEq, Eq, Debug, Structural)]
pub enum Residency {
    /// Blocks as stored.
    Packed(DType),
    /// As stored, in half precision or as bfloats.
    Raw { bf16: bool },
    /// Converted to half precision.
    Converted,
}

/// Blocks stay packed where the codec keeps them; half precision stays as it
/// is, and so do bfloats that are never multiplied by.
pub open spec fn residency(dt: DType, resident: bool, tied: bool) -> Residency {
    if resident && tensor::is_block(dt) {
        Residency::Packed(dt)
    } else if dt == DType::BF16 && !tied && !resident {
        Residency::Raw { bf16: true }
    } else if dt == DType::F16 {
        Residency::Raw { bf16: false }
    } else {
        Residency::Converted
    }
}

/// What the embedding table has to be.
pub open spec fn table_need(r: Residency, c: ModelConfig) -> Need {
    let (vocab, hidden) = (c.vocab_size, c.hidden_size);
    match r {
        Residency::Packed(_) => Need::Linear { n: vocab, k: hidden },
        Residency::Raw { .. } => Need::RawTable { vocab, hidden },
        Residency::Converted => Need::Matrix { n: vocab, k: hidden },
    }
}

/// The places in front of the layers.
pub open spec fn head_places(c: ModelConfig, r: Residency, tied: bool) -> Seq<PlaceSpec> {
    let (vocab, hidden) = (c.vocab_size, c.hidden_size);
    seq![
        place("embed_tokens.weight"@, Need::RawTable { vocab, hidden }),
        place("embed_tokens.weight"@, table_need(r, c)),
        place("norm.weight"@, Need::Vector { len: hidden }),
    ] + (if tied {
        Seq::empty()
    } else {
        seq![place("lm_head.weight"@, Need::Linear { n: vocab, k: hidden })]
    })
}

pub open spec fn layer_name(i: int, s: Seq<char>) -> Seq<char> {
    "layers."@ + text::numeral(i) + "."@ + s
}

/// A linear of a layer: on its own where blocks stay packed.
pub open spec fn linear(resident: bool, n: usize, k: usize) -> Need {
    if resident {
        Need::Linear { n, k }
    } else {
        Need::Matrix { n, k }
    }
}

/// The weights of layer `i`.
pub open spec fn weight_places(c: ModelConfig, i: int, resident: bool) -> Seq<PlaceSpec> {
    let (h, q, k, f) = (
        c.hidden_size,
        forecast::qd(c) as usize,
        forecast::kvd(c) as usize,
        c.intermediate_size,
    );
    let qkv = seq![
        place(layer_name(i, "self_attn.q_proj.weight"@), linear(resident, q, h)),
        place(layer_name(i, "self_attn.k_proj.weight"@), linear(resident, k, h)),
        place(layer_name(i, "self_attn.v_proj.weight"@), linear(resident, k, h)),
    ];
    let o = place(layer_name(i, "self_attn.o_proj.weight"@), linear(resident, h, q));
    let gate = place(layer_name(i, "mlp.gate_proj.weight"@), linear(resident, f, h));
    let up = place(layer_name(i, "mlp.up_proj.weight"@), linear(resident, f, h));
    let down = place(layer_name(i, "mlp.down_proj.weight"@), linear(resident, h, f));
    if resident {
        qkv + seq![o, gate, up, down]
    } else {
        qkv + seq![gate, up, o, down]
    }
}

/// Which of a layer's biases the checkpoint has.
pub struct Biases {
    pub q: bool,
    pub k: bool,
    pub v: bool,
}

/// A bias counts where the architecture has biases and the checkpoint has it.
pub open spec fn is_biases(b: Biases, c: ModelConfig, w: &LoadedWeights, i: int) -> bool {
    &&& b.q == (c.qkv_bias && resolve(w, layer_name(i, "self_attn.q_proj.bias"@)) is Some)
    &&& b.k == (c.qkv_bias && resolve(w, layer_name(i, "self_attn.k_proj.bias"@)) is Some)
    &&& b.v == (c.qkv_bias && resolve(w, layer_name(i, "self_attn.v_proj.bias"@)) is Some)
}

/// The norms and biases of layer `i`.
pub open spec fn norm_places(c: ModelConfig, i: int, b: Biases) -> Seq<PlaceSpec> {
    let (h, q, k) = (c.hidden_size, forecast::qd(c) as usize, forecast::kvd(c) as usize);
    seq![place(layer_name(i, "input_layernorm.weight"@), Need::Vector { len: h })] + (if b.q {
        seq![place(layer_name(i, "self_attn.q_proj.bias"@), Need::Vector { len: q })]
    } else {
        Seq::empty()
    }) + (if b.k {
        seq![place(layer_name(i, "self_attn.k_proj.bias"@), Need::Vector { len: k })]
    } else {
        Seq::empty()
    }) + (if b.v {
        seq![place(layer_name(i, "self_attn.v_proj.bias"@), Need::Vector { len: k })]
    } else {
        Seq::empty()
    }) + seq![place(layer_name(i, "post_attention_layernorm.weight"@), Need::Vector { len: h })]
}

/// The places of the graph up to the first `n` layers.
pub open spec fn places(
    c: ModelConfig,
    r: Residency,
    tied: bool,
    resident: bool,
    bs: Seq<Biases>,
    n: int,
) -> Seq<PlaceSpec>
    decreases n,
{
    if n <= 0 {
        head_places(c, r, tied)
    } else {
        places(c, r, tied, resident, bs, n - 1) + (weight_places(c, n - 1, resident) + norm_places(
            c,
            n - 1,
            bs[n - 1],
        ))
    }
}

fn add(v: &mut Vec<Place>, name: String, need: Need)
    ensures
        views(final(v)@) == views(old(v)@).push(place(name@, need)),
{
    let ghost before = v@;
    v.push(Place { name, need });
    assert(views(v@) =~= views(before).push(place(name@, need)));
}

fn in_layer(i: usize, s: &str) -> (r: String)
    ensures
        r@ == layer_name(i as int, s@),
{
    let mut n: String = "layers.".to_owned();
    text::push_number(&mut n, i);
    n.append(".");
    n.append(s);
    n
}

fn linear_need(resident: bool, n: usize, k: usize) -> (r: Need)
    ensures
        r == linear(resident, n, k),
{
    if resident {
        Need::Linear { n, k }
    } else {
        Need::Matrix { n, k }
    }
}

fn add_weights(v: &mut Vec<Place>, c: &ModelConfig, i: usize, resident: bool, q: usize, k: usize)
    requires
        q == forecast::qd(*c),
        k == forecast::kvd(*c),
    ensures
        views(final(v)@) == views(old(v)@) + weight_places(*c, i as int, resident),
{
    let ghost before = views(v@);
    let (h, f): (usize, usize) = (c.hidden_size, c.intermediate_size);
    self::add(v, in_layer(i, "self_attn.q_proj.weight"), linear_need(resident, q, h));
    self::add(v, in_layer(i, "self_attn.k_proj.weight"), linear_need(resident, k, h));
    self::add(v, in_layer(i, "self_attn.v_proj.weight"), linear_need(resident, k, h));
    if resident {
        self::add(v, in_layer(i, "self_attn.o_proj.weight"), linear_need(resident, h, q));
        self::add(v, in_layer(i, "mlp.gate_proj.weight"), linear_need(resident, f, h));
        self::add(v, in_layer(i, "mlp.up_proj.weight"), linear_need(resident, f, h));
    } else {
        self::add(v, in_layer(i, "mlp.gate_proj.weight"), linear_need(resident, f, h));
        self::add(v, in_layer(i, "mlp.up_proj.weight"), linear_need(resident, f, h));
        self::add(v, in_layer(i, "self_attn.o_proj.weight"), linear_need(resident, h, q));
    }
    self::add(v, in_layer(i, "mlp.down_proj.weight"), linear_need(resident, h, f));
    assert(views(v@) =~= before + weight_places(*c, i as int, resident));
}

fn add_norms(v: &mut Vec<Place>, c: &ModelConfig, i: usize, b: &Biases, q: usize, k: usize)
    requires
        q == forecast::qd(*c),
        k == forecast::kvd(*c),
    ensures
        views(final(v)@) == views(old(v)@) + norm_places(*c, i as int, *b),
{
    let ghost before = views(v@);
    let h: usize = c.hidden_size;
    self::add(v, in_layer(i, "input_layernorm.weight"), Need::Vector { len: h });
    if b.q {
        self::add(v, in_layer(i, "self_attn.q_proj.bias"), Need::Vector { len: q });
    }
    if b.k {
        self::add(v, in_layer(i, "self_attn.k_proj.bias"), Need::Vector { len: k });
    }
    if b.v {
        self::add(v, in_layer(i, "self_attn.v_proj.bias"), Need::Vector { len: k });
    }
    self::add(v, in_layer(i, "post_attention_layernorm.weight"), Need::Vector { len: h });
    assert(views(v@) =~= before + norm_places(*c, i as int, *b));
}

fn places_of(
    c: &ModelConfig,
    r: Residency,
    tied: bool,
    resident: bool,
    bs: &Vec<Biases>,
) -> (o: Vec<Place>)
    requires
        forecast::sized(*c),
        bs@.len() == c.n_layers,
    ensures
        views(o@) == places(*c, r, tied, resident, bs@, c.n_layers as int),
{
    proof {
        forecast::lemma_widths(*c);
    }
    let q: usize = c.n_heads * c.head_dim;
    let k: usize = c.n_kv_heads * c.head_dim;
    let (vocab, hidden): (usize, usize) = (c.vocab_size, c.hidden_size);
    let mut v: Vec<Place> = Vec::new();
    self::add(&mut v, "embed_tokens.weight".to_owned(), Need::RawTable { vocab, hidden });
    let need: Need = match r {
        Residency::Packed(_) => Need::Linear { n: vocab, k: hidden },
        Residency::Raw { .. } => Need::RawTable { vocab, hidden },
        Residency::Converted => Need::Matrix { n: vocab, k: hidden },
    };
    self::add(&mut v, "embed_tokens.weight".to_owned(), need);
    self::add(&mut v, "norm.weight".to_owned(), Need::Vector { len: hidden });
    if !tied {
        self::add(&mut v, "lm_head.weight".to_owned(), Need::Linear { n: vocab, k: hidden });
    }
    assert(views(v@) =~= head_places(*c, r, tied));
    let mut i: usize = 0;
    while i < c.n_layers
        invariant
            i <= c.n_layers,
            bs@.len() == c.n_layers,
            q == forecast::qd(*c),
            k == forecast::kvd(*c),
            views(v@) == places(*c, r, tied, resident, bs@, i as int),
        decreases c.n_layers - i,
    {
        let ghost before = views(v@);
        add_weights(&mut v, c, i, resident, q, k);
        add_norms(&mut v, c, i, &bs[i], q, k);
        proof {
            let (a, b) = (
                weight_places(*c, i as int, resident),
                norm_places(*c, i as int, bs@[i as int]),
            );
            assert(before + a + b =~= before + (a + b));
        }
        i = i + 1;
    }
    v
}

/// Sizes of the buffers, in bytes.
pub struct Workspace {
    pub x: usize,
    pub h: usize,
    pub att: usize,
    pub q: usize,
    pub k: usize,
    pub v: usize,
    pub qkv: usize,
    pub att_part: usize,
    pub cand: usize,
    pub hist_ring: usize,
    pub hist_counts: usize,
    pub gate: usize,
    pub up: usize,
    pub logits_h: usize,
    pub logits_f: usize,
    pub argmax_slot: usize,
    pub pos_dev: usize,
    pub ids: usize,
    /// What prefill expands weights into, where blocks stay packed.
    pub dq: Option<usize>,
    /// Each cache of a layer.
    pub cache: usize,
}

/// Bytes of the partial results of split attention.
pub open spec fn split_bytes(c: ModelConfig, csz: int) -> int {
    c.n_heads * ((c.max_seq + csz - 1) / csz) * (c.head_dim + 2) * 4
}

pub open spec fn is_ws(w: Workspace, c: ModelConfig, resident: bool, csz: int) -> bool {
    let (q, k) = (forecast::qd(c), forecast::kvd(c));
    &&& w.x == 512 * c.hidden_size * 2
    &&& w.h == 512 * forecast::max2(c.hidden_size as int, q) * 2
    &&& w.att == 512 * q * 2
    &&& w.q == w.att
    &&& w.k == 512 * k * 2
    &&& w.v == w.k
    &&& w.qkv == (q + 2 * k) * 2
    &&& w.att_part == split_bytes(c, csz)
    &&& w.cand == 512
    &&& w.hist_ring == 256
    &&& w.hist_counts == c.vocab_size * 4
    &&& w.gate == 512 * c.intermediate_size * 2
    &&& w.up == w.gate
    &&& w.logits_h == c.vocab_size * 2
    &&& w.logits_f == c.vocab_size * 4
    &&& w.argmax_slot == 8
    &&& w.pos_dev == 4
    &&& w.ids == 2048
    &&& w.dq == (if resident {
        Some(forecast::scratch_bytes(c) as usize)
    } else {
        None
    })
    &&& w.cache == forecast::cache_bytes(c)
}

/// The sizes that a graph needs are machine numbers.
pub open spec fn buildable(c: ModelConfig, csz: int) -> bool {
    &&& forecast::sized(c)
    &&& csz > 0
    &&& c.max_seq + csz <= usize::MAX
    &&& c.n_heads * ((c.max_seq + csz - 1) / csz) <= usize::MAX
    &&& c.head_dim + 2 <= usize::MAX
    &&& c.n_heads * ((c.max_seq + csz - 1) / csz) * (c.head_dim + 2) <= usize::MAX
    &&& split_bytes(c, csz) <= usize::MAX
}

fn workspace(c: &ModelConfig, resident: bool, csz: usize) -> (r: Workspace)
    requires
        buildable(*c, csz as int),
    ensures
        is_ws(r, *c, resident, csz as int),
{
    proof {
        forecast::lemma_widths(*c);
        vstd::arithmetic::div_mod::lemma_div_pos_is_pos(c.max_seq + csz - 1, csz as int);
        let p = (c.max_seq + csz - 1) / csz as int;
        let (a, d) = (c.n_heads as int, c.head_dim + 2);
        assert(a * p >= 0) by (nonlinear_arith)
            requires
                a >= 0,
                p >= 0,
        ;
        let ap = a * p;
        assert(ap * d >= 0) by (nonlinear_arith)
            requires
                ap >= 0,
                d >= 0,
        ;
    }
    let q: usize = c.n_heads * c.head_dim;
    let k: usize = c.n_kv_heads * c.head_dim;
    let h: usize = if c.hidden_size >= q {
        c.hidden_size
    } else {
        q
    };
    let pieces: usize = (c.max_seq + csz - 1) / csz;
    Workspace {
        x: CHUNK * c.hidden_size * 2,
        h: CHUNK * h * 2,
        att: CHUNK * q * 2,
        q: CHUNK * q * 2,
        k: CHUNK * k * 2,
        v: CHUNK * k * 2,
        qkv: (q + 2 * k) * 2,
        att_part: c.n_heads * pieces * (c.head_dim + 2) * 4,
        cand: SAMPLE_TOPK * 8,
        hist_ring: 64 * 4,
        hist_counts: c.vocab_size * 4,
        gate: CHUNK * c.intermediate_size * 2,
        up: CHUNK * c.intermediate_size * 2,
        logits_h: c.vocab_size * 2,
        logits_f: c.vocab_size * 4,
        argmax_slot: 8,
        pos_dev: 4,
        ids: CHUNK * 4,
        dq: if resident {
            Some(scratch_of(c))
        } else {
            None
        },
        cache: c.n_kv_heads * c.max_seq * c.head_dim * 2,
    }
}

/// Bytes of the activations of a chunk, of the fused row and of the logits.
pub open spec fn activation_bytes(w: Workspace) -> int {
    w.x + w.h + w.att + w.q + w.k + w.v + w.qkv + w.gate + w.up + w.logits_h + w.logits_f
}

/// Bytes of the small buffers and of those that sampling and split attention
/// use.
pub open spec fn side_bytes(w: Workspace) -> int {
    w.att_part + w.cand + w.hist_ring + w.hist_counts + w.argmax_slot + w.pos_dev + w.ids
}

/// Bytes of all buffers, with the caches of `layers` layers.
pub open spec fn buffer_bytes(w: Workspace, layers: int) -> int {
    activation_bytes(w) + side_bytes(w) + (match w.dq {
        Some(n) => n as int,
        None => 0,
    }) + layers * (w.cache + w.cache)
}

/// The forecast bills all activations: what they take is no more than the
/// workspace of the forecast, with two bytes per token of the vocabulary to
/// spare.
pub proof fn law_forecast_covers_the_activations(
    w: Workspace,
    c: ModelConfig,
    resident: bool,
    csz: int,
)
    requires
        is_ws(w, c, resident, csz),
    ensures
        activation_bytes(w) + 2 * c.vocab_size <= forecast::ws_bytes(c),
{
    forecast::lemma_widths(c);
}

/// A model that the forecast admits fits. Its weights, its buffers and caches,
/// the peak of its conversion and `beside` further bytes stay within what is
/// free, where the side buffers and those bytes stay within the headroom.
pub proof fn law_admitted_models_fit(
    w: Workspace,
    c: ModelConfig,
    resident: bool,
    csz: int,
    f: forecast::VramForecast,
    weights: int,
    beside: int,
    free: int,
)
    requires
        forecast::sized(c),
        is_ws(w, c, resident, csz),
        f.weights == weights + (if resident {
            forecast::scratch_bytes(c)
        } else {
            0
        }),
        f.kv_cache == forecast::kv_bytes(c),
        f.workspace == forecast::ws_bytes(c),
        f.sum() + forecast::HEADROOM <= free,
        side_bytes(w) + beside <= forecast::HEADROOM + 2 * c.vocab_size,
    ensures
        weights + buffer_bytes(w, c.n_layers as int) + f.load_transient + beside <= free,
{
    forecast::lemma_widths(c);
    law_forecast_covers_the_activations(w, c, resident, csz);
    forecast::law_forecast_counts_every_cache(c);
}

/// A layer as it runs.
#[derive(Clone, Copy, PartialEq, Eq, Debug, Structural)]
pub struct Layer {
    /// All three biases are there.
    pub biased: bool,
}

/// The model.
pub struct Transformer {
    pub cfg: ModelConfig,
    /// The checkpoint entries of the places, in order.
    pub places: Vec<Place>,
    pub entries: Vec<usize>,
    pub embed: Residency,
    pub tied: bool,
    /// The encoding of the head, or of the table that it is tied to, where
    /// that stays packed.
    pub head: Option<DType>,
    /// Projections run on their own instead of row-concatenated.
    pub split: bool,
    pub layers: Vec<Layer>,
    pub ws: Workspace,
    /// Positions per piece of split attention.
    pub csz: usize,
    /// Tokens in the caches.
    pub pos: usize,
    pub captures: Captures,
    pub vision: Option<EncoderTower>,
    pub audio: Option<EncoderTower>,
}

/// What stops a build: a place of the decoder, or a tower.
#[derive(Clone, Copy, PartialEq, Eq, Debug, Structural)]
pub enum BuildFault {
    Place { at: usize, error: PlaceError },
    Tower(TowerError),
}

/// What stops the decoder's own places, under the biases `bs`.
pub open spec fn decoder_fault(
    c: ModelConfig,
    w: &LoadedWeights,
    codec: GgufCodec,
    bs: Seq<Biases>,
) -> Option<(usize, PlaceError)> {
    match resolve(w, "embed_tokens.weight"@) {
        None => Some((0usize, PlaceError::Missing)),
        Some(i) => {
            let t = tied(c, w);
            let rs = residency(w.metas@[i].dtype, codec.resident, t);
            let ss = places(c, rs, t, codec.resident, bs, c.n_layers as int);
            first_fault(w, codec, ss, ss.len() as int)
        },
    }
}

pub open spec fn are_biases(bs: Seq<Biases>, c: ModelConfig, w: &LoadedWeights) -> bool {
    &&& bs.len() == c.n_layers
    &&& forall|i: int| 0 <= i < bs.len() ==> is_biases(#[trigger] bs[i], c, w, i)
}

fn biases_of(c: &ModelConfig, ix: &WeightIndex) -> (r: Vec<Biases>)
    ensures
        are_biases(r@, *c, ix.weights),
{
    let mut out: Vec<Biases> = Vec::new();
    let mut i: usize = 0;
    while i < c.n_layers
        invariant
            i <= c.n_layers,
            out@.len() == i,
            forall|k: int| 0 <= k < i ==> is_biases(#[trigger] out@[k], *c, ix.weights, k),
        decreases c.n_layers - i,
    {
        let b: Biases = Biases {
            q: c.qkv_bias && ix.has(in_layer(i, "self_attn.q_proj.bias").as_str()),
            k: c.qkv_bias && ix.has(in_layer(i, "self_attn.k_proj.bias").as_str()),
            v: c.qkv_bias && ix.has(in_layer(i, "self_attn.v_proj.bias").as_str()),
        };
        out.push(b);
        i = i + 1;
    }
    out
}

fn layers_of(bs: &Vec<Biases>) -> (r: Vec<Layer>)
    ensures
        r@.len() == bs@.len(),
        forall|i: int|
            0 <= i < r@.len() ==> (#[trigger] r@[i]).biased == (bs@[i].q && bs@[i].k && bs@[i].v),
{
    let mut out: Vec<Layer> = Vec::new();
    let mut i: usize = 0;
    while i < bs.len()
        invariant
            i <= bs@.len(),
            out@.len() == i,
            forall|k: int|
                0 <= k < i ==> (#[trigger] out@[k]).biased == (bs@[k].q && bs@[k].k && bs@[k].v),
        decreases bs@.len() - i,
    {
        let b: &Biases = &bs[i];
        out.push(Layer { biased: b.q && b.k && b.v });
        i = i + 1;
    }
    out
}

impl<'a, 'b> WeightIndex<'a, 'b> {
    fn check_place(&self, s: &Place) -> (r: Result<usize, PlaceError>)
        requires
            self.weights.wf(),
            forecast::countable(self.weights),
        ensures
            match r {
                Ok(i) => place_fault(self.weights, *self.codec, s@) is None && resolve(
                    self.weights,
                    s.name@,
                ) == Some(i as int),
                Err(e) => place_fault(self.weights, *self.codec, s@) == Some(e),
            },
    {
        let name: &str = s.name.as_str();
        match s.need {
            Need::RawTable { vocab, hidden } => {
                let i: usize = self.meta(name)?;
                let m: &TensorMeta = &self.weights.metas[i];
                assert(*m == self.weights.metas@[i as int]);
                let expect: [usize; 2] = [vocab, hidden];
                assert(expect@ =~= seq![vocab, hidden]);
                if !shape_is(&m.shape, &expect) {
                    return Err(PlaceError::Shape);
                }
                Ok(i)
            },
            Need::Vector { len } => {
                let expect: [usize; 1] = [len];
                assert(expect@ =~= seq![len]);
                self.check_upload(name, &expect)
            },
            Need::Matrix { n, k } => {
                let expect: [usize; 2] = [n, k];
                assert(expect@ =~= seq![n, k]);
                self.check_upload(name, &expect)
            },
            Need::Linear { n, k } => match self.upload_lin(name, n, k) {
                Ok((i, _)) => Ok(i),
                Err(e) => Err(e),
            },
        }
    }

    fn check_places(&self, ss: &Vec<Place>) -> (r: Result<Vec<usize>, (usize, PlaceError)>)
        requires
            self.weights.wf(),
            forecast::countable(self.weights),
        ensures
            match r {
                Ok(v) => {
                    &&& first_fault(self.weights, *self.codec, views(ss@), ss@.len() as int) is None
                    &&& v@.len() == ss@.len()
                    &&& forall|i: int|
                        0 <= i < v@.len() ==> resolve(self.weights, views(ss@)[i].name) == Some(
                            #[trigger] v@[i] as int,
                        )
                },
                Err(e) => first_fault(self.weights, *self.codec, views(ss@), ss@.len() as int)
                    == Some(e),
            },
    {
        let ghost vs = views(ss@);
        let mut out: Vec<usize> = Vec::new();
        let mut i: usize = 0;
        while i < ss.len()
            invariant
                i <= ss@.len(),
                vs == views(ss@),
                self.weights.wf(),
                forecast::countable(self.weights),
                first_fault(self.weights, *self.codec, vs, i as int) is None,
                out@.len() == i,
                forall|k: int|
                    0 <= k < i ==> resolve(self.weights, vs[k].name) == Some(
                        #[trigger] out@[k] as int,
                    ),
            decreases ss@.len() - i,
        {
            assert(vs[i as int] == ss@[i as int]@);
            match self.check_place(&ss[i]) {
                Ok(e) => {
                    out.push(e);
                },
                Err(error) => {
                    proof {
                        lemma_fault_stays(
                            self.weights,
                            *self.codec,
                            vs,
                            i + 1,
                            ss@.len() as int,
                        );
                    }
                    return Err((i, error));
                },
            }
            i = i + 1;
        }
        Ok(out)
    }
}

/// The encoding of the weight that makes logits, where it stays packed.
pub open spec fn packed_head(c: ModelConfig, w: &LoadedWeights, codec: GgufCodec) -> Option<DType> {
    let name = if tied(c, w) {
        "embed_tokens.weight"@
    } else {
        "lm_head.weight"@
    };
    match resolve(w, name) {
        Some(i) => if codec.resident && tensor::is_block(w.metas@[i].dtype) {
            Some(w.metas@[i].dtype)
        } else {
            None
        },
        None => None,
    }
}

fn head_of(c: &ModelConfig, ix: &WeightIndex) -> (r: Option<DType>)
    requires
        ix.weights.wf(),
    ensures
        r == packed_head(*c, ix.weights, *ix.codec),
{
    let name: &str = if c.tie_word_embeddings || !ix.has("lm_head.weight") {
        "embed_tokens.weight"
    } else {
        "lm_head.weight"
    };
    match ix.meta(name) {
        Ok(i) => {
            let dt: DType = ix.weights.metas[i].dtype;
            if ix.codec.resident_quant() && is_gguf_block(dt) {
                Some(dt)
            } else {
                None
            }
        },
        Err(_) => None,
    }
}

impl Transformer {
    /// What a graph is built to.
    pub open spec fn is_built(&self, c: ModelConfig, w: &LoadedWeights, codec: GgufCodec) -> bool {
        &&& self.cfg == c
        &&& self.tied == tied(c, w)
        &&& self.head == packed_head(c, w, codec)
        &&& self.split == codec.resident
        &&& resolve(w, "embed_tokens.weight"@) matches Some(i) && self.embed == residency(
            w.metas@[i].dtype,
            codec.resident,
            tied(c, w),
        )
        &&& exists|bs: Seq<Biases>|
            {
                &&& #[trigger] are_biases(bs, c, w)
                &&& views(self.places@) == places(
                    c,
                    self.embed,
                    self.tied,
                    self.split,
                    bs,
                    c.n_layers as int,
                )
                &&& self.layers@.len() == bs.len()
                &&& forall|i: int|
                    0 <= i < bs.len() ==> (#[trigger] self.layers@[i]).biased == (bs[i].q && bs[i].k
                        && bs[i].v)
            }
        &&& self.entries@.len() == self.places@.len()
        &&& forall|i: int|
            0 <= i < self.entries@.len() ==> resolve(w, self.places@[i].name@) == Some(
                #[trigger] self.entries@[i] as int,
            )
        &&& is_ws(self.ws, c, codec.resident, self.csz as int)
        &&& self.pos == 0
        &&& self.captures == (Captures { decode: false, sample: None })
        &&& towers::is_tower(self.vision, c.vision, w, TowerKind::Vision, c.hidden_size)
        &&& towers::is_tower(self.audio, c.audio, w, TowerKind::Audio, c.hidden_size)
    }

    pub fn max_seq(&self) -> (r: usize)
        ensures
            r == self.cfg.max_seq,
    {
        self.cfg.max_seq
    }

    /// Builds the graph and the towers that the configuration names, or says
    /// what stops it: the first place that cannot be filled, else the first
    /// tower. A checkpoint without an embedding table fails at the first place.
    pub fn build(cfg: ModelConfig, ix: &WeightIndex, csz: usize) -> (r: Result<
        Transformer,
        BuildFault,
    >)
        requires
            buildable(cfg, csz as int),
            towers::towers_sized(cfg),
            ix.weights.wf(),
            forecast::countable(ix.weights),
        ensures
            match r {
                Ok(g) => {
                    &&& g.is_built(cfg, ix.weights, *ix.codec)
                    &&& g.csz == csz
                    &&& first_fault(
                        ix.weights,
                        *ix.codec,
                        views(g.places@),
                        g.places@.len() as int,
                    ) is None
                    &&& towers::towers_fault(cfg, ix.weights, *ix.codec) is None
                },
                Err(e) => exists|bs: Seq<Biases>|
                    {
                        &&& #[trigger] are_biases(bs, cfg, ix.weights)
                        &&& match e {
                            BuildFault::Place { at, error } => decoder_fault(
                                cfg,
                                ix.weights,
                                *ix.codec,
                                bs,
                            ) == Some((at, error)),
                            BuildFault::Tower(t) => {
                                &&& decoder_fault(cfg, ix.weights, *ix.codec, bs) is None
                                &&& towers::towers_fault(cfg, ix.weights, *ix.codec) == Some(t)
                            },
                        }
                    },
            },
    {
        let bs: Vec<Biases> = biases_of(&cfg, ix);
        assert(are_biases(bs@, cfg, ix.weights));
        let i: usize = match ix.meta("embed_tokens.weight") {
            Ok(i) => i,
            Err(error) => {
                return Err(BuildFault::Place { at: 0, error });
            },
        };
        let dt: DType = ix.weights.metas[i].dtype;
        let tied: bool = cfg.tie_word_embeddings || !ix.has("lm_head.weight");
        let resident: bool = ix.codec.resident_quant();
        let embed: Residency = if resident && is_gguf_block(dt) {
            Residency::Packed(dt)
        } else {
            match dt {
                DType::F16 => Residency::Raw { bf16: false },
                DType::BF16 => if !tied && !resident {
                    Residency::Raw { bf16: true }
                } else {
                    Residency::Converted
                },
                _ => Residency::Converted,
            }
        };
        let places: Vec<Place> = places_of(&cfg, embed, tied, resident, &bs);
        let entries: Vec<usize> = match ix.check_places(&places) {
            Ok(v) => v,
            Err((at, error)) => {
                return Err(BuildFault::Place { at, error });
            },
        };
        let towers: EncoderTowers = match EncoderTowers::build(&cfg, ix) {
            Ok(t) => t,
            Err(e) => {
                return Err(BuildFault::Tower(e));
            },
        };
        let layers: Vec<Layer> = layers_of(&bs);
        let head: Option<DType> = head_of(&cfg, ix);
        let ws: Workspace = workspace(&cfg, resident, csz);
        let g: Transformer = Transformer {
            cfg,
            places,
            entries,
            embed,
            tied,
            head,
            split: resident,
            layers,
            ws,
            csz,
            pos: 0,
            captures: Captures::none(),
            vision: towers.vision,
            audio: towers.audio,
        };
        assert(are_biases(bs@, g.cfg, ix.weights));
        assert forall|k: int| 0 <= k < g.entries@.len() implies resolve(
            ix.weights,
            g.places@[k].name@,
        ) == Some(#[trigger] g.entries@[k] as int) by {
            assert(views(g.places@)[k].name == g.places@[k].name@);
        }
        Ok(g)
    }
}

} // verus!
