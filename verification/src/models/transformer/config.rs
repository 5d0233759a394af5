//! A validated view over `config.json` of the dense decoder family.
//! Single-precision fields hold bit patterns.
use vstd::prelude::*;

use crate::json;
use crate::json::{Json, Value};
use crate::text;

verus! {

/// Hyper-parameters of an encoder tower.
#[derive(Clone, Copy, PartialEq, Eq, Debug, Structural)]
pub struct EncoderConfig {
    pub hidden_size: usize,
    pub intermediate_size: usize,
    pub n_layers: usize,
    pub n_heads: usize,
    pub layer_norm_eps: u32,
    /// Vision: square input edge in pixels. Audio: source frames.
    pub input_size: usize,
    /// Vision: patch edge in pixels. Audio: mel bins.
    pub patch_size: usize,
}

/// Decoder hyper-parameters.
pub struct ModelConfig {
    pub model_type: String,
    pub hidden_size: usize,
    pub intermediate_size: usize,
    pub n_layers: usize,
    pub n_heads: usize,
    pub n_kv_heads: usize,
    pub head_dim: usize,
    pub vocab_size: usize,
    pub rms_eps: u32,
    pub rope_theta: u32,
    /// Context limit of the caches.
    pub max_seq: usize,
    pub tie_word_embeddings: bool,
    /// The query, key and value projections may carry biases.
    pub qkv_bias: bool,
    pub quant_method: Option<String>,
    pub vision: Option<EncoderConfig>,
    pub audio: Option<EncoderConfig>,
    pub is_embedding: bool,
}

/// What a model takes and gives.
#[derive(Clone, Copy, PartialEq, Eq, Debug, Structural)]
pub enum Modality {
    TextToText,
    VisionText,
    AudioText,
    Embedding,
}

/// Why an architecture is not executable.
#[derive(Clone, Copy, PartialEq, Eq, Debug, Structural)]
pub enum Reason {
    /// Cross-attention between an encoder and a decoder.
    EncoderDecoder,
    /// Other activations, norms and embedding scales.
    GemmaMath,
    /// Norms of queries and keys.
    QueryKeyNorm,
    Experts,
    /// Fused projections that are not split.
    FusedLayout,
    /// Compressed keys and values.
    LatentAttention,
    BidirectionalEncoder,
    /// The computation has not been checked against the pipeline.
    Unverified,
}

/// Why a configuration was turned down.
#[derive(Clone, Debug)]
pub enum ModelError {
    NoModelType,
    /// The type that the configuration names, and what is known against it.
    Unsupported { model_type: String, reason: Reason },
    Missing(&'static str),
    ZeroGeometry { heads: usize, kv_heads: usize, head_dim: usize },
    GroupedHeads { heads: usize, kv_heads: usize },
    OddHead { head_dim: usize },
}

/// Why a configuration is turned down, as values.
pub enum ModelFault {
    NoModelType,
    Unsupported { model_type: Seq<char>, reason: Reason },
    Missing(Seq<char>),
    ZeroGeometry { heads: usize, kv_heads: usize, head_dim: usize },
    GroupedHeads { heads: usize, kv_heads: usize },
    OddHead { head_dim: usize },
}

impl View for ModelError {
    type V = ModelFault;

    open spec fn view(&self) -> ModelFault {
        match *self {
            ModelError::NoModelType => ModelFault::NoModelType,
            ModelError::Unsupported { model_type, reason } => ModelFault::Unsupported {
                model_type: model_type@,
                reason,
            },
            ModelError::Missing(key) => ModelFault::Missing(key@),
            ModelError::ZeroGeometry { heads, kv_heads, head_dim } => ModelFault::ZeroGeometry {
                heads,
                kv_heads,
                head_dim,
            },
            ModelError::GroupedHeads { heads, kv_heads } => ModelFault::GroupedHeads {
                heads,
                kv_heads,
            },
            ModelError::OddHead { head_dim } => ModelFault::OddHead { head_dim },
        }
    }
}

/// The types whose computation the pipeline implements.
pub open spec fn supported(s: Seq<char>) -> bool {
    s == "llama"@ || s == "mistral"@ || s == "qwen2"@ || s == "qwen2_vl"@ || s == "qwen2_5_vl"@ || s
        == "qwen2_audio"@ || s == "llava"@ || s == "gemma4"@
}

/// What is known against a type that is not supported.
pub open spec fn reason(s: Seq<char>) -> Reason {
    if s == "whisper"@ || s == "t5"@ || s == "bart"@ || s == "marian"@ {
        Reason::EncoderDecoder
    } else if s == "gemma"@ || s == "gemma2"@ || s == "gemma3"@ || s == "gemma3_text"@ || s
        == "gemma3n"@ {
        Reason::GemmaMath
    } else if s == "qwen3"@ || s == "qwen3_moe"@ {
        Reason::QueryKeyNorm
    } else if s == "mixtral"@ {
        Reason::Experts
    } else if s == "phi3"@ || s == "phi"@ || s == "phi4"@ {
        Reason::FusedLayout
    } else if s == "deepseek_v2"@ || s == "deepseek_v3"@ {
        Reason::LatentAttention
    } else if s == "bert"@ || s == "roberta"@ || s == "xlm-roberta"@ {
        Reason::BidirectionalEncoder
    } else {
        Reason::Unverified
    }
}

fn is_supported(s: &str) -> (r: bool)
    ensures
        r == supported(s@),
{
    text::same(s, "llama") || text::same(s, "mistral") || text::same(s, "qwen2") || text::same(
        s,
        "qwen2_vl",
    ) || text::same(s, "qwen2_5_vl") || text::same(s, "qwen2_audio") || text::same(s, "llava")
        || text::same(s, "gemma4")
}

fn reason_of(s: &str) -> (r: Reason)
    ensures
        r == reason(s@),
{
    if text::same(s, "whisper") || text::same(s, "t5") || text::same(s, "bart") || text::same(
        s,
        "marian",
    ) {
        Reason::EncoderDecoder
    } else if text::same(s, "gemma") || text::same(s, "gemma2") || text::same(s, "gemma3")
        || text::same(s, "gemma3_text") || text::same(s, "gemma3n") {
        Reason::GemmaMath
    } else if text::same(s, "qwen3") || text::same(s, "qwen3_moe") {
        Reason::QueryKeyNorm
    } else if text::same(s, "mixtral") {
        Reason::Experts
    } else if text::same(s, "phi3") || text::same(s, "phi") || text::same(s, "phi4") {
        Reason::FusedLayout
    } else if text::same(s, "deepseek_v2") || text::same(s, "deepseek_v3") {
        Reason::LatentAttention
    } else if text::same(s, "bert") || text::same(s, "roberta") || text::same(s, "xlm-roberta") {
        Reason::BidirectionalEncoder
    } else {
        Reason::Unverified
    }
}

/// The part that describes the text model: a nested object, or the whole.
pub open spec fn text_part(cfg: Value) -> Value {
    match cfg.get("text_config"@) {
        Some(t) => if t is Obj {
            t
        } else {
            cfg
        },
        None => cfg,
    }
}

fn text_of(cfg: &Json) -> (r: &Json)
    ensures
        r@ == text_part(cfg@),
{
    match cfg.get("text_config") {
        Some(t) => match t {
            Json::Obj(_) => t,
            _ => cfg,
        },
        None => cfg,
    }
}

/// The whole number under the first of two names that has one.
pub open spec fn either(v: Value, a: Seq<char>, b: Seq<char>) -> Option<usize> {
    match v.usize_of(a) {
        Some(n) => Some(n),
        None => v.usize_of(b),
    }
}

fn either_of(v: &Json, a: &str, b: &str) -> (r: Option<usize>)
    ensures
        r == either(v@, a@, b@),
{
    match v.usize_of(a) {
        Some(n) => Some(n),
        None => v.usize_of(b),
    }
}

/// The vision tower of a configuration; none where a size is missing.
pub open spec fn vision(cfg: Value) -> Option<EncoderConfig> {
    match cfg.get("vision_config"@) {
        None => None,
        Some(v) => match (
            v.usize_of("hidden_size"@),
            either(v, "num_hidden_layers"@, "depth"@),
            either(v, "num_attention_heads"@, "num_heads"@),
        ) {
            (Some(h), Some(l), Some(n)) => Some(
                EncoderConfig {
                    hidden_size: h,
                    intermediate_size: v.usize_or("intermediate_size"@, (4 * h) as usize),
                    n_layers: l,
                    n_heads: n,
                    layer_norm_eps: v.f32_or("layer_norm_eps"@, 0x3586_37bd),
                    input_size: v.usize_or("image_size"@, 336),
                    patch_size: v.usize_or("patch_size"@, 14),
                },
            ),
            _ => None,
        },
    }
}

/// The audio tower of a configuration.
pub open spec fn audio(cfg: Value) -> Option<EncoderConfig> {
    match cfg.get("audio_config"@) {
        None => None,
        Some(a) => match (
            either(a, "d_model"@, "hidden_size"@),
            either(a, "encoder_ffn_dim"@, "intermediate_size"@),
            either(a, "encoder_layers"@, "num_hidden_layers"@),
            either(a, "encoder_attention_heads"@, "num_attention_heads"@),
        ) {
            (Some(h), Some(f), Some(l), Some(n)) => Some(
                EncoderConfig {
                    hidden_size: h,
                    intermediate_size: f,
                    n_layers: l,
                    n_heads: n,
                    layer_norm_eps: a.f32_or("layer_norm_eps"@, 0x3727_c5ac),
                    input_size: a.usize_or("max_source_positions"@, 1500),
                    patch_size: a.usize_or("num_mel_bins"@, 80),
                },
            ),
            _ => None,
        },
    }
}

/// Four times the hidden size of a vision tower is a machine number.
pub open spec fn widths_fit(cfg: Value) -> bool {
    match cfg.get("vision_config"@) {
        Some(v) => match v.usize_of("hidden_size"@) {
            Some(h) => 4 * h <= usize::MAX,
            None => true,
        },
        None => true,
    }
}

fn vision_of(cfg: &Json) -> (r: Option<EncoderConfig>)
    requires
        widths_fit(cfg@),
    ensures
        r == vision(cfg@),
{
    let v: &Json = match cfg.get("vision_config") {
        Some(v) => v,
        None => {
            return None;
        },
    };
    let h: usize = match v.usize_of("hidden_size") {
        Some(h) => h,
        None => {
            return None;
        },
    };
    let f: usize = v.usize_or("intermediate_size", 4 * h);
    let l: usize = match either_of(v, "num_hidden_layers", "depth") {
        Some(l) => l,
        None => {
            return None;
        },
    };
    let n: usize = match either_of(v, "num_attention_heads", "num_heads") {
        Some(n) => n,
        None => {
            return None;
        },
    };
    Some(
        EncoderConfig {
            hidden_size: h,
            intermediate_size: f,
            n_layers: l,
            n_heads: n,
            layer_norm_eps: v.f32_or("layer_norm_eps", 0x3586_37bd),
            input_size: v.usize_or("image_size", 336),
            patch_size: v.usize_or("patch_size", 14),
        },
    )
}

fn audio_of(cfg: &Json) -> (r: Option<EncoderConfig>)
    ensures
        r == audio(cfg@),
{
    let a: &Json = match cfg.get("audio_config") {
        Some(a) => a,
        None => {
            return None;
        },
    };
    match (
        either_of(a, "d_model", "hidden_size"),
        either_of(a, "encoder_ffn_dim", "intermediate_size"),
        either_of(a, "encoder_layers", "num_hidden_layers"),
        either_of(a, "encoder_attention_heads", "num_attention_heads"),
    ) {
        (Some(h), Some(f), Some(l), Some(n)) => Some(
            EncoderConfig {
                hidden_size: h,
                intermediate_size: f,
                n_layers: l,
                n_heads: n,
                layer_norm_eps: a.f32_or("layer_norm_eps", 0x3727_c5ac),
                input_size: a.usize_or("max_source_positions", 1500),
                patch_size: a.usize_or("num_mel_bins", 80),
            },
        ),
        _ => None,
    }
}

/// An architecture that generates text.
pub open spec fn generates(s: Seq<char>) -> bool {
    text::has(s, "ForCausalLM"@) || text::has(s, "ConditionalGeneration"@)
}

/// There is a list of architectures, and none of its strings generates.
pub open spec fn embeds(cfg: Value) -> bool {
    match cfg.arr_of("architectures"@) {
        Some(a) => forall|i: int|
            0 <= i < a.len() ==> match (#[trigger] a[i]).as_str() {
                Some(s) => !generates(s),
                None => true,
            },
        None => false,
    }
}

fn embeds_of(cfg: &Json) -> (r: bool)
    ensures
        r == embeds(cfg@),
{
    let a: &Vec<Json> = match cfg.arr_of("architectures") {
        Some(a) => a,
        None => {
            return false;
        },
    };
    let ghost vs = json::views(a@);
    let mut i: usize = 0;
    while i < a.len()
        invariant
            i <= a@.len(),
            vs == json::views(a@),
            cfg@.arr_of("architectures"@) == Some(vs),
            forall|k: int|
                0 <= k < i ==> match (#[trigger] vs[k]).as_str() {
                    Some(s) => !generates(s),
                    None => true,
                },
        decreases a@.len() - i,
    {
        assert(vs[i as int] == a@[i as int]@);
        match a[i].as_str() {
            Some(s) => {
                if text::contains(s, "ForCausalLM") || text::contains(s, "ConditionalGeneration") {
                    return false;
                }
            },
            None => {},
        }
        i = i + 1;
    }
    true
}

/// Positions of the caches: the configured context under a cap.
pub open spec fn context(text: Value, cap: Option<usize>) -> usize {
    let m = text.usize_or("max_position_embeddings"@, 4096);
    let c = match cap {
        Some(c) => if c >= 256 {
            c
        } else {
            8192
        },
        None => 8192,
    };
    if m <= c {
        m
    } else {
        c
    }
}

pub open spec fn head_dim(t: Value) -> usize {
    let n = t.usize_of("num_attention_heads"@)->0;
    t.usize_or(
        "head_dim"@,
        (t.usize_of("hidden_size"@)->0 as int / (if n >= 1 {
            n as int
        } else {
            1
        })) as usize,
    )
}

pub open spec fn kv_heads(t: Value) -> usize {
    t.usize_or("num_key_value_heads"@, t.usize_of("num_attention_heads"@)->0)
}

/// What is wrong with the geometry of the attention.
pub open spec fn geometry_fault(t: Value) -> Option<ModelFault> {
    let (n, k, d) = (t.usize_of("num_attention_heads"@)->0, kv_heads(t), head_dim(t));
    if n == 0 || k == 0 || d == 0 {
        Some(ModelFault::ZeroGeometry { heads: n, kv_heads: k, head_dim: d })
    } else if n as int % k as int != 0 {
        Some(ModelFault::GroupedHeads { heads: n, kv_heads: k })
    } else if d % 2 != 0 {
        Some(ModelFault::OddHead { head_dim: d })
    } else {
        None
    }
}

/// The first thing that is wrong with a configuration.
pub open spec fn fault(cfg: Value) -> Option<ModelFault> {
    let t = text_part(cfg);
    match cfg.str_of("model_type"@) {
        None => Some(ModelFault::NoModelType),
        Some(s) => if !supported(s) {
            Some(ModelFault::Unsupported { model_type: s, reason: reason(s) })
        } else if t.usize_of("hidden_size"@) is None {
            Some(ModelFault::Missing("hidden_size"@))
        } else if t.usize_of("num_hidden_layers"@) is None {
            Some(ModelFault::Missing("num_hidden_layers"@))
        } else if t.usize_of("num_attention_heads"@) is None {
            Some(ModelFault::Missing("num_attention_heads"@))
        } else if t.usize_of("intermediate_size"@) is None {
            Some(ModelFault::Missing("intermediate_size"@))
        } else if t.usize_of("vocab_size"@) is None {
            Some(ModelFault::Missing("vocab_size"@))
        } else {
            geometry_fault(t)
        },
    }
}

/// The method by which a checkpoint is quantized.
pub open spec fn quant_method(cfg: Value) -> Option<Seq<char>> {
    match cfg.get("quantization_config"@) {
        Some(q) => q.str_of("quant_method"@),
        None => None,
    }
}

/// `c` is what a sound configuration says.
pub open spec fn is_config(c: ModelConfig, cfg: Value, cap: Option<usize>) -> bool {
    let t = text_part(cfg);
    &&& cfg.str_of("model_type"@) == Some(c.model_type@)
    &&& t.usize_of("hidden_size"@) == Some(c.hidden_size)
    &&& t.usize_of("num_hidden_layers"@) == Some(c.n_layers)
    &&& t.usize_of("num_attention_heads"@) == Some(c.n_heads)
    &&& c.n_kv_heads == kv_heads(t)
    &&& c.head_dim == head_dim(t)
    &&& t.usize_of("intermediate_size"@) == Some(c.intermediate_size)
    &&& t.usize_of("vocab_size"@) == Some(c.vocab_size)
    &&& c.rms_eps == t.f32_or("rms_norm_eps"@, 0x3586_37bd)
    &&& c.rope_theta == t.f32_or("rope_theta"@, 0x461c_4000)
    &&& c.max_seq == context(t, cap)
    &&& c.tie_word_embeddings == (t.bool_of("tie_word_embeddings"@) == Some(true))
    &&& c.qkv_bias == text::starts(c.model_type@, "qwen2"@)
    &&& match (c.quant_method, quant_method(cfg)) {
        (Some(a), Some(b)) => a@ == b,
        (None, None) => true,
        _ => false,
    }
    &&& c.vision == vision(cfg)
    &&& c.audio == audio(cfg)
    &&& c.is_embedding == embeds(cfg)
}

/// A required whole number.
pub fn req_usize(cfg: &Json, key: &'static str) -> (r: Result<usize, ModelError>)
    ensures
        match r {
            Ok(n) => cfg@.usize_of(key@) == Some(n),
            Err(e) => cfg@.usize_of(key@) is None && e@ == ModelFault::Missing(key@),
        },
{
    match cfg.usize_of(key) {
        Some(n) => Ok(n),
        None => Err(ModelError::Missing(key)),
    }
}

/// The sizes of the text model, checked.
struct Sizes {
    hidden: usize,
    layers: usize,
    heads: usize,
    kv_heads: usize,
    head_dim: usize,
    inter: usize,
    vocab: usize,
}

fn sizes_of(t: &Json, Ghost(cfg): Ghost<Value>) -> (r: Result<Sizes, ModelError>)
    requires
        t@ == text_part(cfg),
        cfg.str_of("model_type"@) matches Some(s) && supported(s),
    ensures
        match r {
            Ok(s) => {
                &&& fault(cfg) is None
                &&& t@.usize_of("hidden_size"@) == Some(s.hidden)
                &&& t@.usize_of("num_hidden_layers"@) == Some(s.layers)
                &&& t@.usize_of("num_attention_heads"@) == Some(s.heads)
                &&& s.kv_heads == kv_heads(t@)
                &&& s.head_dim == head_dim(t@)
                &&& t@.usize_of("intermediate_size"@) == Some(s.inter)
                &&& t@.usize_of("vocab_size"@) == Some(s.vocab)
            },
            Err(e) => fault(cfg) == Some(e@),
        },
{
    let hidden: usize = req_usize(t, "hidden_size")?;
    let layers: usize = req_usize(t, "num_hidden_layers")?;
    let heads: usize = req_usize(t, "num_attention_heads")?;
    let kv_heads: usize = t.usize_or("num_key_value_heads", heads);
    let div: usize = if heads >= 1 {
        heads
    } else {
        1
    };
    let head_dim: usize = t.usize_or("head_dim", hidden / div);
    let inter: usize = req_usize(t, "intermediate_size")?;
    let vocab: usize = req_usize(t, "vocab_size")?;
    if heads == 0 || kv_heads == 0 || head_dim == 0 {
        return Err(ModelError::ZeroGeometry { heads, kv_heads, head_dim });
    }
    if heads % kv_heads != 0 {
        return Err(ModelError::GroupedHeads { heads, kv_heads });
    }
    if head_dim % 2 != 0 {
        return Err(ModelError::OddHead { head_dim });
    }
    Ok(Sizes { hidden, layers, heads, kv_heads, head_dim, inter, vocab })
}

impl ModelConfig {
    /// Reads a configuration. `cap` is what the caller limits the context to;
    /// limits below 256 count for nothing.
    pub fn parse(cfg: &Json, cap: Option<usize>) -> (r: Result<ModelConfig, ModelError>)
        requires
            widths_fit(cfg@),
        ensures
            match r {
                Ok(c) => fault(cfg@) is None && is_config(c, cfg@, cap),
                Err(e) => fault(cfg@) == Some(e@),
            },
    {
        let model_type: &str = match cfg.str_of("model_type") {
            Some(s) => s,
            None => {
                return Err(ModelError::NoModelType);
            },
        };
        if !is_supported(model_type) {
            return Err(
                ModelError::Unsupported {
                    model_type: model_type.to_owned(),
                    reason: reason_of(model_type),
                },
            );
        }
        let t: &Json = text_of(cfg);
        let s: Sizes = sizes_of(t, Ghost(cfg@))?;
        let m: usize = t.usize_or("max_position_embeddings", 4096);
        let limit: usize = match cap {
            Some(c) => if c >= 256 {
                c
            } else {
                8192
            },
            None => 8192,
        };
        let max_seq: usize = if m <= limit {
            m
        } else {
            limit
        };
        let quant: Option<String> = match cfg.get("quantization_config") {
            Some(q) => match q.str_of("quant_method") {
                Some(s) => Some(s.to_owned()),
                None => None,
            },
            None => None,
        };
        let tied: bool = match t.bool_of("tie_word_embeddings") {
            Some(b) => b,
            None => false,
        };
        Ok(
            ModelConfig {
                model_type: model_type.to_owned(),
                hidden_size: s.hidden,
                intermediate_size: s.inter,
                n_layers: s.layers,
                n_heads: s.heads,
                n_kv_heads: s.kv_heads,
                head_dim: s.head_dim,
                vocab_size: s.vocab,
                rms_eps: t.f32_or("rms_norm_eps", 0x3586_37bd),
                rope_theta: t.f32_or("rope_theta", 0x461c_4000),
                max_seq,
                tie_word_embeddings: tied,
                qkv_bias: text::starts_with(model_type, "qwen2"),
                quant_method: quant,
                vision: vision_of(cfg),
                audio: audio_of(cfg),
                is_embedding: embeds_of(cfg),
            },
        )
    }

    pub open spec fn kind(&self) -> Modality {
        if self.is_embedding {
            Modality::Embedding
        } else if self.vision is Some {
            Modality::VisionText
        } else if self.audio is Some {
            Modality::AudioText
        } else {
            Modality::TextToText
        }
    }

    pub fn modality(&self) -> (r: Modality)
        ensures
            r == self.kind(),
    {
        if self.is_embedding {
            Modality::Embedding
        } else if self.vision.is_some() {
            Modality::VisionText
        } else if self.audio.is_some() {
            Modality::AudioText
        } else {
            Modality::TextToText
        }
    }
}

/// Every configuration that is accepted composes: there are heads, they divide
/// into groups, and a head is even.
pub proof fn law_accepted_geometry_composes(c: ModelConfig, cfg: Value, cap: Option<usize>)
    requires
        fault(cfg) is None,
        is_config(c, cfg, cap),
    ensures
        c.n_heads >= 1,
        c.n_kv_heads >= 1,
        c.n_heads as int % c.n_kv_heads as int == 0,
        c.head_dim >= 2,
        c.head_dim % 2 == 0,
        supported(c.model_type@),
{
}

/// The context is never longer than the model was trained for, 4096 where that
/// is not said, and never longer than the caller's limit, or than 8192 where
/// the caller sets none that counts.
pub proof fn law_contexts_are_capped(c: ModelConfig, cfg: Value, cap: Option<usize>)
    requires
        fault(cfg) is None,
        is_config(c, cfg, cap),
    ensures
        c.max_seq <= (match text_part(cfg).usize_of("max_position_embeddings"@) {
            Some(m) => m as int,
            None => 4096,
        }),
        match cap {
            Some(n) => if n >= 256 {
                c.max_seq <= n
            } else {
                c.max_seq <= 8192
            },
            None => c.max_seq <= 8192,
        },
{
}

} // verus!
