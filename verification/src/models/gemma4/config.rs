//! Checkpoint configuration: parsing, defaults, and topology validation of
//! the three sub-configurations (text, vision, audio). Single-precision
//! fields hold bit patterns.
use vstd::prelude::*;

use crate::ieee::Format;
use crate::json;
use crate::json::{Json, Value};
use crate::text;

verus! {

/// Attention flavour of a text layer.
#[derive(Clone, Copy, PartialEq, Eq, Debug, Structural)]
pub enum LayerType {
    Sliding,
    Full,
}

/// The text model.
pub struct G4TextCfg {
    pub hidden: usize,
    pub n_layers: usize,
    pub n_heads: usize,
    pub n_kv_heads: usize,
    /// Full-attention layers carry their own ratio of key/value heads.
    pub n_global_kv_heads: usize,
    /// Head width of sliding layers.
    pub head_dim: usize,
    /// Head width of full layers.
    pub global_head_dim: usize,
    /// Full layers ship no value projection: keys and values share one.
    pub k_eq_v: bool,
    pub inter: usize,
    pub vocab: usize,
    pub rms_eps: u32,
    pub max_seq: usize,
    /// Image spans attend in both directions.
    pub bidir_vision: bool,
    pub sliding_window: usize,
    pub layer_types: Vec<LayerType>,
    pub theta_sliding: u32,
    pub theta_full: u32,
    /// Rotary frequency pairs other than zero on full layers.
    pub full_nfreqs: usize,
    /// Apply the frequency factors that the checkpoint ships.
    pub use_rope_factors: bool,
    pub n_kv_shared: usize,
    pub double_wide_mlp: bool,
    pub softcap: u32,
    /// Width of the per-layer inputs; zero where there are none.
    pub ple_dim: usize,
    pub ple_vocab: usize,
    pub eos: Vec<u32>,
}

/// The vision tower.
#[derive(Clone, Copy, Debug)]
pub struct G4VisionCfg {
    pub hidden: usize,
    pub n_layers: usize,
    pub n_heads: usize,
    pub head_dim: usize,
    pub inter: usize,
    pub patch: usize,
    pub pos_table: usize,
    pub pool_k: usize,
    pub rms_eps: u32,
    pub theta: u32,
}

/// The audio tower.
#[derive(Clone, Copy, Debug)]
pub struct G4AudioCfg {
    pub hidden: usize,
    pub n_layers: usize,
    pub n_heads: usize,
    pub chunk: usize,
    pub past: usize,
    pub logit_cap: u32,
    /// The logit of a masked slot.
    pub invalid_logit: u32,
    pub conv_k: usize,
    pub sub_ch: (usize, usize),
    pub out_dims: usize,
    pub residual_w: u32,
    pub rms_eps: u32,
    pub mels: usize,
}

/// The whole configuration: text, optional towers, media token ids.
pub struct G4Config {
    pub text: G4TextCfg,
    pub vision: Option<G4VisionCfg>,
    pub audio: Option<G4AudioCfg>,
    pub image_token_id: u32,
    pub audio_token_id: u32,
    /// Per-layer inputs at media positions are looked up under this id.
    pub pad_token_id: u32,
    pub boi_token_id: u32,
    pub eoi_token_id: u32,
    pub boa_token_id: u32,
    pub eoa_token_id: u32,
}

/// Why a configuration was turned down.
#[derive(Clone, Copy, Debug)]
pub enum ConfigError {
    /// There is no `text_config` object.
    NoTextConfig,
    /// Mixture-of-experts blocks are not implemented.
    MoeBlock,
    /// Bidirectional attention everywhere is no causal model.
    BidirectionalAll,
    /// A required field is missing or no whole number.
    Missing(&'static str),
    NoLayerTypes,
    LayerCount { listed: usize, declared: usize },
    UnknownLayerType { index: usize },
    SlidingRope,
    FullRope,
    RopeFactor,
    RotaryWidth { width: usize },
    KvHeads { heads: usize, kv: usize },
    GlobalKvHeads { heads: usize, kv: usize },
    KvShared { shared: usize, layers: usize },
    KvSource(LayerType),
    NoPleVocab,
    VisionGqa { heads: usize, kv: usize },
    AudioFuture { right: usize },
    AudioChannels,
}

/// What comes of a configuration.
pub enum Verdict {
    Sound,
    Fault(ConfigError),
    /// A division by zero heads or a context of no frames.
    Degenerate,
}

/// The low 32 bits of an id.
pub open spec fn low32(n: u64) -> u32 {
    (n as int % 0x1_0000_0000) as u32
}

/// The whole part of a number, held at the largest 32-bit id.
pub open spec fn sat32(n: u64) -> u32 {
    let t = Format::F64.truncated(n as int);
    if t <= u32::MAX {
        t as u32
    } else {
        u32::MAX
    }
}

/// The ids among `a`, in order.
pub open spec fn ids(a: Seq<Value>) -> Seq<u32>
    decreases a.len(),
{
    if a.len() == 0 {
        Seq::empty()
    } else {
        match a.last().as_u64() {
            Some(n) => ids(a.drop_last()).push(low32(n)),
            None => ids(a.drop_last()),
        }
    }
}

/// `acc` and the ids among `a` that it does not hold yet.
pub open spec fn add_new(acc: Seq<u32>, a: Seq<Value>) -> Seq<u32>
    decreases a.len(),
{
    if a.len() == 0 {
        acc
    } else {
        let before = add_new(acc, a.drop_last());
        match a.last().as_u64() {
            Some(n) => if before.contains(low32(n)) {
                before
            } else {
                before.push(low32(n))
            },
            None => before,
        }
    }
}

/// The end-of-text ids: those of the text model, then the new ones of the
/// whole configuration.
pub open spec fn eos_ids(cfg: Value, t: Value) -> Seq<u32> {
    let own = match t.get("eos_token_id"@) {
        Some(Value::Num(n)) => seq![sat32(n)],
        Some(Value::Arr(a)) => ids(a),
        _ => Seq::empty(),
    };
    match cfg.arr_of("eos_token_id"@) {
        Some(a) => add_new(own, a),
        None => own,
    }
}

/// A member, or null.
pub open spec fn member(v: Value, key: Seq<char>) -> Value {
    match v.get(key) {
        Some(m) => m,
        None => Value::Null,
    }
}

/// The string named `key`, or `default`.
pub open spec fn str_or(v: Value, key: Seq<char>, default: Seq<char>) -> Seq<char> {
    match v.str_of(key) {
        Some(s) => s,
        None => default,
    }
}

pub open spec fn flag(v: Value, key: Seq<char>) -> bool {
    v.bool_of(key) == Some(true)
}

pub open spec fn sliding_rope(t: Value) -> Value {
    member(member(t, "rope_parameters"@), "sliding_attention"@)
}

pub open spec fn full_rope(t: Value) -> Value {
    member(member(t, "rope_parameters"@), "full_attention"@)
}

pub open spec fn proportional(t: Value) -> bool {
    str_or(full_rope(t), "rope_type"@, "proportional"@) == "proportional"@
}

/// The factor of the full layers' rope is further than `1e-9` from one.
pub open spec fn rope_factor_off(t: Value) -> bool {
    let one = 0x3ff0_0000_0000_0000u64;
    let factor = match full_rope(t).f64_of("factor"@) {
        Some(n) => n,
        None => one,
    };
    Format::F64.less(
        0x3e11_2e0b_e826_d695,
        Format::F64.mag(Format::F64.difference(factor as int, one as int)),
    )
}

pub open spec fn head_dim(t: Value) -> usize {
    t.usize_or("head_dim"@, 0)
}

pub open spec fn global_head_dim(t: Value) -> usize {
    t.usize_or("global_head_dim"@, head_dim(t))
}

/// The share of a full layer's head that rotates.
pub open spec fn partial_rotary(t: Value) -> u32 {
    full_rope(t).f32_or("partial_rotary_factor"@, if proportional(t) {
        0x3e80_0000
    } else {
        0x3f80_0000
    })
}

/// Half the rotating share of the head, or half the head where full rotation
/// is asked for.
pub open spec fn full_nfreqs(t: Value, full_rotary: bool) -> usize {
    if full_rotary {
        global_head_dim(t) / 2
    } else {
        let f = Format::F64;
        let p = Format::F32.convert(f, partial_rotary(t) as int);
        let w = f.product(p, f.of_int(global_head_dim(t) as int));
        let n = f.truncated(f.quotient(w, 0x4000_0000_0000_0000));
        if n <= usize::MAX {
            n as usize
        } else {
            usize::MAX
        }
    }
}

pub open spec fn n_heads(t: Value) -> usize {
    t.usize_or("num_attention_heads"@, 0)
}

pub open spec fn n_kv_heads(t: Value) -> usize {
    t.usize_or("num_key_value_heads"@, n_heads(t))
}

pub open spec fn n_global_kv_heads(t: Value) -> usize {
    t.usize_or("num_global_key_value_heads"@, n_kv_heads(t))
}

pub open spec fn n_layers(t: Value) -> usize {
    t.usize_or("num_hidden_layers"@, 0)
}

pub open spec fn n_kv_shared(t: Value) -> usize {
    t.usize_or("num_kv_shared_layers"@, 0)
}

/// The attention flavour that an entry of `layer_types` names.
pub open spec fn layer_type(v: Value) -> Option<LayerType> {
    match v.as_str() {
        Some(s) => if s == "sliding_attention"@ {
            Some(LayerType::Sliding)
        } else if s == "full_attention"@ {
            Some(LayerType::Full)
        } else {
            None
        },
        None => None,
    }
}

/// The first entry from `i` on that names no attention flavour; the length
/// where there is none.
pub open spec fn unknown_from(a: Seq<Value>, i: int) -> int
    decreases a.len() - i,
{
    if i < 0 || i >= a.len() || layer_type(a[i]) is None {
        i
    } else {
        unknown_from(a, i + 1)
    }
}

pub open spec fn types(a: Seq<Value>) -> Seq<LayerType> {
    Seq::new(a.len(), |i: int| layer_type(a[i])->0)
}

/// Layers of type `ty` from `first` on share keys and values, but no layer
/// before computes them.
pub open spec fn lacks_source(lt: Seq<LayerType>, first: int, ty: LayerType) -> bool {
    &&& exists|i: int| first <= i < lt.len() && #[trigger] lt[i] == ty
    &&& forall|i: int| 0 <= i < first ==> #[trigger] lt[i] != ty
}

/// Where attention head counts, rotary width and sharing go wrong.
pub open spec fn heads_verdict(t: Value, lt: Seq<LayerType>, full_rotary: bool) -> Verdict {
    let width = full_nfreqs(t, full_rotary);
    let first = n_layers(t) - n_kv_shared(t);
    if t.usize_of("head_dim"@) is None {
        Verdict::Fault(ConfigError::Missing("head_dim"))
    } else if width == 0 || width > global_head_dim(t) / 2 {
        Verdict::Fault(ConfigError::RotaryWidth { width })
    } else if t.usize_of("num_attention_heads"@) is None {
        Verdict::Fault(ConfigError::Missing("num_attention_heads"))
    } else if n_kv_heads(t) == 0 {
        Verdict::Degenerate
    } else if n_heads(t) % n_kv_heads(t) != 0 {
        Verdict::Fault(ConfigError::KvHeads { heads: n_heads(t), kv: n_kv_heads(t) })
    } else if n_global_kv_heads(t) == 0 || n_heads(t) % n_global_kv_heads(t) != 0 {
        Verdict::Fault(ConfigError::GlobalKvHeads { heads: n_heads(t), kv: n_global_kv_heads(t) })
    } else if n_kv_shared(t) >= n_layers(t) {
        Verdict::Fault(ConfigError::KvShared { shared: n_kv_shared(t), layers: n_layers(t) })
    } else if lacks_source(lt, first, LayerType::Sliding) {
        Verdict::Fault(ConfigError::KvSource(LayerType::Sliding))
    } else if lacks_source(lt, first, LayerType::Full) {
        Verdict::Fault(ConfigError::KvSource(LayerType::Full))
    } else {
        Verdict::Sound
    }
}

/// Where the sizes of the text model go wrong.
pub open spec fn sizes_verdict(t: Value) -> Verdict {
    if t.usize_of("hidden_size"@) is None {
        Verdict::Fault(ConfigError::Missing("hidden_size"))
    } else if t.usize_of("intermediate_size"@) is None {
        Verdict::Fault(ConfigError::Missing("intermediate_size"))
    } else if t.usize_of("vocab_size"@) is None {
        Verdict::Fault(ConfigError::Missing("vocab_size"))
    } else if t.usize_of("max_position_embeddings"@) is None {
        Verdict::Fault(ConfigError::Missing("max_position_embeddings"))
    } else if t.usize_of("sliding_window"@) is None {
        Verdict::Fault(ConfigError::Missing("sliding_window"))
    } else if t.usize_or("hidden_size_per_layer_input"@, 0) > 0 && t.usize_or(
        "vocab_size_per_layer_input"@,
        0,
    ) == 0 {
        Verdict::Fault(ConfigError::NoPleVocab)
    } else {
        Verdict::Sound
    }
}

/// The first thing that is wrong with the text model.
pub open spec fn text_verdict(t: Value, full_rotary: bool) -> Verdict {
    let sl = str_or(sliding_rope(t), "rope_type"@, "default"@);
    let fu = str_or(full_rope(t), "rope_type"@, "proportional"@);
    if flag(t, "enable_moe_block"@) {
        Verdict::Fault(ConfigError::MoeBlock)
    } else if t.str_of("use_bidirectional_attention"@) == Some("all"@) {
        Verdict::Fault(ConfigError::BidirectionalAll)
    } else if t.usize_of("num_hidden_layers"@) is None {
        Verdict::Fault(ConfigError::Missing("num_hidden_layers"))
    } else {
        match t.arr_of("layer_types"@) {
            None => Verdict::Fault(ConfigError::NoLayerTypes),
            Some(a) => if a.len() != n_layers(t) {
                Verdict::Fault(
                    ConfigError::LayerCount { listed: a.len() as usize, declared: n_layers(t) },
                )
            } else if unknown_from(a, 0) < a.len() {
                Verdict::Fault(ConfigError::UnknownLayerType { index: unknown_from(a, 0) as usize })
            } else if sl != "default"@ {
                Verdict::Fault(ConfigError::SlidingRope)
            } else if fu != "default"@ && fu != "proportional"@ {
                Verdict::Fault(ConfigError::FullRope)
            } else if rope_factor_off(t) {
                Verdict::Fault(ConfigError::RopeFactor)
            } else {
                match heads_verdict(t, types(a), full_rotary) {
                    Verdict::Sound => sizes_verdict(t),
                    v => v,
                }
            },
        }
    }
}

/// The text model of a sound configuration.
pub open spec fn is_text(c: G4TextCfg, cfg: Value, t: Value, full_rotary: bool) -> bool {
    &&& t.usize_of("hidden_size"@) == Some(c.hidden)
    &&& c.n_layers == n_layers(t)
    &&& c.n_heads == n_heads(t)
    &&& c.n_kv_heads == n_kv_heads(t)
    &&& c.n_global_kv_heads == n_global_kv_heads(t)
    &&& c.head_dim == head_dim(t)
    &&& c.global_head_dim == global_head_dim(t)
    &&& c.k_eq_v == flag(t, "attention_k_eq_v"@)
    &&& t.usize_of("intermediate_size"@) == Some(c.inter)
    &&& t.usize_of("vocab_size"@) == Some(c.vocab)
    &&& c.rms_eps == t.f32_or("rms_norm_eps"@, 0x3586_37bd)
    &&& c.max_seq == (if t.usize_or("max_position_embeddings"@, 0) < 8192 {
        t.usize_or("max_position_embeddings"@, 0)
    } else {
        8192
    })
    &&& c.bidir_vision == (t.str_of("use_bidirectional_attention"@) == Some("vision"@) || flag(
        t,
        "use_bidirectional_attention"@,
    ))
    &&& t.usize_of("sliding_window"@) == Some(c.sliding_window)
    &&& c.layer_types@ == types(t.arr_of("layer_types"@)->0)
    &&& c.theta_sliding == sliding_rope(t).f32_or("rope_theta"@, 0x461c_4000)
    &&& c.theta_full == full_rope(t).f32_or("rope_theta"@, 0x4974_2400)
    &&& c.full_nfreqs == full_nfreqs(t, full_rotary)
    &&& !c.use_rope_factors
    &&& c.n_kv_shared == n_kv_shared(t)
    &&& c.double_wide_mlp == flag(t, "use_double_wide_mlp"@)
    &&& c.softcap == t.f32_or("final_logit_softcapping"@, 0)
    &&& c.ple_dim == t.usize_or("hidden_size_per_layer_input"@, 0)
    &&& c.ple_vocab == t.usize_or("vocab_size_per_layer_input"@, 0)
    &&& c.eos@ == eos_ids(cfg, t)
}

/// The first thing that is wrong with the vision tower.
pub open spec fn vision_verdict(v: Value) -> Verdict {
    let heads = v.usize_or("num_attention_heads"@, 0);
    let kv = v.usize_or("num_key_value_heads"@, heads);
    if v.usize_of("hidden_size"@) is None {
        Verdict::Fault(ConfigError::Missing("hidden_size"))
    } else if v.usize_of("num_attention_heads"@) is None {
        Verdict::Fault(ConfigError::Missing("num_attention_heads"))
    } else if kv != heads {
        Verdict::Fault(ConfigError::VisionGqa { heads, kv })
    } else if v.usize_of("num_hidden_layers"@) is None {
        Verdict::Fault(ConfigError::Missing("num_hidden_layers"))
    } else if heads == 0 {
        Verdict::Degenerate
    } else if v.usize_of("intermediate_size"@) is None {
        Verdict::Fault(ConfigError::Missing("intermediate_size"))
    } else if v.usize_of("patch_size"@) is None {
        Verdict::Fault(ConfigError::Missing("patch_size"))
    } else if v.usize_of("position_embedding_size"@) is None {
        Verdict::Fault(ConfigError::Missing("position_embedding_size"))
    } else if v.usize_of("pooling_kernel_size"@) is None {
        Verdict::Fault(ConfigError::Missing("pooling_kernel_size"))
    } else {
        Verdict::Sound
    }
}

pub open spec fn is_vision(c: G4VisionCfg, v: Value) -> bool {
    &&& v.usize_of("hidden_size"@) == Some(c.hidden)
    &&& v.usize_of("num_hidden_layers"@) == Some(c.n_layers)
    &&& v.usize_of("num_attention_heads"@) == Some(c.n_heads)
    &&& c.n_heads > 0
    &&& c.head_dim == v.usize_or("head_dim"@, c.hidden / c.n_heads)
    &&& v.usize_of("intermediate_size"@) == Some(c.inter)
    &&& v.usize_of("patch_size"@) == Some(c.patch)
    &&& v.usize_of("position_embedding_size"@) == Some(c.pos_table)
    &&& v.usize_of("pooling_kernel_size"@) == Some(c.pool_k)
    &&& c.rms_eps == v.f32_or("rms_norm_eps"@, 0x3586_37bd)
    &&& c.theta == member(v, "rope_parameters"@).f32_or("rope_theta"@, 0x42c8_0000)
}

/// The two channel counts of the subsampling convolutions.
pub open spec fn channels(v: Value) -> Option<(usize, usize)> {
    match v.arr_of("subsampling_conv_channels"@) {
        Some(a) => if json::sizes(a).len() == 2 {
            Some((json::sizes(a)[0], json::sizes(a)[1]))
        } else {
            None
        },
        None => None,
    }
}

/// The first thing that is wrong with the audio tower.
pub open spec fn audio_verdict(v: Value) -> Verdict {
    let right = v.usize_or("attention_context_right"@, 0);
    if right != 0 {
        Verdict::Fault(ConfigError::AudioFuture { right })
    } else if channels(v) is None {
        Verdict::Fault(ConfigError::AudioChannels)
    } else if v.usize_of("hidden_size"@) is None {
        Verdict::Fault(ConfigError::Missing("hidden_size"))
    } else if v.usize_of("num_hidden_layers"@) is None {
        Verdict::Fault(ConfigError::Missing("num_hidden_layers"))
    } else if v.usize_of("num_attention_heads"@) is None {
        Verdict::Fault(ConfigError::Missing("num_attention_heads"))
    } else if v.usize_of("attention_chunk_size"@) is None {
        Verdict::Fault(ConfigError::Missing("attention_chunk_size"))
    } else if v.usize_of("attention_context_left"@) is None {
        Verdict::Fault(ConfigError::Missing("attention_context_left"))
    } else if v.usize_of("attention_context_left"@) == Some(0usize) {
        Verdict::Degenerate
    } else if v.usize_of("conv_kernel_size"@) is None {
        Verdict::Fault(ConfigError::Missing("conv_kernel_size"))
    } else {
        Verdict::Sound
    }
}

pub open spec fn is_audio(c: G4AudioCfg, v: Value) -> bool {
    &&& v.usize_of("hidden_size"@) == Some(c.hidden)
    &&& v.usize_of("num_hidden_layers"@) == Some(c.n_layers)
    &&& v.usize_of("num_attention_heads"@) == Some(c.n_heads)
    &&& v.usize_of("attention_chunk_size"@) == Some(c.chunk)
    &&& v.usize_or("attention_context_left"@, 0) == c.past + 1
    &&& c.logit_cap == v.f32_or("attention_logit_cap"@, 0x4248_0000)
    &&& c.invalid_logit == v.f32_or("attention_invalid_logits_value"@, 0x3089_705f)
    &&& v.usize_of("conv_kernel_size"@) == Some(c.conv_k)
    &&& channels(v) == Some(c.sub_ch)
    &&& c.out_dims == v.usize_or("output_proj_dims"@, c.hidden)
    &&& c.residual_w == v.f32_or("residual_weight"@, 0x3f00_0000)
    &&& c.rms_eps == v.f32_or("rms_norm_eps"@, 0x3586_37bd)
    &&& c.mels == 128
}

/// The object named `key`.
pub open spec fn section(cfg: Value, key: Seq<char>) -> Option<Value> {
    match cfg.get(key) {
        Some(Value::Obj(m)) => Some(Value::Obj(m)),
        _ => None,
    }
}

/// The first thing that is wrong with a configuration.
pub open spec fn verdict(cfg: Value, full_rotary: bool) -> Verdict {
    match section(cfg, "text_config"@) {
        None => Verdict::Fault(ConfigError::NoTextConfig),
        Some(t) => match text_verdict(t, full_rotary) {
            Verdict::Sound => {
                let vision = match section(cfg, "vision_config"@) {
                    Some(v) => vision_verdict(v),
                    None => Verdict::Sound,
                };
                match vision {
                    Verdict::Sound => match section(cfg, "audio_config"@) {
                        Some(a) => audio_verdict(a),
                        None => Verdict::Sound,
                    },
                    f => f,
                }
            },
            f => f,
        },
    }
}

/// The token id named `key`; zero where it is missing.
pub open spec fn token_id(cfg: Value, key: Seq<char>) -> u32 {
    match cfg.u64_of(key) {
        Some(n) => low32(n),
        None => 0,
    }
}

/// What a sound configuration is parsed to.
pub open spec fn is_config(c: G4Config, cfg: Value, full_rotary: bool) -> bool {
    let t = section(cfg, "text_config"@)->0;
    &&& is_text(c.text, cfg, t, full_rotary)
    &&& match (section(cfg, "vision_config"@), c.vision) {
        (Some(v), Some(x)) => is_vision(x, v),
        (None, None) => true,
        _ => false,
    }
    &&& match (section(cfg, "audio_config"@), c.audio) {
        (Some(v), Some(x)) => is_audio(x, v),
        (None, None) => true,
        _ => false,
    }
    &&& c.image_token_id == token_id(cfg, "image_token_id"@)
    &&& c.audio_token_id == token_id(cfg, "audio_token_id"@)
    &&& c.pad_token_id == (if cfg.u64_of("pad_token_id"@) is Some {
        token_id(cfg, "pad_token_id"@)
    } else {
        token_id(t, "pad_token_id"@)
    })
    &&& c.boi_token_id == token_id(cfg, "boi_token_id"@)
    &&& c.eoi_token_id == token_id(cfg, "eoi_token_id"@)
    &&& c.boa_token_id == token_id(cfg, "boa_token_id"@)
    &&& c.eoa_token_id == token_id(cfg, "eoa_token_id"@)
}

/// The whole number named `k`.
pub fn ru(o: &Json, k: &'static str) -> (r: Result<usize, ConfigError>)
    ensures
        match r {
            Ok(n) => o@.usize_of(k@) == Some(n),
            Err(e) => o@.usize_of(k@) is None && e == ConfigError::Missing(k),
        },
{
    match o.usize_of(k) {
        Some(n) => Ok(n),
        None => Err(ConfigError::Missing(k)),
    }
}

fn section_of<'a>(cfg: &'a Json, key: &str) -> (r: Option<&'a Json>)
    ensures
        json::refers(r, section(cfg@, key@)),
{
    match cfg.get(key) {
        Some(v) => match v {
            Json::Obj(_) => Some(v),
            _ => None,
        },
        None => None,
    }
}

fn flag_of(v: &Json, key: &str) -> (r: bool)
    ensures
        r == flag(v@, key@),
{
    match v.bool_of(key) {
        Some(b) => b,
        None => false,
    }
}

/// The string named `key` (or `default`) is `want`.
fn str_is(v: &Json, key: &str, default: &str, want: &str) -> (r: bool)
    ensures
        r == (str_or(v@, key@, default@) == want@),
{
    match v.str_of(key) {
        Some(s) => text::same(s, want),
        None => text::same(default, want),
    }
}

fn low_bits(n: u64) -> (r: u32)
    ensures
        r == low32(n),
{
    (n % 0x1_0000_0000) as u32
}

fn token(cfg: &Json, key: &str) -> (r: u32)
    ensures
        r == token_id(cfg@, key@),
{
    match cfg.u64_of(key) {
        Some(n) => low_bits(n),
        None => 0,
    }
}

fn holds_id(v: &Vec<u32>, id: u32) -> (r: bool)
    ensures
        r == v@.contains(id),
{
    let mut i: usize = 0;
    while i < v.len()
        invariant
            i <= v@.len(),
            forall|k: int| 0 <= k < i ==> v@[k] != id,
        decreases v@.len() - i,
    {
        if v[i] == id {
            return true;
        }
        i = i + 1;
    }
    false
}

/// The ids among `a`; those that `out` holds already are left out where `new`
/// is set.
fn push_ids(a: &Vec<Json>, new: bool, out: &mut Vec<u32>)
    ensures
        new ==> final(out)@ == add_new(old(out)@, json::views(a@)),
        !new ==> final(out)@ == old(out)@ + ids(json::views(a@)),
{
    let ghost o0 = out@;
    let ghost vs = json::views(a@);
    let mut i: usize = 0;
    proof {
        assert(vs.take(0).len() == 0);
        assert(o0 + Seq::<u32>::empty() =~= o0);
    }
    while i < a.len()
        invariant
            i <= a@.len(),
            vs == json::views(a@),
            new ==> out@ == add_new(o0, vs.take(i as int)),
            !new ==> out@ == o0 + ids(vs.take(i as int)),
        decreases a@.len() - i,
    {
        let ghost before = out@;
        proof {
            assert(vs.take(i + 1).drop_last() =~= vs.take(i as int));
            assert(vs.take(i + 1).last() == a@[i as int]@);
        }
        match a[i].as_u64() {
            Some(n) => {
                let id: u32 = low_bits(n);
                if !new || !holds_id(out, id) {
                    out.push(id);
                }
                proof {
                    if !new {
                        assert(before.push(id) =~= o0 + ids(vs.take(i as int)).push(id));
                    }
                }
            },
            None => {},
        }
        i = i + 1;
    }
    assert(vs.take(i as int) =~= vs);
}

fn eos_of(cfg: &Json, t: &Json) -> (r: Vec<u32>)
    ensures
        r@ == eos_ids(cfg@, t@),
{
    let mut eos: Vec<u32> = Vec::new();
    match t.get("eos_token_id") {
        Some(v) => match v {
            Json::Num(n) => {
                let x: u64 = Format::F64.trunc_u64(*n);
                let id: u32 = if x <= u32::MAX as u64 {
                    x as u32
                } else {
                    u32::MAX
                };
                eos.push(id);
                assert(eos@ =~= seq![sat32(*n)]);
            },
            Json::Arr(a) => {
                proof {
                    json::lemma_view_arr(*a);
                }
                push_ids(a, false, &mut eos);
                assert(eos@ =~= ids(json::views(a@)));
            },
            _ => {},
        },
        None => {},
    }
    if let Some(a) = cfg.arr_of("eos_token_id") {
        push_ids(a, true, &mut eos);
    }
    eos
}

/// The attention flavours, or the index of the first entry that names none.
fn types_of(a: &Vec<Json>) -> (r: Result<Vec<LayerType>, usize>)
    ensures
        match r {
            Ok(v) => unknown_from(json::views(a@), 0) == a@.len() && v@ == types(
                json::views(a@),
            ),
            Err(i) => i < a@.len() && unknown_from(json::views(a@), 0) == i,
        },
{
    let ghost vs = json::views(a@);
    let mut out: Vec<LayerType> = Vec::new();
    let mut i: usize = 0;
    while i < a.len()
        invariant
            i <= a@.len(),
            vs == json::views(a@),
            out@.len() == i,
            unknown_from(vs, 0) == unknown_from(vs, i as int),
            forall|k: int| 0 <= k < i ==> out@[k] == layer_type(#[trigger] vs[k])->0,
        decreases a@.len() - i,
    {
        assert(vs[i as int] == a@[i as int]@);
        match a[i].as_str() {
            Some(s) => {
                if text::same(s, "sliding_attention") {
                    out.push(LayerType::Sliding);
                } else if text::same(s, "full_attention") {
                    out.push(LayerType::Full);
                } else {
                    return Err(i);
                }
            },
            None => {
                return Err(i);
            },
        }
        i = i + 1;
    }
    assert(out@ =~= types(vs));
    Ok(out)
}

/// Layers of type `ty` from `first` on have no source before it.
fn sourceless(lt: &Vec<LayerType>, first: usize, ty: LayerType) -> (r: bool)
    requires
        first <= lt@.len(),
    ensures
        r == lacks_source(lt@, first as int, ty),
{
    let mut i: usize = 0;
    while i < first
        invariant
            i <= first <= lt@.len(),
            forall|k: int| 0 <= k < i ==> #[trigger] lt@[k] != ty,
        decreases first - i,
    {
        if lt[i] == ty {
            return false;
        }
        i = i + 1;
    }
    let mut j: usize = first;
    while j < lt.len()
        invariant
            first <= j <= lt@.len(),
            forall|k: int| 0 <= k < first ==> #[trigger] lt@[k] != ty,
            forall|k: int| first <= k < j ==> #[trigger] lt@[k] != ty,
        decreases lt@.len() - j,
    {
        if lt[j] == ty {
            return true;
        }
        j = j + 1;
    }
    false
}

fn factor_off(fu: &Json, t: Ghost<Value>) -> (r: bool)
    requires
        fu@ == full_rope(t@),
    ensures
        r == rope_factor_off(t@),
{
    let one: u64 = 0x3ff0_0000_0000_0000;
    let factor: u64 = match fu.f64_of("factor") {
        Some(n) => n,
        None => one,
    };
    let f: Format = Format::F64;
    f.lt(0x3e11_2e0b_e826_d695, f.magnitude(f.minus(factor, one)))
}

fn nfreqs(dim: usize, partial: u32, full_rotary: bool, t: Ghost<Value>) -> (r: usize)
    requires
        partial == partial_rotary(t@),
        dim == global_head_dim(t@),
    ensures
        r == full_nfreqs(t@, full_rotary),
{
    if full_rotary {
        dim / 2
    } else {
        let f: Format = Format::F64;
        let p: u64 = Format::F32.to_format(f, partial as u64);
        let w: u64 = f.multiply(p, f.from_u64(dim as u64));
        let n: u64 = f.trunc_u64(f.divide(w, 0x4000_0000_0000_0000));
        if n <= usize::MAX as u64 {
            n as usize
        } else {
            usize::MAX
        }
    }
}

fn parse_text(cfg: &Json, t: &Json, full_rotary: bool) -> (r: Result<G4TextCfg, ConfigError>)
    requires
        text_verdict(t@, full_rotary) != Verdict::Degenerate,
    ensures
        match r {
            Ok(c) => text_verdict(t@, full_rotary) == Verdict::Sound && is_text(
                c,
                cfg@,
                t@,
                full_rotary,
            ),
            Err(e) => text_verdict(t@, full_rotary) == Verdict::Fault(e),
        },
{
    if flag_of(t, "enable_moe_block") {
        return Err(ConfigError::MoeBlock);
    }
    if let Some(b) = t.str_of("use_bidirectional_attention") {
        if text::same(b, "all") {
            return Err(ConfigError::BidirectionalAll);
        }
    }
    let layers: usize = ru(t, "num_hidden_layers")?;
    let listed: &Vec<Json> = match t.arr_of("layer_types") {
        Some(a) => a,
        None => {
            return Err(ConfigError::NoLayerTypes);
        },
    };
    assert(json::views(listed@).len() == listed@.len());
    if listed.len() != layers {
        return Err(ConfigError::LayerCount { listed: listed.len(), declared: layers });
    }
    let layer_types: Vec<LayerType> = match types_of(listed) {
        Ok(v) => v,
        Err(index) => {
            return Err(ConfigError::UnknownLayerType { index });
        },
    };
    let null: Json = Json::Null;
    let rp: &Json = match t.get("rope_parameters") {
        Some(v) => v,
        None => &null,
    };
    let sl: &Json = match rp.get("sliding_attention") {
        Some(v) => v,
        None => &null,
    };
    let fu: &Json = match rp.get("full_attention") {
        Some(v) => v,
        None => &null,
    };
    assert(sl@ == sliding_rope(t@));
    assert(fu@ == full_rope(t@));
    if !str_is(sl, "rope_type", "default", "default") {
        return Err(ConfigError::SlidingRope);
    }
    let prop: bool = str_is(fu, "rope_type", "proportional", "proportional");
    if !prop && !str_is(fu, "rope_type", "proportional", "default") {
        return Err(ConfigError::FullRope);
    }
    if factor_off(fu, Ghost(t@)) {
        return Err(ConfigError::RopeFactor);
    }
    let dim: usize = ru(t, "head_dim")?;
    let global_dim: usize = t.usize_or("global_head_dim", dim);
    let partial: u32 = fu.f32_or("partial_rotary_factor", if prop {
        0x3e80_0000
    } else {
        0x3f80_0000
    });
    let width: usize = nfreqs(global_dim, partial, full_rotary, Ghost(t@));
    if width == 0 || width > global_dim / 2 {
        return Err(ConfigError::RotaryWidth { width });
    }
    let heads: usize = ru(t, "num_attention_heads")?;
    let kv: usize = t.usize_or("num_key_value_heads", heads);
    if heads % kv != 0 {
        return Err(ConfigError::KvHeads { heads, kv });
    }
    let global_kv: usize = t.usize_or("num_global_key_value_heads", kv);
    if global_kv == 0 || heads % global_kv != 0 {
        return Err(ConfigError::GlobalKvHeads { heads, kv: global_kv });
    }
    let shared: usize = t.usize_or("num_kv_shared_layers", 0);
    if shared >= layers {
        return Err(ConfigError::KvShared { shared, layers });
    }
    let first: usize = layers - shared;
    if sourceless(&layer_types, first, LayerType::Sliding) {
        return Err(ConfigError::KvSource(LayerType::Sliding));
    }
    if sourceless(&layer_types, first, LayerType::Full) {
        return Err(ConfigError::KvSource(LayerType::Full));
    }
    let eos: Vec<u32> = eos_of(cfg, t);
    let hidden: usize = ru(t, "hidden_size")?;
    let inter: usize = ru(t, "intermediate_size")?;
    let vocab: usize = ru(t, "vocab_size")?;
    let positions: usize = ru(t, "max_position_embeddings")?;
    let sliding_window: usize = ru(t, "sliding_window")?;
    let vision: bool = match t.str_of("use_bidirectional_attention") {
        Some(b) => text::same(b, "vision"),
        None => false,
    };
    let c: G4TextCfg = G4TextCfg {
        hidden,
        n_layers: layers,
        n_heads: heads,
        n_kv_heads: kv,
        n_global_kv_heads: global_kv,
        head_dim: dim,
        global_head_dim: global_dim,
        k_eq_v: flag_of(t, "attention_k_eq_v"),
        inter,
        vocab,
        rms_eps: t.f32_or("rms_norm_eps", 0x3586_37bd),
        max_seq: if positions < 8192 {
            positions
        } else {
            8192
        },
        bidir_vision: vision || flag_of(t, "use_bidirectional_attention"),
        sliding_window,
        layer_types,
        theta_sliding: sl.f32_or("rope_theta", 0x461c_4000),
        theta_full: fu.f32_or("rope_theta", 0x4974_2400),
        full_nfreqs: width,
        use_rope_factors: false,
        n_kv_shared: shared,
        double_wide_mlp: flag_of(t, "use_double_wide_mlp"),
        softcap: t.f32_or("final_logit_softcapping", 0),
        ple_dim: t.usize_or("hidden_size_per_layer_input", 0),
        ple_vocab: t.usize_or("vocab_size_per_layer_input", 0),
        eos,
    };
    if c.ple_dim > 0 && c.ple_vocab == 0 {
        return Err(ConfigError::NoPleVocab);
    }
    Ok(c)
}

fn parse_vision(v: &Json) -> (r: Result<G4VisionCfg, ConfigError>)
    requires
        vision_verdict(v@) != Verdict::Degenerate,
    ensures
        match r {
            Ok(c) => vision_verdict(v@) == Verdict::Sound && is_vision(c, v@),
            Err(e) => vision_verdict(v@) == Verdict::Fault(e),
        },
{
    let hidden: usize = ru(v, "hidden_size")?;
    let heads: usize = ru(v, "num_attention_heads")?;
    let kv: usize = v.usize_or("num_key_value_heads", heads);
    if kv != heads {
        return Err(ConfigError::VisionGqa { heads, kv });
    }
    let null: Json = Json::Null;
    let rope: &Json = match v.get("rope_parameters") {
        Some(x) => x,
        None => &null,
    };
    let n_layers: usize = ru(v, "num_hidden_layers")?;
    let inter: usize = ru(v, "intermediate_size")?;
    let patch: usize = ru(v, "patch_size")?;
    let pos_table: usize = ru(v, "position_embedding_size")?;
    let pool_k: usize = ru(v, "pooling_kernel_size")?;
    Ok(
        G4VisionCfg {
            hidden,
            n_layers,
            n_heads: heads,
            head_dim: v.usize_or("head_dim", hidden / heads),
            inter,
            patch,
            pos_table,
            pool_k,
            rms_eps: v.f32_or("rms_norm_eps", 0x3586_37bd),
            theta: rope.f32_or("rope_theta", 0x42c8_0000),
        },
    )
}

fn channels_of(v: &Json) -> (r: Option<(usize, usize)>)
    ensures
        r == channels(v@),
{
    match v.arr_of("subsampling_conv_channels") {
        Some(a) => {
            let out: Vec<usize> = json::sizes_of(a);
            if out.len() == 2 {
                Some((out[0], out[1]))
            } else {
                None
            }
        },
        None => None,
    }
}

fn parse_audio(a: &Json) -> (r: Result<G4AudioCfg, ConfigError>)
    requires
        audio_verdict(a@) != Verdict::Degenerate,
    ensures
        match r {
            Ok(c) => audio_verdict(a@) == Verdict::Sound && is_audio(c, a@),
            Err(e) => audio_verdict(a@) == Verdict::Fault(e),
        },
{
    let right: usize = a.usize_or("attention_context_right", 0);
    if right != 0 {
        return Err(ConfigError::AudioFuture { right });
    }
    let sub_ch: (usize, usize) = match channels_of(a) {
        Some(c) => c,
        None => {
            return Err(ConfigError::AudioChannels);
        },
    };
    let hidden: usize = ru(a, "hidden_size")?;
    let n_layers: usize = ru(a, "num_hidden_layers")?;
    let n_heads: usize = ru(a, "num_attention_heads")?;
    let chunk: usize = ru(a, "attention_chunk_size")?;
    let left: usize = ru(a, "attention_context_left")?;
    let conv_k: usize = ru(a, "conv_kernel_size")?;
    Ok(
        G4AudioCfg {
            hidden,
            n_layers,
            n_heads,
            chunk,
            past: left - 1,
            logit_cap: a.f32_or("attention_logit_cap", 0x4248_0000),
            invalid_logit: a.f32_or("attention_invalid_logits_value", 0x3089_705f),
            conv_k,
            sub_ch,
            out_dims: a.usize_or("output_proj_dims", hidden),
            residual_w: a.f32_or("residual_weight", 0x3f00_0000),
            rms_eps: a.f32_or("rms_norm_eps", 0x3586_37bd),
            mels: 128,
        },
    )
}

impl G4Config {
    /// Parses and validates the configuration of a checkpoint. Every
    /// assumption of the implementation is checked, so that an unknown
    /// revision fails loudly. `full_rotary` asks for full rotation on the
    /// full-attention layers.
    pub fn parse(cfg: &Json, full_rotary: bool) -> (r: Result<G4Config, ConfigError>)
        requires
            verdict(cfg@, full_rotary) != Verdict::Degenerate,
        ensures
            match r {
                Ok(c) => verdict(cfg@, full_rotary) == Verdict::Sound && is_config(
                    c,
                    cfg@,
                    full_rotary,
                ),
                Err(e) => verdict(cfg@, full_rotary) == Verdict::Fault(e),
            },
    {
        let t: &Json = match section_of(cfg, "text_config") {
            Some(t) => t,
            None => {
                return Err(ConfigError::NoTextConfig);
            },
        };
        let text: G4TextCfg = parse_text(cfg, t, full_rotary)?;
        let vision: Option<G4VisionCfg> = match section_of(cfg, "vision_config") {
            Some(v) => Some(parse_vision(v)?),
            None => None,
        };
        let audio: Option<G4AudioCfg> = match section_of(cfg, "audio_config") {
            Some(a) => Some(parse_audio(a)?),
            None => None,
        };
        let pad: u32 = match cfg.u64_of("pad_token_id") {
            Some(n) => low_bits(n),
            None => token(t, "pad_token_id"),
        };
        Ok(
            G4Config {
                text,
                vision,
                audio,
                image_token_id: token(cfg, "image_token_id"),
                audio_token_id: token(cfg, "audio_token_id"),
                pad_token_id: pad,
                boi_token_id: token(cfg, "boi_token_id"),
                eoi_token_id: token(cfg, "eoi_token_id"),
                boa_token_id: token(cfg, "boa_token_id"),
                eoa_token_id: token(cfg, "eoa_token_id"),
            },
        )
    }
}

} // verus!
