//! What the gemma4 graph is made of: key/value sharing, layer geometry,
//! buffer sizes and the memory forecast.
use vstd::prelude::*;

use crate::models::gemma4::audio;
use crate::models::gemma4::audio::AudioWs;
use crate::models::gemma4::config;
use crate::models::gemma4::config::{G4AudioCfg, G4Config, G4TextCfg, G4VisionCfg, LayerType};
use crate::models::gemma4::graph::Gemma4;
use crate::models::gemma4::vision;
use crate::models::gemma4::vision::VisionWs;
use crate::models::{CHUNK, SAMPLE_TOPK};
use crate::quant::bnb;
use crate::quant::bnb::{is_aux, nf4_device_bytes, parse_state, state_name};
use crate::quant::gguf::GgufCodec;
use crate::tensor;
use crate::tensor::{is_gguf_block, TensorMeta};
use crate::text;
use crate::weights::LoadedWeights;

verus! {

/// The last layer before `n` of type `ty`.
pub open spec fn last_of(lt: Seq<LayerType>, n: int, ty: LayerType) -> Option<int>
    decreases n,
{
    if n <= 0 || n > lt.len() {
        None
    } else if lt[n - 1] == ty {
        Some(n - 1)
    } else {
        last_of(lt, n - 1, ty)
    }
}

/// The layer whose cache layer `i` reads: its own where it computes keys and
/// values, else that of the last computing layer of its own type.
pub open spec fn kv_source(lt: Seq<LayerType>, first_shared: int, i: int) -> Option<int> {
    if i < first_shared {
        Some(i)
    } else {
        last_of(lt, if first_shared < lt.len() {
            first_shared
        } else {
            lt.len() as int
        }, lt[i])
    }
}

/// A layer shares keys and values, but no earlier layer of its type computes
/// them.
#[derive(Clone, Copy, PartialEq, Eq, Debug, Structural)]
pub struct NoKvSource {
    pub layer: usize,
    pub ty: LayerType,
}

/// The source map of the key/value caches.
pub fn kv_share_sources(layer_types: &[LayerType], first_shared: usize) -> (r: Result<
    Vec<usize>,
    NoKvSource,
>)
    ensures
        match r {
            Ok(v) => {
                &&& v@.len() == layer_types@.len()
                &&& forall|i: int|
                    0 <= i < v@.len() ==> kv_source(layer_types@, first_shared as int, i) == Some(
                        #[trigger] v@[i] as int,
                    )
            },
            Err(e) => {
                &&& e.layer < layer_types@.len()
                &&& e.ty == layer_types@[e.layer as int]
                &&& kv_source(layer_types@, first_shared as int, e.layer as int) is None
                &&& forall|i: int|
                    0 <= i < e.layer ==> #[trigger] kv_source(
                        layer_types@,
                        first_shared as int,
                        i,
                    ) is Some
            },
        },
{
    let n: usize = layer_types.len();
    let own: usize = if first_shared < n {
        first_shared
    } else {
        n
    };
    let mut sliding: Option<usize> = None;
    let mut full: Option<usize> = None;
    let mut i: usize = 0;
    while i < own
        invariant
            i <= own <= n,
            n == layer_types@.len(),
            match sliding {
                Some(x) => last_of(layer_types@, i as int, LayerType::Sliding) == Some(x as int),
                None => last_of(layer_types@, i as int, LayerType::Sliding) is None,
            },
            match full {
                Some(x) => last_of(layer_types@, i as int, LayerType::Full) == Some(x as int),
                None => last_of(layer_types@, i as int, LayerType::Full) is None,
            },
        decreases own - i,
    {
        if layer_types[i] == LayerType::Sliding {
            sliding = Some(i);
        } else {
            full = Some(i);
        }
        i = i + 1;
    }
    let mut out: Vec<usize> = Vec::new();
    let mut j: usize = 0;
    while j < n
        invariant
            j <= n,
            own <= n,
            n == layer_types@.len(),
            own == (if first_shared < n {
                first_shared
            } else {
                n
            }),
            out@.len() == j,
            match sliding {
                Some(x) => last_of(layer_types@, own as int, LayerType::Sliding) == Some(x as int),
                None => last_of(layer_types@, own as int, LayerType::Sliding) is None,
            },
            match full {
                Some(x) => last_of(layer_types@, own as int, LayerType::Full) == Some(x as int),
                None => last_of(layer_types@, own as int, LayerType::Full) is None,
            },
            forall|k: int|
                0 <= k < j ==> kv_source(layer_types@, first_shared as int, k) == Some(
                    #[trigger] out@[k] as int,
                ),
        decreases n - j,
    {
        let ty: LayerType = layer_types[j];
        if j < first_shared {
            out.push(j);
        } else {
            let src: Option<usize> = if ty == LayerType::Sliding {
                sliding
            } else {
                full
            };
            match src {
                Some(s) => out.push(s),
                None => {
                    assert forall|k: int| 0 <= k < j implies #[trigger] kv_source(
                        layer_types@,
                        first_shared as int,
                        k,
                    ) is Some by {
                        assert(kv_source(layer_types@, first_shared as int, k) == Some(
                            out@[k] as int,
                        ));
                    }
                    return Err(NoKvSource { layer: j, ty });
                },
            }
        }
        j = j + 1;
    }
    Ok(out)
}

proof fn lemma_last_of(lt: Seq<LayerType>, n: int, ty: LayerType)
    requires
        0 <= n <= lt.len(),
    ensures
        match last_of(lt, n, ty) {
            Some(i) => 0 <= i < n && lt[i] == ty && forall|k: int|
                i < k < n ==> #[trigger] lt[k] != ty,
            None => forall|k: int| 0 <= k < n ==> #[trigger] lt[k] != ty,
        },
    decreases n,
{
    if n > 0 && lt[n - 1] != ty {
        lemma_last_of(lt, n - 1, ty);
    }
}

/// A cache is read where it is written: every source computes keys and values,
/// is of the reader's own attention type, is its own source, and is the last
/// such layer.
pub proof fn law_sources_compute(lt: Seq<LayerType>, first_shared: int, i: int)
    requires
        0 <= i < lt.len(),
        first_shared >= 0,
    ensures
        match kv_source(lt, first_shared, i) {
            Some(s) => {
                &&& 0 <= s <= i
                &&& s < first_shared
                &&& lt[s] == lt[i]
                &&& kv_source(lt, first_shared, s) == Some(s)
                &&& i >= first_shared ==> forall|k: int| s < k < first_shared && k < lt.len()
                    ==> #[trigger] lt[k] != lt[i]
            },
            None => i >= first_shared && forall|k: int|
                0 <= k < first_shared ==> #[trigger] lt[k] != lt[i],
        },
{
    if i >= first_shared {
        lemma_last_of(lt, first_shared, lt[i]);
    }
}

/// A sound configuration has a source for every layer.
pub proof fn law_sound_configs_have_sources(lt: Seq<LayerType>, first: int, i: int)
    requires
        0 <= first <= lt.len(),
        !config::lacks_source(lt, first, LayerType::Sliding),
        !config::lacks_source(lt, first, LayerType::Full),
        0 <= i < lt.len(),
    ensures
        kv_source(lt, first, i) is Some,
{
    if i >= first {
        lemma_last_of(lt, first, lt[i]);
        if last_of(lt, first, lt[i]) is None {
            assert(config::lacks_source(lt, first, lt[i]));
        }
    }
}

/// Head width of a layer.
pub open spec fn width(t: G4TextCfg, i: int) -> int {
    match t.layer_types@[i] {
        LayerType::Sliding => t.head_dim as int,
        LayerType::Full => t.global_head_dim as int,
    }
}

/// Key/value heads of a layer: full layers carry their own number.
pub open spec fn kv_heads(t: G4TextCfg, i: int) -> int {
    match t.layer_types@[i] {
        LayerType::Sliding => t.n_kv_heads as int,
        LayerType::Full => t.n_global_kv_heads as int,
    }
}

/// The widest keys of any layer.
pub open spec fn kvd_max(t: G4TextCfg) -> int {
    let a = t.n_kv_heads * t.head_dim;
    let b = t.n_global_kv_heads * t.global_head_dim;
    if a >= b {
        a
    } else {
        b
    }
}

/// Layers from here on share keys and values.
pub open spec fn first_shared(t: G4TextCfg) -> int {
    t.n_layers - t.n_kv_shared
}

/// The feed-forward width of layer `i`: doubled on shared layers where the
/// model says so.
pub open spec fn inter_of(t: G4TextCfg, i: int) -> int {
    if i >= first_shared(t) && t.double_wide_mlp {
        2 * t.inter
    } else {
        t.inter as int
    }
}

/// The geometry of one decoder layer.
#[derive(Clone, Copy, PartialEq, Eq, Debug, Structural)]
pub struct LayerPlan {
    pub shared: bool,
    pub kv_src: usize,
    pub head_dim: usize,
    /// Width of the queries.
    pub qd: usize,
    pub kv_heads: usize,
    /// Width of the keys and of the values.
    pub kvd: usize,
    /// The values have a projection of their own.
    pub own_values: bool,
    pub inter: usize,
    pub theta: u32,
    pub nfreqs: usize,
    /// The attention window; zero for full attention.
    pub window: usize,
    /// Bytes of the key cache, and of the value cache; zero on shared layers.
    pub kv_bytes: usize,
}

/// Bytes of one cache of layer `i`.
pub open spec fn cache_bytes(t: G4TextCfg, i: int) -> int {
    if i >= first_shared(t) {
        0
    } else {
        kv_heads(t, i) * t.max_seq * width(t, i) * 2
    }
}

pub open spec fn is_layer(p: LayerPlan, t: G4TextCfg, i: int) -> bool {
    let sliding = t.layer_types@[i] == LayerType::Sliding;
    &&& p.shared == (i >= first_shared(t))
    &&& kv_source(t.layer_types@, first_shared(t), i) == Some(p.kv_src as int)
    &&& p.head_dim == width(t, i)
    &&& p.qd == t.n_heads * width(t, i)
    &&& p.kv_heads == kv_heads(t, i)
    &&& p.kvd == kv_heads(t, i) * width(t, i)
    &&& p.own_values == (sliding || !t.k_eq_v)
    &&& p.inter == inter_of(t, i)
    &&& p.theta == (if sliding {
        t.theta_sliding
    } else {
        t.theta_full
    })
    &&& p.nfreqs == (if sliding {
        t.head_dim / 2
    } else {
        t.full_nfreqs
    })
    &&& p.window == (if sliding {
        t.sliding_window
    } else {
        0
    })
    &&& p.kv_bytes == cache_bytes(t, i)
}

/// The sizes of the text model are machine numbers.
pub open spec fn sized(t: G4TextCfg) -> bool {
    let dmax = dmax(t);
    &&& t.layer_types@.len() == t.n_layers
    &&& t.n_kv_shared <= t.n_layers
    &&& t.n_heads * 1024 <= usize::MAX
    &&& t.n_kv_heads * 1024 <= usize::MAX
    &&& t.n_global_kv_heads * 1024 <= usize::MAX
    &&& t.n_heads * dmax * 1024 <= usize::MAX
    &&& kvd_max(t) * 1024 <= usize::MAX
    &&& t.hidden * 1024 <= usize::MAX
    &&& t.inter * 2048 <= usize::MAX
    &&& t.n_kv_heads * t.max_seq <= usize::MAX
    &&& t.n_kv_heads * t.max_seq * t.head_dim * 2 <= usize::MAX
    &&& t.n_global_kv_heads * t.max_seq <= usize::MAX
    &&& t.n_global_kv_heads * t.max_seq * t.global_head_dim * 2 <= usize::MAX
    &&& t.n_layers * t.ple_dim * 1024 <= usize::MAX
    &&& t.ple_dim * 1024 <= usize::MAX
    &&& t.max_seq * 4 <= usize::MAX
    &&& t.vocab * 4 <= usize::MAX
}

/// The wider of the two head widths.
pub open spec fn dmax(t: G4TextCfg) -> int {
    if t.head_dim >= t.global_head_dim {
        t.head_dim as int
    } else {
        t.global_head_dim as int
    }
}

/// The widest feed-forward layer.
pub open spec fn imax(t: G4TextCfg) -> int {
    if t.double_wide_mlp {
        2 * t.inter
    } else {
        t.inter as int
    }
}

pub proof fn lemma_layer_sizes(t: G4TextCfg, i: int)
    requires
        sized(t),
        0 <= i < t.n_layers,
    ensures
        0 <= width(t, i) <= dmax(t),
        0 <= t.n_heads * width(t, i) <= usize::MAX,
        0 <= kv_heads(t, i) * width(t, i) <= kvd_max(t),
        0 <= kv_heads(t, i) * t.max_seq <= usize::MAX,
        0 <= kv_heads(t, i) * t.max_seq * width(t, i) * 2 <= usize::MAX,
{
    let (w, d) = (width(t, i), dmax(t));
    let (h, k, s) = (t.n_heads as int, kv_heads(t, i), t.max_seq as int);
    assert(0 <= h * w <= h * d) by (nonlinear_arith)
        requires
            0 <= w <= d,
            h >= 0,
    ;
    assert(0 <= k * w && 0 <= k * s) by (nonlinear_arith)
        requires
            w >= 0,
            k >= 0,
            s >= 0,
    ;
    let ks = k * s;
    assert(0 <= ks * w) by (nonlinear_arith)
        requires
            0 <= w,
            ks >= 0,
    ;
}

fn kv_head_count(t: &G4TextCfg, i: usize) -> (r: usize)
    requires
        i < t.layer_types@.len(),
    ensures
        r == kv_heads(*t, i as int),
{
    match t.layer_types[i] {
        LayerType::Sliding => t.n_kv_heads,
        LayerType::Full => t.n_global_kv_heads,
    }
}

fn head_width(t: &G4TextCfg, i: usize) -> (r: usize)
    requires
        i < t.layer_types@.len(),
    ensures
        r == width(*t, i as int),
{
    match t.layer_types[i] {
        LayerType::Sliding => t.head_dim,
        LayerType::Full => t.global_head_dim,
    }
}

/// `e` is the first layer that has no key/value source, with its kind.
pub open spec fn sourceless(t: G4TextCfg, e: NoKvSource) -> bool {
    let first = first_shared(t);
    &&& e.layer < t.n_layers
    &&& e.ty == t.layer_types@[e.layer as int]
    &&& kv_source(t.layer_types@, first, e.layer as int) is None
    &&& forall|k: int|
        0 <= k < e.layer ==> #[trigger] kv_source(t.layer_types@, first, k) is Some
}

/// The geometry of every layer, or the first layer that has no key/value
/// source.
pub fn layer_plans(t: &G4TextCfg) -> (r: Result<Vec<LayerPlan>, NoKvSource>)
    requires
        sized(*t),
    ensures
        match r {
            Ok(v) => v@.len() == t.n_layers && forall|i: int|
                0 <= i < t.n_layers ==> is_layer(#[trigger] v@[i], *t, i),
            Err(e) => sourceless(*t, e),
        },
{
    let first: usize = t.n_layers - t.n_kv_shared;
    let sources: Vec<usize> = kv_share_sources(t.layer_types.as_slice(), first)?;
    let mut out: Vec<LayerPlan> = Vec::new();
    let mut i: usize = 0;
    while i < t.n_layers
        invariant
            i <= t.n_layers,
            sized(*t),
            first == first_shared(*t),
            out@.len() == i,
            sources@.len() == t.layer_types@.len(),
            forall|k: int|
                0 <= k < sources@.len() ==> kv_source(t.layer_types@, first as int, k) == Some(
                    #[trigger] sources@[k] as int,
                ),
            forall|k: int| 0 <= k < i ==> is_layer(#[trigger] out@[k], *t, k),
        decreases t.n_layers - i,
    {
        let d: usize = head_width(t, i);
        let kvh: usize = kv_head_count(t, i);
        let sliding: bool = t.layer_types[i] == LayerType::Sliding;
        let shared: bool = i >= first;
        proof {
            lemma_layer_sizes(*t, i as int);
        }
        let inter: usize = if shared && t.double_wide_mlp {
            t.inter * 2
        } else {
            t.inter
        };
        let kv_bytes: usize = if shared {
            0
        } else {
            kvh * t.max_seq * d * 2
        };
        out.push(
            LayerPlan {
                shared,
                kv_src: sources[i],
                head_dim: d,
                qd: t.n_heads * d,
                kv_heads: kvh,
                kvd: kvh * d,
                own_values: sliding || !t.k_eq_v,
                inter,
                theta: if sliding {
                    t.theta_sliding
                } else {
                    t.theta_full
                },
                nfreqs: if sliding {
                    t.head_dim / 2
                } else {
                    t.full_nfreqs
                },
                window: if sliding {
                    t.sliding_window
                } else {
                    0
                },
                kv_bytes,
            },
        );
        i = i + 1;
    }
    Ok(out)
}

/// A tensor that stays on the host: the per-layer input table and the
/// convolutions in front of the audio tower.
pub open spec fn host_resident(name: Seq<char>) -> bool {
    text::ends(name, "embed_tokens_per_layer.weight"@) || text::has(
        name,
        "subsample_conv_projection."@,
    )
}

fn is_host_resident(name: &str) -> (r: bool)
    ensures
        r == host_resident(name@),
{
    text::ends_with(name, "embed_tokens_per_layer.weight") || text::contains(
        name,
        "subsample_conv_projection.",
    )
}

/// Bytes that tensor `i` needs in the scratch buffer when a product of several
/// rows expands it to half precision. The tied embedding never enters such a
/// product.
pub open spec fn scratch_need(w: &LoadedWeights, i: int) -> int {
    let m = w.metas@[i];
    if host_resident(m.name@) || bnb::aux(m.name@) {
        0
    } else if bnb::state_of(w, m.name@) is Some {
        4 * m.nbytes
    } else if tensor::is_block(m.dtype) && !text::ends(m.name@, "embed_tokens.weight"@) {
        2 * m.count()
    } else {
        0
    }
}

/// The largest need of the first `n` tensors.
pub open spec fn scratch_bytes(w: &LoadedWeights, n: int) -> int
    decreases n,
{
    if n <= 0 {
        0
    } else {
        let a = scratch_bytes(w, n - 1);
        let b = scratch_need(w, n - 1);
        if a >= b {
            a
        } else {
            b
        }
    }
}

/// Element counts and their sizes in bytes are machine numbers.
pub open spec fn countable(w: &LoadedWeights) -> bool {
    forall|i: int|
        0 <= i < w.metas@.len() ==> (#[trigger] w.metas@[i]).countable() && 4 * w.metas@[i].count()
            <= usize::MAX && 4 * w.metas@[i].nbytes <= usize::MAX
}

/// Bytes of the scratch buffer that prefill expands weights into: the largest
/// single weight that flows through a product of several rows, in half
/// precision.
pub fn prefill_scratch_bytes(weights: &LoadedWeights) -> (r: usize)
    requires
        countable(weights),
    ensures
        r == scratch_bytes(weights, weights.metas@.len() as int),
{
    let mut need: usize = 0;
    let mut i: usize = 0;
    while i < weights.metas.len()
        invariant
            i <= weights.metas@.len(),
            countable(weights),
            need == scratch_bytes(weights, i as int),
        decreases weights.metas@.len() - i,
    {
        let m: &TensorMeta = &weights.metas[i];
        assert(*m == weights.metas@[i as int]);
        let name: &str = m.name.as_str();
        let own: usize = if is_host_resident(name) || is_aux(name) {
            0
        } else if state_name(weights, name).is_some() {
            m.nbytes * 4
        } else if is_gguf_block(m.dtype) && !text::ends_with(name, "embed_tokens.weight") {
            m.numel() * 2
        } else {
            0
        };
        if own > need {
            need = own;
        }
        i = i + 1;
    }
    need
}

/// The scratch buffer holds every weight that is expanded into it, and no
/// smaller buffer would.
pub proof fn law_scratch_holds_every_weight(w: &LoadedWeights, n: int)
    requires
        n >= 0,
    ensures
        forall|i: int| 0 <= i < n ==> #[trigger] scratch_need(w, i) <= scratch_bytes(w, n),
        scratch_bytes(w, n) == 0 || exists|i: int|
            0 <= i < n && #[trigger] scratch_need(w, i) == scratch_bytes(w, n),
    decreases n,
{
    if n > 0 {
        law_scratch_holds_every_weight(w, n - 1);
        if scratch_bytes(w, n) == scratch_bytes(w, n - 1) && scratch_bytes(w, n) != 0 {
            let i = choose|i: int|
                0 <= i < n - 1 && #[trigger] scratch_need(w, i) == scratch_bytes(w, n - 1);
            assert(scratch_need(w, i) == scratch_bytes(w, n));
        } else {
            assert(scratch_need(w, n - 1) <= scratch_bytes(w, n));
        }
    }
}

/// Device bytes of tensor `i`.
pub open spec fn device_need(w: &LoadedWeights, codec: GgufCodec, i: int) -> int {
    let m = w.metas@[i];
    if host_resident(m.name@) || bnb::aux(m.name@) {
        0
    } else if bnb::state_of(w, m.name@) is Some {
        let bs = match bnb::state_outcome(w, m.name@) {
            bnb::Outcome::Good(st) => st.blocksize as int,
            _ => 64,
        };
        m.nbytes * 2 / 2 + (m.nbytes * 2) / bs * 4 + 64
    } else if codec.resident && tensor::is_block(m.dtype) {
        GgufCodec::stored(m.dtype, m.count())
    } else {
        2 * m.count()
    }
}

/// Device bytes of the first `n` tensors.
pub open spec fn device_bytes(w: &LoadedWeights, codec: GgufCodec, n: int) -> int
    decreases n,
{
    if n <= 0 {
        0
    } else {
        device_bytes(w, codec, n - 1) + device_need(w, codec, n - 1)
    }
}

proof fn lemma_device_need(w: &LoadedWeights, codec: GgufCodec, i: int)
    requires
        countable(w),
        0 <= i < w.metas@.len(),
    ensures
        device_need(w, codec, i) >= 0,
        0 <= w.metas@[i].count(),
        0 <= GgufCodec::stored(w.metas@[i].dtype, w.metas@[i].count()) <= usize::MAX,
{
    let m = w.metas@[i];
    let s = m.shape@;
    assert(m.countable());
    tensor::lemma_product_nonneg(s);
    let c = m.count();
    let g = tensor::grain(m.dtype);
    let b = tensor::block_len(m.dtype);
    let q = c / g;
    assert(0 <= q * b <= 4 * c) by (nonlinear_arith)
        requires
            q == c / g,
            c >= 0,
            g >= 1,
            0 <= b <= 4 * g,
    ;
    match bnb::state_outcome(w, m.name@) {
        bnb::Outcome::Good(st) => {
            bnb::lemma_state_outcome_sound(w, m.name@);
            vstd::arithmetic::div_mod::lemma_div_pos_is_pos(m.nbytes * 2, st.blocksize as int);
        },
        _ => {},
    }
}

proof fn lemma_device_bytes_mono(w: &LoadedWeights, codec: GgufCodec, a: int, n: int)
    requires
        countable(w),
        0 <= a <= n <= w.metas@.len(),
    ensures
        0 <= device_bytes(w, codec, a) <= device_bytes(w, codec, n),
    decreases n,
{
    if n > 0 {
        lemma_device_need(w, codec, n - 1);
        if a == n {
            lemma_device_bytes_mono(w, codec, n - 1, n - 1);
        } else {
            lemma_device_bytes_mono(w, codec, a, n - 1);
        }
    }
}

fn weight_bytes(weights: &LoadedWeights, codec: &GgufCodec) -> (r: usize)
    requires
        weights.wf(),
        countable(weights),
        forall|i: int|
            0 <= i < weights.metas@.len() ==> !(bnb::state_outcome(
                weights,
                (#[trigger] weights.metas@[i]).name@,
            ) is Degenerate),
        device_bytes(weights, *codec, weights.metas@.len() as int) <= usize::MAX,
    ensures
        r == device_bytes(weights, *codec, weights.metas@.len() as int),
{
    let mut total: usize = 0;
    let mut i: usize = 0;
    while i < weights.metas.len()
        invariant
            i <= weights.metas@.len(),
            weights.wf(),
            countable(weights),
            forall|k: int|
                0 <= k < weights.metas@.len() ==> !(bnb::state_outcome(
                    weights,
                    (#[trigger] weights.metas@[k]).name@,
                ) is Degenerate),
            device_bytes(weights, *codec, weights.metas@.len() as int) <= usize::MAX,
            total == device_bytes(weights, *codec, i as int),
        decreases weights.metas@.len() - i,
    {
        let m: &TensorMeta = &weights.metas[i];
        assert(*m == weights.metas@[i as int]);
        let name: &str = m.name.as_str();
        proof {
            lemma_device_need(weights, *codec, i as int);
            lemma_device_bytes_mono(weights, *codec, i + 1, weights.metas@.len() as int);
            lemma_device_bytes_mono(weights, *codec, i as int, i as int);
            bnb::lemma_state_outcome_sound(weights, name@);
        }
        let own: usize = if is_host_resident(name) || is_aux(name) {
            0
        } else if state_name(weights, name).is_some() {
            let bs: usize = match parse_state(weights, name) {
                Ok(st) => st.blocksize,
                Err(_) => 64,
            };
            nf4_device_bytes(m.nbytes * 2, bs)
        } else {
            codec.device_bytes(m)
        };
        total = total + own;
        i = i + 1;
    }
    total
}

/// Device buffers of the workspace, in bytes.
#[derive(Clone, Copy, PartialEq, Eq, Debug, Structural)]
pub struct G4Ws {
    /// The residual stream.
    pub x: usize,
    /// Normed activations.
    pub h: usize,
    /// Block outputs.
    pub h2: usize,
    pub q: usize,
    pub k: usize,
    pub v: usize,
    pub att: usize,
    pub gate: usize,
    pub up: usize,
    /// Combined per-layer inputs.
    pub ple: usize,
    /// Token-identity part of the per-layer inputs.
    pub ple_id: usize,
    pub ple_g: usize,
    /// What prefill expands weights into.
    pub wsc: usize,
    /// Media-block ids by absolute position.
    pub blkid: usize,
    pub ids: usize,
    pub logits_h: usize,
    pub logits_f: usize,
    pub argmax_slot: usize,
    pub pos_dev: usize,
    /// Partial results of split attention.
    pub att_part: usize,
    pub cand: usize,
    pub hist_ring: usize,
    pub hist_counts: usize,
}

pub open spec fn at_least(n: int, least: int) -> int {
    if n >= least {
        n
    } else {
        least
    }
}

/// Partial results of attention split into pieces of `csz` positions.
pub open spec fn split_bytes(t: G4TextCfg, csz: int) -> int {
    t.n_heads * ((t.max_seq + csz - 1) / csz) * (dmax(t) + 2) * 4
}

/// The workspace of the text model.
pub open spec fn is_workspace(ws: G4Ws, t: G4TextCfg, wsc: int, csz: int) -> bool {
    &&& ws.x == CHUNK * t.hidden * 2
    &&& ws.h == ws.x
    &&& ws.h2 == ws.x
    &&& ws.q == t.n_heads * dmax(t) * CHUNK * 2
    &&& ws.att == ws.q
    &&& ws.k == kvd_max(t) * CHUNK * 2
    &&& ws.v == ws.k
    &&& ws.gate == CHUNK * imax(t) * 2
    &&& ws.up == ws.gate
    &&& ws.ple == at_least(t.n_layers * t.ple_dim * CHUNK * 2, 2)
    &&& ws.ple_id == ws.ple
    &&& ws.ple_g == at_least(CHUNK * t.ple_dim * 2, 2)
    &&& ws.wsc == at_least(wsc, 2)
    &&& ws.blkid == t.max_seq * 4
    &&& ws.ids == CHUNK * 4
    &&& ws.logits_h == t.vocab * 2
    &&& ws.logits_f == t.vocab * 4
    &&& ws.argmax_slot == 8
    &&& ws.pos_dev == 4
    &&& ws.att_part == split_bytes(t, csz)
    &&& ws.cand == SAMPLE_TOPK * 8
    &&& ws.hist_ring == 64 * 4
    &&& ws.hist_counts == t.vocab * 4
}

/// Sizes the workspace: `wsc` bytes to expand weights into, attention split
/// into pieces of `csz` positions.
pub fn workspace(t: &G4TextCfg, wsc: usize, csz: usize) -> (r: G4Ws)
    requires
        sized(*t),
        csz > 0,
        t.max_seq + csz <= usize::MAX,
        t.n_heads * ((t.max_seq + csz - 1) / csz as int) <= usize::MAX,
        dmax(*t) + 2 <= usize::MAX,
        split_bytes(*t, csz as int) <= usize::MAX,
    ensures
        is_workspace(r, *t, wsc as int, csz as int),
{
    let d: usize = if t.head_dim >= t.global_head_dim {
        t.head_dim
    } else {
        t.global_head_dim
    };
    let im: usize = if t.double_wide_mlp {
        t.inter * 2
    } else {
        t.inter
    };
    proof {
        lemma_sized(*t);
        lemma_split(*t, csz as int);
    }
    let qb: usize = t.n_heads * d * CHUNK * 2;
    let kb: usize = widest_keys(t) * CHUNK * 2;
    let slab: usize = t.n_layers * t.ple_dim * CHUNK * 2;
    let pg: usize = CHUNK * t.ple_dim * 2;
    let nc: usize = (t.max_seq + csz - 1) / csz;
    let part: usize = t.n_heads * nc * (d + 2) * 4;
    G4Ws {
        x: CHUNK * t.hidden * 2,
        h: CHUNK * t.hidden * 2,
        h2: CHUNK * t.hidden * 2,
        q: qb,
        k: kb,
        v: kb,
        att: qb,
        gate: CHUNK * im * 2,
        up: CHUNK * im * 2,
        ple: if slab >= 2 {
            slab
        } else {
            2
        },
        ple_id: if slab >= 2 {
            slab
        } else {
            2
        },
        ple_g: if pg >= 2 {
            pg
        } else {
            2
        },
        wsc: if wsc >= 2 {
            wsc
        } else {
            2
        },
        blkid: t.max_seq * 4,
        ids: CHUNK * 4,
        logits_h: t.vocab * 2,
        logits_f: t.vocab * 4,
        argmax_slot: 8,
        pos_dev: 4,
        att_part: part,
        cand: SAMPLE_TOPK * 8,
        hist_ring: 64 * 4,
        hist_counts: t.vocab * 4,
    }
}

pub proof fn lemma_sized(t: G4TextCfg)
    requires
        sized(t),
    ensures
        0 <= t.n_heads * dmax(t),
        0 <= t.n_kv_heads * t.head_dim <= kvd_max(t),
        0 <= t.n_global_kv_heads * t.global_head_dim <= kvd_max(t),
        0 <= t.n_layers * t.ple_dim,
{
    let d = dmax(t);
    let (a, c, e) = (t.n_heads as int, t.n_layers as int, t.ple_dim as int);
    let (k, g, x, y) = (
        t.n_kv_heads as int,
        t.n_global_kv_heads as int,
        t.head_dim as int,
        t.global_head_dim as int,
    );
    assert(a * d >= 0 && c * e >= 0 && k * x >= 0 && g * y >= 0) by (nonlinear_arith)
        requires
            a >= 0,
            c >= 0,
            d >= 0,
            e >= 0,
            k >= 0,
            g >= 0,
            x >= 0,
            y >= 0,
    ;
}

fn widest_keys(t: &G4TextCfg) -> (r: usize)
    requires
        sized(*t),
    ensures
        r == kvd_max(*t),
{
    proof {
        lemma_sized(*t);
    }
    let a: usize = t.n_kv_heads * t.head_dim;
    let b: usize = t.n_global_kv_heads * t.global_head_dim;
    if a >= b {
        a
    } else {
        b
    }
}

pub proof fn lemma_split(t: G4TextCfg, csz: int)
    requires
        csz > 0,
        split_bytes(t, csz) <= usize::MAX,
    ensures
        0 <= (t.max_seq + csz - 1) / csz,
        0 <= t.n_heads * ((t.max_seq + csz - 1) / csz),
        0 <= t.n_heads * ((t.max_seq + csz - 1) / csz) * (dmax(t) + 2) <= usize::MAX,
{
    let nc = (t.max_seq + csz - 1) / csz;
    vstd::arithmetic::div_mod::lemma_div_pos_is_pos(t.max_seq + csz - 1, csz);
    let h = t.n_heads as int;
    assert(h * nc >= 0) by (nonlinear_arith)
        requires
            h >= 0,
            nc >= 0,
    ;
    let p = h * nc;
    let d = dmax(t) + 2;
    assert(p * d >= 0) by (nonlinear_arith)
        requires
            p >= 0,
            d >= 0,
    ;
}

/// Bytes of all key and value caches of the first `n` layers.
pub open spec fn all_cache_bytes(t: G4TextCfg, n: int) -> int
    decreases n,
{
    if n <= 0 {
        0
    } else {
        all_cache_bytes(t, n - 1) + 2 * cache_bytes(t, n - 1)
    }
}

/// What the forecast bills for the buffers of the text model.
pub open spec fn text_bill(t: G4TextCfg) -> int {
    CHUNK * t.hidden * 2 * 3 + t.n_heads * dmax(t) * CHUNK * 2 * 2 + kvd_max(t) * CHUNK * 2 * 2
        + CHUNK * imax(t) * 2 * 2 + t.max_seq * 4 + CHUNK * 4 + t.vocab * 6 + (if t.ple_dim
        > 0 {
        t.n_layers * t.ple_dim * CHUNK * 2 * 2 + CHUNK * t.ple_dim * 2
    } else {
        0
    })
}

/// What it bills for the vision tower.
pub open spec fn vision_bill(v: Option<G4VisionCfg>) -> int {
    match v {
        Some(v) => 2520 * v.hidden * 2 * 6 + 2520 * v.inter * 2 * 2 + v.n_heads * v.head_dim * 2520
            * 2 * 3,
        None => 0,
    }
}

/// What it bills for the audio tower.
pub open spec fn audio_bill(a: Option<G4AudioCfg>) -> int {
    match a {
        Some(a) => 3008 * a.hidden * 2 * 8,
        None => 0,
    }
}

/// The workspace part of the forecast.
pub open spec fn ws_forecast(cfg: G4Config, wsc: int) -> int {
    text_bill(cfg.text) + vision_bill(cfg.vision) + audio_bill(cfg.audio) + wsc
}

fn cache_total(t: &G4TextCfg) -> (r: usize)
    requires
        sized(*t),
        all_cache_bytes(*t, t.n_layers as int) <= usize::MAX,
    ensures
        r == all_cache_bytes(*t, t.n_layers as int),
{
    let first: usize = t.n_layers - t.n_kv_shared;
    let mut total: usize = 0;
    let mut i: usize = 0;
    while i < t.n_layers
        invariant
            i <= t.n_layers,
            sized(*t),
            first == first_shared(*t),
            all_cache_bytes(*t, t.n_layers as int) <= usize::MAX,
            total == all_cache_bytes(*t, i as int),
        decreases t.n_layers - i,
    {
        proof {
            lemma_layer_sizes(*t, i as int);
            lemma_cache_mono(*t, i + 1, t.n_layers as int);
            lemma_cache_mono(*t, i as int, i as int);
        }
        if i < first {
            let d: usize = head_width(t, i);
            total = total + 2 * (kv_head_count(t, i) * t.max_seq * d * 2);
        }
        i = i + 1;
    }
    total
}

proof fn lemma_cache_mono(t: G4TextCfg, a: int, n: int)
    requires
        sized(t),
        0 <= a <= n <= t.n_layers,
    ensures
        0 <= all_cache_bytes(t, a) <= all_cache_bytes(t, n),
    decreases n,
{
    if n > 0 {
        lemma_layer_sizes(t, n - 1);
        if a == n {
            lemma_cache_mono(t, n - 1, n - 1);
        } else {
            lemma_cache_mono(t, a, n - 1);
        }
    }
}

impl Gemma4 {
    /// Predicted device memory: weights, caches, workspace. The per-layer input
    /// table stays on the host and is not counted.
    #[verifier::spinoff_prover]
    #[verifier::rlimit(40)]
    pub fn forecast_bytes(cfg: &G4Config, weights: &LoadedWeights, codec: &GgufCodec) -> (r: (
        usize,
        usize,
        usize,
    ))
        requires
            weights.wf(),
            countable(weights),
            forall|i: int|
                0 <= i < weights.metas@.len() ==> !(bnb::state_outcome(
                    weights,
                    (#[trigger] weights.metas@[i]).name@,
                ) is Degenerate),
            sized(cfg.text),
            device_bytes(weights, *codec, weights.metas@.len() as int) <= usize::MAX,
            all_cache_bytes(cfg.text, cfg.text.n_layers as int) <= usize::MAX,
            ws_forecast(*cfg, scratch_bytes(weights, weights.metas@.len() as int)) <= usize::MAX,
        ensures
            r.0 == device_bytes(weights, *codec, weights.metas@.len() as int),
            r.1 == all_cache_bytes(cfg.text, cfg.text.n_layers as int),
            r.2 == ws_forecast(*cfg, scratch_bytes(weights, weights.metas@.len() as int)),
    {
        let t: &G4TextCfg = &cfg.text;
        let w: usize = weight_bytes(weights, codec);
        let kv: usize = cache_total(t);
        let wsc: usize = prefill_scratch_bytes(weights);
        let d: usize = if t.head_dim >= t.global_head_dim {
            t.head_dim
        } else {
            t.global_head_dim
        };
        let im: usize = if t.double_wide_mlp {
            t.inter * 2
        } else {
            t.inter
        };
        proof {
            lemma_sized(*t);
            match &cfg.vision {
                Some(v) => {
                    let (a, b) = (v.n_heads as int, v.head_dim as int);
                    assert(a * b >= 0) by (nonlinear_arith)
                        requires
                            a >= 0,
                            b >= 0,
                    ;
                },
                None => {},
            }
        }
        let mut ws: usize = CHUNK * t.hidden * 2 * 3 + t.n_heads * d * CHUNK * 2 * 2 + widest_keys(t)
            * CHUNK * 2 * 2 + CHUNK * im * 2 * 2 + t.max_seq * 4 + CHUNK * 4 + t.vocab * 6;
        if t.ple_dim > 0 {
            ws = ws + (t.n_layers * t.ple_dim * CHUNK * 2 * 2 + CHUNK * t.ple_dim * 2);
        }
        if let Some(v) = &cfg.vision {
            ws = ws + (2520 * v.hidden * 2 * 6 + 2520 * v.inter * 2 * 2 + v.n_heads * v.head_dim * 2520
                * 2 * 3);
        }
        if let Some(a) = &cfg.audio {
            ws = ws + 3008 * a.hidden * 2 * 8;
        }
        ws = ws + wsc;
        (w, kv, ws)
    }
}

/// The forecast counts the caches that the layers allocate: the sum of both
/// caches over all layers.
pub proof fn law_forecast_counts_the_caches(t: G4TextCfg, plans: Seq<LayerPlan>)
    requires
        sized(t),
        plans.len() == t.n_layers,
        forall|i: int| 0 <= i < plans.len() ==> is_layer(#[trigger] plans[i], t, i),
    ensures
        all_cache_bytes(t, t.n_layers as int) == planned_cache_bytes(plans),
{
    lemma_planned(t, plans, plans.len() as int);
    assert(plans.take(plans.len() as int) =~= plans);
}

/// Both caches of all planned layers.
pub open spec fn planned_cache_bytes(plans: Seq<LayerPlan>) -> int
    decreases plans.len(),
{
    if plans.len() == 0 {
        0
    } else {
        planned_cache_bytes(plans.drop_last()) + 2 * plans.last().kv_bytes
    }
}

proof fn lemma_planned(t: G4TextCfg, plans: Seq<LayerPlan>, n: int)
    requires
        0 <= n <= plans.len(),
        forall|i: int| 0 <= i < plans.len() ==> is_layer(#[trigger] plans[i], t, i),
    ensures
        all_cache_bytes(t, n) == planned_cache_bytes(plans.take(n)),
    decreases n,
{
    if n > 0 {
        lemma_planned(t, plans, n - 1);
        assert(plans.take(n).drop_last() =~= plans.take(n - 1));
        assert(is_layer(plans[n - 1], t, n - 1));
    }
}

/// Bytes of the text model's buffers that the forecast bills.
pub open spec fn billed_bytes(ws: G4Ws) -> int {
    ws.x + ws.h + ws.h2 + ws.q + ws.att + ws.k + ws.v + ws.gate + ws.up + ws.ple + ws.ple_id
        + ws.ple_g + ws.blkid + ws.ids + ws.logits_h + ws.logits_f + ws.wsc
}

/// Bytes of the vision tower's buffers.
pub open spec fn vision_bytes(w: VisionWs) -> int {
    w.x + w.h + w.h2 + w.q + w.k + w.v + w.att + w.gate + w.up + w.clip + 4 * w.pos + w.pos_emb
        + w.pooled + w.out
}

/// Bytes of the audio tower's buffers; both of the relative positions count.
pub open spec fn audio_bytes(w: AudioWs) -> int {
    w.x + w.h + w.h2 + w.wide + w.q + w.k + w.v + w.clip + w.out + 2 * w.rel
}

/// The workspace that is allocated is at least what the forecast bills for the
/// text model, with and without towers: residual stream, attention,
/// feed-forward, per-layer inputs and scratch. So is that of a vision tower
/// whose heads are together no narrower than its residual stream.
pub proof fn law_forecast_bills_the_workspace(
    cfg: G4Config,
    ws: G4Ws,
    vision: Option<VisionWs>,
    wsc: int,
    csz: int,
)
    requires
        sized(cfg.text),
        wsc >= 0,
        is_workspace(ws, cfg.text, wsc, csz),
        match (cfg.vision, vision) {
            (Some(v), Some(w)) => vision::sized(v, cfg.text.hidden as int) && vision::is_ws(
                w,
                v,
                cfg.text.hidden as int,
            ) && v.hidden <= vision::qd(v),
            (None, None) => true,
            _ => false,
        },
    ensures
        ws_forecast(cfg, wsc) <= billed_bytes(ws) + (match vision {
            Some(w) => vision_bytes(w),
            None => 0,
        }) + audio_bill(cfg.audio),
        text_bill(cfg.text) + wsc <= billed_bytes(ws),
        vision matches Some(w) ==> vision_bill(cfg.vision) <= vision_bytes(w),
{
    lemma_sized(cfg.text);
    match (cfg.vision, vision) {
        (Some(v), Some(w)) => {
            lemma_vision_bill(v, w, cfg.text.hidden as int);
        },
        _ => {},
    }
}

proof fn lemma_vision_bill(v: G4VisionCfg, w: VisionWs, lm_hidden: int)
    requires
        vision::sized(v, lm_hidden),
        vision::is_ws(w, v, lm_hidden),
        v.hidden <= vision::qd(v),
    ensures
        vision_bill(Some(v)) <= vision_bytes(w),
{
    let q = vision::qd(v);
    assert(v.n_heads * v.head_dim * 2520 * 2 * 3 == 15120 * q);
    assert(w.q == 5040 * q);
    assert(w.clip >= 5040 * v.hidden);
}

/// The audio tower allocates no more than the forecast bills for it, where its
/// chunks are of at most 128 rows, it looks back on fewer than two thousand,
/// and no output is more than eight times as wide as its residual stream.
pub proof fn law_forecast_covers_the_audio_tower(a: G4AudioCfg, w: AudioWs, lm_hidden: int)
    requires
        audio::sized(a, lm_hidden),
        audio::is_ws(w, a, lm_hidden),
        a.chunk <= 128,
        a.past < 2000,
        audio::out_width(a, lm_hidden) <= 8 * a.hidden,
    ensures
        audio_bytes(w) <= audio_bill(Some(a)),
{
    let (h, m, o, p) = (
        a.hidden as int,
        audio::rows_max(a),
        audio::out_width(a, lm_hidden),
        a.past + 1,
    );
    let x = m * h;
    let y = m * o;
    let z = p * h;
    assert(x <= 878 * h && y <= 8 * x && z <= 2000 * h && x >= 0 && y >= 0 && z >= 0)
        by (nonlinear_arith)
        requires
            x == m * h,
            y == m * o,
            z == p * h,
            0 <= m <= 878,
            0 <= p <= 2000,
            0 <= o <= 8 * h,
            h >= 0,
    ;
    assert(w.x == 2 * x && w.wide == 8 * x && w.out == 2 * y && w.rel == 2 * z);
}

} // verus!
