//! The audio tower: places, scratch buffers, frame counts, and the steps of
//! the conformer.
use vstd::prelude::*;

use crate::ieee::Format;
use crate::models::gemma4::config::G4AudioCfg;
use crate::models::gemma4::index;
use crate::models::gemma4::index::G4Index;
use crate::models::gemma4::tower;
use crate::models::gemma4::tower::{add_in_layer, add_named, check_places, Place, TowerError, TowerNeed};
use crate::num::{f32_lt, f32_mul, f32_to_f16};

verus! {

/// Samples of a frame: 20 ms at 16 kHz.
pub const MEL_FRAME: usize = 320;

/// Samples between frames: 10 ms.
pub const MEL_HOP: usize = 160;

pub const MEL_FFT: usize = 512;

/// Soft tokens of the longest clip.
pub const AUDIO_MAX_TOKENS: usize = 750;

/// Why a clip is not encoded.
#[derive(Clone, Copy, PartialEq, Eq, Debug, Structural)]
pub enum AudioError {
    SampleRate { rate: u32 },
    /// Fewer than four frames.
    TooShort { frames: usize },
}

/// Samples of a clip that are used.
pub open spec fn used(samples: int) -> int {
    if samples > 480320 {
        480320
    } else {
        samples
    }
}

/// Frames of a clip: half a frame of silence in front, at least one frame.
pub open spec fn frames(samples: int) -> int {
    let padded = 160 + used(samples);
    if padded < 320 {
        1
    } else {
        (padded - 320) / 160 + 1
    }
}

pub open spec fn half_up(n: int) -> int {
    (n + 1) / 2
}

/// Soft tokens of `n` frames: two convolutions halve them.
pub open spec fn tokens(n: int) -> int {
    let t = half_up(half_up(n));
    if t > 750 {
        750
    } else {
        t
    }
}

/// What a clip is cut to.
#[derive(Clone, Copy, PartialEq, Eq, Debug, Structural)]
pub struct Framing {
    pub samples: usize,
    pub frames: usize,
}

/// Frames of a clip.
pub fn framing(rate: u32, samples: usize) -> (r: Result<Framing, AudioError>)
    ensures
        if rate != 16_000 {
            r == Err::<Framing, AudioError>(AudioError::SampleRate { rate })
        } else if frames(samples as int) < 4 {
            r == Err::<Framing, AudioError>(
                (AudioError::TooShort { frames: frames(samples as int) as usize }),
            )
        } else {
            r == Ok::<Framing, AudioError>(
                (Framing {
                    samples: used(samples as int) as usize,
                    frames: frames(samples as int) as usize,
                }),
            )
        },
{
    if rate != 16_000 {
        return Err(AudioError::SampleRate { rate });
    }
    let max: usize = AUDIO_MAX_TOKENS * 4 * MEL_HOP + MEL_FRAME;
    let used: usize = if samples > max {
        max
    } else {
        samples
    };
    let padded: usize = MEL_FRAME / 2 + used;
    let n: usize = if padded < MEL_FRAME {
        1
    } else {
        (padded - MEL_FRAME) / MEL_HOP + 1
    };
    if n < 4 {
        return Err(AudioError::TooShort { frames: n });
    }
    Ok(Framing { samples: used, frames: n })
}

/// Soft tokens of `n` frames.
pub fn token_count(n: usize) -> (r: usize)
    requires
        n < usize::MAX,
    ensures
        r == tokens(n as int),
{
    let t: usize = ((n + 1) / 2 + 1) / 2;
    if t > AUDIO_MAX_TOKENS {
        AUDIO_MAX_TOKENS
    } else {
        t
    }
}

/// Every clip stays within the soft tokens that the text model reserves, and
/// every clip that is encoded has one.
pub proof fn law_clips_stay_within_their_tokens(samples: int)
    requires
        samples >= 0,
    ensures
        1 <= frames(samples) <= 3002,
        1 <= tokens(frames(samples)) <= AUDIO_MAX_TOKENS,
{
}

/// Sizes of the scratch buffers.
pub struct AudioWs {
    pub x: usize,
    pub h: usize,
    pub h2: usize,
    pub wide: usize,
    pub q: usize,
    pub k: usize,
    pub v: usize,
    pub clip: usize,
    pub out: usize,
    pub rel: usize,
}

/// The resident tower.
pub struct G4Audio {
    pub cfg: G4AudioCfg,
    pub lm_hidden: usize,
    pub places: Vec<Place>,
    pub entries: Vec<usize>,
    pub ws: AudioWs,
}

/// Channels of a row in front of the projection.
pub open spec fn proj_in(c: G4AudioCfg) -> int {
    (c.sub_ch.0 as int / 4) * c.sub_ch.1
}

pub open spec fn rows_max(c: G4AudioCfg) -> int {
    750 + c.chunk
}

pub open spec fn out_width(c: G4AudioCfg, lm_hidden: int) -> int {
    if c.out_dims >= lm_hidden {
        c.out_dims as int
    } else {
        lm_hidden
    }
}

/// The sizes that the tower needs are machine numbers.
pub open spec fn sized(c: G4AudioCfg, lm_hidden: int) -> bool {
    &&& c.n_heads >= 1
    &&& 750 + c.chunk <= usize::MAX
    &&& c.hidden * 8 <= usize::MAX
    &&& rows_max(c) * c.hidden * 8 <= usize::MAX
    &&& rows_max(c) * out_width(c, lm_hidden) * 2 <= usize::MAX
    &&& c.past + 1 <= usize::MAX
    &&& (c.past + 1) * c.hidden * 2 <= usize::MAX
    &&& proj_in(c) <= usize::MAX
    &&& c.sub_ch.0 * 9 <= usize::MAX
}

pub open spec fn is_ws(w: AudioWs, c: G4AudioCfg, lm_hidden: int) -> bool {
    &&& w.x == rows_max(c) * c.hidden * 2
    &&& w.h == w.x
    &&& w.h2 == w.x
    &&& w.wide == rows_max(c) * c.hidden * 4 * 2
    &&& w.q == w.x
    &&& w.k == w.x
    &&& w.v == w.x
    &&& w.clip == w.wide
    &&& w.out == rows_max(c) * out_width(c, lm_hidden) * 2
    &&& w.rel == (c.past + 1) * c.hidden * 2
}

fn workspace(c: &G4AudioCfg, lm_hidden: usize) -> (r: AudioWs)
    requires
        sized(*c, lm_hidden as int),
    ensures
        is_ws(r, *c, lm_hidden as int),
{
    let n: usize = AUDIO_MAX_TOKENS + c.chunk;
    let wide: usize = if c.out_dims >= lm_hidden {
        c.out_dims
    } else {
        lm_hidden
    };
    proof {
        let (a, b, d, e) = (n as int, c.hidden as int, wide as int, c.past + 1);
        assert(a * b >= 0 && a * d >= 0 && e * b >= 0) by (nonlinear_arith)
            requires
                a >= 0,
                b >= 0,
                d >= 0,
                e >= 0,
        ;
    }
    let x: usize = n * c.hidden * 2;
    let w: usize = n * c.hidden * 4 * 2;
    AudioWs {
        x,
        h: x,
        h2: x,
        wide: w,
        q: x,
        k: x,
        v: x,
        clip: w,
        out: n * wide * 2,
        rel: (c.past + 1) * c.hidden * 2,
    }
}

pub open spec fn named(i: int, s: Seq<char>, need: TowerNeed) -> tower::PlaceSpec {
    tower::place(tower::layer_name("audio_tower.layers."@, i, s), need)
}

/// The convolutions in front of the conformer.
pub open spec fn conv_places(c: G4AudioCfg) -> Seq<tower::PlaceSpec> {
    let (a, b) = (c.sub_ch.0, c.sub_ch.1);
    seq![
        tower::place("audio_tower.subsample_conv_projection.layer0.conv.weight"@, TowerNeed::HostKernel2d { a, b: 1, c: 3, d: 3 }),
        tower::place("audio_tower.subsample_conv_projection.layer0.norm.weight"@, TowerNeed::Host { len: a }),
        tower::place("audio_tower.subsample_conv_projection.layer1.conv.weight"@, TowerNeed::HostKernel2d { a: b, b: a, c: 3, d: 3 }),
        tower::place("audio_tower.subsample_conv_projection.layer1.norm.weight"@, TowerNeed::Host { len: b }),
    ]
}

/// The places of layer `i`.
pub open spec fn layer_places(c: G4AudioCfg, i: int) -> Seq<tower::PlaceSpec> {
    let h = c.hidden;
    let (h2, h4) = ((h * 2) as usize, (h * 4) as usize);
    let d = (h as int / c.n_heads as int) as usize;
    seq![
        named(i, "self_attn.per_dim_scale"@, TowerNeed::Host { len: d }),
        named(i, "lconv1d.depthwise_conv1d.weight"@, TowerNeed::HostKernel { a: h, b: 1, c: c.conv_k }),
        named(i, "feed_forward1.pre_layer_norm.weight"@, TowerNeed::Vector { len: h }),
        named(i, "feed_forward1.ffw_layer_1"@, TowerNeed::Clip { n_out: h4, n_in: h }),
        named(i, "feed_forward1.ffw_layer_2"@, TowerNeed::Clip { n_out: h, n_in: h4 }),
        named(i, "feed_forward1.post_layer_norm.weight"@, TowerNeed::Vector { len: h }),
        named(i, "feed_forward2.pre_layer_norm.weight"@, TowerNeed::Vector { len: h }),
        named(i, "feed_forward2.ffw_layer_1"@, TowerNeed::Clip { n_out: h4, n_in: h }),
        named(i, "feed_forward2.ffw_layer_2"@, TowerNeed::Clip { n_out: h, n_in: h4 }),
        named(i, "feed_forward2.post_layer_norm.weight"@, TowerNeed::Vector { len: h }),
        named(i, "norm_pre_attn.weight"@, TowerNeed::Vector { len: h }),
        named(i, "norm_post_attn.weight"@, TowerNeed::Vector { len: h }),
        named(i, "self_attn.q_proj"@, TowerNeed::Clip { n_out: h, n_in: h }),
        named(i, "self_attn.k_proj"@, TowerNeed::Clip { n_out: h, n_in: h }),
        named(i, "self_attn.v_proj"@, TowerNeed::Clip { n_out: h, n_in: h }),
        named(i, "self_attn.post"@, TowerNeed::Clip { n_out: h, n_in: h }),
        named(i, "self_attn.relative_k_proj.weight"@, TowerNeed::Linear { n_out: h, n_in: h }),
        named(i, "lconv1d.pre_layer_norm.weight"@, TowerNeed::Vector { len: h }),
        named(i, "lconv1d.linear_start"@, TowerNeed::Clip { n_out: h2, n_in: h }),
        named(i, "lconv1d.conv_norm.weight"@, TowerNeed::Vector { len: h }),
        named(i, "lconv1d.linear_end"@, TowerNeed::Clip { n_out: h, n_in: h }),
        named(i, "norm_out.weight"@, TowerNeed::Vector { len: h }),
    ]
}

/// The places up to the first `n` layers.
pub open spec fn inner_places(c: G4AudioCfg, n: int) -> Seq<tower::PlaceSpec>
    decreases n,
{
    if n <= 0 {
        conv_places(c)
    } else {
        inner_places(c, n - 1) + layer_places(c, n - 1)
    }
}

pub open spec fn outer_places(c: G4AudioCfg, lm_hidden: usize) -> Seq<tower::PlaceSpec> {
    seq![
        tower::place("audio_tower.subsample_conv_projection.input_proj_linear.weight"@, TowerNeed::Linear { n_out: c.hidden, n_in: proj_in(c) as usize }),
        tower::place("audio_tower.output_proj.weight"@, TowerNeed::Linear { n_out: c.out_dims, n_in: c.hidden }),
        tower::place("audio_tower.output_proj.bias"@, TowerNeed::Vector { len: c.out_dims }),
        tower::place("embed_audio.embedding_projection.weight"@, TowerNeed::Linear { n_out: lm_hidden, n_in: c.out_dims }),
    ]
}

pub open spec fn all_places(c: G4AudioCfg, lm_hidden: usize) -> Seq<tower::PlaceSpec> {
    inner_places(c, c.n_layers as int) + outer_places(c, lm_hidden)
}

fn add(v: &mut Vec<Place>, i: usize, s: &str, need: TowerNeed)
    ensures
        tower::views(final(v)@) == tower::views(old(v)@).push(named(i as int, s@, need)),
{
    add_in_layer(v, "audio_tower.layers.", i, s, need)
}

fn add_layer(v: &mut Vec<Place>, c: &G4AudioCfg, i: usize)
    requires
        c.n_heads >= 1,
        c.hidden * 8 <= usize::MAX,
    ensures
        tower::views(final(v)@) == tower::views(old(v)@) + layer_places(*c, i as int),
{
    let ghost before = tower::views(v@);
    let h: usize = c.hidden;
    let (h2, h4): (usize, usize) = (h * 2, h * 4);
    let d: usize = h / c.n_heads;
    self::add(v, i, "self_attn.per_dim_scale", TowerNeed::Host { len: d });
    self::add(v, i, "lconv1d.depthwise_conv1d.weight", TowerNeed::HostKernel { a: h, b: 1, c: c.conv_k });
    self::add(v, i, "feed_forward1.pre_layer_norm.weight", TowerNeed::Vector { len: h });
    self::add(v, i, "feed_forward1.ffw_layer_1", TowerNeed::Clip { n_out: h4, n_in: h });
    self::add(v, i, "feed_forward1.ffw_layer_2", TowerNeed::Clip { n_out: h, n_in: h4 });
    self::add(v, i, "feed_forward1.post_layer_norm.weight", TowerNeed::Vector { len: h });
    self::add(v, i, "feed_forward2.pre_layer_norm.weight", TowerNeed::Vector { len: h });
    self::add(v, i, "feed_forward2.ffw_layer_1", TowerNeed::Clip { n_out: h4, n_in: h });
    self::add(v, i, "feed_forward2.ffw_layer_2", TowerNeed::Clip { n_out: h, n_in: h4 });
    self::add(v, i, "feed_forward2.post_layer_norm.weight", TowerNeed::Vector { len: h });
    self::add(v, i, "norm_pre_attn.weight", TowerNeed::Vector { len: h });
    self::add(v, i, "norm_post_attn.weight", TowerNeed::Vector { len: h });
    self::add(v, i, "self_attn.q_proj", TowerNeed::Clip { n_out: h, n_in: h });
    self::add(v, i, "self_attn.k_proj", TowerNeed::Clip { n_out: h, n_in: h });
    self::add(v, i, "self_attn.v_proj", TowerNeed::Clip { n_out: h, n_in: h });
    self::add(v, i, "self_attn.post", TowerNeed::Clip { n_out: h, n_in: h });
    self::add(v, i, "self_attn.relative_k_proj.weight", TowerNeed::Linear { n_out: h, n_in: h });
    self::add(v, i, "lconv1d.pre_layer_norm.weight", TowerNeed::Vector { len: h });
    self::add(v, i, "lconv1d.linear_start", TowerNeed::Clip { n_out: h2, n_in: h });
    self::add(v, i, "lconv1d.conv_norm.weight", TowerNeed::Vector { len: h });
    self::add(v, i, "lconv1d.linear_end", TowerNeed::Clip { n_out: h, n_in: h });
    self::add(v, i, "norm_out.weight", TowerNeed::Vector { len: h });
    assert(tower::views(v@) =~= before + layer_places(*c, i as int));
}

fn places_of(c: &G4AudioCfg, lm_hidden: usize) -> (r: Vec<Place>)
    requires
        sized(*c, lm_hidden as int),
    ensures
        tower::views(r@) == all_places(*c, lm_hidden),
{
    let (a, b): (usize, usize) = c.sub_ch;
    let mut v: Vec<Place> = Vec::new();
    add_named(&mut v, "audio_tower.subsample_conv_projection.layer0.conv.weight", TowerNeed::HostKernel2d { a, b: 1, c: 3, d: 3 });
    add_named(&mut v, "audio_tower.subsample_conv_projection.layer0.norm.weight", TowerNeed::Host { len: a });
    add_named(&mut v, "audio_tower.subsample_conv_projection.layer1.conv.weight", TowerNeed::HostKernel2d { a: b, b: a, c: 3, d: 3 });
    add_named(&mut v, "audio_tower.subsample_conv_projection.layer1.norm.weight", TowerNeed::Host { len: b });
    assert(tower::views(v@) =~= conv_places(*c));
    let mut i: usize = 0;
    while i < c.n_layers
        invariant
            i <= c.n_layers,
            c.n_heads >= 1,
            c.hidden * 8 <= usize::MAX,
            tower::views(v@) == inner_places(*c, i as int),
        decreases c.n_layers - i,
    {
        add_layer(&mut v, c, i);
        i = i + 1;
    }
    let ghost before = tower::views(v@);
    let p: usize = (a / 4) * b;
    add_named(&mut v, "audio_tower.subsample_conv_projection.input_proj_linear.weight", TowerNeed::Linear { n_out: c.hidden, n_in: p });
    add_named(&mut v, "audio_tower.output_proj.weight", TowerNeed::Linear { n_out: c.out_dims, n_in: c.hidden });
    add_named(&mut v, "audio_tower.output_proj.bias", TowerNeed::Vector { len: c.out_dims });
    add_named(&mut v, "embed_audio.embedding_projection.weight", TowerNeed::Linear { n_out: lm_hidden, n_in: c.out_dims });
    assert(tower::views(v@) =~= before + outer_places(*c, lm_hidden));
    v
}

proof fn lemma_layer_sized(c: G4AudioCfg, i: int)
    ensures
        forall|k: int|
            0 <= k < layer_places(c, i).len() ==> tower::place_sized(
                #[trigger] layer_places(c, i)[k],
            ),
{
    let v = layer_places(c, i);
    assert(1 * c.conv_k == c.conv_k);
    assert(tower::place_sized(v[1]));
    assert forall|k: int| 0 <= k < v.len() implies tower::place_sized(#[trigger] v[k]) by {
        if k != 1 {
            assert(!(v[k].need is HostKernel) && !(v[k].need is HostKernel2d) && !(
            v[k].need is Table) && !(v[k].need is PatchProj));
        }
    }
}

proof fn lemma_kernel_sized(s: tower::PlaceSpec)
    requires
        s.need matches TowerNeed::HostKernel2d { b, c, d, .. } && c == 3 && d == 3 && b * 9
            <= usize::MAX,
    ensures
        tower::place_sized(s),
{
    if let TowerNeed::HostKernel2d { b, c, d, .. } = s.need {
        assert(b * c == b * 3 && b * c * d == b * 9) by (nonlinear_arith)
            requires
                c == 3,
                d == 3,
        ;
    }
}

proof fn lemma_inner_sized(c: G4AudioCfg, n: int)
    requires
        c.sub_ch.0 * 9 <= usize::MAX,
    ensures
        forall|k: int|
            0 <= k < inner_places(c, n).len() ==> tower::place_sized(
                #[trigger] inner_places(c, n)[k],
            ),
    decreases n,
{
    if n <= 0 {
        let a = c.sub_ch.0 as int;
        assert(a * 3 * 3 == a * 9);
        let v = conv_places(c);
        lemma_kernel_sized(v[0]);
        lemma_kernel_sized(v[2]);
        assert(tower::place_sized(v[1]));
        assert(tower::place_sized(v[3]));
    } else {
        lemma_inner_sized(c, n - 1);
        lemma_layer_sized(c, n - 1);
        let a = inner_places(c, n - 1);
        let b = layer_places(c, n - 1);
        assert forall|k: int| 0 <= k < (a + b).len() implies tower::place_sized(
            #[trigger] (a + b)[k],
        ) by {
            if k < a.len() {
                assert((a + b)[k] == a[k]);
            } else {
                assert((a + b)[k] == b[k - a.len()]);
            }
        }
    }
}

proof fn lemma_all_sized(c: G4AudioCfg, lm_hidden: usize)
    requires
        c.sub_ch.0 * 9 <= usize::MAX,
    ensures
        forall|k: int|
            0 <= k < all_places(c, lm_hidden).len() ==> tower::place_sized(
                #[trigger] all_places(c, lm_hidden)[k],
            ),
{
    lemma_inner_sized(c, c.n_layers as int);
    let a = inner_places(c, c.n_layers as int);
    let b = outer_places(c, lm_hidden);
    assert forall|k: int| 0 <= k < (a + b).len() implies tower::place_sized(
        #[trigger] (a + b)[k],
    ) by {
        if k < a.len() {
            assert((a + b)[k] == a[k]);
        } else {
            assert((a + b)[k] == b[k - a.len()]);
        }
    }
}

impl G4Audio {
    /// Builds the tower, or names the first place that cannot be filled.
    pub fn build(cfg: G4AudioCfg, ix: &G4Index, lm_hidden: usize) -> (r: Result<
        G4Audio,
        (usize, TowerError),
    >)
        requires
            sized(cfg, lm_hidden as int),
            ix.weights.wf(),
            index::sized(ix.weights),
            index::sound_states(ix.weights),
        ensures
            ({
                let ss = all_places(cfg, lm_hidden);
                match r {
                    Ok(g) => {
                        &&& tower::first_fault(ix.weights, ix.norm_shift, ss, ss.len() as int) is None
                        &&& g.cfg == cfg
                        &&& g.lm_hidden == lm_hidden
                        &&& tower::views(g.places@) == ss
                        &&& tower::entries_are(g.entries@, ix.weights, ss)
                        &&& is_ws(g.ws, cfg, lm_hidden as int)
                    },
                    Err(e) => tower::first_fault(ix.weights, ix.norm_shift, ss, ss.len() as int)
                        == Some(e),
                }
            }),
    {
        let places: Vec<Place> = places_of(&cfg, lm_hidden);
        proof {
            lemma_all_sized(cfg, lm_hidden);
        }
        let entries: Vec<usize> = check_places(ix, &places)?;
        let ws: AudioWs = workspace(&cfg, lm_hidden);
        Ok(G4Audio { cfg, lm_hidden, places, entries, ws })
    }
}

/// Per-dimension scales that are all positive were shipped activated.
pub open spec fn activated(v: Seq<u32>) -> bool {
    forall|i: int| 0 <= i < v.len() ==> Format::F32.less(0, #[trigger] v[i] as int)
}

pub fn is_activated(v: &[u32]) -> (r: bool)
    ensures
        r == activated(v@),
{
    let mut i: usize = 0;
    while i < v.len()
        invariant
            i <= v@.len(),
            forall|k: int| 0 <= k < i ==> Format::F32.less(0, #[trigger] v@[k] as int),
        decreases v@.len() - i,
    {
        if !f32_lt(0, v[i]) {
            return false;
        }
        i = i + 1;
    }
    true
}

/// A scale is used as shipped where the activation was applied, or where it is
/// so large (above twenty) that the activation would not change it.
pub fn as_shipped(activated: bool, v: u32) -> (r: bool)
    ensures
        r == (activated || Format::F32.less(0x41a0_0000, v as int)),
{
    activated || f32_lt(0x41a0_0000, v)
}

/// The query scales of all heads: one factor times the per-dimension scales.
pub fn tile_scales(v: &[u32], factor: u32, heads: usize) -> (r: Vec<u16>)
    ensures
        r@.len() == heads * v@.len(),
        forall|k: int, i: int|
            #![trigger r@[k * v@.len() + i]]
            0 <= k < heads && 0 <= i < v@.len() ==> r@[k * v@.len() + i] == Format::F32.convert(
                Format::F16,
                Format::F32.product(factor as int, v@[i] as int),
            ),
{
    let ghost n = v@.len() as int;
    let mut out: Vec<u16> = Vec::new();
    let mut k: usize = 0;
    while k < heads
        invariant
            k <= heads,
            n == v@.len(),
            out@.len() == k * n,
            forall|j: int, i: int|
                #![trigger out@[j * n + i]]
                0 <= j < k && 0 <= i < n ==> out@[j * n + i] == Format::F32.convert(
                    Format::F16,
                    Format::F32.product(factor as int, v@[i] as int),
                ),
        decreases heads - k,
    {
        let ghost before = out@;
        let mut i: usize = 0;
        while i < v.len()
            invariant
                i <= v@.len(),
                n == v@.len(),
                before.len() == k * n,
                out@.len() == before.len() + i,
                forall|j: int| 0 <= j < before.len() ==> #[trigger] out@[j] == before[j],
                forall|j: int|
                    0 <= j < i ==> #[trigger] out@[before.len() + j] == Format::F32.convert(
                        Format::F16,
                        Format::F32.product(factor as int, v@[j] as int),
                    ),
            decreases v@.len() - i,
        {
            out.push(f32_to_f16(f32_mul(factor, v[i])));
            i = i + 1;
        }
        proof {
            assert((k + 1) * n == k * n + n) by (nonlinear_arith);
            assert forall|j: int, i: int|
                #![trigger out@[j * n + i]]
                0 <= j < k + 1 && 0 <= i < n implies out@[j * n + i] == Format::F32.convert(
                Format::F16,
                Format::F32.product(factor as int, v@[i] as int),
            ) by {
                if j < k {
                    assert(0 <= j * n && j * n + i < k * n) by (nonlinear_arith)
                        requires
                            0 <= j < k,
                            0 <= i < n,
                    ;
                    assert(out@[j * n + i] == before[j * n + i]);
                } else {
                    assert(out@[before.len() + i] == Format::F32.convert(
                        Format::F16,
                        Format::F32.product(factor as int, v@[i] as int),
                    ));
                }
            }
        }
        k = k + 1;
    }
    out
}

} // verus!
