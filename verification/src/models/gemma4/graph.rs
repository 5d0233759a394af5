//! The resident graph of the text model: what it was built from, and the state
//! that generation moves along.
use vstd::prelude::*;

use crate::models::capture::Captures;
use crate::models::gemma4::config::{G4Config, G4TextCfg};
use crate::models::gemma4::index;
use crate::models::gemma4::index::G4Index;
use crate::models::gemma4::plan;
use crate::models::gemma4::plan::{layer_plans, workspace, G4Ws, LayerPlan, NoKvSource};
use crate::models::gemma4::slots;
use crate::models::gemma4::slots::{text_slots, Slot, SlotError};
use crate::tensor;
use crate::tensor::{is_gguf_block, DType};
use crate::text;
use crate::weights::LoadedWeights;

verus! {

/// The text model with its towers.
pub struct Gemma4 {
    pub cfg: G4Config,
    pub layers: Vec<LayerPlan>,
    /// The places of the graph, and the checkpoint entries that fill them.
    pub slots: Vec<Slot>,
    pub entries: Vec<Option<usize>>,
    /// What each layer's output is scaled by.
    pub scalars: Vec<u32>,
    /// Full layers divide their rotary frequencies by the shipped factors.
    pub rope_factors: bool,
    /// The encoding of the embedding table where it stays packed.
    pub embed_gguf: Option<DType>,
    pub ws: G4Ws,
    /// Positions per piece of split attention.
    pub csz: usize,
    /// The checkpoint carries the tower that the configuration describes.
    pub vision: bool,
    pub audio: bool,
    /// Tokens in the caches.
    pub pos: usize,
    pub captures: Captures,
    /// The media block of every position so far; `-1` outside blocks.
    pub blk_host: Vec<i32>,
}

/// Why the graph cannot be built.
#[derive(Clone, Copy, PartialEq, Eq, Debug, Structural)]
pub enum BuildError {
    Slot { index: usize, error: SlotError },
    Source(NoKvSource),
}

/// The first of the first `n` places that cannot be filled.
pub open spec fn first_fault(
    w: &LoadedWeights,
    shift: u32,
    ss: Seq<slots::SlotSpec>,
    n: int,
) -> Option<BuildError>
    decreases n,
{
    if n <= 0 {
        None
    } else {
        match first_fault(w, shift, ss, n - 1) {
            Some(e) => Some(e),
            None => match slots::slot_fault(w, shift, ss[n - 1]) {
                Some(error) => Some(BuildError::Slot { index: (n - 1) as usize, error }),
                None => None,
            },
        }
    }
}

fn check_all(ix: &G4Index, ss: &Vec<Slot>) -> (r: Result<Vec<Option<usize>>, BuildError>)
    requires
        ix.weights.wf(),
        index::sized(ix.weights),
        index::sound_states(ix.weights),
        forall|i: int| 0 <= i < ss@.len() ==> slots::named(#[trigger] ss@[i]@),
    ensures
        match r {
            Ok(v) => {
                &&& first_fault(
                    ix.weights,
                    ix.norm_shift,
                    slots::views(ss@),
                    ss@.len() as int,
                ) is None
                &&& v@.len() == ss@.len()
                &&& forall|i: int|
                    0 <= i < v@.len() ==> #[trigger] entry_is(v@[i], ix.weights, ss@[i]@)
            },
            Err(e) => first_fault(
                ix.weights,
                ix.norm_shift,
                slots::views(ss@),
                ss@.len() as int,
            ) == Some(e),
        },
{
    let ghost vs = slots::views(ss@);
    let mut out: Vec<Option<usize>> = Vec::new();
    let mut i: usize = 0;
    while i < ss.len()
        invariant
            i <= ss@.len(),
            vs == slots::views(ss@),
            ix.weights.wf(),
            index::sized(ix.weights),
            index::sound_states(ix.weights),
            forall|k: int| 0 <= k < ss@.len() ==> slots::named(#[trigger] ss@[k]@),
            first_fault(ix.weights, ix.norm_shift, vs, i as int) is None,
            out@.len() == i,
            forall|k: int| 0 <= k < i ==> #[trigger] entry_is(out@[k], ix.weights, ss@[k]@),
        decreases ss@.len() - i,
    {
        assert(vs[i as int] == ss@[i as int]@);
        match ix.check_slot(&ss[i]) {
            Ok(e) => {
                out.push(e);
            },
            Err(error) => {
                let e: BuildError = BuildError::Slot { index: i, error };
                proof {
                    lemma_fault_stays(ix.weights, ix.norm_shift, vs, i + 1, ss@.len() as int);
                }
                return Err(e);
            },
        }
        i = i + 1;
    }
    Ok(out)
}

proof fn lemma_fault_stays(
    w: &LoadedWeights,
    shift: u32,
    ss: Seq<slots::SlotSpec>,
    a: int,
    n: int,
)
    requires
        0 <= a <= n,
        first_fault(w, shift, ss, a) is Some,
    ensures
        first_fault(w, shift, ss, n) == first_fault(w, shift, ss, a),
    decreases n - a,
{
    if a < n {
        lemma_fault_stays(w, shift, ss, a, n - 1);
    }
}

/// `e` is the entry that fills the place `s`.
pub open spec fn entry_is(e: Option<usize>, w: &LoadedWeights, s: slots::SlotSpec) -> bool {
    match e {
        Some(i) => slots::slot_entry(w, s) == Some(i as int),
        None => slots::slot_entry(w, s) is None,
    }
}

/// The scalar of layer `i`; one where the checkpoint has none.
pub open spec fn layer_scalar(w: &LoadedWeights, i: int) -> u32 {
    match slots::scalar_entry(w, slots::layer_name(i, "layer_scalar"@)) {
        Some(e) => match index::scalar(w, e) {
            Some(v) => v,
            None => 0x3f80_0000,
        },
        None => 0x3f80_0000,
    }
}

fn scalars_of(ix: &G4Index, n: usize) -> (r: Vec<u32>)
    requires
        ix.weights.wf(),
        index::filled(ix.weights),
    ensures
        r@.len() == n,
        forall|i: int| 0 <= i < n ==> #[trigger] r@[i] == layer_scalar(ix.weights, i),
{
    let mut out: Vec<u32> = Vec::new();
    let mut i: usize = 0;
    while i < n
        invariant
            i <= n,
            out@.len() == i,
            ix.weights.wf(),
            index::filled(ix.weights),
            forall|k: int| 0 <= k < i ==> #[trigger] out@[k] == layer_scalar(ix.weights, k),
        decreases n - i,
    {
        let name: String = slots::in_layer(i, "layer_scalar");
        proof {
            slots::lemma_layer_name_len(i as int, "layer_scalar"@);
        }
        let entry: Option<usize> = match ix.meta(name.as_str()) {
            Ok(e) => Some(e),
            Err(_) => {
                let alt: String = slots::alt_name(name.as_str());
                match ix.meta(alt.as_str()) {
                    Ok(e) => Some(e),
                    Err(_) => None,
                }
            },
        };
        let v: u32 = match entry {
            Some(e) => match ix.scalar_f32(e) {
                Ok(x) => x,
                Err(_) => 0x3f80_0000,
            },
            None => 0x3f80_0000,
        };
        out.push(v);
        i = i + 1;
    }
    out
}

/// Some tensor belongs to the tower `prefix`.
pub open spec fn has_tower(w: &LoadedWeights, prefix: Seq<char>) -> bool {
    exists|i: int| 0 <= i < w.metas@.len() && text::has(#[trigger] w.metas@[i].name@, prefix)
}

fn carries(w: &LoadedWeights, prefix: &str) -> (r: bool)
    ensures
        r == has_tower(w, prefix@),
{
    let mut i: usize = 0;
    while i < w.metas.len()
        invariant
            i <= w.metas@.len(),
            forall|k: int| 0 <= k < i ==> !text::has(#[trigger] w.metas@[k].name@, prefix@),
        decreases w.metas@.len() - i,
    {
        if text::contains(w.metas[i].name.as_str(), prefix) {
            assert(text::has(w.metas@[i as int].name@, prefix@));
            return true;
        }
        i = i + 1;
    }
    false
}

/// The encoding of the embedding table where it stays packed.
pub open spec fn packed_embedding(w: &LoadedWeights) -> Option<DType> {
    match index::resolve(w, slots::lm("embed_tokens.weight"@)) {
        Some(i) => if tensor::is_block(w.metas@[i].dtype) {
            Some(w.metas@[i].dtype)
        } else {
            None
        },
        None => None,
    }
}

/// The places of the whole text model, given its layers.
pub open spec fn all_slots(t: G4TextCfg, plans: Seq<LayerPlan>) -> Seq<slots::SlotSpec> {
    slots::slots(t, plans, t.n_layers as int)
}

/// The sizes that a graph needs are machine numbers.
pub open spec fn buildable(t: G4TextCfg, csz: int) -> bool {
    &&& plan::sized(t)
    &&& csz > 0
    &&& t.max_seq + csz <= usize::MAX
    &&& t.n_heads * ((t.max_seq + csz - 1) / csz) <= usize::MAX
    &&& plan::dmax(t) + 2 <= usize::MAX
    &&& plan::split_bytes(t, csz) <= usize::MAX
}

impl Gemma4 {
    /// What a graph is built to.
    pub open spec fn is_built(
        &self,
        cfg: G4Config,
        w: &LoadedWeights,
        shift: u32,
        rope: Option<bool>,
    ) -> bool {
        let t = cfg.text;
        &&& self.cfg == cfg
        &&& are_layers(self.layers@, t)
        &&& slots::views(self.slots@) == all_slots(t, self.layers@)
        &&& first_fault(w, shift, all_slots(t, self.layers@), self.slots@.len() as int) is None
        &&& self.entries@.len() == self.slots@.len()
        &&& forall|i: int|
            0 <= i < self.slots@.len() ==> #[trigger] entry_is(
                self.entries@[i],
                w,
                self.slots@[i]@,
            )
        &&& self.scalars@.len() == t.n_layers
        &&& forall|i: int| 0 <= i < t.n_layers ==> #[trigger] self.scalars@[i] == layer_scalar(w, i)
        &&& self.rope_factors == ((match rope {
            Some(b) => b,
            None => t.use_rope_factors,
        }) && index::resolve(w, slots::lm("rope_freqs.weight"@)) is Some)
        &&& self.embed_gguf == packed_embedding(w)
        &&& plan::is_workspace(
            self.ws,
            t,
            plan::scratch_bytes(w, w.metas@.len() as int),
            self.csz as int,
        )
        &&& self.vision == (cfg.vision is Some && has_tower(w, "vision_tower."@))
        &&& self.audio == (cfg.audio is Some && has_tower(w, "audio_tower."@))
        &&& self.pos == 0
        &&& self.captures == (Captures { decode: false, sample: None })
        &&& self.blk_host@.len() == 0
    }

    pub fn max_seq(&self) -> (r: usize)
        ensures
            r == self.cfg.text.max_seq,
    {
        self.cfg.text.max_seq
    }

    pub fn config(&self) -> (r: &G4Config)
        ensures
            *r == self.cfg,
    {
        &self.cfg
    }

    /// End tokens that the configuration lists.
    pub fn extra_eos(&self) -> (r: &Vec<u32>)
        ensures
            *r == self.cfg.text.eos,
    {
        &self.cfg.text.eos
    }

    pub fn has_vision(&self) -> (r: bool)
        ensures
            r == self.vision,
    {
        self.vision
    }

    pub fn has_audio(&self) -> (r: bool)
        ensures
            r == self.audio,
    {
        self.audio
    }

    /// Builds the graph: checks every place in order, plans the layers, sizes
    /// the workspace. `rope` overrides whether full layers apply the shipped
    /// rotary factors.
    pub fn build(cfg: G4Config, ix: &G4Index, csz: usize, rope: Option<bool>) -> (r: Result<
        Gemma4,
        BuildError,
    >)
        requires
            ix.weights.wf(),
            index::sized(ix.weights),
            index::sound_states(ix.weights),
            index::filled(ix.weights),
            plan::countable(ix.weights),
            buildable(cfg.text, csz as int),
        ensures
            match r {
                Ok(g) => g.csz == csz && g.is_built(cfg, ix.weights, ix.norm_shift, rope),
                Err(e) => text_fault(cfg.text, ix.weights, ix.norm_shift, e),
            },
    {
        let tb: TextBuild = build_text(&cfg.text, ix)?;
        let scalars: Vec<u32> = scalars_of(ix, cfg.text.n_layers);
        let wanted: bool = match rope {
            Some(b) => b,
            None => cfg.text.use_rope_factors,
        };
        let rope_factors: bool = wanted && ix.has("language_model.rope_freqs.weight");
        let embed_gguf: Option<DType> = embedding_of(ix);
        proof {
            slots::lemma_lm_names();
        }
        let wsc: usize = plan::prefill_scratch_bytes(ix.weights);
        let ws: G4Ws = workspace(&cfg.text, wsc, csz);
        let vision: bool = cfg.vision.is_some() && carries(ix.weights, "vision_tower.");
        let audio: bool = cfg.audio.is_some() && carries(ix.weights, "audio_tower.");
        Ok(
            Gemma4 {
                cfg,
                layers: tb.layers,
                slots: tb.slots,
                entries: tb.entries,
                scalars,
                rope_factors,
                embed_gguf,
                ws,
                csz,
                vision,
                audio,
                pos: 0,
                captures: Captures::none(),
                blk_host: Vec::new(),
            },
        )
    }
}

/// The layers of the text model and the entries that fill its places.
struct TextBuild {
    layers: Vec<LayerPlan>,
    slots: Vec<Slot>,
    entries: Vec<Option<usize>>,
}

/// `plans` are the layers of the text model.
pub open spec fn are_layers(plans: Seq<LayerPlan>, t: G4TextCfg) -> bool {
    plans.len() == t.n_layers && forall|i: int|
        0 <= i < t.n_layers ==> plan::is_layer(#[trigger] plans[i], t, i)
}

/// `e` is the first thing that keeps the text model from being built: a place
/// in front of the layers, then the first layer without a key/value source,
/// then a place of a layer.
pub open spec fn text_fault(t: G4TextCfg, w: &LoadedWeights, shift: u32, e: BuildError) -> bool {
    let head = slots::head_slots(t);
    match first_fault(w, shift, head, head.len() as int) {
        Some(f) => e == f,
        None => match e {
            BuildError::Source(s) => plan::sourceless(t, s),
            BuildError::Slot { .. } => exists|plans: Seq<LayerPlan>|
                #[trigger] are_layers(plans, t) && first_fault(
                    w,
                    shift,
                    all_slots(t, plans),
                    all_slots(t, plans).len() as int,
                ) == Some(e),
        },
    }
}

fn build_text(t: &G4TextCfg, ix: &G4Index) -> (r: Result<TextBuild, BuildError>)
    requires
        ix.weights.wf(),
        index::sized(ix.weights),
        index::sound_states(ix.weights),
        plan::sized(*t),
    ensures
        match r {
            Ok(b) => {
                &&& are_layers(b.layers@, *t)
                &&& slots::views(b.slots@) == all_slots(*t, b.layers@)
                &&& first_fault(
                    ix.weights,
                    ix.norm_shift,
                    all_slots(*t, b.layers@),
                    b.slots@.len() as int,
                ) is None
                &&& b.entries@.len() == b.slots@.len()
                &&& forall|i: int|
                    0 <= i < b.slots@.len() ==> #[trigger] entry_is(
                        b.entries@[i],
                        ix.weights,
                        b.slots@[i]@,
                    )
            },
            Err(e) => text_fault(*t, ix.weights, ix.norm_shift, e),
        },
{
    let head: Vec<Slot> = slots::head_list(t);
    assert(slots::views(head@).len() == head@.len());
    let head_entries: Vec<Option<usize>> = check_all(ix, &head)?;
    let layers: Vec<LayerPlan> = match layer_plans(t) {
        Ok(v) => v,
        Err(e) => {
            return Err(BuildError::Source(e));
        },
    };
    assert(are_layers(layers@, *t));
    let all: Vec<Slot> = text_slots(t, &layers);
    proof {
        slots::lemma_named(*t, layers@, t.n_layers as int);
        assert forall|i: int| 0 <= i < all@.len() implies slots::named(#[trigger] all@[i]@) by {
            assert(slots::views(all@)[i] == all@[i]@);
        }
        assert(slots::views(all@).len() == all@.len());
    }
    match check_all(ix, &all) {
        Ok(entries) => Ok(TextBuild { layers, slots: all, entries }),
        Err(e) => {
            proof {
                lemma_faults_are_slots(
                    ix.weights,
                    ix.norm_shift,
                    all_slots(*t, layers@),
                    all@.len() as int,
                );
            }
            Err(e)
        },
    }
}

proof fn lemma_faults_are_slots(w: &LoadedWeights, shift: u32, ss: Seq<slots::SlotSpec>, n: int)
    ensures
        match first_fault(w, shift, ss, n) {
            Some(e) => e is Slot,
            None => true,
        },
    decreases n,
{
    if n > 0 {
        lemma_faults_are_slots(w, shift, ss, n - 1);
    }
}

fn embedding_of(ix: &G4Index) -> (r: Option<DType>)
    ensures
        r == packed_embedding(ix.weights),
{
    proof {
        slots::lemma_lm_names();
    }
    match ix.meta("language_model.embed_tokens.weight") {
        Ok(i) => {
            let dtype: DType = ix.weights.metas[i].dtype;
            if is_gguf_block(dtype) {
                Some(dtype)
            } else {
                None
            }
        },
        Err(_) => None,
    }
}

} // verus!
