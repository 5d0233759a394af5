//! The tensors that the text model is built from, in the order in which they
//! are taken, and what becomes of each.
use vstd::prelude::*;

use crate::models::gemma4::config::G4TextCfg;
use crate::models::gemma4::index;
use crate::models::gemma4::index::{G4Index, IndexError};
use crate::models::gemma4::plan;
use crate::models::gemma4::plan::LayerPlan;
use crate::tensor;
use crate::tensor::{is_gguf_block, DType};
use crate::text;
use crate::weights::LoadedWeights;

verus! {

/// What a place of the graph asks of its tensor.
#[derive(Clone, Copy, PartialEq, Eq, Debug, Structural)]
pub enum Need {
    /// The tied embedding table, exactly `[vocab, hidden]`.
    Embedding { vocab: usize, hidden: usize },
    /// The per-layer input table, exactly `[rows, cols]`, in an encoding that
    /// the host can gather from.
    HostTable { rows: usize, cols: usize },
    Norm { len: usize },
    Linear { n_out: usize, n_in: usize },
    /// A computing layer must have its key projection.
    Present,
    /// An optional scalar, under this name or else under the export's name.
    Scalar,
}

/// A place of the graph.
pub struct Slot {
    pub name: String,
    pub need: Need,
}

/// What a [`Slot`] is, mathematically.
pub struct SlotSpec {
    pub name: Seq<char>,
    pub need: Need,
}

impl View for Slot {
    type V = SlotSpec;

    open spec fn view(&self) -> SlotSpec {
        SlotSpec { name: self.name@, need: self.need }
    }
}

pub open spec fn views(v: Seq<Slot>) -> Seq<SlotSpec> {
    Seq::new(v.len(), |i: int| v[i]@)
}

pub open spec fn slot(name: Seq<char>, need: Need) -> SlotSpec {
    SlotSpec { name, need }
}

/// The name of a tensor of layer `i`.
pub open spec fn layer_name(i: int, s: Seq<char>) -> Seq<char> {
    "language_model.layers."@ + text::numeral(i) + "."@ + s
}

/// The name of a tensor of the text model.
pub open spec fn lm(s: Seq<char>) -> Seq<char> {
    "language_model."@ + s
}

/// The places in front of the layers.
pub open spec fn head_slots(t: G4TextCfg) -> Seq<SlotSpec> {
    let first = seq![
        slot(lm("embed_tokens.weight"@), Need::Embedding { vocab: t.vocab, hidden: t.hidden }),
        slot(lm("norm.weight"@), Need::Norm { len: t.hidden }),
    ];
    if t.ple_dim > 0 {
        first + seq![
            slot(
                lm("embed_tokens_per_layer.weight"@),
                Need::HostTable { rows: t.ple_vocab, cols: (t.n_layers * t.ple_dim) as usize },
            ),
            slot(
                lm("per_layer_model_projection.weight"@),
                Need::Linear { n_out: (t.n_layers * t.ple_dim) as usize, n_in: t.hidden },
            ),
            slot(lm("per_layer_projection_norm.weight"@), Need::Norm { len: t.ple_dim }),
        ]
    } else {
        first
    }
}

/// The norms around the blocks of layer `i`, and its queries.
pub open spec fn front_slots(t: G4TextCfg, p: LayerPlan, i: int) -> Seq<SlotSpec> {
    seq![
        slot(layer_name(i, "layer_scalar"@), Need::Scalar),
        slot(layer_name(i, "input_layernorm.weight"@), Need::Norm { len: t.hidden }),
        slot(layer_name(i, "post_attention_layernorm.weight"@), Need::Norm { len: t.hidden }),
        slot(layer_name(i, "pre_feedforward_layernorm.weight"@), Need::Norm { len: t.hidden }),
        slot(layer_name(i, "post_feedforward_layernorm.weight"@), Need::Norm { len: t.hidden }),
        slot(layer_name(i, "self_attn.q_proj.weight"@), Need::Linear { n_out: p.qd, n_in: t.hidden }),
        slot(layer_name(i, "self_attn.q_norm.weight"@), Need::Norm { len: p.head_dim }),
    ]
}

/// The keys and values of a computing layer.
pub open spec fn kv_slots(t: G4TextCfg, p: LayerPlan, i: int) -> Seq<SlotSpec> {
    if p.shared {
        Seq::empty()
    } else {
        seq![
            slot(
                layer_name(i, "self_attn.k_proj.weight"@),
                Need::Linear { n_out: p.kvd, n_in: t.hidden },
            ),
        ] + (if p.own_values {
            seq![
                slot(
                    layer_name(i, "self_attn.v_proj.weight"@),
                    Need::Linear { n_out: p.kvd, n_in: t.hidden },
                ),
            ]
        } else {
            Seq::empty()
        }) + seq![slot(layer_name(i, "self_attn.k_norm.weight"@), Need::Norm { len: p.head_dim })]
    }
}

/// The output projection and the feed-forward block.
pub open spec fn back_slots(t: G4TextCfg, p: LayerPlan, i: int) -> Seq<SlotSpec> {
    seq![
        slot(layer_name(i, "self_attn.o_proj.weight"@), Need::Linear { n_out: t.hidden, n_in: p.qd }),
        slot(layer_name(i, "mlp.gate_proj.weight"@), Need::Linear { n_out: p.inter, n_in: t.hidden }),
        slot(layer_name(i, "mlp.up_proj.weight"@), Need::Linear { n_out: p.inter, n_in: t.hidden }),
        slot(layer_name(i, "mlp.down_proj.weight"@), Need::Linear { n_out: t.hidden, n_in: p.inter }),
    ]
}

/// The per-layer inputs.
pub open spec fn ple_slots(t: G4TextCfg, i: int) -> Seq<SlotSpec> {
    if t.ple_dim > 0 {
        seq![
            slot(
                layer_name(i, "per_layer_input_gate.weight"@),
                Need::Linear { n_out: t.ple_dim, n_in: t.hidden },
            ),
            slot(
                layer_name(i, "per_layer_projection.weight"@),
                Need::Linear { n_out: t.hidden, n_in: t.ple_dim },
            ),
            slot(layer_name(i, "post_per_layer_input_norm.weight"@), Need::Norm { len: t.hidden }),
        ]
    } else {
        Seq::empty()
    }
}

/// All places of layer `i`.
pub open spec fn layer_slots(t: G4TextCfg, p: LayerPlan, i: int) -> Seq<SlotSpec> {
    probe_slots(p, i) + front_slots(t, p, i) + kv_slots(t, p, i) + back_slots(t, p, i) + ple_slots(t, i)
}

/// All places of the first `n` layers.
pub open spec fn slots(t: G4TextCfg, plans: Seq<LayerPlan>, n: int) -> Seq<SlotSpec>
    decreases n,
{
    if n <= 0 {
        head_slots(t)
    } else {
        slots(t, plans, n - 1) + layer_slots(t, plans[n - 1], n - 1)
    }
}

fn add_slot(v: &mut Vec<Slot>, name: String, need: Need)
    ensures
        views(final(v)@) == views(old(v)@).push(slot(name@, need)),
{
    let ghost before = v@;
    v.push(Slot { name, need });
    assert(views(v@) =~= views(before).push(slot(name@, need)));
}

pub(crate) fn in_layer(i: usize, s: &str) -> (r: String)
    ensures
        r@ == layer_name(i as int, s@),
{
    let mut n: String = "language_model.layers.".to_owned();
    text::push_number(&mut n, i);
    n.append(".");
    n.append(s);
    n
}

fn add_in_layer(v: &mut Vec<Slot>, i: usize, s: &str, need: Need)
    ensures
        views(final(v)@) == views(old(v)@).push(slot(layer_name(i as int, s@), need)),
{
    add_slot(v, in_layer(i, s), need)
}

fn add_in_lm(v: &mut Vec<Slot>, s: &str, need: Need)
    ensures
        views(final(v)@) == views(old(v)@).push(slot(lm(s@), need)),
{
    add_slot(v, text::join("language_model.", s), need)
}

fn add_front(v: &mut Vec<Slot>, t: &G4TextCfg, p: &LayerPlan, i: usize)
    ensures
        views(final(v)@) == views(old(v)@) + front_slots(*t, *p, i as int),
{
    let ghost v0 = views(v@);
    let hs: usize = t.hidden;
    add_in_layer(v, i, "layer_scalar", Need::Scalar);
    add_in_layer(v, i, "input_layernorm.weight", Need::Norm { len: hs });
    add_in_layer(v, i, "post_attention_layernorm.weight", Need::Norm { len: hs });
    add_in_layer(v, i, "pre_feedforward_layernorm.weight", Need::Norm { len: hs });
    add_in_layer(v, i, "post_feedforward_layernorm.weight", Need::Norm { len: hs });
    add_in_layer(v, i, "self_attn.q_proj.weight", Need::Linear { n_out: p.qd, n_in: hs });
    add_in_layer(v, i, "self_attn.q_norm.weight", Need::Norm { len: p.head_dim });
    assert(views(v@) =~= v0 + front_slots(*t, *p, i as int));
}

fn add_kv(v: &mut Vec<Slot>, t: &G4TextCfg, p: &LayerPlan, i: usize)
    ensures
        views(final(v)@) == views(old(v)@) + kv_slots(*t, *p, i as int),
{
    let ghost v0 = views(v@);
    let hs: usize = t.hidden;
    if !p.shared {
        add_in_layer(v, i, "self_attn.k_proj.weight", Need::Linear { n_out: p.kvd, n_in: hs });
        if p.own_values {
            add_in_layer(v, i, "self_attn.v_proj.weight", Need::Linear { n_out: p.kvd, n_in: hs });
        }
        add_in_layer(v, i, "self_attn.k_norm.weight", Need::Norm { len: p.head_dim });
    }
    assert(views(v@) =~= v0 + kv_slots(*t, *p, i as int));
}

fn add_back(v: &mut Vec<Slot>, t: &G4TextCfg, p: &LayerPlan, i: usize)
    ensures
        views(final(v)@) == views(old(v)@) + back_slots(*t, *p, i as int),
{
    let ghost v0 = views(v@);
    let hs: usize = t.hidden;
    add_in_layer(v, i, "self_attn.o_proj.weight", Need::Linear { n_out: hs, n_in: p.qd });
    add_in_layer(v, i, "mlp.gate_proj.weight", Need::Linear { n_out: p.inter, n_in: hs });
    add_in_layer(v, i, "mlp.up_proj.weight", Need::Linear { n_out: p.inter, n_in: hs });
    add_in_layer(v, i, "mlp.down_proj.weight", Need::Linear { n_out: hs, n_in: p.inter });
    assert(views(v@) =~= v0 + back_slots(*t, *p, i as int));
}

fn add_ple(v: &mut Vec<Slot>, t: &G4TextCfg, i: usize)
    ensures
        views(final(v)@) == views(old(v)@) + ple_slots(*t, i as int),
{
    let ghost v0 = views(v@);
    let hs: usize = t.hidden;
    if t.ple_dim > 0 {
        add_in_layer(
            v,
            i,
            "per_layer_input_gate.weight",
            Need::Linear { n_out: t.ple_dim, n_in: hs },
        );
        add_in_layer(
            v,
            i,
            "per_layer_projection.weight",
            Need::Linear { n_out: hs, n_in: t.ple_dim },
        );
        add_in_layer(v, i, "post_per_layer_input_norm.weight", Need::Norm { len: hs });
    }
    assert(views(v@) =~= v0 + ple_slots(*t, i as int));
}

/// The probe that a computing layer has its key projection.
pub open spec fn probe_slots(p: LayerPlan, i: int) -> Seq<SlotSpec> {
    if p.shared {
        Seq::empty()
    } else {
        seq![slot(layer_name(i, "self_attn.k_proj.weight"@), Need::Present)]
    }
}

fn add_layer(v: &mut Vec<Slot>, t: &G4TextCfg, p: &LayerPlan, i: usize)
    ensures
        views(final(v)@) == views(old(v)@) + layer_slots(*t, *p, i as int),
{
    let ghost v0 = views(v@);
    if !p.shared {
        add_in_layer(v, i, "self_attn.k_proj.weight", Need::Present);
    }
    assert(views(v@) =~= v0 + probe_slots(*p, i as int));
    add_front(v, t, p, i);
    add_kv(v, t, p, i);
    add_back(v, t, p, i);
    add_ple(v, t, i);
    proof {
        let (a, b, c, d, e) = (
            probe_slots(*p, i as int),
            front_slots(*t, *p, i as int),
            kv_slots(*t, *p, i as int),
            back_slots(*t, *p, i as int),
            ple_slots(*t, i as int),
        );
        lemma_concat(v0, a, b, c, d, e);
    }
}

proof fn lemma_concat(
    v: Seq<SlotSpec>,
    a: Seq<SlotSpec>,
    b: Seq<SlotSpec>,
    c: Seq<SlotSpec>,
    d: Seq<SlotSpec>,
    e: Seq<SlotSpec>,
)
    ensures
        v + a + b + c + d + e == v + (a + b + c + d + e),
{
    assert(v + a + b + c + d + e =~= v + (a + b + c + d + e));
}

/// The places in front of the layers.
pub fn head_list(t: &G4TextCfg) -> (r: Vec<Slot>)
    requires
        plan::sized(*t),
    ensures
        views(r@) == head_slots(*t),
        forall|i: int| 0 <= i < r@.len() ==> named(#[trigger] r@[i]@),
{
    let mut v: Vec<Slot> = Vec::new();
    proof {
        plan::lemma_sized(*t);
        assert(views(v@) =~= Seq::empty());
    }
    add_in_lm(
        &mut v,
        "embed_tokens.weight",
        Need::Embedding { vocab: t.vocab, hidden: t.hidden },
    );
    add_in_lm(&mut v, "norm.weight", Need::Norm { len: t.hidden });
    if t.ple_dim > 0 {
        let slab: usize = t.n_layers * t.ple_dim;
        add_in_lm(
            &mut v,
            "embed_tokens_per_layer.weight",
            Need::HostTable { rows: t.ple_vocab, cols: slab },
        );
        add_in_lm(
            &mut v,
            "per_layer_model_projection.weight",
            Need::Linear { n_out: slab, n_in: t.hidden },
        );
        add_in_lm(&mut v, "per_layer_projection_norm.weight", Need::Norm { len: t.ple_dim });
    }
    assert(views(v@) =~= head_slots(*t));
    assert forall|i: int| 0 <= i < v@.len() implies named(#[trigger] v@[i]@) by {
        assert(views(v@)[i] == v@[i]@);
        assert(head_slots(*t)[i].need != Need::Scalar);
    }
    v
}

/// The places of the text model, in the order in which they are filled.
pub fn text_slots(t: &G4TextCfg, plans: &Vec<LayerPlan>) -> (r: Vec<Slot>)
    requires
        plan::sized(*t),
        plans@.len() == t.n_layers,
    ensures
        views(r@) == slots(*t, plans@, t.n_layers as int),
{
    let mut v: Vec<Slot> = head_list(t);
    let mut i: usize = 0;
    while i < t.n_layers
        invariant
            i <= t.n_layers,
            plans@.len() == t.n_layers,
            views(v@) == slots(*t, plans@, i as int),
        decreases t.n_layers - i,
    {
        add_layer(&mut v, t, &plans[i], i);
        i = i + 1;
    }
    v
}

/// Why a place of the graph cannot be filled.
#[derive(Clone, Copy, PartialEq, Eq, Debug, Structural)]
pub enum SlotError {
    Index(IndexError),
    EmbeddingShape,
    TableShape,
    TableType { dtype: DType },
    NoKeyProjection,
}

/// The other name of a layer's scalar.
pub open spec fn scalar_alt(name: Seq<char>) -> Seq<char> {
    name.take(name.len() - "layer_scalar"@.len()) + "layer_output_scale.weight"@
}

/// The entry of an optional scalar.
pub open spec fn scalar_entry(w: &LoadedWeights, name: Seq<char>) -> Option<int> {
    match index::resolve(w, name) {
        Some(i) => Some(i),
        None => index::resolve(w, scalar_alt(name)),
    }
}

/// Why the embedding table cannot be used.
pub open spec fn embedding_fault(
    w: &LoadedWeights,
    shift: u32,
    name: Seq<char>,
    vocab: usize,
    hidden: usize,
) -> Option<SlotError> {
    match index::resolve(w, name) {
        None => Some(SlotError::Index(IndexError::Missing)),
        Some(i) => if w.metas@[i].shape@ != seq![vocab, hidden] {
            Some(SlotError::EmbeddingShape)
        } else if tensor::is_block(w.metas@[i].dtype) {
            None
        } else {
            as_slot_error(index::dense_fault(w, shift, name, seq![vocab, hidden]))
        },
    }
}

/// Why the host cannot gather from a table.
pub open spec fn table_fault(w: &LoadedWeights, name: Seq<char>, rows: usize, cols: usize) -> Option<
    SlotError,
> {
    match index::resolve(w, name) {
        None => Some(SlotError::Index(IndexError::Missing)),
        Some(i) => {
            let dtype = w.metas@[i].dtype;
            if w.metas@[i].shape@ != seq![rows, cols] {
                Some(SlotError::TableShape)
            } else if dtype != DType::BF16 && dtype != DType::F16 && !tensor::is_block(dtype) {
                Some(SlotError::TableType { dtype })
            } else {
                None
            }
        },
    }
}

/// Why a scalar cannot be read.
pub open spec fn scalar_fault(w: &LoadedWeights, name: Seq<char>) -> Option<SlotError> {
    match scalar_entry(w, name) {
        Some(i) => if index::is_plain(w.metas@[i].dtype) {
            None
        } else {
            Some(SlotError::Index(IndexError::Unsupported { dtype: w.metas@[i].dtype }))
        },
        None => None,
    }
}

/// Why the place `s` cannot be filled.
pub open spec fn slot_fault(w: &LoadedWeights, shift: u32, s: SlotSpec) -> Option<SlotError> {
    match s.need {
        Need::Embedding { vocab, hidden } => embedding_fault(w, shift, s.name, vocab, hidden),
        Need::HostTable { rows, cols } => table_fault(w, s.name, rows, cols),
        Need::Norm { len } => as_slot_error(index::dense_fault(w, shift, s.name, seq![len])),
        Need::Linear { n_out, n_in } => as_slot_error(
            index::linear_fault(w, shift, s.name, n_out, n_in),
        ),
        Need::Present => if index::resolve(w, s.name) is None {
            Some(SlotError::NoKeyProjection)
        } else {
            None
        },
        Need::Scalar => scalar_fault(w, s.name),
    }
}

pub open spec fn as_slot_error(e: Option<IndexError>) -> Option<SlotError> {
    match e {
        Some(x) => Some(SlotError::Index(x)),
        None => None,
    }
}

/// The entry that fills the place `s`; only a scalar may be absent.
pub open spec fn slot_entry(w: &LoadedWeights, s: SlotSpec) -> Option<int> {
    if s.need == Need::Scalar {
        scalar_entry(w, s.name)
    } else {
        index::resolve(w, s.name)
    }
}

fn wrap_index(r: Result<usize, IndexError>) -> (o: Result<Option<usize>, SlotError>)
    ensures
        o == (match r {
            Ok(i) => Ok::<Option<usize>, SlotError>(Some(i)),
            Err(e) => Err::<Option<usize>, SlotError>(SlotError::Index(e)),
        }),
{
    match r {
        Ok(i) => Ok(Some(i)),
        Err(e) => Err(SlotError::Index(e)),
    }
}

pub(crate) fn alt_name(name: &str) -> (r: String)
    requires
        name@.len() >= "layer_scalar"@.len(),
    ensures
        r@ == scalar_alt(name@),
{
    let c: Vec<char> = text::to_chars(name);
    proof {
        reveal_strlit("layer_scalar");
    }
    let mut s: String = text::to_string_range(&c, 0, c.len() - 12);
    assert(s@ =~= name@.take(name@.len() - 12));
    s.append("layer_output_scale.weight");
    s
}

/// The names of scalar slots end in `layer_scalar`.
pub open spec fn named(s: SlotSpec) -> bool {
    s.need == Need::Scalar ==> s.name.len() >= "layer_scalar"@.len()
}

/// A finding about the entry of `name`.
pub open spec fn found(
    r: Result<Option<usize>, SlotError>,
    fault: Option<SlotError>,
    entry: Option<int>,
) -> bool {
    match r {
        Ok(e) => fault is None && match e {
            Some(i) => entry == Some(i as int),
            None => entry is None,
        },
        Err(e) => fault == Some(e),
    }
}

impl<'a, 'b> G4Index<'a, 'b> {
    fn check_embedding(&self, name: &str, vocab: usize, hidden: usize) -> (r: Result<
        Option<usize>,
        SlotError,
    >)
        requires
            self.weights.wf(),
            index::sized(self.weights),
        ensures
            found(
                r,
                embedding_fault(self.weights, self.norm_shift, name@, vocab, hidden),
                index::resolve(self.weights, name@),
            ),
    {
        let i: usize = match self.meta(name) {
            Ok(i) => i,
            Err(e) => {
                return Err(SlotError::Index(e));
            },
        };
        let mut expect: Vec<usize> = Vec::new();
        expect.push(vocab);
        expect.push(hidden);
        proof {
            assert(expect@ =~= seq![vocab, hidden]);
            index::lemma_pair_is_small(vocab, hidden);
        }
        if !index::same_shape(self.weights.metas[i].shape.as_slice(), expect.as_slice()) {
            return Err(SlotError::EmbeddingShape);
        }
        if is_gguf_block(self.weights.metas[i].dtype) {
            return Ok(Some(i));
        }
        wrap_index(self.check_dense(name, expect.as_slice()))
    }

    fn check_table(&self, name: &str, rows: usize, cols: usize) -> (r: Result<
        Option<usize>,
        SlotError,
    >)
        requires
            self.weights.wf(),
        ensures
            found(
                r,
                table_fault(self.weights, name@, rows, cols),
                index::resolve(self.weights, name@),
            ),
    {
        let i: usize = match self.meta(name) {
            Ok(i) => i,
            Err(e) => {
                return Err(SlotError::Index(e));
            },
        };
        let mut expect: Vec<usize> = Vec::new();
        expect.push(rows);
        expect.push(cols);
        assert(expect@ =~= seq![rows, cols]);
        if !index::same_shape(self.weights.metas[i].shape.as_slice(), expect.as_slice()) {
            return Err(SlotError::TableShape);
        }
        let dtype: DType = self.weights.metas[i].dtype;
        if dtype != DType::BF16 && dtype != DType::F16 && !is_gguf_block(dtype) {
            return Err(SlotError::TableType { dtype });
        }
        Ok(Some(i))
    }

    fn check_norm(&self, name: &str, len: usize) -> (r: Result<Option<usize>, SlotError>)
        requires
            self.weights.wf(),
            index::sized(self.weights),
        ensures
            found(
                r,
                as_slot_error(
                    index::dense_fault(self.weights, self.norm_shift, name@, seq![len]),
                ),
                index::resolve(self.weights, name@),
            ),
    {
        let mut expect: Vec<usize> = Vec::new();
        expect.push(len);
        proof {
            assert(expect@ =~= seq![len]);
            let t = seq![len].skip(1);
            assert forall|i: int| 0 <= i <= 0 implies #[trigger] tensor::product(t.take(i))
                <= usize::MAX by {
                assert(t.take(0).len() == 0);
            }
        }
        wrap_index(self.check_dense(name, expect.as_slice()))
    }

    fn check_scalar(&self, name: &str) -> (r: Result<Option<usize>, SlotError>)
        requires
            self.weights.wf(),
            name@.len() >= "layer_scalar"@.len(),
        ensures
            found(r, scalar_fault(self.weights, name@), scalar_entry(self.weights, name@)),
    {
        let entry: Option<usize> = match self.meta(name) {
            Ok(i) => Some(i),
            Err(_) => {
                let alt: String = alt_name(name);
                match self.meta(alt.as_str()) {
                    Ok(i) => Some(i),
                    Err(_) => None,
                }
            },
        };
        match entry {
            None => Ok(None),
            Some(i) => {
                let dtype: DType = self.weights.metas[i].dtype;
                assert(dtype == self.weights.metas@[i as int].dtype);
                match dtype {
                    DType::F32 | DType::F16 | DType::BF16 => Ok(Some(i)),
                    other => Err(SlotError::Index(IndexError::Unsupported { dtype: other })),
                }
            },
        }
    }

    /// Checks that a place can be filled, and finds the entry for it.
    pub fn check_slot(&self, s: &Slot) -> (r: Result<Option<usize>, SlotError>)
        requires
            self.weights.wf(),
            index::sized(self.weights),
            index::sound_states(self.weights),
            named(s@),
        ensures
            found(
                r,
                slot_fault(self.weights, self.norm_shift, s@),
                slot_entry(self.weights, s@),
            ),
    {
        let name: &str = s.name.as_str();
        match s.need {
            Need::Embedding { vocab, hidden } => self.check_embedding(name, vocab, hidden),
            Need::HostTable { rows, cols } => self.check_table(name, rows, cols),
            Need::Norm { len } => self.check_norm(name, len),
            Need::Linear { n_out, n_in } => wrap_index(self.check_linear(name, n_out, n_in)),
            Need::Present => match self.meta(name) {
                Ok(i) => Ok(Some(i)),
                Err(_) => Err(SlotError::NoKeyProjection),
            },
            Need::Scalar => self.check_scalar(name),
        }
    }
}

pub proof fn lemma_layer_name_len(i: int, s: Seq<char>)
    ensures
        layer_name(i, s).len() >= s.len(),
{
}

/// Scalars are asked for under names of their own.
pub proof fn lemma_named(t: G4TextCfg, plans: Seq<LayerPlan>, n: int)
    requires
        n >= 0,
    ensures
        forall|k: int| 0 <= k < slots(t, plans, n).len() ==> named(#[trigger] slots(t, plans, n)[k]),
    decreases n,
{
    if n == 0 {
        assert forall|k: int| 0 <= k < slots(t, plans, 0).len() implies named(
            #[trigger] slots(t, plans, 0)[k],
        ) by {
            assert(head_slots(t)[k].need != Need::Scalar);
        }
    } else {
        lemma_named(t, plans, n - 1);
        let a = slots(t, plans, n - 1);
        let b = layer_slots(t, plans[n - 1], n - 1);
        assert forall|k: int| 0 <= k < (a + b).len() implies named(#[trigger] (a + b)[k]) by {
            if k < a.len() {
                assert((a + b)[k] == a[k]);
            } else {
                assert((a + b)[k] == b[k - a.len()]);
                lemma_named_layer(t, plans[n - 1], n - 1, k - a.len());
            }
        }
    }
}

proof fn lemma_named_layer(t: G4TextCfg, p: LayerPlan, i: int, k: int)
    requires
        0 <= k < layer_slots(t, p, i).len(),
    ensures
        named(layer_slots(t, p, i)[k]),
{
    let (a, b, c, d, e) = (
        probe_slots(p, i),
        front_slots(t, p, i),
        kv_slots(t, p, i),
        back_slots(t, p, i),
        ple_slots(t, i),
    );
    lemma_layer_name_len(i, "layer_scalar"@);
    let s = layer_slots(t, p, i)[k];
    if k < a.len() {
        assert(s == a[k]);
    } else if k < a.len() + b.len() {
        assert(s == b[k - a.len()]);
    } else if k < a.len() + b.len() + c.len() {
        assert(s == c[k - a.len() - b.len()]);
    } else if k < a.len() + b.len() + c.len() + d.len() {
        assert(s == d[k - a.len() - b.len() - c.len()]);
    } else {
        assert(s == e[k - a.len() - b.len() - c.len() - d.len()]);
    }
}

/// The names that are written out in full.
pub proof fn lemma_lm_names()
    ensures
        "language_model.rope_freqs.weight"@ == lm("rope_freqs.weight"@),
        "language_model.embed_tokens.weight"@ == lm("embed_tokens.weight"@),
{
    reveal_strlit("language_model.");
    reveal_strlit("rope_freqs.weight");
    reveal_strlit("embed_tokens.weight");
    reveal_strlit("language_model.rope_freqs.weight");
    reveal_strlit("language_model.embed_tokens.weight");
    assert("language_model.rope_freqs.weight"@ =~= lm("rope_freqs.weight"@));
    assert("language_model.embed_tokens.weight"@ =~= lm("embed_tokens.weight"@));
}

} // verus!
