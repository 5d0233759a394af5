//! Bidirectional encoders for images and sound that feed the dense decoder.
use vstd::prelude::*;

use crate::models::transformer::config::{EncoderConfig, ModelConfig};
use crate::models::transformer::forecast;
use crate::models::transformer::graph;
use crate::models::transformer::graph::{PlaceError, WeightIndex};
use crate::quant::gguf::GgufCodec;
use crate::tensor::{DType, TensorMeta};
use crate::text;
use crate::weights::LoadedWeights;

pub mod computes;
pub mod encode;

verus! {

/// Which front end a tower has.
#[derive(Clone, Copy, PartialEq, Eq, Debug, Structural)]
pub enum TowerKind {
    /// Patches of an image.
    Vision,
    /// Frames of a mel spectrogram.
    Audio,
}

/// Names as sequences of characters.
pub open spec fn strs(v: Seq<&str>) -> Seq<Seq<char>> {
    Seq::new(v.len(), |i: int| v[i]@)
}

/// Where the tensors of a tower may live.
pub open spec fn prefixes(kind: TowerKind) -> Seq<Seq<char>> {
    match kind {
        TowerKind::Vision => seq![
            "vision_tower.vision_model."@,
            "model.vision_tower.vision_model."@,
            "visual."@,
            "vision_model."@,
        ],
        TowerKind::Audio => seq!["audio_tower."@, "model.audio_tower."@, "audio_model."@],
    }
}

fn prefixes_of(kind: TowerKind) -> (r: Vec<&'static str>)
    ensures
        strs(r@) == prefixes(kind),
{
    let mut v: Vec<&'static str> = Vec::new();
    match kind {
        TowerKind::Vision => {
            v.push("vision_tower.vision_model.");
            v.push("model.vision_tower.vision_model.");
            v.push("visual.");
            v.push("vision_model.");
        },
        TowerKind::Audio => {
            v.push("audio_tower.");
            v.push("model.audio_tower.");
            v.push("audio_model.");
        },
    }
    assert(strs(v@) =~= prefixes(kind));
    v
}

/// The first of the suffixes from `j` on that names a tensor behind `prefix`.
pub open spec fn under(w: &LoadedWeights, prefix: Seq<char>, ss: Seq<Seq<char>>, j: int) -> Option<int>
    decreases ss.len() - j,
{
    if j < 0 || j >= ss.len() {
        None
    } else {
        match graph::resolve(w, prefix + ss[j]) {
            Some(i) => Some(i),
            None => under(w, prefix, ss, j + 1),
        }
    }
}

/// The first hit over all prefixes from `i` on.
pub open spec fn find_from(w: &LoadedWeights, ps: Seq<Seq<char>>, ss: Seq<Seq<char>>, i: int) -> Option<
    int,
>
    decreases ps.len() - i,
{
    if i < 0 || i >= ps.len() {
        None
    } else {
        match under(w, ps[i], ss, 0) {
            Some(k) => Some(k),
            None => find_from(w, ps, ss, i + 1),
        }
    }
}

/// How layers are called: each name in three layouts.
pub open spec fn layer_suffixes(l: int, names: Seq<Seq<char>>) -> Seq<Seq<char>> {
    Seq::new(
        names.len() * 3,
        |i: int|
            {
                let n = names[i / 3];
                if i % 3 == 0 {
                    "encoder.layers."@ + text::numeral(l) + "."@ + n
                } else if i % 3 == 1 {
                    "blocks."@ + text::numeral(l) + "."@ + n
                } else {
                    "layers."@ + text::numeral(l) + "."@ + n
                }
            },
    )
}

/// What a place of a tower asks for.
#[derive(Clone, Copy, PartialEq, Eq, Debug, Structural)]
pub enum Need {
    /// There is such a tensor.
    Found,
    /// There is such a tensor, of this many elements.
    Elements(usize),
    Required,
    Optional,
}

/// A place of a tower: the names it may have, in a layer or not.
pub struct EncPlace {
    pub names: Vec<&'static str>,
    pub layer: Option<usize>,
    pub need: Need,
}

/// What an [`EncPlace`] is, mathematically.
pub struct EncPlaceSpec {
    pub suffixes: Seq<Seq<char>>,
    pub need: Need,
}

impl View for EncPlace {
    type V = EncPlaceSpec;

    open spec fn view(&self) -> EncPlaceSpec {
        EncPlaceSpec {
            suffixes: match self.layer {
                Some(l) => layer_suffixes(l as int, strs(self.names@)),
                None => strs(self.names@),
            },
            need: self.need,
        }
    }
}

pub open spec fn views(v: Seq<EncPlace>) -> Seq<EncPlaceSpec> {
    Seq::new(v.len(), |i: int| v[i]@)
}

/// Why a tower cannot be built.
#[derive(Clone, Copy, PartialEq, Eq, Debug, Structural)]
pub enum TowerError {
    /// The heads do not divide the hidden size.
    Heads { hidden: usize, heads: usize },
    /// Place `index` cannot be filled.
    Place { index: usize, error: PlaceError },
    /// Place `index` has another number of elements.
    Elements { index: usize, got: usize, want: usize },
    NoProjector,
    Projector(PlaceError),
}

/// What stops entry `i` from being uploaded.
pub open spec fn entry_fault(w: &LoadedWeights, codec: GgufCodec, i: int) -> Option<PlaceError> {
    if w.metas@[i].dtype == DType::U8 {
        Some(PlaceError::Unsupported { dtype: DType::U8 })
    } else {
        graph::codec_fault(w, codec, i)
    }
}

/// What stops place `k`.
pub open spec fn enc_fault(
    w: &LoadedWeights,
    codec: GgufCodec,
    kind: TowerKind,
    s: EncPlaceSpec,
    k: int,
) -> Option<TowerError> {
    let index = k as usize;
    match find_from(w, prefixes(kind), s.suffixes, 0) {
        None => if s.need == Need::Optional {
            None
        } else {
            Some(TowerError::Place { index, error: PlaceError::Missing })
        },
        Some(i) => match s.need {
            Need::Found => None,
            Need::Elements(want) => if w.metas@[i].count() != want {
                Some(TowerError::Elements { index, got: w.metas@[i].count() as usize, want })
            } else {
                None
            },
            _ => match entry_fault(w, codec, i) {
                Some(error) => Some(TowerError::Place { index, error }),
                None => None,
            },
        },
    }
}

/// The first of the first `n` places that cannot be filled.
pub open spec fn first_fault(
    w: &LoadedWeights,
    codec: GgufCodec,
    kind: TowerKind,
    ss: Seq<EncPlaceSpec>,
    n: int,
) -> Option<TowerError>
    decreases n,
{
    if n <= 0 {
        None
    } else {
        match first_fault(w, codec, kind, ss, n - 1) {
            Some(e) => Some(e),
            None => enc_fault(w, codec, kind, ss[n - 1], n - 1),
        }
    }
}

proof fn lemma_fault_stays(
    w: &LoadedWeights,
    codec: GgufCodec,
    kind: TowerKind,
    ss: Seq<EncPlaceSpec>,
    a: int,
    n: int,
)
    requires
        0 <= a <= n,
        first_fault(w, codec, kind, ss, a) is Some,
    ensures
        first_fault(w, codec, kind, ss, n) == first_fault(w, codec, kind, ss, a),
    decreases n - a,
{
    if a < n {
        lemma_fault_stays(w, codec, kind, ss, a, n - 1);
    }
}

fn suffixes_of(p: &EncPlace) -> (r: Vec<String>)
    ensures
        r@.len() == p@.suffixes.len(),
        forall|i: int| 0 <= i < r@.len() ==> #[trigger] r@[i]@ == p@.suffixes[i],
{
    let mut out: Vec<String> = Vec::new();
    let mut i: usize = 0;
    match p.layer {
        None => {
            while i < p.names.len()
                invariant
                    i <= p.names@.len(),
                    p.layer is None,
                    out@.len() == i,
                    forall|k: int| 0 <= k < i ==> #[trigger] out@[k]@ == p@.suffixes[k],
                decreases p.names@.len() - i,
            {
                out.push(p.names[i].to_owned());
                i = i + 1;
            }
        },
        Some(l) => {
            while i < p.names.len()
                invariant
                    i <= p.names@.len(),
                    p.layer == Some(l),
                    out@.len() == 3 * i,
                    forall|k: int| 0 <= k < 3 * i ==> #[trigger] out@[k]@ == p@.suffixes[k],
                decreases p.names@.len() - i,
            {
                out.push(in_layer("encoder.layers.", l, p.names[i]));
                out.push(in_layer("blocks.", l, p.names[i]));
                out.push(in_layer("layers.", l, p.names[i]));
                assert forall|k: int| 0 <= k < 3 * (i + 1) implies #[trigger] out@[k]@
                    == p@.suffixes[k] by {
                    if k >= 3 * i {
                        assert(k / 3 == i);
                        assert(k % 3 == k - 3 * i);
                    }
                }
                i = i + 1;
            }
        },
    }
    out
}

fn in_layer(front: &str, l: usize, name: &str) -> (r: String)
    ensures
        r@ == front@ + text::numeral(l as int) + "."@ + name@,
{
    let mut s: String = front.to_owned();
    text::push_number(&mut s, l);
    s.append(".");
    s.append(name);
    s
}

/// `r` is the entry that `want` names.
pub open spec fn finds(r: Option<usize>, want: Option<int>) -> bool {
    match r {
        Some(i) => want == Some(i as int),
        None => want is None,
    }
}

fn find(ix: &WeightIndex, ps: &Vec<&'static str>, ss: &Vec<String>, Ghost(want): Ghost<Seq<Seq<char>>>) -> (r:
    Option<usize>)
    requires
        ss@.len() == want.len(),
        forall|i: int| 0 <= i < ss@.len() ==> #[trigger] ss@[i]@ == want[i],
    ensures
        finds(r, find_from(ix.weights, strs(ps@), want, 0)),
        r matches Some(i) ==> i < ix.weights.metas@.len(),
{
    let ghost pp = strs(ps@);
    let mut i: usize = 0;
    while i < ps.len()
        invariant
            i <= ps@.len(),
            pp == strs(ps@),
            ss@.len() == want.len(),
            forall|k: int| 0 <= k < ss@.len() ==> #[trigger] ss@[k]@ == want[k],
            find_from(ix.weights, pp, want, 0) == find_from(ix.weights, pp, want, i as int),
        decreases ps@.len() - i,
    {
        assert(pp[i as int] == ps@[i as int]@);
        let mut j: usize = 0;
        while j < ss.len()
            invariant
                i < ps@.len(),
                j <= ss@.len(),
                pp == strs(ps@),
                pp[i as int] == ps@[i as int]@,
                ss@.len() == want.len(),
                forall|k: int| 0 <= k < ss@.len() ==> #[trigger] ss@[k]@ == want[k],
                find_from(ix.weights, pp, want, 0) == find_from(ix.weights, pp, want, i as int),
                under(ix.weights, pp[i as int], want, 0) == under(
                    ix.weights,
                    pp[i as int],
                    want,
                    j as int,
                ),
            decreases ss@.len() - j,
        {
            let name: String = text::join(ps[i], ss[j].as_str());
            assert(ss@[j as int]@ == want[j as int]);
            match ix.meta(name.as_str()) {
                Ok(k) => {
                    return Some(k);
                },
                Err(_) => {},
            }
            j = j + 1;
        }
        i = i + 1;
    }
    None
}

fn check_entry(ix: &WeightIndex, i: usize) -> (r: Result<(), PlaceError>)
    requires
        ix.weights.wf(),
        forecast::countable(ix.weights),
        i < ix.weights.metas@.len(),
    ensures
        match r {
            Ok(_) => entry_fault(ix.weights, *ix.codec, i as int) is None,
            Err(e) => entry_fault(ix.weights, *ix.codec, i as int) == Some(e),
        },
{
    match ix.weights.metas[i].dtype {
        DType::U8 => {
            return Err(PlaceError::Unsupported { dtype: DType::U8 });
        },
        _ => {},
    }
    ix.codec_check(i)
}

fn check_place(ix: &WeightIndex, ps: &Vec<&'static str>, kind: TowerKind, p: &EncPlace, k: usize) -> (r:
    Result<Option<usize>, TowerError>)
    requires
        ix.weights.wf(),
        forecast::countable(ix.weights),
        strs(ps@) == prefixes(kind),
    ensures
        match r {
            Ok(o) => enc_fault(ix.weights, *ix.codec, kind, p@, k as int) is None && finds(
                o,
                find_from(ix.weights, prefixes(kind), p@.suffixes, 0),
            ),
            Err(e) => enc_fault(ix.weights, *ix.codec, kind, p@, k as int) == Some(e),
        },
{
    let ss: Vec<String> = suffixes_of(p);
    let found: Option<usize> = find(ix, ps, &ss, Ghost(p@.suffixes));
    let i: usize = match found {
        Some(i) => i,
        None => {
            return match p.need {
                Need::Optional => Ok(None),
                _ => Err(TowerError::Place { index: k, error: PlaceError::Missing }),
            };
        },
    };
    let m: &TensorMeta = &ix.weights.metas[i];
    assert(*m == ix.weights.metas@[i as int]);
    match p.need {
        Need::Found => Ok(Some(i)),
        Need::Elements(want) => {
            let got: usize = m.numel();
            if got != want {
                return Err(TowerError::Elements { index: k, got, want });
            }
            Ok(Some(i))
        },
        _ => match check_entry(ix, i) {
            Ok(_) => Ok(Some(i)),
            Err(error) => Err(TowerError::Place { index: k, error }),
        },
    }
}

/// The entries of all places, as far as the checkpoint has them.
pub open spec fn entries_are(
    v: Seq<Option<usize>>,
    w: &LoadedWeights,
    kind: TowerKind,
    ss: Seq<EncPlaceSpec>,
) -> bool {
    &&& v.len() == ss.len()
    &&& forall|i: int|
        0 <= i < v.len() ==> finds(
            #[trigger] v[i],
            find_from(w, prefixes(kind), ss[i].suffixes, 0),
        )
}

fn check_places(ix: &WeightIndex, kind: TowerKind, ss: &Vec<EncPlace>) -> (r: Result<
    Vec<Option<usize>>,
    TowerError,
>)
    requires
        ix.weights.wf(),
        forecast::countable(ix.weights),
    ensures
        match r {
            Ok(v) => {
                &&& first_fault(ix.weights, *ix.codec, kind, views(ss@), ss@.len() as int) is None
                &&& entries_are(v@, ix.weights, kind, views(ss@))
            },
            Err(e) => first_fault(ix.weights, *ix.codec, kind, views(ss@), ss@.len() as int)
                == Some(e),
        },
{
    let ps: Vec<&'static str> = prefixes_of(kind);
    let ghost vs = views(ss@);
    let mut out: Vec<Option<usize>> = Vec::new();
    let mut i: usize = 0;
    while i < ss.len()
        invariant
            i <= ss@.len(),
            vs == views(ss@),
            strs(ps@) == prefixes(kind),
            ix.weights.wf(),
            forecast::countable(ix.weights),
            first_fault(ix.weights, *ix.codec, kind, vs, i as int) is None,
            out@.len() == i,
            forall|k: int|
                0 <= k < i ==> finds(
                    #[trigger] out@[k],
                    find_from(ix.weights, prefixes(kind), vs[k].suffixes, 0),
                ),
        decreases ss@.len() - i,
    {
        assert(vs[i as int] == ss@[i as int]@);
        match check_place(ix, &ps, kind, &ss[i], i) {
            Ok(o) => {
                out.push(o);
            },
            Err(e) => {
                proof {
                    lemma_fault_stays(
                        ix.weights,
                        *ix.codec,
                        kind,
                        vs,
                        i + 1,
                        ss@.len() as int,
                    );
                }
                return Err(e);
            },
        }
        i = i + 1;
    }
    Ok(out)
}

pub open spec fn top(names: Seq<Seq<char>>, need: Need) -> EncPlaceSpec {
    EncPlaceSpec { suffixes: names, need }
}

pub open spec fn inner(l: int, names: Seq<Seq<char>>, need: Need) -> EncPlaceSpec {
    EncPlaceSpec { suffixes: layer_suffixes(l, names), need }
}

/// The front end.
pub open spec fn front_places(ec: EncoderConfig, kind: TowerKind) -> Seq<EncPlaceSpec> {
    match kind {
        TowerKind::Vision => {
            let w = seq!["embeddings.patch_embedding.weight"@, "patch_embed.proj.weight"@];
            let b = seq!["embeddings.patch_embedding.bias"@, "patch_embed.proj.bias"@];
            seq![
                top(
                    w,
                    Need::Elements(
                        (ec.hidden_size * 3 * ec.patch_size * ec.patch_size) as usize,
                    ),
                ),
                top(w, Need::Required),
                top(b, Need::Optional),
            ]
        },
        TowerKind::Audio => seq![
            top(
                seq!["conv1.weight"@],
                Need::Elements((ec.hidden_size * ec.patch_size * 3) as usize),
            ),
            top(seq!["conv2.weight"@], Need::Found),
            top(seq!["conv1.weight"@], Need::Required),
            top(seq!["conv1.bias"@], Need::Optional),
            top(seq!["conv2.weight"@], Need::Required),
            top(seq!["conv2.bias"@], Need::Optional),
        ],
    }
}

/// Layer `l`. Keys may go without a bias.
pub open spec fn layer_places(l: int) -> Seq<EncPlaceSpec> {
    seq![
        inner(l, seq!["layer_norm1.weight"@, "self_attn_layer_norm.weight"@, "norm1.weight"@], Need::Required),
        inner(l, seq!["layer_norm1.bias"@, "self_attn_layer_norm.bias"@, "norm1.bias"@], Need::Required),
        inner(l, seq!["self_attn.q_proj.weight"@, "attn.q_proj.weight"@], Need::Required),
        inner(l, seq!["self_attn.q_proj.bias"@, "attn.q_proj.bias"@], Need::Required),
        inner(l, seq!["self_attn.k_proj.weight"@, "attn.k_proj.weight"@], Need::Required),
        inner(l, seq!["self_attn.k_proj.bias"@, "attn.k_proj.bias"@], Need::Optional),
        inner(l, seq!["self_attn.v_proj.weight"@, "attn.v_proj.weight"@], Need::Required),
        inner(l, seq!["self_attn.v_proj.bias"@, "attn.v_proj.bias"@], Need::Required),
        inner(l, seq!["self_attn.out_proj.weight"@, "attn.proj.weight"@, "self_attn.o_proj.weight"@], Need::Required),
        inner(l, seq!["self_attn.out_proj.bias"@, "attn.proj.bias"@, "self_attn.o_proj.bias"@], Need::Required),
        inner(l, seq!["layer_norm2.weight"@, "final_layer_norm.weight"@, "norm2.weight"@], Need::Required),
        inner(l, seq!["layer_norm2.bias"@, "final_layer_norm.bias"@, "norm2.bias"@], Need::Required),
        inner(l, seq!["mlp.fc1.weight"@, "fc1.weight"@], Need::Required),
        inner(l, seq!["mlp.fc1.bias"@, "fc1.bias"@], Need::Required),
        inner(l, seq!["mlp.fc2.weight"@, "fc2.weight"@], Need::Required),
        inner(l, seq!["mlp.fc2.bias"@, "fc2.bias"@], Need::Required),
    ]
}

/// The front end and the first `n` layers.
pub open spec fn inner_places(ec: EncoderConfig, kind: TowerKind, n: int) -> Seq<EncPlaceSpec>
    decreases n,
{
    if n <= 0 {
        front_places(ec, kind)
    } else {
        inner_places(ec, kind, n - 1) + layer_places(n - 1)
    }
}

/// Positions, class token and outer norms.
pub open spec fn outer_places() -> Seq<EncPlaceSpec> {
    seq![
        top(seq!["embeddings.position_embedding.weight"@, "embed_positions.weight"@, "pos_embed"@], Need::Optional),
        top(seq!["embeddings.class_embedding"@], Need::Optional),
        top(seq!["pre_layrnorm.weight"@, "pre_layernorm.weight"@], Need::Optional),
        top(seq!["pre_layrnorm.bias"@, "pre_layernorm.bias"@], Need::Optional),
        top(seq!["post_layernorm.weight"@, "layer_norm.weight"@], Need::Optional),
        top(seq!["post_layernorm.bias"@, "layer_norm.bias"@], Need::Optional),
    ]
}

pub open spec fn all_places(ec: EncoderConfig, kind: TowerKind) -> Seq<EncPlaceSpec> {
    inner_places(ec, kind, ec.n_layers as int) + outer_places()
}

fn two(a: &'static str, b: &'static str) -> (r: Vec<&'static str>)
    ensures
        strs(r@) == seq![a@, b@],
{
    let mut v: Vec<&'static str> = Vec::new();
    v.push(a);
    v.push(b);
    assert(strs(v@) =~= seq![a@, b@]);
    v
}

fn three(a: &'static str, b: &'static str, c: &'static str) -> (r: Vec<&'static str>)
    ensures
        strs(r@) == seq![a@, b@, c@],
{
    let mut v: Vec<&'static str> = Vec::new();
    v.push(a);
    v.push(b);
    v.push(c);
    assert(strs(v@) =~= seq![a@, b@, c@]);
    v
}

fn one(a: &'static str) -> (r: Vec<&'static str>)
    ensures
        strs(r@) == seq![a@],
{
    let mut v: Vec<&'static str> = Vec::new();
    v.push(a);
    assert(strs(v@) =~= seq![a@]);
    v
}

fn add_top(v: &mut Vec<EncPlace>, names: Vec<&'static str>, need: Need)
    ensures
        views(final(v)@) == views(old(v)@).push(top(strs(names@), need)),
{
    let ghost before = v@;
    v.push(EncPlace { names, layer: None, need });
    assert(views(v@) =~= views(before).push(top(strs(names@), need)));
}

fn add_inner(v: &mut Vec<EncPlace>, l: usize, names: Vec<&'static str>, need: Need)
    ensures
        views(final(v)@) == views(old(v)@).push(inner(l as int, strs(names@), need)),
{
    let ghost before = v@;
    v.push(EncPlace { names, layer: Some(l), need });
    assert(views(v@) =~= views(before).push(inner(l as int, strs(names@), need)));
}

fn add_layer(v: &mut Vec<EncPlace>, l: usize)
    ensures
        views(final(v)@) == views(old(v)@) + layer_places(l as int),
{
    let ghost before = views(v@);
    add_inner(v, l, three("layer_norm1.weight", "self_attn_layer_norm.weight", "norm1.weight"), Need::Required);
    add_inner(v, l, three("layer_norm1.bias", "self_attn_layer_norm.bias", "norm1.bias"), Need::Required);
    add_inner(v, l, two("self_attn.q_proj.weight", "attn.q_proj.weight"), Need::Required);
    add_inner(v, l, two("self_attn.q_proj.bias", "attn.q_proj.bias"), Need::Required);
    add_inner(v, l, two("self_attn.k_proj.weight", "attn.k_proj.weight"), Need::Required);
    add_inner(v, l, two("self_attn.k_proj.bias", "attn.k_proj.bias"), Need::Optional);
    add_inner(v, l, two("self_attn.v_proj.weight", "attn.v_proj.weight"), Need::Required);
    add_inner(v, l, two("self_attn.v_proj.bias", "attn.v_proj.bias"), Need::Required);
    add_inner(v, l, three("self_attn.out_proj.weight", "attn.proj.weight", "self_attn.o_proj.weight"), Need::Required);
    add_inner(v, l, three("self_attn.out_proj.bias", "attn.proj.bias", "self_attn.o_proj.bias"), Need::Required);
    add_inner(v, l, three("layer_norm2.weight", "final_layer_norm.weight", "norm2.weight"), Need::Required);
    add_inner(v, l, three("layer_norm2.bias", "final_layer_norm.bias", "norm2.bias"), Need::Required);
    add_inner(v, l, two("mlp.fc1.weight", "fc1.weight"), Need::Required);
    add_inner(v, l, two("mlp.fc1.bias", "fc1.bias"), Need::Required);
    add_inner(v, l, two("mlp.fc2.weight", "fc2.weight"), Need::Required);
    add_inner(v, l, two("mlp.fc2.bias", "fc2.bias"), Need::Required);
    assert(views(v@) =~= before + layer_places(l as int));
}

fn add_front(v: &mut Vec<EncPlace>, ec: &EncoderConfig, kind: TowerKind)
    requires
        sized(*ec, kind, 0),
    ensures
        views(final(v)@) == views(old(v)@) + front_places(*ec, kind),
{
    let ghost before = views(v@);
    match kind {
        TowerKind::Vision => {
            let n: usize = ec.hidden_size * 3 * ec.patch_size * ec.patch_size;
            add_top(v, two("embeddings.patch_embedding.weight", "patch_embed.proj.weight"), Need::Elements(n));
            add_top(v, two("embeddings.patch_embedding.weight", "patch_embed.proj.weight"), Need::Required);
            add_top(v, two("embeddings.patch_embedding.bias", "patch_embed.proj.bias"), Need::Optional);
        },
        TowerKind::Audio => {
            let n: usize = ec.hidden_size * ec.patch_size * 3;
            add_top(v, one("conv1.weight"), Need::Elements(n));
            add_top(v, one("conv2.weight"), Need::Found);
            add_top(v, one("conv1.weight"), Need::Required);
            add_top(v, one("conv1.bias"), Need::Optional);
            add_top(v, one("conv2.weight"), Need::Required);
            add_top(v, one("conv2.bias"), Need::Optional);
        },
    }
    assert(views(v@) =~= before + front_places(*ec, kind));
}

fn places_of(ec: &EncoderConfig, kind: TowerKind) -> (r: Vec<EncPlace>)
    requires
        sized(*ec, kind, 0),
    ensures
        views(r@) == all_places(*ec, kind),
{
    let mut v: Vec<EncPlace> = Vec::new();
    add_front(&mut v, ec, kind);
    assert(views(v@) =~= inner_places(*ec, kind, 0));
    let mut l: usize = 0;
    while l < ec.n_layers
        invariant
            l <= ec.n_layers,
            views(v@) == inner_places(*ec, kind, l as int),
        decreases ec.n_layers - l,
    {
        add_layer(&mut v, l);
        l = l + 1;
    }
    let ghost before = views(v@);
    add_top(&mut v, three("embeddings.position_embedding.weight", "embed_positions.weight", "pos_embed"), Need::Optional);
    add_top(&mut v, one("embeddings.class_embedding"), Need::Optional);
    add_top(&mut v, two("pre_layrnorm.weight", "pre_layernorm.weight"), Need::Optional);
    add_top(&mut v, two("pre_layrnorm.bias", "pre_layernorm.bias"), Need::Optional);
    add_top(&mut v, two("post_layernorm.weight", "layer_norm.weight"), Need::Optional);
    add_top(&mut v, two("post_layernorm.bias", "layer_norm.bias"), Need::Optional);
    assert(views(v@) =~= before + outer_places());
    v
}

/// Rows that the largest input has.
pub open spec fn max_tokens(ec: EncoderConfig, kind: TowerKind) -> int {
    match kind {
        TowerKind::Vision => (ec.input_size as int / ec.patch_size as int) * (ec.input_size as int
            / ec.patch_size as int) + 1,
        TowerKind::Audio => ec.input_size as int,
    }
}

pub open spec fn max2(a: int, b: int) -> int {
    if a >= b {
        a
    } else {
        b
    }
}

pub open spec fn middle(ec: EncoderConfig, lm: int) -> int {
    max2(max2(lm, ec.hidden_size as int), ec.intermediate_size as int)
}

/// Elements of a staged row.
pub open spec fn stage_width(ec: EncoderConfig) -> int {
    max2(
        max2(3 * ec.patch_size * ec.patch_size, ec.patch_size * 3),
        ec.hidden_size * 3,
    )
}

/// The sizes that a tower needs are machine numbers.
pub open spec fn sized(ec: EncoderConfig, kind: TowerKind, lm: int) -> bool {
    let n = max_tokens(ec, kind);
    &&& ec.hidden_size * 3 <= usize::MAX
    &&& 3 * ec.patch_size * ec.patch_size <= usize::MAX
    &&& ec.patch_size * 3 <= usize::MAX
    &&& kind == TowerKind::Vision ==> ec.patch_size >= 1 && ec.hidden_size * 3 * ec.patch_size
        <= usize::MAX && ec.hidden_size * 3 * ec.patch_size * ec.patch_size <= usize::MAX
    &&& kind == TowerKind::Audio ==> ec.hidden_size * ec.patch_size <= usize::MAX && ec.hidden_size
        * ec.patch_size * 3 <= usize::MAX
    &&& n <= usize::MAX
    &&& n * middle(ec, lm) * 2 <= usize::MAX
    &&& n * ec.hidden_size * 2 <= usize::MAX
    &&& n * stage_width(ec) * 2 <= usize::MAX
}

/// The projector into the decoder: one or two linears.
#[derive(Clone, Copy, PartialEq, Eq, Debug, Structural)]
pub struct Projector {
    pub w1: usize,
    pub b1: Option<usize>,
    pub w2: Option<usize>,
    pub b2: Option<usize>,
}

/// A bias stands where its weight stands.
pub open spec fn bias_name(name: Seq<char>) -> Seq<char> {
    name.take(name.len() - ".weight"@.len()) + ".bias"@
}

fn bias_of(name: &str) -> (r: String)
    requires
        name@.len() >= ".weight"@.len(),
    ensures
        r@ == bias_name(name@),
{
    let c: Vec<char> = text::to_chars(name);
    proof {
        reveal_strlit(".weight");
    }
    let mut s: String = text::to_string_range(&c, 0, c.len() - 7);
    assert(s@ =~= name@.take(name@.len() - 7));
    s.append(".bias");
    s
}

pub open spec fn first_names() -> Seq<Seq<char>> {
    seq![
        "multi_modal_projector.linear_1.weight"@,
        "multi_modal_projector.linear.weight"@,
        "mm_projector.0.weight"@,
        "merger.mlp.0.weight"@,
    ]
}

pub open spec fn second_names() -> Seq<Seq<char>> {
    seq![
        "multi_modal_projector.linear_2.weight"@,
        "mm_projector.2.weight"@,
        "merger.mlp.2.weight"@,
    ]
}

/// The first name from `j` on that a tensor has.
pub open spec fn first_named(w: &LoadedWeights, names: Seq<Seq<char>>, j: int) -> Option<int>
    decreases names.len() - j,
{
    if j < 0 || j >= names.len() {
        None
    } else if graph::resolve(w, names[j]) is Some {
        Some(j)
    } else {
        first_named(w, names, j + 1)
    }
}

fn name_of(ix: &WeightIndex, names: &Vec<&'static str>) -> (r: Option<usize>)
    ensures
        finds(r, first_named(ix.weights, strs(names@), 0)),
        r matches Some(j) ==> j < names@.len(),
{
    let mut j: usize = 0;
    while j < names.len()
        invariant
            j <= names@.len(),
            first_named(ix.weights, strs(names@), 0) == first_named(
                ix.weights,
                strs(names@),
                j as int,
            ),
        decreases names@.len() - j,
    {
        if ix.has(names[j]) {
            return Some(j);
        }
        j = j + 1;
    }
    None
}

/// What stops a tensor and its bias.
pub open spec fn pair_fault(w: &LoadedWeights, codec: GgufCodec, i: int, b: Option<int>) -> Option<
    PlaceError,
> {
    match entry_fault(w, codec, i) {
        Some(e) => Some(e),
        None => match b {
            Some(k) => entry_fault(w, codec, k),
            None => None,
        },
    }
}

/// What stops the projector.
pub open spec fn projector_fault(w: &LoadedWeights, codec: GgufCodec) -> Option<TowerError> {
    match first_named(w, first_names(), 0) {
        None => Some(TowerError::NoProjector),
        Some(j) => {
            let i = graph::resolve(w, first_names()[j])->0;
            match pair_fault(w, codec, i, graph::resolve(w, bias_name(w.metas@[i].name@))) {
                Some(e) => Some(TowerError::Projector(e)),
                None => match first_named(w, second_names(), 0) {
                    None => None,
                    Some(k) => {
                        let n = second_names()[k];
                        match pair_fault(
                            w,
                            codec,
                            graph::resolve(w, n)->0,
                            graph::resolve(w, bias_name(n)),
                        ) {
                            Some(e) => Some(TowerError::Projector(e)),
                            None => None,
                        }
                    },
                },
            }
        },
    }
}

/// The projector that a checkpoint has.
pub open spec fn is_projector(p: Projector, w: &LoadedWeights) -> bool {
    &&& first_named(w, first_names(), 0) matches Some(j) && graph::resolve(w, first_names()[j])
        == Some(p.w1 as int)
    &&& finds(p.b1, graph::resolve(w, bias_name(w.metas@[p.w1 as int].name@)))
    &&& match first_named(w, second_names(), 0) {
        None => p.w2 is None && p.b2 is None,
        Some(k) => finds(p.w2, graph::resolve(w, second_names()[k])) && finds(
            p.b2,
            graph::resolve(w, bias_name(second_names()[k])),
        ),
    }
}

fn optional(ix: &WeightIndex, name: &str) -> (r: Option<usize>)
    ensures
        finds(r, graph::resolve(ix.weights, name@)),
        r matches Some(i) ==> i < ix.weights.metas@.len(),
{
    match ix.meta(name) {
        Ok(i) => Some(i),
        Err(_) => None,
    }
}

fn check_pair(ix: &WeightIndex, i: usize, b: Option<usize>) -> (r: Result<(), PlaceError>)
    requires
        ix.weights.wf(),
        forecast::countable(ix.weights),
        i < ix.weights.metas@.len(),
        b matches Some(k) ==> k < ix.weights.metas@.len(),
    ensures
        ({
            let f = pair_fault(
                ix.weights,
                *ix.codec,
                i as int,
                match b {
                    Some(k) => Some(k as int),
                    None => None,
                },
            );
            match r {
                Ok(_) => f is None,
                Err(e) => f == Some(e),
            }
        }),
{
    check_entry(ix, i)?;
    match b {
        Some(k) => check_entry(ix, k),
        None => Ok(()),
    }
}

/// A tensor that is found under `name` has that name at its end.
proof fn lemma_resolved(w: &LoadedWeights, name: Seq<char>)
    ensures
        graph::resolve(w, name) matches Some(i) ==> w.metas@[i].name@.len() >= name.len(),
{
    crate::weights::lemma_position(w.metas@, name);
    crate::weights::lemma_position(w.metas@, "model."@ + name);
    crate::weights::lemma_position(w.metas@, "language_model.model."@ + name);
    crate::weights::lemma_position(w.metas@, "language_model."@ + name);
    crate::weights::lemma_position(w.metas@, "transformer."@ + name);
}

fn projector_of(ix: &WeightIndex) -> (r: Result<Projector, TowerError>)
    requires
        ix.weights.wf(),
        forecast::countable(ix.weights),
    ensures
        match r {
            Ok(p) => projector_fault(ix.weights, *ix.codec) is None && is_projector(p, ix.weights),
            Err(e) => projector_fault(ix.weights, *ix.codec) == Some(e),
        },
{
    let mut first: Vec<&'static str> = Vec::new();
    first.push("multi_modal_projector.linear_1.weight");
    first.push("multi_modal_projector.linear.weight");
    first.push("mm_projector.0.weight");
    first.push("merger.mlp.0.weight");
    assert(strs(first@) =~= first_names());
    let j: usize = match name_of(ix, &first) {
        Some(j) => j,
        None => {
            return Err(TowerError::NoProjector);
        },
    };
    assert(strs(first@)[j as int] == first@[j as int]@);
    proof {
        lemma_first_named(ix.weights, first_names(), 0);
        lemma_resolved(ix.weights, first_names()[j as int]);
        reveal_strlit(".weight");
        reveal_strlit("multi_modal_projector.linear_1.weight");
        reveal_strlit("multi_modal_projector.linear.weight");
        reveal_strlit("mm_projector.0.weight");
        reveal_strlit("merger.mlp.0.weight");
    }
    let w1: usize = match ix.meta(first[j]) {
        Ok(i) => i,
        Err(_) => {
            return Err(TowerError::NoProjector);
        },
    };
    assert(graph::resolve(ix.weights, first_names()[j as int]) == Some(w1 as int));
    assert(ix.weights.metas@[w1 as int].name@.len() >= 7);
    let bias: String = bias_of(ix.weights.metas[w1].name.as_str());
    let b1: Option<usize> = optional(ix, bias.as_str());
    match check_pair(ix, w1, b1) {
        Ok(_) => {},
        Err(e) => {
            return Err(TowerError::Projector(e));
        },
    }
    let second: Vec<&'static str> = three(
        "multi_modal_projector.linear_2.weight",
        "mm_projector.2.weight",
        "merger.mlp.2.weight",
    );
    let k: usize = match name_of(ix, &second) {
        Some(k) => k,
        None => {
            return Ok(Projector { w1, b1, w2: None, b2: None });
        },
    };
    assert(strs(second@)[k as int] == second@[k as int]@);
    proof {
        lemma_first_named(ix.weights, second_names(), 0);
        reveal_strlit("multi_modal_projector.linear_2.weight");
        reveal_strlit("mm_projector.2.weight");
        reveal_strlit("merger.mlp.2.weight");
    }
    let w2: usize = match ix.meta(second[k]) {
        Ok(i) => i,
        Err(_) => {
            return Ok(Projector { w1, b1, w2: None, b2: None });
        },
    };
    let bias2: String = bias_of(second[k]);
    let b2: Option<usize> = optional(ix, bias2.as_str());
    match check_pair(ix, w2, b2) {
        Ok(_) => {},
        Err(e) => {
            return Err(TowerError::Projector(e));
        },
    }
    Ok(Projector { w1, b1, w2: Some(w2), b2 })
}

proof fn lemma_first_named(w: &LoadedWeights, names: Seq<Seq<char>>, j: int)
    requires
        0 <= j,
    ensures
        first_named(w, names, j) matches Some(k) ==> j <= k < names.len() && graph::resolve(
            w,
            names[k],
        ) is Some,
    decreases names.len() - j,
{
    if j < names.len() && graph::resolve(w, names[j]) is None {
        lemma_first_named(w, names, j + 1);
    }
}

/// Sizes of the buffers, in bytes.
pub struct EncoderWs {
    pub x: usize,
    pub h: usize,
    pub q: usize,
    pub k: usize,
    pub v: usize,
    pub ff: usize,
    pub kc: usize,
    pub vc: usize,
    pub stage: usize,
}

/// A tower.
pub struct EncoderTower {
    pub kind: TowerKind,
    pub ec: EncoderConfig,
    pub head_dim: usize,
    pub places: Vec<EncPlace>,
    pub entries: Vec<Option<usize>>,
    pub projector: Projector,
    /// Rows of the largest input.
    pub max_tokens: usize,
    pub lm_hidden: usize,
    pub ws: EncoderWs,
}

pub open spec fn is_ws(w: EncoderWs, ec: EncoderConfig, kind: TowerKind, lm: int) -> bool {
    let n = max_tokens(ec, kind);
    let h = ec.hidden_size as int;
    &&& w.x == n * max2(h, lm) * 2
    &&& w.h == n * middle(ec, lm) * 2
    &&& w.q == n * h * 2
    &&& w.k == w.q
    &&& w.v == w.q
    &&& w.ff == w.h
    &&& w.kc == w.q
    &&& w.vc == w.q
    &&& w.stage == n * stage_width(ec) * 2
}

proof fn lemma_ws(ec: EncoderConfig, kind: TowerKind, lm: int)
    requires
        sized(ec, kind, lm),
        lm >= 0,
    ensures
        0 <= max_tokens(ec, kind),
        0 <= max_tokens(ec, kind) * max2(ec.hidden_size as int, lm) <= max_tokens(ec, kind)
            * middle(ec, lm),
        0 <= max_tokens(ec, kind) * ec.hidden_size,
        0 <= max_tokens(ec, kind) * stage_width(ec),
        kind == TowerKind::Vision ==> 0 <= (ec.input_size as int / ec.patch_size as int) * (
        ec.input_size as int / ec.patch_size as int),
{
    let n = max_tokens(ec, kind);
    if kind == TowerKind::Vision {
        let g = ec.input_size as int / ec.patch_size as int;
        vstd::arithmetic::div_mod::lemma_div_pos_is_pos(ec.input_size as int, ec.patch_size as int);
        assert(g * g >= 0) by (nonlinear_arith)
            requires
                g >= 0,
        ;
    }
    let (a, b, h, s) = (
        max2(ec.hidden_size as int, lm),
        middle(ec, lm),
        ec.hidden_size as int,
        stage_width(ec),
    );
    assert(0 <= n * a <= n * b && 0 <= n * h && 0 <= n * s) by (nonlinear_arith)
        requires
            n >= 0,
            0 <= a <= b,
            h >= 0,
            s >= 0,
    ;
}

fn larger(a: usize, b: usize) -> (r: usize)
    ensures
        r == max2(a as int, b as int),
{
    if a >= b {
        a
    } else {
        b
    }
}

fn workspace(ec: &EncoderConfig, n: usize, lm: usize, Ghost(kind): Ghost<TowerKind>) -> (r: EncoderWs)
    requires
        sized(*ec, kind, lm as int),
        n == max_tokens(*ec, kind),
    ensures
        is_ws(r, *ec, kind, lm as int),
{
    proof {
        lemma_ws(*ec, kind, lm as int);
        let p = ec.patch_size as int;
        assert(3 * p <= usize::MAX);
    }
    let h: usize = ec.hidden_size;
    let mid: usize = larger(larger(lm, h), ec.intermediate_size);
    let p: usize = ec.patch_size;
    let wide: usize = larger(larger(3 * p * p, p * 3), h * 3);
    let q: usize = n * h * 2;
    EncoderWs {
        x: n * larger(h, lm) * 2,
        h: n * mid * 2,
        q,
        k: q,
        v: q,
        ff: n * mid * 2,
        kc: q,
        vc: q,
        stage: n * wide * 2,
    }
}

/// What stops a tower.
pub open spec fn tower_fault(
    w: &LoadedWeights,
    codec: GgufCodec,
    ec: EncoderConfig,
    kind: TowerKind,
) -> Option<TowerError> {
    let ss = all_places(ec, kind);
    if head_width(ec) * ec.n_heads != ec.hidden_size {
        Some(TowerError::Heads { hidden: ec.hidden_size, heads: ec.n_heads })
    } else {
        match first_fault(w, codec, kind, ss, ss.len() as int) {
            Some(e) => Some(e),
            None => projector_fault(w, codec),
        }
    }
}

/// Width of a head; a tower without heads counts as one head.
pub open spec fn head_width(ec: EncoderConfig) -> int {
    ec.hidden_size as int / (if ec.n_heads > 1 {
        ec.n_heads as int
    } else {
        1
    })
}

/// The sizes that the towers of a model need are machine numbers.
pub open spec fn towers_sized(c: ModelConfig) -> bool {
    let lm = c.hidden_size as int;
    &&& c.vision matches Some(ec) ==> sized(ec, TowerKind::Vision, lm) && sized(
        ec,
        TowerKind::Vision,
        0,
    )
    &&& c.audio matches Some(ec) ==> sized(ec, TowerKind::Audio, lm) && sized(
        ec,
        TowerKind::Audio,
        0,
    )
}

/// What stops the towers that a configuration names, images before sound.
pub open spec fn towers_fault(c: ModelConfig, w: &LoadedWeights, codec: GgufCodec) -> Option<
    TowerError,
> {
    let seen = match c.vision {
        Some(ec) => tower_fault(w, codec, ec, TowerKind::Vision),
        None => None,
    };
    match (seen, c.audio) {
        (Some(e), _) => Some(e),
        (None, Some(ec)) => tower_fault(w, codec, ec, TowerKind::Audio),
        (None, None) => None,
    }
}

/// `t` is the tower of `ec`, if that is one.
pub open spec fn is_tower(
    t: Option<EncoderTower>,
    ec: Option<EncoderConfig>,
    w: &LoadedWeights,
    kind: TowerKind,
    lm: usize,
) -> bool {
    match (t, ec) {
        (Some(t), Some(ec)) => t.is_built(ec, w, kind, lm),
        (None, None) => true,
        _ => false,
    }
}

/// The towers of a dense decoder.
pub struct EncoderTowers {
    pub vision: Option<EncoderTower>,
    pub audio: Option<EncoderTower>,
}

impl EncoderTowers {
    /// Builds the towers that a configuration names and no other, or says what
    /// stops the first that cannot be built.
    pub fn build(c: &ModelConfig, ix: &WeightIndex) -> (r: Result<EncoderTowers, TowerError>)
        requires
            towers_sized(*c),
            ix.weights.wf(),
            forecast::countable(ix.weights),
        ensures
            match r {
                Ok(t) => {
                    &&& towers_fault(*c, ix.weights, *ix.codec) is None
                    &&& is_tower(t.vision, c.vision, ix.weights, TowerKind::Vision, c.hidden_size)
                    &&& is_tower(t.audio, c.audio, ix.weights, TowerKind::Audio, c.hidden_size)
                },
                Err(e) => towers_fault(*c, ix.weights, *ix.codec) == Some(e),
            },
    {
        let vision: Option<EncoderTower> = match &c.vision {
            Some(ec) => Some(EncoderTower::build(ec, ix, TowerKind::Vision, c.hidden_size)?),
            None => None,
        };
        let audio: Option<EncoderTower> = match &c.audio {
            Some(ec) => Some(EncoderTower::build(ec, ix, TowerKind::Audio, c.hidden_size)?),
            None => None,
        };
        Ok(EncoderTowers { vision, audio })
    }
}

impl EncoderTower {
    /// What a tower is built to.
    pub open spec fn is_built(
        &self,
        ec: EncoderConfig,
        w: &LoadedWeights,
        kind: TowerKind,
        lm_hidden: usize,
    ) -> bool {
        &&& self.kind == kind
        &&& self.ec == ec
        &&& self.head_dim == head_width(ec)
        &&& self.head_dim * ec.n_heads == ec.hidden_size
        &&& views(self.places@) == all_places(ec, kind)
        &&& entries_are(self.entries@, w, kind, views(self.places@))
        &&& is_projector(self.projector, w)
        &&& self.max_tokens == max_tokens(ec, kind)
        &&& self.lm_hidden == lm_hidden
        &&& is_ws(self.ws, ec, kind, lm_hidden as int)
    }

    /// Builds a tower and its projector, or says what stops it.
    pub fn build(ec: &EncoderConfig, ix: &WeightIndex, kind: TowerKind, lm_hidden: usize) -> (r: Result<
        EncoderTower,
        TowerError,
    >)
        requires
            sized(*ec, kind, lm_hidden as int),
            sized(*ec, kind, 0),
            ix.weights.wf(),
            forecast::countable(ix.weights),
        ensures
            match r {
                Ok(t) => tower_fault(ix.weights, *ix.codec, *ec, kind) is None && t.is_built(
                    *ec,
                    ix.weights,
                    kind,
                    lm_hidden,
                ),
                Err(e) => tower_fault(ix.weights, *ix.codec, *ec, kind) == Some(e),
            },
    {
        let heads: usize = larger(ec.n_heads, 1);
        let head_dim: usize = ec.hidden_size / heads;
        proof {
            vstd::arithmetic::div_mod::lemma_fundamental_div_mod(
                ec.hidden_size as int,
                heads as int,
            );
            vstd::arithmetic::div_mod::lemma_mod_bound(ec.hidden_size as int, heads as int);
            let (d, n) = (head_dim as int, ec.n_heads as int);
            assert(0 <= d * n && d * n <= d * heads) by (nonlinear_arith)
                requires
                    d >= 0,
                    0 <= n <= heads,
            ;
            assert(d * heads == heads * d) by (nonlinear_arith);
        }
        if head_dim * ec.n_heads != ec.hidden_size {
            return Err(TowerError::Heads { hidden: ec.hidden_size, heads: ec.n_heads });
        }
        let places: Vec<EncPlace> = places_of(ec, kind);
        let entries: Vec<Option<usize>> = check_places(ix, kind, &places)?;
        let projector: Projector = projector_of(ix)?;
        proof {
            lemma_ws(*ec, kind, lm_hidden as int);
        }
        let n: usize = match kind {
            TowerKind::Vision => {
                let g: usize = ec.input_size / ec.patch_size;
                g * g + 1
            },
            TowerKind::Audio => ec.input_size,
        };
        let ws: EncoderWs = workspace(ec, n, lm_hidden, Ghost(kind));
        Ok(
            EncoderTower {
                kind,
                ec: *ec,
                head_dim,
                places,
                entries,
                projector,
                max_tokens: n,
                lm_hidden,
                ws,
            },
        )
    }

    /// Width between the two linears of the projector: what the first takes on
    /// the device, over the rows of the tower.
    pub fn projector_width(&self, ix: &WeightIndex) -> (r: usize)
        requires
            forecast::countable(ix.weights),
            self.projector.w1 < ix.weights.metas@.len(),
            0 < self.ec.hidden_size,
            self.ec.hidden_size * 2 <= usize::MAX,
        ensures
            r == forecast::tensor_bytes(
                *ix.codec,
                ix.weights.metas@[self.projector.w1 as int],
            ) / (self.ec.hidden_size * 2),
    {
        let m: &TensorMeta = &ix.weights.metas[self.projector.w1];
        assert(*m == ix.weights.metas@[self.projector.w1 as int]);
        proof {
            forecast::lemma_tensor_bytes(ix.weights, *ix.codec, self.projector.w1 as int);
        }
        ix.codec.device_bytes(m) / (self.ec.hidden_size * 2)
    }
}

} // verus!
