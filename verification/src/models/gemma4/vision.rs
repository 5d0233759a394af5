//! The vision tower: an encoder over 16-pixel patches with two-dimensional
//! rotary positions, average pooling, and the projection into the text model.
use vstd::prelude::*;

use crate::models::gemma4::config::G4VisionCfg;
use crate::models::gemma4::encode::Grid;
use crate::models::gemma4::index;
use crate::models::gemma4::index::G4Index;
use crate::models::gemma4::tower;
use crate::models::gemma4::tower::{
    add_in_layer, add_named, check_places, push_clip, Clips, Place, TowerError, TowerNeed,
};
use crate::models::ops;
use crate::models::ops::{Buf, Op, Weight};
use crate::models::ONE;
use crate::weights::LoadedWeights;

verus! {

/// Sizes of the scratch buffers, for the largest grid of patches.
pub struct VisionWs {
    pub x: usize,
    pub h: usize,
    pub h2: usize,
    pub q: usize,
    pub k: usize,
    pub v: usize,
    pub att: usize,
    pub gate: usize,
    pub up: usize,
    pub clip: usize,
    pub pos: usize,
    pub pos_emb: usize,
    pub pooled: usize,
    pub out: usize,
}

/// The clamps of a layer's linears.
#[derive(Clone, Copy)]
pub struct VisionClips {
    pub q: Clips,
    pub k: Clips,
    pub v: Clips,
    pub o: Clips,
    pub gate: Clips,
    pub up: Clips,
    pub down: Clips,
}

/// The resident tower.
pub struct G4Vision {
    pub cfg: G4VisionCfg,
    pub lm_hidden: usize,
    pub places: Vec<Place>,
    pub entries: Vec<usize>,
    /// The checkpoint standardizes the pooled features.
    pub standardized: bool,
    pub ws: VisionWs,
}

pub open spec fn qd(c: G4VisionCfg) -> int {
    c.n_heads * c.head_dim
}

pub open spec fn widest(c: G4VisionCfg) -> int {
    if c.hidden >= c.inter {
        c.hidden as int
    } else {
        c.inter as int
    }
}

/// Soft tokens of the largest grid.
pub open spec fn max_tokens(c: G4VisionCfg) -> int {
    2520int / (c.pool_k * c.pool_k)
}

/// The sizes that the tower needs are machine numbers.
pub open spec fn sized(c: G4VisionCfg, lm_hidden: int) -> bool {
    &&& c.hidden * 8192 <= usize::MAX
    &&& c.inter * 8192 <= usize::MAX
    &&& qd(c) * 8192 <= usize::MAX
    &&& c.pool_k >= 1
    &&& c.pool_k * c.pool_k <= usize::MAX
    &&& c.pos_table * c.hidden <= usize::MAX
    &&& c.n_heads * 8192 <= usize::MAX
    &&& lm_hidden * 8192 <= usize::MAX
    &&& 3 * c.patch * c.patch <= usize::MAX
    &&& c.hidden * (3 * c.patch * c.patch) <= usize::MAX
}

pub open spec fn is_ws(w: VisionWs, c: G4VisionCfg, lm_hidden: int) -> bool {
    &&& w.x == 2520 * c.hidden * 2
    &&& w.h == w.x
    &&& w.h2 == w.x
    &&& w.q == 2520 * qd(c) * 2
    &&& w.k == w.q
    &&& w.v == w.q
    &&& w.att == w.q
    &&& w.gate == 2520 * c.inter * 2
    &&& w.up == w.gate
    &&& w.clip == 2520 * widest(c) * 2
    &&& w.pos == 2520 * 4
    &&& w.pos_emb == w.x
    &&& w.pooled == max_tokens(c) * c.hidden * 2
    &&& w.out == max_tokens(c) * lm_hidden * 2
}

proof fn lemma_tokens(c: G4VisionCfg)
    requires
        c.pool_k >= 1,
    ensures
        0 <= max_tokens(c) <= 2520,
{
    let kk = c.pool_k * c.pool_k;
    assert(kk >= 1) by (nonlinear_arith)
        requires
            kk == c.pool_k * c.pool_k,
            c.pool_k >= 1,
    ;
    vstd::arithmetic::div_mod::lemma_div_nonincreasing(2520, kk);
    vstd::arithmetic::div_mod::lemma_div_pos_is_pos(2520, kk);
}

fn workspace(c: &G4VisionCfg, lm_hidden: usize) -> (r: VisionWs)
    requires
        sized(*c, lm_hidden as int),
    ensures
        is_ws(r, *c, lm_hidden as int),
{
    proof {
        lemma_tokens(*c);
        let (a, b) = (c.n_heads as int, c.head_dim as int);
        assert(a * b >= 0) by (nonlinear_arith)
            requires
                a >= 0,
                b >= 0,
        ;
    }
    let x: usize = 2520 * c.hidden * 2;
    let q: usize = 2520 * (c.n_heads * c.head_dim) * 2;
    let gate: usize = 2520 * c.inter * 2;
    let wide: usize = if c.hidden >= c.inter {
        c.hidden
    } else {
        c.inter
    };
    assert(c.pool_k * c.pool_k >= 1) by (nonlinear_arith)
        requires
            c.pool_k >= 1,
    ;
    let t: usize = 2520 / (c.pool_k * c.pool_k);
    proof {
        let (m, h, l) = (t as int, c.hidden as int, lm_hidden as int);
        assert(m * h <= 2520 * h && m * l <= 2520 * l && m * h >= 0 && m * l >= 0)
            by (nonlinear_arith)
            requires
                0 <= m <= 2520,
                h >= 0,
                l >= 0,
        ;
    }
    VisionWs {
        x,
        h: x,
        h2: x,
        q,
        k: q,
        v: q,
        att: q,
        gate,
        up: gate,
        clip: 2520 * wide * 2,
        pos: 2520 * 4,
        pos_emb: x,
        pooled: t * c.hidden * 2,
        out: t * lm_hidden * 2,
    }
}

pub open spec fn prefix() -> Seq<char> {
    "vision_tower.encoder.layers."@
}

/// The places of layer `i`.
pub open spec fn layer_places(c: G4VisionCfg, i: int) -> Seq<tower::PlaceSpec> {
    let p = prefix();
    let (h, q, d, f) = (c.hidden, qd(c) as usize, c.head_dim, c.inter);
    seq![
        tower::place(tower::layer_name(p, i, "input_layernorm.weight"@), TowerNeed::Vector { len: h }),
        tower::place(tower::layer_name(p, i, "post_attention_layernorm.weight"@), TowerNeed::Vector { len: h }),
        tower::place(tower::layer_name(p, i, "pre_feedforward_layernorm.weight"@), TowerNeed::Vector { len: h }),
        tower::place(tower::layer_name(p, i, "post_feedforward_layernorm.weight"@), TowerNeed::Vector { len: h }),
        tower::place(tower::layer_name(p, i, "self_attn.q_proj"@), TowerNeed::Clip { n_out: q, n_in: h }),
        tower::place(tower::layer_name(p, i, "self_attn.k_proj"@), TowerNeed::Clip { n_out: q, n_in: h }),
        tower::place(tower::layer_name(p, i, "self_attn.v_proj"@), TowerNeed::Clip { n_out: q, n_in: h }),
        tower::place(tower::layer_name(p, i, "self_attn.o_proj"@), TowerNeed::Clip { n_out: h, n_in: q }),
        tower::place(tower::layer_name(p, i, "self_attn.q_norm.weight"@), TowerNeed::Vector { len: d }),
        tower::place(tower::layer_name(p, i, "self_attn.k_norm.weight"@), TowerNeed::Vector { len: d }),
        tower::place(tower::layer_name(p, i, "mlp.gate_proj"@), TowerNeed::Clip { n_out: f, n_in: h }),
        tower::place(tower::layer_name(p, i, "mlp.up_proj"@), TowerNeed::Clip { n_out: f, n_in: h }),
        tower::place(tower::layer_name(p, i, "mlp.down_proj"@), TowerNeed::Clip { n_out: h, n_in: f }),
    ]
}

/// The places of the first `n` layers.
pub open spec fn all_layer_places(c: G4VisionCfg, n: int) -> Seq<tower::PlaceSpec>
    decreases n,
{
    if n <= 0 {
        Seq::empty()
    } else {
        all_layer_places(c, n - 1) + layer_places(c, n - 1)
    }
}

/// The checkpoint ships the vectors that standardize the pooled features.
pub open spec fn standardizes(w: &LoadedWeights) -> bool {
    index::resolve(w, "vision_tower.std_bias"@) is Some && index::resolve(
        w,
        "vision_tower.std_scale"@,
    ) is Some
}

/// The places around the layers.
pub open spec fn outer_places(c: G4VisionCfg, lm_hidden: usize, std: bool) -> Seq<tower::PlaceSpec> {
    seq![
        tower::place(
            "vision_tower.patch_embedder.input_proj.weight"@,
            TowerNeed::PatchProj { hidden: c.hidden, patch: c.patch },
        ),
        tower::place(
            "vision_tower.patch_embedder.position_embedding_table"@,
            TowerNeed::Table { a: 2, b: c.pos_table, c: c.hidden },
        ),
        tower::place(
            "embed_vision.embedding_projection.weight"@,
            TowerNeed::Linear { n_out: lm_hidden, n_in: c.hidden },
        ),
    ] + (if std {
        seq![
            tower::place("vision_tower.std_bias"@, TowerNeed::Host { len: c.hidden }),
            tower::place("vision_tower.std_scale"@, TowerNeed::Host { len: c.hidden }),
        ]
    } else {
        Seq::empty()
    })
}

pub open spec fn all_places(c: G4VisionCfg, lm_hidden: usize, std: bool) -> Seq<tower::PlaceSpec> {
    all_layer_places(c, c.n_layers as int) + outer_places(c, lm_hidden, std)
}

fn add_layer(v: &mut Vec<Place>, c: &G4VisionCfg, i: usize, q: usize)
    requires
        q == qd(*c),
    ensures
        tower::views(final(v)@) == tower::views(old(v)@) + layer_places(*c, i as int),
{
    let ghost before = tower::views(v@);
    let p: &str = "vision_tower.encoder.layers.";
    let (h, d, f): (usize, usize, usize) = (c.hidden, c.head_dim, c.inter);
    add_in_layer(v, p, i, "input_layernorm.weight", TowerNeed::Vector { len: h });
    add_in_layer(v, p, i, "post_attention_layernorm.weight", TowerNeed::Vector { len: h });
    add_in_layer(v, p, i, "pre_feedforward_layernorm.weight", TowerNeed::Vector { len: h });
    add_in_layer(v, p, i, "post_feedforward_layernorm.weight", TowerNeed::Vector { len: h });
    add_in_layer(v, p, i, "self_attn.q_proj", TowerNeed::Clip { n_out: q, n_in: h });
    add_in_layer(v, p, i, "self_attn.k_proj", TowerNeed::Clip { n_out: q, n_in: h });
    add_in_layer(v, p, i, "self_attn.v_proj", TowerNeed::Clip { n_out: q, n_in: h });
    add_in_layer(v, p, i, "self_attn.o_proj", TowerNeed::Clip { n_out: h, n_in: q });
    add_in_layer(v, p, i, "self_attn.q_norm.weight", TowerNeed::Vector { len: d });
    add_in_layer(v, p, i, "self_attn.k_norm.weight", TowerNeed::Vector { len: d });
    add_in_layer(v, p, i, "mlp.gate_proj", TowerNeed::Clip { n_out: f, n_in: h });
    add_in_layer(v, p, i, "mlp.up_proj", TowerNeed::Clip { n_out: f, n_in: h });
    add_in_layer(v, p, i, "mlp.down_proj", TowerNeed::Clip { n_out: h, n_in: f });
    assert(tower::views(v@) =~= before + layer_places(*c, i as int));
}

fn places_of(c: &G4VisionCfg, lm_hidden: usize, std: bool) -> (r: Vec<Place>)
    requires
        sized(*c, lm_hidden as int),
    ensures
        tower::views(r@) == all_places(*c, lm_hidden, std),
{
    proof {
        let (a, b) = (c.n_heads as int, c.head_dim as int);
        assert(a * b >= 0) by (nonlinear_arith)
            requires
                a >= 0,
                b >= 0,
        ;
    }
    let q: usize = c.n_heads * c.head_dim;
    let mut v: Vec<Place> = Vec::new();
    assert(tower::views(v@) =~= Seq::empty());
    let mut i: usize = 0;
    while i < c.n_layers
        invariant
            i <= c.n_layers,
            q == qd(*c),
            tower::views(v@) == all_layer_places(*c, i as int),
        decreases c.n_layers - i,
    {
        add_layer(&mut v, c, i, q);
        i = i + 1;
    }
    let ghost before = tower::views(v@);
    add_named(
        &mut v,
        "vision_tower.patch_embedder.input_proj.weight",
        TowerNeed::PatchProj { hidden: c.hidden, patch: c.patch },
    );
    add_named(
        &mut v,
        "vision_tower.patch_embedder.position_embedding_table",
        TowerNeed::Table { a: 2, b: c.pos_table, c: c.hidden },
    );
    add_named(
        &mut v,
        "embed_vision.embedding_projection.weight",
        TowerNeed::Linear { n_out: lm_hidden, n_in: c.hidden },
    );
    if std {
        add_named(&mut v, "vision_tower.std_bias", TowerNeed::Host { len: c.hidden });
        add_named(&mut v, "vision_tower.std_scale", TowerNeed::Host { len: c.hidden });
    }
    assert(tower::views(v@) =~= before + outer_places(*c, lm_hidden, std));
    v
}

proof fn lemma_places_sized(c: G4VisionCfg, lm_hidden: usize, std: bool)
    requires
        sized(c, lm_hidden as int),
    ensures
        forall|k: int|
            0 <= k < all_places(c, lm_hidden, std).len() ==> tower::place_sized(
                #[trigger] all_places(c, lm_hidden, std)[k],
            ),
{
    let a = all_layer_places(c, c.n_layers as int);
    let b = outer_places(c, lm_hidden, std);
    lemma_layer_places_sized(c, c.n_layers as int);
    assert forall|k: int| 0 <= k < (a + b).len() implies tower::place_sized(
        #[trigger] (a + b)[k],
    ) by {
        if k < a.len() {
            assert((a + b)[k] == a[k]);
        } else {
            assert((a + b)[k] == b[k - a.len()]);
        }
    }
}

proof fn lemma_layer_places_sized(c: G4VisionCfg, n: int)
    ensures
        forall|k: int|
            0 <= k < all_layer_places(c, n).len() ==> tower::place_sized(
                #[trigger] all_layer_places(c, n)[k],
            ),
    decreases n,
{
    if n > 0 {
        lemma_layer_places_sized(c, n - 1);
        let a = all_layer_places(c, n - 1);
        let b = layer_places(c, n - 1);
        assert forall|k: int| 0 <= k < (a + b).len() implies tower::place_sized(
            #[trigger] (a + b)[k],
        ) by {
            if k < a.len() {
                assert((a + b)[k] == a[k]);
            } else {
                assert((a + b)[k] == b[k - a.len()]);
            }
        }
    }
}

impl G4Vision {
    /// Builds the tower, or names the first place that cannot be filled.
    pub fn build(cfg: G4VisionCfg, ix: &G4Index, lm_hidden: usize) -> (r: Result<
        G4Vision,
        (usize, TowerError),
    >)
        requires
            sized(cfg, lm_hidden as int),
            ix.weights.wf(),
            index::sized(ix.weights),
            index::sound_states(ix.weights),
        ensures
            ({
                let std = standardizes(ix.weights);
                let ss = all_places(cfg, lm_hidden, std);
                match r {
                    Ok(g) => {
                        &&& tower::first_fault(ix.weights, ix.norm_shift, ss, ss.len() as int) is None
                        &&& g.cfg == cfg
                        &&& g.lm_hidden == lm_hidden
                        &&& g.standardized == std
                        &&& tower::views(g.places@) == ss
                        &&& tower::entries_are(g.entries@, ix.weights, ss)
                        &&& is_ws(g.ws, cfg, lm_hidden as int)
                    },
                    Err(e) => tower::first_fault(ix.weights, ix.norm_shift, ss, ss.len() as int)
                        == Some(e),
                }
            }),
    {
        let std: bool = ix.has("vision_tower.std_bias") && ix.has("vision_tower.std_scale");
        let places: Vec<Place> = places_of(&cfg, lm_hidden, std);
        proof {
            lemma_places_sized(cfg, lm_hidden, std);
        }
        let entries: Vec<usize> = check_places(ix, &places)?;
        let ws: VisionWs = workspace(&cfg, lm_hidden);
        Ok(G4Vision { cfg, lm_hidden, places, entries, standardized: std, ws })
    }
}

/// The patches become rows of the residual stream, with their learned
/// positions.
pub open spec fn front_ops(c: G4VisionCfg, n: int) -> Seq<Op> {
    let (rows, h) = (n as usize, c.hidden);
    let all = (n * c.hidden) as usize;
    seq![
        Op::Gemm { weight: Weight::InputProj, src: Buf::H, dst: Buf::X, rows, n: h, k: 768 },
        Op::Gather { table: Weight::PosTable, packed: None, row0: 0, ids: Buf::GatherX, dst: Buf::PosEmb, rows, width: h },
        Op::Add { dst: Buf::X, src: Buf::PosEmb, n: all },
        Op::Gather { table: Weight::PosTable, packed: None, row0: c.pos_table, ids: Buf::GatherY, dst: Buf::PosEmb, rows, width: h },
        Op::Add { dst: Buf::X, src: Buf::PosEmb, n: all },
    ]
}

pub open spec fn norm(src: Buf, weight: Option<Weight>, dst: Buf, rows: int, width: usize) -> Op {
    Op::RmsNorm { src, row0: 0, weight, dst, rows: rows as usize, width }
}

/// The projections of a layer.
pub open spec fn qkv_ops(c: G4VisionCfg, l: VisionClips, n: int) -> Seq<Op> {
    let (h, q) = (c.hidden, qd(c) as usize);
    seq![norm(Buf::X, Some(Weight::InputNorm), Buf::H, n, h)] + tower::clip_ops(
        l.q,
        Weight::Wq,
        Buf::H,
        Buf::Q,
        n,
        h,
        q,
    ) + tower::clip_ops(l.k, Weight::Wk, Buf::H, Buf::K, n, h, q) + tower::clip_ops(
        l.v,
        Weight::Wv,
        Buf::H,
        Buf::V,
        n,
        h,
        q,
    )
}

/// Norms, rotary positions and bidirectional attention. The caches live in the
/// buffers of the feed-forward block, which are idle.
pub open spec fn attn_ops(c: G4VisionCfg, n: int) -> Seq<Op> {
    let (rows, d, nh) = (n as usize, c.head_dim, c.n_heads);
    seq![
        norm(Buf::Q, Some(Weight::QNorm), Buf::Q, n * nh, d),
        norm(Buf::K, Some(Weight::KNorm), Buf::K, n * nh, d),
        norm(Buf::V, None, Buf::V, n * nh, d),
        Op::Rope2d { buf: Buf::Q, rows, heads: nh, dim: d, theta: c.theta },
        Op::Rope2d { buf: Buf::K, rows, heads: nh, dim: d, theta: c.theta },
        Op::KvAppend { k: Buf::K, v: Buf::V, kc: Buf::Gate, vc: Buf::Up, rows, heads: nh, dim: d, pos0: 0, cap: rows, counter: false },
        Op::AttnPrefill {
            q: Buf::Q,
            scale: ONE,
            kc: Buf::Gate,
            vc: Buf::Up,
            rows,
            heads: nh,
            kv_heads: nh,
            dim: d,
            pos0: 0,
            cap: rows,
            causal: false,
            window: 0,
            blocks: false,
        },
    ]
}

/// The output projection and the feed-forward block.
pub open spec fn out_ops(c: G4VisionCfg, l: VisionClips, n: int) -> Seq<Op> {
    let (h, q) = (c.hidden, qd(c) as usize);
    tower::clip_ops(l.o, Weight::Wo, Buf::Att, Buf::H2, n, q, h) + seq![
        norm(Buf::H2, Some(Weight::PostAttnNorm), Buf::H2, n, h),
        Op::Add { dst: Buf::X, src: Buf::H2, n: (n * h) as usize },
    ]
}

pub open spec fn mlp_ops(c: G4VisionCfg, l: VisionClips, n: int) -> Seq<Op> {
    let (h, f) = (c.hidden, c.inter);
    seq![norm(Buf::X, Some(Weight::PreFfwNorm), Buf::H, n, h)] + tower::clip_ops(
        l.gate,
        Weight::WGate,
        Buf::H,
        Buf::Gate,
        n,
        h,
        f,
    ) + tower::clip_ops(l.up, Weight::WUp, Buf::H, Buf::Up, n, h, f) + seq![
        Op::Geglu { n: (n * f) as usize },
    ] + tower::clip_ops(l.down, Weight::WDown, Buf::Gate, Buf::H2, n, f, h) + seq![
        norm(Buf::H2, Some(Weight::PostFfwNorm), Buf::H2, n, h),
        Op::Add { dst: Buf::X, src: Buf::H2, n: (n * h) as usize },
    ]
}

pub open spec fn layer_ops(c: G4VisionCfg, l: VisionClips, n: int) -> Seq<Op> {
    qkv_ops(c, l, n) + attn_ops(c, n) + out_ops(c, l, n) + mlp_ops(c, l, n)
}

/// The projection of the pooled rows into the text model, and the copy into
/// the image's own rows.
pub open spec fn embed_ops(c: G4VisionCfg, lm_hidden: usize, tokens: int) -> Seq<Op> {
    seq![
        Op::Gemm {
            weight: Weight::EmbProj,
            src: Buf::Pooled,
            dst: Buf::Out,
            rows: tokens as usize,
            n: lm_hidden,
            k: c.hidden,
        },
        Op::Copy { src: Buf::Out, dst: Buf::Encoded, n: (tokens * lm_hidden) as usize },
    ]
}

pub proof fn lemma_rows(c: G4VisionCfg, n: int)
    requires
        sized(c, 0),
        0 <= n <= 2520,
    ensures
        0 <= qd(c),
        0 <= n * c.hidden <= 2520 * c.hidden <= usize::MAX,
        0 <= n * c.inter <= 2520 * c.inter <= usize::MAX,
        0 <= n * qd(c) <= 2520 * qd(c) <= usize::MAX,
        0 <= n * c.n_heads <= usize::MAX,
        (n * c.n_heads) * c.head_dim == n * qd(c),
{
    let (h, f, nh, d) = (c.hidden as int, c.inter as int, c.n_heads as int, c.head_dim as int);
    let q = nh * d;
    assert(q >= 0) by (nonlinear_arith)
        requires
            q == nh * d,
            nh >= 0,
            d >= 0,
    ;
    assert(0 <= n * h <= 2520 * h && 0 <= n * f <= 2520 * f && 0 <= n * q <= 2520 * q && 0 <= n
        * nh <= 2520 * nh) by (nonlinear_arith)
        requires
            0 <= n <= 2520,
            h >= 0,
            f >= 0,
            q >= 0,
            nh >= 0,
    ;
    assert((n * nh) * d == n * (nh * d)) by (nonlinear_arith);
}

fn push_norm(v: &mut Vec<Op>, src: Buf, weight: Option<Weight>, dst: Buf, rows: usize, width: usize)
    ensures
        final(v)@ == old(v)@.push(norm(src, weight, dst, rows as int, width)),
{
    v.push(Op::RmsNorm { src, row0: 0, weight, dst, rows, width });
}

fn push_qkv(v: &mut Vec<Op>, c: &G4VisionCfg, l: &VisionClips, n: usize, q: usize)
    requires
        sized(*c, 0),
        n <= 2520,
        q == qd(*c),
    ensures
        final(v)@ == old(v)@ + qkv_ops(*c, *l, n as int),
{
    let ghost before = v@;
    proof {
        lemma_rows(*c, n as int);
    }
    let h: usize = c.hidden;
    push_norm(v, Buf::X, Some(Weight::InputNorm), Buf::H, n, h);
    push_clip(v, l.q, Weight::Wq, Buf::H, Buf::Q, n, h, q);
    push_clip(v, l.k, Weight::Wk, Buf::H, Buf::K, n, h, q);
    push_clip(v, l.v, Weight::Wv, Buf::H, Buf::V, n, h, q);
    assert(v@ =~= before + qkv_ops(*c, *l, n as int));
}

fn push_attn(v: &mut Vec<Op>, c: &G4VisionCfg, n: usize)
    requires
        sized(*c, 0),
        n <= 2520,
    ensures
        final(v)@ == old(v)@ + attn_ops(*c, n as int),
{
    let ghost before = v@;
    proof {
        lemma_rows(*c, n as int);
    }
    let (d, nh): (usize, usize) = (c.head_dim, c.n_heads);
    push_norm(v, Buf::Q, Some(Weight::QNorm), Buf::Q, n * nh, d);
    push_norm(v, Buf::K, Some(Weight::KNorm), Buf::K, n * nh, d);
    push_norm(v, Buf::V, None, Buf::V, n * nh, d);
    v.push(Op::Rope2d { buf: Buf::Q, rows: n, heads: nh, dim: d, theta: c.theta });
    v.push(Op::Rope2d { buf: Buf::K, rows: n, heads: nh, dim: d, theta: c.theta });
    v.push(
        Op::KvAppend {
            k: Buf::K,
            v: Buf::V,
            kc: Buf::Gate,
            vc: Buf::Up,
            rows: n,
            heads: nh,
            dim: d,
            pos0: 0,
            cap: n,
            counter: false,
        },
    );
    v.push(
        Op::AttnPrefill {
            q: Buf::Q,
            scale: ONE,
            kc: Buf::Gate,
            vc: Buf::Up,
            rows: n,
            heads: nh,
            kv_heads: nh,
            dim: d,
            pos0: 0,
            cap: n,
            causal: false,
            window: 0,
            blocks: false,
        },
    );
    assert(v@ =~= before + attn_ops(*c, n as int));
}

fn push_out(v: &mut Vec<Op>, c: &G4VisionCfg, l: &VisionClips, n: usize, q: usize)
    requires
        sized(*c, 0),
        n <= 2520,
        q == qd(*c),
    ensures
        final(v)@ == old(v)@ + out_ops(*c, *l, n as int),
{
    let ghost before = v@;
    proof {
        lemma_rows(*c, n as int);
    }
    let h: usize = c.hidden;
    push_clip(v, l.o, Weight::Wo, Buf::Att, Buf::H2, n, q, h);
    push_norm(v, Buf::H2, Some(Weight::PostAttnNorm), Buf::H2, n, h);
    v.push(Op::Add { dst: Buf::X, src: Buf::H2, n: n * h });
    assert(v@ =~= before + out_ops(*c, *l, n as int));
}

fn push_mlp(v: &mut Vec<Op>, c: &G4VisionCfg, l: &VisionClips, n: usize)
    requires
        sized(*c, 0),
        n <= 2520,
    ensures
        final(v)@ == old(v)@ + mlp_ops(*c, *l, n as int),
{
    let ghost before = v@;
    proof {
        lemma_rows(*c, n as int);
    }
    let (h, f): (usize, usize) = (c.hidden, c.inter);
    push_norm(v, Buf::X, Some(Weight::PreFfwNorm), Buf::H, n, h);
    push_clip(v, l.gate, Weight::WGate, Buf::H, Buf::Gate, n, h, f);
    push_clip(v, l.up, Weight::WUp, Buf::H, Buf::Up, n, h, f);
    v.push(Op::Geglu { n: n * f });
    push_clip(v, l.down, Weight::WDown, Buf::Gate, Buf::H2, n, f, h);
    push_norm(v, Buf::H2, Some(Weight::PostFfwNorm), Buf::H2, n, h);
    v.push(Op::Add { dst: Buf::X, src: Buf::H2, n: n * h });
    assert(v@ =~= before + mlp_ops(*c, *l, n as int));
}

pub open spec fn encoder_ops(c: G4VisionCfg, clips: Seq<VisionClips>, n: int, k: int) -> Seq<Seq<Op>> {
    Seq::new(k as nat, |i: int| layer_ops(c, clips[i], n))
}

pub open spec fn op_views(v: Seq<Vec<Op>>) -> Seq<Seq<Op>> {
    Seq::new(v.len(), |i: int| v[i]@)
}

impl G4Vision {
    /// The steps that embed the unfolded patches of a grid.
    pub fn embed_patches(&self, g: Grid) -> (r: Vec<Op>)
        requires
            sized(self.cfg, 0),
            g.w * g.h <= 2520,
        ensures
            r@ == front_ops(self.cfg, (g.w * g.h) as int),
    {
        let c: &G4VisionCfg = &self.cfg;
        let n: usize = g.w * g.h;
        let h: usize = c.hidden;
        proof {
            lemma_rows(*c, n as int);
        }
        let mut v: Vec<Op> = Vec::new();
        v.push(
            Op::Gemm { weight: Weight::InputProj, src: Buf::H, dst: Buf::X, rows: n, n: h, k: 768 },
        );
        v.push(
            Op::Gather {
                table: Weight::PosTable,
                packed: None,
                row0: 0,
                ids: Buf::GatherX,
                dst: Buf::PosEmb,
                rows: n,
                width: h,
            },
        );
        v.push(Op::Add { dst: Buf::X, src: Buf::PosEmb, n: n * h });
        v.push(
            Op::Gather {
                table: Weight::PosTable,
                packed: None,
                row0: c.pos_table,
                ids: Buf::GatherY,
                dst: Buf::PosEmb,
                rows: n,
                width: h,
            },
        );
        v.push(Op::Add { dst: Buf::X, src: Buf::PosEmb, n: n * h });
        assert(v@ =~= front_ops(*c, n as int));
        v
    }

    /// The steps of the encoder, layer by layer.
    pub fn encode(&self, g: Grid, clips: &Vec<VisionClips>) -> (r: Vec<Vec<Op>>)
        requires
            sized(self.cfg, 0),
            g.w * g.h <= 2520,
            clips@.len() == self.cfg.n_layers,
        ensures
            op_views(r@) == encoder_ops(
                self.cfg,
                clips@,
                (g.w * g.h) as int,
                self.cfg.n_layers as int,
            ),
    {
        let c: &G4VisionCfg = &self.cfg;
        let n: usize = g.w * g.h;
        proof {
            lemma_rows(*c, n as int);
        }
        let q: usize = c.n_heads * c.head_dim;
        let mut out: Vec<Vec<Op>> = Vec::new();
        let mut i: usize = 0;
        assert(op_views(out@) =~= encoder_ops(*c, clips@, n as int, 0));
        while i < clips.len()
            invariant
                i <= clips@.len(),
                n <= 2520,
                *c == self.cfg,
                sized(*c, 0),
                q == qd(*c),
                op_views(out@) == encoder_ops(*c, clips@, n as int, i as int),
            decreases clips@.len() - i,
        {
            let ghost before = out@;
            let mut v: Vec<Op> = Vec::new();
            push_qkv(&mut v, c, &clips[i], n, q);
            push_attn(&mut v, c, n);
            push_out(&mut v, c, &clips[i], n, q);
            push_mlp(&mut v, c, &clips[i], n);
            assert(v@ =~= layer_ops(*c, clips@[i as int], n as int));
            let ghost vv = v@;
            out.push(v);
            i = i + 1;
            assert(op_views(out@) =~= encoder_ops(*c, clips@, n as int, i as int)) by {
                assert(op_views(out@) =~= op_views(before).push(vv));
            }
        }
        out
    }

    /// The steps after pooling.
    pub fn embed(&self, tokens: usize) -> (r: Vec<Op>)
        requires
            tokens * self.lm_hidden <= usize::MAX,
        ensures
            r@ == embed_ops(self.cfg, self.lm_hidden, tokens as int),
    {
        let mut v: Vec<Op> = Vec::new();
        v.push(
            Op::Gemm {
                weight: Weight::EmbProj,
                src: Buf::Pooled,
                dst: Buf::Out,
                rows: tokens,
                n: self.lm_hidden,
                k: self.cfg.hidden,
            },
        );
        v.push(Op::Copy { src: Buf::Out, dst: Buf::Encoded, n: tokens * self.lm_hidden });
        assert(v@ =~= embed_ops(self.cfg, self.lm_hidden, tokens as int));
        v
    }
}

pub open spec fn size_of(ws: VisionWs, b: Buf) -> int {
    match b {
        Buf::X => ws.x as int,
        Buf::H => ws.h as int,
        Buf::H2 => ws.h2 as int,
        Buf::Q => ws.q as int,
        Buf::K => ws.k as int,
        Buf::V => ws.v as int,
        Buf::Att => ws.att as int,
        Buf::Gate => ws.gate as int,
        Buf::Up => ws.up as int,
        Buf::Clip => ws.clip as int,
        Buf::PosX => ws.pos as int,
        Buf::PosY => ws.pos as int,
        Buf::GatherX => ws.pos as int,
        Buf::GatherY => ws.pos as int,
        Buf::PosEmb => ws.pos_emb as int,
        Buf::Pooled => ws.pooled as int,
        Buf::Out => ws.out as int,
        _ => 0,
    }
}

/// A linear's steps fit where its input and output do and the input fits the
/// staging buffer.
proof fn lemma_clip_fits(
    ws: VisionWs,
    c: Clips,
    weight: Weight,
    src: Buf,
    dst: Buf,
    rows: int,
    n_in: usize,
    n_out: usize,
)
    requires
        0 <= rows * n_in <= usize::MAX,
        0 <= rows * n_out <= usize::MAX,
        0 <= rows <= usize::MAX,
        2 * (rows * n_in) <= size_of(ws, src),
        2 * (rows * n_in) <= ws.clip,
        2 * (rows * n_out) <= size_of(ws, dst),
    ensures
        ops::all_fit(
            tower::clip_ops(c, weight, src, dst, rows, n_in, n_out),
            |b: Buf| size_of(ws, b),
        ),
{
}

proof fn lemma_qkv_fits(g: G4Vision, l: VisionClips, n: int)
    requires
        sized(g.cfg, 0),
        is_ws(g.ws, g.cfg, g.lm_hidden as int),
        1 <= n <= 2520,
    ensures
        ops::all_fit(qkv_ops(g.cfg, l, n), |b: Buf| size_of(g.ws, b)),
{
    let c = g.cfg;
    let size = |b: Buf| size_of(g.ws, b);
    lemma_rows(c, n);
    let (h, q) = (c.hidden, qd(c) as usize);
    let a = seq![norm(Buf::X, Some(Weight::InputNorm), Buf::H, n, h)];
    assert((0 + n) * h == n * h);
    assert(ops::all_fit(a, size));
    lemma_clip_fits(g.ws, l.q, Weight::Wq, Buf::H, Buf::Q, n, h, q);
    lemma_clip_fits(g.ws, l.k, Weight::Wk, Buf::H, Buf::K, n, h, q);
    lemma_clip_fits(g.ws, l.v, Weight::Wv, Buf::H, Buf::V, n, h, q);
    let b = tower::clip_ops(l.q, Weight::Wq, Buf::H, Buf::Q, n, h, q);
    let d = tower::clip_ops(l.k, Weight::Wk, Buf::H, Buf::K, n, h, q);
    let e = tower::clip_ops(l.v, Weight::Wv, Buf::H, Buf::V, n, h, q);
    ops::lemma_all_fit_concat(a, b, size);
    ops::lemma_all_fit_concat(a + b, d, size);
    ops::lemma_all_fit_concat(a + b + d, e, size);
}

proof fn lemma_attn_fits(g: G4Vision, n: int)
    requires
        sized(g.cfg, 0),
        is_ws(g.ws, g.cfg, g.lm_hidden as int),
        1 <= n <= 2520,
        qd(g.cfg) <= g.cfg.inter,
    ensures
        ops::all_fit(attn_ops(g.cfg, n), |b: Buf| size_of(g.ws, b)),
{
    let c = g.cfg;
    let size = |b: Buf| size_of(g.ws, b);
    lemma_rows(c, n);
    let (nh, d) = (c.n_heads as int, c.head_dim as int);
    assert((0 + n * nh) * d == n * qd(c));
    assert(ops::cache(n, nh, d) == 2 * (n * (nh * d))) by (nonlinear_arith)
        requires
            ops::cache(n, nh, d) == nh * n * d * 2,
    ;
    assert(n * (nh * d) == n * qd(c));
    assert(ops::all_fit(attn_ops(c, n), size));
}

proof fn lemma_out_fits(g: G4Vision, l: VisionClips, n: int)
    requires
        sized(g.cfg, 0),
        is_ws(g.ws, g.cfg, g.lm_hidden as int),
        1 <= n <= 2520,
        qd(g.cfg) <= g.cfg.inter,
    ensures
        ops::all_fit(out_ops(g.cfg, l, n), |b: Buf| size_of(g.ws, b)),
{
    let c = g.cfg;
    let size = |b: Buf| size_of(g.ws, b);
    lemma_rows(c, n);
    let (h, q) = (c.hidden, qd(c) as usize);
    lemma_clip_fits(g.ws, l.o, Weight::Wo, Buf::Att, Buf::H2, n, q, h);
    let a = tower::clip_ops(l.o, Weight::Wo, Buf::Att, Buf::H2, n, q, h);
    let b = seq![
        norm(Buf::H2, Some(Weight::PostAttnNorm), Buf::H2, n, h),
        Op::Add { dst: Buf::X, src: Buf::H2, n: (n * h) as usize },
    ];
    assert((0 + n) * h == n * h);
    assert(ops::all_fit(b, size));
    ops::lemma_all_fit_concat(a, b, size);
}

proof fn lemma_mlp_fits(g: G4Vision, l: VisionClips, n: int)
    requires
        sized(g.cfg, 0),
        is_ws(g.ws, g.cfg, g.lm_hidden as int),
        1 <= n <= 2520,
    ensures
        ops::all_fit(mlp_ops(g.cfg, l, n), |b: Buf| size_of(g.ws, b)),
{
    let c = g.cfg;
    let size = |b: Buf| size_of(g.ws, b);
    lemma_rows(c, n);
    let (h, f) = (c.hidden, c.inter);
    assert((0 + n) * h == n * h);
    lemma_clip_fits(g.ws, l.gate, Weight::WGate, Buf::H, Buf::Gate, n, h, f);
    lemma_clip_fits(g.ws, l.up, Weight::WUp, Buf::H, Buf::Up, n, h, f);
    lemma_clip_fits(g.ws, l.down, Weight::WDown, Buf::Gate, Buf::H2, n, f, h);
    let a = seq![norm(Buf::X, Some(Weight::PreFfwNorm), Buf::H, n, h)];
    let b = tower::clip_ops(l.gate, Weight::WGate, Buf::H, Buf::Gate, n, h, f);
    let d = tower::clip_ops(l.up, Weight::WUp, Buf::H, Buf::Up, n, h, f);
    let e = seq![Op::Geglu { n: (n * f) as usize }];
    let k = tower::clip_ops(l.down, Weight::WDown, Buf::Gate, Buf::H2, n, f, h);
    let m = seq![
        norm(Buf::H2, Some(Weight::PostFfwNorm), Buf::H2, n, h),
        Op::Add { dst: Buf::X, src: Buf::H2, n: (n * h) as usize },
    ];
    assert(ops::all_fit(a, size));
    assert(ops::all_fit(e, size));
    assert(ops::all_fit(m, size));
    ops::lemma_all_fit_concat(a, b, size);
    ops::lemma_all_fit_concat(a + b, d, size);
    ops::lemma_all_fit_concat(a + b + d, e, size);
    ops::lemma_all_fit_concat(a + b + d + e, k, size);
    ops::lemma_all_fit_concat(a + b + d + e + k, m, size);
}

proof fn lemma_front_fits(g: G4Vision, n: int)
    requires
        sized(g.cfg, 0),
        is_ws(g.ws, g.cfg, g.lm_hidden as int),
        1 <= n <= 2520,
        768 <= g.cfg.hidden,
    ensures
        ops::all_fit(front_ops(g.cfg, n), |b: Buf| size_of(g.ws, b)),
{
    let c = g.cfg;
    let size = |b: Buf| size_of(g.ws, b);
    lemma_rows(c, n);
    let v = front_ops(c, n);
    assert(n * 768 <= 2520 * c.hidden);
    assert(ops::fits(v[0], size));
    assert(ops::fits(v[1], size));
    assert(ops::fits(v[2], size));
    assert(ops::fits(v[3], size));
    assert(ops::fits(v[4], size));
}

/// No step of the encoder leaves its buffers, for every grid within the budget,
/// where the heads are together no wider than the feed-forward block (whose
/// buffers hold the caches) and a patch is no wider than the residual stream
/// (whose buffer stages the patches).
pub proof fn law_encoding_stays_in_its_buffers(g: G4Vision, l: VisionClips, n: int)
    requires
        sized(g.cfg, 0),
        is_ws(g.ws, g.cfg, g.lm_hidden as int),
        1 <= n <= 2520,
        qd(g.cfg) <= g.cfg.inter,
        768 <= g.cfg.hidden,
    ensures
        ops::all_fit(front_ops(g.cfg, n), |b: Buf| size_of(g.ws, b)),
        ops::all_fit(layer_ops(g.cfg, l, n), |b: Buf| size_of(g.ws, b)),
{
    let c = g.cfg;
    let size = |b: Buf| size_of(g.ws, b);
    lemma_front_fits(g, n);
    lemma_qkv_fits(g, l, n);
    lemma_attn_fits(g, n);
    lemma_out_fits(g, l, n);
    lemma_mlp_fits(g, l, n);
    let (a, b, d, e) = (qkv_ops(c, l, n), attn_ops(c, n), out_ops(c, l, n), mlp_ops(c, l, n));
    ops::lemma_all_fit_concat(a, b, size);
    ops::lemma_all_fit_concat(a + b, d, size);
    ops::lemma_all_fit_concat(a + b + d, e, size);
}

/// The scratch buffers, and the rows that an image of `tokens` soft tokens
/// becomes.
pub open spec fn size_with_rows(g: G4Vision, tokens: int, b: Buf) -> int {
    if b == Buf::Encoded {
        ops::row_bytes(tokens, g.lm_hidden as int)
    } else {
        size_of(g.ws, b)
    }
}

/// The steps after pooling stay in their buffers, for every number of soft
/// tokens of a grid within the budget, and fill the image's own rows and no
/// more.
pub proof fn law_pooled_rows_stay_in_their_buffers(g: G4Vision, tokens: int)
    requires
        sized(g.cfg, g.lm_hidden as int),
        is_ws(g.ws, g.cfg, g.lm_hidden as int),
        0 <= tokens <= max_tokens(g.cfg),
    ensures
        ops::row_bytes(tokens, g.lm_hidden as int) <= usize::MAX,
        ops::all_fit(
            embed_ops(g.cfg, g.lm_hidden, tokens),
            |b: Buf| size_with_rows(g, tokens, b),
        ),
{
    let size = |b: Buf| size_with_rows(g, tokens, b);
    let (m, h, w) = (max_tokens(g.cfg), g.cfg.hidden as int, g.lm_hidden as int);
    lemma_tokens(g.cfg);
    assert(0 <= tokens * h <= m * h && 0 <= tokens * w <= m * w && m * w <= 2520 * w)
        by (nonlinear_arith)
        requires
            0 <= tokens <= m,
            m <= 2520,
            h >= 0,
            w >= 0,
    ;
    let v = embed_ops(g.cfg, g.lm_hidden, tokens);
    assert(ops::fits(v[0], size));
    assert(ops::fits(v[1], size));
}

} // verus!
