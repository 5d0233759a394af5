//! A small checkpoint made of noise: the same on every run.
use vstd::prelude::*;

use crate::ieee::Format;
use crate::models::transformer::config::ModelConfig;
use crate::models::CHUNK;
use crate::num::{f32_div, f32_from_i32, f32_mul, f32_sub};
use crate::tensor;
use crate::tensor::{DType, TensorMeta};
use crate::text;
use crate::weights::LoadedWeights;

verus! {

/// Where the noise starts.
pub const SEED: u64 = 0x5EED_CAFE_F00D;

/// One half, two, two to the twenty-fourth and a twentieth, in single
/// precision.
pub const HALF: u32 = 0x3f00_0000;

pub const TWO: u32 = 0x4000_0000;

pub const RANGE: u32 = 0x4b80_0000;

pub const NOISE: u32 = 0x3d4c_cccd;

/// Width, layers and the other sizes of the model.
pub const HIDDEN: usize = 64;

pub const INTER: usize = 128;

pub const LAYERS: usize = 2;

pub const HEADS: usize = 4;

pub const KV_HEADS: usize = 2;

pub const HEAD_DIM: usize = 16;

pub const VOCAB: usize = 256;

/// The next state of the noise.
pub open spec fn stirred(s: u64) -> u64 {
    let a = s ^ (s << 13);
    let b = a ^ (a >> 7);
    b ^ (b << 17)
}

/// The state after `n` draws.
pub open spec fn state_after(s: u64, n: int) -> u64
    decreases n,
{
    if n <= 0 {
        s
    } else {
        stirred(state_after(s, n - 1))
    }
}

/// The noise of a state: a number within `scale` of zero.
pub open spec fn noise(s: u64, scale: int) -> int {
    let u = (s >> 40) as int;
    let x = Format::F32.difference(
        Format::F32.quotient(Format::F32.of_int(u), RANGE as int),
        HALF as int,
    );
    Format::F32.product(Format::F32.product(x, TWO as int), scale)
}

/// A single-precision pattern cut to half precision: the exponent is moved,
/// the mantissa cut, and what is too small becomes zero.
pub open spec fn cut_half(b: u32) -> u16 {
    let s = b >> 31;
    let e = (b >> 23) & 0xff;
    let m = b & 0x7f_ffff;
    if e <= 112 {
        (s << 15) as u16
    } else {
        (((s << 15) | ((e - 112) as u32) << 10 | (m >> 13)) & 0xffff) as u16
    }
}

fn half_of(b: u32) -> (r: u16)
    ensures
        r == cut_half(b),
{
    let s: u32 = b >> 31;
    let e: u32 = (b >> 23) & 0xff;
    let m: u32 = b & 0x7f_ffff;
    if e <= 112 {
        (s << 15) as u16
    } else {
        (((s << 15) | (e - 112) << 10 | (m >> 13)) & 0xffff) as u16
    }
}

/// The two bytes of every half, low byte first.
pub open spec fn le_bytes(h: Seq<u16>) -> Seq<u8> {
    Seq::new(
        2 * h.len(),
        |i: int|
            if i % 2 == 0 {
                (h[i / 2] % 256) as u8
            } else {
                (h[i / 2] / 256) as u8
            },
    )
}

fn push_half(v: &mut Vec<u8>, h: u16, Ghost(hs): Ghost<Seq<u16>>)
    requires
        old(v)@ == le_bytes(hs),
    ensures
        final(v)@ == le_bytes(hs.push(h)),
{
    v.push((h % 256) as u8);
    v.push((h / 256) as u8);
    proof {
        let n = hs.len() as int;
        let want = le_bytes(hs.push(h));
        assert(v@.len() == want.len());
        assert forall|i: int| 0 <= i < want.len() implies v@[i] == want[i] by {
            if i < 2 * n {
                assert(v@[i] == le_bytes(hs)[i]);
                assert(hs.push(h)[i / 2] == hs[i / 2]);
            } else if i == 2 * n {
                assert(hs.push(h)[n] == h);
            } else {
                assert(i == 2 * n + 1);
                assert(hs.push(h)[n] == h);
            }
        }
        assert(v@ =~= want);
    }
}

/// A tensor of the model: noise, or ones.
pub struct Wanted {
    pub name: Seq<char>,
    pub shape: Seq<usize>,
    pub ones: bool,
}

/// A tensor of the model, held.
pub struct Want {
    pub name: String,
    pub shape: Vec<usize>,
    pub ones: bool,
}

impl View for Want {
    type V = Wanted;

    open spec fn view(&self) -> Wanted {
        Wanted { name: self.name@, shape: self.shape@, ones: self.ones }
    }
}

pub open spec fn wanted(v: Seq<Want>) -> Seq<Wanted> {
    Seq::new(v.len(), |i: int| v[i]@)
}

/// The name of a tensor of layer `l`.
pub open spec fn layer_tensor(l: int, s: Seq<char>) -> Seq<char> {
    "model.layers."@ + text::numeral(l) + "."@ + s
}

pub open spec fn one(name: Seq<char>, shape: Seq<usize>, ones: bool) -> Wanted {
    Wanted { name, shape, ones }
}

/// The tensors of a layer.
pub open spec fn layer_tensors(l: int) -> Seq<Wanted> {
    seq![
        one(layer_tensor(l, "self_attn.q_proj.weight"@), seq![64usize, 64usize], false),
        one(layer_tensor(l, "self_attn.k_proj.weight"@), seq![32usize, 64usize], false),
        one(layer_tensor(l, "self_attn.v_proj.weight"@), seq![32usize, 64usize], false),
        one(layer_tensor(l, "self_attn.o_proj.weight"@), seq![64usize, 64usize], false),
        one(layer_tensor(l, "mlp.gate_proj.weight"@), seq![128usize, 64usize], false),
        one(layer_tensor(l, "mlp.up_proj.weight"@), seq![128usize, 64usize], false),
        one(layer_tensor(l, "mlp.down_proj.weight"@), seq![64usize, 128usize], false),
        one(layer_tensor(l, "input_layernorm.weight"@), seq![64usize], true),
        one(layer_tensor(l, "post_attention_layernorm.weight"@), seq![64usize], true),
    ]
}

/// All tensors of the model, in the order in which they draw their noise.
pub open spec fn model_tensors() -> Seq<Wanted> {
    seq![one("model.embed_tokens.weight"@, seq![256usize, 64usize], false)] + layer_tensors(0)
        + layer_tensors(1) + seq![one("model.norm.weight"@, seq![64usize], true)]
}

fn want(name: &str, rows: usize, cols: usize, ones: bool) -> (r: Want)
    ensures
        r@ == one(
            name@,
            if cols == 0 {
                seq![rows]
            } else {
                seq![rows, cols]
            },
            ones,
        ),
{
    let mut shape: Vec<usize> = Vec::new();
    shape.push(rows);
    if cols != 0 {
        shape.push(cols);
        assert(shape@ =~= seq![rows, cols]);
    } else {
        assert(shape@ =~= seq![rows]);
    }
    Want { name: name.to_owned(), shape, ones }
}

fn in_layer(l: usize, s: &str) -> (r: String)
    ensures
        r@ == layer_tensor(l as int, s@),
{
    let mut n: String = "model.layers.".to_owned();
    text::push_number(&mut n, l);
    text::push_str(&mut n, ".");
    text::push_str(&mut n, s);
    n
}

fn push_layer(v: &mut Vec<Want>, l: usize)
    ensures
        wanted(final(v)@) == wanted(old(v)@) + layer_tensors(l as int),
{
    let ghost v0 = wanted(v@);
    v.push(want(in_layer(l, "self_attn.q_proj.weight").as_str(), HEADS * HEAD_DIM, HIDDEN, false));
    v.push(
        want(in_layer(l, "self_attn.k_proj.weight").as_str(), KV_HEADS * HEAD_DIM, HIDDEN, false),
    );
    v.push(
        want(in_layer(l, "self_attn.v_proj.weight").as_str(), KV_HEADS * HEAD_DIM, HIDDEN, false),
    );
    v.push(want(in_layer(l, "self_attn.o_proj.weight").as_str(), HIDDEN, HEADS * HEAD_DIM, false));
    v.push(want(in_layer(l, "mlp.gate_proj.weight").as_str(), INTER, HIDDEN, false));
    v.push(want(in_layer(l, "mlp.up_proj.weight").as_str(), INTER, HIDDEN, false));
    v.push(want(in_layer(l, "mlp.down_proj.weight").as_str(), HIDDEN, INTER, false));
    v.push(want(in_layer(l, "input_layernorm.weight").as_str(), HIDDEN, 0, true));
    v.push(want(in_layer(l, "post_attention_layernorm.weight").as_str(), HIDDEN, 0, true));
    assert(wanted(v@) =~= v0 + layer_tensors(l as int));
}

fn model_list() -> (r: Vec<Want>)
    ensures
        wanted(r@) == model_tensors(),
{
    let mut v: Vec<Want> = Vec::new();
    v.push(want("model.embed_tokens.weight", VOCAB, HIDDEN, false));
    assert(wanted(v@) =~= seq![one("model.embed_tokens.weight"@, seq![256usize, 64usize], false)]);
    push_layer(&mut v, 0);
    push_layer(&mut v, 1);
    let ghost before = wanted(v@);
    v.push(want("model.norm.weight", HIDDEN, 0, true));
    assert(wanted(v@) =~= before + seq![one("model.norm.weight"@, seq![64usize], true)]);
    v
}

/// The tensors and their bytes.
pub struct MockWeights {
    pub metas: Vec<TensorMeta>,
    pub data: Vec<Vec<u8>>,
}

/// A half-precision entry of the index.
pub open spec fn is_entry(m: TensorMeta, name: Seq<char>, shape: Seq<usize>) -> bool {
    &&& m.name@ == name
    &&& m.dtype == DType::F16
    &&& m.shape@ == shape
    &&& m.offset == 0
    &&& m.nbytes == 2 * tensor::product(shape)
    &&& m.file@ == "mock"@
}

/// Noise from a state on.
pub open spec fn noise_halves(s: u64, n: int, scale: int) -> Seq<u16> {
    Seq::new(n as nat, |i: int| cut_half(noise(state_after(s, i + 1), scale) as u32))
}

/// Ones.
pub open spec fn one_halves(n: int) -> Seq<u16> {
    Seq::new(n as nat, |i: int| 0x3c00u16)
}

/// The elements and their bytes are machine numbers.
pub open spec fn small(shape: Seq<usize>) -> bool {
    &&& forall|i: int|
        0 <= i <= shape.len() ==> #[trigger] tensor::product(shape.take(i)) <= usize::MAX
    &&& 2 * tensor::product(shape) <= usize::MAX
}

fn entry(name: &str, shape: &Vec<usize>) -> (r: TensorMeta)
    requires
        small(shape@),
    ensures
        is_entry(r, name@, shape@),
        r.countable(),
{
    let mut m: TensorMeta = TensorMeta {
        name: name.to_owned(),
        dtype: DType::F16,
        shape: shape.clone(),
        offset: 0,
        nbytes: 0,
        file: "mock".to_owned(),
    };
    assert(m.shape@ =~= shape@);
    let n: usize = m.numel();
    m.nbytes = 2 * n;
    m
}

impl MockWeights {
    /// Every tensor has its bytes.
    pub open spec fn wf(&self) -> bool {
        self.metas@.len() == self.data@.len()
    }

    pub fn new() -> (r: Self)
        ensures
            r.wf(),
            r.metas@.len() == 0,
    {
        MockWeights { metas: Vec::new(), data: Vec::new() }
    }

    /// Add a tensor of noise; the state moves on by one draw per element.
    pub fn add(&mut self, name: &str, shape: &Vec<usize>, seed: &mut u64, scale: u32)
        requires
            old(self).wf(),
            small(shape@),
        ensures
            final(self).wf(),
            final(self).metas@.len() == old(self).metas@.len() + 1,
            final(self).metas@.take(old(self).metas@.len() as int) == old(self).metas@,
            final(self).data@.take(old(self).data@.len() as int) == old(self).data@,
            is_entry(final(self).metas@.last(), name@, shape@),
            final(self).data@.last()@ == le_bytes(
                noise_halves(*old(seed), tensor::product(shape@), scale as int),
            ),
            *final(seed) == state_after(*old(seed), tensor::product(shape@)),
    {
        let m: TensorMeta = entry(name, shape);
        let n: usize = m.numel();
        let mut b: Vec<u8> = Vec::new();
        let ghost s0 = *seed;
        let ghost hs = Seq::<u16>::empty();
        assert(b@ =~= le_bytes(hs));
        let mut i: usize = 0;
        while i < n
            invariant
                i <= n,
                *seed == state_after(s0, i as int),
                hs =~= noise_halves(s0, i as int, scale as int),
                b@ == le_bytes(hs),
            decreases n - i,
        {
            let s1: u64 = *seed ^ (*seed << 13);
            let s2: u64 = s1 ^ (s1 >> 7);
            let s3: u64 = s2 ^ (s2 << 17);
            *seed = s3;
            let u: u64 = s3 >> 40;
            assert(u == s3 >> 40 ==> u < 0x100_0000) by (bit_vector);
            let x: u32 = f32_sub(f32_div(f32_from_i32(u as i32), RANGE), HALF);
            let v: u32 = f32_mul(f32_mul(x, TWO), scale);
            let h: u16 = half_of(v);
            push_half(&mut b, h, Ghost(hs));
            proof {
                hs = hs.push(h);
            }
            i = i + 1;
        }
        assert(hs =~= noise_halves(s0, n as int, scale as int));
        self.metas.push(m);
        self.data.push(b);
        assert(self.metas@.take(old(self).metas@.len() as int) =~= old(self).metas@);
        assert(self.data@.take(old(self).data@.len() as int) =~= old(self).data@);
    }

    /// Add a tensor of ones.
    pub fn ones(&mut self, name: &str, shape: &Vec<usize>)
        requires
            old(self).wf(),
            small(shape@),
        ensures
            final(self).wf(),
            final(self).metas@.len() == old(self).metas@.len() + 1,
            final(self).metas@.take(old(self).metas@.len() as int) == old(self).metas@,
            final(self).data@.take(old(self).data@.len() as int) == old(self).data@,
            is_entry(final(self).metas@.last(), name@, shape@),
            final(self).data@.last()@ == le_bytes(one_halves(tensor::product(shape@))),
    {
        let m: TensorMeta = entry(name, shape);
        let n: usize = m.numel();
        let mut b: Vec<u8> = Vec::new();
        let ghost hs = Seq::<u16>::empty();
        assert(b@ =~= le_bytes(hs));
        let mut i: usize = 0;
        while i < n
            invariant
                i <= n,
                hs =~= one_halves(i as int),
                b@ == le_bytes(hs),
            decreases n - i,
        {
            push_half(&mut b, 0x3c00, Ghost(hs));
            proof {
                hs = hs.push(0x3c00u16);
            }
            i = i + 1;
        }
        assert(hs =~= one_halves(n as int));
        self.metas.push(m);
        self.data.push(b);
        assert(self.metas@.take(old(self).metas@.len() as int) =~= old(self).metas@);
        assert(self.data@.take(old(self).data@.len() as int) =~= old(self).data@);
    }

    /// The checkpoint that the tensors make.
    pub fn weights(&self) -> (r: LoadedWeights<'_>)
        requires
            self.wf(),
            forall|i: int, j: int|
                0 <= i < j < self.metas@.len() ==> (#[trigger] self.metas@[i]).name@ != (
                #[trigger] self.metas@[j]).name@,
            forall|i: int| 0 <= i < self.metas@.len() ==> small((#[trigger] self.metas@[i]).shape@),
            forall|i: int|
                0 <= i < self.metas@.len() ==> is_entry(
                    #[trigger] self.metas@[i],
                    self.metas@[i].name@,
                    self.metas@[i].shape@,
                ),
        ensures
            r.wf(),
            r.metas@.len() == self.metas@.len(),
            forall|i: int|
                0 <= i < r.metas@.len() ==> is_entry(
                    #[trigger] r.metas@[i],
                    self.metas@[i].name@,
                    self.metas@[i].shape@,
                ),
            forall|i: int| 0 <= i < r.data@.len() ==> (#[trigger] r.data@[i])@ == self.data@[i]@,
    {
        let mut metas: Vec<TensorMeta> = Vec::new();
        let mut data: Vec<&[u8]> = Vec::new();
        let mut i: usize = 0;
        while i < self.metas.len()
            invariant
                i <= self.metas@.len(),
                self.wf(),
                metas@.len() == i,
                data@.len() == i,
                forall|k: int|
                    0 <= k < self.metas@.len() ==> small((#[trigger] self.metas@[k]).shape@),
                forall|k: int|
                    0 <= k < i ==> is_entry(
                        #[trigger] metas@[k],
                        self.metas@[k].name@,
                        self.metas@[k].shape@,
                    ),
                forall|k: int| 0 <= k < i ==> (#[trigger] data@[k])@ == self.data@[k]@,
            decreases self.metas@.len() - i,
        {
            let m: &TensorMeta = &self.metas[i];
            assert(small(self.metas@[i as int].shape@));
            metas.push(entry(m.name.as_str(), &m.shape));
            data.push(self.data[i].as_slice());
            i = i + 1;
        }
        let r: LoadedWeights<'_> = LoadedWeights { metas, data };
        assert(r.distinct()) by {
            assert forall|i: int, j: int| 0 <= i < j < r.metas@.len() implies (
            #[trigger] r.metas@[i]).name@ != (#[trigger] r.metas@[j]).name@ by {
                assert(self.metas@[i].name@ != self.metas@[j].name@);
            }
        }
        r
    }
}

/// The state before tensor `n` draws.
pub open spec fn state_before(ws: Seq<Wanted>, n: int) -> u64
    decreases n,
{
    if n <= 0 {
        SEED
    } else if ws[n - 1].ones {
        state_before(ws, n - 1)
    } else {
        state_after(state_before(ws, n - 1), tensor::product(ws[n - 1].shape))
    }
}

/// The bytes of tensor `i`.
pub open spec fn bytes_of(ws: Seq<Wanted>, i: int) -> Seq<u8> {
    let n = tensor::product(ws[i].shape);
    le_bytes(
        if ws[i].ones {
            one_halves(n)
        } else {
            noise_halves(state_before(ws, i), n, NOISE as int)
        },
    )
}

proof fn lemma_small(shape: Seq<usize>)
    requires
        1 <= shape.len() <= 2,
        forall|i: int| 0 <= i < shape.len() ==> #[trigger] shape[i] <= 4096,
    ensures
        small(shape),
{
    reveal_with_fuel(tensor::product, 4);
    let a = shape[0] as int;
    assert(shape.take(0) =~= Seq::<usize>::empty());
    assert(shape.take(1) =~= seq![shape[0]]);
    assert(seq![shape[0]].drop_last() =~= Seq::<usize>::empty());
    assert(tensor::product(seq![shape[0]]) == a);
    if shape.len() == 2 {
        let b = shape[1] as int;
        assert(shape.take(2) =~= shape);
        assert(shape.drop_last() =~= seq![shape[0]]);
        assert(tensor::product(shape) == a * b);
        assert(0 <= a * b <= 0x100_0000) by (nonlinear_arith)
            requires
                0 <= a <= 4096,
                0 <= b <= 4096,
        ;
    } else {
        assert(shape =~= seq![shape[0]]);
    }
    assert forall|i: int| 0 <= i <= shape.len() implies #[trigger] tensor::product(shape.take(i))
        <= usize::MAX by {
        if i == 0 {
        } else if i == 1 {
        } else {
            assert(shape.take(i) =~= shape);
        }
    }
}

/// The sizes of the model.
pub open spec fn is_mock(c: ModelConfig) -> bool {
    &&& c.model_type@ == "mock-llama"@
    &&& c.hidden_size == HIDDEN
    &&& c.intermediate_size == INTER
    &&& c.n_layers == LAYERS
    &&& c.n_heads == HEADS
    &&& c.n_kv_heads == KV_HEADS
    &&& c.head_dim == HEAD_DIM
    &&& c.vocab_size == VOCAB
    &&& c.rms_eps == 0x3586_37bd
    &&& c.rope_theta == 0x461c_4000
    &&& c.max_seq == 2 * CHUNK + 64
    &&& c.tie_word_embeddings
    &&& !c.qkv_bias
    &&& c.quant_method is None
    &&& c.vision is None
    &&& c.audio is None
    &&& !c.is_embedding
}

/// The model: more positions than two chunks hold, tied embeddings, and
/// weights of noise.
pub fn mock_model() -> (r: (ModelConfig, MockWeights))
    ensures
        is_mock(r.0),
        r.1.wf(),
        r.1.metas@.len() == model_tensors().len(),
        forall|i: int|
            0 <= i < model_tensors().len() ==> is_entry(
                #[trigger] r.1.metas@[i],
                model_tensors()[i].name,
                model_tensors()[i].shape,
            ),
        forall|i: int|
            0 <= i < model_tensors().len() ==> (#[trigger] r.1.data@[i])@ == bytes_of(
                model_tensors(),
                i,
            ),
{
    let cfg: ModelConfig = ModelConfig {
        model_type: "mock-llama".to_owned(),
        hidden_size: HIDDEN,
        intermediate_size: INTER,
        n_layers: LAYERS,
        n_heads: HEADS,
        n_kv_heads: KV_HEADS,
        head_dim: HEAD_DIM,
        vocab_size: VOCAB,
        rms_eps: 0x3586_37bd,
        rope_theta: 0x461c_4000,
        max_seq: CHUNK * 2 + 64,
        tie_word_embeddings: true,
        qkv_bias: false,
        quant_method: None,
        vision: None,
        audio: None,
        is_embedding: false,
    };
    let list: Vec<Want> = model_list();
    let ghost ws = model_tensors();
    let mut w: MockWeights = MockWeights::new();
    let mut seed: u64 = SEED;
    let mut i: usize = 0;
    while i < list.len()
        invariant
            i <= list@.len(),
            ws == wanted(list@),
            ws == model_tensors(),
            w.wf(),
            w.metas@.len() == i,
            seed == state_before(ws, i as int),
            forall|k: int|
                0 <= k < i ==> is_entry(#[trigger] w.metas@[k], ws[k].name, ws[k].shape),
            forall|k: int| 0 <= k < i ==> (#[trigger] w.data@[k])@ == bytes_of(ws, k),
        decreases list@.len() - i,
    {
        proof {
            assert(ws[i as int] == list@[i as int]@);
            lemma_shapes(i as int);
            lemma_small(ws[i as int].shape);
        }
        let ghost m0 = w.metas@;
        let ghost d0 = w.data@;
        if list[i].ones {
            w.ones(list[i].name.as_str(), &list[i].shape);
        } else {
            w.add(list[i].name.as_str(), &list[i].shape, &mut seed, NOISE);
        }
        proof {
            assert forall|k: int| 0 <= k < i + 1 implies is_entry(
                #[trigger] w.metas@[k],
                ws[k].name,
                ws[k].shape,
            ) by {
                if k < i {
                    assert(w.metas@.take(i as int)[k] == m0[k]);
                }
            }
            assert forall|k: int| 0 <= k < i + 1 implies (#[trigger] w.data@[k])@ == bytes_of(
                ws,
                k,
            ) by {
                if k < i {
                    assert(w.data@.take(i as int)[k] == d0[k]);
                }
            }
        }
        i = i + 1;
    }
    (cfg, w)
}

proof fn lemma_shapes(i: int)
    requires
        0 <= i < model_tensors().len(),
    ensures
        1 <= model_tensors()[i].shape.len() <= 2,
        forall|k: int|
            0 <= k < model_tensors()[i].shape.len() ==> #[trigger] model_tensors()[i].shape[k]
                <= 4096,
{
    let a = layer_tensors(0);
    let b = layer_tensors(1);
    let ws = model_tensors();
    assert(a.len() == 9 && b.len() == 9);
    if 1 <= i < 10 {
        assert(ws[i] == a[i - 1]);
    } else if 10 <= i < 19 {
        assert(ws[i] == b[i - 10]);
    }
}

} // verus!
