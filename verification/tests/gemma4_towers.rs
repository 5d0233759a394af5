use cima::models::gemma4::audio::G4Audio;
use cima::models::gemma4::config::{G4AudioCfg, G4VisionCfg};
use cima::models::gemma4::conformer::AudioClips;
use cima::models::gemma4::encode::Grid;
use cima::models::gemma4::index::{G4Index, IndexError};
use cima::models::gemma4::tower::{Clips, TowerError, TowerNeed};
use cima::models::gemma4::vision::{G4Vision, VisionClips};
use cima::models::ops::{encoded_bytes, Buf, Op, Weight};
use cima::quant::gguf::{CodecError, GgufCodec};
use cima::tensor::{DType, TensorMeta};
use cima::weights::LoadedWeights;

type Tensors = Vec<(TensorMeta, Vec<u8>)>;

fn add(v: &mut Tensors, name: String, shape: &[usize]) {
    let n: usize = shape.iter().product();
    let meta = TensorMeta {
        name,
        dtype: DType::F16,
        shape: shape.to_vec(),
        offset: 0,
        nbytes: 2 * n,
        file: String::new(),
    };
    v.push((meta, vec![0u8; 2 * n]));
}

fn view(v: &Tensors) -> LoadedWeights<'_> {
    LoadedWeights {
        metas: v.iter().map(|(m, _)| m.copy()).collect(),
        data: v.iter().map(|(_, b)| b.as_slice()).collect(),
    }
}

fn vision_config() -> G4VisionCfg {
    G4VisionCfg {
        hidden: 8,
        n_layers: 2,
        n_heads: 2,
        head_dim: 4,
        inter: 16,
        patch: 16,
        pos_table: 10,
        pool_k: 3,
        rms_eps: 1e-6f32.to_bits(),
        theta: 100.0f32.to_bits(),
    }
}

fn vision_tensors() -> Tensors {
    let mut v = vec![];
    for i in 0..2 {
        let p = format!("vision_tower.encoder.layers.{i}.");
        for n in ["input", "post_attention", "pre_feedforward", "post_feedforward"] {
            add(&mut v, format!("{p}{n}_layernorm.weight"), &[8]);
        }
        for n in ["q", "k", "v", "o"] {
            add(&mut v, format!("{p}self_attn.{n}_proj.linear.weight"), &[8, 8]);
        }
        add(&mut v, format!("{p}self_attn.q_norm.weight"), &[4]);
        add(&mut v, format!("{p}self_attn.k_norm.weight"), &[4]);
        add(&mut v, format!("{p}mlp.gate_proj.linear.weight"), &[16, 8]);
        add(&mut v, format!("{p}mlp.up_proj.linear.weight"), &[16, 8]);
        add(&mut v, format!("{p}mlp.down_proj.linear.weight"), &[8, 16]);
    }
    add(&mut v, "vision_tower.patch_embedder.input_proj.weight".to_string(), &[8, 768]);
    let table = "vision_tower.patch_embedder.position_embedding_table";
    add(&mut v, table.to_string(), &[2, 10, 8]);
    add(&mut v, "embed_vision.embedding_projection.weight".to_string(), &[32, 8]);
    v
}

fn vision(v: &Tensors) -> Result<G4Vision, (usize, TowerError)> {
    let w = view(v);
    let codec = GgufCodec { resident: true };
    G4Vision::build(vision_config(), &G4Index::new(&w, &codec, 0), 32)
}

#[test]
fn a_vision_tower_is_checked_place_by_place() {
    let g = match vision(&vision_tensors()) {
        Ok(g) => g,
        Err(e) => panic!("{e:?}"),
    };
    assert!(!g.standardized);
    assert_eq!((g.places.len(), g.entries.len()), (29, 29));
    assert_eq!(g.ws.x, 2520 * 8 * 2);
    assert!(matches!(g.places[4].need, TowerNeed::Clip { n_out: 8, n_in: 8 }));
    let mut v = vision_tensors();
    v.remove(3);
    assert_eq!(vision(&v).err(), Some((3, TowerError::Index(IndexError::Missing))));
    let mut v = vision_tensors();
    v[26] = (v[26].0.copy(), vec![0; 10]);
    assert_eq!(
        vision(&v).err(),
        Some((26, TowerError::PatchElems { got: 5, want: 8 * 768 }))
    );
    let mut v = vision_tensors();
    v[0].1.truncate(8);
    assert_eq!(
        vision(&v).err(),
        Some((0, TowerError::Index(IndexError::Codec(CodecError::Short))))
    );
}

#[test]
fn patches_run_through_every_layer() {
    let g = vision(&vision_tensors()).ok().unwrap();
    let grid = Grid { w: 6, h: 3 };
    let front = g.embed_patches(grid);
    assert_eq!(
        front[0],
        Op::Gemm { weight: Weight::InputProj, src: Buf::H, dst: Buf::X, rows: 18, n: 8, k: 768 }
    );
    assert!(matches!(front[3], Op::Gather { row0: 10, ids: Buf::GatherY, .. }));
    let plain = Clips { input: None, output: None };
    let bound = Clips { input: Some((1, 2)), output: None };
    let layer = VisionClips {
        q: bound,
        k: plain,
        v: plain,
        o: plain,
        gate: plain,
        up: plain,
        down: plain,
    };
    let ops = g.encode(grid, &vec![layer, layer]);
    assert_eq!(ops.len(), 2);
    assert_eq!(ops[0], ops[1]);
    let clamps = ops[0].iter().filter(|o| matches!(o, Op::Clamp { lo: 1, hi: 2, .. })).count();
    assert_eq!(clamps, 1);
    assert!(ops[0].iter().any(|o| matches!(o, Op::Rope2d { rows: 18, heads: 2, dim: 4, .. })));
    assert_eq!(
        g.embed(2),
        [
            Op::Gemm {
                weight: Weight::EmbProj,
                src: Buf::Pooled,
                dst: Buf::Out,
                rows: 2,
                n: 32,
                k: 8
            },
            Op::Copy { src: Buf::Out, dst: Buf::Encoded, n: 64 },
        ]
    );
    assert_eq!(encoded_bytes(2, g.lm_hidden), 128);
}

fn audio_config() -> G4AudioCfg {
    G4AudioCfg {
        hidden: 8,
        n_layers: 1,
        n_heads: 2,
        chunk: 4,
        past: 3,
        logit_cap: 50.0f32.to_bits(),
        invalid_logit: (-1e9f32).to_bits(),
        conv_k: 5,
        sub_ch: (4, 2),
        out_dims: 6,
        residual_w: 0.5f32.to_bits(),
        rms_eps: 1e-6f32.to_bits(),
        mels: 128,
    }
}

fn audio_tensors() -> Tensors {
    let mut v = vec![];
    let s = "audio_tower.subsample_conv_projection.";
    add(&mut v, format!("{s}layer0.conv.weight"), &[4, 1, 3, 3]);
    add(&mut v, format!("{s}layer0.norm.weight"), &[4]);
    add(&mut v, format!("{s}layer1.conv.weight"), &[2, 4, 3, 3]);
    add(&mut v, format!("{s}layer1.norm.weight"), &[2]);
    let p = "audio_tower.layers.0.";
    add(&mut v, format!("{p}self_attn.per_dim_scale"), &[4]);
    add(&mut v, format!("{p}lconv1d.depthwise_conv1d.weight"), &[8, 1, 5]);
    for f in ["feed_forward1", "feed_forward2"] {
        add(&mut v, format!("{p}{f}.pre_layer_norm.weight"), &[8]);
        add(&mut v, format!("{p}{f}.ffw_layer_1.linear.weight"), &[32, 8]);
        add(&mut v, format!("{p}{f}.ffw_layer_2.linear.weight"), &[8, 32]);
        add(&mut v, format!("{p}{f}.post_layer_norm.weight"), &[8]);
    }
    add(&mut v, format!("{p}norm_pre_attn.weight"), &[8]);
    add(&mut v, format!("{p}norm_post_attn.weight"), &[8]);
    for n in ["q_proj", "k_proj", "v_proj", "post"] {
        add(&mut v, format!("{p}self_attn.{n}.linear.weight"), &[8, 8]);
    }
    add(&mut v, format!("{p}self_attn.relative_k_proj.weight"), &[8, 8]);
    add(&mut v, format!("{p}lconv1d.pre_layer_norm.weight"), &[8]);
    add(&mut v, format!("{p}lconv1d.linear_start.linear.weight"), &[16, 8]);
    add(&mut v, format!("{p}lconv1d.conv_norm.weight"), &[8]);
    add(&mut v, format!("{p}lconv1d.linear_end.linear.weight"), &[8, 8]);
    add(&mut v, format!("{p}norm_out.weight"), &[8]);
    add(&mut v, format!("{s}input_proj_linear.weight"), &[8, 2]);
    add(&mut v, "audio_tower.output_proj.weight".to_string(), &[6, 8]);
    add(&mut v, "audio_tower.output_proj.bias".to_string(), &[6]);
    add(&mut v, "embed_audio.embedding_projection.weight".to_string(), &[32, 6]);
    v
}

fn audio(v: &Tensors) -> Result<G4Audio, (usize, TowerError)> {
    let w = view(v);
    let codec = GgufCodec { resident: true };
    G4Audio::build(audio_config(), &G4Index::new(&w, &codec, 0), 32)
}

#[test]
fn an_audio_tower_is_checked_place_by_place() {
    let a = match audio(&audio_tensors()) {
        Ok(a) => a,
        Err(e) => panic!("{e:?}"),
    };
    assert_eq!((a.places.len(), a.entries.len()), (30, 30));
    assert_eq!(a.ws.rel, 4 * 8 * 2);
    let mut v = audio_tensors();
    v[5].0.shape = vec![4, 2, 5];
    assert_eq!(audio(&v).err(), Some((5, TowerError::Index(IndexError::Shape))));
    let mut v = audio_tensors();
    v[0].0.dtype = DType::U8;
    assert_eq!(
        audio(&v).err(),
        Some((0, TowerError::Index(IndexError::Unsupported { dtype: DType::U8 })))
    );
}

#[test]
fn clips_run_through_the_conformer() {
    let a = audio(&audio_tensors()).ok().unwrap();
    let c = Clips { input: None, output: None };
    let l = AudioClips {
        ff1_up: c,
        ff1_down: c,
        ff2_up: c,
        ff2_down: c,
        q: c,
        k: c,
        v: c,
        post: c,
        start: c,
        end: c,
    };
    let (first, body, out) = a.encode(&vec![l], 3, 7);
    assert_eq!(
        first,
        Op::Gemm { weight: Weight::InputProj, src: Buf::H, dst: Buf::X, rows: 3, n: 8, k: 2 }
    );
    assert_eq!(body.len(), 1);
    assert_eq!(
        body[0][0],
        Op::Gemm { weight: Weight::RelKProj, src: Buf::RelPe, dst: Buf::RelK, rows: 4, n: 8, k: 8 }
    );
    assert!(body[0].iter().any(|o| matches!(o, Op::AudioAttn { rows: 3, heads: 2, past: 3, .. })));
    assert!(body[0].iter().any(|o| matches!(o, Op::DwConv { rows: 3, width: 8, taps: 5, .. })));
    assert_eq!(
        out,
        [
            Op::Gemm { weight: Weight::OutProj, src: Buf::X, dst: Buf::Out, rows: 3, n: 6, k: 8 },
            Op::AddBias { weight: Weight::OutBias, buf: Buf::Out, rows: 3, width: 6 },
            Op::RmsNorm { src: Buf::Out, row0: 0, weight: None, dst: Buf::Out, rows: 3, width: 6 },
            Op::Gemm {
                weight: Weight::EmbProj,
                src: Buf::Out,
                dst: Buf::Encoded,
                rows: 3,
                n: 32,
                k: 6
            },
        ]
    );
    assert_eq!(encoded_bytes(3, a.lm_hidden), 3 * 32 * 2);
}
