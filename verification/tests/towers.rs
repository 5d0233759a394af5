use cima::media::ImageTensor;
use cima::models::ops::{Buf, Op, Weight};
use cima::models::towers::encode::{unfold_frames, unfold_image, EncodeError, PatchGrid};
use cima::models::towers::{EncoderTower, TowerError, TowerKind};
use cima::models::transformer::config::EncoderConfig;
use cima::models::transformer::graph::{PlaceError, WeightIndex};
use cima::num::f32_to_f16;
use cima::quant::gguf::GgufCodec;
use cima::tensor::{DType, TensorMeta};
use cima::weights::LoadedWeights;

const LAYER: [&str; 15] = [
    "layer_norm1.weight",
    "layer_norm1.bias",
    "self_attn.q_proj.weight",
    "self_attn.q_proj.bias",
    "self_attn.k_proj.weight",
    "self_attn.v_proj.weight",
    "self_attn.v_proj.bias",
    "self_attn.out_proj.weight",
    "self_attn.out_proj.bias",
    "layer_norm2.weight",
    "layer_norm2.bias",
    "mlp.fc1.weight",
    "mlp.fc1.bias",
    "mlp.fc2.weight",
    "mlp.fc2.bias",
];

fn config() -> EncoderConfig {
    EncoderConfig {
        hidden_size: 8,
        intermediate_size: 16,
        n_layers: 1,
        n_heads: 2,
        layer_norm_eps: 1e-6f32.to_bits(),
        input_size: 8,
        patch_size: 2,
    }
}

fn meta(name: &str, n: usize) -> TensorMeta {
    TensorMeta {
        name: name.to_string(),
        dtype: DType::F16,
        shape: vec![n],
        offset: 0,
        nbytes: 2 * n,
        file: String::new(),
    }
}

/// A vision tower with a class token.
fn tensors() -> Vec<(TensorMeta, Vec<u8>)> {
    let p = "vision_tower.vision_model.";
    let mut names = vec![(format!("{p}embeddings.patch_embedding.weight"), 8 * 3 * 4)];
    for l in LAYER {
        names.push((format!("{p}encoder.layers.0.{l}"), 8));
    }
    names.push((format!("{p}embeddings.class_embedding"), 8));
    names.push(("multi_modal_projector.linear_1.weight".to_string(), 64));
    names
        .into_iter()
        .map(|(s, n)| (meta(&s, n), vec![0u8; 2 * n]))
        .collect()
}

fn view(v: &[(TensorMeta, Vec<u8>)]) -> LoadedWeights<'_> {
    LoadedWeights {
        metas: v.iter().map(|(m, _)| m.copy()).collect(),
        data: v.iter().map(|(_, b)| b.as_slice()).collect(),
    }
}

fn build(ec: &EncoderConfig, v: &[(TensorMeta, Vec<u8>)]) -> Result<EncoderTower, TowerError> {
    let w = view(v);
    let codec = GgufCodec { resident: false };
    EncoderTower::build(ec, &WeightIndex::new(&w, &codec), TowerKind::Vision, 32)
}

#[test]
fn a_vision_tower_builds() {
    let t = build(&config(), &tensors()).ok().unwrap();
    assert_eq!(t.head_dim, 4);
    assert_eq!(t.lm_hidden, 32);
    assert_eq!(
        t.image_grid(4, 6),
        Ok(PatchGrid { w: 3, h: 2, class: true })
    );
    assert!(matches!(
        t.image_grid(200, 200),
        Err(EncodeError::TooManyPatches { patches: 10_000, .. })
    ));
    let ops = t.encode_image(PatchGrid { w: 3, h: 2, class: true }, 0);
    assert!(ops.iter().any(|o| matches!(
        o,
        Op::Gemm { weight: Weight::InputProj, src: Buf::Stage, rows: 6, n: 8, k: 12, .. }
    )));
}

#[test]
fn what_stops_a_tower() {
    let odd = EncoderConfig { n_heads: 3, ..config() };
    assert!(matches!(
        build(&odd, &tensors()).err(),
        Some(TowerError::Heads { hidden: 8, heads: 3 })
    ));
    let mut v = tensors();
    v[0] = (meta("vision_tower.vision_model.embeddings.patch_embedding.weight", 5), vec![0; 10]);
    assert!(matches!(
        build(&config(), &v).err(),
        Some(TowerError::Elements { index: 0, got: 5, want: 96 })
    ));
    let mut v = tensors();
    v.retain(|(m, _)| !m.name.ends_with("fc2.bias"));
    assert!(matches!(
        build(&config(), &v).err(),
        Some(TowerError::Place { error: PlaceError::Missing, .. })
    ));
    let mut v = tensors();
    let last = v.len() - 1;
    v[last].1.truncate(2);
    assert!(matches!(
        build(&config(), &v).err(),
        Some(TowerError::Projector(PlaceError::Codec(_)))
    ));
    let mut v = tensors();
    v.pop();
    assert!(matches!(build(&config(), &v).err(), Some(TowerError::NoProjector)));
}

#[test]
fn images_unfold_channel_by_channel() {
    let img = ImageTensor {
        data: (0..3 * 4 * 6).map(|i| (i as f32).to_bits()).collect(),
        channels: 3,
        height: 4,
        width: 6,
    };
    let r = unfold_image(&img, 2, PatchGrid { w: 3, h: 2, class: false });
    assert_eq!(r.len(), 6 * 12);
    let h = |x: usize| f32_to_f16((x as f32).to_bits());
    // The second patch of the first row: columns two and three.
    assert_eq!(r[12..16], [h(2), h(3), h(8), h(9)]);
    assert_eq!(r[16], h(24 + 2));
}

#[test]
fn frames_unfold_with_silence_around() {
    // Three frames of two channels.
    let x = vec![1, 2, 3, 4, 5, 6];
    assert_eq!(
        unfold_frames(&x, 3, 2, 1, 3),
        [0, 1, 3, 0, 2, 4, 1, 3, 5, 2, 4, 6, 3, 5, 0, 4, 6, 0]
    );
    assert_eq!(
        unfold_frames(&x, 3, 2, 2, 2),
        [0, 1, 3, 0, 2, 4, 3, 5, 0, 4, 6, 0]
    );
}

/// An audio tower of one layer.
fn audio_tensors() -> Vec<(TensorMeta, Vec<u8>)> {
    let p = "audio_tower.";
    let mut names = vec![
        (format!("{p}conv1.weight"), 8 * 2 * 3),
        (format!("{p}conv1.bias"), 8),
        (format!("{p}conv2.weight"), 8 * 8 * 3),
    ];
    for l in LAYER {
        names.push((format!("{p}layers.0.{l}"), 8));
    }
    names.push(("multi_modal_projector.linear_1.weight".to_string(), 128));
    names
        .into_iter()
        .map(|(s, n)| (meta(&s, n), vec![0u8; 2 * n]))
        .collect()
}

#[test]
fn an_audio_tower_halves_its_frames() {
    let v = audio_tensors();
    let w = view(&v);
    let codec = GgufCodec { resident: false };
    let ix = WeightIndex::new(&w, &codec);
    let t = match EncoderTower::build(&config(), &ix, TowerKind::Audio, 32) {
        Ok(t) => t,
        Err(e) => panic!("{e:?}"),
    };
    assert_eq!(t.max_tokens, 8);
    assert_eq!(t.mid_dim(&w), 16);
    assert!(matches!(t.audio_rows(0), Err(EncodeError::NoFrames)));
    assert_eq!(t.audio_rows(1), Ok((1, 1)));
    assert_eq!(t.audio_rows(7), Ok((7, 3)));
    assert_eq!(t.audio_rows(100), Ok((16, 8)));
    assert_eq!(
        t.audio_first(7),
        vec![
            Op::Gemm { weight: Weight::InputProj, src: Buf::Stage, dst: Buf::Q, rows: 7, n: 8, k: 6 },
            Op::AddBias { weight: Weight::PatchBias, buf: Buf::Q, rows: 7, width: 8 },
            Op::Gelu { buf: Buf::Q, n: 56 },
        ]
    );
    let second = t.audio_second(3, 16);
    assert_eq!(
        second[0],
        Op::Gemm { weight: Weight::Conv2, src: Buf::Stage, dst: Buf::X, rows: 3, n: 8, k: 24 }
    );
    assert_eq!(second[1], Op::Gelu { buf: Buf::X, n: 24 });
    assert_eq!(
        second[second.len() - 1],
        Op::Gemm { weight: Weight::Proj1, src: Buf::X, dst: Buf::Encoded, rows: 3, n: 32, k: 8 }
    );
}

#[test]
fn the_projector_is_as_wide_as_its_first_linear() {
    let v = tensors();
    let w = view(&v);
    let codec = GgufCodec { resident: false };
    let ix = WeightIndex::new(&w, &codec);
    let t = match EncoderTower::build(&config(), &ix, TowerKind::Vision, 32) {
        Ok(t) => t,
        Err(e) => panic!("{e:?}"),
    };
    assert_eq!(t.head_dim, 4);
    // 64 elements over rows of 8.
    assert_eq!(t.projector_width(&ix), 8);
}

#[test]
fn a_tower_without_heads_counts_as_one_head() {
    let headless = EncoderConfig { n_heads: 0, ..config() };
    assert_eq!(build(&headless, &tensors()).err(), Some(TowerError::Heads { hidden: 8, heads: 0 }));
}
