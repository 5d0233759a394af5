use cima::json::{parse, Json};
use cima::models::gemma4::config::{G4Config, LayerType};
use cima::models::gemma4::plan::{kv_share_sources, prefill_scratch_bytes};
use cima::tensor::{DType, TensorMeta};
use cima::weights::LoadedWeights;

fn full_config() -> Json {
    parse(r#"{
        "model_type": "gemma4",
        "image_token_id": 258880, "audio_token_id": 258881,
        "boi_token_id": 255999, "eoi_token_id": 258882,
        "boa_token_id": 256000, "eoa_token_id": 258883,
        "text_config": {
            "hidden_size": 1536, "intermediate_size": 6144,
            "num_hidden_layers": 35, "num_attention_heads": 8,
            "num_key_value_heads": 1, "head_dim": 256, "global_head_dim": 512,
            "vocab_size": 262144, "rms_norm_eps": 1e-6,
            "max_position_embeddings": 32768, "sliding_window": 512,
            "num_kv_shared_layers": 20, "pad_token_id": 0,
            "hidden_size_per_layer_input": 256,
            "vocab_size_per_layer_input": 262144,
            "final_logit_softcapping": 30.0,
            "layer_types": ["sliding_attention","sliding_attention","sliding_attention","sliding_attention","full_attention",
                            "sliding_attention","sliding_attention","sliding_attention","sliding_attention","full_attention",
                            "sliding_attention","sliding_attention","sliding_attention","sliding_attention","full_attention",
                            "sliding_attention","sliding_attention","sliding_attention","sliding_attention","full_attention",
                            "sliding_attention","sliding_attention","sliding_attention","sliding_attention","full_attention",
                            "sliding_attention","sliding_attention","sliding_attention","sliding_attention","full_attention",
                            "sliding_attention","sliding_attention","sliding_attention","sliding_attention","full_attention"],
            "rope_parameters": {
                "sliding_attention": {"rope_type": "default", "rope_theta": 10000.0},
                "full_attention": {"rope_type": "proportional", "rope_theta": 1000000.0, "partial_rotary_factor": 0.25}
            }
        },
        "vision_config": null, "audio_config": null
    }"#).unwrap()
}

/// Full layers rotate `partial_rotary_factor * global_head_dim / 2` frequency
/// pairs.
#[test]
fn proportional_rope_params() {
    let cfg = G4Config::parse(&full_config(), false).unwrap();
    assert_eq!(cfg.text.full_nfreqs, 64, "0.25 * 512 / 2");
    assert_eq!(f32::from_bits(cfg.text.theta_sliding), 10_000.0);
    assert_eq!(f32::from_bits(cfg.text.theta_full), 1_000_000.0);
}

/// A configuration without rotary parameters takes the defaults.
#[test]
fn stripped_config_defaults() {
    let mut j = full_config();
    if let Json::Obj(o) = &mut j {
        if let Some((_, Json::Obj(t))) = o.iter_mut().find(|(k, _)| k == "text_config") {
            t.retain(|(k, _)| k != "rope_parameters" && k != "final_logit_softcapping");
        }
    }
    let cfg = G4Config::parse(&j, false).unwrap();
    assert_eq!(f32::from_bits(cfg.text.theta_sliding), 10_000.0);
    assert_eq!(f32::from_bits(cfg.text.theta_full), 1_000_000.0);
    assert_eq!(cfg.text.full_nfreqs, 64);
}

/// A shared layer reads the last computing layer of its own type.
#[test]
fn kv_share_by_type() {
    let cfg = G4Config::parse(&full_config(), false).unwrap();
    let map = kv_share_sources(&cfg.text.layer_types, 15).unwrap();
    for (i, &src) in map.iter().enumerate().take(15) {
        assert_eq!(src, i, "computing layer {} reads itself", i);
    }
    for (i, &src) in map.iter().enumerate().take(35).skip(15) {
        let expect = if cfg.text.layer_types[i] == LayerType::Sliding {
            13
        } else {
            14
        };
        assert_eq!(
            src, expect,
            "shared layer {} ({:?})",
            i, cfg.text.layer_types[i]
        );
    }
}

/// A shared layer with no earlier computing layer of its type is an error.
#[test]
fn kv_share_missing_source_errors() {
    let types = vec![LayerType::Sliding, LayerType::Full, LayerType::Full];
    // Layer 1 (full) shares, but no full layer computes.
    assert!(kv_share_sources(&types, 1).is_err());
}

/// No layers at all, and none that share.
#[test]
fn kv_share_degenerate() {
    assert!(kv_share_sources(&[], 0).unwrap().is_empty());
    let all = vec![LayerType::Sliding; 4];
    assert_eq!(kv_share_sources(&all, 4).unwrap(), vec![0, 1, 2, 3]);
}

fn meta(name: &str, shape: Vec<usize>, dtype: DType) -> TensorMeta {
    TensorMeta {
        name: name.to_string(),
        dtype,
        shape,
        offset: 0,
        nbytes: 0,
        file: String::new(),
    }
}

/// The scratch holds the largest block-encoded weight that a prefill product
/// reads, and leaves the embedding out.
#[test]
fn prefill_scratch_sized_for_gguf_weights() {
    let w = LoadedWeights {
        metas: vec![
            meta(
                "language_model.layers.0.mlp.down_proj.weight",
                vec![1536, 6144],
                DType::GgufQ4K,
            ),
            // Gathered on the device, no product reads it whole.
            meta(
                "language_model.embed_tokens.weight",
                vec![262144, 1536],
                DType::GgufQ4K,
            ),
            // A norm weight needs no scratch.
            meta("language_model.norm.weight", vec![1536], DType::F16),
        ],
        data: vec![&[], &[], &[]],
    };
    let bytes = prefill_scratch_bytes(&w);
    let ffn = 1536 * 6144 * 2;
    let embed = 262144 * 1536 * 2;
    assert_eq!(
        bytes, ffn,
        "scratch must fit the largest prefill weight ({} bytes), got {}",
        ffn, bytes
    );
    assert!(bytes > 0);
    assert!(bytes < embed, "the embedding is no part of the scratch");
}
