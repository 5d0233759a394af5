use cima::json::parse;
use cima::models::checkpoint::{
    gguf_graph, load_transient, local_name, override_rope, pick_gguf, pick_towers, quant_gate,
    resolve_markers, route, split_selector, standard_tokenizer, tokenizer_from_gguf_meta,
    GgufGraph, GgufTokens, PickError, Route,
};
use cima::models::gemma4::config::G4Config;
use cima::tensor::{DType, TensorMeta};
use cima::tokenizer::BpeTokenizer;
use cima::weights::LoadedWeights;

fn strings(v: &[&str]) -> Vec<String> {
    v.iter().map(|s| s.to_string()).collect()
}

#[test]
fn selectors_have_tags() {
    assert_eq!(split_selector("org/model"), ("org/model".to_string(), None));
    assert_eq!(
        split_selector("org/model:Q4_K:x"),
        ("org/model".to_string(), Some("Q4_K:x".to_string()))
    );
}

#[test]
fn selectors_name_directories() {
    assert_eq!(local_name("ORG/REPO:TAG"), "ORG__REPO@TAG");
    assert_eq!(local_name("ORG/REPO"), "ORG__REPO");
    assert_eq!(local_name(&split_selector("ORG/REPO").0), local_name("ORG/REPO"));
    assert_eq!(local_name("model"), "model");
}

#[test]
fn snapshots_are_routed() {
    assert_eq!(route(true, 0, true, true), Route::Gguf);
    assert_eq!(route(false, 2, false, true), Route::Gguf);
    assert_eq!(route(false, 2, true, true), Route::Safetensors);
    assert_eq!(route(false, 0, false, true), Route::Incomplete);
    assert_eq!(route(false, 0, false, false), Route::Absent);
}

#[test]
fn one_quantization_method_is_taken() {
    assert_eq!(quant_gate(None, "llama"), Ok(false));
    assert_eq!(quant_gate(Some("bitsandbytes"), "llama"), Ok(true));
    assert_eq!(quant_gate(Some("bitsandbytes"), "gemma4"), Ok(false));
    assert_eq!(quant_gate(Some("gptq"), "llama"), Err(()));
}

#[test]
fn towers_are_no_model() {
    let files = strings(&["m-Q4_K_M.gguf", "m-q4_k.gguf", "MMPROJ-q4_k.gguf", "m-Q8_0.gguf"]);
    assert_eq!(pick_gguf(&files, Some("Q4_K")), Ok(1));
    assert_eq!(pick_gguf(&files, Some("q8_0")), Ok(3));
    assert_eq!(pick_gguf(&files, Some("q2")), Err(PickError::NoMatch));
    assert_eq!(pick_gguf(&files, None), Err(PickError::Ambiguous { files: 3 }));
    assert_eq!(pick_gguf(&vec![], None), Err(PickError::Absent));
    assert_eq!(pick_gguf(&strings(&["mmproj.gguf", "a.gguf"]), None), Ok(1));
}

#[test]
fn half_precision_towers_are_preferred() {
    let files = strings(&["a.gguf", "mmproj-f32.gguf", "mmproj-bf16.gguf", "mmproj-F16.gguf"]);
    assert_eq!(pick_towers(&files), Some(3));
    assert_eq!(pick_towers(&files[..3].to_vec()), Some(2));
    assert_eq!(pick_towers(&files[..1].to_vec()), None);
}

#[test]
fn architectures_are_known_or_not() {
    assert_eq!(gguf_graph("gemma3n", &vec![]), GgufGraph::Gemma4);
    assert_eq!(gguf_graph("qwen3", &vec![]), GgufGraph::Standard);
    assert_eq!(
        gguf_graph("jamba", &strings(&["jamba.ssm.conv_kernel"])),
        GgufGraph::Unknown { hybrid: true }
    );
    assert_eq!(gguf_graph("bert", &vec![]), GgufGraph::Unknown { hybrid: false });
    assert!(standard_tokenizer(None) && standard_tokenizer(Some("gpt2")));
    assert!(!standard_tokenizer(Some("llama")));
}

fn config() -> G4Config {
    let j = parse(
        r#"{
        "image_token_id": 9,
        "text_config": {
            "hidden_size": 64, "intermediate_size": 128, "num_hidden_layers": 2,
            "num_attention_heads": 2, "num_key_value_heads": 1, "head_dim": 32,
            "global_head_dim": 64, "vocab_size": 100, "sliding_window": 16,
            "max_position_embeddings": 128,
            "layer_types": ["sliding_attention", "full_attention"]
        }
    }"#,
    )
    .unwrap();
    G4Config::parse(&j, false).unwrap()
}

#[test]
fn metadata_override_the_rotary_recipe() {
    let mut c = config();
    let before = c.text.full_nfreqs;
    override_rope(&mut c.text, Some(40), Some(5), None, true);
    assert_eq!(c.text.full_nfreqs, before);
    override_rope(&mut c.text, Some(40), Some(5), Some(6), false);
    assert_eq!((c.text.full_nfreqs, c.text.theta_full, c.text.theta_sliding), (20, 5, 6));
    assert!(c.text.use_rope_factors);
    override_rope(&mut c.text, Some(1000), None, None, false);
    assert_eq!(c.text.full_nfreqs, 32);
    override_rope(&mut c.text, Some(1), None, None, false);
    assert_eq!(c.text.full_nfreqs, 1);
    // Heads without a pair to rotate matter only where a width is given.
    c.text.global_head_dim = 1;
    override_rope(&mut c.text, Some(40), None, None, true);
    override_rope(&mut c.text, None, Some(7), None, false);
    assert_eq!((c.text.full_nfreqs, c.text.theta_full), (1, 7));
}

#[test]
fn markers_come_from_the_tokenizer() {
    let tokens = strings(&["x", "<|audio|>", "<start_of_image>", "<|image>", "<end_of_audio>"]);
    let tk = BpeTokenizer::from_gguf(&tokens, &vec![], &vec![], None, vec![], false, vec![]);
    let mut c = config();
    resolve_markers(&mut c, &tk);
    let m = c.markers();
    assert_eq!((m.image, m.image_start, m.image_end), (9, 3, 0));
    assert_eq!((m.audio, m.audio_start, m.audio_end), (1, 0, 4));
}

fn meta(name: &str, dtype: DType, n: usize) -> TensorMeta {
    TensorMeta {
        name: name.to_string(),
        dtype,
        shape: vec![n],
        offset: 0,
        nbytes: 0,
        file: String::new(),
    }
}

#[test]
fn the_largest_conversion_is_staged() {
    let w = LoadedWeights {
        metas: vec![
            meta("a.weight", DType::F32, 100),
            meta("b.weight", DType::F16, 9999),
            meta("embed_tokens_per_layer.weight", DType::F32, 5000),
            meta("c.absmax", DType::F32, 5000),
        ],
        data: vec![&[], &[], &[], &[]],
    };
    assert_eq!(load_transient(&w), 400);
}

#[test]
fn tokenizers_from_metadata() {
    let some = |v: &[&str]| Some(v.iter().map(|s| Some(s.to_string())).collect::<Vec<_>>());
    let mut g = GgufTokens {
        tokens: some(&["a", "b", "ab"]),
        merges: some(&["a b"]),
        types: None,
        scores: None,
        bos: Some(1),
        eos: Some(2),
        add_bos: None,
    };
    let tk = tokenizer_from_gguf_meta(&g, true).unwrap();
    assert_eq!(tk.encode("ab", true), [1, 2]);
    assert_eq!(tk.eos_ids(), &vec![2]);
    assert!(tk.adds_bos());
    assert_eq!(tk.bos_literal(), Some("b"));
    g.add_bos = Some(false);
    assert!(!tokenizer_from_gguf_meta(&g, true).unwrap().adds_bos());
    g.tokens = None;
    assert!(tokenizer_from_gguf_meta(&g, true).is_none());
}
