use cima::json::parse;
use cima::models::capture::Launch;
use cima::models::gemma4::config::{ConfigError, G4Config, LayerType};
use cima::models::gemma4::feed::Pick;
use cima::models::gemma4::graph::{BuildError, Gemma4};
use cima::models::gemma4::identity::{gather_ple_identity, IdentityError};
use cima::models::gemma4::index::{decode_f32, same_shape, shape_view_ok, G4Index, IndexError};
use cima::models::gemma4::plan::{layer_plans, NoKvSource};
use cima::models::gemma4::probe::stage_ends;
use cima::models::gemma4::schedule::Pass;
use cima::models::gemma4::slots::{text_slots, Need, SlotError};
use cima::models::ops::{Buf, Op, Weight};
use cima::models::prompt::{Chunk, FeedError, MediaRows, PreparedPrompt, Splice};
use cima::num::f32_to_f16;
use cima::quant::gguf::GgufCodec;
use cima::tensor::{DType, TensorMeta};
use cima::weights::LoadedWeights;

const CONFIG: &str = r#"{
    "text_config": {
        "hidden_size": 64, "intermediate_size": 96, "num_hidden_layers": 4,
        "num_attention_heads": 2, "num_key_value_heads": 1, "head_dim": 32,
        "global_head_dim": 64, "vocab_size": 100, "sliding_window": 16,
        "max_position_embeddings": 1000, "num_kv_shared_layers": 1,
        "hidden_size_per_layer_input": 8, "vocab_size_per_layer_input": 100,
        "layer_types": ["sliding_attention", "full_attention", "sliding_attention",
                        "full_attention"]
    }
}"#;

fn config() -> G4Config {
    G4Config::parse(&parse(CONFIG).unwrap(), false).unwrap()
}

/// A checkpoint of zeros that fills every place.
fn tensors(cfg: &G4Config) -> Vec<(TensorMeta, Vec<u8>)> {
    let plans = layer_plans(&cfg.text).unwrap();
    let mut v: Vec<(TensorMeta, Vec<u8>)> = vec![];
    for s in text_slots(&cfg.text, &plans) {
        let shape = match s.need {
            Need::Embedding { vocab, hidden } => vec![vocab, hidden],
            Need::HostTable { rows, cols } => vec![rows, cols],
            Need::Norm { len } => vec![len],
            Need::Linear { n_out, n_in } => vec![n_out, n_in],
            Need::Present => continue,
            Need::Scalar => vec![1],
        };
        let n: usize = shape.iter().product();
        if v.iter().any(|(m, _)| m.name == s.name) {
            continue;
        }
        v.push((
            TensorMeta {
                name: s.name,
                dtype: DType::F16,
                shape,
                offset: 0,
                nbytes: 2 * n,
                file: String::new(),
            },
            vec![0u8; 2 * n],
        ));
    }
    v
}

fn view(v: &[(TensorMeta, Vec<u8>)]) -> LoadedWeights<'_> {
    LoadedWeights {
        metas: v.iter().map(|(m, _)| m.copy()).collect(),
        data: v.iter().map(|(_, b)| b.as_slice()).collect(),
    }
}

fn build() -> Gemma4 {
    let cfg = config();
    let v = tensors(&cfg);
    let w = view(&v);
    let codec = GgufCodec { resident: true };
    let ix = G4Index::new(&w, &codec, 0);
    match Gemma4::build(cfg, &ix, 32, None) {
        Ok(g) => g,
        Err(e) => panic!("{e:?}"),
    }
}

#[test]
fn layers_follow_their_types() {
    let p = layer_plans(&config().text).unwrap();
    let kinds: Vec<(bool, usize, usize, usize)> =
        p.iter().map(|l| (l.shared, l.kv_src, l.head_dim, l.window)).collect();
    assert_eq!(
        kinds,
        [(false, 0, 32, 16), (false, 1, 64, 0), (false, 2, 32, 16), (true, 1, 64, 0)]
    );
    assert_eq!(p[1].qd, 128);
    // Without a full layer that computes, the first full layer has no source.
    let mut t = config().text;
    t.layer_types = vec![
        LayerType::Sliding,
        LayerType::Sliding,
        LayerType::Full,
        LayerType::Full,
    ];
    t.n_kv_shared = 2;
    assert_eq!(
        layer_plans(&t).err(),
        Some(NoKvSource { layer: 2, ty: LayerType::Full })
    );
}

#[test]
fn unfit_configurations_are_named() {
    let err = |from: &str, to: &str| {
        G4Config::parse(&parse(&CONFIG.replace(from, to)).unwrap(), false).err().unwrap()
    };
    assert!(matches!(
        G4Config::parse(&parse("{}").unwrap(), false).err().unwrap(),
        ConfigError::NoTextConfig
    ));
    assert!(matches!(err(r#""hidden_size": 64, "#, ""), ConfigError::Missing("hidden_size")));
    assert!(matches!(
        err(r#""num_hidden_layers": 4"#, r#""num_hidden_layers": 5"#),
        ConfigError::LayerCount { listed: 4, declared: 5 }
    ));
    assert!(matches!(
        err("\"full_attention\", \"sliding", "\"linear\", \"sliding"),
        ConfigError::UnknownLayerType { index: 1 }
    ));
    assert!(matches!(
        err(r#""num_kv_shared_layers": 1"#, r#""num_kv_shared_layers": 3"#),
        ConfigError::KvSource(LayerType::Full)
    ));
    assert!(matches!(
        err(r#""sliding_window": 16"#, r#""sliding_window": 16, "enable_moe_block": true"#),
        ConfigError::MoeBlock
    ));
    assert!(matches!(
        err(r#""num_key_value_heads": 1"#, r#""num_key_value_heads": 3"#),
        ConfigError::KvHeads { heads: 2, kv: 3 }
    ));
}

#[test]
fn a_complete_checkpoint_builds() {
    let g = build();
    assert_eq!(g.layers.len(), 4);
    assert_eq!(g.slots.len(), g.entries.len());
    assert!(!g.vision && !g.audio && !g.rope_factors);
    assert_eq!(g.embed_gguf, None);
    // The scalars of the checkpoint are zeros.
    assert_eq!(g.scalars, [0, 0, 0, 0]);
    assert_eq!(g.pos, 0);
}

#[test]
fn a_missing_place_is_named() {
    let cfg = config();
    let mut v = tensors(&cfg);
    v.retain(|(m, _)| m.name != "language_model.layers.2.mlp.up_proj.weight");
    let w = view(&v);
    let codec = GgufCodec { resident: true };
    match Gemma4::build(cfg, &G4Index::new(&w, &codec, 0), 32, None) {
        Err(BuildError::Slot { .. }) => {}
        Err(e) => panic!("{e:?}"),
        Ok(_) => panic!("a projection is missing"),
    }
}

#[test]
fn shared_layers_compute_no_keys() {
    let g = build();
    let layers = g.forward_chunk(Pass { rows: 3, pos0: 2, blocks: false, counter: false }, true);
    assert_eq!(layers.len(), 4);
    let keys = |l: &Vec<Op>| l.iter().any(|o| matches!(o, Op::Gemm { weight: Weight::Wk, .. }));
    assert!(keys(&layers[0]) && keys(&layers[1]) && !keys(&layers[3]));
    assert!(layers[3].iter().any(|o| matches!(
        o,
        Op::AttnPrefill { kc: Buf::KCache(1), window: 0, rows: 3, pos0: 2, .. }
    )));
    assert!(layers[2].iter().any(|o| matches!(
        o,
        Op::AttnPrefill { kc: Buf::KCache(2), window: 16, .. }
    )));
}

fn prompt(n: usize, media: Vec<MediaRows>, blocks: Vec<i32>) -> PreparedPrompt {
    PreparedPrompt { tokens: vec![1; n], media_embeds: media, block_ids: blocks }
}

#[test]
fn blocks_are_not_cut() {
    let mut g = build();
    let mut ids = vec![-1i32; 600];
    for b in &mut ids[500..530] {
        *b = 0;
    }
    let p = prompt(600, vec![MediaRows { at: 500, ptr: 1, rows: 30 }], ids);
    let plan = g.prefill(&p, 0).unwrap();
    assert!(plan.has_blocks);
    let chunks: Vec<Chunk> = plan.chunks.iter().map(|c| c.chunk).collect();
    assert_eq!(chunks, [Chunk { start: 0, take: 500 }, Chunk { start: 500, take: 100 }]);
    assert!(plan.chunks[0].splices.is_empty());
    assert_eq!(
        plan.chunks[1].splices,
        [Splice { media: 0, src_row: 0, dst_row: 0, rows: 30 }]
    );
    assert_eq!(g.pos, 600);
    assert_eq!(g.blk_host.len(), 600);
    g.decode_step(600).unwrap();
    assert_eq!(g.blk_host.last(), Some(&-1));
    let stale = g.reset();
    assert_eq!((g.pos, g.blk_host.len()), (0, 0));
    assert!(stale.contains(&Buf::KCache(2)) && !stale.contains(&Buf::KCache(3)));
}

#[test]
fn logits_are_those_of_the_last_token() {
    let mut g = build();
    let mut ids = vec![-1i32; 600];
    for b in &mut ids[400..] {
        *b = 0;
    }
    let p = prompt(600, vec![MediaRows { at: 400, ptr: 1, rows: 200 }], ids);
    let plan = g.prefill(&p, 0).unwrap();
    let chunks: Vec<Chunk> = plan.chunks.iter().map(|c| c.chunk).collect();
    assert_eq!(chunks, [Chunk { start: 0, take: 400 }, Chunk { start: 400, take: 200 }]);
    let logits = g.project_last(&plan.chunks, Pick::Logits);
    assert!(matches!(logits[0], Op::RmsNorm { src: Buf::X, row0: 199, rows: 1, .. }));
    g.reset();
    let (again, head) = g.prefill_argmax(&p, 0).unwrap();
    assert_eq!(again.chunks.len(), 2);
    assert_eq!(head[0], logits[0]);
    assert!(matches!(head.last(), Some(Op::Argmax { n: 100, .. })));
}

#[test]
fn feeding_stops_at_the_end_of_the_caches() {
    let mut g = build();
    assert_eq!(g.prefill(&prompt(0, vec![], vec![]), 0).err(), Some(FeedError::Empty));
    assert_eq!(
        g.prefill(&prompt(2, vec![], vec![]), 999).err(),
        Some(FeedError::Capacity { want: 1001, max_seq: 1000 })
    );
    assert!(g.decode_step(1000).is_err());
    assert_eq!(g.embed_rows(5000), 512);
    assert_eq!(g.embed_rows(7), 7);
}

#[test]
fn the_front_and_the_tail() {
    let g = build();
    let e = g.embed_tokens(4);
    assert!(matches!(e[0], Op::Gather { table: Weight::Embed, rows: 4, width: 64, .. }));
    assert!(!g.compute_ple(4).is_empty());
    let t = g.project(3, Pick::Greedy);
    assert!(t.iter().any(|o| matches!(o, Op::Argmax { n: 100, .. })));
    let (front, layers, tail) = g.enqueue_tail(Pick::Logits, true);
    assert!(!front.is_empty());
    assert_eq!(layers.len(), 4);
    assert_eq!(tail.last(), Some(&Op::PosBump));
    // The captured tail is that of the chunk, with and without per-layer inputs.
    let pass = || Pass { rows: 1, pos0: 0, blocks: false, counter: true };
    assert_eq!(layers, g.forward_chunk(pass(), true));
    let (_, without, _) = g.enqueue_tail(Pick::Logits, false);
    assert_eq!(without, g.forward_chunk(pass(), false));
    assert!(without.iter().zip(&layers).all(|(a, b)| a.len() < b.len()));
    assert!(matches!(t[1], Op::Gemm { weight: Weight::Embed, rows: 1, n: 100, k: 64, .. }));
    let mut packed = build();
    packed.embed_gguf = Some(DType::GgufQ8_0);
    assert!(matches!(
        packed.project(3, Pick::Greedy)[1],
        Op::Gemv { weight: Weight::Embed, bias: None, n: 100, k: 64, .. }
    ));
    let pool = g.embed_pool(9);
    assert_eq!(pool.last(), Some(&Op::MeanPool { rows: 9, width: 64 }));
}

#[test]
fn per_layer_inputs_are_gathered_on_the_host() {
    let cfg = config();
    let cols = 4 * 8;
    let table: Vec<u8> = (0..100 * cols)
        .flat_map(|i| f32_to_f16(((i / cols) as f32).to_bits()).to_le_bytes())
        .collect();
    let got = gather_ple_identity(&cfg, DType::F16, &table, &[3, 7]).unwrap();
    assert_eq!(got.len(), 2 * cols);
    // Rows are scaled by the square root of their width.
    let want = |id: f32| f32_to_f16((id * 8f32.sqrt()).to_bits());
    assert_eq!(got[0], want(3.0));
    assert_eq!(got[cols], want(7.0));
    assert_eq!(
        gather_ple_identity(&cfg, DType::F16, &table, &[3, 100]),
        Err(IdentityError::Vocab { id: 100, vocab: 100 })
    );
    // Of the table only the rows that are read have to be there.
    let start = &table[..8 * 2 * cols];
    assert_eq!(gather_ple_identity(&cfg, DType::F16, start, &[3, 7]).unwrap(), got);
    assert_eq!(
        gather_ple_identity(&cfg, DType::F16, start, &[3, 100, 99]),
        Err(IdentityError::Vocab { id: 100, vocab: 100 })
    );
}

#[test]
fn the_forecast_counts_the_caches() {
    let cfg = config();
    let v = tensors(&cfg);
    let w = view(&v);
    let (weights, kv, rest) = Gemma4::forecast_bytes(&cfg, &w, &GgufCodec { resident: true });
    assert!(weights > 0 && rest > 0);
    // Three computing layers: two of width 32 and one of width 64.
    assert_eq!(kv, 2 * 2 * 1000 * (32 + 64 + 32));
}

#[test]
fn shapes_and_plain_tensors() {
    assert!(same_shape(&[2, 3], &[2, 3]) && !same_shape(&[2, 3], &[3, 2]));
    assert!(shape_view_ok(&[2, 3], &[2, 3]));
    let b: Vec<u8> = [1.0f32, -2.0].iter().flat_map(|x| x.to_le_bytes()).collect();
    assert_eq!(
        decode_f32(DType::F32, &b).unwrap(),
        [1.0f32.to_bits(), (-2.0f32).to_bits()]
    );
    assert_eq!(decode_f32(DType::BF16, &[0x80, 0x3f]).unwrap(), [1.0f32.to_bits()]);
    assert!(decode_f32(DType::U8, &[1]).is_err());
}

#[test]
fn the_pipeline_replays_its_tail() {
    let mut g = build();
    assert!(matches!(
        g.decode_step_argmax(0),
        Ok(Launch::Steps(Pass { rows: 1, pos0: 0, blocks: false, counter: false }))
    ));
    assert!(g.arm_decode_graph(1, false).capture);
    g.keep_decode_graph(true);
    assert!(matches!(g.decode_step_argmax(1), Ok(Launch::Replay)));
    assert_eq!((g.pos, g.blk_host.clone()), (2, vec![-1, -1]));
    let p = 1.5f32.to_bits();
    assert!(g.arm_sample_graph(2, p, false).capture);
    g.keep_sample_graph(p, true);
    assert!(g.decode_step_sample(2).is_ok());
    assert_eq!(g.pos, 3);
    let end = g.max_seq();
    assert!(g.decode_step_sample(end).is_err());
    assert_eq!(g.pos, 3);
    assert!(g.perf_levers().cuda_graph && !g.perf_levers().device_pipeline);
    assert!(g.has_vision() == g.vision && g.has_audio() == g.audio);
    assert_eq!(g.extra_eos(), &g.config().text.eos);
}

#[test]
fn every_unfit_configuration_has_a_name() {
    let err = |from: &str, to: &str| {
        assert!(CONFIG.contains(from), "{from}");
        G4Config::parse(&parse(&CONFIG.replace(from, to)).unwrap(), false).err().unwrap()
    };
    let with = |s: &str| err(r#""sliding_window": 16"#, &format!(r#""sliding_window": 16, {s}"#));
    assert!(matches!(
        with(r#""use_bidirectional_attention": "all""#),
        ConfigError::BidirectionalAll
    ));
    assert!(matches!(err(r#""layer_types""#, r#""types""#), ConfigError::NoLayerTypes));
    assert!(matches!(
        with(r#""rope_parameters": {"sliding_attention": {"rope_type": "yarn"}}"#),
        ConfigError::SlidingRope
    ));
    assert!(matches!(
        with(r#""rope_parameters": {"full_attention": {"rope_type": "yarn"}}"#),
        ConfigError::FullRope
    ));
    assert!(matches!(
        with(r#""rope_parameters": {"full_attention": {"factor": 2.0}}"#),
        ConfigError::RopeFactor
    ));
    assert!(matches!(
        with(r#""rope_parameters": {"full_attention": {"partial_rotary_factor": 0.0}}"#),
        ConfigError::RotaryWidth { width: 0 }
    ));
    assert!(matches!(
        with(r#""num_global_key_value_heads": 3"#),
        ConfigError::GlobalKvHeads { heads: 2, kv: 3 }
    ));
    assert!(matches!(
        err(r#""num_kv_shared_layers": 1"#, r#""num_kv_shared_layers": 4"#),
        ConfigError::KvShared { shared: 4, layers: 4 }
    ));
    assert!(matches!(
        err(r#""vocab_size_per_layer_input": 100"#, r#""vocab_size_per_layer_input": 0"#),
        ConfigError::NoPleVocab
    ));
    let top = |s: &str| err(r#""text_config""#, &format!(r#"{s}, "text_config""#));
    assert!(matches!(
        top(r#""vision_config": {"hidden_size": 8, "num_attention_heads": 2,
               "num_key_value_heads": 1}"#),
        ConfigError::VisionGqa { heads: 2, kv: 1 }
    ));
    assert!(matches!(
        top(r#""audio_config": {"attention_context_right": 2}"#),
        ConfigError::AudioFuture { right: 2 }
    ));
    assert!(matches!(
        top(r#""audio_config": {"subsampling_conv_channels": [1]}"#),
        ConfigError::AudioChannels
    ));
}

#[test]
fn every_unfit_place_has_a_name() {
    let fault = |change: &dyn Fn(&mut Vec<(TensorMeta, Vec<u8>)>)| {
        let cfg = config();
        let mut v = tensors(&cfg);
        change(&mut v);
        let w = view(&v);
        let codec = GgufCodec { resident: true };
        match Gemma4::build(cfg, &G4Index::new(&w, &codec, 0), 32, None) {
            Err(BuildError::Slot { error, .. }) => error,
            Err(e) => panic!("{e:?}"),
            Ok(_) => panic!("the place is unfit"),
        }
    };
    let at = |v: &Vec<(TensorMeta, Vec<u8>)>, end: &str| {
        v.iter().position(|(m, _)| m.name.ends_with(end)).unwrap()
    };
    assert_eq!(
        fault(&|v| {
            let i = at(v, "mlp.up_proj.weight");
            v.remove(i);
        }),
        SlotError::Index(IndexError::Missing)
    );
    assert_eq!(
        fault(&|v| {
            let i = at(v, "embed_tokens.weight");
            v[i].0.shape = vec![64, 100];
        }),
        SlotError::EmbeddingShape
    );
    assert_eq!(
        fault(&|v| {
            let i = at(v, "embed_tokens_per_layer.weight");
            v[i].0.shape.reverse();
        }),
        SlotError::TableShape
    );
    assert_eq!(
        fault(&|v| {
            let i = at(v, "embed_tokens_per_layer.weight");
            let n = v[i].1.len();
            v[i].0.dtype = DType::F32;
            v[i].0.nbytes = 2 * n;
            v[i].1 = vec![0; 2 * n];
        }),
        SlotError::TableType { dtype: DType::F32 }
    );
    let plans = layer_plans(&config().text).unwrap();
    let key = text_slots(&config().text, &plans)
        .into_iter()
        .find(|s| matches!(s.need, Need::Present))
        .unwrap()
        .name;
    assert_eq!(fault(&|v| v.retain(|(m, _)| m.name != key)), SlotError::NoKeyProjection);
}

#[test]
fn a_tower_that_cannot_be_built_is_left_out() {
    let text = CONFIG.replace(
        r#""text_config""#,
        r#""vision_config": {"hidden_size": 8, "num_attention_heads": 2, "num_hidden_layers": 1,
            "intermediate_size": 16, "patch_size": 16, "position_embedding_size": 10,
            "pooling_kernel_size": 3}, "text_config""#,
    );
    let cfg = G4Config::parse(&parse(&text).unwrap(), false).unwrap();
    let mut v = tensors(&cfg);
    v.push((
        TensorMeta {
            name: "vision_tower.patch_embedder.input_proj.weight".to_string(),
            dtype: DType::F16,
            shape: vec![8, 768],
            offset: 0,
            nbytes: 2 * 8 * 768,
            file: String::new(),
        },
        vec![0u8; 2 * 8 * 768],
    ));
    let w = view(&v);
    let codec = GgufCodec { resident: true };
    let ix = G4Index::new(&w, &codec, 0);
    let mut g = match Gemma4::build(cfg, &ix, 32, None) {
        Ok(g) => g,
        Err(e) => panic!("{e:?}"),
    };
    assert!(g.has_vision() && !g.has_audio());
    let t = g.attach_towers(&ix);
    assert!(t.vision.is_none() && t.vision_fault.is_some() && t.audio_fault.is_none());
    assert!(!g.has_vision());
    assert_eq!(g.layers.len(), 4);
}

#[test]
fn small_tensors_are_read_to_the_host() {
    let values = [1.5f32, -2.0, 0.25, 8.0];
    let bytes: Vec<u8> = values.iter().flat_map(|x| x.to_le_bytes()).collect();
    let packed = vec![0u8; 34];
    let meta = |name: &str, dtype, shape: Vec<usize>, nbytes| TensorMeta {
        name: name.to_string(),
        dtype,
        shape,
        offset: 0,
        nbytes,
        file: String::new(),
    };
    let w = LoadedWeights {
        metas: vec![
            meta("vision_tower.std_bias", DType::F32, vec![2, 2], 16),
            meta("packed", DType::GgufQ8_0, vec![32], 34),
        ],
        data: vec![&bytes, &packed],
    };
    let codec = GgufCodec { resident: true };
    let ix = G4Index::new(&w, &codec, 0);
    let bits: Vec<u32> = values.iter().map(|x| x.to_bits()).collect();
    assert_eq!(ix.host_f32("vision_tower.std_bias", &[2, 2]), Ok(bits.clone()));
    assert_eq!(ix.host_f32("vision_tower.std_bias", &[]), Ok(bits));
    assert_eq!(ix.host_f32("vision_tower.std_bias", &[3]), Err(IndexError::Shape));
    assert_eq!(ix.host_f32("vision_tower.std_scale", &[2]), Err(IndexError::Missing));
    assert_eq!(
        ix.host_f32("packed", &[32]),
        Err(IndexError::Unsupported { dtype: DType::GgufQ8_0 })
    );
}

#[test]
fn layers_end_their_parts_on_the_residual_stream() {
    let g = build();
    for (ple, parts) in [(true, 3), (false, 2)] {
        let pass = Pass { rows: 4, pos0: 0, blocks: false, counter: false };
        for ops in g.forward_chunk(pass, ple) {
            let ends = stage_ends(&ops);
            assert_eq!(ends.len(), parts);
            assert!(ends.windows(2).all(|w| w[0] < w[1]));
            for e in ends {
                assert!(matches!(ops[e - 1], Op::Add { dst: Buf::X, src: Buf::H2, n: 256 }));
            }
        }
    }
}
