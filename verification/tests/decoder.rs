use cima::json::parse;
use cima::models::capture::Launch;
use cima::models::gemma4::feed::Pick;
use cima::models::ops::{Buf, Epilogue, Op, Weight};
use cima::models::prompt::{Chunk, FeedError, MediaRows, PreparedPrompt, Splice};
use cima::models::transformer::config::{EncoderConfig, Modality, ModelConfig, ModelError, Reason};
use cima::models::transformer::forecast::{
    max_staged, mem_available, NoFit, VramForecast,
};
use cima::models::towers::{EncoderTowers, TowerError, TowerKind};
use cima::models::transformer::graph::{
    BuildFault, PlaceError, Residency, Transformer, WeightIndex,
};
use cima::models::transformer::lin::{lin_gemm, lin_gemv, Lin, LinStep, NoScratch};
use cima::models::transformer::schedule::Pass;
use cima::quant::gguf::{CodecError, GgufCodec};
use cima::selftest::bench::percentile;
use cima::selftest::lm::{lm_prompts, run_lm, LmRuns};
use cima::selftest::mock::mock_model;
use cima::tensor::{DType, TensorMeta};

fn config(s: &str) -> Result<ModelConfig, ModelError> {
    ModelConfig::parse(&parse(s).unwrap(), None)
}

const LLAMA: &str = r#"{
    "model_type": "llama", "hidden_size": 64, "intermediate_size": 128,
    "num_hidden_layers": 2, "num_attention_heads": 4, "num_key_value_heads": 2,
    "vocab_size": 256, "rms_norm_eps": 1e-5, "rope_theta": 500000.0,
    "max_position_embeddings": 131072
}"#;

#[test]
fn configurations_are_read() {
    let c = config(LLAMA).unwrap();
    assert_eq!((c.hidden_size, c.n_layers, c.head_dim, c.n_kv_heads), (64, 2, 16, 2));
    assert_eq!(f32::from_bits(c.rms_eps), 1e-5);
    assert_eq!(f32::from_bits(c.rope_theta), 500000.0);
    assert_eq!(c.max_seq, 8192);
    assert_eq!(c.modality(), Modality::TextToText);
    let capped = ModelConfig::parse(&parse(LLAMA).unwrap(), Some(1024)).unwrap();
    assert_eq!(capped.max_seq, 1024);
    let ignored = ModelConfig::parse(&parse(LLAMA).unwrap(), Some(100)).unwrap();
    assert_eq!(ignored.max_seq, 8192);
}

#[test]
fn unfit_configurations_are_told_apart() {
    let err = |s: &str| config(s).err().unwrap();
    assert!(matches!(err("{}"), ModelError::NoModelType));
    for (t, want) in [
        ("t5", Reason::EncoderDecoder),
        ("gemma2", Reason::GemmaMath),
        ("qwen3", Reason::QueryKeyNorm),
        ("mixtral", Reason::Experts),
        ("phi3", Reason::FusedLayout),
        ("deepseek_v3", Reason::LatentAttention),
        ("bert", Reason::BidirectionalEncoder),
        ("mamba", Reason::Unverified),
    ] {
        match err(&format!(r#"{{"model_type": "{t}"}}"#)) {
            ModelError::Unsupported { model_type, reason } => {
                assert_eq!((model_type.as_str(), reason), (t, want))
            }
            e => panic!("{e:?}"),
        }
    }
    assert!(matches!(err(r#"{"model_type": "llama"}"#), ModelError::Missing(_)));
    let with = |from: &str, to: &str| err(&LLAMA.replace(from, to));
    assert!(matches!(
        with(r#""num_key_value_heads": 2"#, r#""num_key_value_heads": 3"#),
        ModelError::GroupedHeads { heads: 4, kv_heads: 3 }
    ));
    assert!(matches!(
        with(r#""num_key_value_heads": 2"#, r#""num_key_value_heads": 0"#),
        ModelError::ZeroGeometry { kv_heads: 0, .. }
    ));
    assert!(matches!(
        with(r#""num_key_value_heads": 2"#, r#""num_key_value_heads": 2, "head_dim": 15"#),
        ModelError::OddHead { head_dim: 15 }
    ));
}

fn build() -> Transformer {
    let (cfg, mock) = mock_model();
    let w = mock.weights();
    let codec = GgufCodec { resident: false };
    let ix = WeightIndex::new(&w, &codec);
    match Transformer::build(cfg, &ix, 64) {
        Ok(t) => t,
        Err(e) => panic!("{e:?}"),
    }
}

#[test]
fn the_noise_model_builds() {
    let t = build();
    assert!(t.tied && !t.split);
    let levers = t.perf_levers();
    assert!(levers.device_pipeline && !levers.seq_parallel_attention);
    assert_eq!(t.embed, Residency::Raw { bf16: false });
    assert_eq!(t.layers.len(), 2);
    assert_eq!(t.places.len(), t.entries.len());
    // Half-precision rows of a chunk.
    assert_eq!(t.ws.x, 512 * 64 * 2);
    assert_eq!(t.ws.cache, 2 * 1088 * 16 * 2);
}

#[test]
fn a_missing_tensor_stops_the_build() {
    let (cfg, mock) = mock_model();
    let mut w = mock.weights();
    let codec = GgufCodec { resident: false };
    let i = w.metas.iter().position(|m| m.name.ends_with("1.mlp.down_proj.weight")).unwrap();
    w.metas[i].name = "elsewhere".to_string();
    let ix = WeightIndex::new(&w, &codec);
    match Transformer::build(cfg, &ix, 64) {
        Err(BuildFault::Place { error, .. }) => assert_eq!(error, PlaceError::Missing),
        Err(e) => panic!("{e:?}"),
        Ok(_) => panic!("a tensor is missing"),
    }
}

#[test]
fn one_row_runs_through_fused_products() {
    let t = build();
    let layers = t.forward_chunk_at(Pass { rows: 1, pos0: 5, counter: false });
    assert_eq!(layers.len(), 2);
    let l = &layers[1];
    assert_eq!(
        l[1],
        Op::Gemv {
            weight: Weight::Wqkv,
            bias: None,
            src: Buf::H,
            dst: Buf::Qkv,
            n: 128,
            k: 64,
            epilogue: Epilogue::Store,
        }
    );
    assert!(l.iter().any(|o| matches!(o, Op::KvAppend { kc: Buf::KCache(1), pos0: 5, cap: 1088, .. })));
    assert!(l.iter().any(|o| matches!(o, Op::AttnDecode { len: 6, .. })));
    assert_eq!(
        *l.last().unwrap(),
        Op::Gemv {
            weight: Weight::WDown,
            bias: None,
            src: Buf::Gate,
            dst: Buf::X,
            n: 64,
            k: 128,
            epilogue: Epilogue::Accumulate,
        }
    );
}

#[test]
fn several_rows_attend_causally() {
    let t = build();
    let layers = t.forward_chunk_at(Pass { rows: 7, pos0: 3, counter: false });
    let l = &layers[0];
    assert_eq!(
        l[1],
        Op::Gemm { weight: Weight::Wq, src: Buf::H, dst: Buf::Q, rows: 7, n: 64, k: 64 }
    );
    assert!(l.iter().any(|o| matches!(
        o,
        Op::AttnPrefill { rows: 7, pos0: 3, causal: true, blocks: false, .. }
    )));
    assert_eq!(*l.last().unwrap(), Op::Add { dst: Buf::X, src: Buf::H, n: 7 * 64 });
}

#[test]
fn the_tail_picks_on_the_device() {
    let t = build();
    let g = t.tail(Pick::Greedy);
    assert_eq!(g[g.len() - 2..], [Op::TokenFromArgmax, Op::PosBump]);
    let l = t.project(3, Pick::Logits);
    assert_eq!(*l.last().unwrap(), Op::Widen { n: 256 });
    let s = t.project(0, Pick::Sample { penalty: 1.1f32.to_bits() });
    assert!(matches!(s[s.len() - 2], Op::Penalty { n: 256, .. }));
    assert!(matches!(s[s.len() - 1], Op::TopK { n: 256, k: 64, .. }));
    let s = t.project(0, Pick::Sample { penalty: 1.0f32.to_bits() });
    assert!(!s.iter().any(|o| matches!(o, Op::Penalty { .. })));
    assert!(matches!(t.gather_ids(9), Op::Gather { rows: 9, width: 64, .. }));
}

fn prompt(n: usize, media: Vec<MediaRows>) -> PreparedPrompt {
    PreparedPrompt { tokens: vec![1; n], media_embeds: media, block_ids: vec![] }
}

#[test]
fn prompts_are_fed_in_chunks() {
    let mut t = build();
    let p = prompt(600, vec![MediaRows { at: 500, ptr: 9, rows: 20 }]);
    let plan = t.prefill(&p, 0).unwrap();
    let chunks: Vec<Chunk> = plan.iter().map(|c| c.chunk).collect();
    assert_eq!(chunks, [Chunk { start: 0, take: 512 }, Chunk { start: 512, take: 88 }]);
    assert_eq!(
        plan[0].splices,
        [Splice { media: 0, src_row: 0, dst_row: 500, rows: 12 }]
    );
    assert_eq!(
        plan[1].splices,
        [Splice { media: 0, src_row: 12, dst_row: 0, rows: 8 }]
    );
    assert_eq!(t.pos, 600);
    assert_eq!(t.decode_step(600), Ok(Pass { rows: 1, pos0: 600, counter: false }));
    assert_eq!(t.pos, 601);
    t.reset();
    assert_eq!(t.pos, 0);
}

#[test]
fn the_caches_have_an_end() {
    let mut t = build();
    assert_eq!(t.prefill(&prompt(0, vec![]), 0).err(), Some(FeedError::Empty));
    assert_eq!(
        t.prefill(&prompt(89, vec![]), 1000).err(),
        Some(FeedError::Capacity { want: 1089, max_seq: 1088 })
    );
    assert!(t.prefill(&prompt(88, vec![]), 1000).is_ok());
    assert!(t.decode_step(1088).is_err());
    assert_eq!(t.embed(2000), Ok(512));
    assert_eq!(t.embed(20), Ok(20));
}

#[test]
fn a_packed_head_is_multiplied_by_as_it_is() {
    let mut t = build();
    assert_eq!(t.head, None);
    assert!(matches!(
        t.project(0, Pick::Logits)[1],
        Op::Gemm { weight: Weight::Embed, rows: 1, n: 256, k: 64, .. }
    ));
    t.head = Some(DType::GgufQ8_0);
    t.tied = false;
    assert_eq!(
        t.project(0, Pick::Logits)[1],
        Op::Gemv {
            weight: Weight::Head,
            bias: None,
            src: Buf::H,
            dst: Buf::LogitsH,
            n: 256,
            k: 64,
            epilogue: Epilogue::Store
        }
    );
}

#[test]
fn hidden_states_are_pooled() {
    assert_eq!(
        build().embed_pool(20),
        [
            Op::RmsNorm {
                src: Buf::X,
                row0: 0,
                weight: Some(Weight::FinalNorm),
                dst: Buf::H,
                rows: 20,
                width: 64
            },
            Op::MeanPool { rows: 20, width: 64 },
        ]
    );
}

#[test]
fn greedy_prefills_read_the_row_of_the_logits() {
    for (n, pos0, row) in [(1, 0, 0), (512, 0, 511), (513, 0, 0), (600, 7, 87)] {
        let mut t = build();
        let p = prompt(n, vec![]);
        let chunks = t.prefill(&p, pos0).unwrap();
        let logits = t.project_last(&chunks, Pick::Logits);
        let (same, head) = t.prefill_argmax(&p, pos0).unwrap();
        assert_eq!(same.len(), chunks.len());
        assert_eq!(t.pos, pos0 + n);
        assert!(matches!(head[0], Op::RmsNorm { row0, .. } if row0 == row));
        assert_eq!(head[..2], logits[..2]);
        assert_eq!(head[2..], [Op::Argmax { n: 256, cap: 0 }]);
    }
    let mut t = build();
    assert_eq!(t.prefill_argmax(&prompt(0, vec![]), 0).err(), Some(FeedError::Empty));
}

#[test]
fn weights_are_multiplied_or_expanded() {
    let f = Lin::F16 { n: 8, k: 4 };
    assert_eq!(
        lin_gemv(&f, Epilogue::Store),
        LinStep::Gemv { fmt: None, n: 8, k: 4, epilogue: Epilogue::Store }
    );
    assert_eq!(lin_gemm(&f, None, 3).unwrap(), [LinStep::Gemm { rows: 3, n: 8, k: 4 }]);
    let q = Lin::Quant { fmt: DType::GgufQ8_0, n: 4, k: 64 };
    assert_eq!(lin_gemm(&q, None, 3), Err(NoScratch));
    // A scratch of two rows: two slabs.
    assert_eq!(
        lin_gemm(&q, Some(2 * 64 * 2), 3).unwrap(),
        [
            LinStep::Expand { fmt: DType::GgufQ8_0, from: 0, blocks: 4 },
            LinStep::GemmSlab { rows: 3, col0: 0, n: 2, k: 64, stride: 4 },
            LinStep::Expand { fmt: DType::GgufQ8_0, from: 4 * 34, blocks: 4 },
            LinStep::GemmSlab { rows: 3, col0: 2, n: 2, k: 64, stride: 4 },
        ]
    );
}

#[test]
fn the_forecast_adds_up() {
    let (cfg, mock) = mock_model();
    let w = mock.weights();
    let f = VramForecast::compute(&cfg, &w, &GgufCodec { resident: false });
    let elems: usize = w.metas.iter().map(|m| m.numel()).sum();
    assert_eq!(f.weights, 2 * elems);
    // Layers, keys and values, heads, positions, width, bytes.
    assert_eq!(f.kv_cache, 2 * 2 * 2 * 1088 * 16 * 2);
    assert_eq!(f.total(), f.weights + f.kv_cache + f.workspace + f.load_transient);
    assert_eq!(f.check(1 << 40), Ok(()));
    assert_eq!(f.check(0), Err(NoFit { need: f.total(), free: 0 }));
}

#[test]
fn the_host_must_hold_the_largest_conversion() {
    let (_, mock) = mock_model();
    let w = mock.weights();
    assert_eq!(VramForecast::host_guard(&w, None), Ok(()));
    assert_eq!(VramForecast::host_guard(&w, Some(1 << 30)), Ok(()));
    assert!(VramForecast::host_guard(&w, Some(0)).is_err());
    // Half precision is not converted.
    assert_eq!(max_staged(&w), 0);
    let mut w = mock.weights();
    w.metas[0].dtype = DType::BF16;
    assert_eq!(max_staged(&w), 2 * w.metas[0].numel());
    assert_eq!(
        mem_available("MemTotal: 10 kB\nMemAvailable:   4711 kB\n"),
        Some(4711)
    );
    assert_eq!(mem_available("MemTotal: 10 kB\n"), None);
}

fn runs() -> LmRuns {
    LmRuns {
        first: vec![1, 2],
        second: vec![1, 2],
        after: vec![1, 2],
        seams: vec![(vec![3], vec![3]), (vec![4], vec![4])],
        longer: vec![9],
        single_ran: true,
        huge_refused: true,
        full: vec![5],
        device: vec![5],
        device_active: true,
    }
}

#[test]
fn runs_are_judged() {
    assert_eq!(run_lm(&runs()), Ok(()));
    let mut r = runs();
    r.second = vec![1];
    r.longer = vec![1, 2];
    r.seams[1].1 = vec![];
    r.device_active = false;
    assert_eq!(run_lm(&r), Err(4));
    let p = lm_prompts(1088);
    assert_eq!(p.plain.len(), 39);
    assert_eq!(p.seams[2].len(), 513);
    assert_eq!(p.seams[2][250], 1);
    assert_eq!(p.huge.len(), 1096);
}

#[test]
fn percentiles_of_a_bench() {
    let v: Vec<u64> = (1..=10).collect();
    assert_eq!(percentile(&v, 50.0f64.to_bits()), 6);
    assert_eq!(percentile(&v, 95.0f64.to_bits()), 10);
    assert_eq!(percentile(&v, 0), 1);
    assert_eq!(percentile(&vec![], 50.0f64.to_bits()), 0);
}

#[test]
fn captured_steps_are_replayed() {
    let mut g = build();
    assert!(!g.decode_graph_active());
    assert!(matches!(
        g.decode_step_device(3),
        Ok(Launch::Steps(Pass { rows: 1, pos0: 0, counter: true }))
    ));
    let a = g.arm_decode_graph(4, false);
    assert!(a.counter == 4 && a.capture);
    assert!(!g.arm_decode_graph(4, true).capture);
    g.keep_decode_graph(false);
    assert!(!g.decode_graph_active());
    g.keep_decode_graph(true);
    assert!(g.decode_graph_active() && !g.arm_decode_graph(5, false).capture);
    assert!(matches!(g.decode_step_device(4), Ok(Launch::Replay)));
    assert_eq!(g.pos, 5);
    assert!(matches!(
        g.decode_step_argmax(5),
        Ok(Pass { rows: 1, pos0: 5, counter: false })
    ));
    let end = g.max_seq();
    assert!(g.decode_step_device(end).is_err());
    assert_eq!(g.pos, 6);
}

#[test]
fn sampling_is_captured_per_penalty() {
    let mut g = build();
    let (p, q) = (1.1f32.to_bits(), 1.2f32.to_bits());
    assert!(g.arm_sample_graph(7, p, false).capture);
    g.keep_sample_graph(p, true);
    assert!(g.sample_graph_active());
    assert!(!g.arm_sample_graph(8, p, false).capture);
    assert!(matches!(
        g.decode_step_sample(8),
        Ok(Op::HistPush { pos: 0, counter: true })
    ));
    assert!(g.arm_sample_graph(9, q, false).capture);
    assert!(!g.sample_graph_active());
    g.keep_sample_graph(q, false);
    assert!(!g.sample_graph_active());
    let (zero, pushes) = g.hist_reset_and_seed(&[5, 6], 2);
    assert_eq!(zero, vec![Buf::HistRing, Buf::HistCounts]);
    assert_eq!(
        pushes,
        vec![
            (5, Op::HistPush { pos: 0, counter: false }),
            (6, Op::HistPush { pos: 1, counter: false }),
        ]
    );
}

#[test]
fn every_unfit_tensor_has_a_name() {
    let fault = |resident: bool, change: &dyn Fn(&mut TensorMeta, &mut &[u8])| {
        let (cfg, mock) = mock_model();
        let mut w = mock.weights();
        let i = w.metas.iter().position(|m| m.name.ends_with("0.mlp.up_proj.weight")).unwrap();
        change(&mut w.metas[i], &mut w.data[i]);
        let codec = GgufCodec { resident };
        let ix = WeightIndex::new(&w, &codec);
        match Transformer::build(cfg, &ix, 64) {
            Err(BuildFault::Place { error, .. }) => error,
            Err(e) => panic!("{e:?}"),
            Ok(_) => panic!("the tensor is unfit"),
        }
    };
    assert_eq!(fault(false, &|m, _| m.shape.reverse()), PlaceError::Shape);
    assert_eq!(
        fault(false, &|m, _| m.dtype = DType::U8),
        PlaceError::Unsupported { dtype: DType::U8 }
    );
    assert_eq!(fault(false, &|_, d| *d = &d[..2]), PlaceError::Codec(CodecError::Short));
    assert_eq!(
        fault(true, &|m, _| m.dtype = DType::GgufQ4K),
        PlaceError::RowBlocks { k: 64, elems: 256 }
    );
}

#[test]
fn a_session_reads_what_it_wrote() {
    let g = build();
    let mut written = 0usize;
    for (pos0, rows) in [(0usize, 5usize), (5, 3), (8, 1), (9, 1)] {
        for ops in g.forward_chunk_at(Pass { rows, pos0, counter: false }) {
            let mut end = written;
            for op in &ops {
                match op {
                    Op::KvAppend { pos0, rows, .. } => end = pos0 + rows,
                    Op::AttnPrefill { pos0, rows, .. } => assert!(pos0 + rows <= end),
                    Op::AttnSplit { len, .. } | Op::AttnDecode { len, .. } => assert!(*len <= end),
                    _ => {}
                }
            }
            assert_eq!(end, pos0 + rows);
        }
        written = pos0 + rows;
    }
}

#[test]
fn admitted_models_fit() {
    let (cfg, mock) = mock_model();
    let weights = mock.weights();
    let f = VramForecast::compute(&cfg, &weights, &GgufCodec { resident: false });
    let (vocab, layers) = (cfg.vocab_size, cfg.n_layers);
    let w = build().ws;
    let activations = w.x + w.h + w.att + w.q + w.k + w.v + w.qkv + w.gate + w.up + w.logits_h
        + w.logits_f;
    assert!(activations + 2 * vocab <= f.workspace);
    let side = w.att_part + w.cand + w.hist_ring + w.hist_counts + w.argmax_slot + w.pos_dev
        + w.ids;
    let free = f.total() + (192 << 20);
    assert_eq!(f.check(free), Ok(()));
    assert_eq!(f.check(free - 1), Err(NoFit { need: f.total(), free: free - 1 }));
    assert!(f.weights + activations + side + layers * 2 * w.cache + f.load_transient <= free);
}

/// Encoders of one head without layers.
fn encoder(patch_size: usize) -> EncoderConfig {
    EncoderConfig {
        hidden_size: 4,
        intermediate_size: 8,
        n_layers: 0,
        n_heads: 1,
        layer_norm_eps: 1e-6f32.to_bits(),
        input_size: 4,
        patch_size,
    }
}

/// Builds the noise model with towers, over a checkpoint with more tensors.
fn build_with(
    vision: Option<EncoderConfig>,
    audio: Option<EncoderConfig>,
    more: &[(&str, usize)],
) -> Result<Transformer, BuildFault> {
    let (mut cfg, mut mock) = mock_model();
    cfg.vision = vision;
    cfg.audio = audio;
    for (name, n) in more {
        mock.metas.push(TensorMeta {
            name: name.to_string(),
            dtype: DType::F16,
            shape: vec![*n],
            offset: 0,
            nbytes: 2 * n,
            file: String::new(),
        });
        mock.data.push(vec![0u8; 2 * n]);
    }
    let w = mock.weights();
    let codec = GgufCodec { resident: false };
    Transformer::build(cfg, &WeightIndex::new(&w, &codec), 64)
}

const PATCHES: &str = "vision_tower.vision_model.embeddings.patch_embedding.weight";
const PROJECTOR: &str = "multi_modal_projector.linear_1.weight";

#[test]
fn named_towers_are_built_and_no_other() {
    let none = build_with(None, None, &[]).unwrap_or_else(|e| panic!("{e:?}"));
    assert!(none.vision.is_none() && none.audio.is_none());
    let image = [(PATCHES, 4 * 3 * 4), (PROJECTOR, 64 * 4)];
    let g = build_with(Some(encoder(2)), None, &image).unwrap_or_else(|e| panic!("{e:?}"));
    let v = g.vision.unwrap();
    assert_eq!((v.kind, v.head_dim, v.lm_hidden), (TowerKind::Vision, 4, 64));
    assert!(g.audio.is_none());
}

#[test]
fn a_tower_that_cannot_be_built_stops_the_build() {
    let fault = |vision, audio, more: &[(&str, usize)]| match build_with(vision, audio, more) {
        Err(e) => e,
        Ok(_) => panic!("a tower is incomplete"),
    };
    let missing = TowerError::Place { index: 0, error: PlaceError::Missing };
    assert_eq!(fault(Some(encoder(2)), None, &[]), BuildFault::Tower(missing));
    assert_eq!(
        fault(Some(encoder(2)), None, &[(PATCHES, 4 * 3 * 4)]),
        BuildFault::Tower(TowerError::NoProjector)
    );
    // Images come before sound.
    let odd = EncoderConfig { n_heads: 3, ..encoder(2) };
    let heads = TowerError::Heads { hidden: 4, heads: 3 };
    assert_eq!(fault(Some(encoder(2)), Some(odd), &[]), BuildFault::Tower(missing));
    let image = [(PATCHES, 4 * 3 * 4), (PROJECTOR, 64 * 4)];
    assert_eq!(fault(Some(encoder(2)), Some(odd), &image), BuildFault::Tower(heads));
    let (mut cfg, mock) = mock_model();
    cfg.audio = Some(odd);
    let w = mock.weights();
    let codec = GgufCodec { resident: false };
    assert_eq!(EncoderTowers::build(&cfg, &WeightIndex::new(&w, &codec)).err(), Some(heads));
}
