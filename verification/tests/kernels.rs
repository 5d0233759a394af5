use cima::num::{f16_to_f32, f32_to_f16};
use cima::quant::gguf::{dequant_host, DequantError};
use cima::selftest::kernels::{
    check_gemv, draw_bytes, draw_half, draw_input, exact, format_list, gather_reference, pin_block,
    run_gemm, GemmFault, GemmShape, Mismatch, SENTINEL,
};
use cima::selftest::mock::MockWeights;
use cima::selftest::tensor_map::{compare, run_audio_map, run_tensor_map, Mark, Row};
use cima::tensor::{block_bytes, block_elems, DType, TensorMeta};
use cima::weights::LoadedWeights;

fn half(x: f32) -> u16 {
    f32_to_f16(x.to_bits())
}

fn single(h: u16) -> f32 {
    f32::from_bits(f16_to_f32(h))
}

#[test]
fn random_blocks_decode_to_numbers() {
    let mut seed = 42u64;
    for dt in format_list() {
        let mut b = draw_bytes(&mut seed, block_bytes(dt));
        pin_block(dt, &mut b);
        let mut out = vec![0u16; block_elems(dt)];
        dequant_host(dt, &b, block_elems(dt), &mut out).unwrap();
        assert!(out.iter().all(|h| single(*h).is_finite()), "{dt:?}");
    }
    assert_eq!(format_list().len(), 9);
}

#[test]
fn drawn_bytes_are_little_endian_states() {
    let mut seed = 1u64;
    let b = draw_bytes(&mut seed, 16);
    let stir = |s: u64| {
        let a = s ^ (s << 13);
        let b = a ^ (a >> 7);
        b ^ (b << 17)
    };
    let (s1, s2) = (stir(1), stir(stir(1)));
    assert_eq!(b[..8], s1.to_le_bytes());
    assert_eq!(b[8..], s2.to_le_bytes());
    assert_eq!(seed, s2);
    let h = draw_half(&mut seed, 2.0f32.to_bits());
    assert_eq!(single(h), single(half(((stir(s2) % 2000) as f32 / 1000.0 - 1.0) * 2.0)));
    let before = seed;
    let x = draw_input(&mut seed, 8);
    assert_ne!(seed, before);
    assert!(single(x).abs() <= 0.034);
}

#[test]
fn device_results_are_held_bit_for_bit() {
    assert_eq!(exact(&vec![1, 2, 0x7e00], &vec![1, 2, 0xfe01]), Ok(()));
    assert_eq!(
        exact(&vec![1, 2, 3], &vec![1, 9, 8]),
        Err(Mismatch { count: 2, first: 1 })
    );
}

#[test]
fn products_are_held_to_a_tolerance() {
    let w: Vec<u16> = (0..8).map(|i| half(i as f32)).collect();
    let x: Vec<u16> = (0..4).map(|i| half(1.0 + i as f32)).collect();
    // Rows 0..4 and 4..8 times 1, 2, 3, 4.
    let good = vec![half(20.0), half(60.0)];
    assert_eq!(check_gemv(&good, &w, &x, 2, 4), Ok(()));
    let bad = vec![half(20.0), half(66.0)];
    assert_eq!(check_gemv(&bad, &w, &x, 2, 4), Err(1));
}

#[test]
fn products_stay_in_their_columns() {
    let a: Vec<u16> = vec![half(1.0), half(2.0)];
    let b: Vec<u16> = vec![half(3.0), half(4.0)];
    let s = GemmShape { m: 1, n: 1, k: 2, ldc: 2 };
    assert_eq!(run_gemm(&vec![half(11.0), SENTINEL], &a, &b, s), Ok(()));
    assert_eq!(
        run_gemm(&vec![half(11.0), 0], &a, &b, s),
        Err(GemmFault::Outside { row: 0, col: 1 })
    );
    assert_eq!(
        run_gemm(&vec![half(12.0), SENTINEL], &a, &b, s),
        Err(GemmFault::Off { row: 0, col: 0 })
    );
}

#[test]
fn packed_rows_are_gathered() {
    let mut table = vec![];
    for r in 0..3 {
        table.extend(half(1.0 + r as f32).to_le_bytes());
        table.extend((0..32u8).map(|q| q.wrapping_sub(16)));
    }
    let got = gather_reference(DType::GgufQ8_0, &table, 34, &vec![2, 0], 32).unwrap();
    assert_eq!(got.len(), 64);
    assert_eq!(single(got[0]), -48.0);
    assert_eq!(single(got[32]), -16.0);
    assert_eq!(
        gather_reference(DType::GgufQ8_0, &table, 34, &vec![0], 40),
        Err(DequantError::SizeMismatch { format: DType::GgufQ8_0, elems: 40, bytes: 34 })
    );
}

#[test]
fn noise_is_the_same_on_every_run() {
    let make = || {
        let mut m = MockWeights::new();
        let mut seed = 7u64;
        m.add("a", &vec![2, 3], &mut seed, 0.05f32.to_bits());
        m.ones("b", &vec![2]);
        m
    };
    let (p, q) = (make(), make());
    let (a, b) = (p.weights(), q.weights());
    assert_eq!(a.data, b.data);
    assert_eq!(a.metas[0].shape, [2, 3]);
    assert_eq!(a.data[1], [0x00, 0x3c, 0x00, 0x3c]);
    assert!(a.data[0].chunks(2).all(|c| single(u16::from_le_bytes([c[0], c[1]])).abs() <= 0.051));
}

fn meta(name: &str, shape: &[usize]) -> TensorMeta {
    TensorMeta {
        name: name.to_string(),
        dtype: DType::F32,
        shape: shape.to_vec(),
        offset: 0,
        nbytes: 0,
        file: String::new(),
    }
}

fn bytes(v: &[f32]) -> Vec<u8> {
    v.iter().flat_map(|x| x.to_le_bytes()).collect()
}

#[test]
fn likeness_is_the_cosine_and_the_ratio_of_norms() {
    let bits = |v: &[f32]| v.iter().map(|x| x.to_bits()).collect::<Vec<u32>>();
    let l = compare(&bits(&[3.0, 4.0]), &bits(&[6.0, 8.0]));
    assert!((f64::from_bits(l.cosine) - 1.0).abs() < 1e-12);
    assert!((f64::from_bits(l.ratio) - 0.5).abs() < 1e-12 || (f64::from_bits(l.ratio) - 2.0).abs() < 1e-12);
    let l = compare(&bits(&[1.0, 0.0]), &bits(&[0.0, 1.0]));
    assert!(f64::from_bits(l.cosine).abs() < 1e-12);
}

#[test]
fn tensors_are_matched_by_what_they_hold() {
    let (u, v) = (bytes(&[1.0, 2.0, 3.0, 4.0]), bytes(&[4.0, -3.0, 2.0, -1.0]));
    let lone = bytes(&[1.0]);
    let gw = LoadedWeights {
        metas: vec![
            meta("audio_tower.layers.0.b", &[4]),
            meta("audio_tower.layers.0.a", &[4]),
            meta("audio_tower.layers.0.a.input_min", &[1]),
        ],
        data: vec![&u, &v, &lone],
    };
    let st = LoadedWeights {
        metas: vec![
            meta("model.audio_tower.layers.0.a", &[4]),
            meta("model.audio_tower.layers.0.c", &[4]),
            meta("model.audio_tower.layers.0.d", &[1]),
        ],
        data: vec![&v, &u, &lone],
    };
    let r = run_audio_map(&gw, &st).unwrap();
    assert_eq!(r.order, [1, 0]);
    assert!(matches!(r.rows[0], Row::Match { at: 0, mark: Mark::Same, .. }));
    assert!(matches!(r.rows[1], Row::Match { at: 1, mark: Mark::Renamed, .. }));
    assert_eq!(r.corrections, 1);
    assert_eq!(r.orphans, [2]);
    assert!(run_tensor_map(&gw, &st, Some("nowhere")).is_none());
}

#[test]
fn what_keeps_tensors_from_being_matched() {
    let row = |g: TensorMeta, gd: &[u8], m: TensorMeta, md: &[u8]| {
        let gw = LoadedWeights { metas: vec![g], data: vec![gd] };
        let st = LoadedWeights { metas: vec![m], data: vec![md] };
        run_audio_map(&gw, &st).unwrap().rows[0]
    };
    let (a, b) = ("audio_tower.layers.0.a", "audio_tower.layers.0.b");
    let (v, w) = (bytes(&[1.0, 2.0]), bytes(&[2.0, 4.0]));
    assert_eq!(row(meta(a, &[2]), &v, meta(b, &[3]), &w), Row::NoCandidate);
    let huge = [33_554_433];
    assert_eq!(row(meta(a, &huge), &v, meta(b, &huge), &w), Row::TooLarge);
    let raw = |name: &str| TensorMeta { dtype: DType::U8, ..meta(name, &[2]) };
    assert_eq!(row(raw(a), &v, meta(b, &[2]), &w), Row::Skipped);
    assert_eq!(row(meta(a, &[2]), &v, raw(b), &w), Row::Undecodable);
    assert!(matches!(
        row(meta(a, &[2]), &v, meta(a, &[2]), &w),
        Row::Match { at: 0, mark: Mark::Scale, .. }
    ));
}

#[test]
fn the_margin_is_held_against_the_next_best() {
    let bits = |v: &[f32]| v.iter().map(|x| x.to_bits()).collect::<Vec<u32>>();
    let (one, minus) = ([1.0f32; 3], [-1.0f32; 3]);
    let same = f64::from_bits(compare(&bits(&one), &bits(&one)).cosine);
    let opposite = f64::from_bits(compare(&bits(&one), &bits(&minus)).cosine);
    // Rounding takes the cosine of opposites below minus one.
    assert!(opposite < -1.0);
    let (u, v) = (bytes(&one), bytes(&minus));
    let gw = LoadedWeights { metas: vec![meta("audio_tower.layers.0.a", &[3])], data: vec![&u] };
    let margin = |metas: Vec<TensorMeta>, data: Vec<&[u8]>| {
        match run_audio_map(&gw, &LoadedWeights { metas, data }).unwrap().rows[0] {
            Row::Match { margin, .. } => f64::from_bits(margin),
            other => panic!("{other:?}"),
        }
    };
    let (a, b) = ("audio_tower.layers.0.a", "audio_tower.layers.0.b");
    assert_eq!(margin(vec![meta(a, &[3]), meta(b, &[3])], vec![&u, &v]), same - opposite);
    assert_eq!(margin(vec![meta(b, &[3]), meta(a, &[3])], vec![&v, &u]), same - opposite);
    // Without another candidate the next best is minus one.
    assert_eq!(margin(vec![meta(a, &[3])], vec![&u]), same + 1.0);
    assert_eq!(margin(vec![meta(b, &[3])], vec![&v]), opposite + 1.0);
}
