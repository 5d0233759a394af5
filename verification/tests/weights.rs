use cima::num::{f16_to_f32, f32_to_f16};
use cima::quant::bnb::{
    dequant_host, folded_absmax, is_aux, nf4_device_bytes, parse_state, state_name, upload_nf4,
    BnbError, BnbNf4, BnbState, DequantizedWeights, DeviceBuf, GemmError, Launch, WTensor,
};
use cima::quant::gguf::{dequant_q8_0, CodecError, DequantError, DeviceData, GgufCodec};
use cima::tensor::{block_bytes, block_elems, is_gguf_block, storage_bytes, DType, TensorMeta};
use cima::weights::LoadedWeights;

fn meta(name: &str, dtype: DType, shape: &[usize], nbytes: usize) -> TensorMeta {
    TensorMeta {
        name: name.to_string(),
        dtype,
        shape: shape.to_vec(),
        offset: 0,
        nbytes,
        file: String::new(),
    }
}

fn singles(v: &[f32]) -> Vec<u8> {
    v.iter().flat_map(|x| x.to_le_bytes()).collect()
}

fn codebook() -> Vec<u8> {
    singles(&(0..16).map(|i| i as f32 / 8.0 - 1.0).collect::<Vec<_>>())
}

/// A 2x4 weight in blocks of four, its scales as given.
fn packed(absmax: DType) -> Vec<(TensorMeta, Vec<u8>)> {
    let state = br#"{"shape": [2, 4], "blocksize": 4, "nested_blocksize": 2, "nested_offset": 0.5}"#;
    let mut v = vec![
        (
            meta("w", DType::U8, &[4, 1], 4),
            vec![0x0f, 0x18, 0xc4, 0x80],
        ),
        (
            meta("w.quant_state.bitsandbytes__nf4", DType::U8, &[state.len()], state.len()),
            state.to_vec(),
        ),
        (meta("w.quant_map", DType::F32, &[16], 64), codebook()),
        (meta("norm", DType::F16, &[1], 2), vec![0x00, 0x3c]),
    ];
    if absmax == DType::U8 {
        v.push((meta("w.absmax", DType::U8, &[2], 2), vec![3, 9]));
        let mut map = vec![0.0f32; 256];
        map[3] = 0.25;
        map[9] = -0.5;
        v.push((meta("w.nested_quant_map", DType::F32, &[256], 1024), singles(&map)));
        v.push((meta("w.nested_absmax", DType::F32, &[1], 4), singles(&[2.0])));
    } else {
        v.push((meta("w.absmax", DType::F32, &[2], 8), singles(&[2.0, 4.0])));
    }
    v
}

fn view(v: &[(TensorMeta, Vec<u8>)]) -> LoadedWeights<'_> {
    LoadedWeights {
        metas: v.iter().map(|(m, _)| m.copy()).collect(),
        data: v.iter().map(|(_, b)| b.as_slice()).collect(),
    }
}

#[test]
fn entries_are_found_by_name() {
    let v = packed(DType::F32);
    let w = view(&v);
    assert_eq!(w.get("w.quant_map"), Some(2));
    assert_eq!(w.get("absent"), None);
    assert!(w.contains("norm"));
    assert_eq!(w.metas[0].numel(), 4);
}

#[test]
fn auxiliary_names() {
    for n in [
        "a.absmax",
        "a.quant_map",
        "a.nested_absmax",
        "a.nested_quant_map",
        "a.quant_state.bitsandbytes__nf4",
        "a.quant_state.bitsandbytes__x.y",
    ] {
        assert!(is_aux(n), "{n}");
    }
    assert!(!is_aux("a.weight"));
    assert!(!is_aux("absmax"));
}

#[test]
fn packed_device_bytes() {
    assert_eq!(nf4_device_bytes(4096, 64), 2048 + 64 * 4 + 64);
    // The forecast is what is resident.
    let v = packed(DType::F32);
    let w = view(&v);
    let i = w.get("w").unwrap();
    let f = upload_nf4(&w, i, "w").unwrap_or_else(|e| panic!("{e:?}"));
    let resident = w.metas[i].nbytes + 4 * f.absmax.len() + 4 * f.qmap.len();
    assert_eq!(nf4_device_bytes(f.state.rows * f.state.cols, f.state.blocksize), resident);
}

#[test]
fn state_of_a_packed_weight() {
    let v = packed(DType::F32);
    let w = view(&v);
    assert_eq!(
        state_name(&w, "w").as_deref(),
        Some("w.quant_state.bitsandbytes__nf4")
    );
    assert_eq!(state_name(&w, "norm"), None);
    assert_eq!(
        parse_state(&w, "w"),
        Ok(BnbState {
            blocksize: 4,
            rows: 2,
            cols: 4,
            nested_blocksize: 2,
            nested_offset: 0.5f32.to_bits(),
        })
    );
    assert_eq!(parse_state(&w, "norm"), Err(BnbError::NoState));
}

#[test]
fn four_bit_states_come_second() {
    let mut v = packed(DType::F32);
    v[1].0.name = "w.quant_state.bitsandbytes__fp4".to_string();
    assert_eq!(
        state_name(&view(&v), "w").as_deref(),
        Some("w.quant_state.bitsandbytes__fp4")
    );
}

#[test]
fn broken_states_are_told_apart() {
    let mut v = packed(DType::F32);
    v[1].1 = vec![0xff];
    assert_eq!(parse_state(&view(&v), "w"), Err(BnbError::StateNotUtf8));
    v[1].1 = b"{".to_vec();
    assert_eq!(parse_state(&view(&v), "w"), Err(BnbError::StateNotJson));
    v[1].1 = br#"{"shape": [4]}"#.to_vec();
    assert_eq!(parse_state(&view(&v), "w"), Err(BnbError::NotMatrix { dims: 1 }));
    v[1].1 = br#"{"shape": [2, 3]}"#.to_vec();
    assert_eq!(
        parse_state(&view(&v), "w"),
        Err(BnbError::Blocksize { numel: 6, blocksize: 64 })
    );
}

#[test]
fn plain_scales_decode() {
    let v = packed(DType::F32);
    let got = dequant_host(&view(&v), 0, "w").unwrap();
    let level = |q: u32| q as f32 / 8.0 - 1.0;
    let want = [
        2.0 * level(0),
        2.0 * level(15),
        2.0 * level(1),
        2.0 * level(8),
        4.0 * level(12),
        4.0 * level(4),
        4.0 * level(8),
        4.0 * level(0),
    ];
    let got: Vec<f32> = got.iter().map(|h| f32::from_bits(f16_to_f32(*h))).collect();
    assert_eq!(got, want);
}

#[test]
fn nested_scales_fold() {
    let v = packed(DType::U8);
    let w = view(&v);
    let st = parse_state(&w, "w").unwrap();
    assert_eq!(
        folded_absmax(&w, "w", &st, 2).unwrap(),
        vec![(0.25f32 * 2.0 + 0.5).to_bits(), (-0.5f32 * 2.0 + 0.5).to_bits()]
    );
    let f = upload_nf4(&w, 0, "w").unwrap();
    assert_eq!(f.state, st);
    assert_eq!(f.qmap.len(), 16);
}

#[test]
fn incomplete_families_are_told_apart() {
    let drop = |name: &str, absmax: DType| {
        let mut v = packed(absmax);
        v.retain(|(m, _)| m.name != name);
        v
    };
    let err = |v: &[(TensorMeta, Vec<u8>)]| upload_nf4(&view(v), 0, "w").err().unwrap();
    assert_eq!(err(&drop("w.absmax", DType::F32)), BnbError::NoAbsmax);
    assert_eq!(err(&drop("w.quant_map", DType::F32)), BnbError::NoMap);
    assert_eq!(err(&drop("w.nested_quant_map", DType::U8)), BnbError::NoNestedMap);
    assert_eq!(err(&drop("w.nested_absmax", DType::U8)), BnbError::NoNestedAbsmax);

    let mut v = packed(DType::F32);
    v[4].1.truncate(4);
    assert_eq!(err(&v), BnbError::AbsmaxCount { found: 1, expected: 2 });
    v[4].0.dtype = DType::F16;
    assert_eq!(err(&v), BnbError::AbsmaxType { dtype: DType::F16 });
    let mut v = packed(DType::F32);
    v[2].1.truncate(60);
    assert_eq!(err(&v), BnbError::MapCount { found: 15 });
    let mut v = packed(DType::U8);
    let i = v.iter().position(|(m, _)| m.name == "w.nested_absmax").unwrap();
    v[i].1.clear();
    assert_eq!(err(&v), BnbError::NestedShort { found: 0, block: 0 });
    let mut v = packed(DType::F32);
    v[0].0.nbytes = 5;
    assert_eq!(
        err(&v),
        BnbError::Payload { nbytes: 5, dtype: DType::U8, expected: 4 }
    );
}

#[test]
fn decoding_a_checkpoint_drops_the_auxiliaries() {
    let v = packed(DType::F32);
    let w = view(&v);
    let d = DequantizedWeights::wrap(&w).unwrap();
    let names: Vec<&str> = d.tensors.iter().map(|m| m.name.as_str()).collect();
    assert_eq!(names, ["w", "norm"]);
    assert_eq!(d.tensors[0].dtype, DType::F16);
    assert_eq!(d.tensors[0].shape, vec![2, 4]);
    let halves: Vec<u8> = dequant_host(&w, 0, "w")
        .unwrap()
        .iter()
        .flat_map(|h| h.to_le_bytes())
        .collect();
    assert_eq!(d.bytes(&w, 0), halves.as_slice());
    assert_eq!(d.bytes(&w, 1), &[0x00, 0x3c]);
}

#[test]
fn a_plain_checkpoint_has_nothing_to_decode() {
    let v = vec![(meta("norm", DType::F16, &[1], 2), vec![0, 0x3c])];
    assert_eq!(
        DequantizedWeights::wrap(&view(&v)).err(),
        Some(BnbError::NothingPacked)
    );
}

#[test]
fn launches_of_a_product() {
    let buf = DeviceBuf { ptr: 7, bytes: 0 };
    assert_eq!(
        WTensor::F16(buf).gemm(1, 2, 3, 4, 5, 0).unwrap(),
        vec![Launch::GemmF16 { x: 1, w: 7, y: 2, m: 3, n: 4, k: 5 }]
    );
    let g = WTensor::Gguf { buf, fmt: DType::GgufQ4K, n: 4, k: 256 };
    assert_eq!(
        g.gemm(1, 2, 1, 4, 256, 0).unwrap(),
        vec![Launch::GgufGemv { fmt: DType::GgufQ4K, x: 1, w: 7, y: 2, n: 4, k: 256 }]
    );
    assert_eq!(
        g.gemm(1, 2, 3, 4, 256, 9).unwrap(),
        vec![
            Launch::GgufDequant { fmt: DType::GgufQ4K, src: 7, dst: 9, blocks: 4 },
            Launch::GemmF16 { x: 1, w: 9, y: 2, m: 3, n: 4, k: 256 },
        ]
    );
    assert_eq!(g.gemm(1, 2, 3, 4, 256, 0), Err(GemmError::NoScratch));
    assert_eq!(
        g.gemm(1, 2, 3, 5, 256, 9),
        Err(GemmError::Shape { rows: 4, cols: 256, n: 5, k: 256 })
    );
    let q = BnbNf4 {
        packed: buf,
        absmax: buf,
        qmap: buf,
        rows: 4,
        cols: 8,
        blocksize: 8,
    };
    assert_eq!(
        WTensor::Nf4(q).gemm(1, 2, 2, 4, 8, 9).unwrap(),
        vec![
            Launch::Nf4Dequant { q, dst: 9, numel: 32 },
            Launch::GemmF16 { x: 1, w: 9, y: 2, m: 2, n: 4, k: 8 },
        ]
    );
}

#[test]
fn block_tables() {
    assert_eq!(block_elems(DType::GgufQ6K), 256);
    assert_eq!(block_bytes(DType::GgufQ6K), 210);
    assert_eq!(block_elems(DType::BF16), 1);
    assert!(is_gguf_block(DType::GgufQ5_1));
    assert!(!is_gguf_block(DType::F32));
}

fn q8_blocks(n: usize) -> Vec<u8> {
    let mut b = vec![];
    for i in 0..n {
        b.extend(f32_to_f16((0.5f32 * (i + 1) as f32).to_bits()).to_le_bytes());
        b.extend((0..32u8).map(|q| q.wrapping_sub(16)));
    }
    b
}

#[test]
fn blocks_decode_on_their_own() {
    let src = q8_blocks(2);
    let mut all = vec![0u16; 64];
    dequant_q8_0(&src, 64, &mut all).unwrap();
    let mut tail = vec![0u16; 32];
    dequant_q8_0(&src[34..], 32, &mut tail).unwrap();
    assert_eq!(&all[32..], tail.as_slice());
}

#[test]
fn partial_blocks_are_refused() {
    let src = q8_blocks(2);
    let mut out = vec![0u16; 64];
    assert_eq!(
        dequant_q8_0(&src, 40, &mut out),
        Err(DequantError::SizeMismatch { format: DType::GgufQ8_0, elems: 40, bytes: 68 })
    );
    assert_eq!(
        dequant_q8_0(&src[..67], 64, &mut out),
        Err(DequantError::SizeMismatch { format: DType::GgufQ8_0, elems: 64, bytes: 67 })
    );
    assert_eq!(
        cima::quant::gguf::dequant_host(DType::F16, &src, 32, &mut out),
        Err(DequantError::NoDecoder { format: DType::F16 })
    );
    assert!(out.iter().all(|h| *h == 0));
}

#[test]
fn the_codec_keeps_blocks_or_expands_them() {
    let src = q8_blocks(2);
    let m = meta("w", DType::GgufQ8_0, &[2, 32], 68);
    let keep = GgufCodec { resident: true };
    let expand = GgufCodec { resident: false };
    assert!(keep.resident_quant() && !expand.resident_quant());
    assert_eq!(keep.device_bytes(&m), 68);
    assert_eq!(expand.device_bytes(&m), 128);
    assert!(keep.accepts(DType::GgufQ8_0) && !keep.accepts(DType::U8));
    let mut longer = src.clone();
    longer.push(1);
    match keep.upload(&m, &longer) {
        Ok(DeviceData::Packed(b)) => assert_eq!(b, src),
        _ => panic!("packed blocks stay packed"),
    }
    match expand.upload(&m, &src) {
        Ok(DeviceData::Half(v)) => {
            assert_eq!(v.len(), 64);
            assert_eq!(f32::from_bits(f16_to_f32(v[32])), -16.0);
        }
        _ => panic!("blocks are expanded"),
    }
    assert_eq!(keep.upload(&m, &src[..67]).err(), Some(CodecError::Short));
    let odd = meta("w", DType::GgufQ8_0, &[40], 68);
    assert!(matches!(
        expand.upload(&odd, &src).err(),
        Some(CodecError::Dequant(DequantError::SizeMismatch { elems: 40, .. }))
    ));
    let raw = meta("w", DType::U8, &[2], 2);
    assert_eq!(
        keep.upload(&raw, &[1, 2]).err(),
        Some(CodecError::Unsupported { format: DType::U8 })
    );
}

#[test]
fn plain_tensors_become_halves() {
    let c = GgufCodec { resident: true };
    let m = meta("w", DType::F32, &[2], 8);
    match c.upload(&m, &singles(&[1.0, -0.5])) {
        Ok(DeviceData::Half(v)) => assert_eq!(v, vec![0x3c00, 0xb800]),
        _ => panic!("single precision narrows"),
    }
    let m = meta("w", DType::BF16, &[1], 2);
    match c.upload(&m, &[0x80, 0x3f]) {
        Ok(DeviceData::Half(v)) => assert_eq!(v, vec![0x3c00]),
        _ => panic!("brain floats narrow"),
    }
}

#[test]
fn storage_decodes_if_it_is_whole_blocks() {
    for (dt, n) in [(DType::GgufQ8_0, 96), (DType::GgufQ4K, 512), (DType::GgufIQ4XS, 256)] {
        let src = vec![0u8; storage_bytes(dt, n)];
        let mut out = vec![0u16; n + 1];
        assert!(cima::quant::gguf::dequant_host(dt, &src, n, &mut out).is_ok());
        assert!(cima::quant::gguf::dequant_host(dt, &src, n + 1, &mut out).is_err());
    }
}
