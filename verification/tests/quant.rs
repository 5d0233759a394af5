use cima::num::{f16_to_f32, f32_to_f16};
use cima::quant::gguf::{
    dequant_iq4_xs, dequant_q4_0, dequant_q4_1, dequant_q4_k, dequant_q5_0,
    dequant_q5_1, dequant_q5_k, dequant_q6_k, dequant_q8_0,
};
use cima::tensor::{storage_bytes, DType};

const IQ4NL: [f32; 16] = [
    -127.0, -104.0, -83.0, -65.0, -49.0, -35.0, -22.0, -10.0, 1.0, 13.0, 25.0, 38.0, 53.0, 69.0,
    89.0, 113.0,
];

fn to_half(x: f32) -> u16 {
    f32_to_f16(x.to_bits())
}

fn to_single(h: u16) -> f32 {
    f32::from_bits(f16_to_f32(h))
}

#[test]
fn q8_0_block_reference() {
    // d = 0.5, qs = [-128..] ramp: x[i] = 0.5 * qs[i]
    let mut blk = vec![0u8; 34];
    blk[0..2].copy_from_slice(&to_half(0.5).to_le_bytes());
    for i in 0..32 {
        blk[2 + i] = (i as i8 * 3 - 40) as u8;
    }
    let mut out = vec![0u16; 32];
    dequant_q8_0(&blk, 32, &mut out).unwrap();
    for i in 0..32 {
        let want = 0.5 * (i as i8 * 3 - 40) as f32;
        assert!((to_single(out[i]) - want).abs() < 1e-3, "i={}", i);
    }
}

#[test]
fn q4_k_sub_block_scales_and_mins() {
    // One super-block: d=1, dmin=1, scale[j]=j+1, min[j]=j (6-bit
    // packing exercised across the j<4 / j>=4 boundary), qs = nibble
    // ramp. Verify against the formula d*sc*q − dmin*m.
    let mut blk = vec![0u8; 144];
    blk[0..2].copy_from_slice(&to_half(1.0).to_le_bytes());
    blk[2..4].copy_from_slice(&to_half(1.0).to_le_bytes());
    // pack scales/mins per ggml: j<4 → s[j]=sc, s[j+4]=m (low 6 bits);
    // j>=4 → low nibbles in s[j+4], high 2 bits spread into s[j-4]/s[j].
    let sc: Vec<u8> = (0..8).map(|j| j + 1).collect();
    let mn: Vec<u8> = (0..8).collect();
    let s = &mut blk[4..16];
    for j in 0..4 {
        s[j] = sc[j] & 63;
        s[j + 4] = mn[j] & 63;
    }
    for j in 4..8 {
        s[j + 4] = (sc[j] & 0x0F) | ((mn[j] & 0x0F) << 4);
        s[j - 4] |= (sc[j] >> 4) << 6;
        s[j] |= (mn[j] >> 4) << 6;
    }
    for (i, q) in blk[16..144].iter_mut().enumerate() {
        *q = ((i % 16) | ((15 - i % 16) << 4)) as u8;
    }
    let mut out = vec![0u16; 256];
    dequant_q4_k(&blk, 256, &mut out).unwrap();
    for c in 0..4 {
        for i in 0..32 {
            let q = blk[16 + c * 32 + i];
            let want_lo = (2 * c + 1) as f32 * (q & 0x0F) as f32 - (2 * c) as f32;
            let want_hi = (2 * c + 2) as f32 * (q >> 4) as f32 - (2 * c + 1) as f32;
            assert!(
                (to_single(out[c * 64 + i]) - want_lo).abs() < 0.51,
                "c={} i={}",
                c,
                i
            );
            assert!(
                (to_single(out[c * 64 + 32 + i]) - want_hi).abs() < 0.51,
                "c={} i={}",
                c,
                i
            );
        }
    }
}

#[test]
fn q6_k_reconstructs_signed_six_bit() {
    // Encode a known pattern: element value v in -32..32 at scale 2.
    // Build ql/qh from v+32 (6 bits) for the first interleave slot and
    // verify the decoder's bit-reassembly.
    let mut blk = vec![0u8; 210];
    let scales = &mut blk[192..208];
    for s in scales.iter_mut() {
        *s = 2; // i8
    }
    blk[208..210].copy_from_slice(&to_half(1.0).to_le_bytes());
    // For half=0, l=0..32: q1 uses ql[l]&0xF | (qh[l]&3)<<4 at out[l].
    for l in 0..32usize {
        let v = (l as i32 * 2 - 31).clamp(-32, 31); // odd ramp
        let q = (v + 32) as u8; // 6 bits
        blk[l] = (blk[l] & 0xF0) | (q & 0x0F);
        blk[128 + l] = (blk[128 + l] & !0x03) | ((q >> 4) & 0x03);
    }
    let mut out = vec![0u16; 256];
    dequant_q6_k(&blk, 256, &mut out).unwrap();
    for l in 0..32usize {
        let v = (l as i32 * 2 - 31).clamp(-32, 31) as f32;
        assert!((to_single(out[l]) - 2.0 * v).abs() < 1e-2, "l={}", l);
    }
}

#[test]
fn q5_k_fifth_bit_and_rotating_masks() {
    // d=1, dmin=0, scale[j]=1: value = (nibble) + (qh bit ? 16 : 0).
    // Set the high bit only for chunk 1's first half (mask u1=4 there)
    // and verify both the +16 lift and that chunk 0 stays unlifted.
    let mut blk = vec![0u8; 176];
    blk[0..2].copy_from_slice(&to_half(1.0).to_le_bytes());
    blk[2..4].copy_from_slice(&to_half(0.0).to_le_bytes());
    let s = &mut blk[4..16];
    for j in 0..4 {
        s[j] = 1; // sc=1 (j<4 path)
        s[j + 4] = 0;
    }
    for j in 4..8 {
        s[j + 4] = 1; // sc low nibble = 1
    }
    for (i, v) in blk[48..176].iter_mut().enumerate() {
        *v = ((i % 16) | ((i % 16) << 4)) as u8; // both nibbles = i%16
    }
    for h in blk[16..48].iter_mut() {
        *h = 0b0000_0100; // bit 2 set → chunk 1 (u1=4) first half lifted
    }
    let mut out = vec![0u16; 256];
    dequant_q5_k(&blk, 256, &mut out).unwrap();
    for l in 0..32 {
        let nib = (l % 16) as f32;
        assert!(
            (to_single(out[l]) - nib).abs() < 0.51,
            "chunk0 unlifted l={}",
            l
        );
        assert!(
            (to_single(out[64 + l]) - (nib + 16.0)).abs() < 0.51,
            "chunk1 lifted l={}",
            l
        );
    }
}

#[test]
fn iq4_xs_codebook_and_split_scales() {
    // d=1; sub-block 0 scale = 33 (ls-32 = 1) via scales_l low nibble 1
    // + scales_h bits 0b10 (<<4 = 32): value = codebook[nibble].
    // Sub-block 1 scale stays 0-32 = -32 → sign flip check.
    let mut blk = vec![0u8; 136];
    blk[0..2].copy_from_slice(&to_half(1.0).to_le_bytes());
    blk[2] = 0b0000_0010; // scales_h: ib0 bits = 10b → +32
    blk[4] = 0x01; // scales_l: ib0 low nibble = 1 → ls = 33
    for (i, v) in blk[8..24].iter_mut().enumerate() {
        *v = ((i % 16) | ((i % 16) << 4)) as u8;
    }
    let mut out = vec![0u16; 256];
    dequant_iq4_xs(&blk, 256, &mut out).unwrap();
    for j in 0..16 {
        let want = IQ4NL[j % 16]; // dl = 1*(33-32) = 1
        assert!(
            (to_single(out[j]) - want).abs() < 0.6,
            "codebook j={}: {} vs {}",
            j,
            to_single(out[j]),
            want
        );
    }
    // ib1: ls=0 → dl=-32 → value = -32*codebook[0] for zeroed qs
    assert!(
        (to_single(out[32]) - (-32.0 * IQ4NL[0])).abs() < 4.0,
        "negative scale path"
    );
}

#[test]
fn f16_converters_are_ieee_exact() {
    // Round-trip identity over EVERY non-NaN f16 (subnormals, zeros,
    // infinities) — the property that makes host-vs-device decoder
    // comparisons meaningful at bit level.
    for h in 0u16..=0xffff {
        let exp = (h >> 10) & 0x1f;
        let man = h & 0x3ff;
        if exp == 0x1f && man != 0 {
            // NaN: class preserved, canonical quiet on the way back
            let f = to_single(h);
            assert!(f.is_nan());
            assert_eq!(to_half(f) & 0x7c00, 0x7c00);
            assert_ne!(to_half(f) & 0x3ff, 0);
            continue;
        }
        assert_eq!(to_half(to_single(h)), h, "roundtrip h={:#06x}", h);
    }
    // Ties round to even, in the subnormal range too: midpoints
    // between consecutive f16s land on the even neighbor.
    for h in [0u16, 1, 2, 0x3ff, 0x400, 0x7bfe, 0x1234] {
        let a = to_single(h) as f64;
        let b = to_single(h + 1) as f64;
        let mid = ((a + b) / 2.0) as f32;
        let r = to_half(mid);
        assert!(r == h || r == h + 1);
        assert_eq!(
            r & 1,
            0,
            "tie at h={:#06x} must round to even, got {:#06x}",
            h,
            r
        );
    }
}

#[test]
fn storage_sizes_match_ggml() {
    assert_eq!(storage_bytes(DType::GgufQ8_0, 1024), 1024 / 32 * 34);
    assert_eq!(storage_bytes(DType::GgufQ4_0, 1024), 1024 / 32 * 18);
    assert_eq!(storage_bytes(DType::GgufQ4_1, 1024), 1024 / 32 * 20);
    assert_eq!(storage_bytes(DType::GgufQ5_0, 1024), 1024 / 32 * 22);
    assert_eq!(storage_bytes(DType::GgufQ5_1, 1024), 1024 / 32 * 24);
    assert_eq!(storage_bytes(DType::GgufQ4K, 1024), 1024 / 256 * 144);
    assert_eq!(storage_bytes(DType::GgufQ5K, 1024), 1024 / 256 * 176);
    assert_eq!(storage_bytes(DType::GgufIQ4XS, 1024), 1024 / 256 * 136);
    assert_eq!(storage_bytes(DType::GgufQ6K, 1024), 1024 / 256 * 210);
}

#[test]
fn q4_0_nibble_order_and_offset() {
    // d = 0.25; byte j = j | ((15−j)<<4): elem j = 0.25·(j−8),
    // elem j+16 = 0.25·(15−j−8) — checks the split-halves order.
    let mut blk = vec![0u8; 18];
    blk[0..2].copy_from_slice(&to_half(0.25).to_le_bytes());
    for j in 0..16u8 {
        blk[2 + j as usize] = j | ((15 - j) << 4);
    }
    let mut out = vec![0u16; 32];
    dequant_q4_0(&blk, 32, &mut out).unwrap();
    for j in 0..16usize {
        assert!(
            (to_single(out[j]) - 0.25 * (j as f32 - 8.0)).abs() < 1e-3,
            "lo j={}",
            j
        );
        assert!(
            (to_single(out[j + 16]) - 0.25 * ((15 - j) as f32 - 8.0)).abs() < 1e-3,
            "hi j={}",
            j
        );
    }
}

#[test]
fn q4_1_scale_plus_min() {
    let mut blk = vec![0u8; 20];
    blk[0..2].copy_from_slice(&to_half(0.5).to_le_bytes());
    blk[2..4].copy_from_slice(&to_half(-1.5).to_le_bytes());
    for j in 0..16u8 {
        blk[4 + j as usize] = j | ((15 - j) << 4);
    }
    let mut out = vec![0u16; 32];
    dequant_q4_1(&blk, 32, &mut out).unwrap();
    for j in 0..16usize {
        assert!((to_single(out[j]) - (0.5 * j as f32 - 1.5)).abs() < 1e-3);
        assert!((to_single(out[j + 16]) - (0.5 * (15 - j) as f32 - 1.5)).abs() < 1e-3);
    }
}

#[test]
fn q5_0_fifth_bit_mapping() {
    // qh bit j → elem j, bit j+16 → elem j+16 (ggml's (qh>>(j+12))&0x10).
    let mut blk = vec![0u8; 22];
    blk[0..2].copy_from_slice(&to_half(1.0).to_le_bytes());
    let qh: u32 = 0xA5F0_0F5A; // arbitrary bit soup
    blk[2..6].copy_from_slice(&qh.to_le_bytes());
    for j in 0..16u8 {
        blk[6 + j as usize] = (j % 16) | ((j % 16) << 4);
    }
    let mut out = vec![0u16; 32];
    dequant_q5_0(&blk, 32, &mut out).unwrap();
    for r in 0..32usize {
        let nib = (r % 16) as i32;
        let hi = ((qh >> r) & 1) as i32 * 16;
        let want = (nib + hi - 16) as f32;
        assert!((to_single(out[r]) - want).abs() < 1e-3, "r={}", r);
    }
}

#[test]
fn q5_1_fifth_bit_plus_min() {
    let mut blk = vec![0u8; 24];
    blk[0..2].copy_from_slice(&to_half(0.5).to_le_bytes());
    blk[2..4].copy_from_slice(&to_half(2.0).to_le_bytes());
    let qh: u32 = 0x1234_ABCD;
    blk[4..8].copy_from_slice(&qh.to_le_bytes());
    for j in 0..16u8 {
        blk[8 + j as usize] = j | ((15 - j) << 4);
    }
    let mut out = vec![0u16; 32];
    dequant_q5_1(&blk, 32, &mut out).unwrap();
    for r in 0..32usize {
        let nib = if r < 16 {
            r as i32
        } else {
            15 - (r - 16) as i32
        };
        let hi = ((qh >> r) & 1) as i32 * 16;
        let want = 0.5 * (nib + hi) as f32 + 2.0;
        assert!((to_single(out[r]) - want).abs() < 1e-2, "r={}", r);
    }
}
