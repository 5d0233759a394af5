use cima::media::ImageTensor;
use cima::models::gemma4::audio::{
    as_shipped, framing, is_activated, tile_scales, token_count, AudioError, Framing,
};
use cima::models::gemma4::encode::{
    grid_of, patch_projection, positions, unfold, Grid, VisionError,
};
use cima::models::gemma4::image::{splice_probe, SizeError};
use cima::models::gemma4::graph::Gemma4;
use cima::models::gemma4::pool::{count_exhausted, Affine, Pooling};
use cima::models::gemma4::subsample::Subsampler;
use cima::num::{f16_to_f32, f32_to_f16};

fn single(h: u16) -> f32 {
    f32::from_bits(f16_to_f32(h))
}

fn half(x: f32) -> u16 {
    f32_to_f16(x.to_bits())
}

fn bits(v: &[f32]) -> Vec<u32> {
    v.iter().map(|x| x.to_bits()).collect()
}

/// Values in [-1, 1) that look random.
fn noise(n: usize, seed: u64) -> Vec<f32> {
    let mut x = seed;
    (0..n)
        .map(|_| {
            x = x.wrapping_mul(6364136223846793005).wrapping_add(1442695040888963407);
            ((x >> 40) as f32) / (1u64 << 23) as f32 - 1.0
        })
        .collect()
}

#[test]
fn image_sizes_keep_the_ratio_within_the_budget() {
    for (w, h) in [(640, 480), (1, 1), (4000, 3000), (1920, 1080), (768, 768), (100, 3000)] {
        let f = (2520.0f64 * 256.0 / (w * h) as f64).sqrt();
        let side = |s: usize| (f * s as f64 / 48.0).floor() as usize * 48;
        let (th, tw) = Gemma4::image_target_size(w, h).unwrap();
        assert_eq!((th, tw), (side(h), side(w)), "{w}x{h}");
        assert!((th / 16) * (tw / 16) <= 2520);
    }
}

#[test]
fn slivers_get_one_row_of_patches() {
    assert_eq!(Gemma4::image_target_size(20000, 10), Ok((48, 13440)));
    assert_eq!(Gemma4::image_target_size(10, 20000), Ok((13440, 48)));
    assert_eq!(Gemma4::image_norm(), ([0.5f32.to_bits(); 3], [0.5f32.to_bits(); 3]));
    assert_eq!(Gemma4::image_target_size(0, 10), Err(SizeError::ZeroDimension));
}

#[test]
fn probes_of_a_span() {
    let p = splice_probe(300, 10, 256);
    assert_eq!(p.rows, [0, 128, 255]);
    assert_eq!(p.front, (8, 14));
    assert_eq!(p.tail, (264, 268));
    assert_eq!(p.centres, [4 * 16 + 4, 4 * 16 + 11, 11 * 16 + 4, 11 * 16 + 11]);
}

fn image(w: usize, h: usize) -> ImageTensor {
    ImageTensor {
        data: bits(&noise(3 * w * h, 5)),
        channels: 3,
        height: h,
        width: w,
    }
}

#[test]
fn grids_of_images() {
    let img = image(96, 48);
    assert_eq!(grid_of(&img, 128), Ok(Grid { w: 6, h: 3 }));
    assert_eq!(grid_of(&img, 5), Err(VisionError::PositionTable { rows: 5 }));
    let odd = ImageTensor { data: vec![], channels: 3, height: 50, width: 48 };
    assert_eq!(grid_of(&odd, 128), Err(VisionError::Sides));
    let huge = ImageTensor { data: vec![], channels: 3, height: 960, width: 960 };
    assert_eq!(
        grid_of(&huge, 128),
        Err(VisionError::TooManyPatches { grid_w: 60, grid_h: 60 })
    );
    let (x, y) = positions(Grid { w: 3, h: 2 });
    assert_eq!(x, [0, 1, 2, 0, 1, 2]);
    assert_eq!(y, [0, 0, 0, 1, 1, 1]);
}

#[test]
fn unfolding_keeps_every_pixel() {
    let img = image(96, 48);
    let g = Grid { w: 6, h: 3 };
    let rows = unfold(&img, g);
    assert_eq!(rows.len(), 6 * 3 * 768);
    for (c, y, x) in [(0, 0, 0), (1, 17, 95), (2, 47, 31)] {
        let at = ((y / 16) * 6 + x / 16) * 768 + ((y % 16) * 16 + x % 16) * 3 + c;
        let want = f32::from_bits(img.data[(c * 48 + y) * 96 + x]);
        assert_eq!(rows[at], half(want));
    }
}

#[test]
fn convolution_kernels_are_permuted() {
    let v: Vec<u32> = (0..24).collect();
    assert_eq!(patch_projection(v.clone(), 2, 2), v);
    let p = patch_projection(v, 4, 2);
    assert_eq!(p[..12], [0, 4, 8, 1, 5, 9, 2, 6, 10, 3, 7, 11]);
    assert_eq!(p[12], 12);
}

/// Average, scale, shift and normalize a window in plain arithmetic.
fn pooled(x: &[u16], gw: usize, h: usize, k: usize, ty: usize, tx: usize, affine: bool) -> Vec<u16> {
    let scale = (h as f32).sqrt() / (k * k) as f32;
    let mut acc = vec![0f32; h];
    for dy in 0..k {
        for dx in 0..k {
            let p = (ty * k + dy) * gw + tx * k + dx;
            for c in 0..h {
                acc[c] += single(x[p * h + c]);
            }
        }
    }
    let mut ssq = 0f64;
    for (c, a) in acc.iter_mut().enumerate() {
        let mut v = *a * scale;
        if affine {
            v = (v - 0.25 * c as f32) * 1.5;
        }
        *a = v;
        ssq += f64::from(v) * f64::from(v);
    }
    let inv = 1.0 / (ssq / h as f64 + f64::from(1e-6f32)).sqrt();
    acc.iter().map(|a| half((f64::from(*a) * inv) as f32)).collect()
}

#[test]
fn pooling_is_exact() {
    let (gw, gh, h, k) = (6, 3, 8, 3);
    let x: Vec<u16> = noise(gw * gh * h, 11).iter().map(|v| half(v * 40.0)).collect();
    for affine in [false, true] {
        let p = Pooling {
            grid: Grid { w: gw, h: gh },
            h,
            k,
            rms_eps: 1e-6f32.to_bits(),
            affine: if affine {
                Some(Affine {
                    bias: (0..h).map(|c| (0.25 * c as f32).to_bits()).collect(),
                    scale: vec![1.5f32.to_bits(); h],
                })
            } else {
                None
            },
        };
        let got = p.pool(&x);
        let want: Vec<u16> = (0..2).flat_map(|tx| pooled(&x, gw, h, k, 0, tx, affine)).collect();
        assert_eq!(got, want);
    }
}

#[test]
fn exhausted_activations_are_counted() {
    let (inf, max) = count_exhausted(&[0x7c00, 0xfc00, 0x7bff, 0xfbff, 0x7bfe, 0x7e00]);
    assert_eq!((inf, max), (2, 3));
}

#[test]
fn clips_stay_within_their_tokens() {
    assert_eq!(framing(8000, 100_000), Err(AudioError::SampleRate { rate: 8000 }));
    assert_eq!(framing(16_000, 639), Err(AudioError::TooShort { frames: 3 }));
    assert_eq!(framing(16_000, 640), Ok(Framing { samples: 640, frames: 4 }));
    assert_eq!(framing(16_000, 16_000), Ok(Framing { samples: 16_000, frames: 100 }));
    let long = framing(16_000, 10_000_000).unwrap();
    assert_eq!(long, Framing { samples: 480_320, frames: 3002 });
    assert_eq!(token_count(100), 25);
    assert_eq!(token_count(5), 2);
    assert_eq!(token_count(long.frames), 750);
}

#[test]
fn audio_scales() {
    assert!(is_activated(&bits(&[0.5, 1.0])));
    assert!(!is_activated(&bits(&[0.5, 0.0])));
    assert!(as_shipped(true, 0) && as_shipped(false, 20.5f32.to_bits()));
    assert!(!as_shipped(false, 20.0f32.to_bits()));
    assert_eq!(
        tile_scales(&bits(&[1.0, 3.0]), 0.5f32.to_bits(), 2),
        [half(0.5), half(1.5), half(0.5), half(1.5)]
    );
}

/// One stage of the front end in plain arithmetic.
fn stage(x: &[f32], ic: usize, t: usize, f: usize, w: &[f32], oc: usize, ln: &[f32]) -> Vec<f32> {
    let (ot, of) = ((t + 1) / 2, (f + 1) / 2);
    let mut out = vec![0f32; oc * ot * of];
    for o in 0..oc {
        for y in 0..ot {
            for z in 0..of {
                let mut acc = 0f32;
                for i in 0..ic {
                    for ky in 0..3 {
                        for kx in 0..3 {
                            let (sy, sx) = (2 * y + ky, 2 * z + kx);
                            if sy >= 1 && sy <= t && sx >= 1 && sx <= f {
                                acc += w[((o * ic + i) * 3 + ky) * 3 + kx]
                                    * x[(i * t + sy - 1) * f + sx - 1];
                            }
                        }
                    }
                }
                out[(o * ot + y) * of + z] = acc;
            }
        }
    }
    for p in 0..ot * of {
        let mut mean = 0f32;
        for o in 0..oc {
            mean += out[o * ot * of + p];
        }
        mean /= oc as f32;
        let mut var = 0f32;
        for o in 0..oc {
            let d = out[o * ot * of + p] - mean;
            var += d * d;
        }
        var /= oc as f32;
        let inv = 1.0 / (var + 1e-6f32).sqrt();
        for o in 0..oc {
            let v = (out[o * ot * of + p] - mean) * inv * ln[o];
            out[o * ot * of + p] = if v > 0.0 { v } else { 0.0 };
        }
    }
    out
}

#[test]
fn subsampling_is_exact() {
    let (frames, mels, c0, c1) = (5, 6, 3, 2);
    let mel = noise(frames * mels, 21);
    let (w0, w1) = (noise(c0 * 9, 22), noise(c1 * c0 * 9, 23));
    let (l0, l1) = (noise(c0, 24), noise(c1, 25));
    let s = Subsampler {
        conv0: bits(&w0),
        norm0: bits(&l0),
        conv1: bits(&w1),
        norm1: bits(&l1),
        ch: (c0, c1),
        eps: 1e-6f32.to_bits(),
    };
    let got = s.subsample(&bits(&mel), frames, mels);
    let h1 = stage(&mel, 1, frames, mels, &w0, c0, &l0);
    let h2 = stage(&h1, c0, 3, 3, &w1, c1, &l1);
    let mut want = vec![0f32; 2 * 2 * c1];
    for t in 0..2 {
        for f in 0..2 {
            for c in 0..c1 {
                want[t * 2 * c1 + f * c1 + c] = h2[(c * 2 + t) * 2 + f];
            }
        }
    }
    assert_eq!(got, bits(&want));
}
