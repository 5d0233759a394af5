use cima::big::{at_least, mul_add, sub_assign};
use cima::decimal::decimal_to_f64;
use cima::ieee::Format;
use cima::num::{
    bf16_to_f32, f16_to_f32, f32_add, f32_div, f32_from_i32, f32_lt, f32_mul, f32_sub, f32_to_f16,
    read_le16, read_le32,
};

/// A stream of patterns, the awkward ones among them.
fn patterns(n: usize) -> Vec<u32> {
    let mut v = vec![
        0,
        0x8000_0000,
        1,
        0x8000_0001,
        0x007f_ffff,
        0x0080_0000,
        0x3f80_0000,
        0xbf80_0000,
        0x7f7f_ffff,
        0x7f80_0000,
        0xff80_0000,
        0x7fc0_0000,
        0x4b80_0000,
        0x3300_0000,
    ];
    let mut x = 0x9e37_79b9_7f4a_7c15u64;
    while v.len() < n {
        x ^= x << 13;
        x ^= x >> 7;
        x ^= x << 17;
        v.push((x >> 16) as u32);
    }
    v
}

fn same(a: f32, b: u32) -> bool {
    (a.is_nan() && f32::from_bits(b).is_nan()) || a.to_bits() == b
}

#[test]
fn single_arithmetic_is_that_of_the_machine() {
    let v = patterns(160);
    for &a in &v {
        for &b in &v {
            let (x, y) = (f32::from_bits(a), f32::from_bits(b));
            assert!(same(x * y, f32_mul(a, b)), "{a:#x} * {b:#x}");
            assert!(same(x + y, f32_add(a, b)), "{a:#x} + {b:#x}");
            assert!(same(x - y, f32_sub(a, b)), "{a:#x} - {b:#x}");
            assert!(same(x / y, f32_div(a, b)), "{a:#x} / {b:#x}");
            assert_eq!(x < y, f32_lt(a, b));
            assert_eq!(x == y, Format::F32.eq_value(a as u64, b as u64));
        }
        let r = Format::F32.square_root(a as u64);
        assert!(same(f32::from_bits(a).sqrt(), r as u32), "sqrt {a:#x}");
    }
}

#[test]
fn double_arithmetic_is_that_of_the_machine() {
    let v: Vec<u64> = patterns(90)
        .iter()
        .map(|w| f64::from(f32::from_bits(*w)).to_bits() ^ ((*w as u64) << 3))
        .collect();
    for &a in &v {
        for &b in &v {
            let (x, y) = (f64::from_bits(a), f64::from_bits(b));
            let f = Format::F64;
            for (want, got) in [
                (x * y, f.multiply(a, b)),
                (x + y, f.plus(a, b)),
                (x - y, f.minus(a, b)),
                (x / y, f.divide(a, b)),
            ] {
                assert!(want.is_nan() && f64::from_bits(got).is_nan() || want.to_bits() == got);
            }
        }
    }
}

#[test]
fn conversions_round_as_casts_do() {
    for &a in &patterns(400) {
        let x = f32::from_bits(a);
        let wide = Format::F32.to_format(Format::F64, a as u64);
        assert!(x.is_nan() && f64::from_bits(wide).is_nan() || f64::from(x).to_bits() == wide);
        let d = (a as u64) << 31 | a as u64;
        let narrow = Format::F64.to_format(Format::F32, d) as u32;
        assert!(same(f64::from_bits(d) as f32, narrow), "{d:#x}");
        assert_eq!(f32_from_i32(a as i32), (a as i32 as f32).to_bits());
        assert_eq!(Format::F64.from_u64(d), (d as f64).to_bits());
        assert_eq!(Format::F64.from_i64(d as i64), (d as i64 as f64).to_bits());
        assert_eq!(Format::F64.trunc_u64(d), f64::from_bits(d) as u64);
        assert_eq!(Format::F32.trunc_u64(a as u64), x as u64);
        assert_eq!(
            Format::F32.whole(a as u64),
            x.is_finite() && x.fract() == 0.0
        );
    }
}

#[test]
fn halves_widen_exactly() {
    assert_eq!(f16_to_f32(0x3c00), 1.0f32.to_bits());
    assert_eq!(f16_to_f32(0xc000), (-2.0f32).to_bits());
    assert_eq!(f16_to_f32(0x0001), 5.960464477539063e-8f32.to_bits());
    assert_eq!(f16_to_f32(0x7c00), f32::INFINITY.to_bits());
    assert_eq!(f32_to_f16(65519.0f32.to_bits()), 0x7bff);
    assert_eq!(f32_to_f16(65520.0f32.to_bits()), 0x7c00);
    assert_eq!(f32_to_f16(1e-9f32.to_bits()), 0);
    assert_eq!(bf16_to_f32(0x3f80), 1.0f32.to_bits());
}

#[test]
fn small_multiples_of_a_half_round_once() {
    for (d, n) in [(0x3c01u16, 63i32), (0x0001, -128), (0x7bff, 2), (0x2e66, 33)] {
        let product = f32_mul(f16_to_f32(d), f32_from_i32(n));
        let exact = f64::from(f32::from_bits(f16_to_f32(d))) * f64::from(n);
        assert_eq!(f64::from(f32::from_bits(product)), exact);
    }
}

#[test]
fn little_endian_reads() {
    let b = [0x01, 0x02, 0x03, 0x84, 0x05];
    assert_eq!(read_le16(&b, 1), 0x0302);
    assert_eq!(read_le32(&b, 1), 0x0584_0302);
}

fn digits(s: &str) -> Vec<u8> {
    s.bytes().map(|b| b - b'0').collect()
}

#[test]
fn decimals_round_to_the_nearest_double() {
    for (d, e) in [
        ("0", 0),
        ("1", 0),
        ("3", -1),
        ("00123456789012345678901234567890", -12),
        ("17976931348623157", 292),
        ("17976931348623159", 292),
        ("49406564584124654", -340),
        ("24703282292062327", -340),
        ("22250738585072011", -324),
        ("9007199254740993", 0),
        ("1", 400),
        ("1", -400),
        ("1", -2000),
    ] {
        let text = format!("{d}e{e}");
        let want: f64 = text.parse().unwrap();
        assert_eq!(decimal_to_f64(false, &digits(d), e), want.to_bits(), "{text}");
        assert_eq!(decimal_to_f64(true, &digits(d), e), (-want).to_bits(), "-{text}");
    }
}

#[test]
fn big_numbers_carry_and_borrow() {
    let mut d = vec![u32::MAX, u32::MAX];
    mul_add(&mut d, 2, 3);
    assert_eq!(d, vec![1, 0, 2]);
    assert!(at_least(&d, &vec![1, 0, 2]));
    assert!(at_least(&d, &vec![7]));
    assert!(!at_least(&vec![0, 0, 2, 0], &d));
    sub_assign(&mut d, &vec![2]);
    assert_eq!(d, vec![u32::MAX, u32::MAX, 1]);
}
