use cima::models::gemma4::probe::{
    digest, dump_f16_matrix, dump_tower_names, full_digest, quadrant_image, NanHunt, Spot, Stage,
};
use cima::num::{f16_to_f32, read_le32};
use cima::selftest::mock::mock_model;

#[test]
fn digests_cover_the_front_of_a_buffer() {
    assert_eq!(full_digest(b""), 0xcbf2_9ce4_8422_2325);
    assert_eq!(full_digest(b"a"), 0xaf63_dc4c_8601_ec8c);
    assert_eq!(digest(b"foobar"), 0x8594_4171_f739_67e8);
    let mut long = vec![1u8; 65537];
    let before = (digest(&long), full_digest(&long));
    long[65536] = 2;
    assert_eq!(digest(&long), before.0);
    assert_ne!(full_digest(&long), before.1);
}

#[test]
fn dumps_hold_their_shape_and_elements() {
    let v = vec![0x3c00u16, 0xbc00, 0x7bff];
    let b = dump_f16_matrix(1, 3, &v);
    assert_eq!(b.len(), 20);
    assert_eq!((read_le32(&b, 0), read_le32(&b, 4)), (1, 3));
    assert_eq!(read_le32(&b, 8), 1.0f32.to_bits());
    assert_eq!(read_le32(&b, 12), (-1.0f32).to_bits());
    assert_eq!(read_le32(&b, 16), f16_to_f32(0x7bff));
}

#[test]
fn the_first_value_that_is_not_finite_is_reported_once() {
    let mut h = NanHunt::new();
    let tokens = vec![11, 12];
    assert_eq!(h.scan(Stage::Attn, 0, 2, &vec![0x3c00, 0xc000, 0x3c00, 0], &tokens), None);
    let top = Spot { stage: Stage::Attn, layer: 0, row: 0, col: 1, token: 11 };
    assert_eq!((h.peak, h.place), (0x4000, Some(top)));
    let bad = h.scan(Stage::Ffn, 3, 2, &vec![0, 0, 0, 0, 0x4400, 0x7c00, 0x7e00], &tokens);
    assert_eq!(bad, Some(Spot { stage: Stage::Ffn, layer: 3, row: 2, col: 1, token: 0 }));
    assert_eq!(h.peak, 0x4400);
    assert_eq!(h.scan(Stage::Ple, 4, 2, &vec![0x7c00], &tokens), None);
    let s = h.summary();
    assert!(s.fired && s.peak == 0x4400);
    assert!(!h.fired && h.peak == 0 && h.place.is_none());
}

#[test]
fn names_outside_the_layers_are_listed() {
    let (_, m) = mock_model();
    let w = m.weights();
    let all = dump_tower_names(&w, "");
    assert_eq!(all.total, w.metas.len());
    assert!(all.outside.len() < all.total);
    let names: Vec<&str> = all.outside.iter().map(|i| w.metas[*i].name.as_str()).collect();
    let mut sorted = names.clone();
    sorted.sort();
    assert_eq!(names, sorted);
    assert!(names.iter().all(|n| !n.contains(".layers.")));
    assert_eq!(dump_tower_names(&w, "audio_tower.").total, 0);
}

#[test]
fn the_test_image_has_four_colours() {
    let p = quadrant_image(4);
    assert_eq!(p.len(), 48);
    assert_eq!(p[0..3], [220, 40, 40]);
    assert_eq!(p[9..12], [40, 180, 60]);
    assert_eq!(p[36..39], [50, 80, 220]);
    assert_eq!(p[45..48], [240, 200, 40]);
}
