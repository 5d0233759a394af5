use cima::models::generate::{
    draw_penalty, ends_turn, feeding, fit_prompt, judge, paths, reuse, source, spells, Feeding, Generation, Paths, Source, StopReason, Verdict,
};
use cima::models::prompt::{MediaRows, PreparedPrompt};
use cima::models::sampler::{
    apply_penalty, exponents, f32_le, pick, prepare_draw, DefaultSampler, Draw, GenOptions,
};

fn opts() -> GenOptions {
    GenOptions {
        temperature: 0.8f32.to_bits(),
        top_p: 0.9f32.to_bits(),
        top_k: 40,
        repeat_penalty: 1.0f32.to_bits(),
        seed: 1,
        max_tokens: 16,
        stop: vec![],
        ignore_eos: false,
        json_mode: false,
        json_schema: None,
    }
}

fn bits(v: &[f32]) -> Vec<u32> {
    v.iter().map(|x| x.to_bits()).collect()
}

fn floats(v: &[u32]) -> Vec<f32> {
    v.iter().map(|b| f32::from_bits(*b)).collect()
}

fn plain(tokens: Vec<u32>) -> PreparedPrompt {
    PreparedPrompt { tokens, media_embeds: vec![], block_ids: vec![] }
}

#[test]
fn truncation_keeps_both_ends() {
    let p = plain((0..100).collect());
    let cut = fit_prompt(&p, 40);
    // Sixteen slots are kept for the answer.
    assert_eq!(cut.len(), 24);
    assert_eq!(cut[0], 0);
    assert_eq!(cut[1..], (77..100).collect::<Vec<u32>>());
    assert_eq!(fit_prompt(&p, 116).len(), 100);
    assert_eq!(fit_prompt(&p, 115).len(), 99);
    let media = PreparedPrompt {
        tokens: (0..100).collect(),
        media_embeds: vec![MediaRows { at: 0, ptr: 1, rows: 2 }],
        block_ids: vec![],
    };
    assert!(!media.is_plain());
    assert_eq!(fit_prompt(&media, 40).len(), 100);
    let blocks = PreparedPrompt { tokens: vec![], media_embeds: vec![], block_ids: vec![-1] };
    assert!(fit_prompt(&blocks, 4).is_empty());
}

#[test]
fn a_common_prefix_is_reused() {
    let session = vec![1, 2, 3, 4];
    assert_eq!(reuse(&session, &vec![1, 2, 9], true, true, false), 2);
    // The last token is always computed.
    assert_eq!(reuse(&session, &vec![1, 2, 3, 4], true, true, false), 3);
    assert_eq!(reuse(&session, &vec![1, 2, 3, 4, 5], true, true, false), 4);
    assert_eq!(reuse(&session, &vec![1, 2, 9], false, true, false), 0);
    assert_eq!(reuse(&session, &vec![1, 2, 9], true, false, false), 0);
    assert_eq!(reuse(&session, &vec![1, 2, 9], true, true, true), 0);
    assert_eq!(reuse(&session, &vec![], true, true, false), 0);
}

#[test]
fn where_tokens_are_picked() {
    let mut o = opts();
    let p = paths(&o, false, true, false, false);
    assert!(!p.greedy && !p.pipeline && p.sample_graph);
    assert!(!paths(&o, true, true, false, false).sample_graph);
    assert!(!paths(&o, false, true, false, true).sample_graph);
    o.top_k = 65;
    assert!(!paths(&o, false, true, false, false).sample_graph);
    o.temperature = 0;
    let p = paths(&o, false, true, false, false);
    assert!(p.greedy && p.pipeline && !p.sample_graph);
    assert!(!paths(&o, false, false, false, false).pipeline);
    assert!(!paths(&o, false, true, true, false).pipeline);
    o.repeat_penalty = 1.1f32.to_bits();
    assert!(!paths(&o, false, true, false, false).greedy);
}

#[test]
fn constrained_draws_mask_what_they_refuse() {
    let mut l = bits(&[1.0, 2.0]);
    assert!(matches!(judge(&mut l, 1, 0, false, false, true), Verdict::Take));
    assert_eq!(floats(&l), [1.0, 2.0]);
    assert!(matches!(judge(&mut l, 1, 0, true, false, true), Verdict::Redraw));
    assert_eq!(floats(&l), [1.0, f32::NEG_INFINITY]);
    assert!(matches!(judge(&mut l, 0, 4095, false, true, false), Verdict::GiveUp));
    let o = GenOptions { repeat_penalty: 1.5f32.to_bits(), ..opts() };
    assert_eq!(draw_penalty(&o, 0), 1.5f32.to_bits());
    assert_eq!(draw_penalty(&o, 1), 1.0f32.to_bits());
}

#[test]
fn pieces_spell_a_text() {
    assert!(spells(&vec![vec![0x68], vec![0xc3], vec![0xa9]], "hé"));
    assert!(!spells(&vec![vec![0x68], vec![0xc3]], "hé"));
    assert!(spells(&vec![], ""));
}

#[test]
fn turn_ends() {
    assert!(ends_turn(3, &vec![1], &vec![2], &vec![3]));
    assert!(!ends_turn(4, &vec![1], &vec![2], &vec![3]));
}

#[test]
fn streams_hold_back_half_characters() {
    let mut g = Generation::start(&vec![5, 6], 10, 100);
    assert_eq!(g.budget, 10);
    let o = opts();
    let a = g.take(7, &vec![b'h', 0xe2, 0x82], false, false, false, &o);
    assert_eq!(a.piece.as_deref(), Some("h"));
    assert_eq!(a.feed, Some(2));
    let b = g.take(8, &vec![0xac], false, false, false, &o);
    assert_eq!(b.piece.as_deref(), Some("€"));
    assert_eq!(b.feed, Some(3));
    assert_eq!(g.text.iter().collect::<String>(), "h€");
    assert_eq!(g.session(), [5, 6, 7, 8]);
    // A stray lead byte never becomes a character.
    let c = g.take(9, &vec![0xe2], false, false, false, &o);
    assert!(c.piece.is_none());
    assert_eq!(g.finish().as_deref(), Some("\u{fffd}"));
    assert_eq!(g.finish(), None);
    assert!(g.is_going());
    assert_eq!(g.reason.name(), "length");
}

#[test]
fn broken_bytes_are_replaced_once_too_many_wait() {
    let mut g = Generation::start(&vec![1], 10, 100);
    let o = opts();
    let a = g.take(2, &vec![0xff, 0xff, 0xff], false, false, false, &o);
    assert!(a.piece.is_none());
    let b = g.take(3, &vec![0xff], false, false, false, &o);
    assert_eq!(b.piece.as_deref(), Some("\u{fffd}\u{fffd}\u{fffd}\u{fffd}"));
}

#[test]
fn stop_sequences_are_cut_off() {
    let mut g = Generation::start(&vec![1], 10, 100);
    let o = GenOptions { stop: vec!["END".to_string()], ..opts() };
    let a = g.take(2, &b"abcEN".to_vec(), false, false, false, &o);
    assert_eq!(a.piece.as_deref(), Some("abcEN"));
    let b = g.take(3, &b"D!".to_vec(), false, false, false, &o);
    assert_eq!(b.piece.as_deref(), Some("D!"));
    assert!(b.feed.is_none());
    assert!(!g.is_going());
    assert!(matches!(g.reason, StopReason::Stop));
    assert_eq!(g.text.iter().collect::<String>(), "abc");
    // The last token was never fed.
    assert_eq!(g.session(), [1, 2]);
    assert_eq!(g.history, [1, 2, 3]);
}

#[test]
fn end_tokens_close_the_turn() {
    let mut g = Generation::start(&vec![1], 10, 100);
    let a = g.take(2, &b"x".to_vec(), true, false, false, &opts());
    assert!(a.piece.is_none() && a.feed.is_none() && !g.is_going());
    assert_eq!(g.generated, 0);
    let mut g = Generation::start(&vec![1], 10, 100);
    let o = GenOptions { ignore_eos: true, ..opts() };
    g.take(2, &b"x".to_vec(), true, false, false, &o);
    assert!(g.is_going());
    let mut g = Generation::start(&vec![1], 10, 100);
    g.take(2, &b"}".to_vec(), false, true, true, &opts());
    assert!(!g.is_going());
    // The device had fed it ahead.
    assert_eq!(g.session(), [1, 2]);
}

#[test]
fn the_budget_is_what_the_caches_hold() {
    let mut g = Generation::start(&vec![1, 2, 3], 10, 5);
    assert_eq!(g.budget, 2);
    let o = opts();
    g.take(4, &b"a".to_vec(), false, false, false, &o);
    assert!(g.is_going());
    g.take(5, &b"b".to_vec(), false, false, false, &o);
    assert!(!g.is_going());
    assert_eq!(Generation::start(&vec![1, 2, 3], 10, 2).budget, 0);
    let mut g = Generation::start(&vec![1], 4, 9);
    g.stop();
    assert!(!g.is_going());
}

#[test]
fn penalties_shrink_what_was_said() {
    let mut l = bits(&[2.0, -2.0, 3.0, 0.5]);
    apply_penalty(&mut l, &vec![0, 1, 0, 9], 2.0f32.to_bits());
    assert_eq!(floats(&l), [0.5, -4.0, 3.0, 0.5]);
    apply_penalty(&mut l, &vec![2], 1.0f32.to_bits());
    assert_eq!(floats(&l), [0.5, -4.0, 3.0, 0.5]);
}

#[test]
fn candidates_are_ranked_and_cut() {
    let mut l = bits(&[1.0, 5.0, 3.0, 5.0, -1.0]);
    let o = GenOptions { top_k: 3, ..opts() };
    match prepare_draw(&mut l, &vec![], &o) {
        Draw::Ranked(c) => {
            // Of equals the greater token ranks first.
            assert_eq!(c.ids, [3, 1, 2]);
            assert_eq!(floats(&c.vals), [5.0, 5.0, 3.0]);
        }
        Draw::Token(_) => panic!("not greedy"),
    }
    let greedy = GenOptions { temperature: 0, ..opts() };
    assert!(greedy.is_greedy());
    assert!(matches!(prepare_draw(&mut l, &vec![], &greedy), Draw::Token(3)));
}

#[test]
fn exponents_are_differences_over_the_temperature() {
    let e = exponents(&bits(&[3.0, 2.0, 0.0]), 0.5f32.to_bits());
    assert_eq!(floats(&e), [0.0, -2.0, -6.0]);
}

#[test]
fn draws_stay_in_the_nucleus() {
    let w = bits(&[6.0, 3.0, 1.0]);
    let p = |top_p: f32, u: f32| pick(&w, top_p.to_bits(), u.to_bits());
    assert_eq!(p(1.0, 0.0), 0);
    assert_eq!(p(1.0, 0.65), 1);
    assert_eq!(p(1.0, 0.95), 2);
    for u in [0.0, 0.3, 0.9, 0.999] {
        assert_eq!(p(0.5, u), 0);
        assert!(p(0.8, u) <= 1);
    }
    assert!(f32_le(1.0f32.to_bits(), 1.0f32.to_bits()));
    assert!(!f32_le(f32::NAN.to_bits(), 1.0f32.to_bits()));
}

#[test]
fn the_generator_is_an_xorshift_star() {
    let mut s = DefaultSampler::new(0);
    assert_eq!(s.rng, 1);
    let u = f32::from_bits(s.next_f32());
    let mut x = 1u64;
    x ^= x >> 12;
    x ^= x << 25;
    x ^= x >> 27;
    assert_eq!(s.rng, x);
    let want = (x.wrapping_mul(0x2545_F491_4F6C_DD1D) >> 40) as f32 / (1u64 << 24) as f32;
    assert_eq!(u, want);
    let o = opts();
    let mut t = DefaultSampler::new(0);
    let w = bits(&[1.0, 1.0, 1.0, 1.0]);
    assert_eq!(t.finish(&w, &vec![10, 11, 12, 13], &o), 10 + (want * 4.0) as u32);
}

#[test]
fn tokens_come_from_what_was_read() {
    let none = Paths { greedy: false, pipeline: false, sample_graph: false };
    let greedy = Paths { greedy: true, ..none };
    let ahead = Paths { pipeline: true, ..greedy };
    let ranks = Paths { sample_graph: true, ..none };
    assert_eq!(source(&greedy, true, true, true), Source::Scaffold);
    assert_eq!(source(&none, false, true, false), Source::Constrained);
    assert_eq!(source(&greedy, false, false, true), Source::Argmax);
    assert_eq!(source(&ranks, false, false, true), Source::Candidates);
    assert_eq!(source(&ranks, false, false, false), Source::Logits);
    assert_eq!(feeding(&ahead, false), Feeding::Fetch);
    assert_eq!(feeding(&greedy, false), Feeding::Argmax);
    assert_eq!(feeding(&ranks, true), Feeding::Ranked);
    assert_eq!(feeding(&ranks, false), Feeding::Logits);
    assert_eq!(feeding(&none, true), Feeding::Logits);
}
