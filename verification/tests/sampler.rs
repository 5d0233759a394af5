use cima::models::generate::earliest_stop;
use cima::models::sampler::{exponents, prepare_draw, DefaultSampler, Draw, GenOptions};

fn opts(temp: f32, top_p: f32, top_k: usize) -> GenOptions {
    GenOptions {
        temperature: temp.to_bits(),
        top_p: top_p.to_bits(),
        top_k,
        repeat_penalty: 1.0f32.to_bits(),
        seed: 0,
        max_tokens: 0,
        stop: vec![],
        ignore_eos: false,
        json_mode: false,
        json_schema: None,
    }
}

fn bits(v: &[f32]) -> Vec<u32> {
    v.iter().map(|x| x.to_bits()).collect()
}

/// The weights of candidate logits.
fn weigh(vals: &Vec<u32>, temperature: u32) -> Vec<u32> {
    exponents(vals, temperature)
        .iter()
        .map(|e| f32::from_bits(*e).exp().to_bits())
        .collect()
}

fn exp(e: u32) -> u32 {
    f32::from_bits(e).exp().to_bits()
}

/// One step: rank, weigh, draw.
fn sample(s: &mut DefaultSampler, logits: &[f32], o: &GenOptions) -> u32 {
    s.sample(&mut bits(logits), &vec![], o, &exp)
}

#[test]
fn stop_is_exclusive_and_position_based() {
    // Trailing chars after the stop must still
    // trigger, trimming from the stop's start.
    let t = "1. Apple\n2. Banana\n3. Cherry";
    let pos = earliest_stop(t, &vec!["Banana".to_string()]).unwrap();
    assert_eq!(&t[..pos], "1. Apple\n2. ");
    // Case-sensitive: lowercase stop does not match "Banana".
    assert_eq!(earliest_stop(t, &vec!["banana".to_string()]), None);
    // Earliest of several wins.
    let pos2 = earliest_stop(t, &vec!["Cherry".to_string(), "Apple".to_string()]).unwrap();
    assert_eq!(&t[..pos2], "1. ");
    // Empty stops are ignored (never an instant abort at 0).
    assert_eq!(earliest_stop(t, &vec!["".to_string()]), None);
    // No match → None.
    assert_eq!(earliest_stop(t, &vec!["Durian".to_string()]), None);
    // The stop arrives fused with a trailing char, so the text does not end
    // with it: it is found where it stands.
    let fused = "red, green, and blue.";
    let p = earliest_stop(fused, &vec!["green".to_string()]).unwrap();
    assert_eq!(&fused[..p], "red, ");
}

#[test]
fn greedy_picks_argmax_and_is_allocation_stable() {
    let mut s = DefaultSampler::new(1);
    let logits = vec![0.1f32, 0.5, 0.2, 0.9, 0.3];
    let o = opts(0.0, 1.0, 0);
    for _ in 0..8 {
        assert_eq!(sample(&mut s, &logits, &o), 3);
    }
}

#[test]
fn sampling_is_deterministic_for_a_seed() {
    let logits = vec![2.0f32, 1.0, 0.5, 0.25, 0.1, 3.0, 0.7, 1.5];
    let o = opts(0.8, 0.95, 5);
    let mut a = DefaultSampler::new(0xABCDEF);
    let first = sample(&mut a, &logits, &o);
    let mut b = DefaultSampler::new(0xABCDEF);
    assert_eq!(first, sample(&mut b, &logits, &o));
    // And a run of draws is reproducible.
    let mut c = DefaultSampler::new(7);
    let seq1: Vec<u32> = (0..16).map(|_| sample(&mut c, &logits, &o)).collect();
    let mut d = DefaultSampler::new(7);
    let seq2: Vec<u32> = (0..16).map(|_| sample(&mut d, &logits, &o)).collect();
    assert_eq!(seq1, seq2);
}

#[test]
fn top_p_one_can_reach_any_candidate() {
    let logits = vec![1.0f32; 100];
    let o = opts(1.0, 1.0, 0);
    let mut s = DefaultSampler::new(99);
    for _ in 0..1000 {
        assert!(sample(&mut s, &logits, &o) < 100);
    }
}

#[test]
fn candidate_path_matches_full_path_when_greedy() {
    let mut s = DefaultSampler::new(3);
    let o = opts(0.0, 1.0, 0);
    let vals = bits(&[5.0f32, 3.0, 1.0]);
    let ids = vec![42u32, 7, 9];
    assert_eq!(s.sample_candidates(&vals, &ids, &o, &exp), 42);
}

#[test]
fn a_step_is_ranking_weighing_and_drawing() {
    let logits = vec![2.0f32, 1.0, 0.5, 0.25, 0.1, 3.0, 0.7, 1.5];
    let o = opts(0.8, 0.95, 5);
    let (mut a, mut b) = (DefaultSampler::new(11), DefaultSampler::new(11));
    for _ in 0..16 {
        let whole = sample(&mut a, &logits, &o);
        match prepare_draw(&mut bits(&logits), &vec![], &o) {
            Draw::Ranked(c) => {
                assert_eq!(c.ids, [5, 0, 7, 1, 6]);
                let w = weigh(&c.vals, o.temperature);
                assert_eq!(whole, b.finish(&w, &c.ids, &o));
            }
            Draw::Token(_) => panic!("nothing is greedy"),
        }
        assert_eq!(a.rng, b.rng);
    }
}

#[test]
fn seed_zero_draws_what_seed_one_draws() {
    let logits = vec![2.0f32, 1.0, 0.5, 0.25, 0.1, 3.0, 0.7, 1.5];
    let o = opts(0.8, 0.95, 5);
    let run = |seed: u64| -> Vec<u32> {
        let mut s = DefaultSampler::new(seed);
        (0..16).map(|_| sample(&mut s, &logits, &o)).collect()
    };
    assert_eq!(run(0), run(1));
}

#[test]
fn candidates_stand_for_all_logits() {
    let logits = vec![2.0f32, 1.0, 3.0, 0.25, 2.0, 3.0, 0.7, 1.5];
    // By descending logit, of equals the later first.
    let ids = vec![5u32, 2, 4, 0, 7, 1, 6, 3];
    let vals = bits(&ids.iter().map(|i| logits[*i as usize]).collect::<Vec<f32>>());
    for o in [opts(0.8, 0.95, 5), opts(1.3, 1.0, 0), opts(0.0, 1.0, 3), opts(0.5, 0.5, 1)] {
        let (mut a, mut b) = (DefaultSampler::new(5), DefaultSampler::new(5));
        for _ in 0..16 {
            let mut row = bits(&logits);
            let full = a.sample(&mut row, &vec![1, 2], &o, &exp);
            assert_eq!(row, bits(&logits));
            assert_eq!(full, b.sample_candidates(&vals, &ids, &o, &exp));
            assert_eq!(a.rng, b.rng);
        }
    }
}
