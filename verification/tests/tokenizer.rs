use cima::tokenizer::alphabet::byte_alphabet;
use cima::tokenizer::chat::{push_media, render_chat, turn_stops, ChatTurn, Dialect};
use cima::tokenizer::load::{MergeFault, TokenizerError};
use cima::tokenizer::merge::{merge_all, MergeRanks};
use cima::tokenizer::policy::discover_bos_eos;
use cima::tokenizer::split::{pretokenize, segments};
use cima::tokenizer::words::longest_first;
use cima::tokenizer::BpeTokenizer;

const BYTE_LEVEL: &str = r#"{
    "model": {
        "type": "BPE",
        "vocab": {"h": 0, "e": 1, "l": 2, "o": 3, "Ġ": 4, "he": 5, "ll": 6, "hell": 7,
                  "hello": 8, "Ġhello": 9, "Ã": 12, "©": 13, "Ċ": 14},
        "merges": ["h e", "l l", ["he", "ll"], "hell o", ["Ġ", "hello"]]
    },
    "added_tokens": [
        {"id": 10, "content": "<s>", "special": true},
        {"id": 11, "content": "<s>>"}
    ],
    "post_processor": {"single": ["<s>", "A"]}
}"#;

fn byte_level() -> BpeTokenizer {
    BpeTokenizer::load(
        BYTE_LEVEL,
        Some(r#"{"bos_token_id": 10, "eos_token_id": [11]}"#),
        None,
        None,
    )
    .unwrap()
}

fn strings(v: &[&str]) -> Vec<String> {
    v.iter().map(|s| s.to_string()).collect()
}

fn chars(s: &str) -> Vec<char> {
    s.chars().collect()
}

/// A metaspace vocabulary with a token for every byte.
fn metaspace(extra: &[&str], merges: &[&str], score: &[f32]) -> BpeTokenizer {
    let mut tokens: Vec<String> = (0..256).map(|b| format!("<0x{b:02X}>")).collect();
    tokens.extend(strings(extra));
    let mut types = vec![6i64; 256];
    types.resize(tokens.len(), 1);
    if let Some(i) = tokens.iter().position(|t| t == "<bos>") {
        types[i] = 3;
    }
    let scores: Vec<u32> = if score.is_empty() {
        vec![]
    } else {
        let mut s = vec![-100.0f32; 256];
        s.extend(score);
        s.iter().map(|x| x.to_bits()).collect()
    };
    BpeTokenizer::from_gguf(
        &tokens,
        &strings(merges),
        &types,
        Some(256),
        vec![257],
        true,
        scores,
    )
}

#[test]
fn the_alphabet_spells_every_byte() {
    let (enc, dec) = byte_alphabet();
    assert_eq!((enc.len(), dec.len()), (256, 256));
    assert_eq!(enc[b'A' as usize], 'A');
    assert_eq!(enc[b' ' as usize], 'Ġ');
    assert_eq!(enc[0], 'Ā');
    assert_eq!(enc[0xad], 'Ń');
    for b in 0..256usize {
        assert_eq!(dec.get(&(enc[b] as u32)), Some(&(b as u8)));
    }
    // What does not stand for itself is shifted in order.
    let shifted: Vec<char> =
        (0..256usize).filter(|b| enc[*b] as usize != *b).map(|b| enc[b]).collect();
    assert_eq!(shifted, ('\u{100}'..='\u{143}').collect::<Vec<char>>());
}

#[test]
fn the_lowest_rank_merges_first() {
    let mut m = MergeRanks::new();
    m.insert("b".to_string(), "c".to_string(), 0);
    m.insert("a".to_string(), "b".to_string(), 1);
    m.insert("a".to_string(), "bc".to_string(), 2);
    assert_eq!(merge_all(&m, &chars("abcab")), strings(&["abc", "ab"]));
    assert_eq!(m.get("a", "b"), Some(1));
    assert_eq!(m.get("ab", ""), None);
    assert_eq!(merge_all(&m, &chars("xyz")).concat(), "xyz");
    assert!(merge_all(&m, &vec![]).is_empty());
}

#[test]
fn words_are_runs_with_the_space_before() {
    let w = |s: &str| -> Vec<String> {
        pretokenize(&chars(s)).iter().map(|v| v.iter().collect()).collect()
    };
    assert_eq!(
        w("Hi  you2 \n\nà-é!"),
        strings(&["Hi", "  ", "you", "2", " \n\n", "à", "-", "é", "!"])
    );
    assert_eq!(w(" "), strings(&[" "]));
    assert_eq!(w("a b12\tc").concat(), "a b12\tc");
}

#[test]
fn literals_cut_the_text_longest_first() {
    let lits = longest_first(&vec![
        ("<s>".to_string(), 1),
        ("é".to_string(), 4),
        ("<s>>".to_string(), 2),
        ("ab".to_string(), 3),
    ]);
    let order: Vec<u32> = lits.iter().map(|l| l.1).collect();
    assert_eq!(order, [2, 1, 4, 3]);
    let cut: Vec<(String, bool)> = segments(&chars("x<s>><s>y"), &lits)
        .iter()
        .map(|s| (s.text.iter().collect(), s.literal))
        .collect();
    assert_eq!(
        cut,
        [
            ("x".to_string(), false),
            ("<s>>".to_string(), true),
            ("<s>".to_string(), true),
            ("y".to_string(), false)
        ]
    );
}

#[test]
fn byte_level_texts_come_back() {
    let tk = byte_level();
    assert_eq!(tk.bos(), Some(10));
    assert_eq!(tk.bos_literal(), Some("<s>"));
    assert!(tk.adds_bos());
    assert_eq!(tk.encode("hello hello", false), [8, 9]);
    assert_eq!(tk.encode("hello", true), [10, 8]);
    assert_eq!(tk.encode("<s>>hel é", false), [11, 5, 2, 4, 12, 13]);
    let text = "hello heé\nloo";
    let ids = tk.encode(text, false);
    assert_eq!(tk.decode_all(&ids), text.as_bytes());
    assert_eq!(tk.detokenize(&ids), text);
    assert_eq!(tk.special("hello"), Some(8));
    assert_eq!(tk.special("none"), None);
    assert_eq!(tk.decode_bytes(9), b" hello");
    assert_eq!(tk.decode_bytes(10), b"<s>");
    assert!(tk.decode_bytes(99).is_empty());
    assert_eq!(tk.eos_ids(), &vec![11]);
    assert_eq!(tk.specials()[0].0, "<s>>");
}

#[test]
fn metaspace_texts_come_back() {
    let tk = metaspace(&["<bos>", "<eos>", "▁", "a", "b", "▁a", "ab"], &["▁ a", "a b"], &[]);
    assert!(tk.sp);
    assert_eq!(tk.encode("a ab", true), [256, 259, 261, 260]);
    assert_eq!(tk.encode("<bos>ab", false), [256, 262]);
    // A character without a token falls back to its bytes.
    assert_eq!(tk.encode("é", false), [0xc3, 0xa9]);
    let text = " a  ab é";
    assert_eq!(tk.decode_all(&tk.encode(text, false)), text.as_bytes());
}

#[test]
fn scores_pick_the_best_segmentation() {
    let tk = metaspace(
        &["<bos>", "<eos>", "a", "b", "ab", "abc", "c", "bc"],
        &[],
        &[0.0, 0.0, -1.0, -1.0, -5.0, -9.0, -1.0, -1.5],
    );
    // a + bc = -2.5 beats a + b + c, ab + c and abc.
    assert_eq!(tk.encode("abc", false), [258, 263]);
    assert_eq!(tk.encode("aé", false), [258, 0xc3, 0xa9]);
    assert_eq!(f32::from_bits(tk.byte_pen), -110.0);
    assert_eq!(tk.max_piece_chars, 6);
}

#[test]
fn broken_files_are_told_apart() {
    let err = |s: &str| BpeTokenizer::load(s, None, None, None).err().unwrap();
    assert!(matches!(err("{"), TokenizerError::Malformed));
    assert!(matches!(err("{}"), TokenizerError::NoModel));
    assert!(matches!(
        err(r#"{"model": {"type": "Unigram"}}"#),
        TokenizerError::ModelType(t) if t == "Unigram"
    ));
    assert!(matches!(err(r#"{"model": {"vocab": 3}}"#), TokenizerError::NoVocab));
    assert!(matches!(
        err(r#"{"model": {"vocab": {"a": 0, "b": "x"}}}"#),
        TokenizerError::VocabId(t) if t == "b"
    ));
    assert!(matches!(err(r#"{"model": {"vocab": {"a": 0}}}"#), TokenizerError::NoMerges));
    for (m, want) in [
        (r#""ab""#, MergeFault::NoSpace),
        (r#"[1, "b"]"#, MergeFault::Left),
        (r#"["a", 1]"#, MergeFault::Right),
        (r#"["a"]"#, MergeFault::Shape),
        ("7", MergeFault::Shape),
    ] {
        let s = format!(r#"{{"model": {{"vocab": {{"a": 0}}, "merges": ["a b", {m}]}}}}"#);
        match err(&s) {
            TokenizerError::Merge { rank, fault } => assert_eq!((rank, fault), (1, want)),
            e => panic!("{e:?}"),
        }
    }
    assert!(matches!(
        err(r#"{"model": {"vocab": {"a": 4294967295}, "merges": []}}"#),
        TokenizerError::IdRange
    ));
}

#[test]
fn metaspace_files_may_prepend() {
    let s = r#"{
        "model": {"byte_fallback": true, "vocab": {"▁": 0, "a": 1, "▁a": 2}, "merges": ["▁ a"]},
        "normalizer": {"type": "Sequence", "normalizers": [{"type": "Prepend", "prepend": "▁"}]}
    }"#;
    let tk = BpeTokenizer::load(s, None, None, None).unwrap();
    assert!(tk.sp && tk.sp_prepend);
    assert_eq!(tk.encode("a a", false), [2, 2]);
}

#[test]
fn end_tokens_are_collected() {
    let tk = byte_level();
    let (bos, eos) = discover_bos_eos(
        Some(r#"{"eos_token_id": [7, 8]}"#),
        Some(r#"{"bos_token_id": 3, "eos_token_id": 8}"#),
        Some(r#"{"eos_token": "hello"}"#),
        &tk.vocab,
    );
    assert_eq!(bos, Some(3));
    assert_eq!(eos, [7, 8]);
    let (bos, eos) = discover_bos_eos(None, None, Some(r#"{"eos_token": "he"}"#), &tk.vocab);
    assert_eq!(bos, None);
    assert_eq!(eos, [5]);
}

fn turn(role: &str, content: &str, n_images: usize) -> ChatTurn {
    ChatTurn {
        role: role.to_string(),
        content: content.to_string(),
        n_images,
        n_audio: 0,
    }
}

#[test]
fn chats_render_in_each_dialect() {
    let tk = byte_level();
    let turns = vec![turn("system", "S", 0), turn("user", "U", 1), turn("assistant", "A", 0)];
    let show = |raw: &str, gemma: bool, forced: Option<Dialect>, template: Option<&str>| {
        render_chat(raw, "", &tk, gemma, forced, &turns, Some("<img>"), template)
    };
    assert_eq!(
        show("", true, None, None),
        "<start_of_turn>user\nS\n\n<image>U<end_of_turn>\n<start_of_turn>model\nA<end_of_turn>\n<start_of_turn>model\n"
    );
    assert_eq!(
        show("", true, Some(Dialect::Turn), None),
        "<|turn>user\nS\n\n<image>U<turn|>\n<|turn>model\nA<turn|>\n<|turn>model\n"
    );
    assert_eq!(
        show("", false, None, Some("{{ '<|start_header_id|>' }}")),
        "<|begin_of_text|><|start_header_id|>system<|end_header_id|>\n\nS<|eot_id|>\
         <|start_header_id|>user<|end_header_id|>\n\n<img>\nU<|eot_id|>\
         <|start_header_id|>assistant<|end_header_id|>\n\nA<|eot_id|>\
         <|start_header_id|>assistant<|end_header_id|>\n\n"
    );
    assert_eq!(
        show(r#"{"chat_template": "<|im_start|>"}"#, false, None, None),
        "<|im_start|>system\nS<|im_end|>\n<|im_start|>user\n<img>\nU<|im_end|>\n\
         <|im_start|>assistant\nA<|im_end|>\n<|im_start|>assistant\n"
    );
}

#[test]
fn media_placeholders_take_a_line_each() {
    let mut s = String::from("x");
    push_media(&mut s, 2, Some("<img>"));
    push_media(&mut s, 2, None);
    assert_eq!(s, "x<img>\n<img>\n");
}

#[test]
fn words_merge_as_the_whole() {
    let tk = metaspace(&["<bos>", "<eos>", "▁", "a", "b", "▁a", "ab"], &["▁ a", "a b"], &[]);
    let mut whole = vec![];
    tk.bpe(&chars("a▁ab▁▁b▁aab"), &mut whole);
    assert_eq!(tk.encode("a ab  b aab", false), whole);
}

#[test]
fn chats_start_with_one_start_token() {
    let mut tk = metaspace(&["<bos>", "<eos>", "▁", "a", "b", "▁a", "ab"], &["▁ a", "a b"], &[]);
    assert_eq!(tk.bos_literal(), Some("<bos>"));
    let turns = vec![turn("user", "ab", 0)];
    let ids = |tk: &BpeTokenizer| {
        tk.encode(&render_chat("", "", tk, true, None, &turns, None, None), true)
    };
    let added = ids(&tk);
    tk.add_bos = false;
    assert!(render_chat("", "", &tk, true, None, &turns, None, None).starts_with("<bos>"));
    assert_eq!(ids(&tk), added);
    assert_eq!(added.iter().filter(|t| **t == 256).count(), 1);
    assert_eq!(added[0], 256);
}

#[test]
fn turns_end_in_every_dialect() {
    let tk = metaspace(&["<bos>", "<eos>", "<turn|>", "▁"], &[], &[]);
    assert_eq!(turn_stops(&tk), [258]);
    let tk = metaspace(&["<bos>", "<eos>", "<turn|>", "<end_of_turn>"], &[], &[]);
    assert_eq!(turn_stops(&tk), [259, 258]);
    assert!(turn_stops(&byte_level()).is_empty());
}
