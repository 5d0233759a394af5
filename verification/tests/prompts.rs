use cima::models::family::{gemma4_modality, Arch, Capability};
use cima::models::gemma4::framing::{check_framed_media, prepare_gemma4, Markers};
use cima::models::prepare::{
    check_chain, check_media, media_token, prepare, prepare_chat, splice_media, Encoded, MediaError,
};
use cima::models::transformer::config::Modality;
use cima::models::prompt::{hist_seeds, logits_row, Chunk, ChunkPlan, MediaRows};
use cima::tokenizer::BpeTokenizer;

/// A metaspace vocabulary of single letters and media placeholders.
fn letters() -> BpeTokenizer {
    let mut tokens: Vec<String> = (0..256).map(|b| format!("<0x{b:02X}>")).collect();
    for t in ["<bos>", "<image>", "a", "b", "▁"] {
        tokens.push(t.to_string());
    }
    let mut types = vec![6i64; 256];
    types.extend([3, 3, 1, 1, 1]);
    BpeTokenizer::from_gguf(&tokens, &vec![], &types, Some(256), vec![], true, vec![])
}

const IMAGE: u32 = 257;
const A: u32 = 258;
const B: u32 = 259;

fn item(ptr: u64, rows: usize) -> Encoded {
    Encoded { ptr, rows }
}

#[test]
fn towers_must_be_there() {
    assert_eq!(check_media(0, 0, false, false), Ok(()));
    assert_eq!(check_media(1, 1, true, true), Ok(()));
    assert_eq!(check_media(1, 1, false, false), Err(MediaError::NoVision));
    assert_eq!(check_media(1, 1, true, false), Err(MediaError::NoAudio));
}

#[test]
fn rows_replace_placeholders() {
    let tk = letters();
    assert_eq!(media_token(&tk), Some("<image>"));
    let p = prepare(&tk, "a<image>b", Some("<image>"), &vec![item(7, 3)]).unwrap();
    assert_eq!(p.tokens, [256, A, IMAGE, IMAGE, IMAGE, B]);
    assert_eq!(p.media_embeds, vec![MediaRows { at: 2, ptr: 7, rows: 3 }]);
    assert!(p.block_ids.is_empty());
}

#[test]
fn media_without_a_placeholder_come_first() {
    let p = prepare(&letters(), "a", Some("<image>"), &vec![item(7, 2)]).unwrap();
    // The placeholder takes a line of its own.
    assert_eq!(p.tokens, [256, IMAGE, IMAGE, 0x0a, A]);
}

#[test]
fn placeholders_and_items_must_match() {
    let one = vec![item(1, 1)];
    assert_eq!(
        splice_media(&vec![IMAGE, IMAGE], Some(IMAGE), &one).err(),
        Some(MediaError::Placeholders)
    );
    assert_eq!(splice_media(&vec![A], Some(IMAGE), &one).err(), Some(MediaError::Unused));
    assert_eq!(prepare(&letters(), "a", None, &one).err(), Some(MediaError::Unused));
}

#[test]
fn chats_that_extend_the_session_are_chained() {
    let tk = letters();
    assert_eq!(prepare_chat(&tk, &vec![256, A], "a", "ab", false), Some(vec![256, A, B]));
    assert_eq!(prepare_chat(&tk, &vec![256, A], "b", "ab", false), None);
    assert_eq!(prepare_chat(&tk, &vec![], "a", "ab", false), None);
    assert_eq!(prepare_chat(&tk, &vec![256, A], "a", "ab", true), None);
}

fn markers(bidirectional: bool) -> Markers {
    Markers {
        image: 1,
        image_start: 2,
        image_end: 3,
        audio: 4,
        audio_start: 5,
        audio_end: 6,
        bidirectional,
    }
}

#[test]
fn media_are_framed() {
    let tk = letters();
    let images = vec![item(10, 1), item(11, 2)];
    let clips = vec![item(20, 1)];
    let p = prepare_gemma4(&tk, "a<audio>b<image>", &images, &clips, &markers(true)).unwrap();
    // The image without a placeholder goes first, after the start token.
    assert_eq!(p.tokens, [256, 2, 1, 3, A, 5, 4, 6, B, 2, 1, 1, 3]);
    assert_eq!(p.block_ids, [-1, -1, 0, -1, -1, -1, -1, -1, -1, -1, 1, 1, -1]);
    assert_eq!(
        p.media_embeds,
        vec![
            MediaRows { at: 2, ptr: 10, rows: 1 },
            MediaRows { at: 6, ptr: 20, rows: 1 },
            MediaRows { at: 10, ptr: 11, rows: 2 },
        ]
    );
    let p = prepare_gemma4(&tk, "<image>", &vec![item(1, 1)], &vec![], &markers(false)).unwrap();
    assert!(p.block_ids.iter().all(|b| *b == -1));
}

#[test]
fn framing_knows_what_is_missing() {
    let tk = letters();
    let mut k = markers(true);
    assert_eq!(
        prepare_gemma4(&tk, "<image><audio>", &vec![], &vec![], &k).err(),
        Some(MediaError::Named { images: 1, clips: 1 })
    );
    k.audio_end = 0;
    assert_eq!(
        prepare_gemma4(&tk, "", &vec![], &vec![item(1, 1)], &k).err(),
        Some(MediaError::Markers)
    );
    assert!(prepare_gemma4(&tk, "a", &vec![], &vec![], &k).is_ok());
}

#[test]
fn the_last_row_yields_the_logits() {
    let plan = |cuts: &[(usize, usize)]| -> Vec<ChunkPlan> {
        cuts.iter()
            .map(|(start, take)| ChunkPlan {
                chunk: Chunk { start: *start, take: *take },
                splices: vec![],
            })
            .collect()
    };
    assert_eq!(logits_row(&plan(&[(0, 1)])), 0);
    assert_eq!(logits_row(&plan(&[(0, 512)])), 511);
    assert_eq!(logits_row(&plan(&[(0, 512), (512, 1)])), 0);
    // A block that moves the seam moves the row with it.
    assert_eq!(logits_row(&plan(&[(0, 400), (400, 200)])), 199);
}

#[test]
fn the_history_ring_holds_the_recent_tokens() {
    assert_eq!(hist_seeds(&[7, 8, 9], 3), vec![(0, 7), (1, 8), (2, 9)]);
    assert!(hist_seeds(&[], 0).is_empty());
}

#[test]
fn families_differ() {
    assert_eq!(
        Arch::Std.capabilities(false, true, false),
        [Capability::Generate, Capability::Embed, Capability::Vision]
    );
    assert_eq!(Arch::Std.capabilities(true, false, false), [Capability::Embed]);
    assert_eq!(
        Arch::Gemma4.capabilities(true, false, true),
        [Capability::Generate, Capability::Embed, Capability::Audio]
    );
    assert!(Arch::Std.supports_device_pipeline() && Arch::Std.keeps_rows());
    assert!(!Arch::Gemma4.supports_device_pipeline() && !Arch::Gemma4.keeps_rows());
    assert_eq!(gemma4_modality(true, true), Modality::VisionText);
    assert_eq!(gemma4_modality(false, true), Modality::AudioText);
    assert_eq!(gemma4_modality(false, false), Modality::TextToText);
}

#[test]
fn chained_tokens_are_held_against_the_whole() {
    let c = check_chain(&vec![1, 2, 3], &vec![1, 2, 3]);
    assert_eq!((c.divergence, c.drift), (None, false));
    let c = check_chain(&vec![1, 5, 3], &vec![1, 2, 3]);
    assert_eq!((c.divergence, c.drift), (Some(1), false));
    let c = check_chain(&vec![1, 2], &vec![1, 2, 3]);
    assert_eq!((c.divergence, c.drift), (None, true));
}

#[test]
fn clips_need_markers_before_anything_else() {
    let k = markers(true);
    let bare = Markers { audio_end: 0, ..markers(true) };
    assert_eq!(check_framed_media(1, 1, true, true, &k), Ok(()));
    assert_eq!(check_framed_media(1, 1, false, false, &k), Err(MediaError::NoVision));
    assert_eq!(check_framed_media(1, 1, true, false, &k), Err(MediaError::NoAudio));
    assert_eq!(check_framed_media(1, 1, false, false, &bare), Err(MediaError::Markers));
    assert_eq!(check_framed_media(1, 0, true, false, &bare), Ok(()));
}
