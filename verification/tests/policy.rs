use cima::tokenizer::policy::resolve_add_bos;

/// The flag wins; without it the post-processor decides; files that say
/// nothing mean that the token is prepended.
#[test]
fn add_bos_discovery_hierarchy() {
    // 1. explicit flag wins, regardless of tokenizer.json
    assert!(!resolve_add_bos(
        Some(r#"{"add_bos_token": false}"#),
        Some(r#"{"post_processor": {"single": "<bos> $A"}}"#),
        Some("<bos>")
    ));
    assert!(resolve_add_bos(
        Some(r#"{"add_bos_token": true}"#),
        Some(r#"{"post_processor": null}"#),
        Some("<bos>")
    ));
    // 2. absent flag: the post_processor decides
    assert!(resolve_add_bos(
        Some("{}"),
        Some(r#"{"post_processor": {"type": "TemplateProcessing", "single": ["<bos>", "A"]}}"#),
        Some("<bos>")
    ));
    assert!(!resolve_add_bos(
        Some("{}"),
        Some(r#"{"post_processor": {"type": "ByteLevel", "trim_offsets": true}}"#),
        Some("<bos>")
    ));
    // 3. fallbacks: null/missing post_processor, missing files, no literal -> prepend
    assert!(resolve_add_bos(
        Some("{}"),
        Some(r#"{"post_processor": null}"#),
        Some("<bos>")
    ));
    assert!(resolve_add_bos(None, None, Some("<bos>")));
    assert!(resolve_add_bos(
        Some("{}"),
        Some(r#"{"post_processor": {"single": "<bos> $A"}}"#),
        None
    ));
}
