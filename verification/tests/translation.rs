use mistral_srt_ai_gen::{apply_translation, combine_segment_texts, TranscriptionSegment};

fn seg(start_ms: u64, end_ms: u64, text: &str) -> TranscriptionSegment {
    TranscriptionSegment { start_ms, end_ms, text: text.to_string() }
}

#[test]
fn texts_are_trimmed_and_joined_with_the_marker() {
    let segments = vec![seg(0, 1, "  Bonjour "), seg(1, 2, "le monde\n")];
    assert_eq!(combine_segment_texts(&segments), "Bonjour\n|||SEG|||\nle monde");
    assert_eq!(combine_segment_texts(&vec![]), "");
    assert_eq!(combine_segment_texts(&vec![seg(0, 1, " a ")]), "a");
}

#[test]
fn translated_pieces_replace_the_texts() {
    let segments = vec![seg(0, 1000, "Bonjour"), seg(1000, 2000, "le monde")];
    let out = apply_translation(&segments, "Hello\n|||SEG|||\n the world ");
    assert_eq!(out, vec![seg(0, 1000, "Hello"), seg(1000, 2000, "the world")]);
}

#[test]
fn missing_pieces_keep_the_original_text() {
    let segments = vec![seg(0, 1000, "un"), seg(1000, 2000, " deux ")];
    let out = apply_translation(&segments, "one");
    assert_eq!(out, vec![seg(0, 1000, "one"), seg(1000, 2000, " deux ")]);
}

#[test]
fn unchanged_translation_gives_back_trimmed_texts() {
    let segments = vec![seg(0, 1, " a "), seg(1, 2, ""), seg(2, 3, "b c\t"), seg(3, 4, "||SEG|")];
    let combined = combine_segment_texts(&segments);
    let out = apply_translation(&segments, &combined);
    assert_eq!(out, vec![seg(0, 1, "a"), seg(1, 2, ""), seg(2, 3, "b c"), seg(3, 4, "||SEG|")]);
}
