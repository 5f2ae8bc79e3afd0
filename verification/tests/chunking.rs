use audiobook::chunking::{
    append_tts_unit, flush_tts_chunk, is_tts_sentence_boundary, split_oversized_tts_unit,
    split_tts_text, TTS_CHUNK_MAX_CHARS,
};

#[test]
fn split_tts_text_prefers_sentence_boundaries() {
    let sentence = "这是一个用于测试的句子。";
    let text = sentence.repeat(TTS_CHUNK_MAX_CHARS / sentence.chars().count() + 3);

    let chunks = split_tts_text(&text);

    assert!(chunks.len() > 1);
    assert!(chunks
        .iter()
        .all(|chunk| chunk.chars().count() <= TTS_CHUNK_MAX_CHARS));
    assert_eq!(chunks.concat(), text);
}

#[test]
fn split_tts_text_hard_splits_oversized_unit() {
    let text = "长".repeat(TTS_CHUNK_MAX_CHARS + 37);

    let chunks = split_tts_text(&text);

    assert_eq!(chunks.len(), 2);
    assert!(chunks
        .iter()
        .all(|chunk| chunk.chars().count() <= TTS_CHUNK_MAX_CHARS));
    assert_eq!(chunks.concat(), text);
}

fn without_white(s: &str) -> String {
    s.chars().filter(|c| !c.is_whitespace()).collect()
}

#[test]
fn boundaries_are_punctuation_and_line_feeds() {
    for c in "\n。！？；：，、…!?;:,".chars() {
        assert!(is_tts_sentence_boundary(c), "{:?}", c);
    }
    for c in ".\r 长a\u{3000}「".chars() {
        assert!(!is_tts_sentence_boundary(c), "{:?}", c);
    }
}

#[test]
fn short_texts_are_one_request() {
    assert!(split_tts_text(" \n\u{3000}").is_empty());
    assert_eq!(split_tts_text("  一。 二。\n"), ["一。 二。"]);
    let full = "长".repeat(TTS_CHUNK_MAX_CHARS);
    assert_eq!(split_tts_text(&full), [full]);
}

#[test]
fn requests_end_at_boundaries_where_they_can() {
    let first = format!("{}。", "甲".repeat(1000));
    let second = format!("{}，", "乙".repeat(700));
    let third = "丙".repeat(99);
    let text = format!("{}{}{}", first, second, third);
    assert_eq!(text.chars().count(), 1801);
    assert_eq!(split_tts_text(&text), [format!("{}{}", first, second), third]);
}

#[test]
fn an_oversized_sentence_stands_alone() {
    let before = "甲。".to_string();
    let long = format!("{}。", "乙".repeat(1800));
    let after = "丙。".to_string();
    let chunks = split_tts_text(&format!("{}{}{}", before, long, after));
    assert_eq!(chunks, [before, "乙".repeat(1800), "。".to_string(), after]);
}

#[test]
fn only_white_space_is_lost_between_requests() {
    let text = format!("{}。 \n {}", "甲".repeat(1500), "乙 丙，".repeat(300));
    let chunks = split_tts_text(&text);
    assert!(chunks.len() > 1);
    assert_eq!(without_white(&chunks.concat()), without_white(&text));
    for chunk in &chunks {
        assert_eq!(chunk.trim(), chunk);
        assert!(!chunk.is_empty());
        assert!(chunk.chars().count() <= TTS_CHUNK_MAX_CHARS);
        assert_eq!(split_tts_text(chunk), [chunk.clone()]);
    }
}

#[test]
fn a_chunk_is_flushed_without_its_white_space() {
    let mut current = "  x ".to_string();
    let mut count = 4;
    let mut chunks = vec!["w".to_string()];
    flush_tts_chunk(&mut current, &mut count, &mut chunks);
    assert_eq!((current.as_str(), count), ("", 0));
    assert_eq!(chunks, ["w", "x"]);
    flush_tts_chunk(&mut current, &mut count, &mut chunks);
    assert_eq!(chunks.len(), 2);
}

#[test]
fn units_are_gathered_up_to_the_limit() {
    let mut current = String::new();
    let mut count = 0;
    let mut chunks = Vec::new();
    append_tts_unit(&"甲".repeat(1800), &mut current, &mut count, &mut chunks);
    assert_eq!((count, chunks.len()), (1800, 0));
    append_tts_unit("乙", &mut current, &mut count, &mut chunks);
    assert_eq!((current.as_str(), count, chunks.len()), ("乙", 1, 1));
    append_tts_unit("", &mut current, &mut count, &mut chunks);
    assert_eq!((current.as_str(), count, chunks.len()), ("乙", 1, 1));
    append_tts_unit(&"丙".repeat(1801), &mut current, &mut count, &mut chunks);
    assert_eq!((current.as_str(), count), ("", 0));
    assert_eq!(chunks[1..], ["乙".to_string(), "丙".repeat(1800), "丙".to_string()]);
}

#[test]
fn an_oversized_unit_is_cut_by_length() {
    let mut chunks = Vec::new();
    split_oversized_tts_unit(&"长".repeat(4000), &mut chunks);
    let lengths: Vec<usize> = chunks.iter().map(|c| c.chars().count()).collect();
    assert_eq!(lengths, [1800, 1800, 400]);
}
