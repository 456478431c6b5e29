use koemoji::ocr::{clean_lines, remove_repeated_lines};
use koemoji::similarity::{levenshtein, lines_are_similar, normalize_for_compare};

fn strings(v: &[&str]) -> Vec<String> {
    v.iter().map(|s| s.to_string()).collect()
}

#[test]
fn repeated_ocr_lines_are_removed() {
    let previous = strings(&["会議のアジェンダ", "Project roadmap"]);
    let current = strings(&["会議のアジェンダ", "Project roadmap", "次のステップ"]);
    assert_eq!(remove_repeated_lines(&current, &previous), vec!["次のステップ"]);
}

#[test]
fn a_new_screen_keeps_its_context() {
    let previous = strings(&["Old title", "Old body"]);
    let current = strings(&["New title", "新しい本文", "Conclusion"]);
    assert_eq!(remove_repeated_lines(&current, &previous), current);
}

#[test]
fn small_ocr_variations_count_as_duplicates() {
    assert!(lines_are_similar(
        "KoeMoji timeline integration",
        "KoeMoji timeline integratlon"
    ));
}

#[test]
fn same_frame_twice_records_nothing() {
    let lines = strings(&["Agenda", "Budget plan", "次のステップ"]);
    assert!(remove_repeated_lines(&lines, &lines).is_empty());
}

#[test]
fn half_repeated_frame_keeps_only_new_lines() {
    let previous = strings(&["Title A", "Line one"]);
    let current = strings(&["Title A", "Line two"]);
    // one of two lines repeated: not fewer than half, so only the new line
    assert_eq!(remove_repeated_lines(&current, &previous), vec!["Line two"]);
}

#[test]
fn empty_frame_records_nothing() {
    let previous = strings(&["Title A"]);
    let current: Vec<String> = Vec::new();
    assert!(remove_repeated_lines(&current, &previous).is_empty());
}

#[test]
fn clean_lines_collapses_whitespace_and_drops_short_lines() {
    let raw = "  Hello   world \n\nx\n\tSecond\u{3000}line\r\nHello world!\n";
    assert_eq!(clean_lines(raw), vec!["Hello world", "Second line"]);
}

#[test]
fn clean_lines_of_empty_text_is_empty() {
    assert!(clean_lines("").is_empty());
    assert!(clean_lines("\n\n \n").is_empty());
}

#[test]
fn clean_lines_keeps_trailing_carriage_return_of_last_line_as_whitespace() {
    assert_eq!(clean_lines("abc\r"), vec!["abc"]);
}

#[test]
fn levenshtein_exact_values() {
    assert_eq!(levenshtein("kitten", "sitting"), 3);
    assert_eq!(levenshtein("", "abc"), 3);
    assert_eq!(levenshtein("abc", ""), 3);
    assert_eq!(levenshtein("日本語", "日本人"), 1);
    assert_eq!(levenshtein("same", "same"), 0);
    assert_eq!(levenshtein("flaw", "lawn"), 2);
}

#[test]
fn levenshtein_is_symmetric_on_examples() {
    for (a, b) in [("kitten", "sitting"), ("abc", "yabd"), ("", "x"), ("会議", "会談中")] {
        assert_eq!(levenshtein(a, b), levenshtein(b, a));
    }
}

#[test]
fn normalize_drops_spaces_and_ascii_punctuation() {
    assert_eq!(normalize_for_compare("Hello, World!"), "helloworld");
    assert_eq!(normalize_for_compare(" 会議 (2) "), "会議2");
    assert_eq!(normalize_for_compare("ÀB-C"), "àbc");
}

#[test]
fn short_lines_must_match_exactly() {
    assert!(!lines_are_similar("abc", "abd"));
    assert!(lines_are_similar("a.b", "AB"));
}

#[test]
fn similarity_threshold_is_one_tenth() {
    // ten characters, one edit: 0.9 similar
    assert!(lines_are_similar("abcdefghij", "abcdefghiX"));
    // nine characters, one edit: below 0.9
    assert!(!lines_are_similar("abcdefghi", "abcdefghX"));
    assert!(lines_are_similar("abc", "abc"));
}

#[test]
fn old_history_segments_default_to_speech() {
    let value: serde_json::Value = serde_json::from_str(
        r#"{"start_ms":0,"end_ms":1000,"text":"過去の文字起こし"}"#,
    )
    .unwrap();
    let source = match value.get("source").and_then(|s| s.as_str()) {
        Some(s) => s.to_string(),
        None => koemoji::transcript::default_segment_source(),
    };
    assert_eq!(source, "speech");
}
