use tokenismo_core::trainer::corpus::{
    collect_jsonl, jsonl_doc, collect_paragraphs, default_reader, default_text_field, is_whitespace,
};

fn lines(xs: &[&str]) -> Vec<String> {
    xs.iter().map(|s| s.to_string()).collect()
}

#[test]
fn defaults_are_text() {
    assert_eq!(default_reader(), "text");
    assert_eq!(default_text_field(), "text");
}

#[test]
fn paragraphs_split_on_blank_lines() {
    let docs = collect_paragraphs(&lines(&["a", "b", "", "  \t", "c", " ", "d"]));
    assert_eq!(docs, vec!["a\nb".to_string(), "c".to_string(), "d".to_string()]);
    assert!(collect_paragraphs(&lines(&["", " "])).is_empty());
    assert_eq!(collect_paragraphs(&lines(&["x"])), vec!["x".to_string()]);
}

#[test]
fn unicode_white_space_is_blank() {
    assert!(is_whitespace('\u{3000}'));
    assert!(is_whitespace('\u{85}'));
    assert!(!is_whitespace('\u{200B}'));
    let docs = collect_paragraphs(&lines(&["a", "\u{00A0}\u{2003}", "b"]));
    assert_eq!(docs, vec!["a".to_string(), "b".to_string()]);
}

#[test]
fn jsonl_reads_the_text_field() {
    let docs = collect_jsonl(
        &lines(&[
            "{\"text\": \"hello\"}",
            "   ",
            "not json",
            "{\"body\": \"skip\"}",
            "  {\"text\": \"\"}  ",
            "{\"text\": 3}",
            "\t{\"text\": \"world\", \"id\": 1}",
        ]),
        "text",
    );
    assert_eq!(docs, vec!["hello".to_string(), "world".to_string()]);
    let other = collect_jsonl(&lines(&["{\"body\": \"b\"}"]), "body");
    assert_eq!(other, vec!["b".to_string()]);
}

#[test]
fn jsonl_doc_keeps_non_empty_strings() {
    assert_eq!(jsonl_doc(Some("text".to_string())), Some("text".to_string()));
    assert_eq!(jsonl_doc(Some(String::new())), None);
    assert_eq!(jsonl_doc(None), None);
}
