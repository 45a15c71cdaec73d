use tokenismo_core::trainer::normalizer::{collapse_newlines, is_strip, normalize};

#[test]
fn nfc_normalization() {
    // "é" as NFD (e + combining acute) should normalize to NFC (single codepoint).
    let nfd = "e\u{0301}";
    let result = normalize(nfd);
    assert_eq!(result, "\u{00E9}");
}

#[test]
fn strips_zero_width() {
    let input = "hello\u{200B}world";
    assert_eq!(normalize(input), "helloworld");
}

#[test]
fn normalizes_crlf() {
    assert_eq!(normalize("a\r\nb"), "a\nb");
    assert_eq!(normalize("a\rb"), "a\nb");
}

#[test]
fn collapses_many_newlines() {
    assert_eq!(normalize("a\n\n\n\nb"), "a\n\nb");
    assert_eq!(normalize("a\n\nb"), "a\n\nb"); // 2 = keep
}

#[test]
fn strips_every_listed_character() {
    let input = "a\u{200C}\u{200D}\u{200E}\u{200F}\u{202A}\u{202B}\u{202C}\u{202D}\u{202E}\u{FEFF}\u{00AD}b";
    assert_eq!(normalize(input), "ab");
    assert!(is_strip('\u{FEFF}'));
    assert!(!is_strip('a'));
}

#[test]
fn lone_cr_before_crlf() {
    assert_eq!(normalize("a\r\r\nb"), "a\n\nb");
    assert_eq!(normalize("\r"), "\n");
}

#[test]
fn collapse_at_ends_and_three() {
    assert_eq!(collapse_newlines("\n\n\n"), "\n\n");
    assert_eq!(collapse_newlines("x\n\n\n"), "x\n\n");
    assert_eq!(collapse_newlines("\n\nx\n"), "\n\nx\n");
    assert_eq!(collapse_newlines(""), "");
    assert_eq!(normalize("a\r\n\r\n\r\nb"), "a\n\nb");
}

#[test]
fn normalize_keeps_plain_text() {
    assert_eq!(normalize("Привет, мир!"), "Привет, мир!");
}
