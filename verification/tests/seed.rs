use tokenismo_core::trainer::counts::SubstringCounts;
use tokenismo_core::trainer::seed::is_single_unicode;
use tokenismo_core::trainer::seed::{
    add_guaranteed_tokens, count_batch, count_text_substrings, merge_into, seed_candidates,
    split_line_into_units,
};

#[test]
fn counts_substrings() {
    let texts = vec!["ab ab".to_string()];
    let counts = seed_candidates(&texts, 4, 1);
    assert_eq!(counts.get(b"ab"), 2);
    assert_eq!(counts.get(b"a"), 2);
}

#[test]
fn guaranteed_ascii_present() {
    let mut counts = SubstringCounts::new();
    add_guaranteed_tokens(&mut counts);
    for b in 0u8..=127 {
        assert!(counts.get(&[b]) > 0, "missing ASCII byte {b}");
    }
}

#[test]
fn respects_utf8_boundaries() {
    // "привет" is 12 bytes (2 bytes per Cyrillic char in UTF-8)
    let texts = vec!["привет".to_string()];
    let counts = seed_candidates(&texts, 32, 1);
    // The full word should be a candidate.
    let full = "привет".as_bytes().to_vec();
    assert!(counts.get(&full) > 0);
    // A mid-character slice like bytes 1..3 should NOT be a candidate
    // (starts at continuation byte 0xBF).
    let bad = "привет".as_bytes()[1..3].to_vec();
    assert!(counts.get(&bad) == 0, "continuation-byte slice should not be a candidate");
}

#[test]
fn units_keep_single_spaces_with_words() {
    let units: Vec<Vec<u8>> = split_line_into_units(b"ab cd  ef   ").iter().map(|u| u.to_vec()).collect();
    assert_eq!(units, vec![b"ab".to_vec(), b" cd".to_vec(), b"  ".to_vec(), b"ef".to_vec(), b"   ".to_vec()]);
    assert!(split_line_into_units(b"").is_empty());
}

#[test]
fn substring_lengths_are_capped() {
    let mut counts = SubstringCounts::new();
    let mut buf = Vec::new();
    count_text_substrings(b"abcd\r\nab", 2, &mut counts, &mut buf);
    assert_eq!(counts.get(b"ab"), 2);
    assert_eq!(counts.get(b"bc"), 1);
    assert_eq!(counts.get(b"abc"), 0);
    assert_eq!(counts.get(b"d\r"), 0);
    assert_eq!(counts.get(b"\r"), 0);
    assert_eq!(counts.get(b"b"), 2);
}

#[test]
fn multi_space_runs_are_counted() {
    let mut counts = SubstringCounts::new();
    let mut buf = Vec::new();
    count_text_substrings(b"x    y", 8, &mut counts, &mut buf);
    assert_eq!(counts.get(b"    "), 1);
    assert_eq!(counts.get(b"  "), 3);
    assert_eq!(counts.get(b"x"), 1);
    assert_eq!(counts.get(b" y"), 0);
}

#[test]
fn batches_prune_before_merging() {
    let mut texts = Vec::new();
    for _ in 0..2000 {
        texts.push("q".to_string());
    }
    texts.push("zz".to_string());
    // "zz" occurs once in the second batch: pruned there at min_freq 2
    let counts = seed_candidates(&texts, 4, 2);
    assert_eq!(counts.get(b"q"), 2000);
    assert_eq!(counts.get(b"zz"), 0);
    // single characters always stay
    assert_eq!(counts.get(b"z"), 2);
    let batch = count_batch(&texts[2000..], 4, 2);
    assert_eq!(batch.get(b"zz"), 0);
    assert_eq!(batch.get(b"z"), 2);
}

#[test]
fn merge_adds_counts() {
    let mut a = SubstringCounts::new();
    a.add_one(b"x");
    a.add_count(b"y", 5);
    let mut b = SubstringCounts::new();
    b.add_count(b"x", 2);
    merge_into(&mut b, &a);
    assert_eq!(b.get(b"x"), 3);
    assert_eq!(b.get(b"y"), 5);
    let mut entries = b.entries();
    entries.sort();
    assert_eq!(entries, vec![(b"x".to_vec(), 3), (b"y".to_vec(), 5)]);
}

#[test]
fn guaranteed_ranges_and_insert_if_absent() {
    let mut counts = SubstringCounts::new();
    counts.add_count("П".as_bytes(), 7);
    add_guaranteed_tokens(&mut counts);
    assert_eq!(counts.get("П".as_bytes()), 7);
    assert_eq!(counts.get("ж".as_bytes()), 1);
    assert_eq!(counts.get("一".as_bytes()), 1);
    assert_eq!(counts.get("λ".as_bytes()), 1);
    assert_eq!(counts.get("丰".as_bytes()), 1);
    assert_eq!(counts.get("好".as_bytes()), 0);
    assert!(is_single_unicode("中".as_bytes()));
    assert!(!is_single_unicode(b"ab"));
    assert!(!is_single_unicode(&[0xD0]));
}

#[test]
fn prune_keeps_single_characters() {
    let mut counts = SubstringCounts::new();
    counts.add_one(b"ab");
    counts.add_one("ж".as_bytes());
    counts.add_count(b"cd", 3);
    counts.prune(2);
    assert_eq!(counts.get(b"ab"), 0);
    assert_eq!(counts.get("ж".as_bytes()), 1);
    assert_eq!(counts.get(b"cd"), 3);
}
