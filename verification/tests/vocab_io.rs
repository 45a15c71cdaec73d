use tokenismo_core::vocab_io::{parse_vocab, serialize_vocab};
use tokenismo_core::vocab::VocabError;
use tokenismo_core::VocabTrie;

#[test]
fn roundtrip_save_load() {
    let mut trie = VocabTrie::new();
    trie.insert(b"hello", (-1.5f32).to_bits());
    trie.insert(b"world", (-2.0f32).to_bits());
    trie.insert(b" ", (-0.5f32).to_bits());

    let bytes = serialize_vocab(&trie);
    let loaded = parse_vocab(&bytes).unwrap();

    assert_eq!(loaded.vocab_size(), trie.vocab_size());
    assert_eq!(loaded.get(b"hello"), trie.get(b"hello"));
    assert_eq!(loaded.get(b"world"), trie.get(b"world"));
    assert_eq!(loaded.get(b" "), trie.get(b" "));
}

#[test]
fn serialized_layout() {
    let mut trie = VocabTrie::new();
    trie.insert(b"ab", 0x0102_0304);
    let bytes = serialize_vocab(&trie);
    assert_eq!(bytes, vec![b'N', b'X', b'T', b'1', 1, 0, 0, 0, 2, b'a', b'b', 4, 3, 2, 1]);
    let loaded = parse_vocab(&bytes).unwrap();
    assert!(loaded.finalized());
    assert_eq!(loaded.log_probs().to_vec(), vec![0x0102_0304]);
    assert_eq!(loaded.token_bytes().to_vec(), vec![b"ab".to_vec()]);
}

#[test]
fn bad_magic_is_invalid_format() {
    match parse_vocab(b"XXXX\x00\x00\x00\x00") {
        Err(VocabError::InvalidFormat(m)) => assert_eq!(m, "bad magic bytes"),
        other => panic!("unexpected result {:?}", other.map(|t| t.vocab_size())),
    }
}

#[test]
fn truncated_data_is_io_error() {
    assert!(matches!(parse_vocab(b"NX"), Err(VocabError::Io(_))));
    assert!(matches!(parse_vocab(b"NXT1\x01\x00"), Err(VocabError::Io(_))));
    assert!(matches!(parse_vocab(b"NXT1\x01\x00\x00\x00\x03ab"), Err(VocabError::Io(_))));
    assert!(matches!(parse_vocab(b"NXT1\x02\x00\x00\x00\x01a\x00\x00\x00\x00"), Err(VocabError::Io(_))));
}

#[test]
fn empty_vocabulary_file() {
    let trie = VocabTrie::new();
    let bytes = serialize_vocab(&trie);
    assert_eq!(bytes, b"NXT1\x00\x00\x00\x00".to_vec());
    let loaded = parse_vocab(&bytes).unwrap();
    assert_eq!(loaded.vocab_size(), 0);
}
