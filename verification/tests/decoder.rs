use tokenismo_core::decoder::DecodeError;
use tokenismo_core::encoder::LEADING_SPACE_FLAG;
use tokenismo_core::{Decoder, VocabTrie};

fn lp(x: f32) -> u32 {
    x.to_bits()
}

#[test]
fn decode_basic() {
    let mut trie = VocabTrie::new();
    let id = trie.insert(b"hello", lp(-1.0));
    let dec = Decoder::from_trie(&trie);
    assert_eq!(dec.decode(&[id]).unwrap(), "hello");
}

#[test]
fn decode_leading_space_flag() {
    let mut trie = VocabTrie::new();
    let id = trie.insert(b"world", lp(-1.0));
    let dec = Decoder::from_trie(&trie);
    let flagged = id | LEADING_SPACE_FLAG;
    assert_eq!(dec.decode(&[flagged]).unwrap(), " world");
}

#[test]
fn unknown_token_error() {
    let trie = VocabTrie::new();
    let dec = Decoder::from_trie(&trie);
    assert!(dec.decode(&[9999]).is_err());
}

#[test]
fn unknown_token_reports_first_bad_id() {
    let mut trie = VocabTrie::new();
    let a = trie.insert(b"a", lp(-1.0));
    let dec = Decoder::from_trie(&trie);
    match dec.decode(&[a, 7, 9]) {
        Err(DecodeError::UnknownToken(id)) => assert_eq!(id, 7),
        _ => panic!("expected an unknown token error"),
    }
    // the flag bit does not make an id known
    match dec.decode(&[5 | LEADING_SPACE_FLAG]) {
        Err(DecodeError::UnknownToken(id)) => assert_eq!(id, 5 | LEADING_SPACE_FLAG),
        _ => panic!("expected an unknown token error"),
    }
}

#[test]
fn invalid_utf8_error() {
    let mut trie = VocabTrie::new();
    let half = trie.insert(&[0xD0], lp(-1.0));
    let dec = Decoder::from_trie(&trie);
    assert!(matches!(dec.decode(&[half]), Err(DecodeError::Utf8(_))));
    // two halves make a whole character
    let other = {
        let mut t = VocabTrie::new();
        let a = t.insert(&[0xD0], lp(-1.0));
        let b = t.insert(&[0x9F], lp(-1.0));
        (Decoder::from_trie(&t), a, b)
    };
    assert_eq!(other.0.decode(&[other.1, other.2]).unwrap(), "П");
}

#[test]
fn decode_empty_is_empty() {
    let trie = VocabTrie::new();
    let dec = Decoder::from_trie(&trie);
    assert_eq!(dec.decode(&[]).unwrap(), "");
}
