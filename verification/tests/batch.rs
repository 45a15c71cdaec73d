use std::sync::Arc;
use tokenismo_core::{encode_batch, Encoder, VocabTrie};

#[test]
fn batch_matches_sequential() {
    let mut trie = VocabTrie::new();
    trie.insert(b"hello", (-1.0f32).to_bits());
    trie.insert(b"world", (-1.0f32).to_bits());
    trie.insert(b" ", (-0.5f32).to_bits());
    let enc = Encoder::new(Arc::new(trie));

    let texts = vec!["hello", "world", "hello world"];
    let batch = encode_batch(&enc, &texts);
    for (text, ids) in texts.iter().zip(batch.iter()) {
        let seq = enc.encode(text);
        assert_eq!(ids, &seq, "mismatch for {:?}", text);
    }
}

#[test]
fn batch_of_nothing_is_empty() {
    let enc = Encoder::new(Arc::new(VocabTrie::new()));
    let texts: Vec<&str> = Vec::new();
    assert!(encode_batch(&enc, &texts).is_empty());
    assert_eq!(encode_batch(&enc, &[""]), vec![Vec::<u32>::new()]);
}
