use std::sync::Arc;
use tokenismo_core::chunks::spaces_lead_holds;
use tokenismo_core::encoder::{split_words, DpEntry, LEADING_SPACE_FLAG, MIN_CHUNK_BYTES};
use tokenismo_core::{Decoder, Encoder, VocabTrie};

fn lp(x: f32) -> u32 {
    x.to_bits()
}

fn make_encoder(tokens: &[(&[u8], f32)]) -> Encoder {
    let mut trie = VocabTrie::new();
    for (tok, x) in tokens {
        trie.insert(tok, lp(*x));
    }
    Encoder::new(Arc::new(trie))
}

#[test]
fn simple_encode() {
    let enc = make_encoder(&[(b"hello", -1.0), (b" ", -0.5), (b"world", -1.0)]);
    let ids = enc.encode("hello world");
    assert!(!ids.is_empty());
}

#[test]
fn prefers_fewer_tokens() {
    let enc = make_encoder(&[(b"a", -1.0), (b"b", -1.0), (b"ab", -1.5)]);
    let ids = enc.encode("ab");
    assert_eq!(ids.len(), 1);
    let ab_id = enc.trie.get(b"ab").unwrap();
    assert_eq!(ids[0], ab_id);
}

#[test]
fn encode_empty() {
    let enc = make_encoder(&[(b"a", -1.0)]);
    assert_eq!(enc.encode(""), Vec::<u32>::new());
}

#[test]
fn round_trip_leading_space() {
    let enc = make_encoder(&[(b"hello", -1.0), (b"world", -1.0), (b" ", -0.5), (b" world", -0.8)]);
    let ids = enc.encode("hello world");
    assert!(!ids.is_empty());
    for &id in &ids {
        let base_id = id & !(LEADING_SPACE_FLAG);
        assert!((base_id as usize) < enc.trie.vocab_size());
    }
}

/// Encoder over the double-array layout that `finalize` builds.
fn make_encoder_full_darts(tokens: &[(&[u8], f32)]) -> Encoder {
    let mut trie = VocabTrie::new();
    for (tok, x) in tokens {
        trie.insert(tok, lp(*x));
    }
    trie.finalize();
    Encoder { trie: Arc::new(trie) }
}

/// Encoder over the build-time layout (the trie is never finalized).
fn make_encoder_build_layout(tokens: &[(&[u8], f32)]) -> Encoder {
    let mut trie = VocabTrie::new();
    for (tok, x) in tokens {
        trie.insert(tok, lp(*x));
    }
    Encoder { trie: Arc::new(trie) }
}

#[test]
fn hybrid_matches_full_darts() {
    let mut tokens_vec: Vec<(&[u8], f32)> = vec![
        (b"a", -2.0),
        (b" ", -0.5),
        (b"the", -1.0),
        (b"hello", -1.2),
        (b"world", -1.2),
        (b"12345678", -1.5),
        (b"123456789", -1.4),
        (b"tokenized", -1.3),
        (b"representation", -1.6),
        (b"token", -1.1),
    ];
    let fallback_bytes: Vec<Vec<u8>> =
        (0u8..=127).filter(|b| !matches!(b, b'a' | b' ')).map(|b| vec![b]).collect();
    for fb in &fallback_bytes {
        tokens_vec.push((fb.as_slice(), -10.0));
    }
    let tokens = tokens_vec.as_slice();
    let texts = [
        "hello world",
        "the representation",
        "123456789",
        "tokenized",
        "a the a",
        "12345678 tokenized representation hello",
        "hello the tokenized representation of 12345678 and 123456789",
    ];
    let full = make_encoder_full_darts(tokens);
    let other = make_encoder_build_layout(tokens);
    assert!(full.trie.finalized());
    assert!(!other.trie.finalized());
    for text in &texts {
        let ids_full = full.encode(text);
        let ids_other = other.encode(text);
        assert_eq!(ids_full, ids_other, "mismatch for {:?}", text);
    }
}

#[test]
fn hybrid_long_token_only_text() {
    let tokens: &[(&[u8], f32)] = &[(b"a", -3.0), (b" ", -0.5), (b"abcdefghi", -1.0), (b"abcdefghij", -0.9)];
    let full = make_encoder_full_darts(tokens);
    let other = make_encoder_build_layout(tokens);
    let text = "abcdefghij";
    let ids_full = full.encode(text);
    let ids_other = other.encode(text);
    assert_eq!(ids_full, ids_other);
    // the single 10-byte token, not the 9-byte one and "a"
    assert_eq!(ids_full.len(), 1);
    assert_eq!(ids_full, vec![full.trie.get(b"abcdefghij").unwrap()]);
}

#[test]
fn hybrid_long_token_with_leading_space() {
    let tokens: &[(&[u8], f32)] = &[(b"a", -3.0), (b" ", -0.5), (b"hello", -1.0), (b"tokenized", -1.0)];
    let full = make_encoder_full_darts(tokens);
    let other = make_encoder_build_layout(tokens);
    let text = "hello tokenized";
    let full_ids = full.encode(text);
    let other_ids = other.encode(text);
    assert_eq!(full_ids, other_ids);
    assert!(other_ids.len() >= 2);
    let second = other_ids[1];
    assert!(second & LEADING_SPACE_FLAG != 0, "expected LEADING_SPACE_FLAG, got id={second}");
    assert_eq!(second, full.trie.get(b"tokenized").unwrap() | LEADING_SPACE_FLAG);
}

#[test]
fn equal_counts_prefer_higher_probability() {
    // "abc" = "ab"+"c" (cost 1+1) or "a"+"bc" (cost 1+5): same count, lower cost wins
    let enc = make_encoder(&[(b"a", -1.0), (b"ab", -1.0), (b"c", -1.0), (b"bc", -5.0)]);
    let ids = enc.encode("abc");
    assert_eq!(ids, vec![enc.trie.get(b"ab").unwrap(), enc.trie.get(b"c").unwrap()]);
}

#[test]
fn exact_ties_keep_the_earliest_split() {
    // "abc" = "a"+"bc" or "ab"+"c" with equal costs: the offer from position 1 comes first
    let enc = make_encoder(&[(b"a", -1.0), (b"ab", -1.0), (b"c", -1.0), (b"bc", -1.0)]);
    let ids = enc.encode("abc");
    assert_eq!(ids, vec![enc.trie.get(b"a").unwrap(), enc.trie.get(b"bc").unwrap()]);
}

#[test]
fn space_token_used_when_no_flagged_piece_fits() {
    // " x" can only be the space token followed by "x"
    let enc = make_encoder(&[(b" ", -0.5), (b"x", -1.0), (b"y", -1.0)]);
    let ids = enc.encode("y x");
    let sp = enc.trie.get(b" ").unwrap();
    let x = enc.trie.get(b"x").unwrap();
    let y = enc.trie.get(b"y").unwrap();
    // the flagged piece "x" beats " " then "x" (fewer pieces)
    assert_eq!(ids, vec![y, x | LEADING_SPACE_FLAG]);
    // a trailing space stands alone
    assert_eq!(enc.encode("y "), vec![y, sp]);
}

#[test]
fn unreachable_text_is_reported() {
    // "a" starts the token "ab", so it is no <unk>, and nothing covers it
    let enc = make_encoder(&[(b"ab", -1.0)]);
    assert_eq!(enc.try_encode("a"), None);
    assert_eq!(enc.try_encode("abab"), Some(vec![0, 0]));
    let mut dp = Vec::new();
    let mut out = vec![7u32];
    // the <unk> for "z" is taken back when "a" then fails
    assert!(!enc.encode_bytes_into(b"za", &mut dp, &mut out));
    assert_eq!(out, vec![7]);
    assert!(enc.encode_bytes_into(b"zab", &mut dp, &mut out));
    assert_eq!(out, vec![7, 0, 0]);
}

#[test]
fn encode_into_appends() {
    let enc = make_encoder(&[(b"a", -1.0), (b"b", -1.0)]);
    let mut dp: Vec<DpEntry> = Vec::new();
    let mut out = vec![42u32];
    enc.encode_into("ab", &mut dp, &mut out);
    assert_eq!(out, vec![42, 0, 1]);
    enc.encode_into("", &mut dp, &mut out);
    assert_eq!(out, vec![42, 0, 1]);
}

#[test]
fn shared_unfinalized_trie_is_finalized_in_a_copy() {
    let mut trie = VocabTrie::new();
    trie.insert(b"a", lp(-1.0));
    trie.insert(b"ab", lp(-1.0));
    let shared = Arc::new(trie);
    let enc = Encoder::new(Arc::clone(&shared));
    assert!(enc.trie.finalized());
    assert!(!shared.finalized());
    assert!(!enc.trie.darts().is_empty());
    assert_eq!(enc.encode("aba"), vec![1, 0]);
    let unique = Encoder::new(Arc::new({
        let mut t = VocabTrie::new();
        t.insert(b"a", lp(-1.0));
        t.insert(b"ab", lp(-1.0));
        t
    }));
    assert!(unique.trie.finalized());
    assert_eq!(unique.encode("aba"), vec![1, 0]);
}

#[test]
fn long_text_chunks_give_same_ids() {
    let mut trie = VocabTrie::new();
    for b in 0u8..=127 {
        trie.insert(&[b], lp(-8.0));
    }
    trie.insert(b"word", lp(-1.0));
    trie.finalize();
    let trie = Arc::new(trie);
    let enc = Encoder::new(Arc::clone(&trie));
    let dec = Decoder::from_trie(&trie);
    let text = "word ".repeat(400);
    let chunked = enc.encode(&text);
    let mut dp = Vec::new();
    let mut whole = Vec::new();
    enc.encode_into(&text, &mut dp, &mut whole);
    assert_eq!(chunked, whole);
    assert_eq!(dec.decode(&chunked).unwrap(), text);
}

#[test]
fn copy_unfinalized_keeps_tokens() {
    let mut trie = VocabTrie::new();
    trie.insert(b"ab", lp(-1.0));
    trie.insert(b"b", lp(-2.0));
    let copy = trie.copy_unfinalized();
    assert!(!copy.finalized());
    assert_eq!(copy.token_bytes(), trie.token_bytes());
    assert_eq!(copy.log_probs(), trie.log_probs());
    assert_eq!(copy.num_nodes(), trie.num_nodes());
    assert_eq!(copy.get(b"b"), Some(1));
}

#[test]
fn dp_entry_unreachable() {
    let d = DpEntry::unreachable();
    assert_eq!(d.count, u32::MAX);
    assert_eq!(d.neg_log_prob, 0);
    assert_eq!(d.prev_pos, 0);
    assert_eq!(d.token_id, u32::MAX);
}

#[test]
fn chunked_text_round_trips_with_space_inside_tokens() {
    // "d e" has a space after a non-space byte, so a chunk edge can cut
    // where the whole text uses it; `encode` encodes the whole text.
    let mut trie = VocabTrie::new();
    for b in 0u8..=127 {
        trie.insert(&[b], lp(-8.0));
    }
    trie.insert(b"d e", lp(-1.0));
    trie.finalize();
    assert!(!spaces_lead_holds(&trie));
    let trie = Arc::new(trie);
    let enc = Encoder::new(Arc::clone(&trie));
    let dec = Decoder::from_trie(&trie);
    let text = "d e ".repeat(300);
    let ids = enc.encode(&text);
    let mut dp = Vec::new();
    let mut whole = Vec::new();
    enc.encode_into(&text, &mut dp, &mut whole);
    assert_eq!(ids, whole);
    assert_eq!(dec.decode(&ids).unwrap(), text);
    let mut chunked = Vec::new();
    for chunk in split_words(text.as_bytes(), MIN_CHUNK_BYTES) {
        assert!(enc.encode_bytes_into(chunk, &mut dp, &mut chunked));
    }
    assert_eq!(dec.decode(&chunked).unwrap(), text);
    // one pass uses a flagged "d e" across the first chunk edge (byte 257)
    assert!(chunked.len() > whole.len());
}

#[test]
fn chunks_match_whole_when_spaces_lead() {
    let mut trie = VocabTrie::new();
    for b in 0u8..=127 {
        trie.insert(&[b], lp(-8.0));
    }
    trie.insert(b" word", lp(-1.0));
    trie.finalize();
    assert!(spaces_lead_holds(&trie));
    let enc = Encoder::new(Arc::new(trie));
    let text = "a word ".repeat(300);
    let mut dp = Vec::new();
    let mut chunked = Vec::new();
    for chunk in split_words(text.as_bytes(), MIN_CHUNK_BYTES) {
        assert!(enc.encode_bytes_into(chunk, &mut dp, &mut chunked));
    }
    assert_eq!(chunked, enc.encode(&text));
}

#[test]
fn out_of_vocabulary_characters_become_unk() {
    let mut t = VocabTrie::new();
    t.insert(b"<unk>", lp(0.0));
    t.insert(b"a", lp(-1.0));
    t.insert(b" ", lp(-1.0));
    let enc = Encoder::new(Arc::new(t));
    let (mut dp, mut out) = (Vec::new(), Vec::<u32>::new());
    enc.encode_into("aza", &mut dp, &mut out);
    assert_eq!(out, vec![1, 0, 1]);
    // a multi-byte character is one <unk>; text after the gap goes on
    assert_eq!(enc.encode("aéa"), vec![1, 0, 1]);
    assert_eq!(enc.encode("zz a"), vec![0, 0, 1 | LEADING_SPACE_FLAG]);
    assert_eq!(enc.encode("a z"), vec![1, 2, 0]);
    // decoding gives the text with <unk> in place of each such character
    let dec = Decoder::from_trie(&enc.trie);
    assert_eq!(dec.decode(&enc.encode("aza")).unwrap(), "a<unk>a");
    assert_eq!(dec.decode(&enc.encode("aéa z")).unwrap(), "a<unk>a <unk>");
}

#[test]
fn unk_is_id_zero_without_an_unk_token() {
    let mut t = VocabTrie::new();
    t.insert(b"a", lp(-1.0));
    t.insert(b"b", lp(-1.0));
    let enc = Encoder::new(Arc::new(t));
    assert_eq!(enc.encode("bqa"), vec![1, 0, 0]);
}

#[test]
fn plain_token_starting_with_space_is_a_candidate() {
    let mut t = VocabTrie::new();
    t.insert(b" ", lp(-0.5));
    t.insert(b"a", lp(-1.0));
    t.insert(b"b", lp(-1.0));
    t.insert(b" ab", lp(-1.0));
    let enc = Encoder::new(Arc::new(t));
    let (mut dp, mut out) = (Vec::new(), Vec::<u32>::new());
    enc.encode_into(" ab", &mut dp, &mut out);
    assert_eq!(out, vec![3]);
}

#[test]
fn flagged_token_wins_only_when_more_probable() {
    // " ab" (plain) against "ab" flagged: the higher log-probability wins,
    // the plain token on a tie
    let mk = |plain: f32, flagged: f32| {
        let mut t = VocabTrie::new();
        t.insert(b" ab", lp(plain));
        t.insert(b"ab", lp(flagged));
        Encoder::new(Arc::new(t))
    };
    assert_eq!(mk(-2.0, -1.0).encode(" ab"), vec![1 | LEADING_SPACE_FLAG]);
    assert_eq!(mk(-1.0, -2.0).encode(" ab"), vec![0]);
    assert_eq!(mk(-1.0, -1.0).encode(" ab"), vec![0]);
}

#[test]
fn space_runs_are_pieces_of_their_own() {
    let mut t = VocabTrie::new();
    for b in 0u8..=127 {
        t.insert(&[b], lp(-1.0));
    }
    let enc = Encoder::new(Arc::new(t));
    let sp = b' ' as u32;
    // the run "  " is encoded alone: the flagged space; "b" gets no flag
    assert_eq!(enc.encode("a  b"), vec![b'a' as u32, sp | LEADING_SPACE_FLAG, b'b' as u32]);
    // a single space still leads the next piece
    assert_eq!(enc.encode("a b"), vec![b'a' as u32, b'b' as u32 | LEADING_SPACE_FLAG]);
    // a run of three: two pieces; on the tie the earlier split wins
    assert_eq!(enc.encode("a   b"), vec![b'a' as u32, sp, sp | LEADING_SPACE_FLAG, b'b' as u32]);
}

#[test]
fn empty_text_leaves_buffers_alone() {
    let enc = make_encoder(&[(b"a", -1.0)]);
    let mut dp = vec![DpEntry::unreachable(); 3];
    let mut out = vec![5u32];
    enc.encode_into("", &mut dp, &mut out);
    assert_eq!(out, vec![5]);
    assert_eq!(dp.len(), 3);
    assert!(dp.iter().all(|d| d.count == u32::MAX));
}
