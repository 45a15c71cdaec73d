use tokenismo_core::vocab::NONE_ID;
use tokenismo_core::VocabTrie;

fn lp(x: f32) -> u32 {
    x.to_bits()
}

#[test]
fn insert_and_lookup() {
    let mut trie = VocabTrie::new();
    let id = trie.insert(b"hello", lp(-1.0));
    assert_eq!(trie.get(b"hello"), Some(id));
    assert_eq!(trie.get(b"hell"), None);
    assert_eq!(trie.get(b"hello world"), None);
}

#[test]
fn overlapping_prefixes() {
    let mut trie = VocabTrie::new();
    let id_h = trie.insert(b"he", lp(-1.0));
    let id_hel = trie.insert(b"hello", lp(-2.0));
    assert_eq!(trie.get(b"he"), Some(id_h));
    assert_eq!(trie.get(b"hello"), Some(id_hel));
}

#[test]
fn insert_and_lookup_after_finalize() {
    let mut trie = VocabTrie::new();
    let id = trie.insert(b"hello", lp(-1.0));
    trie.finalize();
    assert_eq!(trie.get(b"hello"), Some(id));
    assert_eq!(trie.get(b"hell"), None);
}

#[test]
fn double_finalize_is_idempotent() {
    let mut trie = VocabTrie::new();
    trie.insert(b"x", lp(-1.0));
    trie.finalize();
    trie.finalize();
    assert!(trie.get(b"x").is_some());
}

#[test]
fn darts_matches_csr() {
    let mut trie = VocabTrie::new();
    trie.insert(b"hello", lp(-1.0));
    trie.insert(b"hell", lp(-0.5));
    trie.insert(b"he", lp(-0.3));
    trie.insert(b"world", lp(-1.2));
    trie.insert(b" ", lp(-0.1));
    trie.finalize();

    let mut node = 0u32;
    for &b in b"hello" {
        let next = trie.darts_next(node, b);
        assert_ne!(next, u32::MAX, "darts_next failed at byte {b}");
        node = next;
    }
    let (tid, _) = trie.darts_token_lp(node).expect("hello should be terminal");
    assert_eq!(Some(tid), trie.get(b"hello"));

    assert_eq!(trie.darts_next(0, b'z'), u32::MAX);
    assert_eq!(trie.darts_next(0, b'a'), u32::MAX);
}

#[test]
fn darts_complete_vocab() {
    let tokens: &[(&[u8], f32)] = &[
        (b"the", -1.0),
        (b"th", -1.5),
        (b"t", -2.0),
        (b"he", -1.8),
        (b"h", -2.5),
        (b"e", -2.8),
        (b" the", -0.8),
        (b" ", -0.5),
    ];
    let mut trie = VocabTrie::new();
    for (tok, x) in tokens {
        trie.insert(tok, lp(*x));
    }
    trie.finalize();

    for (tok, _) in tokens {
        let csr_id = trie.get(tok).expect("CSR must find token");

        let mut node = 0u32;
        let mut ok = true;
        for &b in *tok {
            let next = trie.darts_next(node, b);
            if next == u32::MAX {
                ok = false;
                break;
            }
            node = next;
        }
        assert!(ok, "DARTS could not traverse {:?}", tok);
        let (darts_id, darts_lp) = trie.darts_token_lp(node).expect("DARTS must find terminal");
        assert_eq!(darts_id, csr_id);
        let expected_lp = f32::from_bits(trie.log_probs()[csr_id as usize]);
        assert!((f32::from_bits(darts_lp) - expected_lp).abs() < 1e-6);
    }
}

#[test]
fn reinserted_token_gets_new_id() {
    let mut trie = VocabTrie::new();
    let first = trie.insert(b"ab", lp(-1.0));
    let second = trie.insert(b"ab", lp(-2.0));
    assert_eq!(first, 0);
    assert_eq!(second, 1);
    assert_eq!(trie.get(b"ab"), Some(1));
    assert_eq!(trie.vocab_size(), 2);
    assert_eq!(trie.token_bytes()[0], b"ab".to_vec());
    trie.finalize();
    assert_eq!(trie.get(b"ab"), Some(1));
}

#[test]
fn darts_rejects_absent_children_of_root() {
    // Free slots must never pass the parent check of the root.
    let mut trie = VocabTrie::new();
    trie.insert(b"a", lp(-1.0));
    trie.insert(b"b", lp(-1.0));
    trie.finalize();
    for b in 0u8..=255 {
        let next = trie.darts_next(0, b);
        if b == b'a' || b == b'b' {
            assert_ne!(next, NONE_ID);
        } else {
            assert_eq!(next, NONE_ID, "byte {b} must not lead anywhere");
        }
    }
}

#[test]
fn child_and_token_id_at_in_both_layouts() {
    let mut trie = VocabTrie::new();
    let id = trie.insert(b"ab", lp(-1.0));
    let a = trie.child(0, b'a');
    assert_ne!(a, 0);
    assert_eq!(trie.token_id_at(a), None);
    let ab = trie.child(a, b'b');
    assert_eq!(trie.token_id_at(ab), Some(id));
    assert_eq!(trie.child(ab, b'c'), 0);
    trie.finalize();
    let a2 = trie.child(0, b'a');
    let ab2 = trie.child(a2, b'b');
    assert_eq!(trie.token_id_at(ab2), Some(id));
    assert!(trie.finalized());
}

#[test]
fn cursor_steps_match_get() {
    let mut trie = VocabTrie::new();
    trie.insert(b"xy", lp(-1.0));
    let id = trie.insert(b"xyz", lp(-3.0));
    for finalize in [false, true] {
        if finalize {
            trie.finalize();
        }
        let c1 = trie.step(0, b'x');
        let c2 = trie.step(c1, b'y');
        let c3 = trie.step(c2, b'z');
        assert_eq!(trie.terminal(c3), Some((id, lp(-3.0))));
        assert_eq!(trie.terminal(c1), None);
        assert_eq!(trie.step(c3, b'q'), NONE_ID);
    }
}

#[test]
fn default_is_empty() {
    let trie = VocabTrie::default();
    assert_eq!(trie.vocab_size(), 0);
    assert_eq!(trie.num_nodes(), 1);
    assert!(!trie.finalized());
    assert!(trie.darts().is_empty());
}

#[test]
fn find_base_skips_taken_slots() {
    let mut trie = VocabTrie::new();
    for b in 0u8..=255 {
        trie.insert(&[b], lp(-8.0));
        trie.insert(&[b, b], lp(-9.0));
    }
    trie.finalize();
    for b in 0u8..=255 {
        assert_eq!(trie.get(&[b, b]), Some(2 * b as u32 + 1));
        let c = trie.darts_next(0, b);
        let cc = trie.darts_next(c, b);
        assert_eq!(trie.darts_token_lp(cc), Some((2 * b as u32 + 1, lp(-9.0))));
    }
}

#[test]
fn darts_slots_link_back_to_parents() {
    let mut trie = VocabTrie::new();
    trie.insert(b"ab", lp(-1.0));
    trie.insert(b"b", lp(-2.0));
    trie.finalize();
    let d = trie.darts();
    assert_eq!(d[0].check, u32::MAX);
    assert_eq!(d[0].token, u32::MAX);
    let a = trie.darts_next(0, b'a');
    let ab = trie.darts_next(a, b'b');
    let b = trie.darts_next(0, b'b');
    assert_eq!(a, d[0].base + b'a' as u32);
    assert_eq!(d[a as usize].check, 0);
    assert_eq!(d[a as usize].token, u32::MAX);
    assert_eq!(d[ab as usize].check, a);
    assert_eq!((d[ab as usize].token, d[ab as usize].lp), (0, lp(-1.0)));
    assert_eq!((d[b as usize].token, d[b as usize].lp), (1, lp(-2.0)));
}
