//! The binary vocabulary format:
//! `[magic "NXT1"][vocab_size: u32 LE]` followed, for each token in id order,
//! by `[token_len: u8][token bytes][log-probability: f32 LE]`.
use vstd::prelude::*;
use crate::vocab::{VocabError, VocabTrie, MAX_NODES, NONE_ID};

verus! {

/// The four magic bytes `NXT1`.
pub open spec fn magic() -> Seq<u8> {
    seq![0x4eu8, 0x58u8, 0x54u8, 0x31u8]
}

/// The little-endian bytes of `x`.
pub open spec fn le_bytes(x: u32) -> Seq<u8> {
    seq![(x % 256) as u8, ((x / 256) % 256) as u8, ((x / 0x1_0000) % 256) as u8, (x / 0x100_0000) as u8]
}

/// The `u32` stored little-endian at `d[i..i+4]`.
pub open spec fn le_u32(d: Seq<u8>, i: int) -> u32 {
    (d[i] + d[i + 1] * 256 + d[i + 2] * 0x1_0000 + d[i + 3] * 0x100_0000) as u32
}

/// One record: the token's length (modulo 256, as one byte), its bytes and
/// its log-probability bits.
pub open spec fn entry_bytes(t: Seq<u8>, lp: u32) -> Seq<u8> {
    seq![(t.len() % 256) as u8] + t + le_bytes(lp)
}

/// The records of `ts` with log-probabilities `lps`, in order.
pub open spec fn entries_bytes(ts: Seq<Seq<u8>>, lps: Seq<u32>) -> Seq<u8>
    decreases ts.len(),
{
    if ts.len() == 0 {
        Seq::<u8>::empty()
    } else {
        entry_bytes(ts[0], lps[0]) + entries_bytes(ts.drop_first(), lps.drop_first())
    }
}

/// The file that `serialize_vocab` writes for tokens `ts` and
/// log-probabilities `lps`.
pub open spec fn vocab_file(ts: Seq<Seq<u8>>, lps: Seq<u32>) -> Seq<u8> {
    magic() + le_bytes(ts.len() as u32) + entries_bytes(ts, lps)
}

/// The `count` records that start at `d[pos]`, or `None` when the data ends
/// first.
pub open spec fn parse_entries(d: Seq<u8>, pos: int, count: nat) -> Option<Seq<(Seq<u8>, u32)>>
    decreases count,
{
    if count == 0 {
        Some(seq![])
    } else if pos < 0 || pos + 1 > d.len() {
        None
    } else {
        let len = d[pos] as int;
        if pos + 1 + len + 4 > d.len() {
            None
        } else {
            match parse_entries(d, pos + 1 + len + 4, (count - 1) as nat) {
                Some(rest) => Some(
                    seq![(d.subrange(pos + 1, pos + 1 + len), le_u32(d, pos + 1 + len))] + rest,
                ),
                None => None,
            }
        }
    }
}

/// The records of a vocabulary file `d`, when its header is whole and
/// all records are there.
pub open spec fn file_entries(d: Seq<u8>) -> Option<Seq<(Seq<u8>, u32)>> {
    if d.len() < 8 {
        None
    } else {
        parse_entries(d, 8, le_u32(d, 4) as nat)
    }
}

/// The data starts with the magic bytes.
pub open spec fn has_magic(d: Seq<u8>) -> bool {
    d.len() >= 4 && d.subrange(0, 4) == magic()
}

/// Total length of the byte strings `ts`.
pub open spec fn total_len(ts: Seq<Seq<u8>>) -> int
    decreases ts.len(),
{
    if ts.len() == 0 {
        0
    } else {
        total_len(ts.drop_last()) + ts.last().len()
    }
}

/// `std::io::Error::from(ErrorKind::UnexpectedEof)`: the error that reading
/// past the end of a file gives.
#[verifier::external_body]
fn unexpected_eof() -> std::io::Error {
    std::io::Error::from(std::io::ErrorKind::UnexpectedEof)
}

/// The little-endian bytes of `x`.
fn push_le_u32(out: &mut Vec<u8>, x: u32)
    ensures
        final(out)@ == old(out)@ + le_bytes(x),
{
    out.push((x % 256) as u8);
    out.push(((x / 256) % 256) as u8);
    out.push(((x / 0x1_0000) % 256) as u8);
    out.push((x / 0x100_0000) as u8);
    proof {
        assert(final(out)@ =~= old(out)@ + le_bytes(x));
    }
}

/// Reads the `u32` stored little-endian at `d[i..i+4]`.
fn read_le_u32(d: &[u8], i: usize) -> (r: u32)
    requires
        i + 4 <= d@.len(),
    ensures
        r == le_u32(d@, i as int),
{
    d[i] as u32 + d[i + 1] as u32 * 256 + d[i + 2] as u32 * 0x1_0000 + d[i + 3] as u32 * 0x100_0000
}

/// The vocabulary file of `trie`.  A token longer than 255 bytes has its
/// length byte taken modulo 256.
pub fn serialize_vocab(trie: &VocabTrie) -> (r: Vec<u8>)
    requires
        trie.wf(),
    ensures
        r@ == vocab_file(trie.tokens(), trie.lps()),
{
    let tb = trie.token_bytes();
    let lps = trie.log_probs();
    let n = trie.vocab_size();
    proof {
        trie.lemma_tokens_len();
    }
    let ghost ts = trie.tokens();
    let mut out: Vec<u8> = Vec::new();
    out.push(0x4e);
    out.push(0x58);
    out.push(0x54);
    out.push(0x31);
    push_le_u32(&mut out, n as u32);
    let mut k: usize = 0;
    proof {
        assert(ts.subrange(0, n as int) =~= ts);
        assert(lps@.subrange(0, n as int) =~= lps@);
        assert(out@ =~= magic() + le_bytes(ts.len() as u32));
    }
    while k < n
        invariant
            n == ts.len(),
            lps@.len() == n,
            tb@.map_values(|v: Vec<u8>| v@) == ts,
            0 <= k <= n,
            vocab_file(ts, lps@) == out@ + entries_bytes(
                ts.subrange(k as int, n as int),
                lps@.subrange(k as int, n as int),
            ),
        decreases n - k,
    {
        let tok = &tb[k];
        let ghost rest_t = ts.subrange(k as int, n as int);
        let ghost rest_l = lps@.subrange(k as int, n as int);
        let ghost before = out@;
        proof {
            assert(ts[k as int] == tok@);
            assert(rest_t[0] == tok@);
            assert(rest_t.drop_first() =~= ts.subrange(k + 1, n as int));
            assert(rest_l.drop_first() =~= lps@.subrange(k + 1, n as int));
        }
        out.push((tok.len() % 256) as u8);
        let mut j: usize = 0;
        while j < tok.len()
            invariant
                0 <= j <= tok@.len(),
                out@ == before.push((tok@.len() % 256) as u8) + tok@.subrange(0, j as int),
            decreases tok@.len() - j,
        {
            proof {
                assert(tok@.subrange(0, j + 1) =~= tok@.subrange(0, j as int).push(tok@[j as int]));
            }
            out.push(tok[j]);
            j = j + 1;
        }
        push_le_u32(&mut out, lps[k]);
        proof {
            assert(tok@.subrange(0, j as int) =~= tok@);
            assert(out@ =~= before + entry_bytes(tok@, lps@[k as int]));
            assert(out@ + entries_bytes(rest_t.drop_first(), rest_l.drop_first()) =~= before
                + entries_bytes(rest_t, rest_l));
        }
        k = k + 1;
    }
    proof {
        assert(ts.subrange(k as int, n as int) =~= Seq::<Seq<u8>>::empty());
        assert(out@ + Seq::<u8>::empty() =~= out@);
    }
    out
}


/// The tokens of records `es`.
pub open spec fn entry_tokens(es: Seq<(Seq<u8>, u32)>) -> Seq<Seq<u8>> {
    es.map_values(|e: (Seq<u8>, u32)| e.0)
}

/// The log-probability bits of records `es`.
pub open spec fn entry_lps(es: Seq<(Seq<u8>, u32)>) -> Seq<u32> {
    es.map_values(|e: (Seq<u8>, u32)| e.1)
}

/// Records `es` fit this library's limits: fewer than `u32::MAX` tokens,
/// and room in the trie for every byte of every token.
pub open spec fn fits(es: Seq<(Seq<u8>, u32)>) -> bool {
    es.len() < NONE_ID && total_len(entry_tokens(es)) + 1 <= MAX_NODES
}

/// Adding strings never shrinks the total length.
proof fn lemma_total_len_prefix(ts: Seq<Seq<u8>>, k: int)
    requires
        0 <= k <= ts.len(),
    ensures
        0 <= total_len(ts.subrange(0, k)) <= total_len(ts),
    decreases ts.len() - k,
{
    if k < ts.len() {
        lemma_total_len_prefix(ts, k + 1);
        assert(ts.subrange(0, k + 1).drop_last() =~= ts.subrange(0, k));
    } else {
        assert(ts.subrange(0, k) =~= ts);
    }
    lemma_total_len_nonneg(ts.subrange(0, k));
}

proof fn lemma_total_len_nonneg(ts: Seq<Seq<u8>>)
    ensures
        total_len(ts) >= 0,
    decreases ts.len(),
{
    if ts.len() > 0 {
        lemma_total_len_nonneg(ts.drop_last());
    }
}

/// Reads a vocabulary file and builds its finalized trie, inserting the
/// tokens in file order (a token stored twice keeps its last id).
pub fn parse_vocab(data: &[u8]) -> (r: Result<VocabTrie, VocabError>)
    ensures
        data@.len() < 4 ==> r matches Err(VocabError::Io(_)),
        data@.len() >= 4 && !has_magic(data@) ==> (r matches Err(VocabError::InvalidFormat(m)) && m@
            == "bad magic bytes"@),
        has_magic(data@) && file_entries(data@) is None ==> r matches Err(VocabError::Io(_)),
        has_magic(data@) && (file_entries(data@) matches Some(es) && fits(es)) ==> r is Ok,
        r matches Ok(t) ==> t.wf() && t.is_finalized() && t.prefix_paths() && t.darts_len() >= 1
            && t.darts_path(0) == Some(Seq::<u8>::empty()) && t.darts_entries()[0].check == NONE_ID
            && has_magic(data@) && (file_entries(
            data@,
        ) matches Some(es) && t.tokens() == entry_tokens(es) && t.lps() == entry_lps(es)),
        r matches Err(VocabError::InvalidFormat(m)) ==> (data@.len() >= 4 && !has_magic(data@)) || (
        file_entries(data@) matches Some(es) && !fits(es) && m@ == "vocabulary too large"@),
        r matches Err(VocabError::Io(_)) ==> data@.len() < 4 || (has_magic(data@) && file_entries(data@) is None),
{
    let ghost d = data@;
    let n = data.len();
    if n < 4 {
        return Err(VocabError::Io(unexpected_eof()));
    }
    if !(data[0] == 0x4e && data[1] == 0x58 && data[2] == 0x54 && data[3] == 0x31) {
        proof {
            if d.subrange(0, 4) == magic() {
                assert(d[0] == d.subrange(0, 4)[0]);
                assert(d[1] == d.subrange(0, 4)[1]);
                assert(d[2] == d.subrange(0, 4)[2]);
                assert(d[3] == d.subrange(0, 4)[3]);
            }
        }
        return Err(VocabError::InvalidFormat("bad magic bytes".to_owned()));
    }
    proof {
        assert(d.subrange(0, 4) =~= magic());
    }
    if n < 8 {
        return Err(VocabError::Io(unexpected_eof()));
    }
    let count = read_le_u32(data, 4);
    let mut entries: Vec<(Vec<u8>, u32)> = Vec::new();
    let mut pos: usize = 8;
    let mut k: u32 = 0;
    proof {
        assert(entries@.map_values(|e: (Vec<u8>, u32)| (e.0@, e.1)) + Seq::<(Seq<u8>, u32)>::empty()
            =~= Seq::<(Seq<u8>, u32)>::empty());
    }
    while k < count
        invariant
            d == data@,
            n == d.len(),
            8 <= n,
            has_magic(d),
            count == le_u32(d, 4),
            0 <= k <= count,
            8 <= pos <= n,
            entries@.len() == k,
            parse_entries(d, 8, count as nat) == (match parse_entries(d, pos as int, (count - k) as nat) {
                Some(rest) => Some(entries@.map_values(|e: (Vec<u8>, u32)| (e.0@, e.1)) + rest),
                None => None,
            }),
        decreases count - k,
    {
        let ghost ev = entries@.map_values(|e: (Vec<u8>, u32)| (e.0@, e.1));
        if pos >= n {
            return Err(VocabError::Io(unexpected_eof()));
        }
        let len = data[pos] as usize;
        if len + 4 > n - pos - 1 {
            return Err(VocabError::Io(unexpected_eof()));
        }
        let tok = vstd::slice::slice_to_vec(&data[pos + 1..pos + 1 + len]);
        let lp = read_le_u32(data, pos + 1 + len);
        let ghost item = (d.subrange(pos + 1, pos + 1 + len), lp);
        entries.push((tok, lp));
        proof {
            let ev2 = entries@.map_values(|e: (Vec<u8>, u32)| (e.0@, e.1));
            assert(ev2 =~= ev.push(item));
            match parse_entries(d, pos + 1 + len + 4, (count - k - 1) as nat) {
                Some(rest) => {
                    assert(ev2 + rest =~= ev + (seq![item] + rest));
                },
                None => {},
            }
        }
        pos = pos + 1 + len + 4;
        k = k + 1;
    }
    let ghost es = entries@.map_values(|e: (Vec<u8>, u32)| (e.0@, e.1));
    proof {
        assert(es + Seq::<(Seq<u8>, u32)>::empty() =~= es);
        assert(file_entries(d) == Some(es));
    }
    let mut trie = VocabTrie::new();
    let mut j: usize = 0;
    let m = entries.len();
    proof {
        assert(entry_tokens(es).subrange(0, 0) =~= trie.tokens());
        assert(entry_lps(es).subrange(0, 0) =~= trie.lps());
    }
    while j < m
        invariant
            m == entries@.len(),
            es == entries@.map_values(|e: (Vec<u8>, u32)| (e.0@, e.1)),
            file_entries(d) == Some(es),
            has_magic(d),
            d == data@,
            0 <= j <= m,
            trie.wf(),
            trie.prefix_paths(),
            !trie.is_finalized(),
            trie.size() == j,
            trie.tokens() == entry_tokens(es).subrange(0, j as int),
            trie.lps() == entry_lps(es).subrange(0, j as int),
            trie.node_count() <= 1 + total_len(entry_tokens(es).subrange(0, j as int)),
        decreases m - j,
    {
        let tok = &entries[j].0;
        let lp = entries[j].1;
        let ghost ts = entry_tokens(es);
        proof {
            assert(ts[j as int] == tok@);
            assert(ts.subrange(0, j + 1).drop_last() =~= ts.subrange(0, j as int));
            if fits(es) {
                lemma_total_len_prefix(ts, j + 1);
            }
        }
        proof {
            trie.lemma_tokens_len();
        }
        if tok.len() > MAX_NODES - trie.num_nodes() || j + 1 >= NONE_ID as usize {
            return Err(VocabError::InvalidFormat("vocabulary too large".to_owned()));
        }
        trie.insert(tok.as_slice(), lp);
        proof {
            assert(trie.tokens() =~= ts.subrange(0, j + 1));
            assert(trie.lps() =~= entry_lps(es).subrange(0, j + 1));
        }
        j = j + 1;
    }
    trie.finalize();
    proof {
        assert(entry_tokens(es).subrange(0, m as int) =~= entry_tokens(es));
        assert(entry_lps(es).subrange(0, m as int) =~= entry_lps(es));
    }
    Ok(trie)
}

/// Reading back: the file `serialize_vocab` writes holds the magic bytes
/// and exactly the tokens and log-probabilities it was written from, as
/// long as every token is at most 255 bytes long.
pub proof fn lemma_read_back(ts: Seq<Seq<u8>>, lps: Seq<u32>)
    requires
        ts.len() == lps.len(),
        ts.len() < NONE_ID,
        forall|i: int| 0 <= i < ts.len() ==> #[trigger] ts[i].len() <= 255,
    ensures
        has_magic(vocab_file(ts, lps)),
        file_entries(vocab_file(ts, lps)) matches Some(es) && entry_tokens(es) == ts && entry_lps(es) == lps,
{
    let f = vocab_file(ts, lps);
    let h = magic() + le_bytes(ts.len() as u32);
    assert(f.subrange(0, 4) =~= magic());
    let x = ts.len() as u32;
    lemma_le_read(f, 4, x);
    assert(h.len() == 8);
    lemma_parse_records(h, ts, lps, Seq::<u8>::empty());
    assert(h + entries_bytes(ts, lps) + Seq::<u8>::empty() =~= f);
    let es = Seq::new(ts.len(), |i: int| (ts[i], lps[i]));
    assert(entry_tokens(es) =~= ts);
    assert(entry_lps(es) =~= lps);
}

/// Saving a vocabulary and parsing the saved bytes gives back its tokens and
/// log-probabilities, and the parse succeeds: for tokens of at most 255 bytes
/// whose total length leaves room in the trie.
pub proof fn lemma_save_load(t: VocabTrie)
    requires
        t.wf(),
        forall|i: int| 0 <= i < t.tokens().len() ==> #[trigger] t.tokens()[i].len() <= 255,
        total_len(t.tokens()) + 1 <= MAX_NODES,
    ensures
        has_magic(vocab_file(t.tokens(), t.lps())),
        file_entries(vocab_file(t.tokens(), t.lps())) matches Some(es) && fits(es) && entry_tokens(es)
            == t.tokens() && entry_lps(es) == t.lps(),
{
    t.lemma_tokens_len();
    lemma_read_back(t.tokens(), t.lps());
}

/// Four bytes that spell `x` little-endian read back as `x`.
proof fn lemma_le_read(d: Seq<u8>, i: int, x: u32)
    requires
        0 <= i,
        i + 4 <= d.len(),
        d[i] == (x % 256) as u8,
        d[i + 1] == ((x / 256) % 256) as u8,
        d[i + 2] == ((x / 0x1_0000) % 256) as u8,
        d[i + 3] == (x / 0x100_0000) as u8,
    ensures
        le_u32(d, i) == x,
{
    assert(x % 256 + (x / 256) % 256 * 256 + (x / 0x1_0000) % 256 * 0x1_0000 + x / 0x100_0000 * 0x100_0000
        == x) by (bit_vector);
}

/// The records of `ts` between any prefix `p` and suffix `q` parse back to
/// `ts` with `lps`.
proof fn lemma_parse_records(p: Seq<u8>, ts: Seq<Seq<u8>>, lps: Seq<u32>, q: Seq<u8>)
    requires
        ts.len() == lps.len(),
        forall|i: int| 0 <= i < ts.len() ==> #[trigger] ts[i].len() <= 255,
    ensures
        parse_entries(p + entries_bytes(ts, lps) + q, p.len() as int, ts.len()) == Some(
            Seq::new(ts.len(), |i: int| (ts[i], lps[i])),
        ),
    decreases ts.len(),
{
    if ts.len() > 0 {
        let t0 = ts[0];
        let l0 = lps[0];
        let e0 = entry_bytes(t0, l0);
        let rest_t = ts.drop_first();
        let rest_l = lps.drop_first();
        let p2 = p + e0;
        assert forall|i: int| 0 <= i < rest_t.len() implies #[trigger] rest_t[i].len() <= 255 by {
            assert(rest_t[i] == ts[i + 1]);
        }
        lemma_parse_records(p2, rest_t, rest_l, q);
        let d = p + entries_bytes(ts, lps) + q;
        let rest = entries_bytes(rest_t, rest_l) + q;
        assert(entries_bytes(ts, lps) == e0 + entries_bytes(rest_t, rest_l));
        assert(d =~= p2 + entries_bytes(rest_t, rest_l) + q);
        let pos = p.len() as int;
        let len = t0.len() as int;
        assert forall|k: int| 0 <= k < e0.len() implies d[pos + k] == #[trigger] e0[k] by {
            assert(d == p + (e0 + rest));
        }
        assert(d[pos] == e0[0]);
        assert(d[pos] as int == len);
        assert(d.subrange(pos + 1, pos + 1 + len) =~= t0) by {
            assert forall|k: int| 0 <= k < len implies d.subrange(pos + 1, pos + 1 + len)[k] == t0[k] by {
                assert(d[pos + 1 + k] == e0[1 + k]);
            }
        }
        let b = pos + 1 + len;
        assert(d[b] == e0[1 + len]);
        assert(d[b + 1] == e0[2 + len]);
        assert(d[b + 2] == e0[3 + len]);
        assert(d[b + 3] == e0[4 + len]);
        lemma_le_read(d, b, l0);
        assert(p2.len() == pos + 1 + t0.len() + 4);
        assert(seq![(t0, l0)] + Seq::new(rest_t.len(), |i: int| (rest_t[i], rest_l[i])) =~= Seq::new(
            ts.len(),
            |i: int| (ts[i], lps[i]),
        ));
    }
}

} // verus!
