//! Turning token ids back into text.
use vstd::prelude::*;
use vstd::utf8::{decode_utf8, valid_utf8};
use vstd::utf8::{encode_utf8, encode_utf8_decode_utf8, encode_utf8_valid_utf8};
use crate::encoder::{
    best, chunk_bounds, flagged_piece, plain_piece, chunk_end, chunked_encoding, chunks_encodable, encodable, encodable_from, encoding, encoding_from, lemma_pretok_end, oov_at, no_oov, unk_id, pass_encodable, pass_encoding, pretok_end,
    lemma_best_origin, lemma_first_boundary, leads, piece, segment, text_encodable, text_encoding,
    LEADING_SPACE_FLAG, MIN_CHUNK_BYTES, PARALLEL_THRESHOLD,
};
use crate::chunks::lemma_chunked_concat;
use crate::vocab::{id_of, lemma_id_of, VocabTrie, VocabView};

verus! {

#[verifier::external_type_specification]
#[verifier::external_body]
pub struct ExFromUtf8Error(std::string::FromUtf8Error);

/// Why a sequence of ids could not be decoded.
#[derive(Debug)]
pub enum DecodeError {
    /// The id (with its flag bits) names no token.
    UnknownToken(u32),
    /// The decoded bytes are not valid UTF-8.
    Utf8(std::string::FromUtf8Error),
}

/// The id carries the leading-space flag.
pub open spec fn has_space(id: u32) -> bool {
    id & LEADING_SPACE_FLAG != 0
}

/// The token id without its leading-space flag.
pub open spec fn base_id(id: u32) -> u32 {
    id & !LEADING_SPACE_FLAG
}

/// The id names one of the tokens `tb`.
pub open spec fn known(tb: Seq<Seq<u8>>, id: u32) -> bool {
    (base_id(id) as int) < tb.len()
}

/// All ids name tokens.
pub open spec fn all_known(tb: Seq<Seq<u8>>, ids: Seq<u32>) -> bool {
    forall|k: int| 0 <= k < ids.len() ==> known(tb, #[trigger] ids[k])
}

/// `ids[k]` is the first id that names no token.
pub open spec fn first_unknown(tb: Seq<Seq<u8>>, ids: Seq<u32>, k: int) -> bool {
    &&& 0 <= k < ids.len()
    &&& !known(tb, ids[k])
    &&& forall|j: int| 0 <= j < k ==> known(tb, #[trigger] ids[j])
}

/// The bytes one id stands for: a space if flagged, then the token.
pub open spec fn piece_bytes(tb: Seq<Seq<u8>>, id: u32) -> Seq<u8> {
    (if has_space(id) {
        seq![32u8]
    } else {
        Seq::<u8>::empty()
    }) + tb[base_id(id) as int]
}

/// The bytes a sequence of ids stands for.
pub open spec fn decoded(tb: Seq<Seq<u8>>, ids: Seq<u32>) -> Seq<u8>
    decreases ids.len(),
{
    if ids.len() == 0 {
        Seq::<u8>::empty()
    } else {
        decoded(tb, ids.drop_last()) + piece_bytes(tb, ids.last())
    }
}

/// `String::from_utf8`: succeeds exactly when the bytes are valid UTF-8, and
/// then the string holds the characters that the bytes encode.
#[verifier::external_body]
fn string_from_utf8(bytes: Vec<u8>) -> (r: Result<String, std::string::FromUtf8Error>)
    ensures
        r is Ok <==> valid_utf8(bytes@),
        r matches Ok(s) ==> s@ == decode_utf8(bytes@),
{
    String::from_utf8(bytes)
}

/// Below the flag bit, an id has no flag and flagging it keeps its base.
proof fn lemma_flag_bits(k: u32)
    requires
        k < LEADING_SPACE_FLAG,
    ensures
        !has_space(k),
        base_id(k) == k,
        has_space(k | LEADING_SPACE_FLAG),
        base_id(k | LEADING_SPACE_FLAG) == k,
{
    assert(k & 0x40_0000u32 == 0 && k & !0x40_0000u32 == k && (k | 0x40_0000u32) & 0x40_0000u32 != 0
        && (k | 0x40_0000u32) & !0x40_0000u32 == k) by (bit_vector)
        requires
            k < 0x40_0000u32,
    ;
}

/// Decoding the segmentation of `s[..e]` gives `s[..e]` back.
proof fn lemma_decode_segment(v: VocabView, s: Seq<u8>, e: int)
    requires
        v.tokens.len() <= LEADING_SPACE_FLAG,
        0 <= e <= s.len(),
        best(v, s, e) is Some,
    ensures
        all_known(v.tokens, segment(v, s, e)),
        decoded(v.tokens, segment(v, s, e)) == s.subrange(0, e),
    decreases e,
{
    let tb = v.tokens;
    if e == 0 {
        assert(s.subrange(0, 0) =~= Seq::<u8>::empty());
    } else {
        lemma_best_origin(v, s, e);
        let c = best(v, s, e)->0;
        let i = c.prev;
        lemma_decode_segment(v, s, i);
        let seg = segment(v, s, e);
        assert(seg == segment(v, s, i).push(c.id));
        assert(seg.drop_last() =~= segment(v, s, i));
        let fl = flagged_piece(v, s, i, e);
        let pl = plain_piece(v, s, i, e);
        if piece(v, s, i, e) == fl && fl is Some {
            let p = s.subrange(i + 1, e);
            let k = id_of(v.tokens, p)->0;
            lemma_id_of(tb, p);
            lemma_flag_bits(k as u32);
            assert(tb[k as int] == p);
            assert(piece_bytes(tb, c.id) =~= s.subrange(i, e));
        } else {
            let p = s.subrange(i, e);
            let k = id_of(v.tokens, p)->0;
            lemma_id_of(tb, p);
            lemma_flag_bits(k as u32);
            assert(tb[k as int] == p);
            assert(piece_bytes(tb, c.id) =~= s.subrange(i, e));
        }
        assert(s.subrange(0, i) + s.subrange(i, e) =~= s.subrange(0, e));
        assert forall|j: int| 0 <= j < seg.len() implies known(tb, #[trigger] seg[j]) by {
            if j < seg.len() - 1 {
                assert(seg[j] == segment(v, s, i)[j]);
            }
        }
    }
}

/// Decoding the ids of one pass gives its bytes back, as long as token ids
/// leave the flag bit free.
pub proof fn lemma_decode_pass(v: VocabView, s: Seq<u8>)
    requires
        v.tokens.len() <= LEADING_SPACE_FLAG,
        pass_encodable(v, s),
    ensures
        all_known(v.tokens, pass_encoding(v, s)),
        decoded(v.tokens, pass_encoding(v, s)) == s,
{
    lemma_decode_segment(v, s, s.len() as int);
    assert(s.subrange(0, s.len() as int) =~= s);
}

/// The text that decoding gives back for `s` from `i` on: `s` itself, but
/// each character outside the vocabulary replaced by the bytes of the token
/// that `<unk>` stands for.
pub open spec fn unk_text_from(v: VocabView, s: Seq<u8>, i: int) -> Seq<u8>
    decreases s.len() - i,
{
    if i < 0 || i >= s.len() {
        seq![]
    } else {
        let e = pretok_end(v, s, i);
        if e <= i || e > s.len() {
            seq![]
        } else if oov_at(v, s, i) {
            v.tokens[unk_id(v) as int] + unk_text_from(v, s, e)
        } else {
            s.subrange(i, e) + unk_text_from(v, s, e)
        }
    }
}

/// Decoding the encoding of `s` from `i` on gives `s[i..]` back with every
/// character outside the vocabulary replaced by the `<unk>` token's bytes.
proof fn lemma_decode_from(v: VocabView, s: Seq<u8>, i: int)
    requires
        v.tokens.len() <= LEADING_SPACE_FLAG,
        0 <= i <= s.len(),
        encodable_from(v, s, i),
        unk_id(v) < v.tokens.len() || forall|q: int| i <= q < s.len() ==> !#[trigger] oov_at(v, s, q),
    ensures
        all_known(v.tokens, encoding_from(v, s, i)),
        decoded(v.tokens, encoding_from(v, s, i)) == unk_text_from(v, s, i),
        (forall|q: int| i <= q < s.len() ==> !#[trigger] oov_at(v, s, q)) ==> unk_text_from(v, s, i)
            == s.subrange(i, s.len() as int),
    decreases s.len() - i,
{
    let tb = v.tokens;
    if i == s.len() {
        assert(encoding_from(v, s, i) =~= Seq::<u32>::empty());
        assert(s.subrange(i, s.len() as int) =~= Seq::<u8>::empty());
    } else {
        let e = pretok_end(v, s, i);
        lemma_pretok_end(v, s, i);
        lemma_decode_from(v, s, e);
        if oov_at(v, s, i) {
            let u = unk_id(v);
            lemma_flag_bits(u);
            assert(piece_bytes(tb, u) =~= tb[u as int]);
            assert(seq![u].drop_last() =~= Seq::<u32>::empty());
            assert(seq![u].last() == u);
            assert(decoded(tb, Seq::<u32>::empty()) =~= Seq::<u8>::empty());
            assert(Seq::<u8>::empty() + piece_bytes(tb, u) =~= tb[u as int]);
            assert(decoded(tb, seq![u]) =~= tb[u as int]);
            assert forall|k: int| 0 <= k < seq![u].len() implies known(tb, #[trigger] seq![u][k]) by {}
            lemma_decoded_append(tb, seq![u], encoding_from(v, s, e));
        } else {
            let part = s.subrange(i, e);
            lemma_decode_pass(v, part);
            lemma_decoded_append(tb, pass_encoding(v, part), encoding_from(v, s, e));
            assert(part + s.subrange(e, s.len() as int) =~= s.subrange(i, s.len() as int));
        }
    }
}

/// Decoding what the encoder emits gives the text back with every character
/// outside the vocabulary replaced by the bytes of `<unk>`.
pub proof fn lemma_decode_with_unk(v: VocabView, s: Seq<u8>)
    requires
        v.tokens.len() <= LEADING_SPACE_FLAG,
        encodable(v, s),
        unk_id(v) < v.tokens.len(),
    ensures
        all_known(v.tokens, encoding(v, s)),
        decoded(v.tokens, encoding(v, s)) == unk_text_from(v, s, 0),
{
    lemma_decode_from(v, s, 0);
}

/// Decoding what the encoder emits gives the encoded bytes back, as long as
/// token ids leave the flag bit free.
pub proof fn lemma_decode_encoding(v: VocabView, s: Seq<u8>)
    requires
        v.tokens.len() <= LEADING_SPACE_FLAG,
        encodable(v, s),
        no_oov(v, s),
    ensures
        all_known(v.tokens, encoding(v, s)),
        decoded(v.tokens, encoding(v, s)) == s,
{
    lemma_decode_from(v, s, 0);
    assert(s.subrange(0, s.len() as int) =~= s);
}

/// Round trip: encoding a text and decoding the ids yields valid UTF-8 that
/// decodes to the same text, so `decode` returns `Ok` with the text.
pub proof fn lemma_round_trip(v: VocabView, text: Seq<char>)
    requires
        v.tokens.len() <= LEADING_SPACE_FLAG,
        encodable(v, encode_utf8(text)),
        no_oov(v, encode_utf8(text)),
    ensures
        all_known(v.tokens, encoding(v, encode_utf8(text))),
        valid_utf8(decoded(v.tokens, encoding(v, encode_utf8(text)))),
        decode_utf8(decoded(v.tokens, encoding(v, encode_utf8(text)))) == text,
{
    lemma_decode_encoding(v, encode_utf8(text));
    encode_utf8_valid_utf8(text);
    encode_utf8_decode_utf8(text);
}

/// Decoding two id sequences one after the other decodes each in turn.
pub proof fn lemma_decoded_append(tb: Seq<Seq<u8>>, a: Seq<u32>, b: Seq<u32>)
    ensures
        decoded(tb, a + b) == decoded(tb, a) + decoded(tb, b),
        all_known(tb, a + b) <==> all_known(tb, a) && all_known(tb, b),
    decreases b.len(),
{
    if b.len() == 0 {
        assert(a + b =~= a);
        assert(decoded(tb, a) + decoded(tb, b) =~= decoded(tb, a));
    } else {
        lemma_decoded_append(tb, a, b.drop_last());
        assert((a + b).drop_last() =~= a + b.drop_last());
        assert((a + b).last() == b.last());
        assert(decoded(tb, a) + decoded(tb, b.drop_last()) + piece_bytes(tb, b.last()) =~= decoded(tb, a)
            + (decoded(tb, b.drop_last()) + piece_bytes(tb, b.last())));
    }
    if all_known(tb, a + b) {
        assert forall|k: int| 0 <= k < a.len() implies known(tb, #[trigger] a[k]) by {
            assert((a + b)[k] == a[k]);
        }
        assert forall|k: int| 0 <= k < b.len() implies known(tb, #[trigger] b[k]) by {
            assert((a + b)[a.len() + k] == b[k]);
        }
    }
    if all_known(tb, a) && all_known(tb, b) {
        assert forall|k: int| 0 <= k < (a + b).len() implies known(tb, #[trigger] (a + b)[k]) by {
            if k < a.len() {
                assert((a + b)[k] == a[k]);
            } else {
                assert((a + b)[k] == b[k - a.len()]);
            }
        }
    }
}

/// Decoding the encodings of the chunks of `s` from `cs` on gives `s[cs..]`.
proof fn lemma_decode_chunks_from(v: VocabView, s: Seq<u8>, min: int, cs: int)
    requires
        v.tokens.len() <= LEADING_SPACE_FLAG,
        0 <= cs < s.len(),
        chunks_encodable(v, s, chunk_bounds(s, min, cs)),
        no_oov(v, s),
    ensures
        all_known(v.tokens, chunked_encoding(v, s, chunk_bounds(s, min, cs))),
        decoded(v.tokens, chunked_encoding(v, s, chunk_bounds(s, min, cs))) == s.subrange(
            cs,
            s.len() as int,
        ),
    decreases s.len() - cs,
{
    let tb = v.tokens;
    let n = s.len() as int;
    let ce = chunk_end(s, min, cs);
    lemma_first_boundary(s, cs + if min > 1 { min } else { 1 });
    let cb = chunk_bounds(s, min, cs);
    let rest = chunk_bounds(s, min, ce);
    let first = s.subrange(cs, ce);
    assert(cb == seq![(cs, ce)] + rest);
    lemma_chunked_concat(v, s, seq![(cs, ce)], rest);
    assert(chunked_encoding(v, s, seq![(cs, ce)]) =~= encoding(v, first)) by {
        let one = seq![(cs, ce)];
        assert(one.len() == 1);
        assert(one.last() == (cs, ce));
        assert(one.drop_last() =~= Seq::<(int, int)>::empty());
        assert(chunked_encoding(v, s, one.drop_last()) == Seq::<u32>::empty());
        assert(Seq::<u32>::empty() + encoding(v, first) =~= encoding(v, first));
    }
    assert(encodable(v, first)) by {
        assert(cb[0] == (cs, ce));
    }
    assert forall|q: int| !#[trigger] oov_at(v, first, q) by {
        if 0 <= q < first.len() {
            assert(first[q] == s[cs + q]);
            assert(!oov_at(v, s, cs + q));
        }
    }
    lemma_decode_encoding(v, first);
    lemma_decoded_append(tb, encoding(v, first), chunked_encoding(v, s, rest));
    if ce == n {
        assert(rest =~= Seq::<(int, int)>::empty());
        assert(decoded(tb, encoding(v, first)) + Seq::<u8>::empty() =~= first);
    } else {
        assert(chunks_encodable(v, s, rest)) by {
            assert forall|k: int| 0 <= k < rest.len() implies encodable(
                v,
                s.subrange(#[trigger] rest[k].0, rest[k].1),
            ) by {
                assert(cb[k + 1] == rest[k]);
            }
        }
        lemma_decode_chunks_from(v, s, min, ce);
        assert(first + s.subrange(ce, n) =~= s.subrange(cs, n));
    }
}

/// Round trip through encoding in word chunks: whenever it succeeds, its
/// ids decode to valid UTF-8 that spells the text, so `decode`
/// returns `Ok` with the text.
pub proof fn lemma_text_round_trip(v: VocabView, text: Seq<char>)
    requires
        v.tokens.len() <= LEADING_SPACE_FLAG,
        text_encodable(v, encode_utf8(text)),
        no_oov(v, encode_utf8(text)),
    ensures
        all_known(v.tokens, text_encoding(v, encode_utf8(text))),
        decoded(v.tokens, text_encoding(v, encode_utf8(text))) == encode_utf8(text),
        valid_utf8(decoded(v.tokens, text_encoding(v, encode_utf8(text)))),
        decode_utf8(decoded(v.tokens, text_encoding(v, encode_utf8(text)))) == text,
{
    let s = encode_utf8(text);
    if s.len() < PARALLEL_THRESHOLD {
        lemma_decode_encoding(v, s);
    } else {
        lemma_decode_chunks_from(v, s, MIN_CHUNK_BYTES as int, 0);
        assert(s.subrange(0, s.len() as int) =~= s);
    }
    encode_utf8_valid_utf8(text);
    encode_utf8_decode_utf8(text);
}

/// Decodes token ids with the tokens of a vocabulary.
pub struct Decoder {
    token_bytes: Vec<Vec<u8>>,
}

impl Decoder {
    /// The tokens, by id.
    pub closed spec fn tokens(&self) -> Seq<Seq<u8>> {
        self.token_bytes@.map_values(|v: Vec<u8>| v@)
    }

    /// A decoder for the tokens of `trie`.
    pub fn from_trie(trie: &VocabTrie) -> (r: Self)
        requires
            trie.wf(),
        ensures
            r.tokens() == trie.tokens(),
    {
        let src = trie.token_bytes();
        let mut token_bytes: Vec<Vec<u8>> = Vec::new();
        let mut k: usize = 0;
        while k < src.len()
            invariant
                0 <= k <= src@.len(),
                src@.map_values(|v: Vec<u8>| v@) == trie.tokens(),
                token_bytes@.len() == k,
                forall|j: int| 0 <= j < k ==> #[trigger] token_bytes@[j]@ == src@[j]@,
            decreases src@.len() - k,
        {
            let mut copy: Vec<u8> = Vec::new();
            copy.extend_from_slice(src[k].as_slice());
            proof {
                assert(copy@ =~= src@[k as int]@);
            }
            token_bytes.push(copy);
            k = k + 1;
        }
        let r = Decoder { token_bytes };
        proof {
            assert(r.tokens() =~= trie.tokens()) by {
                assert forall|j: int| 0 <= j < src@.len() implies r.tokens()[j] == trie.tokens()[j] by {
                    assert(src@.map_values(|v: Vec<u8>| v@)[j] == src@[j]@);
                }
            }
        }
        r
    }

    /// The text that `ids` stand for: each id gives its token's bytes, after a
    /// space when it carries `LEADING_SPACE_FLAG`.
    pub fn decode(&self, ids: &[u32]) -> (r: Result<String, DecodeError>)
        ensures
            match r {
                Err(DecodeError::UnknownToken(id)) => exists|k: int|
                    first_unknown(self.tokens(), ids@, k) && id == ids@[k],
                Err(DecodeError::Utf8(_)) => all_known(self.tokens(), ids@) && !valid_utf8(
                    decoded(self.tokens(), ids@),
                ),
                Ok(s) => all_known(self.tokens(), ids@) && valid_utf8(decoded(self.tokens(), ids@))
                    && s@ == decode_utf8(decoded(self.tokens(), ids@)),
            },
    {
        let ghost tb = self.tokens();
        let mut buf: Vec<u8> = Vec::new();
        let mut k: usize = 0;
        while k < ids.len()
            invariant
                tb == self.tokens(),
                0 <= k <= ids@.len(),
                forall|j: int| 0 <= j < k ==> known(tb, #[trigger] ids@[j]),
                buf@ == decoded(tb, ids@.subrange(0, k as int)),
            decreases ids@.len() - k,
        {
            let id = ids[k];
            let has_sp = (id & LEADING_SPACE_FLAG) != 0;
            let base = (id & !LEADING_SPACE_FLAG) as usize;
            if base >= self.token_bytes.len() {
                return Err(DecodeError::UnknownToken(id));
            }
            let ghost before = buf@;
            if has_sp {
                buf.push(32);
            }
            buf.extend_from_slice(self.token_bytes[base].as_slice());
            proof {
                let pre = ids@.subrange(0, k as int);
                let cur = ids@.subrange(0, k + 1);
                assert(cur.drop_last() =~= pre);
                assert(cur.last() == id);
                assert(tb[base as int] == self.token_bytes@[base as int]@);
                assert(buf@ =~= before + piece_bytes(tb, id));
            }
            k = k + 1;
        }
        proof {
            assert(ids@.subrange(0, k as int) =~= ids@);
        }
        match string_from_utf8(buf) {
            Ok(s) => Ok(s),
            Err(e) => Err(DecodeError::Utf8(e)),
        }
    }
}

} // verus!
