//! Encoding many texts at once.
use vstd::prelude::*;
use vstd::utf8::encode_utf8;
use crate::encoder::{encodable, encoding, DpEntry, Encoder, MAX_TEXT_LEN};

verus! {

/// Encodes each text whole (no word chunking), reusing one DP buffer.
pub fn encode_batch(encoder: &Encoder, texts: &[&str]) -> (r: Vec<Vec<u32>>)
    requires
        encoder.trie.wf(),
        forall|k: int|
            0 <= k < texts@.len() ==> encode_utf8((#[trigger] texts@[k])@).len() < MAX_TEXT_LEN
                && encodable(encoder.model(), encode_utf8(texts@[k]@)),
    ensures
        r@.len() == texts@.len(),
        forall|k: int|
            0 <= k < texts@.len() ==> (#[trigger] r@[k])@ == encoding(
                encoder.model(),
                encode_utf8(texts@[k]@),
            ),
{
    let mut dp_buf: Vec<DpEntry> = Vec::new();
    let mut result: Vec<Vec<u32>> = Vec::new();
    let mut k: usize = 0;
    while k < texts.len()
        invariant
            encoder.trie.wf(),
                0 <= k <= texts@.len(),
            result@.len() == k,
            forall|j: int|
                0 <= j < texts@.len() ==> encode_utf8((#[trigger] texts@[j])@).len() < MAX_TEXT_LEN
                    && encodable(encoder.model(), encode_utf8(texts@[j]@)),
            forall|j: int|
                0 <= j < k ==> (#[trigger] result@[j])@ == encoding(
                    encoder.model(),
                    encode_utf8(texts@[j]@),
                ),
        decreases texts@.len() - k,
    {
        let mut out: Vec<u32> = Vec::new();
        let text: &str = texts[k];
        encoder.encode_into(text, &mut dp_buf, &mut out);
        proof {
            assert(out@ =~= encoding(encoder.model(), encode_utf8(texts@[k as int]@)));
        }
        result.push(out);
        k = k + 1;
    }
    result
}

} // verus!
