# tokenismo-core

A Unigram Language Model tokenizer: a byte trie with a double-array (DARTS)
layout, a pre-tokenizer that cuts out runs of two or more spaces and turns
characters outside the vocabulary into `<unk>`, a Viterbi
segmenter that picks the segmentation with the fewest pieces (ties broken by
the higher total log-probability), a decoder, the
binary `.vocab` format, and the plain-computation parts of vocabulary
training. The library is written in Verus and its contracts are proved.

## Layout

- `src/` — the verified library.
  - `vocab.rs` — `VocabTrie`: insertion, CSR compaction, DARTS layout, lookups.
  - `encoder.rs` — the Viterbi encoder, its specification (`best`,
    `encoding`) and the optimality lemma.
  - `chunks.rs` — why encoding word chunks gives the ids of one whole pass.
  - `decoder.rs` — `Decoder` and the round-trip lemmas.
  - `batch.rs` — encoding many texts with one DP buffer.
  - `vocab_io.rs` — the `.vocab` byte format, written and parsed, and the
    read-back lemma.
  - `logprob.rs` — fixed-point values of `f32` log-probability bits.
  - `trainer/` — text normalization, corpus splitting, substring counting
    and candidate seeding.
- `tests/` — tests run against the compiled library.
- `app/` — the command-line trainer, file I/O, parallel encoding, the Python
  bindings and a throughput benchmark: the parts that do I/O, use threads or
  compute in floating point.
