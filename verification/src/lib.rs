//! TokeNismo core tokenizer library: a Unigram Language Model tokenizer with
//! Viterbi dynamic-programming segmentation over a double-array trie.
pub mod logprob;
pub mod vocab;
pub mod encoder;
pub mod chunks;
pub mod decoder;
pub mod batch;
pub mod vocab_io;
pub mod trainer;

pub use batch::encode_batch;
pub use decoder::Decoder;
pub use encoder::Encoder;
pub use vocab::VocabTrie;
