//! Pieces of vocabulary training that are plain computation.
pub mod corpus;
pub mod counts;
pub mod normalizer;
pub mod seed;
