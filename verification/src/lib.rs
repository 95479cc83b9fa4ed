//! A TF-IDF document indexing and ranking engine.
//!
//! The library tokenizes document text into case-folded terms, accumulates
//! per-document term-frequency tables into a corpus index, computes the exact
//! integer ingredients of TF-IDF scores, ranks documents deterministically,
//! and persists the index through a codec whose round trip is proved exact.

pub mod codec;
pub mod engine;
pub mod index;
pub mod scorer;
pub mod table;
pub mod tokenizer;
