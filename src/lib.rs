//! BM25 retrieval over a block-structured inverted index.
//!
//! The verified part covers tokenization, index construction, cursor
//! merging and bounded top-K selection; score arithmetic in floating point
//! is left to the caller, who hands scores back as order keys.

pub mod corpus;
pub mod cursor;
pub mod index;
pub mod merge;
pub mod query;
pub mod topk;
pub mod tokenizer;
