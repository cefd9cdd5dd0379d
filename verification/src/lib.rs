//! An in-memory, append-mostly search index for short strings: n-gram bit
//! signatures, sealed columnar segments with inverted postings, bounded
//! candidate generation, top-K selection, and the packed log that feeds it.

pub mod simd;
pub mod text;
pub mod qgram;
pub mod postings;
pub mod ingest;
pub mod index;
pub mod seal;
pub mod builder;
pub mod accum;
pub mod le;
pub mod wire;
pub mod topk;
pub mod plan;
pub mod search;
pub mod storage;
pub mod pipeline;
