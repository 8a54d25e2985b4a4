//! Block-pruning engine for a columnar table store laid out as
//! segments of blocks, each block carrying per-column min/max statistics,
//! a row count and an optional bloom-filter index descriptor.
//!
//! Given a push-down request (filter predicates, optional limit, optional
//! ordering) the engine decides which `(segment, block)` pairs must be
//! scanned, without reading any block data. All decision logic lives here,
//! verified; the asynchronous I/O that feeds it (segment metadata reads,
//! bloom index reads) is driven by the embedding program.

pub mod bitmap;
pub mod limiter;
pub mod meta;
pub mod pred;
pub mod topn;
pub mod executor;
