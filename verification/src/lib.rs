//! Specialized in-memory hash tables for high-throughput aggregation:
//! an open-addressing, zero-sentinel table with linear probing (`Table0`),
//! a direct-addressed bitmap table for two-byte keys (`Table1`), and an
//! adaptive dispatcher that routes variable-length byte-string keys by
//! length to a fixed-shape backend.

pub mod adaptive_hashtable;
pub mod batch;
pub mod batch_hashtable;
pub mod encoding;
pub mod experimental;
pub mod fallback;
pub mod hash;
pub mod hashtable;
pub mod inline;
pub mod inline_ref;
pub mod table0;
pub mod table1;
pub mod table2;
pub mod traits;
pub mod twolevel_hashtable;
pub mod utils;
