//! Parallel tokenization of a column of optional text values into a four-column
//! token table: row provenance, token id, token text and attention-mask bit.

pub mod engine;
pub mod error;
pub mod partition;
pub mod shard;
pub mod table;
pub mod tokenize;
