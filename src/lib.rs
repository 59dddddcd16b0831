//! An embedded tabular key/value store: tables of string rows, a textual
//! operation log with replay, CSV snapshots, an inverted index and a Bloom
//! filter.

pub mod bloom;
pub mod text;
pub mod datatype;
pub mod fields;
pub mod table;
pub mod indexer;
pub mod codec;
pub mod walwriter;
pub mod db;
pub mod replay;
pub mod query;
pub mod accel;
pub mod snapshot;
pub mod typed;
pub mod laws;
pub mod roundtrip;

pub use bloom::BloomFilter;
pub use db::{Database, DatabaseError};
pub use indexer::Indexer;
pub use query::NumOrder;
pub use table::Table;
pub use walwriter::{WalBatch, WalWriter, WalWriterHandle};
