//! Persistent, source-bound record-offset indexes.
//!
//! A [`CsvIndex`] holds record positions in memory; its byte form can be
//! stored, and read back whole or entry by entry.

pub mod chunks;
pub mod csv_index;
pub mod csv_index_reader;
pub mod estimate;
pub mod format;
pub mod generate;
pub mod hash;
pub mod index_laws;
pub mod index_options;
pub mod indexer;
pub mod parallel;
pub mod remote;
pub mod seeking;
pub mod stream;
pub mod validator;
pub mod validator_laws;

pub use csv_index::{BoundSource, CsvIndex};
pub use csv_index_reader::CsvIndexReader;
pub use index_options::IndexOptions;
