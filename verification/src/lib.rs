//! A CSV library whose parsing, emitting and indexing logic is verified.

use vstd::prelude::*;

pub mod ascii;
pub mod byte_record;
pub mod config;
pub mod config_laws;
pub mod decimal;
pub mod emit;
pub mod engine;
pub mod error;
pub mod field_ends;
pub mod field_value;
pub mod filter;
pub mod filter_laws;
pub mod format;
pub mod from_bytes;
pub mod generate;
pub mod index;
pub mod into_inner_error;
pub mod io_emitter;
pub mod io_laws;
pub mod options;
pub mod parsing_laws;
pub mod search;
pub mod slice_parser;
pub mod storage;
pub mod text_record;
pub mod utf8;
pub mod value_laws;

verus! {

} // verus!
