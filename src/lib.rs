//! A small line-oriented text search library: the query matcher and the
//! command-line argument parser of a minimal grep-like tool.

pub mod config;
mod lines;
pub mod search;
pub mod text;

pub use config::{matching_lines, Config, ParseError};
pub use search::{search, search_folded, search_ignore_case};
pub use text::{contains_seq, lines_of};
