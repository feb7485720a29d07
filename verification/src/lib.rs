//! Core of a directory-bookmarking tool: a bookmark table with unique,
//! lexicographically ordered names, a line-oriented text format for the
//! table with a proved serialize/parse round trip, deterministic shell
//! alias generation, a human-readable listing together with its reverse
//! parse, and layered configuration resolution.

pub mod bookmarks;
pub mod cli;
pub mod codec;
pub mod config;
pub mod errors;
pub mod order;
pub mod plan;
pub mod render;
pub mod table;
