//! A polyglot source-code formatter driver: formats a buffer with the
//! formatter configured for its language, discovers embedded fragments of
//! other languages through tree-sitter injection queries, and recursively
//! formats each fragment while preserving the host's indentation, escape
//! conventions, and trailing-newline policy around it.

pub mod align;
pub mod cli;
pub mod config;
pub mod dispatch;
pub mod driver;
pub mod edits;
pub mod escape;
pub mod native;
pub mod plugin;
pub mod regions;
pub mod textops;
pub mod trim_newlines;
pub mod ts;
