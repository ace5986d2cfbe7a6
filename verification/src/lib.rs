//! Verified core of a registry migration tool.
//!
//! The library models a migration run over a configuration that lists
//! images, their version tags, and optional platform lists.  It parses
//! the configuration text, plans the exact sequence of copy invocations,
//! renders the external command's arguments, and models the output log
//! as a byte sequence.  All file, process, and console I/O lives outside
//! the library.

pub mod bytes;
pub mod config;
pub mod logsink;
pub mod parse;
pub mod plan;
