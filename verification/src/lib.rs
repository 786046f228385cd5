//! Core of a compiler-process monitor: glob-based process-name matching,
//! response-file expansion, source-file extraction from shell-quoted command
//! lines, crash-safe sequence numbering for a cache of capture records, and a
//! deterministic collector that aggregates the records into a compilation
//! database.  All file and process I/O lives outside this crate; the library
//! works on plain values handed in by its caller.

pub mod glob;
pub mod cache;
pub mod cmdline;
pub mod collect;
pub mod expand;
pub mod records;
pub mod resolver;
pub mod scanner;
pub mod text;
