//! A verified wordlist transformer.
//!
//! The crate reads a wordlist as a sequence of text entries (one per line),
//! applies a configured set of operations — byte-length filtering,
//! grapheme-aware per-entry reversal, bytewise sorting, and deduplication —
//! and produces the transformed list, in a batch mode over the whole input
//! or in a streaming mode that handles one entry at a time.  Every
//! allocation that may be large is guarded by an advisory memory-admission
//! policy derived from the system's available memory.

pub mod error;
pub mod params;
pub mod memory;
pub mod text;
pub mod encoding;
pub mod wordlist;
pub mod reader;
pub mod writer;
pub mod engine;
pub mod laws;
