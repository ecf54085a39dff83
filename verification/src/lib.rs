//! Verified core of a small task-tracking tool.
//!
//! The library covers the pieces with real logic: the quote-aware command
//! tokenizer, the in-memory task store with its CRUD and listing operations,
//! the textual codec that persists a store (with a proved save/load
//! round-trip), and the translation of a command line into an operation on
//! the store.  Reading lines, touching the file system and printing results
//! are left to the surrounding program.

pub mod codec;
pub mod commands;
pub mod errors;
pub mod numbers;
pub mod store;
pub mod task;
pub mod text;
pub mod tokenizer;
