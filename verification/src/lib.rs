//! Persistence rules for the global, append-only *message history*.
//!
//! The history is a `history.jsonl` file with one JSON object per line, and
//! zero or more immutable rotated segments beside it, named
//! `history.<start>.jsonl`, where `<start>` is the global zero-based index of
//! the segment's first entry. Appends only ever touch the active file. When it
//! reaches the rotation threshold it is renamed into place as the newest
//! segment, which keeps its identity for cached lookups, and a fresh active file
//! begins. The cap is enforced by deleting whole segments, oldest first.
//!
//! This crate decides and computes; it opens no file. What alternates between
//! the file system and a decision is a machine that asks for one action at a
//! time and is told what came of it: [`append::Append`], [`rotation::Rotation`]
//! and [`lookup::Lookup`]. File contents are handed in chunk by chunk, to
//! [`lines::LineCounter`], [`lines::NewlineCounter`] and [`lines::LineReader`].
//!
//! [`log`] is the mathematical model of the history, [`directory`] says which
//! files stand for it, and [`recording`], [`maintenance`] and [`retrieval`]
//! state what whole runs of the machines do to it.

pub mod append;
pub mod config;
pub mod directory;
pub mod entry;
pub mod lines;
pub mod log;
pub mod lookup;
pub mod maintenance;
pub mod metadata;
pub mod recording;
pub mod retrieval;
pub mod rotation;
pub mod segments;
pub mod text;

pub use config::{History, HistoryConfig, HistoryPersistence};
pub use entry::HistoryEntry;
