//! An embeddable key-value store engine for small string keys and values.
//!
//! The crate holds the storage logic: the tokenized containers that keep a
//! textual serialization and its offset table side by side, the page cache,
//! the routing of reads and writes between the active log and the immutable
//! segments, the segment roll and the compaction of tombstoned keys. What
//! touches the file system is left to the embedding program, which hands file
//! contents in and carries file operations out.
//!
//! What the store does is said in [`model`]. The invariant that every
//! operation keeps is that of [`soundness`], and what it gives to those who
//! use the database is proved in [`guarantees`]. The database of
//! [`controller`] puts store and folder together in memory, and is a mapping
//! from keys to values without condition.

pub mod cache;
pub mod cky_map;
pub mod cky_vector;
pub mod compaction;
pub mod constants;
pub mod controller;
pub mod disk;
pub mod entries;
pub mod errors;
pub mod guarantees;
pub mod listing;
pub mod model;
pub mod roundtrip;
pub mod segments;
pub mod soundness;
pub mod store;
pub mod strings;
pub mod task;
pub mod text;
pub mod tokens;
pub mod utils;
