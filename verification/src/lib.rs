//! Serialization for arena-resident containers.
//!
//! Growable arrays and boxed values that live in a bump-allocation arena can
//! be written to a byte stream and read back in two ways: an incremental,
//! framed codec that decodes field by field into a fresh arena under a
//! read-budget discipline, and an archive format whose byte buffer can be
//! inspected in place and later materialized into an arena.

pub mod archive;
pub mod arena;
pub mod cell;
pub mod error;
pub mod incremental;
pub mod item;
pub mod syntax;
