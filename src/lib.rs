//! Reconstructs per-document publication and modification data from a
//! commit history, selects the most recently touched documents and prepares
//! their feed entries.

pub mod entry;
pub mod history;
pub mod registry;
pub mod select;
pub mod time;
