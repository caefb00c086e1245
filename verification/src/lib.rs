//! Storage and indexing core for short rich-text notes ("Zettels").
//!
//! Each note is addressed by a time-derived identifier whose byte encoding
//! preserves creation order as key order, persisted as a version-tagged
//! binary record in an embedded ordered key-value tree, and mirrored into
//! an inverted search index whose writes become visible on a background
//! commit schedule.

pub mod id;
pub mod content;
pub mod record;
pub mod index;
pub mod store;
pub mod endpoint;
