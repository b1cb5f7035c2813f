//! A verified engine that scans a directory tree for files whose base names
//! match a predicate (a fixed `.env` prefix or a caller-supplied substring),
//! pruning subtrees whose directory names appear in an exclusion set and
//! tolerating unreadable entries.
//!
//! The engine works on an in-memory snapshot of the tree ([`tree::FsTree`]);
//! reading the filesystem into such a snapshot is left to unverified adapters.

pub mod laws;
pub mod matching;
pub mod scan;
pub mod tree;
