//! A small content-addressed version-control engine: objects, staging,
//! tree reconstruction, commits, diffs and fast-forward merges.

pub mod text;
pub mod digest;
pub mod object;
pub mod error;
pub mod store;
pub mod index;
pub mod merge;
pub mod tree;
pub mod commit;
pub mod diff;
pub mod command;
