//! The commit index: graph model, segments, ancestry queries and compaction.

pub mod graph;
pub mod chain;
pub mod ancestry;
pub mod levels;
pub mod mutable;
pub mod reach;
pub mod change_id;
pub mod laws;
pub mod stats;
pub mod error;
pub mod revset;
pub mod changed_path;
pub mod bytes;
pub mod format;
pub mod store;
pub mod recovery;
pub mod sameness;
pub mod merge;
pub mod path_format;
pub mod path_store;
pub mod revwalk;
pub mod check;
pub mod rebuilt;
pub mod criss_cross;
pub mod history;
