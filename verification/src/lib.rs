//! A persistent, queryable index over a version-control commit graph, and the
//! decision logic of the commands that consult it.
//!
//! The index is an append-only chain of immutable segments. It answers
//! ancestry and generation queries, resolves short change-id prefixes, and
//! keeps the number of segments logarithmic by merging small levels when a
//! transaction commits.

pub mod ids;
pub mod index;
pub mod text;
pub mod str_pattern;
pub mod command_error;
pub mod refs;
pub mod commands;
pub mod revset_util;
pub mod revset;
pub mod fake_bisector;
