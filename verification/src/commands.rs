//! The decisions of the commands: what to do and what to say, computed from
//! plain values. Reading the repository and carrying the decisions out is
//! left to the caller.

pub mod bookmark;
pub mod git;
pub mod config;
pub mod sync;
pub mod describe;
pub mod bisect;
