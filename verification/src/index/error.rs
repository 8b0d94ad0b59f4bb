//! The errors of the index.

use vstd::prelude::*;
use crate::ids::CommitId;

verus! {

/// What can go wrong with the index.
#[derive(Debug)]
pub enum IndexError {
    /// The commit is not indexed.
    NotFound(CommitId),
    /// A range ends before it starts.
    MalformedRange,
    /// The file of a segment is not there.
    MissingSegment(u32),
    /// The file of a segment does not hold a segment.
    CorruptSegment(u32),
    /// The commits of an operation could not be indexed: the store lacks
    /// this commit, which the operation refers to.
    IndexCommits { op_id: Vec<u8>, missing: CommitId },
}

/// An error as plain values.
pub enum IndexErrorView {
    NotFound(Seq<u8>),
    MalformedRange,
    MissingSegment(u32),
    CorruptSegment(u32),
    IndexCommits { op_id: Seq<u8>, missing: Seq<u8> },
}

impl View for IndexError {
    type V = IndexErrorView;

    open spec fn view(&self) -> IndexErrorView {
        match self {
            IndexError::NotFound(id) => IndexErrorView::NotFound(id@),
            IndexError::MalformedRange => IndexErrorView::MalformedRange,
            IndexError::MissingSegment(id) => IndexErrorView::MissingSegment(*id),
            IndexError::CorruptSegment(id) => IndexErrorView::CorruptSegment(*id),
            IndexError::IndexCommits { op_id, missing } => IndexErrorView::IndexCommits {
                op_id: op_id@,
                missing: missing@,
            },
        }
    }
}

} // verus!
