//! Testing an index that was put together by hand.
//!
//! The functions that build an index keep it well formed. An index that
//! comes from elsewhere is tested with `check` before it is handed to a
//! function that relies on it.

use vstd::prelude::*;
use crate::index::chain::{
    chain_entries, lemma_chain_prefix_monotone, lemma_chain_prefix_step, offsets_agree,
    SegmentChain,
};
use crate::index::changed_path::{law_path_levels_hold_every_commit, ChangedPathIndex};
use crate::index::mutable::ReadonlyIndex;
use crate::index::path_store::{check_path_levels, level_lens, level_views};

verus! {

impl SegmentChain {
    /// Whether the chain is laid out well: it has a segment, each segment
    /// records the number of entries before it, and the entries can be
    /// numbered.
    pub fn check_layout(&self) -> (ok: bool)
        ensures
            ok == self.layout_wf(),
    {
        if self.segments.len() == 0 {
            return false;
        }
        let ghost segments = self.segments@;
        let mut total: u64 = 0;
        let mut k: usize = 0;
        assert(chain_entries(segments.subrange(0, 0)) =~= Seq::empty());
        while k < self.segments.len()
            invariant
                segments == self.segments@,
                k <= self.segments.len(),
                total == chain_entries(segments.subrange(0, k as int)).len(),
                total <= u32::MAX,
                forall|j: int|
                    0 <= j < k ==> (#[trigger] segments[j]).num_parent_commits == chain_entries(
                        segments.subrange(0, j),
                    ).len(),
            decreases self.segments.len() - k,
        {
            let segment = &self.segments[k];
            proof {
                lemma_chain_prefix_step(segments, k as int);
                lemma_chain_prefix_monotone(segments, k + 1, segments.len() as int);
                assert(segments.subrange(0, segments.len() as int) =~= segments);
            }
            if segment.num_parent_commits as u64 != total {
                assert(segments[k as int].num_parent_commits != chain_entries(
                    segments.subrange(0, k as int),
                ).len());
                return false;
            }
            let size: usize = segment.entries.len();
            assert(segments[k as int]@.len() == size);
            if size > u32::MAX as usize || size as u64 > u32::MAX as u64 - total {
                return false;
            }
            total = total + size as u64;
            k += 1;
        }
        assert(segments.subrange(0, segments.len() as int) =~= segments);
        true
    }
}

/// Whether the changed-path index is well formed.
fn check_changed_paths(paths: &ChangedPathIndex) -> (ok: bool)
    ensures
        ok == paths.wf(),
{
    proof {
        assert(paths.levels() =~= level_lens(level_views(paths.segments@))) by {
            assert forall|j: int| 0 <= j < paths.segments.len() implies paths.levels()[j]
                == level_lens(level_views(paths.segments@))[j] by {
                assert(level_views(paths.segments@)[j] == paths.segments@[j]@);
            }
        }
        law_path_levels_hold_every_commit(paths.segments@);
    }
    check_path_levels(paths.start, &paths.segments)
}

impl ReadonlyIndex {
    /// Whether the index is well formed.
    pub fn check(&self) -> (ok: bool)
        ensures
            ok == self.wf(),
    {
        if !self.chain.check_layout() {
            return false;
        }
        if !self.chain.check_graph() || !self.chain.check_levels() {
            return false;
        }
        match &self.changed_paths {
            None => true,
            Some(paths) => {
                if !check_changed_paths(paths) {
                    return false;
                }
                paths.commits_range().1 == self.chain.num_commits()
            },
        }
    }
}

} // verus!
