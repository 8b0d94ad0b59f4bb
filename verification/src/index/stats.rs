//! Figures about an index: how many commits and merges it holds, how deep
//! the graph is, and how the commits are spread over the levels.

use vstd::prelude::*;
use crate::index::chain::{lemma_chain_prefix_step, Segment, SegmentChain};
use crate::index::graph::EntryView;
use crate::index::mutable::ReadonlyIndex;

verus! {

/// The number of merges among the first `upto` entries: the entries with
/// more than one parent.
pub open spec fn count_merges(g: Seq<EntryView>, upto: int) -> int
    decreases upto,
{
    if upto <= 0 {
        0
    } else {
        count_merges(g, upto - 1) + if g[upto - 1].parents.len() > 1 {
            1int
        } else {
            0int
        }
    }
}

/// The largest generation number among the first `upto` entries, and zero
/// where there is none.
pub open spec fn max_generation_upto(g: Seq<EntryView>, upto: int) -> int
    decreases upto,
{
    if upto <= 0 {
        0
    } else {
        let before = max_generation_upto(g, upto - 1);
        if g[upto - 1].generation > before {
            g[upto - 1].generation as int
        } else {
            before
        }
    }
}

/// The figures of one level.
#[derive(Clone, Copy, Debug, PartialEq, Eq, Structural)]
pub struct LevelStats {
    pub num_commits: u32,
    pub num_merges: u32,
}

/// The figures of the changed paths of one level.
#[derive(Clone, Copy, Debug, PartialEq, Eq, Structural)]
pub struct ChangedPathLevelStats {
    /// The number of commits the level covers.
    pub num_commits: u32,
    /// The number of changed paths of those commits, counted once for each
    /// commit that changes the path.
    pub num_changed_paths: u32,
    /// The number of distinct paths among them.
    pub num_paths: u32,
}

/// The figures of an index.
#[derive(Debug)]
pub struct IndexStats {
    pub num_commits: u32,
    pub num_merges: u32,
    pub max_generation_number: u32,
    /// The levels of the commit index, oldest first.
    pub commit_levels: Vec<LevelStats>,
    /// The positions whose changed paths are indexed, from the first to
    /// one past the last; nothing where changed paths are not indexed.
    pub changed_path_commits_range: Option<(u32, u32)>,
    /// The levels of the changed-path index, oldest first.
    pub changed_path_levels: Vec<ChangedPathLevelStats>,
}

/// The figures of the level `k` of a chain.
pub open spec fn level_stats(segments: Seq<Segment>, k: int) -> LevelStats {
    LevelStats {
        num_commits: segments[k].entries.len() as u32,
        num_merges: count_merges(segments[k]@, segments[k].entries.len() as int) as u32,
    }
}

/// The figures of the levels of a chain, oldest first.
pub open spec fn levels_stats(segments: Seq<Segment>) -> Seq<LevelStats> {
    Seq::new(segments.len(), |k: int| level_stats(segments, k))
}

impl SegmentChain {
    /// The figures of the commits of the chain.
    pub fn commit_stats(&self) -> (stats: (u32, u32, u32))
        requires
            self.wf(),
        ensures
            stats.0 == self@.len(),
            stats.1 == count_merges(self@, self@.len() as int),
            stats.2 == max_generation_upto(self@, self@.len() as int),
    {
        let ghost g = self@;
        let n: u32 = self.num_commits();
        let mut num_merges: u32 = 0;
        let mut max_generation: u32 = 0;
        let mut p: u32 = 0;
        while p < n
            invariant
                self.wf(),
                g == self@,
                n == g.len(),
                p <= n,
                num_merges == count_merges(g, p as int),
                num_merges <= p,
                max_generation == max_generation_upto(g, p as int),
            decreases n - p,
        {
            let entry = self.entry(p);
            if entry.parent_positions.len() > 1 {
                num_merges += 1;
            }
            if entry.generation_number > max_generation {
                max_generation = entry.generation_number;
            }
            p += 1;
        }
        (n, num_merges, max_generation)
    }

    /// The figures of the levels of the chain, oldest first.
    pub fn level_stats(&self) -> (levels: Vec<LevelStats>)
        requires
            self.wf(),
        ensures
            levels@ == levels_stats(self.segments@),
    {
        let mut levels: Vec<LevelStats> = Vec::new();
        let mut k: usize = 0;
        while k < self.segments.len()
            invariant
                self.wf(),
                k <= self.segments.len(),
                levels.len() == k,
                forall|j: int| 0 <= j < k ==> #[trigger] levels@[j] == level_stats(self.segments@, j),
            decreases self.segments.len() - k,
        {
            let segment = &self.segments[k];
            proof {
                lemma_chain_prefix_step(self.segments@, k as int);
                crate::index::chain::lemma_chain_prefix_monotone(
                    self.segments@,
                    k as int + 1,
                    self.segments.len() as int,
                );
                assert(self.segments@.subrange(0, self.segments.len() as int) =~= self.segments@);
            }
            let ghost run = segment@;
            let len: usize = segment.entries.len();
            let mut merges: u32 = 0;
            let mut i: usize = 0;
            while i < len
                invariant
                    len == segment.entries.len(),
                    len <= u32::MAX,
                    run == segment@,
                    i <= len,
                    merges == count_merges(run, i as int),
                    merges <= i,
                decreases len - i,
            {
                assert(run[i as int] == segment.entries[i as int]@);
                if segment.entries[i].parent_positions.len() > 1 {
                    merges += 1;
                }
                i += 1;
            }
            levels.push(LevelStats { num_commits: len as u32, num_merges: merges });
            k += 1;
        }
        assert(levels@ =~= levels_stats(self.segments@));
        levels
    }
}

} // verus!
