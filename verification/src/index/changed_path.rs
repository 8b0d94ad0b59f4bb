//! The changed-path index: for the commits from some position on, the paths
//! that each commit changes.
//!
//! The index covers a range of positions. It may be switched on when
//! commits exist already, and then covers only the commits added after.
//! Whoever asks about a position outside the range gets no answer and has
//! to find the changed paths in another way. The paths are kept in levels,
//! which are merged when a transaction commits.

use vstd::prelude::*;
use crate::index::levels::{
    lemma_skew_balanced, lemma_skew_drop_last, levels_skew_balanced, skew_committed_levels,
    skew_levels,
};
use crate::index::stats::ChangedPathLevelStats;
use crate::text::string_views;

verus! {

/// One level of the changed-path index: the changed paths of a run of
/// commits.
#[derive(Debug)]
pub struct ChangedPathSegment {
    pub commits: Vec<Vec<String>>,
}

/// The changed paths of each commit of a run, as plain values.
pub open spec fn commit_paths(commits: Seq<Vec<String>>) -> Seq<Seq<Seq<char>>> {
    commits.map_values(|paths: Vec<String>| string_views(paths@))
}

impl View for ChangedPathSegment {
    type V = Seq<Seq<Seq<char>>>;

    open spec fn view(&self) -> Seq<Seq<Seq<char>>> {
        commit_paths(self.commits@)
    }
}

/// The changed paths of the commits of a run of segments, oldest first.
pub open spec fn all_commit_paths(segments: Seq<ChangedPathSegment>) -> Seq<Seq<Seq<char>>>
    decreases segments.len(),
{
    if segments.len() == 0 {
        Seq::empty()
    } else {
        all_commit_paths(segments.drop_last()) + segments.last()@
    }
}

/// The number of commits in each segment, oldest first.
pub open spec fn path_level_sizes(segments: Seq<ChangedPathSegment>) -> Seq<int> {
    Seq::new(segments.len(), |k: int| segments[k].commits.len() as int)
}

/// A copy of a list of strings.
pub fn clone_paths(paths: &Vec<String>) -> (copy: Vec<String>)
    ensures
        copy@ == paths@,
{
    let mut copy: Vec<String> = Vec::new();
    let mut i: usize = 0;
    while i < paths.len()
        invariant
            i <= paths.len(),
            copy@ == paths@.subrange(0, i as int),
        decreases paths.len() - i,
    {
        copy.push(paths[i].clone());
        assert(paths@.subrange(0, i + 1) == paths@.subrange(0, i as int).push(paths@[i as int]));
        i += 1;
    }
    assert(paths@.subrange(0, paths.len() as int) == paths@);
    copy
}

impl Clone for ChangedPathSegment {
    fn clone(&self) -> (copy: Self)
        ensures
            copy@ == self@,
    {
        let mut commits: Vec<Vec<String>> = Vec::new();
        let mut i: usize = 0;
        while i < self.commits.len()
            invariant
                i <= self.commits.len(),
                commits.len() == i,
                forall|j: int| 0 <= j < i ==> (#[trigger] commits@[j])@ == self.commits@[j]@,
            decreases self.commits.len() - i,
        {
            commits.push(clone_paths(&self.commits[i]));
            i += 1;
        }
        let copy = ChangedPathSegment { commits };
        assert(copy@ =~= self@);
        copy
    }
}

impl ChangedPathSegment {
    /// The segment that holds the commits of `self` followed by those of
    /// `later`.
    pub fn merged_with(self, later: ChangedPathSegment) -> (merged: ChangedPathSegment)
        ensures
            merged@ == self@ + later@,
            merged.commits.len() == self.commits.len() + later.commits.len(),
    {
        let mut merged = self;
        let mut rest = later;
        merged.commits.append(&mut rest.commits);
        assert(merged@ =~= self@ + later@);
        merged
    }
}

/// The paths of the commits, all in one sequence.
pub open spec fn flat_paths(commits: Seq<Seq<Seq<char>>>) -> Seq<Seq<char>>
    decreases commits.len(),
{
    if commits.len() == 0 {
        Seq::empty()
    } else {
        flat_paths(commits.drop_last()) + commits.last()
    }
}

/// The number of distinct paths among the first `upto` of the paths.
pub open spec fn count_distinct(paths: Seq<Seq<char>>, upto: int) -> int
    decreases upto,
{
    if upto <= 0 {
        0
    } else {
        count_distinct(paths, upto - 1) + if paths.subrange(0, upto - 1).contains(
            paths[upto - 1],
        ) {
            0int
        } else {
            1int
        }
    }
}

/// A count held to the range of the type it is reported in.
pub open spec fn capped(count: int) -> u32 {
    if count >= u32::MAX {
        u32::MAX
    } else {
        count as u32
    }
}

/// The figures of a level: its commits, their changed paths, and the
/// distinct paths among them. A figure beyond the range of its type is
/// reported as the largest value of the type.
pub open spec fn path_level_stats(segment: ChangedPathSegment) -> ChangedPathLevelStats {
    let paths = flat_paths(segment@);
    ChangedPathLevelStats {
        num_commits: capped(segment.commits.len() as int),
        num_changed_paths: capped(paths.len() as int),
        num_paths: capped(count_distinct(paths, paths.len() as int)),
    }
}

/// The distinct paths among the first of a sequence are at most as many as
/// those paths.
pub proof fn lemma_count_distinct_bound(paths: Seq<Seq<char>>, upto: int)
    requires
        0 <= upto,
    ensures
        0 <= count_distinct(paths, upto) <= upto,
    decreases upto,
{
    if upto > 0 {
        lemma_count_distinct_bound(paths, upto - 1);
    }
}

/// One more than a count, held to the range of its type.
fn capped_increment(count: u32) -> (next: u32)
    ensures
        next == if count == u32::MAX {
            u32::MAX
        } else {
            (count + 1) as u32
        },
{
    if count == u32::MAX {
        count
    } else {
        count + 1
    }
}

impl ChangedPathSegment {
    /// The figures of the level.
    pub fn stats(&self) -> (stats: ChangedPathLevelStats)
        ensures
            stats == path_level_stats(*self),
    {
        let ghost runs = self@;
        let mut all: Vec<&String> = Vec::new();
        let mut c: usize = 0;
        while c < self.commits.len()
            invariant
                runs == self@,
                c <= self.commits.len(),
                all@.map_values(|s: &String| s@) == flat_paths(runs.subrange(0, c as int)),
            decreases self.commits.len() - c,
        {
            let paths = &self.commits[c];
            let ghost start = all@.map_values(|s: &String| s@);
            proof {
                let upto = runs.subrange(0, c + 1);
                assert(upto.drop_last() =~= runs.subrange(0, c as int));
                assert(upto.last() == string_views(paths@));
            }
            let mut i: usize = 0;
            while i < paths.len()
                invariant
                    i <= paths.len(),
                    all@.map_values(|s: &String| s@) == start + string_views(paths@).subrange(
                        0,
                        i as int,
                    ),
                decreases paths.len() - i,
            {
                let ghost before = all@.map_values(|s: &String| s@);
                all.push(&paths[i]);
                assert(all@.map_values(|s: &String| s@) =~= before.push(paths@[i as int]@));
                assert(all@.map_values(|s: &String| s@) =~= start + string_views(paths@).subrange(
                    0,
                    i + 1,
                ));
                i += 1;
            }
            assert(string_views(paths@).subrange(0, paths.len() as int) =~= string_views(paths@));
            c += 1;
        }
        assert(runs.subrange(0, self.commits.len() as int) =~= runs);
        let ghost paths = flat_paths(runs);
        let mut num_commits: u32 = 0;
        let mut k: usize = 0;
        while k < self.commits.len()
            invariant
                k <= self.commits.len(),
                num_commits == capped(k as int),
            decreases self.commits.len() - k,
        {
            num_commits = capped_increment(num_commits);
            k += 1;
        }
        let mut num_changed_paths: u32 = 0;
        let mut num_paths: u32 = 0;
        let mut i: usize = 0;
        while i < all.len()
            invariant
                paths == all@.map_values(|s: &String| s@),
                i <= all.len(),
                num_changed_paths == capped(i as int),
                num_paths == capped(count_distinct(paths, i as int)),
            decreases all.len() - i,
        {
            let mut seen: bool = false;
            let mut j: usize = 0;
            while j < i && !seen
                invariant
                    paths == all@.map_values(|s: &String| s@),
                    i < all.len(),
                    j <= i,
                    seen ==> paths.subrange(0, i as int).contains(paths[i as int]),
                    !seen ==> forall|m: int| 0 <= m < j ==> #[trigger] paths[m] != paths[i as int],
                decreases
                        i - j,
                        if seen {
                            0int
                        } else {
                            1int
                        },
            {
                assert(paths[j as int] == all@[j as int]@);
                assert(paths[i as int] == all@[i as int]@);
                if *all[j] == *all[i] {
                    seen = true;
                    assert(paths.subrange(0, i as int)[j as int] == paths[i as int]);
                } else {
                    j += 1;
                }
            }
            proof {
                lemma_count_distinct_bound(paths, i as int);
                if !seen {
                    if paths.subrange(0, i as int).contains(paths[i as int]) {
                        let m = choose|m: int|
                            0 <= m < i && paths.subrange(0, i as int)[m] == paths[i as int];
                        assert(paths[m] == paths[i as int]);
                    }
                }
            }
            num_changed_paths = capped_increment(num_changed_paths);
            if !seen {
                num_paths = capped_increment(num_paths);
            }
            i += 1;
        }
        ChangedPathLevelStats { num_commits, num_changed_paths, num_paths }
    }
}

/// The changed-path index.
#[derive(Debug)]
pub struct ChangedPathIndex {
    /// The position of the first commit that the index covers.
    pub start: u32,
    /// The levels, oldest first.
    pub segments: Vec<ChangedPathSegment>,
}

impl View for ChangedPathIndex {
    type V = Seq<Seq<Seq<char>>>;

    open spec fn view(&self) -> Seq<Seq<Seq<char>>> {
        all_commit_paths(self.segments@)
    }
}

/// The levels of the changed-path index hold every covered commit once:
/// their sizes add up to the number of covered commits.
pub proof fn law_path_levels_hold_every_commit(segments: Seq<ChangedPathSegment>)
    ensures
        all_commit_paths(segments).len() == crate::index::levels::total_size(
            path_level_sizes(segments),
        ),
    decreases segments.len(),
{
    if segments.len() > 0 {
        law_path_levels_hold_every_commit(segments.drop_last());
        assert(path_level_sizes(segments).drop_last() =~= path_level_sizes(segments.drop_last()));
    }
}

impl ChangedPathIndex {
    /// The position one past the last commit that the index covers.
    pub open spec fn end(&self) -> int {
        self.start + self@.len()
    }

    /// The number of commits in each level, oldest first.
    pub open spec fn levels(&self) -> Seq<int> {
        path_level_sizes(self.segments@)
    }

    /// The levels are balanced in the way of a skew counter, and the
    /// covered range ends within the range of positions.
    pub open spec fn wf(&self) -> bool {
        &&& levels_skew_balanced(self.levels())
        &&& self.end() <= u32::MAX
    }

    /// As `wf`, but the last level is the open level of a transaction and
    /// may be empty.
    pub open spec fn wf_open(&self) -> bool {
        &&& self.segments.len() >= 1
        &&& levels_skew_balanced(self.levels().drop_last())
        &&& self.end() <= u32::MAX
    }

    /// The index that covers the commits from `start` on, of which there is
    /// none yet.
    pub fn new(start: u32) -> (index: ChangedPathIndex)
        ensures
            index.wf(),
            index.start == start,
            index@.len() == 0,
            index.levels().len() == 0,
    {
        ChangedPathIndex { start, segments: Vec::new() }
    }

    /// The number of commits that the index covers.
    pub fn num_covered(&self) -> (count: u32)
        requires
            self.end() <= u32::MAX,
        ensures
            count == self@.len(),
    {
        let mut count: u32 = 0;
        let mut k: usize = 0;
        while k < self.segments.len()
            invariant
                self.end() <= u32::MAX,
                k <= self.segments.len(),
                count == all_commit_paths(self.segments@.subrange(0, k as int)).len(),
                count <= self@.len(),
            decreases self.segments.len() - k,
        {
            proof {
                let upto = self.segments@.subrange(0, k + 1);
                assert(upto.drop_last() =~= self.segments@.subrange(0, k as int));
                assert(upto.last() == self.segments@[k as int]);
                lemma_paths_prefix(self.segments@, k + 1);
            }
            count = count + self.segments[k].commits.len() as u32;
            k += 1;
        }
        assert(self.segments@.subrange(0, self.segments.len() as int) =~= self.segments@);
        count
    }

    /// The covered range: the first position and one past the last.
    pub fn commits_range(&self) -> (range: (u32, u32))
        requires
            self.end() <= u32::MAX,
        ensures
            range.0 == self.start,
            range.1 == self.end(),
    {
        (self.start, self.start + self.num_covered())
    }

    /// The changed paths of the commit at a position, or nothing where the
    /// index does not cover the position.
    pub fn changed_paths(&self, pos: u32) -> (paths: Option<&Vec<String>>)
        requires
            self.end() <= u32::MAX,
        ensures
            paths is Some <==> self.start <= pos < self.end(),
            paths is Some ==> string_views(paths->0@) == self@[pos - self.start],
    {
        if pos < self.start {
            return None;
        }
        let mut offset: u32 = pos - self.start;
        let ghost wanted = offset as int;
        let mut k: usize = 0;
        while k < self.segments.len()
            invariant
                self.end() <= u32::MAX,
                k <= self.segments.len(),
                wanted == pos - self.start,
                offset + all_commit_paths(self.segments@.subrange(0, k as int)).len() == wanted,
            decreases self.segments.len() - k,
        {
            let segment = &self.segments[k];
            proof {
                let upto = self.segments@.subrange(0, k + 1);
                assert(upto.drop_last() =~= self.segments@.subrange(0, k as int));
                assert(upto.last() == *segment);
                lemma_paths_prefix(self.segments@, k + 1);
            }
            if (offset as usize) < segment.commits.len() {
                proof {
                    lemma_paths_index(self.segments@, k as int, offset as int);
                }
                return Some(&segment.commits[offset as usize]);
            }
            offset = offset - segment.commits.len() as u32;
            k += 1;
        }
        assert(self.segments@.subrange(0, self.segments.len() as int) =~= self.segments@);
        None
    }

    /// The figures of the levels, oldest first.
    pub fn level_stats(&self) -> (levels: Vec<ChangedPathLevelStats>)
        ensures
            levels.len() == self.segments.len(),
            forall|k: int|
                0 <= k < self.segments.len() ==> #[trigger] levels@[k] == path_level_stats(
                    self.segments@[k],
                ),
    {
        let mut levels: Vec<ChangedPathLevelStats> = Vec::new();
        let mut k: usize = 0;
        while k < self.segments.len()
            invariant
                k <= self.segments.len(),
                levels.len() == k,
                forall|j: int|
                    0 <= j < k ==> #[trigger] levels@[j] == path_level_stats(self.segments@[j]),
            decreases self.segments.len() - k,
        {
            levels.push(self.segments[k].stats());
            k += 1;
        }
        levels
    }

    /// Opens a transaction: a copy of the index with an open level at its
    /// end.
    pub fn start_transaction(&self) -> (tx: ChangedPathIndex)
        requires
            self.wf(),
        ensures
            tx.wf_open(),
            tx.start == self.start,
            tx@ == self@,
            tx.levels().drop_last() == self.levels(),
            tx.levels().last() == 0,
    {
        let mut segments: Vec<ChangedPathSegment> = Vec::new();
        let mut k: usize = 0;
        while k < self.segments.len()
            invariant
                k <= self.segments.len(),
                segments.len() == k,
                forall|j: int| 0 <= j < k ==> (#[trigger] segments@[j])@ == self.segments@[j]@,
            decreases self.segments.len() - k,
        {
            segments.push(self.segments[k].clone());
            k += 1;
        }
        let ghost copied = segments@;
        segments.push(ChangedPathSegment { commits: Vec::new() });
        let tx = ChangedPathIndex { start: self.start, segments };
        proof {
            lemma_paths_same(self.segments@, copied);
            assert(tx.segments@.drop_last() =~= copied);
            assert(tx.segments@.last()@ =~= Seq::<Seq<Seq<char>>>::empty());
            assert(tx@ =~= self@);
            assert forall|j: int| 0 <= j < copied.len() implies path_level_sizes(copied)[j]
                == self.levels()[j] by {
                assert(copied[j]@.len() == self.segments@[j]@.len());
            }
            assert(tx.levels().drop_last() =~= self.levels());
        }
        tx
    }

    /// Records the changed paths of one more commit in the open level.
    pub fn record(&mut self, paths: Vec<String>)
        requires
            old(self).wf_open(),
            old(self).end() < u32::MAX,
        ensures
            final(self).wf_open(),
            final(self).start == old(self).start,
            final(self)@ == old(self)@.push(string_views(paths@)),
            final(self).levels().drop_last() == old(self).levels().drop_last(),
            final(self).levels().last() == old(self).levels().last() + 1,
    {
        let ghost before = self.segments@;
        let mut open = self.segments.pop().unwrap();
        let ghost open_before = open@;
        open.commits.push(paths);
        self.segments.push(open);
        proof {
            let after = self.segments@;
            assert(after.drop_last() =~= before.drop_last());
            assert(after.last()@ =~= open_before.push(string_views(paths@)));
            assert(self@ =~= old(self)@.push(string_views(paths@)));
            assert(self.levels().drop_last() =~= old(self).levels().drop_last());
        }
    }

    /// Ends the transaction: the open level becomes a level of its own or
    /// is merged with the levels below it, in the way of a skew counter.
    pub fn commit(self) -> (index: ChangedPathIndex)
        requires
            self.wf_open(),
        ensures
            index.wf(),
            index.start == self.start,
            index@ == self@,
            index.levels() == skew_committed_levels(
                self.levels().drop_last(),
                self.levels().last(),
            ),
    {
        let ghost all = self@;
        let ghost target = skew_committed_levels(self.levels().drop_last(), self.levels().last());
        let start = self.start;
        let mut segments: Vec<ChangedPathSegment> = self.segments;
        let ghost full = segments@;
        let mut open: ChangedPathSegment = segments.pop().unwrap();
        assert(segments@ == full.drop_last());
        assert(path_level_sizes(segments@) =~= path_level_sizes(full).drop_last());
        if open.commits.len() == 0 {
            let index = ChangedPathIndex { start, segments };
            proof {
                assert(open@ =~= Seq::<Seq<Seq<char>>>::empty());
                assert(index@ =~= all);
            }
            return index;
        }
        assert(segments@.push(open) =~= full);
        loop
            invariant
                all_commit_paths(segments@.push(open)) == all,
                levels_skew_balanced(path_level_sizes(segments@)),
                open.commits.len() >= 1,
                skew_levels(path_level_sizes(segments@), open.commits.len() as int) == target,
            ensures
                all_commit_paths(segments@.push(open)) == all,
                path_level_sizes(segments@).push(open.commits.len() as int) == target,
            decreases segments.len(),
        {
            let ghost sizes = path_level_sizes(segments@);
            if segments.len() == 0 {
                assert(sizes.push(open.commits.len() as int) =~= seq![open.commits.len() as int]);
                break;
            }
            let newest: usize = segments[segments.len() - 1].commits.len();
            assert(sizes.last() == newest);
            let settled: bool = if segments.len() < 2 {
                true
            } else {
                let before: usize = segments[segments.len() - 2].commits.len();
                assert(sizes[sizes.len() - 2] == before);
                newest < before && before - newest > newest
            };
            if newest >= open.commits.len() && settled {
                break;
            }
            let ghost before_merge = segments@.push(open);
            let below: ChangedPathSegment = segments.pop().unwrap();
            open = below.merged_with(open);
            proof {
                assert(before_merge.drop_last().drop_last() =~= segments@);
                lemma_paths_merge_last_two(before_merge, open);
                assert(path_level_sizes(segments@) =~= sizes.drop_last());
                lemma_skew_drop_last(sizes);
            }
        }
        let ghost sizes = path_level_sizes(segments@);
        let ghost added = open.commits.len() as int;
        segments.push(open);
        let index = ChangedPathIndex { start, segments };
        proof {
            assert(index.levels() =~= sizes.push(added));
            lemma_skew_balanced(self.levels().drop_last(), self.levels().last());
        }
        index
    }
}

/// The paths of the first `upto` segments are a prefix of the paths of all.
pub proof fn lemma_paths_prefix(segments: Seq<ChangedPathSegment>, upto: int)
    requires
        0 <= upto <= segments.len(),
    ensures
        all_commit_paths(segments.subrange(0, upto)).len() <= all_commit_paths(segments).len(),
    decreases segments.len() - upto,
{
    if upto < segments.len() {
        let next = segments.subrange(0, upto + 1);
        assert(next.drop_last() =~= segments.subrange(0, upto));
        lemma_paths_prefix(segments, upto + 1);
    } else {
        assert(segments.subrange(0, upto) =~= segments);
    }
}

/// Where the paths of the commits of segment `k` stand among all.
pub proof fn lemma_paths_index(segments: Seq<ChangedPathSegment>, k: int, j: int)
    requires
        0 <= k < segments.len(),
        0 <= j < segments[k].commits.len(),
    ensures
        all_commit_paths(segments.subrange(0, k)).len() + j < all_commit_paths(segments).len(),
        all_commit_paths(segments)[all_commit_paths(segments.subrange(0, k)).len() + j]
            == string_views(segments[k].commits[j]@),
    decreases segments.len(),
{
    let rest = segments.drop_last();
    if k == segments.len() - 1 {
        assert(segments.subrange(0, k) =~= rest);
    } else {
        assert(rest.subrange(0, k) =~= segments.subrange(0, k));
        assert(rest[k] == segments[k]);
        lemma_paths_index(rest, k, j);
    }
}

/// The paths of a chain depend only on what its segments hold.
pub proof fn lemma_paths_same(first: Seq<ChangedPathSegment>, second: Seq<ChangedPathSegment>)
    requires
        first.len() == second.len(),
        forall|k: int| 0 <= k < first.len() ==> (#[trigger] second[k])@ == first[k]@,
    ensures
        all_commit_paths(first) == all_commit_paths(second),
    decreases first.len(),
{
    if first.len() > 0 {
        assert(second.last()@ == first.last()@);
        assert forall|k: int| 0 <= k < first.drop_last().len() implies (
        #[trigger] second.drop_last()[k])@ == first.drop_last()[k]@ by {
            assert(second[k]@ == first[k]@);
        }
        lemma_paths_same(first.drop_last(), second.drop_last());
    }
}

/// Replacing the last two segments by one that holds the commits of both
/// changes nothing of the paths.
pub proof fn lemma_paths_merge_last_two(before: Seq<ChangedPathSegment>, merged: ChangedPathSegment)
    requires
        before.len() >= 2,
        merged@ == before[before.len() - 2]@ + before[before.len() - 1]@,
    ensures
        all_commit_paths(before.drop_last().drop_last().push(merged)) == all_commit_paths(before),
{
    let base = before.drop_last().drop_last();
    let after = base.push(merged);
    assert(after.drop_last() == base);
    assert(after.last() == merged);
    assert(before.drop_last().last() == before[before.len() - 2]);
    assert(before.drop_last().drop_last() == base);
    assert(all_commit_paths(before.drop_last()) == all_commit_paths(base) + before[before.len()
        - 2]@);
    assert(all_commit_paths(before) == all_commit_paths(before.drop_last()) + before[before.len()
        - 1]@);
    assert(all_commit_paths(after) =~= all_commit_paths(before));
}

} // verus!
