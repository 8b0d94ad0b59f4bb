//! Read-only snapshots of the index and the overlay a transaction writes to.
//!
//! A transaction starts from a snapshot, adds commits to an open segment at
//! the end of the chain, and is consumed when it commits: the open segment
//! becomes a level of its own or is merged into the levels below it, and the
//! result is a new snapshot. The graph a snapshot holds never changes.

use vstd::prelude::*;
use crate::ids::{ChangeId, CommitId};
use crate::index::ancestry::is_ancestor_id;
use crate::index::changed_path::{path_level_stats, ChangedPathIndex};
use crate::index::stats::{count_merges, levels_stats, max_generation_upto, IndexStats};
use crate::text::string_views;
use crate::index::chain::{
    chain_entries, lemma_chain_len, lemma_merge_last_two, level_sizes,
    offsets_agree, Segment, SegmentChain,
};
use crate::index::graph::{
    all_indexed, entry_views, graph_wf, has_commit, lemma_generation_at_most_position,
    lemma_with_commit_wf, max_generation, new_entry, parents_precede, position_of, positions_of,
    with_commit, EntryView, IndexEntry,
};
use crate::index::levels::{
    committed_levels, lemma_balanced_drop_last, lemma_squashed_balanced, levels_balanced, squashed_levels,
};

verus! {

/// The views of a sequence of commit ids, in the same order.
pub open spec fn id_views(ids: Seq<CommitId>) -> Seq<Seq<u8>> {
    ids.map_values(|id: CommitId| id@)
}

/// The entry of a root commit.
pub open spec fn root_entry(commit_id: Seq<u8>, change_id: Seq<u8>) -> EntryView {
    EntryView { commit_id, change_id, generation: 0, parents: Seq::empty() }
}

/// An immutable snapshot of the index.
#[derive(Debug)]
pub struct ReadonlyIndex {
    pub chain: SegmentChain,
    /// The changed-path index, where it is switched on.
    pub changed_paths: Option<ChangedPathIndex>,
}

impl View for ReadonlyIndex {
    type V = Seq<EntryView>;

    open spec fn view(&self) -> Seq<EntryView> {
        self.chain@
    }
}

/// The index of one transaction: a snapshot and, in the last segment of the
/// chain, the entries added since.
#[derive(Debug)]
pub struct MutableIndex {
    pub chain: SegmentChain,
    /// The changed-path index with its open level, where it is switched on.
    pub changed_paths: Option<ChangedPathIndex>,
}

impl View for MutableIndex {
    type V = Seq<EntryView>;

    open spec fn view(&self) -> Seq<EntryView> {
        self.chain@
    }
}

/// The changed paths that an index holds, commit by commit, where it holds
/// any.
pub open spec fn paths_of(changed_paths: Option<ChangedPathIndex>) -> Option<Seq<Seq<Seq<char>>>> {
    match changed_paths {
        Some(index) => Some(index@),
        None => None,
    }
}

/// The position from which on an index holds the changed paths, where it
/// holds any.
pub open spec fn paths_start_of(changed_paths: Option<ChangedPathIndex>) -> Option<u32> {
    match changed_paths {
        Some(index) => Some(index.start),
        None => None,
    }
}

impl ReadonlyIndex {
    /// The chain is well formed and its levels are balanced. Where the
    /// changed-path index is switched on, it is well formed and covers the
    /// commits up to the last.
    pub open spec fn wf(&self) -> bool {
        &&& self.chain.wf()
        &&& levels_balanced(self.levels())
        &&& match self.changed_paths {
            Some(index) => index.wf() && index.end() == self@.len(),
            None => true,
        }
    }

    /// The changed paths of the covered commits, where the changed-path
    /// index is switched on.
    pub open spec fn changed_path_view(&self) -> Option<Seq<Seq<Seq<char>>>> {
        paths_of(self.changed_paths)
    }

    /// The first covered position, where the changed-path index is switched
    /// on.
    pub open spec fn changed_path_start(&self) -> Option<u32> {
        paths_start_of(self.changed_paths)
    }

    /// The number of commits in each level, oldest first.
    pub open spec fn levels(&self) -> Seq<int> {
        level_sizes(self.chain.segments@)
    }

    /// The index that holds the root commit alone.
    pub fn new(root_commit_id: CommitId, root_change_id: ChangeId) -> (index: ReadonlyIndex)
        ensures
            index.wf(),
            index@ == seq![root_entry(root_commit_id@, root_change_id@)],
            index.levels() == seq![1int],
            index.changed_paths is None,
    {
        let root = IndexEntry {
            commit_id: root_commit_id,
            change_id: root_change_id,
            generation_number: 0,
            parent_positions: Vec::new(),
        };
        let ghost root_view = root@;
        let mut entries: Vec<IndexEntry> = Vec::new();
        entries.push(root);
        let mut segments: Vec<Segment> = Vec::new();
        segments.push(Segment { num_parent_commits: 0, entries });
        let index = ReadonlyIndex { chain: SegmentChain { segments }, changed_paths: None };
        proof {
            let g = index@;
            let segs = index.chain.segments@;
            assert(segs.drop_last() =~= Seq::<Segment>::empty());
            assert(chain_entries(segs.drop_last()) =~= Seq::<EntryView>::empty());
            assert(root_view.parents =~= Seq::<int>::empty());
            assert(g =~= seq![root_entry(root_commit_id@, root_change_id@)]);
            assert(segs.subrange(0, 0) =~= Seq::<Segment>::empty());
            assert(parents_precede(g, 0));
            assert(max_generation(g, g[0].parents) == -1);
            assert(index.levels() =~= seq![1int]);
        }
        index
    }

    /// The number of indexed commits, the root included.
    pub fn num_commits(&self) -> (n: u32)
        requires
            self.wf(),
        ensures
            n == self@.len(),
            n >= 1,
    {
        self.chain.num_commits()
    }

    /// Whether the commit is indexed.
    pub fn has_id(&self, id: &CommitId) -> (found: bool)
        requires
            self.wf(),
        ensures
            found == has_commit(self@, id@),
    {
        self.chain.has_id(id)
    }

    /// The generation number of the commit, or nothing where it is not
    /// indexed.
    pub fn generation_number(&self, id: &CommitId) -> (generation: Option<u32>)
        requires
            self.wf(),
        ensures
            generation is Some <==> has_commit(self@, id@),
            generation is Some ==> generation->0 == self@[position_of(self@, id@)].generation,
    {
        self.chain.generation_number(id)
    }

    /// Whether the first commit is the second or one of its ancestors.
    pub fn is_ancestor(&self, ancestor_id: &CommitId, descendant_id: &CommitId) -> (holds: bool)
        requires
            self.wf(),
        ensures
            holds == is_ancestor_id(self@, ancestor_id@, descendant_id@),
    {
        self.chain.is_ancestor(ancestor_id, descendant_id)
    }

    /// Opens a transaction on this snapshot. The snapshot itself stays as it
    /// is and can be read while the transaction runs.
    pub fn start_transaction(&self) -> (tx: MutableIndex)
        requires
            self.wf(),
        ensures
            tx.wf(),
            tx@ == self@,
            tx.base_levels() == self.levels(),
            tx.num_added() == 0,
            tx.changed_path_view() == self.changed_path_view(),
            tx.changed_path_start() == self.changed_path_start(),
    {
        let chain = self.chain.opened();
        let changed_paths = match &self.changed_paths {
            Some(index) => Some(index.start_transaction()),
            None => None,
        };
        MutableIndex { chain, changed_paths }
    }
}

impl MutableIndex {
    /// The chain is well formed, and the levels below the open segment are
    /// balanced. Where the changed-path index is switched on, it is well
    /// formed and covers the commits up to the last.
    pub open spec fn wf(&self) -> bool {
        &&& self.chain.wf()
        &&& self.chain.segments.len() >= 2
        &&& levels_balanced(self.base_levels())
        &&& match self.changed_paths {
            Some(index) => index.wf_open() && index.end() == self@.len(),
            None => true,
        }
    }

    /// The changed paths of the covered commits, where the changed-path
    /// index is switched on.
    pub open spec fn changed_path_view(&self) -> Option<Seq<Seq<Seq<char>>>> {
        paths_of(self.changed_paths)
    }

    /// The first covered position, where the changed-path index is switched
    /// on.
    pub open spec fn changed_path_start(&self) -> Option<u32> {
        paths_start_of(self.changed_paths)
    }

    /// The sizes of the levels of the snapshot the transaction started from.
    pub open spec fn base_levels(&self) -> Seq<int> {
        level_sizes(self.chain.segments@.drop_last())
    }

    /// The number of commits added by the transaction so far.
    pub open spec fn num_added(&self) -> int {
        self.chain.segments@.last().entries.len() as int
    }

    /// The number of indexed commits, the root included.
    pub fn num_commits(&self) -> (n: u32)
        requires
            self.wf(),
        ensures
            n == self@.len(),
            n >= 1,
    {
        self.chain.num_commits()
    }

    /// Whether the commit is indexed.
    pub fn has_id(&self, id: &CommitId) -> (found: bool)
        requires
            self.wf(),
        ensures
            found == has_commit(self@, id@),
    {
        self.chain.has_id(id)
    }

    /// The generation number of the commit, or nothing where it is not
    /// indexed.
    pub fn generation_number(&self, id: &CommitId) -> (generation: Option<u32>)
        requires
            self.wf(),
        ensures
            generation is Some <==> has_commit(self@, id@),
            generation is Some ==> generation->0 == self@[position_of(self@, id@)].generation,
    {
        self.chain.generation_number(id)
    }

    /// Whether the first commit is the second or one of its ancestors.
    pub fn is_ancestor(&self, ancestor_id: &CommitId, descendant_id: &CommitId) -> (holds: bool)
        requires
            self.wf(),
        ensures
            holds == is_ancestor_id(self@, ancestor_id@, descendant_id@),
    {
        self.chain.is_ancestor(ancestor_id, descendant_id)
    }

    /// Whether a commit with these parents can be added: it has a parent,
    /// every parent is indexed, and the index has room for one more entry.
    pub fn can_add_commit(&self, parent_ids: &Vec<CommitId>) -> (ok: bool)
        requires
            self.wf(),
        ensures
            ok == (parent_ids.len() >= 1 && all_indexed(self@, id_views(parent_ids@)) && self@.len()
                < u32::MAX),
    {
        if parent_ids.len() == 0 || self.chain.num_commits() == u32::MAX {
            return false;
        }
        let mut k: usize = 0;
        while k < parent_ids.len()
            invariant
                self.wf(),
                k <= parent_ids.len(),
                forall|j: int| 0 <= j < k ==> has_commit(self@, #[trigger] id_views(parent_ids@)[j]),
            decreases parent_ids.len() - k,
        {
            if !self.chain.has_id(&parent_ids[k]) {
                assert(id_views(parent_ids@)[k as int] == parent_ids[k as int]@);
                return false;
            }
            assert(id_views(parent_ids@)[k as int] == parent_ids[k as int]@);
            k += 1;
        }
        true
    }

    /// Adds a commit that changes no path, or whose changed paths are not
    /// known. Its parents must be indexed already. Where the commit id is
    /// indexed already nothing changes.
    pub fn add_commit(&mut self, commit_id: CommitId, change_id: ChangeId, parent_ids: &Vec<CommitId>)
        requires
            old(self).wf(),
            parent_ids.len() >= 1,
            all_indexed(old(self)@, id_views(parent_ids@)),
            old(self)@.len() < u32::MAX,
        ensures
            final(self).wf(),
            final(self)@ == with_commit(old(self)@, commit_id@, change_id@, id_views(parent_ids@)),
            final(self).base_levels() == old(self).base_levels(),
            final(self).num_added() == old(self).num_added() + if has_commit(
                old(self)@,
                commit_id@,
            ) {
                0int
            } else {
                1int
            },
            final(self).changed_path_start() == old(self).changed_path_start(),
            final(self).changed_path_view() == with_paths(
                old(self).changed_path_view(),
                has_commit(old(self)@, commit_id@),
                Seq::empty(),
            ),
    {
        let paths: Vec<String> = Vec::new();
        assert(string_views(paths@) =~= Seq::<Seq<char>>::empty());
        self.add_commit_with_paths(commit_id, change_id, parent_ids, paths);
    }

    /// Adds a commit and the paths it changes. Its parents must be indexed
    /// already. Where the commit id is indexed already nothing changes. The
    /// paths are kept where the changed-path index is switched on.
    pub fn add_commit_with_paths(
        &mut self,
        commit_id: CommitId,
        change_id: ChangeId,
        parent_ids: &Vec<CommitId>,
        changed_paths: Vec<String>,
    )
        requires
            old(self).wf(),
            parent_ids.len() >= 1,
            all_indexed(old(self)@, id_views(parent_ids@)),
            old(self)@.len() < u32::MAX,
        ensures
            final(self).wf(),
            final(self)@ == with_commit(old(self)@, commit_id@, change_id@, id_views(parent_ids@)),
            final(self).base_levels() == old(self).base_levels(),
            final(self).num_added() == old(self).num_added() + if has_commit(
                old(self)@,
                commit_id@,
            ) {
                0int
            } else {
                1int
            },
            final(self).changed_path_start() == old(self).changed_path_start(),
            final(self).changed_path_view() == with_paths(
                old(self).changed_path_view(),
                has_commit(old(self)@, commit_id@),
                string_views(changed_paths@),
            ),
    {
        if self.chain.has_id(&commit_id) {
            return;
        }
        let ghost g = self@;
        let ghost ids = id_views(parent_ids@);
        let mut positions: Vec<u32> = Vec::new();
        let mut generation: u32 = 0;
        let mut k: usize = 0;
        while k < parent_ids.len()
            invariant
                self.wf(),
                self@ == g,
                g.len() < u32::MAX,
                ids == id_views(parent_ids@),
                all_indexed(g, ids),
                k <= parent_ids.len(),
                positions.len() == k,
                forall|j: int| 0 <= j < k ==> #[trigger] positions@[j] as int == position_of(g, ids[j]),
                generation as int == 1 + max_generation(g, positions@.map_values(|p: u32| p as int)),
                generation <= g.len(),
            decreases parent_ids.len() - k,
        {
            let ghost before = positions@.map_values(|p: u32| p as int);
            assert(ids[k as int] == parent_ids[k as int]@);
            assert(has_commit(g, ids[k as int]));
            let pos: u32 = self.chain.position_of(&parent_ids[k]).unwrap();
            let parent_generation: u32 = self.chain.entry(pos).generation_number;
            proof {
                lemma_generation_at_most_position(g, pos as int);
            }
            positions.push(pos);
            if parent_generation + 1 > generation {
                generation = parent_generation + 1;
            }
            proof {
                let after = positions@.map_values(|p: u32| p as int);
                assert(after.drop_last() =~= before);
            }
            k += 1;
        }
        proof {
            assert(positions@.map_values(|p: u32| p as int) =~= positions_of(g, ids));
            lemma_with_commit_wf(g, commit_id@, change_id@, ids);
        }
        let entry = IndexEntry { commit_id, change_id, generation_number: generation, parent_positions: positions };
        assert(entry@ == new_entry(g, commit_id@, change_id@, ids));
        let ghost segments_before = self.chain.segments@;
        let mut open = self.chain.segments.pop().unwrap();
        let ghost open_before = open@;
        open.entries.push(entry);
        self.chain.segments.push(open);
        proof {
            let segs = self.chain.segments@;
            assert(segs.drop_last() =~= segments_before.drop_last());
            assert(segs.last()@ =~= open_before.push(entry@));
            assert(self@ =~= g.push(entry@));
            assert forall|j: int| 0 <= j < segs.len() implies (
            #[trigger] segs[j]).num_parent_commits == chain_entries(segs.subrange(0, j)).len() by {
                assert(segs.subrange(0, j) =~= segments_before.subrange(0, j));
                assert(segs[j].num_parent_commits == segments_before[j].num_parent_commits);
            }
        }
        let taken = self.changed_paths.take();
        match taken {
            Some(index) => {
                let mut index = index;
                index.record(changed_paths);
                self.changed_paths = Some(index);
            },
            None => {},
        }
    }

    /// Ends the transaction and gives the snapshot that holds its commits.
    ///
    /// The graph is the one the transaction held. Where commits were added,
    /// they form a new level, which is merged with the levels below it as
    /// long as it is at least half as large as the one directly below.
    pub fn commit(self) -> (index: ReadonlyIndex)
        requires
            self.wf(),
        ensures
            index.wf(),
            index@ == self@,
            index.levels() == committed_levels(self.base_levels(), self.num_added()),
            index.changed_path_view() == self.changed_path_view(),
            index.changed_path_start() == self.changed_path_start(),
    {
        let ghost g = self@;
        let changed_paths = match self.changed_paths {
            Some(index) => Some(index.commit()),
            None => None,
        };
        let ghost target = committed_levels(self.base_levels(), self.num_added());
        let mut segments: Vec<Segment> = self.chain.segments;
        let ghost all = segments@;
        let mut open: Segment = segments.pop().unwrap();
        assert(segments@ == all.drop_last());
        if open.entries.len() == 0 {
            let index = ReadonlyIndex { chain: SegmentChain { segments }, changed_paths };
            proof {
                assert(open@ =~= Seq::<EntryView>::empty());
                assert(index@ =~= g);
                assert forall|j: int| 0 <= j < segments.len() implies (
                #[trigger] segments[j]).num_parent_commits == chain_entries(
                    segments@.subrange(0, j),
                ).len() by {
                    assert(segments@.subrange(0, j) =~= all.subrange(0, j));
                    assert(segments[j] == all[j]);
                }
            }
            return index;
        }
        assert(segments@.push(open) =~= all);
        loop
            invariant
                g.len() <= u32::MAX,
                chain_entries(segments@.push(open)) == g,
                offsets_agree(segments@.push(open)),
                levels_balanced(level_sizes(segments@)),
                open.entries.len() >= 1,
                squashed_levels(level_sizes(segments@), open.entries.len() as int) == target,
            ensures
                level_sizes(segments@).push(open.entries.len() as int) == target,
            decreases segments.len(),
        {
            if segments.len() == 0 {
                assert(level_sizes(segments@).push(open.entries.len() as int) =~= seq![
                    open.entries.len() as int,
                ]);
                break;
            }
            proof {
                lemma_chain_len(segments@.push(open));
            }
            let below: usize = segments[segments.len() - 1].entries.len();
            let ghost sizes = level_sizes(segments@);
            assert(sizes.last() == below);
            if 2 * (open.entries.len() as u64) < below as u64 {
                break;
            }
            let ghost full_before = segments@.push(open);
            let parent: Segment = segments.pop().unwrap();
            open = parent.merged_with(open);
            proof {
                assert(full_before.drop_last().drop_last() =~= segments@);
                assert(full_before.drop_last().last() == parent);
                assert(level_sizes(full_before.drop_last()) =~= sizes);
                lemma_merge_last_two(full_before, open);
                lemma_balanced_drop_last(sizes);
            }
        }
        let ghost sizes = level_sizes(segments@);
        let ghost added = open.entries.len() as int;
        segments.push(open);
        let index = ReadonlyIndex { chain: SegmentChain { segments }, changed_paths };
        proof {
            assert(index.levels() =~= sizes.push(added));
            lemma_squashed_balanced(self.base_levels(), self.num_added());
            lemma_chain_len(index.chain.segments@);
        }
        index
    }
}

/// The changed paths after a commit has been added: one more list where
/// they are kept and the commit is new, and unchanged otherwise.
pub open spec fn with_paths(
    held: Option<Seq<Seq<Seq<char>>>>,
    indexed_already: bool,
    paths: Seq<Seq<char>>,
) -> Option<Seq<Seq<Seq<char>>>> {
    match held {
        Some(lists) => if indexed_already {
            Some(lists)
        } else {
            Some(lists.push(paths))
        },
        None => None,
    }
}

impl ReadonlyIndex {
    /// Switches the changed-path index on, from the next commit on. Where
    /// it is on already nothing changes.
    pub fn enable_changed_path_index(self) -> (index: ReadonlyIndex)
        requires
            self.wf(),
        ensures
            index.wf(),
            index@ == self@,
            index.levels() == self.levels(),
            self.changed_paths is Some ==> index.changed_path_view() == self.changed_path_view()
                && index.changed_path_start() == self.changed_path_start(),
            self.changed_paths is None ==> index.changed_path_view() == Some(
                Seq::<Seq<Seq<char>>>::empty(),
            ) && index.changed_path_start() == Some(self@.len() as u32),
    {
        let n: u32 = self.chain.num_commits();
        match self.changed_paths {
            Some(held) => ReadonlyIndex { chain: self.chain, changed_paths: Some(held) },
            None => {
                let fresh = ChangedPathIndex::new(n);
                assert(fresh@ =~= Seq::<Seq<Seq<char>>>::empty());
                ReadonlyIndex { chain: self.chain, changed_paths: Some(fresh) }
            },
        }
    }

    /// Takes a changed-path index that was loaded from its files, where it
    /// covers the commits up to the last. One that does not is dropped, and
    /// the index stays as it was.
    pub fn with_changed_paths(self, paths: ChangedPathIndex) -> (index: ReadonlyIndex)
        requires
            self.wf(),
            paths.wf(),
        ensures
            index.wf(),
            index@ == self@,
            index.levels() == self.levels(),
            index.changed_paths == if paths.end() == self@.len() {
                Some(paths)
            } else {
                self.changed_paths
            },
    {
        let n: u32 = self.chain.num_commits();
        if paths.commits_range().1 == n {
            ReadonlyIndex { chain: self.chain, changed_paths: Some(paths) }
        } else {
            self
        }
    }

    /// The changed paths of the commit at a position, or nothing where the
    /// changed-path index is off or does not cover the position. Without
    /// an answer the caller has to compare the trees of the commit itself.
    pub fn changed_paths_at(&self, pos: u32) -> (paths: Option<&Vec<String>>)
        requires
            self.wf(),
        ensures
            paths is Some <==> (self.changed_paths is Some && self.changed_paths->0.start <= pos
                < self@.len()),
            paths is Some ==> string_views(paths->0@) == self.changed_paths->0@[pos
                - self.changed_paths->0.start],
    {
        match &self.changed_paths {
            Some(index) => index.changed_paths(pos),
            None => None,
        }
    }

    /// The figures of the index.
    pub fn stats(&self) -> (stats: IndexStats)
        requires
            self.wf(),
        ensures
            stats.num_commits == self@.len(),
            stats.num_merges == count_merges(self@, self@.len() as int),
            stats.max_generation_number == max_generation_upto(self@, self@.len() as int),
            stats.commit_levels@ == levels_stats(self.chain.segments@),
            match self.changed_paths {
                Some(index) => {
                    &&& stats.changed_path_commits_range == Some((index.start, self@.len() as u32))
                    &&& stats.changed_path_levels.len() == index.segments.len()
                    &&& forall|k: int|
                        0 <= k < index.segments.len() ==> #[trigger] stats.changed_path_levels@[k]
                            == path_level_stats(index.segments@[k])
                },
                None => stats.changed_path_commits_range is None && stats.changed_path_levels.len()
                    == 0,
            },
    {
        let figures = self.chain.commit_stats();
        let commit_levels = self.chain.level_stats();
        match &self.changed_paths {
            Some(index) => IndexStats {
                num_commits: figures.0,
                num_merges: figures.1,
                max_generation_number: figures.2,
                commit_levels,
                changed_path_commits_range: Some(index.commits_range()),
                changed_path_levels: index.level_stats(),
            },
            None => IndexStats {
                num_commits: figures.0,
                num_merges: figures.1,
                max_generation_number: figures.2,
                commit_levels,
                changed_path_commits_range: None,
                changed_path_levels: Vec::new(),
            },
        }
    }
}

} // verus!
