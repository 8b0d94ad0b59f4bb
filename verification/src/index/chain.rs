//! A chain of segments read as one graph.
//!
//! Each segment holds a run of entries. Read oldest first, the runs make up
//! the whole graph, and a segment records how many entries stand before its
//! own so that an entry is found from its position without walking the ones
//! before it.

use vstd::prelude::*;
use crate::ids::CommitId;
use crate::index::graph::{
    entry_views, graph_wf, has_commit, ids_distinct, position_of, EntryView, IndexEntry,
};

verus! {

/// One slice of the index: a run of entries and the number of entries that
/// stand before it in the chain.
#[derive(Debug)]
pub struct Segment {
    pub num_parent_commits: u32,
    pub entries: Vec<IndexEntry>,
}

impl View for Segment {
    type V = Seq<EntryView>;

    open spec fn view(&self) -> Seq<EntryView> {
        entry_views(self.entries@)
    }
}

/// The entries of a run of segments, oldest first.
pub open spec fn chain_entries(segments: Seq<Segment>) -> Seq<EntryView>
    decreases segments.len(),
{
    if segments.len() == 0 {
        Seq::empty()
    } else {
        chain_entries(segments.drop_last()) + segments.last()@
    }
}

/// The number of commits in each segment, oldest first.
pub open spec fn level_sizes(segments: Seq<Segment>) -> Seq<int> {
    Seq::new(segments.len(), |k: int| segments[k].entries.len() as int)
}

/// Each segment records the number of entries that stand before it.
pub open spec fn offsets_agree(segments: Seq<Segment>) -> bool {
    forall|k: int|
        0 <= k < segments.len() ==> (#[trigger] segments[k]).num_parent_commits == chain_entries(
            segments.subrange(0, k),
        ).len()
}

/// The entries of the first `k + 1` segments are those of the first `k`
/// followed by the entries of segment `k`.
pub proof fn lemma_chain_prefix_step(segments: Seq<Segment>, k: int)
    requires
        0 <= k < segments.len(),
    ensures
        chain_entries(segments.subrange(0, k + 1)) == chain_entries(segments.subrange(0, k))
            + segments[k]@,
{
    let upto = segments.subrange(0, k + 1);
    assert(upto.drop_last() == segments.subrange(0, k));
    assert(upto.last() == segments[k]);
}

/// Where the entries of segment `k` stand in the chain.
pub proof fn lemma_chain_index(segments: Seq<Segment>, k: int, j: int)
    requires
        0 <= k < segments.len(),
        0 <= j < segments[k].entries.len(),
    ensures
        chain_entries(segments.subrange(0, k)).len() + j < chain_entries(segments).len(),
        chain_entries(segments)[chain_entries(segments.subrange(0, k)).len() + j]
            == segments[k].entries[j]@,
    decreases segments.len(),
{
    let rest = segments.drop_last();
    if k == segments.len() - 1 {
        assert(segments.subrange(0, k) == rest);
    } else {
        assert(rest.subrange(0, k) == segments.subrange(0, k));
        assert(rest[k] == segments[k]);
        lemma_chain_index(rest, k, j);
    }
}

/// The chain is as long as the entries before its last segment and the
/// entries of that segment together.
pub proof fn lemma_chain_len(segments: Seq<Segment>)
    requires
        segments.len() > 0,
    ensures
        chain_entries(segments).len() == chain_entries(
            segments.subrange(0, segments.len() - 1),
        ).len() + segments.last().entries.len(),
{
    assert(segments.subrange(0, segments.len() - 1) == segments.drop_last());
}

/// The entries before segment `k` are at most as many as those before a
/// later segment.
pub proof fn lemma_chain_prefix_monotone(segments: Seq<Segment>, k: int, m: int)
    requires
        0 <= k <= m <= segments.len(),
    ensures
        chain_entries(segments.subrange(0, k)).len() <= chain_entries(
            segments.subrange(0, m),
        ).len(),
    decreases m - k,
{
    if k < m {
        lemma_chain_prefix_step(segments, m - 1);
        lemma_chain_prefix_monotone(segments, k, m - 1);
    }
}

/// A chain of segments.
#[derive(Debug)]
pub struct SegmentChain {
    pub segments: Vec<Segment>,
}

impl View for SegmentChain {
    type V = Seq<EntryView>;

    open spec fn view(&self) -> Seq<EntryView> {
        chain_entries(self.segments@)
    }
}

impl SegmentChain {
    /// The chain has a segment, its offsets agree with its contents, and
    /// its entries can be numbered.
    pub open spec fn layout_wf(&self) -> bool {
        &&& self.segments.len() >= 1
        &&& offsets_agree(self.segments@)
        &&& self@.len() <= u32::MAX
    }

    /// The chain is laid out well and the graph it holds is well formed.
    pub open spec fn wf(&self) -> bool {
        &&& self.layout_wf()
        &&& graph_wf(self@)
    }

    /// The number of indexed commits, the root included.
    pub fn num_commits(&self) -> (n: u32)
        requires
            self.layout_wf(),
        ensures
            n == self@.len(),
    {
        let last = &self.segments[self.segments.len() - 1];
        proof {
            lemma_chain_len(self.segments@);
            assert(self.segments@.subrange(0, self.segments.len() as int) == self.segments@);
        }
        last.num_parent_commits + last.entries.len() as u32
    }

    /// The entry at a position.
    pub fn entry(&self, pos: u32) -> (e: &IndexEntry)
        requires
            self.layout_wf(),
            pos < self@.len(),
        ensures
            e@ == self@[pos as int],
    {
        let mut k: usize = self.segments.len() - 1;
        proof {
            lemma_chain_len(self.segments@);
            assert(chain_entries(self.segments@.subrange(0, 0)) =~= Seq::<EntryView>::empty());
        }
        while self.segments[k].num_parent_commits > pos
            invariant
                self.layout_wf(),
                k < self.segments.len(),
                pos < chain_entries(self.segments@.subrange(0, k as int)).len()
                    + self.segments[k as int].entries.len(),
            decreases k,
        {
            proof {
                assert(k > 0);
                lemma_chain_prefix_step(self.segments@, k as int - 1);
            }
            k -= 1;
        }
        let segment = &self.segments[k];
        let j: usize = (pos - segment.num_parent_commits) as usize;
        proof {
            lemma_chain_index(self.segments@, k as int, j as int);
        }
        &segment.entries[j]
    }

    /// The position of the commit with the given id, if it is indexed.
    pub fn position_of(&self, id: &CommitId) -> (found: Option<u32>)
        requires
            self.wf(),
        ensures
            found is Some <==> has_commit(self@, id@),
            found is Some ==> found->0 == position_of(self@, id@),
            found is Some ==> found->0 < self@.len() && self@[found->0 as int].commit_id == id@,
    {
        let n: u32 = self.num_commits();
        let mut pos: u32 = 0;
        while pos < n
            invariant
                self.wf(),
                n == self@.len(),
                pos <= n,
                forall|i: int| 0 <= i < pos ==> (#[trigger] self@[i]).commit_id != id@,
            decreases n - pos,
        {
            let e = self.entry(pos);
            if e.commit_id.same_as(id) {
                proof {
                    assert(has_commit(self@, id@));
                    let q = position_of(self@, id@);
                    if q != pos as int {
                        if q < pos {
                            assert(self@[q].commit_id != id@);
                        } else {
                            assert(self@[pos as int].commit_id != self@[q].commit_id);
                        }
                    }
                }
                return Some(pos);
            }
            pos += 1;
        }
        None
    }

    /// Whether the commit is indexed.
    pub fn has_id(&self, id: &CommitId) -> (found: bool)
        requires
            self.wf(),
        ensures
            found == has_commit(self@, id@),
    {
        self.position_of(id).is_some()
    }

    /// The generation number of the commit, if it is indexed.
    pub fn generation_number(&self, id: &CommitId) -> (generation: Option<u32>)
        requires
            self.wf(),
        ensures
            generation is Some <==> has_commit(self@, id@),
            generation is Some ==> generation->0 == self@[position_of(self@, id@)].generation,
    {
        match self.position_of(id) {
            Some(pos) => Some(self.entry(pos).generation_number),
            None => None,
        }
    }
}

/// The entries of a chain depend only on what its segments hold.
pub proof fn lemma_chain_same(first: Seq<Segment>, second: Seq<Segment>)
    requires
        first.len() == second.len(),
        forall|k: int| 0 <= k < first.len() ==> (#[trigger] first[k])@ == second[k]@,
    ensures
        chain_entries(first) == chain_entries(second),
    decreases first.len(),
{
    if first.len() > 0 {
        assert(first.last()@ == second.last()@);
        assert forall|k: int| 0 <= k < first.drop_last().len() implies (
        #[trigger] first.drop_last()[k])@ == second.drop_last()[k]@ by {
            assert(first[k]@ == second[k]@);
        }
        lemma_chain_same(first.drop_last(), second.drop_last());
    }
}

/// Segments that hold the same entries and record the same offsets make
/// chains that agree on their offsets alike.
pub proof fn lemma_offsets_same(first: Seq<Segment>, second: Seq<Segment>)
    requires
        first.len() == second.len(),
        forall|k: int| 0 <= k < first.len() ==> (#[trigger] first[k])@ == second[k]@,
        forall|k: int|
            0 <= k < first.len() ==> (#[trigger] first[k]).num_parent_commits
                == second[k].num_parent_commits,
        offsets_agree(first),
    ensures
        offsets_agree(second),
{
    assert forall|k: int| 0 <= k < second.len() implies (#[trigger] second[k]).num_parent_commits
        == chain_entries(second.subrange(0, k)).len() by {
        let a = first.subrange(0, k);
        let b = second.subrange(0, k);
        assert forall|j: int| 0 <= j < a.len() implies (#[trigger] a[j])@ == b[j]@ by {
            assert(first[j]@ == second[j]@);
        }
        lemma_chain_same(a, b);
        assert(first[k].num_parent_commits == second[k].num_parent_commits);
    }
}

impl Clone for Segment {
    fn clone(&self) -> (copy: Self)
        ensures
            copy@ == self@,
            copy.num_parent_commits == self.num_parent_commits,
    {
        let mut entries: Vec<IndexEntry> = Vec::new();
        let mut i: usize = 0;
        while i < self.entries.len()
            invariant
                i <= self.entries.len(),
                entries.len() == i,
                forall|j: int| 0 <= j < i ==> (#[trigger] entries[j])@ == self.entries[j]@,
            decreases self.entries.len() - i,
        {
            entries.push(self.entries[i].clone());
            i += 1;
        }
        let copy = Segment { num_parent_commits: self.num_parent_commits, entries };
        assert(copy@ =~= self@);
        copy
    }
}

impl Clone for SegmentChain {
    fn clone(&self) -> (copy: Self)
        ensures
            copy@ == self@,
            copy.segments.len() == self.segments.len(),
            level_sizes(copy.segments@) == level_sizes(self.segments@),
            self.wf() ==> copy.wf(),
    {
        let mut segments: Vec<Segment> = Vec::new();
        let mut i: usize = 0;
        while i < self.segments.len()
            invariant
                i <= self.segments.len(),
                segments.len() == i,
                forall|j: int| 0 <= j < i ==> (#[trigger] segments[j])@ == self.segments[j]@,
                forall|j: int|
                    0 <= j < i ==> (#[trigger] segments[j]).num_parent_commits
                        == self.segments[j].num_parent_commits,
            decreases self.segments.len() - i,
        {
            segments.push(self.segments[i].clone());
            i += 1;
        }
        let copy = SegmentChain { segments };
        proof {
            lemma_chain_same(self.segments@, copy.segments@);
            assert forall|k: int| 0 <= k < copy.segments.len() implies level_sizes(
                copy.segments@,
            )[k] == level_sizes(self.segments@)[k] by {
                assert(copy.segments[k]@.len() == self.segments[k]@.len());
            }
            assert(level_sizes(copy.segments@) =~= level_sizes(self.segments@));
            if self.wf() {
                lemma_offsets_same(self.segments@, copy.segments@);
            }
        }
        copy
    }
}

/// Replacing the last two segments of a chain by one that holds the entries
/// of both changes neither the entries of the chain nor the agreement of its
/// offsets.
pub proof fn lemma_merge_last_two(before: Seq<Segment>, merged: Segment)
    requires
        before.len() >= 2,
        merged@ == before[before.len() - 2]@ + before[before.len() - 1]@,
        merged.num_parent_commits == before[before.len() - 2].num_parent_commits,
        offsets_agree(before),
    ensures
        chain_entries(before.drop_last().drop_last().push(merged)) == chain_entries(before),
        offsets_agree(before.drop_last().drop_last().push(merged)),
        level_sizes(before.drop_last().drop_last()) == level_sizes(
            before.drop_last(),
        ).drop_last(),
{
    let base = before.drop_last().drop_last();
    let after = base.push(merged);
    assert(after.drop_last() == base);
    assert(after.last() == merged);
    assert(before.drop_last().last() == before[before.len() - 2]);
    assert(chain_entries(before) == chain_entries(base) + before[before.len() - 2]@
        + before[before.len() - 1]@);
    assert(chain_entries(after) == chain_entries(base) + merged@);
    assert(chain_entries(after) =~= chain_entries(before));
    assert forall|k: int| 0 <= k < after.len() implies (#[trigger] after[k]).num_parent_commits
        == chain_entries(after.subrange(0, k)).len() by {
        assert(after.subrange(0, k) =~= before.subrange(0, k));
        assert(before[k].num_parent_commits == chain_entries(before.subrange(0, k)).len());
    }
    assert(level_sizes(base) =~= level_sizes(before.drop_last()).drop_last());
}

impl Segment {
    /// The segment that holds the entries of `self` followed by those of
    /// `later`, at the place of `self`.
    pub fn merged_with(self, later: Segment) -> (merged: Segment)
        ensures
            merged@ == self@ + later@,
            merged.num_parent_commits == self.num_parent_commits,
            merged.entries.len() == self.entries.len() + later.entries.len(),
    {
        let mut merged = self;
        let mut rest = later;
        merged.entries.append(&mut rest.entries);
        assert(merged@ =~= self@ + later@);
        merged
    }
}

impl SegmentChain {
    /// A copy of the chain with an empty segment at its end, for a
    /// transaction to add its entries to.
    pub fn opened(&self) -> (chain: SegmentChain)
        requires
            self.wf(),
        ensures
            chain.wf(),
            chain@ == self@,
            chain.segments.len() == self.segments.len() + 1,
            level_sizes(chain.segments@.drop_last()) == level_sizes(self.segments@),
            chain.segments@.last().entries.len() == 0,
    {
        let n: u32 = self.num_commits();
        let mut chain = self.clone();
        let ghost base = chain.segments@;
        chain.segments.push(Segment { num_parent_commits: n, entries: Vec::new() });
        proof {
            let segs = chain.segments@;
            assert(segs.drop_last() =~= base);
            assert(segs.last()@ =~= Seq::<EntryView>::empty());
            assert(chain@ =~= self@);
            assert(level_sizes(segs.drop_last()) =~= level_sizes(self.segments@));
            assert forall|k: int| 0 <= k < segs.len() implies (
            #[trigger] segs[k]).num_parent_commits == chain_entries(segs.subrange(0, k)).len() by {
                if k < base.len() {
                    assert(segs.subrange(0, k) =~= base.subrange(0, k));
                    assert(segs[k] == base[k]);
                } else {
                    assert(segs.subrange(0, k) =~= base);
                }
            }
        }
        chain
    }
}

/// A chain that gets one more segment, which records the number of entries
/// before it, agrees on its offsets as before and holds the entries of the
/// segment after those it held.
pub proof fn lemma_push_segment(before: Seq<Segment>, segment: Segment)
    requires
        offsets_agree(before),
        segment.num_parent_commits == chain_entries(before).len(),
    ensures
        offsets_agree(before.push(segment)),
        chain_entries(before.push(segment)) == chain_entries(before) + segment@,
{
    let now = before.push(segment);
    assert(now.drop_last() =~= before);
    assert(now.last() == segment);
    assert forall|k: int| 0 <= k < now.len() implies (#[trigger] now[k]).num_parent_commits
        == chain_entries(now.subrange(0, k)).len() by {
        if k < before.len() {
            assert(now.subrange(0, k) =~= before.subrange(0, k));
            assert(now[k] == before[k]);
        } else {
            assert(now.subrange(0, k) =~= before);
        }
    }
}

/// A copy of a run of entries.
pub fn clone_entries(entries: &Vec<IndexEntry>) -> (copy: Vec<IndexEntry>)
    ensures
        entry_views(copy@) == entry_views(entries@),
{
    let mut copy: Vec<IndexEntry> = Vec::new();
    let mut i: usize = 0;
    while i < entries.len()
        invariant
            i <= entries.len(),
            copy.len() == i,
            forall|j: int| 0 <= j < i ==> (#[trigger] copy[j])@ == entries[j]@,
        decreases entries.len() - i,
    {
        copy.push(entries[i].clone());
        i += 1;
    }
    assert(entry_views(copy@) =~= entry_views(entries@));
    copy
}

/// The levels of a chain hold every entry once: their sizes add up to the
/// number of entries.
pub proof fn lemma_levels_total(segments: Seq<Segment>)
    ensures
        crate::index::levels::total_size(level_sizes(segments)) == chain_entries(segments).len(),
    decreases segments.len(),
{
    if segments.len() > 0 {
        lemma_levels_total(segments.drop_last());
        assert(level_sizes(segments).drop_last() =~= level_sizes(segments.drop_last()));
    }
}

} // verus!
