//! Merging the index of another transaction into an open one.
//!
//! Where two transactions were made side by side, the index of one stays
//! as it is and the commits of the other are added to it one by one, in the
//! order in which the other index holds them. Nothing of the other index's
//! segments is taken over.

use vstd::prelude::*;
use crate::ids::CommitId;
use crate::index::graph::{
    agree_below, all_indexed, graph_wf, has_commit, with_commit, EntryView,
};
use crate::index::mutable::{id_views, MutableIndex, ReadonlyIndex};

verus! {

/// The commit ids of the parents of the entry at `p`.
pub open spec fn parent_ids_at(h: Seq<EntryView>, p: int) -> Seq<Seq<u8>> {
    Seq::new(h[p].parents.len(), |k: int| h[h[p].parents[k]].commit_id)
}

/// The graph `g` after the commits of the first `upto` entries of `h` have
/// been added, in their order. The root of `h` is not added: the two graphs
/// share it.
pub open spec fn merged_graph(g: Seq<EntryView>, h: Seq<EntryView>, upto: int) -> Seq<EntryView>
    decreases upto,
{
    if upto <= 1 {
        g
    } else {
        with_commit(
            merged_graph(g, h, upto - 1),
            h[upto - 1].commit_id,
            h[upto - 1].change_id,
            parent_ids_at(h, upto - 1),
        )
    }
}

/// Whether the other graph can be merged in: the two share the root, and
/// there is room for every commit of the other.
pub open spec fn can_merge(g: Seq<EntryView>, h: Seq<EntryView>) -> bool {
    &&& has_commit(g, h[0].commit_id)
    &&& g.len() + h.len() - 1 <= u32::MAX
}

/// Whether the graph holds the commits of the first `upto` entries of `h`.
pub open spec fn holds_commits(g: Seq<EntryView>, h: Seq<EntryView>, upto: int) -> bool {
    forall|q: int| 0 <= q < upto ==> has_commit(g, (#[trigger] h[q]).commit_id)
}

/// A graph with one more commit holds every commit that it held, and the
/// new one.
pub proof fn lemma_with_commit_holds(
    g: Seq<EntryView>,
    commit_id: Seq<u8>,
    change_id: Seq<u8>,
    parent_ids: Seq<Seq<u8>>,
    id: Seq<u8>,
)
    requires
        has_commit(g, id) || id == commit_id,
    ensures
        has_commit(with_commit(g, commit_id, change_id, parent_ids), id),
{
    let after = with_commit(g, commit_id, change_id, parent_ids);
    if has_commit(g, id) {
        let i = choose|i: int| 0 <= i < g.len() && (#[trigger] g[i]).commit_id == id;
        assert(after[i].commit_id == id);
    } else {
        assert(after[g.len() as int].commit_id == id);
    }
}

/// Merging keeps what was there, holds every commit of the other graph,
/// and is well formed.
pub proof fn law_merge_keeps_both_sides(g: Seq<EntryView>, h: Seq<EntryView>, upto: int)
    requires
        graph_wf(g),
        graph_wf(h),
        can_merge(g, h),
        1 <= upto <= h.len(),
    ensures
        graph_wf(merged_graph(g, h, upto)),
        agree_below(g, merged_graph(g, h, upto), g.len() as int),
        merged_graph(g, h, upto).len() <= g.len() + upto - 1,
        holds_commits(merged_graph(g, h, upto), h, upto),
    decreases upto,
{
    if upto > 1 {
        law_merge_keeps_both_sides(g, h, upto - 1);
        let before = merged_graph(g, h, upto - 1);
        let p = upto - 1;
        let ids = parent_ids_at(h, p);
        assert(all_indexed(before, ids)) by {
            assert forall|k: int| 0 <= k < ids.len() implies has_commit(before, #[trigger] ids[k]) by {
                assert(crate::index::graph::parents_precede(h, p));
                let q = h[p].parents[k];
                assert(0 <= q < p);
                assert(has_commit(before, h[q].commit_id));
            }
        }
        assert(h[p].parents.len() >= 1);
        crate::index::graph::lemma_with_commit_wf(before, h[p].commit_id, h[p].change_id, ids);
        let after = merged_graph(g, h, upto);
        assert forall|q: int| 0 <= q < upto implies has_commit(after, (#[trigger] h[q]).commit_id) by {
            lemma_with_commit_holds(
                before,
                h[p].commit_id,
                h[p].change_id,
                ids,
                h[q].commit_id,
            );
        }
    }
}

impl MutableIndex {
    /// Adds the commits of another index, one by one and in its order.
    /// Commits that are indexed already are passed over. Where the other
    /// index cannot be merged in, nothing changes.
    pub fn merge_in(&mut self, other: &ReadonlyIndex) -> (merged: bool)
        requires
            old(self).wf(),
            other.wf(),
        ensures
            final(self).wf(),
            merged == can_merge(old(self)@, other@),
            merged ==> final(self)@ == merged_graph(old(self)@, other@, other@.len() as int),
            !merged ==> final(self)@ == old(self)@,
            final(self).base_levels() == old(self).base_levels(),
            final(self).changed_path_start() == old(self).changed_path_start(),
    {
        let ghost g = self@;
        let ghost h = other@;
        let n: u32 = other.num_commits();
        let root = other.chain.entry(0);
        if !self.has_id(&root.commit_id) || n - 1 > u32::MAX - self.num_commits() {
            return false;
        }
        let mut p: u32 = 1;
        while p < n
            invariant
                self.wf(),
                other.wf(),
                g == old(self)@,
                h == other@,
                n == h.len(),
                graph_wf(g),
                graph_wf(h),
                can_merge(g, h),
                1 <= p <= n,
                self@ == merged_graph(g, h, p as int),
                self.base_levels() == old(self).base_levels(),
                self.changed_path_start() == old(self).changed_path_start(),
            decreases n - p,
        {
            proof {
                law_merge_keeps_both_sides(g, h, p as int);
                law_merge_keeps_both_sides(g, h, p + 1);
                assert(crate::index::graph::parents_precede(h, p as int));
            }
            let entry = other.chain.entry(p);
            let mut parent_ids: Vec<CommitId> = Vec::new();
            let mut k: usize = 0;
            while k < entry.parent_positions.len()
                invariant
                    other.wf(),
                    h == other@,
                    p < h.len(),
                    entry@ == h[p as int],
                    crate::index::graph::parents_precede(h, p as int),
                    k <= entry.parent_positions.len(),
                    id_views(parent_ids@) == parent_ids_at(h, p as int).subrange(0, k as int),
                decreases entry.parent_positions.len() - k,
            {
                let ghost before = id_views(parent_ids@);
                assert(entry@.parents[k as int] == entry.parent_positions[k as int] as int);
                assert(0 <= h[p as int].parents[k as int] < p);
                let parent = other.chain.entry(entry.parent_positions[k]);
                parent_ids.push(parent.commit_id.clone());
                assert(id_views(parent_ids@) =~= before.push(parent.commit_id@));
                assert(parent_ids_at(h, p as int).subrange(0, k + 1) =~= parent_ids_at(
                    h,
                    p as int,
                ).subrange(0, k as int).push(parent.commit_id@));
                k += 1;
            }
            proof {
                assert(entry@.parents.len() == entry.parent_positions.len());
                assert(parent_ids_at(h, p as int).subrange(0, k as int) =~= parent_ids_at(
                    h,
                    p as int,
                ));
                let ids = parent_ids_at(h, p as int);
                assert(all_indexed(self@, ids)) by {
                    assert forall|j: int| 0 <= j < ids.len() implies has_commit(
                        self@,
                        #[trigger] ids[j],
                    ) by {
                        let q = h[p as int].parents[j];
                        assert(0 <= q < p);
                        assert(has_commit(self@, h[q].commit_id));
                    }
                }
            }
            self.add_commit(entry.commit_id.clone(), entry.change_id.clone(), &parent_ids);
            p += 1;
        }
        true
    }
}

} // verus!
