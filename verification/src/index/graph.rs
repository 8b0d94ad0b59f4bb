//! The mathematical model of the indexed commit graph.
//!
//! The graph is a sequence of entries in insertion order. The place of an
//! entry in that sequence is its position, and every parent of an entry has a
//! smaller position, so the sequence is a topological order and the relation
//! "is a parent of" has no cycle.

use vstd::prelude::*;
use crate::ids::{ChangeId, CommitId};

verus! {

/// One indexed commit.
#[derive(Debug)]
pub struct IndexEntry {
    pub commit_id: CommitId,
    pub change_id: ChangeId,
    pub generation_number: u32,
    pub parent_positions: Vec<u32>,
}

/// What an entry says, as plain mathematical values.
pub struct EntryView {
    pub commit_id: Seq<u8>,
    pub change_id: Seq<u8>,
    pub generation: nat,
    pub parents: Seq<int>,
}

impl View for IndexEntry {
    type V = EntryView;

    open spec fn view(&self) -> EntryView {
        EntryView {
            commit_id: self.commit_id@,
            change_id: self.change_id@,
            generation: self.generation_number as nat,
            parents: self.parent_positions@.map_values(|p: u32| p as int),
        }
    }
}

impl Clone for IndexEntry {
    fn clone(&self) -> (copy: Self)
        ensures
            copy@ == self@,
    {
        let mut parents: Vec<u32> = Vec::new();
        let mut i: usize = 0;
        while i < self.parent_positions.len()
            invariant
                i <= self.parent_positions.len(),
                parents@ == self.parent_positions@.subrange(0, i as int),
            decreases self.parent_positions.len() - i,
        {
            parents.push(self.parent_positions[i]);
            assert(self.parent_positions@.subrange(0, i + 1) == self.parent_positions@.subrange(
                0,
                i as int,
            ).push(self.parent_positions@[i as int]));
            i += 1;
        }
        assert(self.parent_positions@ == self.parent_positions@.subrange(
            0,
            self.parent_positions.len() as int,
        ));
        IndexEntry {
            commit_id: self.commit_id.clone(),
            change_id: self.change_id.clone(),
            generation_number: self.generation_number,
            parent_positions: parents,
        }
    }
}

/// The views of a sequence of entries, in the same order.
pub open spec fn entry_views(entries: Seq<IndexEntry>) -> Seq<EntryView> {
    entries.map_values(|e: IndexEntry| e@)
}

/// Every parent of the entry at `i` stands before it.
pub open spec fn parents_precede(g: Seq<EntryView>, i: int) -> bool {
    forall|k: int| 0 <= k < g[i].parents.len() ==> 0 <= #[trigger] g[i].parents[k] < i
}

/// The largest generation number among the entries at `parents`, and -1 where
/// there is none.
pub open spec fn max_generation(g: Seq<EntryView>, parents: Seq<int>) -> int
    decreases parents.len(),
{
    if parents.len() == 0 {
        -1
    } else {
        let rest = max_generation(g, parents.drop_last());
        let last = g[parents.last()].generation as int;
        if last > rest {
            last
        } else {
            rest
        }
    }
}

/// The generation number of an entry is one more than the largest of its
/// parents', and zero where it has no parent.
pub open spec fn generation_rule(g: Seq<EntryView>, i: int) -> bool {
    g[i].generation == 1 + max_generation(g, g[i].parents)
}

/// No two entries carry the same commit id.
pub open spec fn ids_distinct(g: Seq<EntryView>) -> bool {
    forall|i: int, j: int|
        0 <= i < j < g.len() ==> (#[trigger] g[i]).commit_id != (#[trigger] g[j]).commit_id
}

/// A well-formed graph: the root stands alone at position 0, every other
/// entry has at least one parent, parents precede children, generation
/// numbers follow the rule, and commit ids are distinct.
pub open spec fn graph_wf(g: Seq<EntryView>) -> bool {
    &&& 1 <= g.len() <= u32::MAX
    &&& g[0].parents.len() == 0
    &&& forall|i: int| 0 < i < g.len() ==> (#[trigger] g[i]).parents.len() >= 1
    &&& forall|i: int| 0 <= i < g.len() ==> #[trigger] parents_precede(g, i)
    &&& forall|i: int| 0 <= i < g.len() ==> #[trigger] generation_rule(g, i)
    &&& ids_distinct(g)
}

/// The entry at `a` is the entry at `b` or can be reached from it by
/// following parent edges.
pub open spec fn is_ancestor_at(g: Seq<EntryView>, a: int, b: int) -> bool
    decreases b,
{
    &&& 0 <= a <= b < g.len()
    &&& (a == b || exists|k: int|
        0 <= k < g[b].parents.len() && 0 <= #[trigger] g[b].parents[k] < b && is_ancestor_at(
            g,
            a,
            g[b].parents[k],
        ))
}

/// Whether some entry of the graph carries the commit id.
pub open spec fn has_commit(g: Seq<EntryView>, id: Seq<u8>) -> bool {
    exists|i: int| 0 <= i < g.len() && (#[trigger] g[i]).commit_id == id
}

/// The position of the entry that carries the commit id.
pub open spec fn position_of(g: Seq<EntryView>, id: Seq<u8>) -> int {
    choose|i: int| 0 <= i < g.len() && (#[trigger] g[i]).commit_id == id
}

/// In a graph with distinct ids the position of an id is the only place where
/// it stands.
pub proof fn lemma_position_unique(g: Seq<EntryView>, i: int)
    requires
        ids_distinct(g),
        0 <= i < g.len(),
    ensures
        has_commit(g, g[i].commit_id),
        position_of(g, g[i].commit_id) == i,
{
    let id = g[i].commit_id;
    assert(has_commit(g, id));
    let j = position_of(g, id);
    if j < i {
        assert(g[j].commit_id != g[i].commit_id);
    } else if i < j {
        assert(g[i].commit_id != g[j].commit_id);
    }
}

/// The largest generation among `parents` is the generation of one of them
/// and is not exceeded by any.
pub proof fn lemma_max_generation(g: Seq<EntryView>, parents: Seq<int>)
    ensures
        forall|k: int|
            0 <= k < parents.len() ==> (#[trigger] g[parents[k]]).generation <= max_generation(
                g,
                parents,
            ),
        parents.len() > 0 ==> exists|k: int|
            0 <= k < parents.len() && (#[trigger] g[parents[k]]).generation == max_generation(
                g,
                parents,
            ),
        parents.len() == 0 ==> max_generation(g, parents) == -1,
    decreases parents.len(),
{
    if parents.len() > 0 {
        let rest = parents.drop_last();
        lemma_max_generation(g, rest);
        assert forall|k: int| 0 <= k < parents.len() implies (#[trigger] g[parents[k]]).generation
            <= max_generation(g, parents) by {
            if k < rest.len() {
                assert(rest[k] == parents[k]);
            }
        }
        if rest.len() > 0 && max_generation(g, rest) >= g[parents.last()].generation {
            let k = choose|k: int|
                0 <= k < rest.len() && (#[trigger] g[rest[k]]).generation == max_generation(
                    g,
                    rest,
                );
            assert(rest[k] == parents[k]);
            assert(g[parents[k]].generation == max_generation(g, parents));
        } else {
            let k = parents.len() - 1;
            assert(g[parents[k]].generation == max_generation(g, parents));
        }
    }
}

/// A proper ancestor has a smaller generation number than its descendant.
pub proof fn lemma_ancestor_generation(g: Seq<EntryView>, a: int, b: int)
    requires
        graph_wf(g),
        is_ancestor_at(g, a, b),
        a != b,
    ensures
        g[a].generation < g[b].generation,
    decreases b,
{
    let k = choose|k: int|
        0 <= k < g[b].parents.len() && 0 <= #[trigger] g[b].parents[k] < b && is_ancestor_at(
            g,
            a,
            g[b].parents[k],
        );
    let p = g[b].parents[k];
    lemma_max_generation(g, g[b].parents);
    assert(generation_rule(g, b));
    assert(g[g[b].parents[k]].generation <= max_generation(g, g[b].parents));
    if a != p {
        lemma_ancestor_generation(g, a, p);
    }
}

/// Ancestry is transitive.
pub proof fn lemma_ancestor_transitive(g: Seq<EntryView>, a: int, b: int, c: int)
    requires
        is_ancestor_at(g, a, b),
        is_ancestor_at(g, b, c),
    ensures
        is_ancestor_at(g, a, c),
    decreases c,
{
    if b != c {
        let k = choose|k: int|
            0 <= k < g[c].parents.len() && 0 <= #[trigger] g[c].parents[k] < c && is_ancestor_at(
                g,
                b,
                g[c].parents[k],
            );
        lemma_ancestor_transitive(g, a, b, g[c].parents[k]);
    }
}

/// An entry is an ancestor of each of its children.
pub proof fn lemma_parent_is_ancestor(g: Seq<EntryView>, b: int, k: int)
    requires
        0 <= b < g.len(),
        0 <= k < g[b].parents.len(),
        0 <= g[b].parents[k] < b,
    ensures
        is_ancestor_at(g, g[b].parents[k], b),
{
    let p = g[b].parents[k];
    assert(is_ancestor_at(g, p, p));
}

/// The root is an ancestor of every entry.
pub proof fn lemma_root_reaches_all(g: Seq<EntryView>, x: int)
    requires
        graph_wf(g),
        0 <= x < g.len(),
    ensures
        is_ancestor_at(g, 0, x),
    decreases x,
{
    if x > 0 {
        assert(g[x].parents.len() >= 1);
        assert(parents_precede(g, x));
        let p = g[x].parents[0];
        lemma_root_reaches_all(g, p);
    }
}

/// Only the root has generation number zero.
pub proof fn lemma_only_root_has_generation_zero(g: Seq<EntryView>, x: int)
    requires
        graph_wf(g),
        0 <= x < g.len(),
    ensures
        g[x].generation == 0 <==> x == 0,
{
    lemma_max_generation(g, g[x].parents);
    assert(generation_rule(g, x));
    if x > 0 {
        assert(g[x].parents.len() >= 1);
        assert(parents_precede(g, x));
        let k = choose|k: int|
            0 <= k < g[x].parents.len() && (#[trigger] g[g[x].parents[k]]).generation
                == max_generation(g, g[x].parents);
    }
}

/// Two graphs hold the same entries at every position below `len`.
pub open spec fn agree_below(g: Seq<EntryView>, h: Seq<EntryView>, len: int) -> bool {
    &&& len <= g.len()
    &&& len <= h.len()
    &&& forall|i: int| 0 <= i < len ==> #[trigger] g[i] == #[trigger] h[i]
}

/// The largest generation among parents depends only on the entries at those
/// parents.
pub proof fn lemma_max_generation_agrees(
    g: Seq<EntryView>,
    h: Seq<EntryView>,
    len: int,
    parents: Seq<int>,
)
    requires
        agree_below(g, h, len),
        forall|k: int| 0 <= k < parents.len() ==> 0 <= #[trigger] parents[k] < len,
    ensures
        max_generation(g, parents) == max_generation(h, parents),
    decreases parents.len(),
{
    if parents.len() > 0 {
        let rest = parents.drop_last();
        assert forall|k: int| 0 <= k < rest.len() implies 0 <= #[trigger] rest[k] < len by {
            assert(rest[k] == parents[k]);
        }
        lemma_max_generation_agrees(g, h, len, rest);
        let p = parents[parents.len() - 1];
        assert(g[p] == h[p]);
    }
}

/// Ancestry between two positions depends only on the entries up to the
/// later one.
pub proof fn lemma_ancestor_agrees(g: Seq<EntryView>, h: Seq<EntryView>, len: int, a: int, b: int)
    requires
        agree_below(g, h, len),
        b < len,
    ensures
        is_ancestor_at(g, a, b) == is_ancestor_at(h, a, b),
    decreases b,
{
    if 0 <= a <= b && a != b {
        assert(g[b] == h[b]);
        if is_ancestor_at(g, a, b) {
            let k = choose|k: int|
                0 <= k < g[b].parents.len() && 0 <= #[trigger] g[b].parents[k] < b
                    && is_ancestor_at(g, a, g[b].parents[k]);
            lemma_ancestor_agrees(g, h, len, a, g[b].parents[k]);
            assert(0 <= h[b].parents[k] < b && is_ancestor_at(h, a, h[b].parents[k]));
        }
        if is_ancestor_at(h, a, b) {
            let k = choose|k: int|
                0 <= k < h[b].parents.len() && 0 <= #[trigger] h[b].parents[k] < b
                    && is_ancestor_at(h, a, h[b].parents[k]);
            lemma_ancestor_agrees(g, h, len, a, h[b].parents[k]);
            assert(0 <= g[b].parents[k] < b && is_ancestor_at(g, a, g[b].parents[k]));
        }
    }
}

/// A generation number is at most the position of its entry.
pub proof fn lemma_generation_at_most_position(g: Seq<EntryView>, x: int)
    requires
        graph_wf(g),
        0 <= x < g.len(),
    ensures
        g[x].generation <= x,
    decreases x,
{
    lemma_max_generation(g, g[x].parents);
    assert(generation_rule(g, x));
    if g[x].parents.len() > 0 {
        assert(parents_precede(g, x));
        let k = choose|k: int|
            0 <= k < g[x].parents.len() && (#[trigger] g[g[x].parents[k]]).generation
                == max_generation(g, g[x].parents);
        let p = g[x].parents[k];
        assert(0 <= p < x);
        lemma_generation_at_most_position(g, p);
    }
}

/// The positions of the given commit ids, in the same order.
pub open spec fn positions_of(g: Seq<EntryView>, ids: Seq<Seq<u8>>) -> Seq<int> {
    Seq::new(ids.len(), |k: int| position_of(g, ids[k]))
}

/// The entry that stands for a new commit with the given parents.
pub open spec fn new_entry(
    g: Seq<EntryView>,
    commit_id: Seq<u8>,
    change_id: Seq<u8>,
    parent_ids: Seq<Seq<u8>>,
) -> EntryView {
    let parents = positions_of(g, parent_ids);
    EntryView {
        commit_id,
        change_id,
        generation: (1 + max_generation(g, parents)) as nat,
        parents,
    }
}

/// The graph after a commit has been added: unchanged where the commit id is
/// indexed already, and longer by the entry of the new commit where it is
/// not.
pub open spec fn with_commit(
    g: Seq<EntryView>,
    commit_id: Seq<u8>,
    change_id: Seq<u8>,
    parent_ids: Seq<Seq<u8>>,
) -> Seq<EntryView> {
    if has_commit(g, commit_id) {
        g
    } else {
        g.push(new_entry(g, commit_id, change_id, parent_ids))
    }
}

/// Every one of the ids is indexed.
pub open spec fn all_indexed(g: Seq<EntryView>, ids: Seq<Seq<u8>>) -> bool {
    forall|k: int| 0 <= k < ids.len() ==> has_commit(g, #[trigger] ids[k])
}

/// Adding a commit whose parents are indexed keeps the graph well formed.
pub proof fn lemma_with_commit_wf(
    g: Seq<EntryView>,
    commit_id: Seq<u8>,
    change_id: Seq<u8>,
    parent_ids: Seq<Seq<u8>>,
)
    requires
        graph_wf(g),
        parent_ids.len() >= 1,
        all_indexed(g, parent_ids),
        g.len() < u32::MAX,
    ensures
        graph_wf(with_commit(g, commit_id, change_id, parent_ids)),
{
    if !has_commit(g, commit_id) {
        let e = new_entry(g, commit_id, change_id, parent_ids);
        let h = g.push(e);
        let n = g.len() as int;
        assert(agree_below(g, h, n));
        assert forall|k: int| 0 <= k < e.parents.len() implies 0 <= #[trigger] e.parents[k]
            < n by {
            assert(has_commit(g, parent_ids[k]));
        }
        lemma_max_generation(g, e.parents);
        assert forall|i: int| 0 <= i < h.len() implies #[trigger] parents_precede(h, i) by {
            if i < n {
                assert(parents_precede(g, i));
                assert(h[i] == g[i]);
            }
        }
        assert forall|i: int| 0 <= i < h.len() implies #[trigger] generation_rule(h, i) by {
            if i < n {
                assert(parents_precede(g, i));
                assert(generation_rule(g, i));
                assert(h[i] == g[i]);
                assert forall|k: int| 0 <= k < g[i].parents.len() implies 0
                    <= #[trigger] g[i].parents[k] < n by {}
                lemma_max_generation_agrees(g, h, n, g[i].parents);
            } else {
                lemma_max_generation_agrees(g, h, n, e.parents);
            }
        }
        assert forall|i: int, j: int| 0 <= i < j < h.len() implies (#[trigger] h[i]).commit_id != (
        #[trigger] h[j]).commit_id by {
            if j < n {
                assert(g[i].commit_id != g[j].commit_id);
            } else {
                assert(h[i] == g[i]);
                if g[i].commit_id == commit_id {
                    assert(has_commit(g, commit_id));
                }
            }
        }
        assert forall|i: int| 0 < i < h.len() implies (#[trigger] h[i]).parents.len() >= 1 by {
            if i < n {
                assert(h[i] == g[i]);
            }
        }
        assert(h[0] == g[0]);
    }
}

} // verus!
