//! What a rebuilt index has in common with the index it replaces.
//!
//! Rebuilding takes every commit from the object store: its change id and
//! its parents are what the store says. So a rebuilt index and an index
//! that was built from the same store hold, for every commit id that both
//! hold, the same commit; where they hold the same ids they hold the same
//! commits, and answer alike.

use vstd::prelude::*;
use crate::index::graph::{
    agree_below, all_indexed, graph_wf, has_commit, is_ancestor_at, lemma_ancestor_agrees,
    lemma_ancestor_transitive, lemma_parent_is_ancestor, lemma_position_unique,
    lemma_with_commit_wf, new_entry, parents_precede, position_of, with_commit, EntryView,
};
use crate::index::mutable::{id_views, root_entry};
use crate::index::recovery::{
    base_graph, graph_with, graph_with_first, lemma_agree_below_transitive, object_of,
    rebuilt_graph,
    Operation, StoredCommit,
};
use crate::index::sameness::{holds_commit_of, parent_ids_at, same_commits};
use crate::index::store::{store_head, SegmentStore};

verus! {

/// Whether the commit at `p` is as the store has it: the store holds a
/// commit of its id, with its change id and the ids of its parents.
pub open spec fn is_as_stored(g: Seq<EntryView>, objects: Seq<StoredCommit>, p: int) -> bool {
    match object_of(objects, g[p].commit_id) {
        Some(commit) => commit.change_id@ == g[p].change_id && id_views(commit.parent_ids@)
            == parent_ids_at(g, p),
        None => false,
    }
}

/// Whether every commit but the root is as the store has it.
pub open spec fn graph_as_stored(g: Seq<EntryView>, objects: Seq<StoredCommit>) -> bool {
    forall|p: int| 0 < p < g.len() ==> #[trigger] is_as_stored(g, objects, p)
}

/// Whether two graphs hold the same commit ids.
pub open spec fn same_ids(g: Seq<EntryView>, h: Seq<EntryView>) -> bool {
    forall|id: Seq<u8>| has_commit(g, id) <==> has_commit(h, id)
}

/// A graph that is made longer says of the commits that were there what it
/// said.
pub proof fn lemma_as_stored_stays(
    g: Seq<EntryView>,
    h: Seq<EntryView>,
    objects: Seq<StoredCommit>,
    p: int,
)
    requires
        graph_wf(g),
        agree_below(g, h, g.len() as int),
        0 <= p < g.len(),
    ensures
        parent_ids_at(h, p) == parent_ids_at(g, p),
        is_as_stored(h, objects, p) == is_as_stored(g, objects, p),
{
    assert(parents_precede(g, p));
    assert(h[p] == g[p]);
    assert(parent_ids_at(h, p) =~= parent_ids_at(g, p)) by {
        assert forall|k: int| 0 <= k < g[p].parents.len() implies parent_ids_at(h, p)[k]
            == parent_ids_at(g, p)[k] by {
            let q = g[p].parents[k];
            assert(0 <= q < p);
            assert(h[q] == g[q]);
        }
    }
}

/// A commit that is added as the store has it keeps the graph as the store
/// has it.
pub proof fn lemma_with_commit_as_stored(
    g: Seq<EntryView>,
    objects: Seq<StoredCommit>,
    id: Seq<u8>,
)
    requires
        graph_wf(g),
        graph_as_stored(g, objects),
        object_of(objects, id) is Some,
        object_of(objects, id)->0.parent_ids.len() >= 1,
        all_indexed(g, id_views(object_of(objects, id)->0.parent_ids@)),
        g.len() < u32::MAX,
    ensures
        graph_as_stored(
            with_commit(
                g,
                id,
                object_of(objects, id)->0.change_id@,
                id_views(object_of(objects, id)->0.parent_ids@),
            ),
            objects,
        ),
{
    let commit = object_of(objects, id)->0;
    let parent_ids = id_views(commit.parent_ids@);
    let h = with_commit(g, id, commit.change_id@, parent_ids);
    if !has_commit(g, id) {
        let n = g.len() as int;
        assert(agree_below(g, h, n));
        assert forall|p: int| 0 < p < h.len() implies #[trigger] is_as_stored(h, objects, p) by {
            if p < n {
                assert(is_as_stored(g, objects, p));
                lemma_as_stored_stays(g, h, objects, p);
            } else {
                let e = new_entry(g, id, commit.change_id@, parent_ids);
                assert(h[p] == e);
                assert(parent_ids_at(h, p) =~= parent_ids) by {
                    assert forall|k: int| 0 <= k < parent_ids.len() implies parent_ids_at(h, p)[k]
                        == parent_ids[k] by {
                        assert(has_commit(g, parent_ids[k]));
                        let q = position_of(g, parent_ids[k]);
                        assert(e.parents[k] == q);
                        assert(h[q] == g[q]);
                    }
                }
            }
        }
    }
}

/// Adding a commit with its history from the store keeps the graph well
/// formed and as the store has it, keeps what was there, and leaves the
/// commit indexed.
pub proof fn lemma_graph_with_as_stored(
    g: Seq<EntryView>,
    objects: Seq<StoredCommit>,
    id: Seq<u8>,
    depth: nat,
)
    requires
        graph_wf(g),
        graph_as_stored(g, objects),
        graph_with(g, objects, id, depth) is Ok,
    ensures
        graph_wf(graph_with(g, objects, id, depth)->Ok_0),
        graph_as_stored(graph_with(g, objects, id, depth)->Ok_0, objects),
        agree_below(g, graph_with(g, objects, id, depth)->Ok_0, g.len() as int),
        has_commit(graph_with(g, objects, id, depth)->Ok_0, id),
    decreases depth, 0nat, 0nat,
{
    if !has_commit(g, id) {
        let commit = object_of(objects, id)->0;
        let parent_ids = id_views(commit.parent_ids@);
        lemma_graph_with_first_as_stored(
            g,
            objects,
            parent_ids,
            (depth - 1) as nat,
            commit.parent_ids.len() as nat,
        );
        let with_parents = graph_with_first(
            g,
            objects,
            parent_ids,
            (depth - 1) as nat,
            commit.parent_ids.len() as nat,
        )->Ok_0;
        lemma_with_commit_wf(with_parents, id, commit.change_id@, parent_ids);
        lemma_with_commit_as_stored(with_parents, objects, id);
        let after = with_commit(with_parents, id, commit.change_id@, parent_ids);
        if has_commit(with_parents, id) {
        } else {
            assert(after[with_parents.len() as int].commit_id == id);
        }
    }
}

/// As `lemma_graph_with_as_stored`, for the first `upto` of a list of
/// commits.
pub proof fn lemma_graph_with_first_as_stored(
    g: Seq<EntryView>,
    objects: Seq<StoredCommit>,
    ids: Seq<Seq<u8>>,
    depth: nat,
    upto: nat,
)
    requires
        graph_wf(g),
        graph_as_stored(g, objects),
        graph_with_first(g, objects, ids, depth, upto) is Ok,
    ensures
        graph_wf(graph_with_first(g, objects, ids, depth, upto)->Ok_0),
        graph_as_stored(graph_with_first(g, objects, ids, depth, upto)->Ok_0, objects),
        agree_below(g, graph_with_first(g, objects, ids, depth, upto)->Ok_0, g.len() as int),
    decreases depth, 1nat, upto,
{
    if upto > 0 {
        lemma_graph_with_first_as_stored(g, objects, ids, depth, (upto - 1) as nat);
        let before = graph_with_first(g, objects, ids, depth, (upto - 1) as nat)->Ok_0;
        lemma_graph_with_as_stored(before, objects, ids[upto - 1], depth);
        lemma_agree_below_transitive(
            g,
            before,
            graph_with_first(g, objects, ids, depth, upto)->Ok_0,
        );
    }
}

/// Rebuilding from a graph that is as the store has it gives a graph that
/// is well formed and as the store has it, and keeps what was there.
pub proof fn law_rebuilt_graph_is_as_stored(
    g: Seq<EntryView>,
    objects: Seq<StoredCommit>,
    operations: Seq<Operation>,
    upto: int,
)
    requires
        graph_wf(g),
        graph_as_stored(g, objects),
        0 <= upto <= operations.len(),
        rebuilt_graph(g, objects, operations, upto) is Ok,
    ensures
        graph_wf(rebuilt_graph(g, objects, operations, upto)->Ok_0),
        graph_as_stored(rebuilt_graph(g, objects, operations, upto)->Ok_0, objects),
        agree_below(g, rebuilt_graph(g, objects, operations, upto)->Ok_0, g.len() as int),
    decreases upto,
{
    if upto > 0 {
        law_rebuilt_graph_is_as_stored(g, objects, operations, upto - 1);
        let before = rebuilt_graph(g, objects, operations, upto - 1)->Ok_0;
        let op = operations[upto - 1];
        lemma_graph_with_first_as_stored(
            before,
            objects,
            id_views(op.heads@),
            objects.len(),
            op.heads.len() as nat,
        );
        lemma_agree_below_transitive(
            g,
            before,
            rebuilt_graph(g, objects, operations, upto)->Ok_0,
        );
    }
}

/// Two graphs over one root that are as the store has them hold, where
/// they hold the same commit ids, the same commits.
pub proof fn law_stored_graphs_hold_the_same_commits(
    g: Seq<EntryView>,
    h: Seq<EntryView>,
    objects: Seq<StoredCommit>,
)
    requires
        graph_wf(g),
        graph_wf(h),
        g[0] == h[0],
        graph_as_stored(g, objects),
        graph_as_stored(h, objects),
        same_ids(g, h),
    ensures
        same_commits(g, h),
{
    lemma_holds_commits_as_stored(g, h, objects);
    lemma_holds_commits_as_stored(h, g, objects);
}

/// One side of `law_stored_graphs_hold_the_same_commits`.
pub proof fn lemma_holds_commits_as_stored(
    g: Seq<EntryView>,
    h: Seq<EntryView>,
    objects: Seq<StoredCommit>,
)
    requires
        graph_wf(g),
        graph_wf(h),
        g[0] == h[0],
        graph_as_stored(g, objects),
        graph_as_stored(h, objects),
        same_ids(g, h),
    ensures
        crate::index::sameness::holds_commits_of(g, h),
{
    assert forall|p: int| 0 <= p < g.len() implies #[trigger] holds_commit_of(g, h, p) by {
        lemma_position_unique(g, p);
        assert(has_commit(g, g[p].commit_id));
        assert(has_commit(h, g[p].commit_id));
        let q = position_of(h, g[p].commit_id);
        lemma_position_unique(h, 0);
        lemma_position_unique(g, 0);
        if p == 0 {
            assert(q == 0);
            assert(parent_ids_at(h, 0) =~= parent_ids_at(g, 0));
        } else {
            if q == 0 {
                assert(g[0].commit_id == g[p].commit_id);
            }
            assert(is_as_stored(g, objects, p));
            assert(is_as_stored(h, objects, q));
        }
    }
}

/// A store without links gives the root alone to start from.
pub proof fn lemma_base_without_links(
    store: SegmentStore,
    operations: Seq<Operation>,
    root: EntryView,
    upto: int,
)
    requires
        store.op_links.len() == 0,
        store.legacy_op_links.len() == 0,
    ensures
        base_graph(store, operations, root, upto) == seq![root],
    decreases upto,
{
    if upto > 0 {
        assert(store_head(store, operations[upto - 1].id@) is None);
        lemma_base_without_links(store, operations, root, upto - 1);
    }
}

/// Whether the commit at `p` is one of the first `upto` commits or stands
/// in the history of one of them.
pub open spec fn is_history_of(r: Seq<EntryView>, ids: Seq<Seq<u8>>, upto: int, p: int) -> bool {
    exists|j: int|
        0 <= j < upto && j < ids.len() && has_commit(r, #[trigger] ids[j]) && is_ancestor_at(
            r,
            p,
            position_of(r, ids[j]),
        )
}

/// Whether the graph holds the first `upto` of the commits.
pub open spec fn holds_first(r: Seq<EntryView>, ids: Seq<Seq<u8>>, upto: int) -> bool {
    forall|j: int| 0 <= j < upto && j < ids.len() ==> has_commit(r, #[trigger] ids[j])
}

/// Whether the commit at `p` is a head of one of the first `upto`
/// operations or stands in the history of one.
pub open spec fn is_history_of_heads(
    r: Seq<EntryView>,
    operations: Seq<Operation>,
    upto: int,
    p: int,
) -> bool {
    exists|j: int|
        0 <= j < upto && j < operations.len() && #[trigger] is_history_of(
            r,
            id_views(operations[j].heads@),
            operations[j].heads.len() as int,
            p,
        )
}

/// Whether the graph holds the heads of the first `upto` operations.
pub open spec fn holds_heads(r: Seq<EntryView>, operations: Seq<Operation>, upto: int) -> bool {
    forall|j: int|
        0 <= j < upto && j < operations.len() ==> #[trigger] holds_first(
            r,
            id_views(operations[j].heads@),
            operations[j].heads.len() as int,
        )
}

/// A commit keeps its place in a graph that is made longer.
pub proof fn lemma_position_stays(g: Seq<EntryView>, h: Seq<EntryView>, id: Seq<u8>)
    requires
        graph_wf(h),
        agree_below(g, h, g.len() as int),
        has_commit(g, id),
    ensures
        has_commit(h, id),
        position_of(h, id) == position_of(g, id),
        position_of(g, id) < g.len(),
{
    let q = position_of(g, id);
    assert(h[q] == g[q]);
    lemma_position_unique(h, q);
}

/// What stands in the history of commits stands there in a graph that is
/// made longer.
pub proof fn lemma_history_stays(
    g: Seq<EntryView>,
    h: Seq<EntryView>,
    ids: Seq<Seq<u8>>,
    upto: int,
    p: int,
)
    requires
        graph_wf(h),
        agree_below(g, h, g.len() as int),
        is_history_of(g, ids, upto, p),
    ensures
        is_history_of(h, ids, upto, p),
{
    let j = choose|j: int|
        0 <= j < upto && j < ids.len() && has_commit(g, #[trigger] ids[j]) && is_ancestor_at(
            g,
            p,
            position_of(g, ids[j]),
        );
    lemma_position_stays(g, h, ids[j]);
    lemma_ancestor_agrees(g, h, g.len() as int, p, position_of(g, ids[j]));
}

/// What is added with a commit stands in the history of the commit.
pub proof fn lemma_graph_with_history(
    g: Seq<EntryView>,
    objects: Seq<StoredCommit>,
    id: Seq<u8>,
    depth: nat,
)
    requires
        graph_wf(g),
        graph_as_stored(g, objects),
        graph_with(g, objects, id, depth) is Ok,
    ensures
        has_commit(graph_with(g, objects, id, depth)->Ok_0, id),
        forall|p: int|
            g.len() <= p < graph_with(g, objects, id, depth)->Ok_0.len() ==> #[trigger] is_ancestor_at(
                graph_with(g, objects, id, depth)->Ok_0,
                p,
                position_of(graph_with(g, objects, id, depth)->Ok_0, id),
            ),
    decreases depth, 0nat, 0nat,
{
    lemma_graph_with_as_stored(g, objects, id, depth);
    if !has_commit(g, id) {
        let r = graph_with(g, objects, id, depth)->Ok_0;
        let commit = object_of(objects, id)->0;
        let parent_ids = id_views(commit.parent_ids@);
        let count = commit.parent_ids.len() as nat;
        lemma_graph_with_first_as_stored(g, objects, parent_ids, (depth - 1) as nat, count);
        lemma_graph_with_first_history(g, objects, parent_ids, (depth - 1) as nat, count);
        let wp = graph_with_first(g, objects, parent_ids, (depth - 1) as nat, count)->Ok_0;
        lemma_with_commit_wf(wp, id, commit.change_id@, parent_ids);
        let q = position_of(r, id);
        lemma_position_unique(r, q);
        assert(0 < q) by {
            if q == 0 {
                assert(g[0] == r[0]);
                assert(g[0].commit_id == id);
            }
        }
        assert(is_as_stored(r, objects, q));
        assert(parents_precede(r, q));
        assert forall|p: int| g.len() <= p < r.len() implies #[trigger] is_ancestor_at(r, p, q) by {
            if p == q {
            } else {
                if p >= wp.len() {
                    assert(r.len() == wp.len() + 1);
                    assert(r[p].commit_id == id);
                    lemma_position_unique(r, p);
                }
                assert(p < wp.len());
                assert(is_history_of(wp, parent_ids, count as int, p));
                assert(agree_below(wp, r, wp.len() as int));
                lemma_history_stays(wp, r, parent_ids, count as int, p);
                let j = choose|j: int|
                    0 <= j < count && j < parent_ids.len() && has_commit(r, #[trigger] parent_ids[j])
                        && is_ancestor_at(r, p, position_of(r, parent_ids[j]));
                let parent = position_of(r, parent_ids[j]);
                assert(parent_ids_at(r, q)[j] == parent_ids[j]);
                let at = r[q].parents[j];
                assert(0 <= at < q);
                lemma_position_unique(r, at);
                assert(at == parent);
                lemma_parent_is_ancestor(r, q, j);
                lemma_ancestor_transitive(r, p, parent, q);
            }
        }
    }
}

/// What is added with the first `upto` of the commits stands in the
/// history of one of them, and they are indexed.
pub proof fn lemma_graph_with_first_history(
    g: Seq<EntryView>,
    objects: Seq<StoredCommit>,
    ids: Seq<Seq<u8>>,
    depth: nat,
    upto: nat,
)
    requires
        graph_wf(g),
        graph_as_stored(g, objects),
        upto <= ids.len(),
        graph_with_first(g, objects, ids, depth, upto) is Ok,
    ensures
        holds_first(graph_with_first(g, objects, ids, depth, upto)->Ok_0, ids, upto as int),
        forall|p: int|
            g.len() <= p < graph_with_first(g, objects, ids, depth, upto)->Ok_0.len()
                ==> #[trigger] is_history_of(
                graph_with_first(g, objects, ids, depth, upto)->Ok_0,
                ids,
                upto as int,
                p,
            ),
    decreases depth, 1nat, upto,
{
    if upto > 0 {
        let r = graph_with_first(g, objects, ids, depth, upto)->Ok_0;
        lemma_graph_with_first_as_stored(g, objects, ids, depth, (upto - 1) as nat);
        lemma_graph_with_first_history(g, objects, ids, depth, (upto - 1) as nat);
        let before = graph_with_first(g, objects, ids, depth, (upto - 1) as nat)->Ok_0;
        lemma_graph_with_as_stored(before, objects, ids[upto - 1], depth);
        lemma_graph_with_history(before, objects, ids[upto - 1], depth);
        assert forall|j: int| 0 <= j < upto && j < ids.len() implies has_commit(
            r,
            #[trigger] ids[j],
        ) by {
            if j < upto - 1 {
                assert(has_commit(before, ids[j]));
                lemma_position_stays(before, r, ids[j]);
            }
        }
        assert forall|p: int| g.len() <= p < r.len() implies #[trigger] is_history_of(
            r,
            ids,
            upto as int,
            p,
        ) by {
            if p < before.len() {
                assert(is_history_of(before, ids, upto - 1, p));
                lemma_history_stays(before, r, ids, upto - 1, p);
                let j = choose|j: int|
                    0 <= j < upto - 1 && j < ids.len() && has_commit(r, #[trigger] ids[j])
                        && is_ancestor_at(r, p, position_of(r, ids[j]));
                assert(0 <= j < upto);
            } else {
                assert(is_ancestor_at(r, p, position_of(r, ids[upto - 1])));
                assert(has_commit(r, ids[upto - 1]));
            }
        }
    }
}

/// What rebuilding adds are the heads of the operations and what stands in
/// their histories, and the heads are indexed.
pub proof fn law_rebuilt_graph_holds_the_histories(
    g: Seq<EntryView>,
    objects: Seq<StoredCommit>,
    operations: Seq<Operation>,
    upto: int,
)
    requires
        graph_wf(g),
        graph_as_stored(g, objects),
        0 <= upto <= operations.len(),
        rebuilt_graph(g, objects, operations, upto) is Ok,
    ensures
        holds_heads(rebuilt_graph(g, objects, operations, upto)->Ok_0, operations, upto),
        forall|p: int|
            g.len() <= p < rebuilt_graph(g, objects, operations, upto)->Ok_0.len()
                ==> #[trigger] is_history_of_heads(
                rebuilt_graph(g, objects, operations, upto)->Ok_0,
                operations,
                upto,
                p,
            ),
    decreases upto,
{
    if upto > 0 {
        let r = rebuilt_graph(g, objects, operations, upto)->Ok_0;
        law_rebuilt_graph_is_as_stored(g, objects, operations, upto - 1);
        law_rebuilt_graph_is_as_stored(g, objects, operations, upto);
        law_rebuilt_graph_holds_the_histories(g, objects, operations, upto - 1);
        let before = rebuilt_graph(g, objects, operations, upto - 1)->Ok_0;
        let op = operations[upto - 1];
        let heads = id_views(op.heads@);
        let count = op.heads.len() as nat;
        lemma_graph_with_first_as_stored(before, objects, heads, objects.len(), count);
        lemma_graph_with_first_history(before, objects, heads, objects.len(), count);
        assert forall|j: int| 0 <= j < upto && j < operations.len() implies #[trigger] holds_first(
            r,
            id_views(operations[j].heads@),
            operations[j].heads.len() as int,
        ) by {
            if j < upto - 1 {
                let ids = id_views(operations[j].heads@);
                assert(holds_first(before, ids, operations[j].heads.len() as int));
                assert forall|i: int|
                    0 <= i < operations[j].heads.len() && i < ids.len() implies has_commit(
                    r,
                    #[trigger] ids[i],
                ) by {
                    assert(has_commit(before, ids[i]));
                    lemma_position_stays(before, r, ids[i]);
                }
            }
        }
        assert forall|p: int| g.len() <= p < r.len() implies #[trigger] is_history_of_heads(
            r,
            operations,
            upto,
            p,
        ) by {
            if p < before.len() {
                assert(is_history_of_heads(before, operations, upto - 1, p));
                let j = choose|j: int|
                    0 <= j < upto - 1 && j < operations.len() && #[trigger] is_history_of(
                        before,
                        id_views(operations[j].heads@),
                        operations[j].heads.len() as int,
                        p,
                    );
                lemma_history_stays(
                    before,
                    r,
                    id_views(operations[j].heads@),
                    operations[j].heads.len() as int,
                    p,
                );
            } else {
                assert(is_history_of(r, heads, count as int, p));
            }
        }
    }
}

/// A graph that holds a commit holds what stands in the history of the
/// commit in another graph, where both are as the store has them.
pub proof fn lemma_history_is_held(
    g: Seq<EntryView>,
    h: Seq<EntryView>,
    objects: Seq<StoredCommit>,
    a: int,
    b: int,
)
    requires
        graph_wf(g),
        graph_wf(h),
        g[0].commit_id == h[0].commit_id,
        graph_as_stored(g, objects),
        graph_as_stored(h, objects),
        is_ancestor_at(g, a, b),
        has_commit(h, g[b].commit_id),
    ensures
        has_commit(h, g[a].commit_id),
    decreases b,
{
    if a != b {
        let k = choose|k: int|
            0 <= k < g[b].parents.len() && 0 <= #[trigger] g[b].parents[k] < b && is_ancestor_at(
                g,
                a,
                g[b].parents[k],
            );
        let p = g[b].parents[k];
        let q = position_of(h, g[b].commit_id);
        assert(0 < q) by {
            if q == 0 {
                assert(g[0].commit_id == g[b].commit_id);
            }
        }
        assert(is_as_stored(g, objects, b));
        assert(is_as_stored(h, objects, q));
        assert(parent_ids_at(g, b)[k] == g[p].commit_id);
        assert(parent_ids_at(h, q).len() == parent_ids_at(g, b).len());
        assert(parents_precede(h, q));
        let hp = h[q].parents[k];
        assert(0 <= hp < q);
        assert(parent_ids_at(h, q)[k] == h[hp].commit_id);
        assert(h[hp].commit_id == g[p].commit_id);
        lemma_history_is_held(g, h, objects, a, p);
    }
}

/// After the files and links of the index were discarded, the index that
/// is rebuilt from the operations holds the same commits as the index
/// before, where that index was built from the same object store and held
/// the heads of the operations and what stands in their histories, and no
/// more. So the rebuilt index answers as the index before did: see the
/// laws of `sameness`.
pub proof fn law_rebuilt_index_is_the_index_before(
    before: Seq<EntryView>,
    store: SegmentStore,
    operations: Seq<Operation>,
    objects: Seq<StoredCommit>,
    root_commit_id: Seq<u8>,
    root_change_id: Seq<u8>,
)
    requires
        store.op_links.len() == 0,
        store.legacy_op_links.len() == 0,
        graph_wf(before),
        before[0] == root_entry(root_commit_id, root_change_id),
        graph_as_stored(before, objects),
        holds_heads(before, operations, operations.len() as int),
        forall|p: int|
            0 < p < before.len() ==> #[trigger] is_history_of_heads(
                before,
                operations,
                operations.len() as int,
                p,
            ),
        rebuilt_graph(
            base_graph(
                store,
                operations,
                root_entry(root_commit_id, root_change_id),
                operations.len() as int,
            ),
            objects,
            operations,
            operations.len() as int,
        ) is Ok,
    ensures
        same_commits(
            before,
            rebuilt_graph(
                base_graph(
                    store,
                    operations,
                    root_entry(root_commit_id, root_change_id),
                    operations.len() as int,
                ),
                objects,
                operations,
                operations.len() as int,
            )->Ok_0,
        ),
{
    let root = root_entry(root_commit_id, root_change_id);
    let n = operations.len() as int;
    lemma_base_without_links(store, operations, root, n);
    let base = seq![root];
    assert(graph_wf(base)) by {
        assert(crate::index::graph::parents_precede(base, 0));
        assert(crate::index::graph::generation_rule(base, 0));
    }
    law_rebuilt_graph_is_as_stored(base, objects, operations, n);
    law_rebuilt_graph_holds_the_histories(base, objects, operations, n);
    let after = rebuilt_graph(base, objects, operations, n)->Ok_0;
    assert(after[0] == base[0]);
    assert forall|id: Seq<u8>| has_commit(before, id) <==> has_commit(after, id) by {
        if has_commit(before, id) {
            let p = position_of(before, id);
            lemma_held_in_other(before, after, objects, operations, p);
        }
        if has_commit(after, id) {
            let p = position_of(after, id);
            lemma_held_in_other(after, before, objects, operations, p);
        }
    }
    law_stored_graphs_hold_the_same_commits(before, after, objects);
}

/// A graph that holds the heads of the operations holds every commit that
/// another graph holds as a head or in the history of one, where both are
/// as the store has them.
pub proof fn lemma_held_in_other(
    g: Seq<EntryView>,
    h: Seq<EntryView>,
    objects: Seq<StoredCommit>,
    operations: Seq<Operation>,
    p: int,
)
    requires
        graph_wf(g),
        graph_wf(h),
        g[0].commit_id == h[0].commit_id,
        graph_as_stored(g, objects),
        graph_as_stored(h, objects),
        holds_heads(h, operations, operations.len() as int),
        0 <= p < g.len(),
        p > 0 ==> is_history_of_heads(g, operations, operations.len() as int, p),
    ensures
        has_commit(h, g[p].commit_id),
{
    if p == 0 {
        assert(h[0].commit_id == g[0].commit_id);
    } else {
        let j = choose|j: int|
            0 <= j < operations.len() && j < operations.len() && #[trigger] is_history_of(
                g,
                id_views(operations[j].heads@),
                operations[j].heads.len() as int,
                p,
            );
        let ids = id_views(operations[j].heads@);
        let i = choose|i: int|
            0 <= i < operations[j].heads.len() && i < ids.len() && has_commit(g, #[trigger] ids[i])
                && is_ancestor_at(g, p, position_of(g, ids[i]));
        assert(holds_first(h, ids, operations[j].heads.len() as int));
        assert(has_commit(h, ids[i]));
        let b = position_of(g, ids[i]);
        lemma_history_is_held(g, h, objects, p, b);
    }
}

} // verus!
