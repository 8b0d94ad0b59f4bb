//! The graph of two chains that merge with each other at every generation.
//!
//! The two commits of a generation both have the two commits of the
//! generation before as their parents, so the number of paths from a tip
//! to the root doubles with every generation. The graph itself grows by
//! two commits and four edges a generation, and that, not the number of
//! paths, bounds the work of an ancestry query on it.

use vstd::prelude::*;
use crate::index::ancestry::{marked_edges, num_edges};
use crate::index::graph::{
    all_indexed, graph_wf, has_commit, is_ancestor_at, lemma_position_unique,
    lemma_with_commit_wf, new_entry, position_of, positions_of, with_commit, EntryView,
};
use crate::index::history::{
    all_generations, all_parents, is_in_history, law_full_range_is_the_history,
    parents_can_be_numbered,
};
use crate::index::reach::{marked_ids, marked_ids_from};
use crate::index::revset::{
    first_missing, first_missing_from, is_in_range, range_commits, range_error, range_marks,
    range_result,
};

verus! {

/// The ids of the parents of the commits of a generation: the root for the
/// first generation, the two commits of the generation before for the
/// others.
pub open spec fn criss_cross_parents(
    root: EntryView,
    left: Seq<Seq<u8>>,
    right: Seq<Seq<u8>>,
    generation: int,
) -> Seq<Seq<u8>> {
    if generation <= 1 {
        seq![root.commit_id]
    } else {
        seq![left[generation - 2], right[generation - 2]]
    }
}

/// The criss-cross graph of the given depth on the root: generation by
/// generation the left commit and the right commit are added, each on the
/// two commits of the generation before. A commit carries its commit id as
/// its change id.
pub open spec fn criss_cross(
    root: EntryView,
    left: Seq<Seq<u8>>,
    right: Seq<Seq<u8>>,
    depth: nat,
) -> Seq<EntryView>
    decreases depth,
{
    if depth == 0 {
        seq![root]
    } else {
        let before = criss_cross(root, left, right, (depth - 1) as nat);
        let parents = criss_cross_parents(root, left, right, depth as int);
        with_commit(
            with_commit(before, left[depth - 1], left[depth - 1], parents),
            right[depth - 1],
            right[depth - 1],
            parents,
        )
    }
}

/// Whether the ids name the commits of a criss-cross graph of the given
/// depth: there are enough of them, and no two commits, the root among
/// them, carry the same id.
pub open spec fn criss_cross_ids(
    root: EntryView,
    left: Seq<Seq<u8>>,
    right: Seq<Seq<u8>>,
    depth: nat,
) -> bool {
    &&& left.len() >= depth
    &&& right.len() >= depth
    &&& forall|i: int| 0 <= i < depth ==> #[trigger] left[i] != root.commit_id
    &&& forall|i: int| 0 <= i < depth ==> #[trigger] right[i] != root.commit_id
    &&& forall|i: int, j: int| 0 <= i < depth && 0 <= j < depth ==> #[trigger] left[i] != #[trigger] right[j]
    &&& forall|i: int, j: int| 0 <= i < j < depth ==> #[trigger] left[i] != #[trigger] left[j]
    &&& forall|i: int, j: int| 0 <= i < j < depth ==> #[trigger] right[i] != #[trigger] right[j]
}

/// The entries of a criss-cross graph stand where their generation puts
/// them: the left commit of generation `k` at `2k - 1`, the right one at
/// `2k`.
pub open spec fn criss_cross_placed(
    g: Seq<EntryView>,
    root: EntryView,
    left: Seq<Seq<u8>>,
    right: Seq<Seq<u8>>,
    depth: nat,
) -> bool {
    &&& g.len() == 1 + 2 * depth
    &&& g[0] == root
    &&& forall|k: int|
        1 <= k <= depth ==> (#[trigger] g[2 * k - 1]).commit_id == left[k - 1] && g[2 * k].commit_id
            == right[k - 1]
    &&& forall|p: int| 1 <= p < g.len() ==> (#[trigger] g[p]).parents == criss_cross_parents_at(p)
}

/// The positions of the parents of the entry at `p` of a criss-cross
/// graph: the root for the first generation, the two entries of the
/// generation before for the others.
pub open spec fn criss_cross_parents_at(p: int) -> Seq<int> {
    if p <= 2 {
        seq![0int]
    } else {
        seq![2 * ((p + 1) / 2) - 3, 2 * ((p + 1) / 2) - 2]
    }
}

/// A criss-cross graph of depth `D` holds `1 + 2D` commits, is well
/// formed, and has four edges for every generation but the first, which
/// has two.
pub proof fn law_criss_cross_size(
    root: EntryView,
    left: Seq<Seq<u8>>,
    right: Seq<Seq<u8>>,
    depth: nat,
)
    requires
        root.parents.len() == 0,
        root.generation == 0,
        criss_cross_ids(root, left, right, depth),
        1 + 2 * depth <= u32::MAX,
    ensures
        criss_cross(root, left, right, depth).len() == 1 + 2 * depth,
        graph_wf(criss_cross(root, left, right, depth)),
        criss_cross_placed(criss_cross(root, left, right, depth), root, left, right, depth),
        num_edges(criss_cross(root, left, right, depth)) == if depth == 0 {
            0int
        } else {
            4 * depth - 2
        },
    decreases depth,
{
    let g = criss_cross(root, left, right, depth);
    if depth == 0 {
        assert(crate::index::graph::parents_precede(g, 0));
        assert(crate::index::graph::generation_rule(g, 0));
        assert(marked_edges(g, Seq::new(g.len(), |p: int| true), 0) == 0);
    } else {
        let d = depth as int;
        law_criss_cross_size(root, left, right, (depth - 1) as nat);
        let before = criss_cross(root, left, right, (depth - 1) as nat);
        let n = before.len() as int;
        let parents = criss_cross_parents(root, left, right, d);
        assert(all_indexed(before, parents)) by {
            if d == 1 {
                assert(before[0].commit_id == root.commit_id);
            } else {
                assert(before[2 * (d - 1) - 1].commit_id == left[d - 2]);
                assert(before[2 * (d - 1)].commit_id == right[d - 2]);
            }
        }
        assert(!has_commit(before, left[d - 1])) by {
            lemma_not_placed(before, root, left, right, (depth - 1) as nat, left[d - 1]);
        }
        lemma_with_commit_wf(before, left[d - 1], left[d - 1], parents);
        let mid = with_commit(before, left[d - 1], left[d - 1], parents);
        assert(mid == before.push(new_entry(before, left[d - 1], left[d - 1], parents)));
        assert(all_indexed(mid, parents)) by {
            assert forall|k: int| 0 <= k < parents.len() implies has_commit(
                mid,
                #[trigger] parents[k],
            ) by {
                assert(has_commit(before, parents[k]));
                let q = choose|q: int|
                    0 <= q < before.len() && (#[trigger] before[q]).commit_id == parents[k];
                assert(mid[q].commit_id == parents[k]);
            }
        }
        assert(!has_commit(mid, right[d - 1])) by {
            if has_commit(mid, right[d - 1]) {
                let q = choose|q: int|
                    0 <= q < mid.len() && (#[trigger] mid[q]).commit_id == right[d - 1];
                if q < n {
                    assert(before[q].commit_id == right[d - 1]);
                    lemma_not_placed(before, root, left, right, (depth - 1) as nat, right[d - 1]);
                } else {
                    assert(left[d - 1] != right[d - 1]);
                }
            }
        }
        lemma_with_commit_wf(mid, right[d - 1], right[d - 1], parents);
        assert(g == mid.push(new_entry(mid, right[d - 1], right[d - 1], parents)));
        assert(g.len() == 1 + 2 * d);
        assert forall|k: int| 1 <= k <= d implies (#[trigger] g[2 * k - 1]).commit_id == left[k
            - 1] && g[2 * k].commit_id == right[k - 1] by {
            if k < d {
                assert(before[2 * k - 1].commit_id == left[k - 1]);
                assert(g[2 * k - 1] == before[2 * k - 1]);
                assert(g[2 * k] == before[2 * k]);
            }
        }
        assert forall|p: int| 1 <= p < g.len() implies (#[trigger] g[p]).parents
            == criss_cross_parents_at(p) by {
            if p < n {
                assert(g[p] == before[p]);
            } else {
                if d == 1 {
                    lemma_position_unique(before, 0);
                    lemma_position_unique(mid, 0);
                } else {
                    lemma_position_unique(before, 2 * (d - 1) - 1);
                    lemma_position_unique(before, 2 * (d - 1));
                    lemma_position_unique(mid, 2 * (d - 1) - 1);
                    lemma_position_unique(mid, 2 * (d - 1));
                    assert(mid[2 * (d - 1) - 1] == before[2 * (d - 1) - 1]);
                    assert(mid[2 * (d - 1)] == before[2 * (d - 1)]);
                }
                assert(g[n].parents =~= criss_cross_parents_at(n));
                assert(g[n + 1].parents =~= criss_cross_parents_at(n + 1));
            }
        }
        let all = Seq::new(g.len(), |p: int| true);
        let fewer = Seq::new(before.len(), |p: int| true);
        lemma_marked_edges_agree(before, fewer, g, all, n);
        assert(marked_edges(g, all, n + 2) == marked_edges(g, all, n) + g[n].parents.len()
            + g[n + 1].parents.len()) by {
            assert(marked_edges(g, all, n + 1) == marked_edges(g, all, n) + g[n].parents.len());
        }
    }
}

/// An id that is none of the ids of a criss-cross graph is not indexed in
/// it.
pub proof fn lemma_not_placed(
    g: Seq<EntryView>,
    root: EntryView,
    left: Seq<Seq<u8>>,
    right: Seq<Seq<u8>>,
    depth: nat,
    id: Seq<u8>,
)
    requires
        left.len() >= depth,
        right.len() >= depth,
        criss_cross_placed(g, root, left, right, depth),
        id != root.commit_id,
        forall|i: int| 0 <= i < depth ==> #[trigger] left[i] != id,
        forall|i: int| 0 <= i < depth ==> #[trigger] right[i] != id,
    ensures
        !has_commit(g, id),
{
    if has_commit(g, id) {
        let q = choose|q: int| 0 <= q < g.len() && (#[trigger] g[q]).commit_id == id;
        if q > 0 {
            let k = (q + 1) / 2;
            if q == 2 * k - 1 {
                assert(g[2 * k - 1].commit_id == left[k - 1]);
            } else {
                assert(q == 2 * k);
                assert(g[2 * k - 1].commit_id == left[k - 1]);
                assert(g[2 * k].commit_id == right[k - 1]);
            }
        }
    }
}

/// The edges of marked entries depend on the entries and their marks only.
pub proof fn lemma_marked_edges_agree(
    g: Seq<EntryView>,
    marks: Seq<bool>,
    h: Seq<EntryView>,
    others: Seq<bool>,
    upto: int,
)
    requires
        0 <= upto <= g.len(),
        upto <= h.len(),
        upto <= marks.len(),
        upto <= others.len(),
        forall|p: int| 0 <= p < upto ==> g[p] == h[p] && marks[p] == others[p],
    ensures
        marked_edges(g, marks, upto) == marked_edges(h, others, upto),
    decreases upto,
{
    if upto > 0 {
        lemma_marked_edges_agree(g, marks, h, others, upto - 1);
    }
}

/// Every entry of a criss-cross graph that stands in a generation before
/// that of the entry at `b` is an ancestor of the entry at `b`.
pub proof fn lemma_criss_cross_ancestors(
    g: Seq<EntryView>,
    root: EntryView,
    left: Seq<Seq<u8>>,
    right: Seq<Seq<u8>>,
    depth: nat,
    p: int,
    b: int,
)
    requires
        criss_cross_placed(g, root, left, right, depth),
        1 <= b < g.len(),
        0 <= p <= 2 * ((b + 1) / 2) - 2,
    ensures
        is_ancestor_at(g, p, b),
    decreases b,
{
    let k = (b + 1) / 2;
    assert(g[b].parents == criss_cross_parents_at(b));
    if b <= 2 {
        assert(p == 0);
        assert(g[b].parents[0] == 0);
        assert(is_ancestor_at(g, 0, 0));
    } else {
        let first = 2 * k - 3;
        let second = 2 * k - 2;
        assert(g[b].parents[0] == first);
        assert(g[b].parents[1] == second);
        if p == second {
            assert(is_ancestor_at(g, p, second));
        } else if p == first {
            assert(is_ancestor_at(g, p, first));
        } else {
            lemma_criss_cross_ancestors(g, root, left, right, depth, p, second);
        }
    }
}

/// The ids of the entries from `from` on, where every entry is marked.
pub proof fn lemma_all_marked(g: Seq<EntryView>, marks: Seq<bool>, from: int)
    requires
        marks.len() == g.len(),
        0 <= from <= g.len(),
        forall|p: int| 0 <= p < g.len() ==> marks[p],
    ensures
        marked_ids_from(g, marks, from).len() == g.len() - from,
    decreases g.len() - from,
{
    if from < g.len() {
        lemma_all_marked(g, marks, from + 1);
    }
}

/// The range of all generations from the two tips of a criss-cross graph
/// of depth `D` holds `1 + 2D` commits: the whole graph.
pub proof fn law_criss_cross_range(
    root: EntryView,
    left: Seq<Seq<u8>>,
    right: Seq<Seq<u8>>,
    depth: nat,
)
    requires
        root.parents.len() == 0,
        root.generation == 0,
        depth >= 1,
        criss_cross_ids(root, left, right, depth),
        1 + 2 * depth <= u32::MAX,
    ensures
        range_result(
            criss_cross(root, left, right, depth),
            Seq::empty(),
            seq![left[depth - 1], right[depth - 1]],
            all_generations(),
            all_parents(),
        ) is Ok,
        range_result(
            criss_cross(root, left, right, depth),
            Seq::empty(),
            seq![left[depth - 1], right[depth - 1]],
            all_generations(),
            all_parents(),
        )->Ok_0.len() == 1 + 2 * depth,
{
    let g = criss_cross(root, left, right, depth);
    let d = depth as int;
    let none = Seq::<Seq<u8>>::empty();
    let tips = seq![left[d - 1], right[d - 1]];
    law_criss_cross_size(root, left, right, depth);
    assert(g[2 * d - 1].commit_id == left[d - 1]);
    assert(g[2 * d].commit_id == right[d - 1]);
    lemma_position_unique(g, 2 * d - 1);
    lemma_position_unique(g, 2 * d);
    assert(first_missing(g, none) is None);
    assert(first_missing(g, tips) is None) by {
        assert(first_missing_from(g, tips, 2) is None);
        assert(first_missing_from(g, tips, 1) is None);
    }
    assert(range_error(g, none, tips, all_generations(), all_parents()) is None);
    let heads = positions_of(g, tips);
    assert(heads[0] == 2 * d - 1);
    assert(heads[1] == 2 * d);
    assert(positions_of(g, none) =~= Seq::<int>::empty());
    assert(parents_can_be_numbered(g)) by {
        assert forall|p: int| 0 <= p < g.len() implies (#[trigger] g[p]).parents.len()
            <= u32::MAX by {
            if p > 0 {
                assert(g[p].parents == criss_cross_parents_at(p));
            }
        }
    }
    let marks = range_marks(g, positions_of(g, none), heads, all_generations(), all_parents());
    assert forall|x: int| 0 <= x < g.len() implies marks[x] by {
        law_full_range_is_the_history(g, heads, x);
        if x == 2 * d - 1 {
            assert(is_ancestor_at(g, x, heads[0]));
        } else if x == 2 * d {
            assert(is_ancestor_at(g, x, heads[1]));
        } else {
            lemma_criss_cross_ancestors(g, root, left, right, depth, x, 2 * d);
            assert(is_ancestor_at(g, x, heads[1]));
        }
        assert(is_in_history(g, heads, x));
    }
    lemma_all_marked(g, marks, 0);
}

} // verus!
