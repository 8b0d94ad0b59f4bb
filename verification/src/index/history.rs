//! The range of all generations is the history of the heads.
//!
//! A range that asks for every generation and every parent, and has no
//! roots, holds a commit exactly if the commit is one of the heads or an
//! ancestor of one. So what a range evaluation says agrees with what the
//! ancestry queries say.

use vstd::prelude::*;
use crate::index::ancestry::is_ancestor_id;
use crate::index::graph::{
    graph_wf, has_commit, is_ancestor_at, parents_precede, position_of, positions_of, EntryView,
};
use crate::index::sameness::{holds_commit_of, law_same_ancestry, same_commits};
use crate::index::revset::{
    follows_parent, is_behind, is_in_range, is_within, lemma_reach_distance, reached_at,
    reaches_in, GenerationRange, ParentsRange,
};

verus! {

/// The range of all generations.
pub open spec fn all_generations() -> GenerationRange {
    GenerationRange { start: 0, end: u64::MAX }
}

/// The range of all parents.
pub open spec fn all_parents() -> ParentsRange {
    ParentsRange { start: 0, end: u32::MAX }
}

/// Whether the walk can follow every parent of every entry: no entry has
/// more parents than can be numbered.
pub open spec fn parents_can_be_numbered(g: Seq<EntryView>) -> bool {
    forall|p: int| 0 <= p < g.len() ==> (#[trigger] g[p]).parents.len() <= u32::MAX
}

/// Whether the entry at `x` is one of the heads or an ancestor of one.
pub open spec fn is_in_history(g: Seq<EntryView>, heads: Seq<int>, x: int) -> bool {
    exists|i: int| 0 <= i < heads.len() && is_ancestor_at(g, x, #[trigger] heads[i])
}

/// An ancestor is reached by a walk over all parents.
pub proof fn lemma_ancestor_is_reached(g: Seq<EntryView>, x: int, h: int)
    requires
        graph_wf(g),
        parents_can_be_numbered(g),
        is_ancestor_at(g, x, h),
    ensures
        exists|d: int| 0 <= d <= h - x && #[trigger] reaches_in(g, all_parents(), h, x, d),
    decreases h,
{
    if x == h {
        assert(reaches_in(g, all_parents(), h, x, 0));
    } else {
        let k = choose|k: int|
            0 <= k < g[h].parents.len() && 0 <= #[trigger] g[h].parents[k] < h && is_ancestor_at(
                g,
                x,
                g[h].parents[k],
            );
        let p = g[h].parents[k];
        lemma_ancestor_is_reached(g, x, p);
        let d = choose|d: int| 0 <= d <= p - x && #[trigger] reaches_in(g, all_parents(), p, x, d);
        assert(follows_parent(g, all_parents(), h, k));
        assert(reaches_in(g, all_parents(), g[h].parents[k], x, d + 1 - 1));
        assert(reaches_in(g, all_parents(), h, x, d + 1));
    }
}

/// What a walk reaches is an ancestor.
pub proof fn lemma_reached_is_ancestor(
    g: Seq<EntryView>,
    parents: ParentsRange,
    h: int,
    x: int,
    d: int,
)
    requires
        graph_wf(g),
        reaches_in(g, parents, h, x, d),
    ensures
        is_ancestor_at(g, x, h),
    decreases d,
{
    lemma_reach_distance(g, parents, h, x, d);
    if d > 0 {
        let k = choose|k: int|
            follows_parent(g, parents, h, k) && reaches_in(
                g,
                parents,
                #[trigger] g[h].parents[k],
                x,
                d - 1,
            );
        assert(parents_precede(g, h));
        lemma_reached_is_ancestor(g, parents, g[h].parents[k], x, d - 1);
        lemma_reach_distance(g, parents, g[h].parents[k], x, d - 1);
    }
}

/// The range of all generations and all parents from the heads, without
/// roots, holds a commit exactly if the commit is one of the heads or an
/// ancestor of one.
pub proof fn law_full_range_is_the_history(g: Seq<EntryView>, heads: Seq<int>, x: int)
    requires
        graph_wf(g),
        parents_can_be_numbered(g),
        forall|i: int| 0 <= i < heads.len() ==> 0 <= #[trigger] heads[i] < g.len(),
    ensures
        is_in_range(g, Seq::empty(), heads, all_generations(), all_parents(), x) == is_in_history(
            g,
            heads,
            x,
        ),
{
    let none = Seq::<int>::empty();
    assert(!is_behind(g, all_parents(), none, x)) by {
        if is_behind(g, all_parents(), none, x) {
            let d = choose|d: int| 0 <= d && #[trigger] reached_at(g, all_parents(), none, x, d);
            assert(reached_at(g, all_parents(), none, x, d));
        }
    }
    if is_in_history(g, heads, x) {
        let i = choose|i: int| 0 <= i < heads.len() && is_ancestor_at(g, x, #[trigger] heads[i]);
        lemma_ancestor_is_reached(g, x, heads[i]);
        let d = choose|d: int|
            0 <= d <= heads[i] - x && #[trigger] reaches_in(g, all_parents(), heads[i], x, d);
        assert(reached_at(g, all_parents(), heads, x, d));
        assert(all_generations().start <= d < all_generations().end);
        assert(is_within(g, all_parents(), heads, all_generations(), x));
    }
    if is_within(g, all_parents(), heads, all_generations(), x) {
        let d = choose|d: int|
            all_generations().start <= d < all_generations().end && #[trigger] reached_at(
                g,
                all_parents(),
                heads,
                x,
                d,
            );
        let i = choose|i: int|
            0 <= i < heads.len() && reaches_in(g, all_parents(), #[trigger] heads[i], x, d);
        lemma_reached_is_ancestor(g, all_parents(), heads[i], x, d);
    }
}

/// Whether the range of all generations from the heads, without roots,
/// holds the commit.
pub open spec fn full_range_holds(g: Seq<EntryView>, heads: Seq<Seq<u8>>, id: Seq<u8>) -> bool {
    has_commit(g, id) && is_in_range(
        g,
        Seq::empty(),
        positions_of(g, heads),
        all_generations(),
        all_parents(),
        position_of(g, id),
    )
}

/// The range of all generations from the heads holds a commit exactly if
/// the commit is indexed and is one of the heads or an ancestor of one.
pub proof fn lemma_full_range_by_ids(g: Seq<EntryView>, heads: Seq<Seq<u8>>, id: Seq<u8>)
    requires
        graph_wf(g),
        parents_can_be_numbered(g),
        forall|i: int| 0 <= i < heads.len() ==> has_commit(g, #[trigger] heads[i]),
    ensures
        full_range_holds(g, heads, id) == (has_commit(g, id) && exists|i: int|
            0 <= i < heads.len() && is_ancestor_id(g, id, #[trigger] heads[i])),
{
    let at = positions_of(g, heads);
    assert forall|i: int| 0 <= i < at.len() implies 0 <= #[trigger] at[i] < g.len() by {
        assert(has_commit(g, heads[i]));
    }
    if has_commit(g, id) {
        let x = position_of(g, id);
        law_full_range_is_the_history(g, at, x);
        if is_in_history(g, at, x) {
            let i = choose|i: int| 0 <= i < at.len() && is_ancestor_at(g, x, #[trigger] at[i]);
            assert(has_commit(g, heads[i]));
            assert(is_ancestor_id(g, id, heads[i]));
        }
        if exists|i: int| 0 <= i < heads.len() && is_ancestor_id(g, id, #[trigger] heads[i]) {
            let i = choose|i: int| 0 <= i < heads.len() && is_ancestor_id(g, id, #[trigger] heads[i]);
            assert(has_commit(g, heads[i]));
            assert(at[i] == position_of(g, heads[i]));
            if id == heads[i] {
                assert(is_ancestor_at(g, x, x));
            }
            assert(is_ancestor_at(g, x, at[i]));
        }
    }
}

/// Two indexes that hold the same commits hold the same commits in the
/// range of all generations from the same heads: a rebuilt index lists
/// what the index before listed.
pub proof fn law_same_full_range(
    g: Seq<EntryView>,
    h: Seq<EntryView>,
    heads: Seq<Seq<u8>>,
    id: Seq<u8>,
)
    requires
        graph_wf(g),
        graph_wf(h),
        same_commits(g, h),
        parents_can_be_numbered(g),
        parents_can_be_numbered(h),
        forall|i: int| 0 <= i < heads.len() ==> has_commit(g, #[trigger] heads[i]),
    ensures
        full_range_holds(g, heads, id) == full_range_holds(h, heads, id),
{
    assert forall|i: int| 0 <= i < heads.len() implies has_commit(h, #[trigger] heads[i]) by {
        lemma_held_by_both(g, h, heads[i]);
    }
    lemma_full_range_by_ids(g, heads, id);
    lemma_full_range_by_ids(h, heads, id);
    if has_commit(g, id) {
        lemma_held_by_both(g, h, id);
    }
    if has_commit(h, id) {
        lemma_held_by_both(h, g, id);
    }
    assert forall|i: int| 0 <= i < heads.len() implies is_ancestor_id(g, id, #[trigger] heads[i])
        == is_ancestor_id(h, id, heads[i]) by {
        law_same_ancestry(g, h, id, heads[i]);
    }
}

/// A commit that one of two indexes with the same commits holds is held
/// by the other.
pub proof fn lemma_held_by_both(g: Seq<EntryView>, h: Seq<EntryView>, id: Seq<u8>)
    requires
        same_commits(g, h),
        has_commit(g, id),
    ensures
        has_commit(h, id),
{
    let p = position_of(g, id);
    assert(holds_commit_of(g, h, p));
}

} // verus!
