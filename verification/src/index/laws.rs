//! What holds of every index, whatever was added to it and however it was
//! compacted.

use vstd::prelude::*;
use crate::index::ancestry::is_ancestor_id;
use crate::index::change_id::{
    commits_of_change, is_prefix_of, is_reachable, matches_at, reachable_pairs,
    reachable_pairs_upto, resolution_of, some_change_matches, two_changes_match, IdPairView,
    ResolutionView,
};
use crate::index::chain::lemma_levels_total;
use crate::index::levels::{levels_non_increasing, lemma_balanced_non_increasing, total_size};
use crate::index::mutable::ReadonlyIndex;
use crate::index::graph::{
    agree_below, lemma_ancestor_agrees, generation_rule, graph_wf, has_commit, is_ancestor_at,
    lemma_max_generation,
    lemma_only_root_has_generation_zero, lemma_position_unique, lemma_root_reaches_all,
    max_generation, parents_precede, position_of, with_commit, EntryView,
};

verus! {

/// The root is an ancestor of every indexed commit, and no other commit is
/// an ancestor of the root.
pub proof fn law_root_is_first_ancestor(g: Seq<EntryView>, x: int)
    requires
        graph_wf(g),
        0 <= x < g.len(),
    ensures
        is_ancestor_id(g, g[0].commit_id, g[x].commit_id),
        x != 0 ==> !is_ancestor_id(g, g[x].commit_id, g[0].commit_id),
{
    lemma_root_reaches_all(g, x);
    lemma_position_unique(g, 0);
    lemma_position_unique(g, x);
}

/// The generation number of a commit is one more than the largest among
/// its parents, which is the generation number of one of them; it is zero
/// for the root and for no other commit.
pub proof fn law_generation_numbers(g: Seq<EntryView>, c: int)
    requires
        graph_wf(g),
        0 <= c < g.len(),
    ensures
        g[c].generation == 1 + max_generation(g, g[c].parents),
        forall|k: int|
            0 <= k < g[c].parents.len() ==> (#[trigger] g[g[c].parents[k]]).generation
                < g[c].generation,
        c != 0 ==> exists|k: int|
            0 <= k < g[c].parents.len() && (#[trigger] g[g[c].parents[k]]).generation + 1
                == g[c].generation,
        g[c].generation == 0 <==> c == 0,
{
    assert(generation_rule(g, c));
    lemma_max_generation(g, g[c].parents);
    lemma_only_root_has_generation_zero(g, c);
    if c != 0 {
        assert(g[c].parents.len() >= 1);
        let k = choose|k: int|
            0 <= k < g[c].parents.len() && (#[trigger] g[g[c].parents[k]]).generation
                == max_generation(g, g[c].parents);
        assert(g[g[c].parents[k]].generation + 1 == g[c].generation);
    }
}

/// Adding a commit whose id is indexed already changes nothing: the graph
/// stays as it is, and with it the number of commits and every generation
/// number.
pub proof fn law_adding_again_changes_nothing(
    g: Seq<EntryView>,
    commit_id: Seq<u8>,
    change_id: Seq<u8>,
    parent_ids: Seq<Seq<u8>>,
)
    requires
        has_commit(g, commit_id),
    ensures
        with_commit(g, commit_id, change_id, parent_ids) == g,
{
}

/// Adding a commit whose id is not indexed yet adds one entry and leaves
/// every entry that was there as it was.
pub proof fn law_adding_extends(
    g: Seq<EntryView>,
    commit_id: Seq<u8>,
    change_id: Seq<u8>,
    parent_ids: Seq<Seq<u8>>,
)
    requires
        !has_commit(g, commit_id),
    ensures
        with_commit(g, commit_id, change_id, parent_ids).len() == g.len() + 1,
        forall|i: int|
            0 <= i < g.len() ==> #[trigger] with_commit(g, commit_id, change_id, parent_ids)[i]
                == g[i],
{
}

/// Adding a commit changes no answer about the commits that were there:
/// ancestry between them is what it was.
pub proof fn law_adding_keeps_ancestry(
    g: Seq<EntryView>,
    commit_id: Seq<u8>,
    change_id: Seq<u8>,
    parent_ids: Seq<Seq<u8>>,
    a: int,
    b: int,
)
    requires
        0 <= a < g.len(),
        0 <= b < g.len(),
    ensures
        is_ancestor_at(with_commit(g, commit_id, change_id, parent_ids), a, b) == is_ancestor_at(
            g,
            a,
            b,
        ),
{
    let h = with_commit(g, commit_id, change_id, parent_ids);
    assert(agree_below(g, h, g.len() as int));
    lemma_ancestor_agrees(g, h, g.len() as int, a, b);
}

/// The levels of a snapshot hold every commit once, and their sizes never
/// increase from oldest to newest.
pub proof fn law_levels_of_snapshot(index: ReadonlyIndex)
    requires
        index.wf(),
    ensures
        total_size(index.levels()) == index@.len(),
        levels_non_increasing(index.levels()),
{
    lemma_levels_total(index.chain.segments@);
    lemma_balanced_non_increasing(index.levels());
}

/// The pair of the entry at `p`.
pub open spec fn pair_at(g: Seq<EntryView>, p: int) -> IdPairView {
    IdPairView { change_id: g[p].change_id, commit_id: g[p].commit_id }
}

/// Whether the pair is that of a reachable entry among the first `upto`.
pub open spec fn is_reachable_pair(
    g: Seq<EntryView>,
    heads: Seq<Seq<u8>>,
    upto: int,
    pair: IdPairView,
) -> bool {
    exists|p: int| 0 <= p < upto && is_reachable(g, heads, p) && pair == #[trigger] pair_at(g, p)
}

/// Each pair of the change-id index belongs to a reachable entry.
pub proof fn lemma_pair_is_reachable(g: Seq<EntryView>, heads: Seq<Seq<u8>>, upto: int, i: int)
    requires
        0 <= upto <= g.len(),
        0 <= i < reachable_pairs_upto(g, heads, upto).len(),
    ensures
        is_reachable_pair(g, heads, upto, reachable_pairs_upto(g, heads, upto)[i]),
    decreases upto,
{
    if upto > 0 {
        let before = reachable_pairs_upto(g, heads, upto - 1);
        let now = reachable_pairs_upto(g, heads, upto);
        if i < before.len() {
            lemma_pair_is_reachable(g, heads, upto - 1, i);
            let p = choose|p: int|
                0 <= p < upto - 1 && is_reachable(g, heads, p) && before[i] == #[trigger] pair_at(
                    g,
                    p,
                );
            assert(now[i] == pair_at(g, p));
        } else {
            assert(now[i] == pair_at(g, upto - 1));
        }
    }
}

/// Each reachable entry has its pair in the change-id index.
pub proof fn lemma_reachable_has_pair(g: Seq<EntryView>, heads: Seq<Seq<u8>>, upto: int, p: int)
    requires
        0 <= p < upto <= g.len(),
        is_reachable(g, heads, p),
    ensures
        reachable_pairs_upto(g, heads, upto).contains(pair_at(g, p)),
    decreases upto,
{
    let before = reachable_pairs_upto(g, heads, upto - 1);
    let now = reachable_pairs_upto(g, heads, upto);
    if p < upto - 1 {
        lemma_reachable_has_pair(g, heads, upto - 1, p);
        let i = choose|i: int| 0 <= i < before.len() && before[i] == pair_at(g, p);
        assert(now[i] == pair_at(g, p));
    } else {
        assert(now[now.len() - 1] == pair_at(g, p));
    }
}

/// Every commit among those of a change id is the commit of a pair that
/// carries the change id.
pub proof fn lemma_commits_of_change_members(
    pairs: Seq<IdPairView>,
    change_id: Seq<u8>,
    upto: int,
    k: int,
)
    requires
        0 <= upto <= pairs.len(),
        0 <= k < commits_of_change(pairs, change_id, upto).len(),
    ensures
        exists|i: int|
            0 <= i < upto && (#[trigger] pairs[i]).change_id == change_id && pairs[i].commit_id
                == commits_of_change(pairs, change_id, upto)[k],
    decreases upto,
{
    if upto > 0 {
        let before = commits_of_change(pairs, change_id, upto - 1);
        if k < before.len() {
            lemma_commits_of_change_members(pairs, change_id, upto - 1, k);
            let i = choose|i: int|
                0 <= i < upto - 1 && (#[trigger] pairs[i]).change_id == change_id
                    && pairs[i].commit_id == before[k];
            assert(pairs[i].commit_id == commits_of_change(pairs, change_id, upto)[k]);
        } else {
            assert(pairs[upto - 1].change_id == change_id);
        }
    }
}

/// A prefix never resolves to a commit outside the history of the heads:
/// every commit of a single match is indexed, carries a change id that
/// starts with the prefix, and can be reached from the heads, whatever ids
/// the commits outside that history carry.
pub proof fn law_resolution_stays_in_view(
    g: Seq<EntryView>,
    heads: Seq<Seq<u8>>,
    prefix: Seq<u8>,
    k: int,
)
    requires
        graph_wf(g),
        resolution_of(reachable_pairs(g, heads), prefix) is SingleMatch,
        0 <= k < resolution_of(reachable_pairs(g, heads), prefix)->SingleMatch_0.len(),
    ensures
        has_commit(g, resolution_of(reachable_pairs(g, heads), prefix)->SingleMatch_0[k]),
        is_reachable(
            g,
            heads,
            position_of(g, resolution_of(reachable_pairs(g, heads), prefix)->SingleMatch_0[k]),
        ),
        is_prefix_of(
            prefix,
            g[position_of(
                g,
                resolution_of(reachable_pairs(g, heads), prefix)->SingleMatch_0[k],
            )].change_id,
        ),
{
    let pairs = reachable_pairs(g, heads);
    let first = crate::index::change_id::first_match(pairs, prefix);
    assert(some_change_matches(pairs, prefix));
    let i0 = choose|i: int| matches_at(pairs, prefix, i);
    lemma_first_match_exists(pairs, prefix, i0);
    let change = pairs[first].change_id;
    let id = commits_of_change(pairs, change, pairs.len() as int)[k];
    assert(resolution_of(pairs, prefix)->SingleMatch_0[k] == id);
    lemma_commits_of_change_members(pairs, change, pairs.len() as int, k);
    let i = choose|i: int|
        0 <= i < pairs.len() && (#[trigger] pairs[i]).change_id == change && pairs[i].commit_id
            == id;
    lemma_pair_is_reachable(g, heads, g.len() as int, i);
    let p = choose|p: int|
        0 <= p < g.len() && is_reachable(g, heads, p) && pairs[i] == #[trigger] pair_at(g, p);
    lemma_id_stands_at(g, p);
    assert(g[p].commit_id == id);
    assert(g[p].change_id == change);
}

/// In a well-formed graph the id of the entry at `p` is indexed at `p`.
pub proof fn lemma_id_stands_at(g: Seq<EntryView>, p: int)
    requires
        graph_wf(g),
        0 <= p < g.len(),
    ensures
        has_commit(g, g[p].commit_id),
        position_of(g, g[p].commit_id) == p,
{
    lemma_position_unique(g, p);
}

/// Where a pair matches, there is a first pair that does.
pub proof fn lemma_first_match_exists(pairs: Seq<IdPairView>, prefix: Seq<u8>, i: int)
    requires
        matches_at(pairs, prefix, i),
    ensures
        matches_at(pairs, prefix, crate::index::change_id::first_match(pairs, prefix)),
    decreases i,
{
    if exists|j: int| 0 <= j < i && matches_at(pairs, prefix, j) {
        let j = choose|j: int| 0 <= j < i && matches_at(pairs, prefix, j);
        lemma_first_match_exists(pairs, prefix, j);
    } else {
        assert(matches_at(pairs, prefix, i) && forall|j: int|
            0 <= j < i ==> !matches_at(pairs, prefix, j));
    }
}

/// Whether the entry at `p` is in the history of the heads and carries a
/// change id that starts with the prefix.
pub open spec fn is_matching_entry(
    g: Seq<EntryView>,
    heads: Seq<Seq<u8>>,
    prefix: Seq<u8>,
    p: int,
) -> bool {
    0 <= p < g.len() && is_reachable(g, heads, p) && is_prefix_of(prefix, g[p].change_id)
}

/// Whether two commits in the history of the heads carry distinct change
/// ids that both start with the prefix.
pub open spec fn two_reachable_changes_match(
    g: Seq<EntryView>,
    heads: Seq<Seq<u8>>,
    prefix: Seq<u8>,
) -> bool {
    exists|p: int, q: int|
        #![trigger is_matching_entry(g, heads, prefix, p), is_matching_entry(g, heads, prefix, q)]
        is_matching_entry(g, heads, prefix, p) && is_matching_entry(g, heads, prefix, q)
            && g[p].change_id != g[q].change_id
}

/// Two pairs with distinct change ids that match come from two entries
/// with distinct change ids that match.
pub proof fn lemma_matching_pairs_have_entries(
    g: Seq<EntryView>,
    heads: Seq<Seq<u8>>,
    prefix: Seq<u8>,
    i: int,
    j: int,
)
    requires
        matches_at(reachable_pairs(g, heads), prefix, i),
        matches_at(reachable_pairs(g, heads), prefix, j),
        reachable_pairs(g, heads)[i].change_id != reachable_pairs(g, heads)[j].change_id,
    ensures
        two_reachable_changes_match(g, heads, prefix),
{
    let pairs = reachable_pairs(g, heads);
    lemma_pair_is_reachable(g, heads, g.len() as int, i);
    lemma_pair_is_reachable(g, heads, g.len() as int, j);
    let p = choose|p: int|
        0 <= p < g.len() && is_reachable(g, heads, p) && pairs[i] == #[trigger] pair_at(g, p);
    let q = choose|q: int|
        0 <= q < g.len() && is_reachable(g, heads, q) && pairs[j] == #[trigger] pair_at(g, q);
    assert(is_matching_entry(g, heads, prefix, p));
    assert(is_matching_entry(g, heads, prefix, q));
}

/// Two entries with distinct change ids that match have two pairs with
/// distinct change ids that match.
pub proof fn lemma_matching_entries_have_pairs(
    g: Seq<EntryView>,
    heads: Seq<Seq<u8>>,
    prefix: Seq<u8>,
    p: int,
    q: int,
)
    requires
        is_matching_entry(g, heads, prefix, p),
        is_matching_entry(g, heads, prefix, q),
        g[p].change_id != g[q].change_id,
    ensures
        two_changes_match(reachable_pairs(g, heads), prefix),
{
    let pairs = reachable_pairs(g, heads);
    lemma_reachable_has_pair(g, heads, g.len() as int, p);
    lemma_reachable_has_pair(g, heads, g.len() as int, q);
    let i = choose|i: int| 0 <= i < pairs.len() && pairs[i] == pair_at(g, p);
    let j = choose|j: int| 0 <= j < pairs.len() && pairs[j] == pair_at(g, q);
    assert(matches_at(pairs, prefix, i));
    assert(matches_at(pairs, prefix, j));
}

/// A prefix is ambiguous exactly if two commits in the history of the
/// heads carry distinct change ids that both start with it. Commits that
/// share a change id never make a prefix ambiguous.
pub proof fn law_ambiguous_iff_two_changes(g: Seq<EntryView>, heads: Seq<Seq<u8>>, prefix: Seq<u8>)
    ensures
        resolution_of(reachable_pairs(g, heads), prefix) is AmbiguousMatch
            <==> two_reachable_changes_match(g, heads, prefix),
{
    let pairs = reachable_pairs(g, heads);
    assert(resolution_of(pairs, prefix) is AmbiguousMatch <==> two_changes_match(pairs, prefix)) by {
        if two_changes_match(pairs, prefix) {
            let (i, j) = choose|i: int, j: int|
                matches_at(pairs, prefix, i) && matches_at(pairs, prefix, j) && pairs[i].change_id
                    != pairs[j].change_id;
            assert(some_change_matches(pairs, prefix));
        }
    }
    if two_changes_match(pairs, prefix) {
        let (i, j) = choose|i: int, j: int|
            matches_at(pairs, prefix, i) && matches_at(pairs, prefix, j) && pairs[i].change_id
                != pairs[j].change_id;
        lemma_matching_pairs_have_entries(g, heads, prefix, i, j);
    }
    if two_reachable_changes_match(g, heads, prefix) {
        let (p, q) = choose|p: int, q: int|
            #![trigger is_matching_entry(g, heads, prefix, p), is_matching_entry(g, heads, prefix, q)]
            is_matching_entry(g, heads, prefix, p) && is_matching_entry(g, heads, prefix, q)
                && g[p].change_id != g[q].change_id;
        lemma_matching_entries_have_pairs(g, heads, prefix, p, q);
    }
}

} // verus!
