//! Two indexes that hold the same commits give the same answers.
//!
//! An index that is rebuilt need not hold its commits at the positions they
//! had, nor in the levels they were in. What it says of a commit depends on
//! the commits alone: generation numbers, ancestry, and the counts of
//! commits and merges and the greatest generation number are as they were.

use vstd::prelude::*;
use crate::index::ancestry::is_ancestor_id;
use crate::index::graph::{
    generation_rule, graph_wf, has_commit, ids_distinct, is_ancestor_at, lemma_position_unique,
    max_generation, parents_precede, position_of, EntryView,
};
use crate::index::stats::{count_merges, max_generation_upto};

verus! {

/// The ids of the parents of the entry at `p`, in their order.
pub open spec fn parent_ids_at(g: Seq<EntryView>, p: int) -> Seq<Seq<u8>> {
    Seq::new(g[p].parents.len(), |k: int| g[g[p].parents[k]].commit_id)
}

/// Whether the commit at `p` of `g` is a commit of `h` too, with the same
/// change id and the same parents.
pub open spec fn holds_commit_of(g: Seq<EntryView>, h: Seq<EntryView>, p: int) -> bool {
    &&& has_commit(h, g[p].commit_id)
    &&& h[position_of(h, g[p].commit_id)].change_id == g[p].change_id
    &&& parent_ids_at(h, position_of(h, g[p].commit_id)) == parent_ids_at(g, p)
}

/// Whether every commit of `g` is a commit of `h` too.
pub open spec fn holds_commits_of(g: Seq<EntryView>, h: Seq<EntryView>) -> bool {
    forall|p: int| 0 <= p < g.len() ==> #[trigger] holds_commit_of(g, h, p)
}

/// Whether two graphs hold the same commits.
pub open spec fn same_commits(g: Seq<EntryView>, h: Seq<EntryView>) -> bool {
    holds_commits_of(g, h) && holds_commits_of(h, g)
}

/// The position in `h` of the commit at `p` of `g`.
pub open spec fn twin(g: Seq<EntryView>, h: Seq<EntryView>, p: int) -> int {
    position_of(h, g[p].commit_id)
}

/// The twin of a commit is a position of the other graph and carries the
/// same id, and the twin of a parent is the parent of the twin.
pub proof fn lemma_twin(g: Seq<EntryView>, h: Seq<EntryView>, p: int)
    requires
        graph_wf(g),
        graph_wf(h),
        holds_commits_of(g, h),
        0 <= p < g.len(),
    ensures
        0 <= twin(g, h, p) < h.len(),
        h[twin(g, h, p)].commit_id == g[p].commit_id,
        h[twin(g, h, p)].parents.len() == g[p].parents.len(),
        forall|k: int|
            0 <= k < g[p].parents.len() ==> #[trigger] h[twin(g, h, p)].parents[k] == twin(
                g,
                h,
                g[p].parents[k],
            ),
{
    assert(holds_commit_of(g, h, p));
    let q = twin(g, h, p);
    assert(parent_ids_at(h, q).len() == parent_ids_at(g, p).len());
    assert(parents_precede(g, p));
    assert(parents_precede(h, q));
    assert forall|k: int| 0 <= k < g[p].parents.len() implies #[trigger] h[q].parents[k] == twin(
        g,
        h,
        g[p].parents[k],
    ) by {
        assert(parent_ids_at(h, q)[k] == parent_ids_at(g, p)[k]);
        let hp = h[q].parents[k];
        assert(0 <= hp < q);
        lemma_position_unique(h, hp);
    }
}

/// The greatest generation among parents is the same where the parents
/// have the same generations one by one.
pub proof fn lemma_max_generation_alike(
    g: Seq<EntryView>,
    ps: Seq<int>,
    h: Seq<EntryView>,
    qs: Seq<int>,
)
    requires
        ps.len() == qs.len(),
        forall|k: int|
            0 <= k < ps.len() ==> (#[trigger] g[ps[k]]).generation == h[qs[k]].generation,
    ensures
        max_generation(g, ps) == max_generation(h, qs),
    decreases ps.len(),
{
    if ps.len() > 0 {
        assert forall|k: int| 0 <= k < ps.drop_last().len() implies (
        #[trigger] g[ps.drop_last()[k]]).generation == h[qs.drop_last()[k]].generation by {
            assert(g[ps[k]].generation == h[qs[k]].generation);
        }
        lemma_max_generation_alike(g, ps.drop_last(), h, qs.drop_last());
        assert(g[ps[ps.len() - 1]].generation == h[qs[ps.len() - 1]].generation);
    }
}

/// A commit has the same generation number in two indexes that hold the
/// same commits.
pub proof fn law_same_generation(g: Seq<EntryView>, h: Seq<EntryView>, p: int)
    requires
        graph_wf(g),
        graph_wf(h),
        holds_commits_of(g, h),
        0 <= p < g.len(),
    ensures
        has_commit(h, g[p].commit_id),
        h[position_of(h, g[p].commit_id)].generation == g[p].generation,
    decreases p,
{
    lemma_twin(g, h, p);
    let q = twin(g, h, p);
    assert(parents_precede(g, p));
    assert forall|k: int| 0 <= k < g[p].parents.len() implies (
    #[trigger] g[g[p].parents[k]]).generation == h[h[q].parents[k]].generation by {
        law_same_generation(g, h, g[p].parents[k]);
        assert(h[q].parents[k] == twin(g, h, g[p].parents[k]));
    }
    lemma_max_generation_alike(g, g[p].parents, h, h[q].parents);
    assert(generation_rule(g, p));
    assert(generation_rule(h, q));
    assert(holds_commit_of(g, h, p));
}

/// Ancestry carries over to the twins.
pub proof fn lemma_ancestry_carries(g: Seq<EntryView>, h: Seq<EntryView>, a: int, b: int)
    requires
        graph_wf(g),
        graph_wf(h),
        holds_commits_of(g, h),
        is_ancestor_at(g, a, b),
    ensures
        is_ancestor_at(h, twin(g, h, a), twin(g, h, b)),
    decreases b,
{
    lemma_twin(g, h, b);
    if a == b {
        assert(is_ancestor_at(h, twin(g, h, b), twin(g, h, b)));
    } else {
        let k = choose|k: int|
            0 <= k < g[b].parents.len() && 0 <= #[trigger] g[b].parents[k] < b && is_ancestor_at(
                g,
                a,
                g[b].parents[k],
            );
        let p = g[b].parents[k];
        lemma_ancestry_carries(g, h, a, p);
        let hb = twin(g, h, b);
        assert(h[hb].parents[k] == twin(g, h, p));
        assert(parents_precede(h, hb));
        assert(0 <= h[hb].parents[k] < hb);
    }
}

/// Two indexes that hold the same commits say the same of the ancestry of
/// any two commits.
pub proof fn law_same_ancestry(
    g: Seq<EntryView>,
    h: Seq<EntryView>,
    ancestor: Seq<u8>,
    descendant: Seq<u8>,
)
    requires
        graph_wf(g),
        graph_wf(h),
        same_commits(g, h),
    ensures
        is_ancestor_id(g, ancestor, descendant) == is_ancestor_id(h, ancestor, descendant),
{
    if ancestor != descendant {
        if is_ancestor_id(g, ancestor, descendant) {
            let a = position_of(g, ancestor);
            let b = position_of(g, descendant);
            lemma_ancestry_carries(g, h, a, b);
            lemma_twin(g, h, a);
            lemma_twin(g, h, b);
        }
        if is_ancestor_id(h, ancestor, descendant) {
            let a = position_of(h, ancestor);
            let b = position_of(h, descendant);
            lemma_ancestry_carries(h, g, a, b);
            lemma_twin(h, g, a);
            lemma_twin(h, g, b);
        }
    }
}

/// The commit ids of a graph, in the order of the positions.
pub open spec fn all_ids(g: Seq<EntryView>) -> Seq<Seq<u8>> {
    g.map_values(|e: EntryView| e.commit_id)
}

/// Two indexes that hold the same commits hold as many.
pub proof fn law_same_number_of_commits(g: Seq<EntryView>, h: Seq<EntryView>)
    requires
        graph_wf(g),
        graph_wf(h),
        same_commits(g, h),
    ensures
        g.len() == h.len(),
{
    let a = all_ids(g);
    let b = all_ids(h);
    assert(a.no_duplicates()) by {
        assert forall|i: int, j: int| 0 <= i < a.len() && 0 <= j < a.len() && i != j implies a[i]
            != a[j] by {
            if i < j {
                assert(g[i].commit_id != g[j].commit_id);
            } else {
                assert(g[j].commit_id != g[i].commit_id);
            }
        }
    }
    assert(b.no_duplicates()) by {
        assert forall|i: int, j: int| 0 <= i < b.len() && 0 <= j < b.len() && i != j implies b[i]
            != b[j] by {
            if i < j {
                assert(h[i].commit_id != h[j].commit_id);
            } else {
                assert(h[j].commit_id != h[i].commit_id);
            }
        }
    }
    a.unique_seq_to_set();
    b.unique_seq_to_set();
    assert(a.to_set() =~= b.to_set()) by {
        assert forall|id: Seq<u8>| a.to_set().contains(id) <==> b.to_set().contains(id) by {
            if a.contains(id) {
                let p = choose|p: int| 0 <= p < a.len() && a[p] == id;
                lemma_twin(g, h, p);
                assert(b[twin(g, h, p)] == id);
            }
            if b.contains(id) {
                let p = choose|p: int| 0 <= p < b.len() && b[p] == id;
                lemma_twin(h, g, p);
                assert(a[twin(h, g, p)] == id);
            }
        }
    }
}

/// The greatest generation number among the first entries is that of one
/// of them, and none of them has a greater one.
pub proof fn lemma_max_generation_upto(g: Seq<EntryView>, upto: int, p: int)
    requires
        0 <= p < upto <= g.len(),
    ensures
        g[p].generation <= max_generation_upto(g, upto),
        exists|m: int| 0 <= m < upto && (#[trigger] g[m]).generation == max_generation_upto(g, upto),
    decreases upto,
{
    if p < upto - 1 {
        lemma_max_generation_upto(g, upto - 1, p);
        let m = choose|m: int|
            0 <= m < upto - 1 && (#[trigger] g[m]).generation == max_generation_upto(g, upto - 1);
        if g[upto - 1].generation > max_generation_upto(g, upto - 1) {
            assert(g[upto - 1].generation == max_generation_upto(g, upto));
        } else {
            assert(g[m].generation == max_generation_upto(g, upto));
        }
    } else {
        if upto - 1 > 0 {
            lemma_max_generation_upto(g, upto - 1, 0);
            let m = choose|m: int|
                0 <= m < upto - 1 && (#[trigger] g[m]).generation == max_generation_upto(
                    g,
                    upto - 1,
                );
            if g[upto - 1].generation > max_generation_upto(g, upto - 1) {
                assert(g[upto - 1].generation == max_generation_upto(g, upto));
            } else {
                assert(g[m].generation == max_generation_upto(g, upto));
            }
        } else {
            assert(max_generation_upto(g, 0) == 0);
            assert(g[0].generation == max_generation_upto(g, upto));
        }
    }
}

/// Two indexes that hold the same commits have the same greatest
/// generation number.
pub proof fn law_same_max_generation(g: Seq<EntryView>, h: Seq<EntryView>)
    requires
        graph_wf(g),
        graph_wf(h),
        same_commits(g, h),
    ensures
        max_generation_upto(g, g.len() as int) == max_generation_upto(h, h.len() as int),
{
    lemma_max_generation_upto(g, g.len() as int, 0);
    lemma_max_generation_upto(h, h.len() as int, 0);
    let m = choose|m: int|
        0 <= m < g.len() && (#[trigger] g[m]).generation == max_generation_upto(g, g.len() as int);
    let n = choose|n: int|
        0 <= n < h.len() && (#[trigger] h[n]).generation == max_generation_upto(h, h.len() as int);
    law_same_generation(g, h, m);
    lemma_twin(g, h, m);
    lemma_max_generation_upto(h, h.len() as int, twin(g, h, m));
    law_same_generation(h, g, n);
    lemma_twin(h, g, n);
    lemma_max_generation_upto(g, g.len() as int, twin(h, g, n));
}

/// The ids of the merges among the first `upto` entries.
pub open spec fn merge_ids(g: Seq<EntryView>, upto: int) -> Seq<Seq<u8>>
    decreases upto,
{
    if upto <= 0 {
        Seq::empty()
    } else if g[upto - 1].parents.len() > 1 {
        merge_ids(g, upto - 1).push(g[upto - 1].commit_id)
    } else {
        merge_ids(g, upto - 1)
    }
}

/// The ids of the merges are as many as the merges, each is the id of a
/// merge, and none stands twice.
pub proof fn lemma_merge_ids(g: Seq<EntryView>, upto: int)
    requires
        ids_distinct(g),
        0 <= upto <= g.len(),
    ensures
        merge_ids(g, upto).len() == count_merges(g, upto),
        merge_ids(g, upto).no_duplicates(),
        forall|id: Seq<u8>|
            merge_ids(g, upto).contains(id) <==> exists|p: int|
                0 <= p < upto && (#[trigger] g[p]).commit_id == id && g[p].parents.len() > 1,
    decreases upto,
{
    if upto > 0 {
        lemma_merge_ids(g, upto - 1);
        let before = merge_ids(g, upto - 1);
        let now = merge_ids(g, upto);
        let last = g[upto - 1];
        assert forall|id: Seq<u8>| now.contains(id) <==> exists|p: int|
            0 <= p < upto && (#[trigger] g[p]).commit_id == id && g[p].parents.len() > 1 by {
            if now.contains(id) {
                let i = choose|i: int| 0 <= i < now.len() && now[i] == id;
                if i < before.len() {
                    assert(before[i] == id);
                    assert(before.contains(id));
                    let p = choose|p: int|
                        0 <= p < upto - 1 && (#[trigger] g[p]).commit_id == id
                            && g[p].parents.len() > 1;
                    assert(p < upto);
                } else {
                    assert(g[upto - 1].commit_id == id);
                }
            }
            if exists|p: int|
                0 <= p < upto && (#[trigger] g[p]).commit_id == id && g[p].parents.len() > 1 {
                let p = choose|p: int|
                    0 <= p < upto && (#[trigger] g[p]).commit_id == id && g[p].parents.len() > 1;
                if p < upto - 1 {
                    assert(before.contains(id));
                    let i = choose|i: int| 0 <= i < before.len() && before[i] == id;
                    assert(now[i] == id);
                } else {
                    assert(now[now.len() - 1] == id);
                }
            }
        }
        if last.parents.len() > 1 {
            assert(!before.contains(last.commit_id)) by {
                if before.contains(last.commit_id) {
                    let p = choose|p: int|
                        0 <= p < upto - 1 && (#[trigger] g[p]).commit_id == last.commit_id
                            && g[p].parents.len() > 1;
                    assert(g[p].commit_id != g[upto - 1].commit_id);
                }
            }
            assert forall|i: int, j: int|
                0 <= i < now.len() && 0 <= j < now.len() && i != j implies now[i] != now[j] by {
                if i < before.len() && j < before.len() {
                    assert(before[i] != before[j]);
                } else if i < before.len() {
                    assert(before[i] == now[i]);
                    assert(before.contains(now[i]));
                } else {
                    assert(before[j] == now[j]);
                    assert(before.contains(now[j]));
                }
            }
        }
    }
}

/// Two indexes that hold the same commits hold as many merges.
pub proof fn law_same_number_of_merges(g: Seq<EntryView>, h: Seq<EntryView>)
    requires
        graph_wf(g),
        graph_wf(h),
        same_commits(g, h),
    ensures
        count_merges(g, g.len() as int) == count_merges(h, h.len() as int),
{
    lemma_merge_ids(g, g.len() as int);
    lemma_merge_ids(h, h.len() as int);
    let a = merge_ids(g, g.len() as int);
    let b = merge_ids(h, h.len() as int);
    a.unique_seq_to_set();
    b.unique_seq_to_set();
    assert(a.to_set() =~= b.to_set()) by {
        assert forall|id: Seq<u8>| a.to_set().contains(id) <==> b.to_set().contains(id) by {
            if a.contains(id) {
                let p = choose|p: int|
                    0 <= p < g.len() && (#[trigger] g[p]).commit_id == id && g[p].parents.len() > 1;
                lemma_twin(g, h, p);
                let q = twin(g, h, p);
                assert(h[q].commit_id == id && h[q].parents.len() > 1);
                assert(b.contains(id));
            }
            if b.contains(id) {
                let p = choose|p: int|
                    0 <= p < h.len() && (#[trigger] h[p]).commit_id == id && h[p].parents.len() > 1;
                lemma_twin(h, g, p);
                let q = twin(h, g, p);
                assert(g[q].commit_id == id && g[q].parents.len() > 1);
                assert(a.contains(id));
            }
        }
    }
}

} // verus!
