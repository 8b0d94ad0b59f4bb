//! Ancestry queries.
//!
//! The walk goes from the descendant toward older entries and visits each
//! position at most once, so its cost is linear in the size of the graph even
//! where the number of distinct paths is exponential. Branches whose
//! generation number has dropped to that of the sought ancestor, or whose
//! position is before it, are not followed.

use vstd::prelude::*;
use crate::ids::CommitId;
use crate::index::chain::SegmentChain;
use crate::index::graph::{
    graph_wf, has_commit, is_ancestor_at, lemma_ancestor_generation, lemma_ancestor_transitive,
    lemma_parent_is_ancestor, parents_precede, position_of, EntryView,
};

verus! {

/// The number of marked places of a bit set.
pub open spec fn count_marked(marks: Seq<bool>) -> nat
    decreases marks.len(),
{
    if marks.len() == 0 {
        0
    } else {
        count_marked(marks.drop_last()) + if marks.last() {
            1nat
        } else {
            0nat
        }
    }
}

/// A bit set has at most as many marks as places.
pub proof fn lemma_count_marked_bound(marks: Seq<bool>)
    ensures
        count_marked(marks) <= marks.len(),
    decreases marks.len(),
{
    if marks.len() > 0 {
        lemma_count_marked_bound(marks.drop_last());
    }
}

/// Marking an unmarked place adds one to the number of marks.
pub proof fn lemma_count_marked_set(marks: Seq<bool>, i: int)
    requires
        0 <= i < marks.len(),
        !marks[i],
    ensures
        count_marked(marks.update(i, true)) == count_marked(marks) + 1,
    decreases marks.len(),
{
    let after = marks.update(i, true);
    if i == marks.len() - 1 {
        assert(after.drop_last() == marks.drop_last());
    } else {
        assert(after.drop_last() == marks.drop_last().update(i, true));
        lemma_count_marked_set(marks.drop_last(), i);
    }
}

/// A bit set of the given length with no mark.
pub fn cleared_marks(len: u32) -> (marks: Vec<bool>)
    ensures
        marks.len() == len,
        forall|i: int| 0 <= i < len ==> !marks[i],
        count_marked(marks@) == 0,
{
    let mut marks: Vec<bool> = Vec::new();
    let mut i: u32 = 0;
    while i < len
        invariant
            i <= len,
            marks.len() == i,
            forall|j: int| 0 <= j < i ==> !marks[j],
            count_marked(marks@) == 0,
        decreases len - i,
    {
        let ghost before = marks@;
        marks.push(false);
        assert(marks@.drop_last() == before);
        i += 1;
    }
    marks
}

/// The position occurs among those still to be looked at.
pub open spec fn is_pending(work: Seq<u32>, p: int) -> bool {
    exists|i: int| 0 <= i < work.len() && #[trigger] work[i] as int == p
}

/// Nothing more has to be learned about the position `p`: it stands before
/// the sought ancestor, has been visited, or is still to be looked at.
pub open spec fn is_covered(a: int, visited: Seq<bool>, work: Seq<u32>, p: int) -> bool {
    p < a || visited[p] || is_pending(work, p)
}

/// The visited position `v` has been dealt with: its generation rules it out
/// as a descendant of the sought ancestor, or each of its parents is covered.
pub open spec fn is_expanded(
    g: Seq<EntryView>,
    a: int,
    visited: Seq<bool>,
    work: Seq<u32>,
    v: int,
) -> bool {
    g[v].generation <= g[a].generation || forall|k: int|
        0 <= k < g[v].parents.len() ==> is_covered(a, visited, work, #[trigger] g[v].parents[k])
}

/// Every visited position stands after the sought ancestor and has been
/// dealt with.
pub open spec fn walk_closed(g: Seq<EntryView>, a: int, visited: Seq<bool>, work: Seq<u32>) -> bool {
    forall|v: int|
        0 <= v < g.len() && #[trigger] visited[v] ==> v > a && is_expanded(g, a, visited, work, v)
}

/// Once nothing is left to look at, no visited position descends from the
/// sought ancestor.
pub proof fn lemma_closed_walk_excludes(g: Seq<EntryView>, a: int, visited: Seq<bool>, v: int)
    requires
        graph_wf(g),
        0 <= a < g.len(),
        visited.len() == g.len(),
        walk_closed(g, a, visited, Seq::<u32>::empty()),
        0 <= v < g.len(),
        visited[v],
    ensures
        !is_ancestor_at(g, a, v),
    decreases v,
{
    if is_ancestor_at(g, a, v) {
        assert(v > a);
        assert(is_expanded(g, a, visited, Seq::<u32>::empty(), v));
        lemma_ancestor_generation(g, a, v);
        let k = choose|k: int|
            0 <= k < g[v].parents.len() && 0 <= #[trigger] g[v].parents[k] < v && is_ancestor_at(
                g,
                a,
                g[v].parents[k],
            );
        let p = g[v].parents[k];
        assert(is_covered(a, visited, Seq::<u32>::empty(), p));
        assert(!is_pending(Seq::<u32>::empty(), p));
        assert(visited[p]);
        lemma_closed_walk_excludes(g, a, visited, p);
    }
}

/// Taking the last pending position away keeps the walk closed, provided
/// that position is itself covered by then.
pub proof fn lemma_walk_closed_after_pop(
    g: Seq<EntryView>,
    a: int,
    visited: Seq<bool>,
    work: Seq<u32>,
)
    requires
        work.len() > 0,
        walk_closed(g, a, visited, work),
        work.last() < a || visited[work.last() as int],
    ensures
        walk_closed(g, a, visited, work.drop_last()),
{
    let rest = work.drop_last();
    assert forall|v: int| 0 <= v < g.len() && #[trigger] visited[v] implies v > a && is_expanded(
        g,
        a,
        visited,
        rest,
        v,
    ) by {
        assert(is_expanded(g, a, visited, work, v));
        if g[v].generation > g[a].generation {
            assert forall|k: int| 0 <= k < g[v].parents.len() implies is_covered(
                a,
                visited,
                rest,
                #[trigger] g[v].parents[k],
            ) by {
                let p = g[v].parents[k];
                assert(is_covered(a, visited, work, p));
                if is_pending(work, p) {
                    let i = choose|i: int| 0 <= i < work.len() && #[trigger] work[i] as int == p;
                    if i < rest.len() {
                        assert(rest[i] as int == p);
                    }
                }
            }
        }
    }
}

/// Marking a position as visited and adding positions to look at keeps what
/// was covered covered.
pub proof fn lemma_covered_grows(
    a: int,
    visited: Seq<bool>,
    work: Seq<u32>,
    x: int,
    more: Seq<u32>,
    p: int,
)
    requires
        0 <= x < visited.len(),
        0 <= p < visited.len(),
        is_covered(a, visited, work, p) || p == x,
    ensures
        is_covered(a, visited.update(x, true), work + more, p),
{
    if is_pending(work, p) {
        let i = choose|i: int| 0 <= i < work.len() && #[trigger] work[i] as int == p;
        assert((work + more)[i] as int == p);
    }
}

/// The number of parent edges that leave the marked entries below `upto`.
pub open spec fn marked_edges(g: Seq<EntryView>, marks: Seq<bool>, upto: int) -> int
    decreases upto,
{
    if upto <= 0 {
        0
    } else if marks[upto - 1] {
        marked_edges(g, marks, upto - 1) + g[upto - 1].parents.len()
    } else {
        marked_edges(g, marks, upto - 1)
    }
}

/// The number of parent edges of the graph.
pub open spec fn num_edges(g: Seq<EntryView>) -> int {
    marked_edges(g, Seq::new(g.len(), |p: int| true), g.len() as int)
}

/// Without a mark there is no edge.
pub proof fn lemma_no_marked_edges(g: Seq<EntryView>, marks: Seq<bool>, upto: int)
    requires
        0 <= upto <= marks.len(),
        forall|p: int| 0 <= p < upto ==> !marks[p],
    ensures
        marked_edges(g, marks, upto) == 0,
    decreases upto,
{
    if upto > 0 {
        lemma_no_marked_edges(g, marks, upto - 1);
    }
}

/// A new mark adds the edges of its entry.
pub proof fn lemma_marked_edges_set(g: Seq<EntryView>, marks: Seq<bool>, x: int, upto: int)
    requires
        0 <= x < marks.len(),
        !marks[x],
        0 <= upto <= marks.len(),
    ensures
        marked_edges(g, marks.update(x, true), upto) == marked_edges(g, marks, upto) + if x
            < upto {
            g[x].parents.len() as int
        } else {
            0
        },
    decreases upto,
{
    if upto > 0 {
        lemma_marked_edges_set(g, marks, x, upto - 1);
    }
}

/// Marks that hold wherever others hold leave at least as many edges.
pub proof fn lemma_marked_edges_grow(
    g: Seq<EntryView>,
    fewer: Seq<bool>,
    more: Seq<bool>,
    upto: int,
)
    requires
        0 <= upto <= fewer.len(),
        upto <= more.len(),
        forall|p: int| 0 <= p < upto && fewer[p] ==> more[p],
    ensures
        marked_edges(g, fewer, upto) <= marked_edges(g, more, upto),
    decreases upto,
{
    if upto > 0 {
        lemma_marked_edges_grow(g, fewer, more, upto - 1);
    }
}

impl SegmentChain {
    /// Whether the entry at `ancestor` is the entry at `descendant` or one
    /// of its ancestors.
    pub fn is_ancestor_pos(&self, ancestor: u32, descendant: u32) -> (holds: bool)
        requires
            self.wf(),
            ancestor < self@.len(),
            descendant < self@.len(),
        ensures
            holds == is_ancestor_at(self@, ancestor as int, descendant as int),
    {
        self.is_ancestor_pos_counted(ancestor, descendant).0
    }

    /// As `is_ancestor_pos`, with the number of entries that the walk took
    /// up on its way. However many paths lead from the descendant to an
    /// entry, the walk takes it up once for each edge that leads to it at
    /// most: the work is bounded by the number of edges of the graph.
    pub fn is_ancestor_pos_counted(&self, ancestor: u32, descendant: u32) -> (answer: (bool, u64))
        requires
            self.wf(),
            ancestor < self@.len(),
            descendant < self@.len(),
        ensures
            answer.0 == is_ancestor_at(self@, ancestor as int, descendant as int),
            answer.1 <= 1 + num_edges(self@),
    {
        proof {
            lemma_marked_edges_grow(
                self@,
                Seq::new(self@.len(), |p: int| false),
                Seq::new(self@.len(), |p: int| true),
                self@.len() as int,
            );
            lemma_no_marked_edges(self@, Seq::new(self@.len(), |p: int| false), self@.len() as int);
        }
        if descendant < ancestor {
            return (false, 0);
        }
        if descendant == ancestor {
            return (true, 0);
        }
        let n: u32 = self.num_commits();
        let ghost g = self@;
        let a: u32 = ancestor;
        let ancestor_generation: u32 = self.entry(a).generation_number;
        let mut visited: Vec<bool> = cleared_marks(n);
        let mut work: Vec<u32> = Vec::new();
        let mut steps: u64 = 0;
        work.push(descendant);
        proof {
            assert(is_ancestor_at(g, descendant as int, descendant as int));
            assert(work@[0] as int == descendant as int);
            lemma_count_marked_bound(visited@);
            lemma_no_marked_edges(g, visited@, n as int);
        }
        while work.len() > 0
            invariant
                steps + work.len() <= 1 + marked_edges(g, visited@, n as int),
                self.wf(),
                g == self@,
                n == g.len(),
                a == ancestor,
                a < descendant < n,
                ancestor_generation == g[a as int].generation,
                visited.len() == n,
                forall|i: int|
                    0 <= i < work.len() ==> (#[trigger] work@[i]) < n && is_ancestor_at(
                        g,
                        work@[i] as int,
                        descendant as int,
                    ),
                walk_closed(g, a as int, visited@, work@),
                visited[descendant as int] || is_pending(work@, descendant as int),
                count_marked(visited@) <= n,
            decreases n - count_marked(visited@), work.len(),
        {
            let ghost work_before = work@;
            let x: u32 = work.pop().unwrap();
            assert(work@ == work_before.drop_last());
            assert(x == work_before[work_before.len() - 1]);
            if steps < u64::MAX {
                steps = steps + 1;
            }
            if x == a {
                proof {
                    lemma_marked_edges_grow(
                        g,
                        visited@,
                        Seq::new(g.len(), |p: int| true),
                        n as int,
                    );
                }
                return (true, steps);
            }
            if x < a || visited[x as usize] {
                proof {
                    lemma_walk_closed_after_pop(g, a as int, visited@, work_before);
                    if is_pending(work_before, descendant as int) && !visited[descendant as int] {
                        let i = choose|i: int|
                            0 <= i < work_before.len() && #[trigger] work_before[i] as int
                                == descendant as int;
                        if i < work@.len() {
                            assert(work@[i] as int == descendant as int);
                        }
                    }
                }
            } else {
                let entry = self.entry(x);
                let ghost visited_before = visited@;
                let ghost work_popped = work@;
                visited.set(x as usize, true);
                proof {
                    lemma_count_marked_set(visited_before, x as int);
                    lemma_count_marked_bound(visited@);
                    assert(parents_precede(g, x as int));
                    assert(visited@ == visited_before.update(x as int, true));
                    lemma_marked_edges_set(g, visited_before, x as int, n as int);
                    assert(entry.parent_positions@.len() == g[x as int].parents.len());
                }
                if entry.generation_number > ancestor_generation {
                    let mut k: usize = 0;
                    while k < entry.parent_positions.len()
                        invariant
                            self.wf(),
                            g == self@,
                            n == g.len(),
                            x < n,
                            entry@ == g[x as int],
                            parents_precede(g, x as int),
                            is_ancestor_at(g, x as int, descendant as int),
                            k <= entry.parent_positions.len(),
                            work@.len() == work_popped.len() + k,
                            work@.subrange(0, work_popped.len() as int) == work_popped,
                            forall|i: int|
                                0 <= i < work.len() ==> (#[trigger] work@[i]) < n && is_ancestor_at(
                                    g,
                                    work@[i] as int,
                                    descendant as int,
                                ),
                            forall|j: int|
                                0 <= j < k ==> is_pending(work@, #[trigger] g[x as int].parents[j]),
                        decreases entry.parent_positions.len() - k,
                    {
                        let p: u32 = entry.parent_positions[k];
                        let ghost work_mid = work@;
                        proof {
                            assert(g[x as int].parents[k as int] == p as int);
                            lemma_parent_is_ancestor(g, x as int, k as int);
                            lemma_ancestor_transitive(g, p as int, x as int, descendant as int);
                        }
                        work.push(p);
                        proof {
                            assert(work@[work_mid.len() as int] as int == p as int);
                            assert forall|j: int| 0 <= j < k + 1 implies is_pending(
                                work@,
                                #[trigger] g[x as int].parents[j],
                            ) by {
                                if j < k {
                                    let q = g[x as int].parents[j];
                                    assert(is_pending(work_mid, q));
                                    let i = choose|i: int|
                                        0 <= i < work_mid.len() && #[trigger] work_mid[i] as int
                                            == q;
                                    assert(work@[i] as int == q);
                                }
                            }
                            assert(work@.subrange(0, work_popped.len() as int) =~= work_popped);
                        }
                        k += 1;
                    }
                }
                proof {
                    let more = work@.subrange(work_popped.len() as int, work@.len() as int);
                    assert(work@ =~= work_popped + more);
                    assert forall|v: int| 0 <= v < g.len() && #[trigger] visited@[v] implies v
                        > a && is_expanded(g, a as int, visited@, work@, v) by {
                        if v == x as int {
                            if g[v].generation > g[a as int].generation {
                                assert(entry.parent_positions@.len() == g[v].parents.len());
                            }
                        } else {
                            assert(visited_before[v]);
                            assert(is_expanded(g, a as int, visited_before, work_before, v));
                            if g[v].generation > g[a as int].generation {
                                assert forall|k: int| 0 <= k < g[v].parents.len() implies is_covered(
                                    a as int,
                                    visited@,
                                    work@,
                                    #[trigger] g[v].parents[k],
                                ) by {
                                    let p = g[v].parents[k];
                                    assert(parents_precede(g, v));
                                    assert(is_covered(a as int, visited_before, work_before, p));
                                    if is_pending(work_before, p) && p != x as int {
                                        let i = choose|i: int|
                                            0 <= i < work_before.len()
                                                && #[trigger] work_before[i] as int == p;
                                        assert(work_popped[i] as int == p);
                                    }
                                    lemma_covered_grows(
                                        a as int,
                                        visited_before,
                                        work_popped,
                                        x as int,
                                        more,
                                        p,
                                    );
                                }
                            }
                        }
                    }
                    if !visited@[descendant as int] {
                        assert(is_pending(work_before, descendant as int));
                        let i = choose|i: int|
                            0 <= i < work_before.len() && #[trigger] work_before[i] as int
                                == descendant as int;
                        assert(work@[i] as int == descendant as int);
                    }
                }
            }
        }
        proof {
            assert(work@ =~= Seq::<u32>::empty());
            assert(!is_pending(work@, descendant as int));
            lemma_closed_walk_excludes(g, a as int, visited@, descendant as int);
            lemma_marked_edges_grow(g, visited@, Seq::new(g.len(), |p: int| true), n as int);
        }
        (false, steps)
    }

    /// Whether the first commit is the second or one of its ancestors: the
    /// two ids are the same, or both are indexed and the first can be reached
    /// from the second by following parent edges.
    pub fn is_ancestor(&self, ancestor_id: &CommitId, descendant_id: &CommitId) -> (holds: bool)
        requires
            self.wf(),
        ensures
            holds == is_ancestor_id(self@, ancestor_id@, descendant_id@),
    {
        self.is_ancestor_counted(ancestor_id, descendant_id).0
    }

    /// As `is_ancestor`, with the number of entries that the walk took up
    /// on its way, which the number of edges of the graph bounds. Looking
    /// the two ids up is not counted: it takes each entry up once at most.
    pub fn is_ancestor_counted(&self, ancestor_id: &CommitId, descendant_id: &CommitId) -> (answer: (
        bool,
        u64,
    ))
        requires
            self.wf(),
        ensures
            answer.0 == is_ancestor_id(self@, ancestor_id@, descendant_id@),
            answer.1 <= 1 + num_edges(self@),
    {
        proof {
            lemma_marked_edges_grow(
                self@,
                Seq::new(self@.len(), |p: int| false),
                Seq::new(self@.len(), |p: int| true),
                self@.len() as int,
            );
            lemma_no_marked_edges(self@, Seq::new(self@.len(), |p: int| false), self@.len() as int);
        }
        if ancestor_id.same_as(descendant_id) {
            return (true, 0);
        }
        match (self.position_of(ancestor_id), self.position_of(descendant_id)) {
            (Some(a), Some(d)) => self.is_ancestor_pos_counted(a, d),
            _ => (false, 0),
        }
    }
}

/// Ancestry between commit ids: the ids are the same, or both are indexed
/// and the entry of the first is an ancestor of the entry of the second.
pub open spec fn is_ancestor_id(g: Seq<EntryView>, ancestor: Seq<u8>, descendant: Seq<u8>) -> bool {
    ancestor == descendant || (has_commit(g, ancestor) && has_commit(g, descendant)
        && is_ancestor_at(g, position_of(g, ancestor), position_of(g, descendant)))
}

} // verus!
