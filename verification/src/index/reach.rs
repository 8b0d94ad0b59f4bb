//! Sets of positions closed under ancestry: everything that a set of heads
//! descends from, and everything that descends from a set of roots.
//!
//! Both are computed in one pass over the positions, which visits every
//! entry once whatever the number of paths between them.

use vstd::prelude::*;
use crate::index::chain::SegmentChain;
use crate::index::graph::{
    graph_wf, is_ancestor_at, lemma_ancestor_transitive, lemma_parent_is_ancestor,
    parents_precede, EntryView,
};

verus! {

/// Whether the position is one of `positions`.
pub open spec fn is_listed(positions: Seq<u32>, p: int) -> bool {
    exists|i: int| 0 <= i < positions.len() && #[trigger] positions[i] as int == p
}

/// Whether the entry at `p` is one of the heads or an ancestor of one.
pub open spec fn is_ancestor_of_some(g: Seq<EntryView>, heads: Seq<u32>, p: int) -> bool {
    exists|i: int| 0 <= i < heads.len() && is_ancestor_at(g, p, #[trigger] heads[i] as int)
}

/// Whether the entry at `p` is one of the roots or a descendant of one.
pub open spec fn is_descendant_of_some(g: Seq<EntryView>, roots: Seq<u32>, p: int) -> bool {
    exists|i: int| 0 <= i < roots.len() && is_ancestor_at(g, #[trigger] roots[i] as int, p)
}

/// Whether one of the parents of the entry at `p`, among its first `upto`,
/// is marked.
pub open spec fn some_parent_marked(g: Seq<EntryView>, marks: Seq<bool>, p: int, upto: int) -> bool {
    exists|k: int| 0 <= k < upto && k < g[p].parents.len() && marks[#[trigger] g[p].parents[k]]
}

/// An entry descends from a root exactly if it is a root or one of its
/// parents descends from one.
pub proof fn lemma_descendant_step(g: Seq<EntryView>, roots: Seq<u32>, p: int)
    requires
        graph_wf(g),
        0 <= p < g.len(),
    ensures
        is_descendant_of_some(g, roots, p) <==> (is_listed(roots, p) || exists|k: int|
            0 <= k < g[p].parents.len() && is_descendant_of_some(
                g,
                roots,
                #[trigger] g[p].parents[k],
            )),
{
    assert(parents_precede(g, p));
    if is_descendant_of_some(g, roots, p) {
        let i = choose|i: int|
            0 <= i < roots.len() && is_ancestor_at(g, #[trigger] roots[i] as int, p);
        let r = roots[i] as int;
        if r != p {
            let k = choose|k: int|
                0 <= k < g[p].parents.len() && 0 <= #[trigger] g[p].parents[k] < p
                    && is_ancestor_at(g, r, g[p].parents[k]);
            assert(is_descendant_of_some(g, roots, g[p].parents[k]));
        }
    }
    if is_listed(roots, p) {
        let i = choose|i: int| 0 <= i < roots.len() && #[trigger] roots[i] as int == p;
        assert(is_ancestor_at(g, roots[i] as int, p));
    }
    if exists|k: int|
        0 <= k < g[p].parents.len() && is_descendant_of_some(g, roots, #[trigger] g[p].parents[k]) {
        let k = choose|k: int|
            0 <= k < g[p].parents.len() && is_descendant_of_some(
                g,
                roots,
                #[trigger] g[p].parents[k],
            );
        let q = g[p].parents[k];
        let i = choose|i: int|
            0 <= i < roots.len() && is_ancestor_at(g, #[trigger] roots[i] as int, q);
        lemma_parent_is_ancestor(g, p, k);
        lemma_ancestor_transitive(g, roots[i] as int, q, p);
    }
}

/// Every parent of the entry at `y` is marked.
pub open spec fn parents_marked(g: Seq<EntryView>, marks: Seq<bool>, y: int) -> bool {
    forall|k: int| 0 <= k < g[y].parents.len() ==> marks[#[trigger] g[y].parents[k]]
}

/// Marks are closed under parents from `from` on: every parent of a marked
/// entry at or after `from` is marked.
pub open spec fn closed_from(g: Seq<EntryView>, marks: Seq<bool>, from: int) -> bool {
    forall|y: int| from <= y < g.len() && marks[y] ==> #[trigger] parents_marked(g, marks, y)
}

/// Marking one more entry keeps the parents of an entry marked.
pub proof fn lemma_parents_stay_marked(g: Seq<EntryView>, marks: Seq<bool>, q: int, y: int)
    requires
        graph_wf(g),
        marks.len() == g.len(),
        0 <= q < g.len(),
        0 <= y < g.len(),
        parents_marked(g, marks, y),
    ensures
        parents_marked(g, marks.update(q, true), y),
{
    assert(parents_precede(g, y));
    assert forall|k: int| 0 <= k < g[y].parents.len() implies marks.update(
        q,
        true,
    )[#[trigger] g[y].parents[k]] by {
        assert(marks[g[y].parents[k]]);
    }
}

/// Where the marks hold the heads and are closed under parents, every
/// ancestor of a marked entry is marked.
pub proof fn lemma_closed_marks_hold_ancestors(g: Seq<EntryView>, marks: Seq<bool>, x: int, b: int)
    requires
        graph_wf(g),
        marks.len() == g.len(),
        closed_from(g, marks, 0),
        0 <= b < g.len(),
        marks[b],
        is_ancestor_at(g, x, b),
    ensures
        marks[x],
    decreases b,
{
    if x != b {
        let k = choose|k: int|
            0 <= k < g[b].parents.len() && 0 <= #[trigger] g[b].parents[k] < b && is_ancestor_at(
                g,
                x,
                g[b].parents[k],
            );
        assert(parents_marked(g, marks, b));
        lemma_closed_marks_hold_ancestors(g, marks, x, g[b].parents[k]);
    }
}

impl SegmentChain {
    /// Whether the position is one of `positions`.
    pub fn lists_position(positions: &Vec<u32>, p: u32) -> (listed: bool)
        ensures
            listed == is_listed(positions@, p as int),
    {
        let mut i: usize = 0;
        while i < positions.len()
            invariant
                i <= positions.len(),
                forall|j: int| 0 <= j < i ==> #[trigger] positions@[j] as int != p as int,
            decreases positions.len() - i,
        {
            if positions[i] == p {
                return true;
            }
            i += 1;
        }
        false
    }

    /// Marks every entry that is one of the roots or descends from one.
    pub fn descendants_mask(&self, roots: &Vec<u32>) -> (marks: Vec<bool>)
        requires
            self.wf(),
        ensures
            marks.len() == self@.len(),
            forall|p: int|
                0 <= p < self@.len() ==> marks[p] == is_descendant_of_some(self@, roots@, p),
    {
        let ghost g = self@;
        let n: u32 = self.num_commits();
        let mut marks: Vec<bool> = Vec::new();
        let mut p: u32 = 0;
        while p < n
            invariant
                self.wf(),
                g == self@,
                n == g.len(),
                p <= n,
                marks.len() == p,
                forall|x: int| 0 <= x < p ==> marks[x] == is_descendant_of_some(g, roots@, x),
            decreases n - p,
        {
            let entry = self.entry(p);
            let mut marked: bool = Self::lists_position(roots, p);
            let mut k: usize = 0;
            proof {
                assert(parents_precede(g, p as int));
            }
            while k < entry.parent_positions.len() && !marked
                invariant
                    g == self@,
                    p < g.len(),
                    marks.len() == p,
                    entry@ == g[p as int],
                    parents_precede(g, p as int),
                    k <= entry.parent_positions.len(),
                    marked == (is_listed(roots@, p as int) || some_parent_marked(
                        g,
                        marks@,
                        p as int,
                        k as int,
                    )),
                decreases entry.parent_positions.len() - k,
            {
                let q: u32 = entry.parent_positions[k];
                assert(g[p as int].parents[k as int] == q as int);
                if marks[q as usize] {
                    marked = true;
                } else {
                    proof {
                        if some_parent_marked(g, marks@, p as int, k + 1) {
                            let j = choose|j: int|
                                0 <= j < k + 1 && j < g[p as int].parents.len()
                                    && marks@[#[trigger] g[p as int].parents[j]];
                            assert(j < k);
                            assert(some_parent_marked(g, marks@, p as int, k as int));
                        }
                    }
                }
                k += 1;
            }
            proof {
                let full = entry.parent_positions.len() as int;
                lemma_descendant_step(g, roots@, p as int);
                if marked && !is_listed(roots@, p as int) {
                    let upto = if k as int <= full {
                        k as int
                    } else {
                        full
                    };
                    let j = choose|j: int|
                        0 <= j < k && j < g[p as int].parents.len() && marks@[#[trigger] g[p as int].parents[j]];
                    assert(is_descendant_of_some(g, roots@, g[p as int].parents[j]));
                }
                if !marked {
                    assert(k == full);
                    if exists|j: int|
                        0 <= j < g[p as int].parents.len() && is_descendant_of_some(
                            g,
                            roots@,
                            #[trigger] g[p as int].parents[j],
                        ) {
                        let j = choose|j: int|
                            0 <= j < g[p as int].parents.len() && is_descendant_of_some(
                                g,
                                roots@,
                                #[trigger] g[p as int].parents[j],
                            );
                        assert(marks@[g[p as int].parents[j]]);
                        assert(some_parent_marked(g, marks@, p as int, k as int));
                    }
                }
            }
            marks.push(marked);
            p += 1;
        }
        marks
    }

    /// Marks every entry that is one of the heads or an ancestor of one.
    pub fn ancestors_mask(&self, heads: &Vec<u32>) -> (marks: Vec<bool>)
        requires
            self.wf(),
            forall|i: int| 0 <= i < heads.len() ==> (#[trigger] heads@[i]) < self@.len(),
        ensures
            marks.len() == self@.len(),
            forall|p: int|
                0 <= p < self@.len() ==> marks[p] == is_ancestor_of_some(self@, heads@, p),
    {
        let ghost g = self@;
        let n: u32 = self.num_commits();
        let mut marks: Vec<bool> = crate::index::ancestry::cleared_marks(n);
        let mut i: usize = 0;
        while i < heads.len()
            invariant
                n == g.len(),
                g == self@,
                marks.len() == n,
                i <= heads.len(),
                forall|j: int| 0 <= j < heads.len() ==> (#[trigger] heads@[j]) < n,
                forall|j: int| 0 <= j < i ==> marks@[(#[trigger] heads@[j]) as int],
                forall|x: int| 0 <= x < n && marks@[x] ==> is_ancestor_of_some(g, heads@, x),
            decreases heads.len() - i,
        {
            let h: u32 = heads[i];
            let ghost before = marks@;
            marks.set(h as usize, true);
            proof {
                assert(is_ancestor_at(g, h as int, heads@[i as int] as int));
                assert forall|x: int| 0 <= x < n && marks@[x] implies is_ancestor_of_some(
                    g,
                    heads@,
                    x,
                ) by {
                    if x != h {
                        assert(before[x]);
                    }
                }
                assert forall|j: int| 0 <= j < i + 1 implies marks@[(#[trigger] heads@[j]) as int] by {
                    if j < i {
                        assert(before[heads@[j] as int]);
                    }
                }
            }
            i += 1;
        }
        let mut p: u32 = n;
        while p > 0
            invariant
                self.wf(),
                g == self@,
                n == g.len(),
                p <= n,
                marks.len() == n,
                forall|j: int| 0 <= j < heads.len() ==> (#[trigger] heads@[j]) < n,
                forall|j: int| 0 <= j < heads.len() ==> marks@[(#[trigger] heads@[j]) as int],
                forall|x: int| 0 <= x < n && marks@[x] ==> is_ancestor_of_some(g, heads@, x),
                closed_from(g, marks@, p as int),
            decreases p,
        {
            p -= 1;
            proof {
                assert(parents_precede(g, p as int));
            }
            if marks[p as usize] {
                let entry = self.entry(p);
                let mut k: usize = 0;
                while k < entry.parent_positions.len()
                    invariant
                        self.wf(),
                        g == self@,
                        n == g.len(),
                        p < n,
                        marks.len() == n,
                        marks@[p as int],
                        forall|j: int| 0 <= j < heads.len() ==> (#[trigger] heads@[j]) < n,
                        entry@ == g[p as int],
                        parents_precede(g, p as int),
                        k <= entry.parent_positions.len(),
                        forall|j: int|
                            0 <= j < heads.len() ==> marks@[(#[trigger] heads@[j]) as int],
                        forall|x: int|
                            0 <= x < n && marks@[x] ==> is_ancestor_of_some(g, heads@, x),
                        closed_from(g, marks@, p + 1),
                        forall|j: int| 0 <= j < k ==> marks@[#[trigger] g[p as int].parents[j]],
                    decreases entry.parent_positions.len() - k,
                {
                    let q: u32 = entry.parent_positions[k];
                    let ghost before = marks@;
                    assert(g[p as int].parents[k as int] == q as int);
                    marks.set(q as usize, true);
                    proof {
                        assert(marks@ == before.update(q as int, true));
                        let i = choose|i: int|
                            0 <= i < heads.len() && is_ancestor_at(
                                g,
                                p as int,
                                #[trigger] heads@[i] as int,
                            );
                        lemma_parent_is_ancestor(g, p as int, k as int);
                        lemma_ancestor_transitive(g, q as int, p as int, heads@[i] as int);
                        assert forall|x: int| 0 <= x < n && marks@[x] implies is_ancestor_of_some(
                            g,
                            heads@,
                            x,
                        ) by {
                            if x != q {
                                assert(before[x]);
                            }
                        }
                        assert forall|j: int| 0 <= j < heads.len() implies marks@[(
                        #[trigger] heads@[j]) as int] by {
                            assert(before[heads@[j] as int]);
                        }
                        assert forall|y: int| p + 1 <= y < g.len() && marks@[y] implies #[trigger] parents_marked(
                            g,
                            marks@,
                            y,
                        ) by {
                            assert(before[y]);
                            assert(parents_marked(g, before, y));
                            lemma_parents_stay_marked(g, before, q as int, y);
                        }
                        assert forall|j: int| 0 <= j < k + 1 implies marks@[#[trigger] g[p as int].parents[j]] by {
                            if j < k {
                                assert(before[g[p as int].parents[j]]);
                            }
                        }
                    }
                    k += 1;
                }
                proof {
                    assert(parents_marked(g, marks@, p as int));
                    assert forall|y: int| p <= y < g.len() && marks@[y] implies #[trigger] parents_marked(
                        g,
                        marks@,
                        y,
                    ) by {
                        if y > p {
                            assert(closed_from(g, marks@, p + 1));
                        }
                    }
                }
            } else {
                proof {
                    assert forall|y: int| p <= y < g.len() && marks@[y] implies #[trigger] parents_marked(
                        g,
                        marks@,
                        y,
                    ) by {
                        assert(y > p);
                    }
                }
            }
        }
        proof {
            assert forall|x: int| 0 <= x < n implies marks@[x] == is_ancestor_of_some(
                g,
                heads@,
                x,
            ) by {
                if is_ancestor_of_some(g, heads@, x) {
                    let i = choose|i: int|
                        0 <= i < heads.len() && is_ancestor_at(g, x, #[trigger] heads@[i] as int);
                    lemma_closed_marks_hold_ancestors(g, marks@, x, heads@[i] as int);
                }
            }
        }
        marks
    }
}

/// The commit ids of the marked entries at or after `from`, the latest
/// entry first.
pub open spec fn marked_ids_from(g: Seq<EntryView>, marks: Seq<bool>, from: int) -> Seq<Seq<u8>>
    decreases g.len() - from,
{
    if from >= g.len() || from < 0 {
        Seq::empty()
    } else if marks[from] {
        marked_ids_from(g, marks, from + 1).push(g[from].commit_id)
    } else {
        marked_ids_from(g, marks, from + 1)
    }
}

/// The commit ids of the marked entries, the latest entry first.
pub open spec fn marked_ids(g: Seq<EntryView>, marks: Seq<bool>) -> Seq<Seq<u8>> {
    marked_ids_from(g, marks, 0)
}

/// The marked ids depend on the marks of entries only.
pub proof fn lemma_marked_ids_same(g: Seq<EntryView>, first: Seq<bool>, second: Seq<bool>, from: int)
    requires
        forall|p: int| 0 <= p < g.len() ==> first[p] == second[p],
    ensures
        marked_ids_from(g, first, from) == marked_ids_from(g, second, from),
    decreases g.len() - from,
{
    if 0 <= from < g.len() {
        lemma_marked_ids_same(g, first, second, from + 1);
    }
}

impl SegmentChain {
    /// The commit ids of the marked entries, the latest entry first.
    pub fn ids_of_marked(&self, marks: &Vec<bool>) -> (ids: Vec<crate::ids::CommitId>)
        requires
            self.wf(),
            marks.len() == self@.len(),
        ensures
            crate::index::mutable::id_views(ids@) == marked_ids(self@, marks@),
    {
        let ghost g = self@;
        let n: u32 = self.num_commits();
        let mut ids: Vec<crate::ids::CommitId> = Vec::new();
        let mut p: u32 = n;
        while p > 0
            invariant
                self.wf(),
                g == self@,
                n == g.len(),
                marks.len() == n,
                p <= n,
                crate::index::mutable::id_views(ids@) == marked_ids_from(g, marks@, p as int),
            decreases p,
        {
            p -= 1;
            let ghost before = crate::index::mutable::id_views(ids@);
            if marks[p as usize] {
                let id = self.entry(p).commit_id.clone();
                ids.push(id);
                assert(crate::index::mutable::id_views(ids@) =~= before.push(g[p as int].commit_id));
            }
        }
        ids
    }
}

} // verus!
