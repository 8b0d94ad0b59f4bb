//! Evaluation of ranges: the commits within a number of generations of a
//! set of heads that are not in the history of a set of roots.
//!
//! The walk goes generation by generation. Each generation is a set of
//! positions, so a commit that many paths reach at the same distance is
//! looked at once for that distance, and the cost is bounded by the size of
//! the graph times the width of the range.

use vstd::prelude::*;
use crate::ids::CommitId;
use crate::index::ancestry::cleared_marks;
use crate::index::chain::SegmentChain;
use crate::index::error::{IndexError, IndexErrorView};
use crate::index::graph::{
    graph_wf, has_commit, parents_precede, position_of, positions_of, EntryView,
};
use crate::index::mutable::{id_views, MutableIndex, ReadonlyIndex};
use crate::index::reach::{lemma_marked_ids_same, marked_ids};

verus! {

/// A range of generations, from `start` up to `end` without it. The heads
/// themselves are generation zero.
#[derive(Clone, Copy, Debug, PartialEq, Eq, Structural)]
pub struct GenerationRange {
    pub start: u64,
    pub end: u64,
}

/// The parents to follow, by their place among the parents of a commit:
/// from `start` up to `end` without it.
#[derive(Clone, Copy, Debug, PartialEq, Eq, Structural)]
pub struct ParentsRange {
    pub start: u32,
    pub end: u32,
}

impl GenerationRange {
    /// The range of all generations.
    pub fn full() -> (range: GenerationRange)
        ensures
            range == (GenerationRange { start: 0, end: u64::MAX }),
    {
        GenerationRange { start: 0, end: u64::MAX }
    }
}

impl ParentsRange {
    /// The range of all parents.
    pub fn full() -> (range: ParentsRange)
        ensures
            range == (ParentsRange { start: 0, end: u32::MAX }),
    {
        ParentsRange { start: 0, end: u32::MAX }
    }
}

/// Whether the walk follows the parent numbered `k` of the entry at `c`.
pub open spec fn follows_parent(g: Seq<EntryView>, parents: ParentsRange, c: int, k: int) -> bool {
    0 <= k < g[c].parents.len() && parents.start <= k < parents.end
}

/// Whether `x` is reached from `h` in exactly `d` steps, each from an entry
/// to one of its parents that the walk follows.
pub open spec fn reaches_in(g: Seq<EntryView>, parents: ParentsRange, h: int, x: int, d: int) -> bool
    decreases d,
{
    if d <= 0 {
        d == 0 && h == x && 0 <= h < g.len()
    } else {
        0 <= h < g.len() && exists|k: int|
            follows_parent(g, parents, h, k) && reaches_in(
                g,
                parents,
                #[trigger] g[h].parents[k],
                x,
                d - 1,
            )
    }
}

/// Whether `x` is reached in exactly `d` steps from one of the heads.
pub open spec fn reached_at(
    g: Seq<EntryView>,
    parents: ParentsRange,
    heads: Seq<int>,
    x: int,
    d: int,
) -> bool {
    exists|i: int| 0 <= i < heads.len() && reaches_in(g, parents, #[trigger] heads[i], x, d)
}

/// Whether `x` is reached from one of the heads in a number of steps
/// within the range.
pub open spec fn is_within(
    g: Seq<EntryView>,
    parents: ParentsRange,
    heads: Seq<int>,
    generation: GenerationRange,
    x: int,
) -> bool {
    exists|d: int| generation.start <= d < generation.end && #[trigger] reached_at(g, parents, heads, x, d)
}

/// Whether `x` is reached from one of the roots in any number of steps.
pub open spec fn is_behind(g: Seq<EntryView>, parents: ParentsRange, roots: Seq<int>, x: int) -> bool {
    exists|d: int| 0 <= d && #[trigger] reached_at(g, parents, roots, x, d)
}

/// Whether the entry at `x` belongs to the range: it is within the
/// generations of the heads and not in the history of the roots.
pub open spec fn is_in_range(
    g: Seq<EntryView>,
    roots: Seq<int>,
    heads: Seq<int>,
    generation: GenerationRange,
    parents: ParentsRange,
    x: int,
) -> bool {
    is_within(g, parents, heads, generation, x) && !is_behind(g, parents, roots, x)
}

/// For each position, whether its entry belongs to the range.
pub open spec fn range_marks(
    g: Seq<EntryView>,
    roots: Seq<int>,
    heads: Seq<int>,
    generation: GenerationRange,
    parents: ParentsRange,
) -> Seq<bool> {
    Seq::new(g.len(), |x: int| is_in_range(g, roots, heads, generation, parents, x))
}

/// A walk of `d` steps can be made one step longer at its end.
pub proof fn lemma_reach_one_more(
    g: Seq<EntryView>,
    parents: ParentsRange,
    h: int,
    p: int,
    d: int,
    k: int,
)
    requires
        graph_wf(g),
        0 <= d,
        reaches_in(g, parents, h, p, d),
        follows_parent(g, parents, p, k),
    ensures
        reaches_in(g, parents, h, g[p].parents[k], d + 1),
    decreases d,
{
    if d == 0 {
        assert(parents_precede(g, p));
        assert(reaches_in(g, parents, g[p].parents[k], g[p].parents[k], 0));
    } else {
        let j = choose|j: int|
            follows_parent(g, parents, h, j) && reaches_in(
                g,
                parents,
                #[trigger] g[h].parents[j],
                p,
                d - 1,
            );
        lemma_reach_one_more(g, parents, g[h].parents[j], p, d - 1, k);
    }
}

/// Whether `x` is a parent that the walk follows from an entry that is
/// reached in `d` steps.
pub open spec fn is_next_step(
    g: Seq<EntryView>,
    parents: ParentsRange,
    h: int,
    x: int,
    d: int,
) -> bool {
    exists|p: int, k: int|
        #![trigger reaches_in(g, parents, h, p, d), g[p].parents[k]]
        reaches_in(g, parents, h, p, d) && follows_parent(g, parents, p, k) && g[p].parents[k] == x
}

/// A walk of more than no step ends with a step from an entry that the
/// walk without it reaches.
pub proof fn lemma_reach_last_step(g: Seq<EntryView>, parents: ParentsRange, h: int, x: int, d: int)
    requires
        graph_wf(g),
        0 <= d,
        reaches_in(g, parents, h, x, d + 1),
    ensures
        is_next_step(g, parents, h, x, d),
    decreases d,
{
    let j = choose|j: int|
        follows_parent(g, parents, h, j) && reaches_in(g, parents, #[trigger] g[h].parents[j], x, d);
    let q = g[h].parents[j];
    if d == 0 {
        assert(reaches_in(g, parents, h, h, 0));
        assert(g[h].parents[j] == x);
    } else {
        lemma_reach_last_step(g, parents, q, x, d - 1);
        let (p, k) = choose|p: int, k: int|
            #![trigger reaches_in(g, parents, q, p, d - 1), g[p].parents[k]]
            reaches_in(g, parents, q, p, d - 1) && follows_parent(g, parents, p, k)
                && g[p].parents[k] == x;
        assert(reaches_in(g, parents, h, p, d));
        assert(g[p].parents[k] == x);
    }
}

/// A walk never takes more steps than the positions it goes down.
pub proof fn lemma_reach_distance(g: Seq<EntryView>, parents: ParentsRange, h: int, x: int, d: int)
    requires
        graph_wf(g),
        reaches_in(g, parents, h, x, d),
    ensures
        0 <= d <= h - x,
        0 <= x <= h < g.len(),
    decreases d,
{
    if d > 0 {
        let j = choose|j: int|
            follows_parent(g, parents, h, j) && reaches_in(
                g,
                parents,
                #[trigger] g[h].parents[j],
                x,
                d - 1,
            );
        assert(parents_precede(g, h));
        lemma_reach_distance(g, parents, g[h].parents[j], x, d - 1);
    }
}

/// Whether `x` is a followed parent of one of the first `upto` entries that
/// are marked.
pub open spec fn is_step_from_marked(
    g: Seq<EntryView>,
    parents: ParentsRange,
    marks: Seq<bool>,
    upto: int,
    x: int,
) -> bool {
    exists|p: int, k: int|
        #![trigger marks[p], g[p].parents[k]]
        0 <= p < upto && marks[p] && follows_parent(g, parents, p, k) && g[p].parents[k] == x
}

/// Whether `x` is a followed parent of the entry at `p`, among its first
/// `upto` parents.
pub open spec fn is_step_of(
    g: Seq<EntryView>,
    parents: ParentsRange,
    p: int,
    upto: int,
    x: int,
) -> bool {
    exists|k: int| 0 <= k < upto && follows_parent(g, parents, p, k) && #[trigger] g[p].parents[k] == x
}

/// Whether `x` was marked at the start or is a followed parent of the entry
/// at `p`, among its first `upto` parents.
pub open spec fn marked_or_step_of(
    at_start: Seq<bool>,
    g: Seq<EntryView>,
    parents: ParentsRange,
    p: int,
    upto: int,
    x: int,
) -> bool {
    at_start[x] || is_step_of(g, parents, p, upto, x)
}

impl SegmentChain {
    /// Marks the entries that are one followed step from a marked entry.
    pub fn step_marks(&self, parents: &ParentsRange, marks: &Vec<bool>) -> (next: Vec<bool>)
        requires
            self.wf(),
            marks.len() == self@.len(),
        ensures
            next.len() == self@.len(),
            forall|x: int|
                0 <= x < self@.len() ==> next[x] == is_step_from_marked(
                    self@,
                    *parents,
                    marks@,
                    self@.len() as int,
                    x,
                ),
    {
        let ghost g = self@;
        let n: u32 = self.num_commits();
        let mut next: Vec<bool> = cleared_marks(n);
        let mut p: u32 = 0;
        while p < n
            invariant
                self.wf(),
                g == self@,
                n == g.len(),
                marks.len() == n,
                next.len() == n,
                p <= n,
                forall|x: int|
                    0 <= x < n ==> next@[x] == is_step_from_marked(g, *parents, marks@, p as int, x),
            decreases n - p,
        {
            let ghost at_start = next@;
            if marks[p as usize] {
                let entry = self.entry(p);
                proof {
                    assert(parents_precede(g, p as int));
                }
                let mut k: usize = 0;
                while k < entry.parent_positions.len()
                    invariant
                        g == self@,
                        n == g.len(),
                        next.len() == n,
                        marks.len() == n,
                        p < n,
                        marks@[p as int],
                        entry@ == g[p as int],
                        parents_precede(g, p as int),
                        k <= entry.parent_positions.len(),
                        at_start.len() == n,
                        forall|x: int|
                            0 <= x < n ==> next@[x] == marked_or_step_of(
                                at_start,
                                g,
                                *parents,
                                p as int,
                                k as int,
                                x,
                            ),
                    decreases entry.parent_positions.len() - k,
                {
                    let ghost before = next@;
                    let q: u32 = entry.parent_positions[k];
                    assert(g[p as int].parents[k as int] == q as int);
                    let followed: bool = parents.start as usize <= k && k < parents.end as usize;
                    if followed {
                        next.set(q as usize, true);
                    }
                    proof {
                        assert forall|x: int| 0 <= x < n implies next@[x] == marked_or_step_of(
                            at_start,
                            g,
                            *parents,
                            p as int,
                            k + 1,
                            x,
                        ) by {
                            assert(before[x] == marked_or_step_of(
                                at_start,
                                g,
                                *parents,
                                p as int,
                                k as int,
                                x,
                            ));
                            if is_step_of(g, *parents, p as int, k + 1, x) {
                                let j = choose|j: int|
                                    0 <= j < k + 1 && follows_parent(g, *parents, p as int, j)
                                        && #[trigger] g[p as int].parents[j] == x;
                                if j < k {
                                    assert(is_step_of(g, *parents, p as int, k as int, x));
                                }
                            }
                            if is_step_of(g, *parents, p as int, k as int, x) {
                                let j = choose|j: int|
                                    0 <= j < k && follows_parent(g, *parents, p as int, j)
                                        && #[trigger] g[p as int].parents[j] == x;
                                assert(j < k + 1);
                            }
                            if followed && x == q as int {
                                assert(follows_parent(g, *parents, p as int, k as int));
                                assert(g[p as int].parents[k as int] == x);
                            }
                        }
                    }
                    k += 1;
                }
                proof {
                    assert forall|x: int| 0 <= x < n implies next@[x] == is_step_from_marked(
                        g,
                        *parents,
                        marks@,
                        p + 1,
                        x,
                    ) by {
                        let full = entry.parent_positions.len() as int;
                        assert(at_start[x] == is_step_from_marked(g, *parents, marks@, p as int, x));
                        assert(next@[x] == marked_or_step_of(
                            at_start,
                            g,
                            *parents,
                            p as int,
                            full,
                            x,
                        ));
                        if is_step_from_marked(g, *parents, marks@, p + 1, x) {
                            let (a, j) = choose|a: int, j: int|
                                #![trigger marks@[a], g[a].parents[j]]
                                0 <= a < p + 1 && marks@[a] && follows_parent(g, *parents, a, j)
                                    && g[a].parents[j] == x;
                            if a < p {
                                assert(is_step_from_marked(g, *parents, marks@, p as int, x));
                            } else {
                                assert(is_step_of(g, *parents, p as int, full, x));
                            }
                        }
                        if is_step_from_marked(g, *parents, marks@, p as int, x) {
                            let (a, j) = choose|a: int, j: int|
                                #![trigger marks@[a], g[a].parents[j]]
                                0 <= a < p && marks@[a] && follows_parent(g, *parents, a, j)
                                    && g[a].parents[j] == x;
                            assert(a < p + 1);
                        }
                        if is_step_of(g, *parents, p as int, full, x) {
                            let j = choose|j: int|
                                0 <= j < full && follows_parent(g, *parents, p as int, j)
                                    && #[trigger] g[p as int].parents[j] == x;
                            assert(marks@[p as int] && g[p as int].parents[j] == x);
                        }
                    }
                }
            } else {
                proof {
                    assert forall|x: int| 0 <= x < n implies next@[x] == is_step_from_marked(
                        g,
                        *parents,
                        marks@,
                        p + 1,
                        x,
                    ) by {
                        assert(at_start[x] == is_step_from_marked(g, *parents, marks@, p as int, x));
                        if is_step_from_marked(g, *parents, marks@, p + 1, x) {
                            let (a, j) = choose|a: int, j: int|
                                #![trigger marks@[a], g[a].parents[j]]
                                0 <= a < p + 1 && marks@[a] && follows_parent(g, *parents, a, j)
                                    && g[a].parents[j] == x;
                            assert(a < p);
                        }
                        if is_step_from_marked(g, *parents, marks@, p as int, x) {
                            let (a, j) = choose|a: int, j: int|
                                #![trigger marks@[a], g[a].parents[j]]
                                0 <= a < p && marks@[a] && follows_parent(g, *parents, a, j)
                                    && g[a].parents[j] == x;
                            assert(a < p + 1);
                        }
                    }
                }
            }
            p += 1;
        }
        next
    }
}

/// The positions as integers.
pub open spec fn as_ints(positions: Seq<u32>) -> Seq<int> {
    positions.map_values(|p: u32| p as int)
}

/// The next generation holds what is one followed step from the present
/// one.
pub proof fn lemma_next_generation(
    g: Seq<EntryView>,
    parents: ParentsRange,
    heads: Seq<int>,
    marks: Seq<bool>,
    d: int,
    x: int,
)
    requires
        graph_wf(g),
        marks.len() == g.len(),
        0 <= d,
        0 <= x < g.len(),
        forall|y: int| 0 <= y < g.len() ==> marks[y] == #[trigger] reached_at(g, parents, heads, y, d),
    ensures
        is_step_from_marked(g, parents, marks, g.len() as int, x) == reached_at(
            g,
            parents,
            heads,
            x,
            d + 1,
        ),
{
    if is_step_from_marked(g, parents, marks, g.len() as int, x) {
        let (p, k) = choose|p: int, k: int|
            #![trigger marks[p], g[p].parents[k]]
            0 <= p < g.len() && marks[p] && follows_parent(g, parents, p, k) && g[p].parents[k]
                == x;
        assert(reached_at(g, parents, heads, p, d));
        let i = choose|i: int|
            0 <= i < heads.len() && reaches_in(g, parents, #[trigger] heads[i], p, d);
        lemma_reach_one_more(g, parents, heads[i], p, d, k);
        assert(reaches_in(g, parents, heads[i], x, d + 1));
    }
    if reached_at(g, parents, heads, x, d + 1) {
        let i = choose|i: int|
            0 <= i < heads.len() && reaches_in(g, parents, #[trigger] heads[i], x, d + 1);
        lemma_reach_last_step(g, parents, heads[i], x, d);
        let (p, k) = choose|p: int, k: int|
            #![trigger reaches_in(g, parents, heads[i], p, d), g[p].parents[k]]
            reaches_in(g, parents, heads[i], p, d) && follows_parent(g, parents, p, k)
                && g[p].parents[k] == x;
        lemma_reach_distance(g, parents, heads[i], p, d);
        assert(reached_at(g, parents, heads, p, d));
        assert(marks[p] && g[p].parents[k] == x);
    }
}

/// Once a generation is empty, every later one is.
pub proof fn lemma_empty_generation_stays(
    g: Seq<EntryView>,
    parents: ParentsRange,
    heads: Seq<int>,
    d: int,
    later: int,
    x: int,
)
    requires
        graph_wf(g),
        0 <= d <= later,
        forall|y: int| !#[trigger] reached_at(g, parents, heads, y, d),
    ensures
        !reached_at(g, parents, heads, x, later),
    decreases later - d,
{
    if d < later && reached_at(g, parents, heads, x, later) {
        let i = choose|i: int|
            0 <= i < heads.len() && reaches_in(g, parents, #[trigger] heads[i], x, later);
        lemma_reach_last_step(g, parents, heads[i], x, later - 1);
        let (p, k) = choose|p: int, k: int|
            #![trigger reaches_in(g, parents, heads[i], p, later - 1), g[p].parents[k]]
            reaches_in(g, parents, heads[i], p, later - 1) && follows_parent(g, parents, p, k)
                && g[p].parents[k] == x;
        assert(reached_at(g, parents, heads, p, later - 1));
        lemma_empty_generation_stays(g, parents, heads, d, later - 1, p);
    }
}

/// Whether one of the marks is set.
pub fn any_marked(marks: &Vec<bool>) -> (any: bool)
    ensures
        any == exists|x: int| 0 <= x < marks.len() && marks@[x],
{
    let mut i: usize = 0;
    while i < marks.len()
        invariant
            i <= marks.len(),
            forall|x: int| 0 <= x < i ==> !marks@[x],
        decreases marks.len() - i,
    {
        if marks[i] {
            return true;
        }
        i += 1;
    }
    false
}

impl SegmentChain {
    /// Marks the heads.
    fn head_marks(&self, parents: &ParentsRange, heads: &Vec<u32>) -> (marks: Vec<bool>)
        requires
            self.wf(),
            forall|i: int| 0 <= i < heads.len() ==> (#[trigger] heads@[i]) < self@.len(),
        ensures
            marks.len() == self@.len(),
            forall|x: int|
                0 <= x < self@.len() ==> marks[x] == #[trigger] reached_at(
                    self@,
                    *parents,
                    as_ints(heads@),
                    x,
                    0,
                ),
    {
        let ghost g = self@;
        let n: u32 = self.num_commits();
        let mut marks: Vec<bool> = cleared_marks(n);
        let mut i: usize = 0;
        while i < heads.len()
            invariant
                n == g.len(),
                marks.len() == n,
                i <= heads.len(),
                forall|j: int| 0 <= j < heads.len() ==> (#[trigger] heads@[j]) < n,
                forall|x: int|
                    0 <= x < n ==> marks@[x] == #[trigger] reached_at(
                        g,
                        *parents,
                        as_ints(heads@.subrange(0, i as int)),
                        x,
                        0,
                    ),
            decreases heads.len() - i,
        {
            let h: u32 = heads[i];
            let ghost before = marks@;
            let ghost seen = as_ints(heads@.subrange(0, i as int));
            let ghost grown = as_ints(heads@.subrange(0, i + 1));
            marks.set(h as usize, true);
            proof {
                assert(grown =~= seen.push(h as int));
                assert forall|x: int| 0 <= x < n implies marks@[x] == #[trigger] reached_at(
                    g,
                    *parents,
                    grown,
                    x,
                    0,
                ) by {
                    assert(before[x] == reached_at(g, *parents, seen, x, 0));
                    if reached_at(g, *parents, seen, x, 0) {
                        let j = choose|j: int|
                            0 <= j < seen.len() && reaches_in(g, *parents, #[trigger] seen[j], x, 0);
                        assert(grown[j] == seen[j]);
                    }
                    if reached_at(g, *parents, grown, x, 0) {
                        let j = choose|j: int|
                            0 <= j < grown.len() && reaches_in(
                                g,
                                *parents,
                                #[trigger] grown[j],
                                x,
                                0,
                            );
                        if j < seen.len() {
                            assert(seen[j] == grown[j]);
                        }
                    }
                    if x == h as int {
                        assert(reaches_in(g, *parents, grown[i as int], x, 0));
                    }
                }
            }
            i += 1;
        }
        assert(heads@.subrange(0, heads.len() as int) =~= heads@);
        marks
    }

    /// Marks the entries that are reached from the heads in a number of
    /// followed steps within the range.
    pub fn marks_within(
        &self,
        heads: &Vec<u32>,
        generation: &GenerationRange,
        parents: &ParentsRange,
    ) -> (marks: Vec<bool>)
        requires
            self.wf(),
            forall|i: int| 0 <= i < heads.len() ==> (#[trigger] heads@[i]) < self@.len(),
        ensures
            marks.len() == self@.len(),
            forall|x: int|
                0 <= x < self@.len() ==> marks[x] == #[trigger] is_within(
                    self@,
                    *parents,
                    as_ints(heads@),
                    *generation,
                    x,
                ),
    {
        self.marks_within_counted(heads, generation, parents).0
    }

    /// As `marks_within`, with the number of generations that were walked.
    /// A generation is walked in one pass over the entries and their
    /// parents, whatever the number of paths that lead to an entry, and no
    /// more generations are walked than the range asks for or the graph
    /// has entries: the work is bounded by the size of the graph times the
    /// end of the range.
    pub fn marks_within_counted(
        &self,
        heads: &Vec<u32>,
        generation: &GenerationRange,
        parents: &ParentsRange,
    ) -> (answer: (Vec<bool>, u64))
        requires
            self.wf(),
            forall|i: int| 0 <= i < heads.len() ==> (#[trigger] heads@[i]) < self@.len(),
        ensures
            answer.0.len() == self@.len(),
            forall|x: int|
                0 <= x < self@.len() ==> answer.0[x] == #[trigger] is_within(
                    self@,
                    *parents,
                    as_ints(heads@),
                    *generation,
                    x,
                ),
            answer.1 <= generation.end,
            answer.1 <= self@.len(),
    {
        let ghost g = self@;
        let ghost hs = as_ints(heads@);
        let n: u32 = self.num_commits();
        let limit: u64 = if generation.end < n as u64 {
            generation.end
        } else {
            n as u64
        };
        let mut reached: Vec<bool> = self.head_marks(parents, heads);
        let mut within: Vec<bool> = cleared_marks(n);
        let mut any: bool = any_marked(&reached);
        let mut d: u64 = 0;
        proof {
            assert forall|x: int| 0 <= x < n implies within@[x] == #[trigger] is_within(
                g,
                *parents,
                hs,
                GenerationRange { start: generation.start, end: 0 },
                x,
            ) by {}
        }
        while d < limit && any
            invariant
                self.wf(),
                g == self@,
                hs == as_ints(heads@),
                n == g.len(),
                limit <= n,
                limit <= generation.end,
                limit == n || limit == generation.end,
                d <= limit,
                reached.len() == n,
                within.len() == n,
                any == exists|x: int| 0 <= x < n && reached@[x],
                forall|x: int|
                    0 <= x < n ==> reached@[x] == #[trigger] reached_at(g, *parents, hs, x, d as int),
                forall|x: int|
                    0 <= x < n ==> within@[x] == #[trigger] is_within(
                        g,
                        *parents,
                        hs,
                        GenerationRange { start: generation.start, end: d },
                        x,
                    ),
            decreases limit - d,
        {
            let ghost within_before = within@;
            let ghost shorter = GenerationRange { start: generation.start, end: d };
            let ghost longer = GenerationRange { start: generation.start, end: (d + 1) as u64 };
            if d >= generation.start {
                let mut x: u32 = 0;
                while x < n
                    invariant
                        n == g.len(),
                        reached.len() == n,
                        within.len() == n,
                        within_before.len() == n,
                        x <= n,
                        forall|y: int|
                            0 <= y < x ==> #[trigger] within@[y] == (within_before[y] || reached@[y]),
                        forall|y: int| x <= y < n ==> #[trigger] within@[y] == within_before[y],
                    decreases n - x,
                {
                    if reached[x as usize] {
                        within.set(x as usize, true);
                    }
                    x += 1;
                }
            }
            proof {
                assert forall|x: int| 0 <= x < n implies within@[x] == #[trigger] is_within(
                    g,
                    *parents,
                    hs,
                    longer,
                    x,
                ) by {
                    assert(within_before[x] == is_within(g, *parents, hs, shorter, x));
                    assert(reached@[x] == reached_at(g, *parents, hs, x, d as int));
                    if is_within(g, *parents, hs, shorter, x) {
                        let e = choose|e: int|
                            shorter.start <= e < shorter.end && #[trigger] reached_at(
                                g,
                                *parents,
                                hs,
                                x,
                                e,
                            );
                        assert(longer.start <= e < longer.end);
                    }
                    if is_within(g, *parents, hs, longer, x) {
                        let e = choose|e: int|
                            longer.start <= e < longer.end && #[trigger] reached_at(
                                g,
                                *parents,
                                hs,
                                x,
                                e,
                            );
                        if e < d {
                            assert(shorter.start <= e < shorter.end);
                        }
                    }
                    if d >= generation.start && reached@[x] {
                        assert(longer.start <= d < longer.end);
                    }
                }
            }
            let next = self.step_marks(parents, &reached);
            proof {
                assert forall|x: int| 0 <= x < n implies next@[x] == #[trigger] reached_at(
                    g,
                    *parents,
                    hs,
                    x,
                    d + 1,
                ) by {
                    lemma_next_generation(g, *parents, hs, reached@, d as int, x);
                }
            }
            reached = next;
            any = any_marked(&reached);
            d += 1;
        }
        proof {
            let shorter = GenerationRange { start: generation.start, end: d };
            assert forall|x: int| 0 <= x < n implies within@[x] == #[trigger] is_within(
                g,
                *parents,
                hs,
                *generation,
                x,
            ) by {
                assert(within@[x] == is_within(g, *parents, hs, shorter, x));
                if is_within(g, *parents, hs, shorter, x) {
                    let e = choose|e: int|
                        shorter.start <= e < shorter.end && #[trigger] reached_at(
                            g,
                            *parents,
                            hs,
                            x,
                            e,
                        );
                    assert(generation.start <= e < generation.end);
                }
                if is_within(g, *parents, hs, *generation, x) {
                    let e = choose|e: int|
                        generation.start <= e < generation.end && #[trigger] reached_at(
                            g,
                            *parents,
                            hs,
                            x,
                            e,
                        );
                    let i = choose|i: int|
                        0 <= i < hs.len() && reaches_in(g, *parents, #[trigger] hs[i], x, e);
                    lemma_reach_distance(g, *parents, hs[i], x, e);
                    if e >= d {
                        if !any {
                            assert forall|y: int| !#[trigger] reached_at(
                                g,
                                *parents,
                                hs,
                                y,
                                d as int,
                            ) by {
                                if reached_at(g, *parents, hs, y, d as int) {
                                    let j = choose|j: int|
                                        0 <= j < hs.len() && reaches_in(
                                            g,
                                            *parents,
                                            #[trigger] hs[j],
                                            y,
                                            d as int,
                                        );
                                    lemma_reach_distance(g, *parents, hs[j], y, d as int);
                                    assert(reached@[y]);
                                }
                            }
                            lemma_empty_generation_stays(g, *parents, hs, d as int, e, x);
                        }
                    } else {
                        assert(shorter.start <= e < shorter.end);
                    }
                }
            }
        }
        (within, d)
    }
}

/// The first of the ids from `from` on that is not indexed, if there is
/// one.
pub open spec fn first_missing_from(g: Seq<EntryView>, ids: Seq<Seq<u8>>, from: int) -> Option<
    Seq<u8>,
>
    decreases ids.len() - from,
{
    if from < 0 || from >= ids.len() {
        None
    } else if !has_commit(g, ids[from]) {
        Some(ids[from])
    } else {
        first_missing_from(g, ids, from + 1)
    }
}

/// The first of the ids that is not indexed, if there is one.
pub open spec fn first_missing(g: Seq<EntryView>, ids: Seq<Seq<u8>>) -> Option<Seq<u8>> {
    first_missing_from(g, ids, 0)
}

/// Why a range cannot be evaluated, if it cannot: it ends before it starts,
/// or one of its roots or heads is not indexed. Roots are looked at before
/// heads.
pub open spec fn range_error(
    g: Seq<EntryView>,
    roots: Seq<Seq<u8>>,
    heads: Seq<Seq<u8>>,
    generation: GenerationRange,
    parents: ParentsRange,
) -> Option<IndexErrorView> {
    if generation.start > generation.end || parents.start > parents.end {
        Some(IndexErrorView::MalformedRange)
    } else {
        match first_missing(g, roots) {
            Some(id) => Some(IndexErrorView::NotFound(id)),
            None => match first_missing(g, heads) {
                Some(id) => Some(IndexErrorView::NotFound(id)),
                None => None,
            },
        }
    }
}

/// The commits of a range, the latest first: those within the generations
/// of the heads that are not in the history of the roots.
pub open spec fn range_commits(
    g: Seq<EntryView>,
    roots: Seq<Seq<u8>>,
    heads: Seq<Seq<u8>>,
    generation: GenerationRange,
    parents: ParentsRange,
) -> Seq<Seq<u8>> {
    marked_ids(
        g,
        range_marks(g, positions_of(g, roots), positions_of(g, heads), generation, parents),
    )
}

/// What the evaluation of a range gives: its commits, or the reason why it
/// cannot be evaluated.
pub open spec fn range_result(
    g: Seq<EntryView>,
    roots: Seq<Seq<u8>>,
    heads: Seq<Seq<u8>>,
    generation: GenerationRange,
    parents: ParentsRange,
) -> Result<Seq<Seq<u8>>, IndexErrorView> {
    match range_error(g, roots, heads, generation, parents) {
        Some(error) => Err(error),
        None => Ok(range_commits(g, roots, heads, generation, parents)),
    }
}

/// What a result of commit ids holds, as plain values.
pub open spec fn ids_result_view(result: Result<Vec<CommitId>, IndexError>) -> Result<
    Seq<Seq<u8>>,
    IndexErrorView,
> {
    match result {
        Ok(ids) => Ok(id_views(ids@)),
        Err(error) => Err(error@),
    }
}

/// What a result of positions says of the ids: their positions where all
/// are indexed, else the first that is not.
pub open spec fn positions_agree(
    g: Seq<EntryView>,
    ids: Seq<Seq<u8>>,
    found: Result<Vec<u32>, IndexError>,
) -> bool {
    match found {
        Ok(positions) => first_missing(g, ids) is None && as_ints(positions@) == positions_of(
            g,
            ids,
        ) && forall|i: int| 0 <= i < positions.len() ==> (#[trigger] positions@[i]) < g.len(),
        Err(error) => first_missing(g, ids) is Some && error@ == IndexErrorView::NotFound(
            first_missing(g, ids)->0,
        ),
    }
}

impl SegmentChain {
    /// The positions of the commits, or the first that is not indexed.
    pub fn positions_of_ids(&self, ids: &Vec<CommitId>) -> (found: Result<Vec<u32>, IndexError>)
        requires
            self.wf(),
        ensures
            positions_agree(self@, id_views(ids@), found),
    {
        let ghost g = self@;
        let ghost all = id_views(ids@);
        let mut positions: Vec<u32> = Vec::new();
        let mut i: usize = 0;
        while i < ids.len()
            invariant
                self.wf(),
                g == self@,
                all == id_views(ids@),
                i <= ids.len(),
                positions.len() == i,
                first_missing(g, all) == first_missing_from(g, all, i as int),
                forall|j: int| 0 <= j < i ==> has_commit(g, #[trigger] all[j]),
                forall|j: int|
                    0 <= j < i ==> #[trigger] positions@[j] as int == position_of(g, all[j]),
                forall|j: int| 0 <= j < i ==> (#[trigger] positions@[j]) < g.len(),
            decreases ids.len() - i,
        {
            assert(all[i as int] == ids@[i as int]@);
            match self.position_of(&ids[i]) {
                Some(pos) => {
                    positions.push(pos);
                },
                None => {
                    return Err(IndexError::NotFound(ids[i].clone()));
                },
            }
            i += 1;
        }
        assert(as_ints(positions@) =~= positions_of(g, all));
        Ok(positions)
    }

    /// Marks the entries of a range between positions: those within the
    /// generations of the heads that are not in the history of the roots.
    pub fn range_marks_for(
        &self,
        roots: &Vec<u32>,
        heads: &Vec<u32>,
        generation: &GenerationRange,
        parents: &ParentsRange,
    ) -> (marks: Vec<bool>)
        requires
            self.wf(),
            forall|i: int| 0 <= i < roots.len() ==> (#[trigger] roots@[i]) < self@.len(),
            forall|i: int| 0 <= i < heads.len() ==> (#[trigger] heads@[i]) < self@.len(),
        ensures
            marks.len() == self@.len(),
            forall|x: int|
                0 <= x < self@.len() ==> marks@[x] == #[trigger] is_in_range(
                    self@,
                    as_ints(roots@),
                    as_ints(heads@),
                    *generation,
                    *parents,
                    x,
                ),
    {
        let ghost g = self@;
        let n: u32 = self.num_commits();
        let everything = GenerationRange { start: 0, end: n as u64 };
        let within = self.marks_within(heads, generation, parents);
        let behind = self.marks_within(roots, &everything, parents);
        let mut marks: Vec<bool> = Vec::new();
        let mut x: u32 = 0;
        while x < n
            invariant
                n == g.len(),
                within.len() == n,
                behind.len() == n,
                x <= n,
                marks.len() == x,
                forall|y: int| 0 <= y < x ==> #[trigger] marks@[y] == (within@[y] && !behind@[y]),
            decreases n - x,
        {
            marks.push(within[x as usize] && !behind[x as usize]);
            x += 1;
        }
        proof {
            let rs = as_ints(roots@);
            let hs = as_ints(heads@);
            assert forall|y: int| 0 <= y < g.len() implies marks@[y] == #[trigger] is_in_range(
                g,
                rs,
                hs,
                *generation,
                *parents,
                y,
            ) by {
                assert(within@[y] == is_within(g, *parents, hs, *generation, y));
                assert(behind@[y] == is_within(g, *parents, rs, everything, y));
                if is_within(g, *parents, rs, everything, y) {
                    let e = choose|e: int|
                        everything.start <= e < everything.end && #[trigger] reached_at(
                            g,
                            *parents,
                            rs,
                            y,
                            e,
                        );
                    assert(is_behind(g, *parents, rs, y));
                }
                if is_behind(g, *parents, rs, y) {
                    let e = choose|e: int| 0 <= e && #[trigger] reached_at(g, *parents, rs, y, e);
                    let i = choose|i: int|
                        0 <= i < rs.len() && reaches_in(g, *parents, #[trigger] rs[i], y, e);
                    lemma_reach_distance(g, *parents, rs[i], y, e);
                    assert(everything.start <= e < everything.end);
                }
            }
        }
        marks
    }

    /// Evaluates a range: the commits that are reached from the heads in a
    /// number of generations within the range, following only the parents
    /// asked for, and that are not reached from the roots. The latest
    /// commit comes first.
    ///
    /// A range that ends before it starts is rejected before anything is
    /// walked. A root or head that is not indexed is an error.
    pub fn evaluate_range(
        &self,
        roots: &Vec<CommitId>,
        heads: &Vec<CommitId>,
        generation: &GenerationRange,
        parents: &ParentsRange,
    ) -> (commits: Result<Vec<CommitId>, IndexError>)
        requires
            self.wf(),
        ensures
            ids_result_view(commits) == range_result(
                self@,
                id_views(roots@),
                id_views(heads@),
                *generation,
                *parents,
            ),
    {
        let ghost g = self@;
        if generation.start > generation.end || parents.start > parents.end {
            return Err(IndexError::MalformedRange);
        }
        let root_positions = match self.positions_of_ids(roots) {
            Ok(positions) => positions,
            Err(error) => {
                return Err(error);
            },
        };
        let head_positions = match self.positions_of_ids(heads) {
            Ok(positions) => positions,
            Err(error) => {
                return Err(error);
            },
        };
        let marks = self.range_marks_for(&root_positions, &head_positions, generation, parents);
        proof {
            let wanted = range_marks(
                g,
                as_ints(root_positions@),
                as_ints(head_positions@),
                *generation,
                *parents,
            );
            lemma_marked_ids_same(g, marks@, wanted, 0);
        }
        Ok(self.ids_of_marked(&marks))
    }
}

impl ReadonlyIndex {
    /// Evaluates a range on the snapshot.
    pub fn evaluate_revset(
        &self,
        roots: &Vec<CommitId>,
        heads: &Vec<CommitId>,
        generation: &GenerationRange,
        parents: &ParentsRange,
    ) -> (commits: Result<Vec<CommitId>, IndexError>)
        requires
            self.wf(),
        ensures
            ids_result_view(commits) == range_result(
                self@,
                id_views(roots@),
                id_views(heads@),
                *generation,
                *parents,
            ),
    {
        self.chain.evaluate_range(roots, heads, generation, parents)
    }
}

impl MutableIndex {
    /// Evaluates a range on the index of the transaction.
    pub fn evaluate_revset(
        &self,
        roots: &Vec<CommitId>,
        heads: &Vec<CommitId>,
        generation: &GenerationRange,
        parents: &ParentsRange,
    ) -> (commits: Result<Vec<CommitId>, IndexError>)
        requires
            self.wf(),
        ensures
            ids_result_view(commits) == range_result(
                self@,
                id_views(roots@),
                id_views(heads@),
                *generation,
                *parents,
            ),
    {
        self.chain.evaluate_range(roots, heads, generation, parents)
    }
}

} // verus!
