//! Walking the commits of a range one by one.
//!
//! A walk hands out the commits of a range from the latest to the oldest,
//! one with each call. It holds no more than the marks of the range and
//! the place it has come to, so a caller that has seen enough simply stops
//! calling, and one that wants the commits again starts the walk anew.

use vstd::prelude::*;
use crate::ids::CommitId;
use crate::index::chain::SegmentChain;
use crate::index::error::{IndexError, IndexErrorView};
use crate::index::graph::EntryView;
use crate::index::mutable::{id_views, ReadonlyIndex};
use crate::index::reach::{lemma_marked_ids_same, marked_ids, marked_ids_from};
use crate::index::revset::{as_ints, range_marks, range_result, GenerationRange, ParentsRange};

verus! {

/// The commit ids of the marked entries below `upto`, the latest entry
/// first.
pub open spec fn marked_below(g: Seq<EntryView>, marks: Seq<bool>, upto: int) -> Seq<Seq<u8>>
    decreases upto,
{
    if upto <= 0 {
        Seq::empty()
    } else if marks[upto - 1] {
        seq![g[upto - 1].commit_id] + marked_below(g, marks, upto - 1)
    } else {
        marked_below(g, marks, upto - 1)
    }
}

/// The marked entries are those at or after a position followed by those
/// below it.
pub proof fn lemma_marked_split(g: Seq<EntryView>, marks: Seq<bool>, at: int)
    requires
        0 <= at <= g.len(),
    ensures
        marked_ids(g, marks) == marked_ids_from(g, marks, at) + marked_below(g, marks, at),
    decreases at,
{
    if at == 0 {
        assert(marked_ids_from(g, marks, 0) + Seq::<Seq<u8>>::empty() =~= marked_ids_from(
            g,
            marks,
            0,
        ));
    } else {
        lemma_marked_split(g, marks, at - 1);
        let later = marked_ids_from(g, marks, at);
        let below = marked_below(g, marks, at - 1);
        if marks[at - 1] {
            assert(later.push(g[at - 1].commit_id) + below =~= later + (seq![g[at - 1].commit_id]
                + below));
        }
    }
}

/// A walk over the marked commits of a chain, from the latest to the
/// oldest.
pub struct RevWalk<'a> {
    pub chain: &'a SegmentChain,
    /// For each position, whether the walk hands its commit out.
    pub marks: Vec<bool>,
    /// The walk has dealt with the positions from here on.
    pub below: u32,
}

impl<'a> RevWalk<'a> {
    /// The chain is well formed, every position has its mark, and the
    /// place of the walk is within the chain.
    pub open spec fn wf(&self) -> bool {
        &&& self.chain.wf()
        &&& self.marks.len() == self.chain@.len()
        &&& self.below <= self.chain@.len()
    }

    /// Everything that the walk hands out from its start, the latest
    /// commit first.
    pub open spec fn all(&self) -> Seq<Seq<u8>> {
        marked_ids(self.chain@, self.marks@)
    }

    /// What the walk has still to hand out, the latest commit first.
    pub open spec fn remaining(&self) -> Seq<Seq<u8>> {
        marked_below(self.chain@, self.marks@, self.below as int)
    }

    /// A walk over the marked commits, at its start.
    pub fn new(chain: &'a SegmentChain, marks: Vec<bool>) -> (walk: RevWalk<'a>)
        requires
            chain.wf(),
            marks.len() == chain@.len(),
        ensures
            walk.wf(),
            walk.chain == chain,
            walk.marks == marks,
            walk.remaining() == walk.all(),
    {
        let below: u32 = chain.num_commits();
        proof {
            lemma_marked_split(chain@, marks@, below as int);
            assert(Seq::<Seq<u8>>::empty() + marked_below(chain@, marks@, below as int)
                =~= marked_below(chain@, marks@, below as int));
        }
        RevWalk { chain, marks, below }
    }

    /// Hands out the next commit of the walk, or nothing where the walk
    /// has come to its end.
    pub fn next(&mut self) -> (commit: Option<CommitId>)
        requires
            old(self).wf(),
        ensures
            final(self).wf(),
            final(self).chain == old(self).chain,
            final(self).marks == old(self).marks,
            commit is Some <==> old(self).remaining().len() > 0,
            commit is Some ==> commit->0@ == old(self).remaining()[0] && final(self).remaining()
                == old(self).remaining().subrange(1, old(self).remaining().len() as int),
            commit is None ==> final(self).remaining().len() == 0,
    {
        while self.below > 0
            invariant
                self.wf(),
                self.chain == old(self).chain,
                self.marks == old(self).marks,
                self.remaining() == old(self).remaining(),
            decreases self.below,
        {
            self.below = self.below - 1;
            if self.marks[self.below as usize] {
                let id = self.chain.entry(self.below).commit_id.clone();
                assert(old(self).remaining().subrange(1, old(self).remaining().len() as int)
                    =~= self.remaining());
                return Some(id);
            }
        }
        None
    }

    /// Starts the walk anew.
    pub fn restart(&mut self)
        requires
            old(self).wf(),
        ensures
            final(self).wf(),
            final(self).chain == old(self).chain,
            final(self).marks == old(self).marks,
            final(self).remaining() == old(self).all(),
    {
        self.below = self.chain.num_commits();
        proof {
            lemma_marked_split(self.chain@, self.marks@, self.below as int);
            assert(Seq::<Seq<u8>>::empty() + marked_below(
                self.chain@,
                self.marks@,
                self.below as int,
            ) =~= marked_below(self.chain@, self.marks@, self.below as int));
        }
    }
}

/// What a walk hands out, or the error in its place, as plain values.
pub open spec fn walk_result_view(walk: Result<RevWalk<'_>, IndexError>) -> Result<
    Seq<Seq<u8>>,
    IndexErrorView,
> {
    match walk {
        Ok(w) => Ok(w.remaining()),
        Err(error) => Err(error@),
    }
}

impl SegmentChain {
    /// Starts a walk over a range: the commits that are reached from the
    /// heads in a number of generations within the range, following only
    /// the parents asked for, and that are not reached from the roots.
    ///
    /// A range that ends before it starts is rejected before anything is
    /// walked. A root or head that is not indexed is an error.
    pub fn walk_range<'a>(
        &'a self,
        roots: &Vec<CommitId>,
        heads: &Vec<CommitId>,
        generation: &GenerationRange,
        parents: &ParentsRange,
    ) -> (walk: Result<RevWalk<'a>, IndexError>)
        requires
            self.wf(),
        ensures
            walk_result_view(walk) == range_result(
                self@,
                id_views(roots@),
                id_views(heads@),
                *generation,
                *parents,
            ),
            walk is Ok ==> walk->Ok_0.wf() && walk->Ok_0.chain == self,
    {
        let ghost g = self@;
        if generation.start > generation.end || parents.start > parents.end {
            return Err(IndexError::MalformedRange);
        }
        let root_positions = match self.positions_of_ids(roots) {
            Ok(positions) => positions,
            Err(error) => {
                return Err(error);
            },
        };
        let head_positions = match self.positions_of_ids(heads) {
            Ok(positions) => positions,
            Err(error) => {
                return Err(error);
            },
        };
        let marks = self.range_marks_for(&root_positions, &head_positions, generation, parents);
        proof {
            let wanted = range_marks(
                g,
                as_ints(root_positions@),
                as_ints(head_positions@),
                *generation,
                *parents,
            );
            lemma_marked_ids_same(g, marks@, wanted, 0);
        }
        Ok(RevWalk::new(self, marks))
    }
}

impl ReadonlyIndex {
    /// Starts a walk over a range on the snapshot.
    pub fn walk_revset<'a>(
        &'a self,
        roots: &Vec<CommitId>,
        heads: &Vec<CommitId>,
        generation: &GenerationRange,
        parents: &ParentsRange,
    ) -> (walk: Result<RevWalk<'a>, IndexError>)
        requires
            self.wf(),
        ensures
            walk_result_view(walk) == range_result(
                self@,
                id_views(roots@),
                id_views(heads@),
                *generation,
                *parents,
            ),
            walk is Ok ==> walk->Ok_0.wf(),
    {
        self.chain.walk_range(roots, heads, generation, parents)
    }
}

} // verus!
