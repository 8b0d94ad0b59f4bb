//! Rebuilding an index from the operations and the commits themselves.
//!
//! When the files of the index are missing or corrupt, the index of an
//! operation is built anew: from the index of the latest of its ancestors
//! that still loads, or from the root alone, by adding the commits that
//! each ancestor operation refers to, with everything in their history.
//! Commits that a later operation has hidden are added like the others. A
//! commit that the object store lacks ends the rebuilding with an error that
//! names the operation that refers to it.

use vstd::prelude::*;
use crate::ids::{ChangeId, CommitId};
use crate::index::error::{IndexError, IndexErrorView};
use crate::index::graph::{agree_below, all_indexed, has_commit, with_commit, EntryView};
use crate::index::levels::committed_levels;
use crate::index::mutable::{id_views, root_entry, MutableIndex, ReadonlyIndex};
use crate::index::store::{loaded_index, store_head, SegmentStore};

verus! {

/// A commit as the object store holds it.
#[derive(Debug)]
pub struct StoredCommit {
    pub id: CommitId,
    pub change_id: ChangeId,
    pub parent_ids: Vec<CommitId>,
}

/// The commits of the object store.
#[derive(Debug)]
pub struct ObjectStore {
    pub commits: Vec<StoredCommit>,
}

/// An operation, as far as the index looks at it.
#[derive(Debug)]
pub struct Operation {
    pub id: Vec<u8>,
    /// The commits that the operation refers to: its visible heads and
    /// what its bookmarks point to.
    pub heads: Vec<CommitId>,
}

/// The first commit of the store, from `from` on, that carries the id.
pub open spec fn object_from(objects: Seq<StoredCommit>, id: Seq<u8>, from: int) -> Option<
    StoredCommit,
>
    decreases objects.len() - from,
{
    if from < 0 || from >= objects.len() {
        None
    } else if objects[from].id@ == id {
        Some(objects[from])
    } else {
        object_from(objects, id, from + 1)
    }
}

/// The commit of the store that carries the id, if there is one.
pub open spec fn object_of(objects: Seq<StoredCommit>, id: Seq<u8>) -> Option<StoredCommit> {
    object_from(objects, id, 0)
}

/// The graph after the commit and everything in its history has been
/// added, parents before children and in the order of the parents, or the
/// id of the commit that could not be added: one that the store lacks, one
/// without a parent, or one for which the index has no room. No more than
/// `depth` commits are followed from child to parent.
pub open spec fn graph_with(
    g: Seq<EntryView>,
    objects: Seq<StoredCommit>,
    id: Seq<u8>,
    depth: nat,
) -> Result<Seq<EntryView>, Seq<u8>>
    decreases depth, 0nat, 0nat,
{
    if has_commit(g, id) {
        Ok(g)
    } else if depth == 0 {
        Err(id)
    } else {
        match object_of(objects, id) {
            None => Err(id),
            Some(commit) => match graph_with_first(
                g,
                objects,
                id_views(commit.parent_ids@),
                (depth - 1) as nat,
                commit.parent_ids.len() as nat,
            ) {
                Err(missing) => Err(missing),
                Ok(with_parents) => if commit.parent_ids.len() >= 1 && all_indexed(
                    with_parents,
                    id_views(commit.parent_ids@),
                ) && with_parents.len() < u32::MAX {
                    Ok(with_commit(with_parents, id, commit.change_id@, id_views(commit.parent_ids@)))
                } else {
                    Err(id)
                },
            },
        }
    }
}

/// The graph after the first `upto` of the commits have been added, each
/// with everything in its history, or the id of the first commit that
/// could not be added.
pub open spec fn graph_with_first(
    g: Seq<EntryView>,
    objects: Seq<StoredCommit>,
    ids: Seq<Seq<u8>>,
    depth: nat,
    upto: nat,
) -> Result<Seq<EntryView>, Seq<u8>>
    decreases depth, 1nat, upto,
{
    if upto == 0 {
        Ok(g)
    } else {
        match graph_with_first(g, objects, ids, depth, (upto - 1) as nat) {
            Err(missing) => Err(missing),
            Ok(before) => graph_with(before, objects, ids[upto - 1], depth),
        }
    }
}

/// The commit that the store gives for an id carries the id.
pub proof fn lemma_object_has_id(objects: Seq<StoredCommit>, id: Seq<u8>, from: int)
    requires
        object_from(objects, id, from) is Some,
    ensures
        object_from(objects, id, from)->0.id@ == id,
    decreases objects.len() - from,
{
    if 0 <= from < objects.len() && objects[from].id@ != id {
        lemma_object_has_id(objects, id, from + 1);
    }
}

impl ObjectStore {
    /// The commit that carries the id, if the store holds one.
    pub fn get(&self, id: &CommitId) -> (found: Option<&StoredCommit>)
        ensures
            match found {
                Some(commit) => object_of(self.commits@, id@) == Some(*commit),
                None => object_of(self.commits@, id@) is None,
            },
    {
        let mut i: usize = 0;
        while i < self.commits.len()
            invariant
                i <= self.commits.len(),
                object_of(self.commits@, id@) == object_from(self.commits@, id@, i as int),
            decreases self.commits.len() - i,
        {
            if self.commits[i].id.same_as(id) {
                return Some(&self.commits[i]);
            }
            i += 1;
        }
        None
    }
}

/// A graph that starts with a graph that starts with a third starts with
/// the third.
pub proof fn lemma_agree_below_transitive(a: Seq<EntryView>, b: Seq<EntryView>, c: Seq<EntryView>)
    requires
        agree_below(a, b, a.len() as int),
        agree_below(b, c, b.len() as int),
    ensures
        agree_below(a, c, a.len() as int),
{
    assert forall|i: int| 0 <= i < a.len() implies #[trigger] a[i] == #[trigger] c[i] by {
        assert(a[i] == b[i]);
        assert(b[i] == c[i]);
    }
}

/// What adding commits gave: nothing to report, or the commit that could
/// not be added.
pub open spec fn added_view(result: Result<(), CommitId>) -> Option<Seq<u8>> {
    match result {
        Ok(_) => None,
        Err(id) => Some(id@),
    }
}

/// What is missing from a graph result, if anything.
pub open spec fn missing_of(result: Result<Seq<EntryView>, Seq<u8>>) -> Option<Seq<u8>> {
    match result {
        Ok(_) => None,
        Err(id) => Some(id),
    }
}

/// Adds a commit and everything in its history to the index of a
/// transaction, parents before children. Where a commit cannot be added,
/// what was added before it stays.
pub fn index_commit(tx: &mut MutableIndex, objects: &ObjectStore, id: &CommitId, depth: usize) -> (added:
    Result<(), CommitId>)
    requires
        old(tx).wf(),
    ensures
        final(tx).wf(),
        final(tx).base_levels() == old(tx).base_levels(),
        final(tx).changed_path_start() == old(tx).changed_path_start(),
        agree_below(old(tx)@, final(tx)@, old(tx)@.len() as int),
        added_view(added) == missing_of(graph_with(old(tx)@, objects.commits@, id@, depth as nat)),
        added is Ok ==> graph_with(old(tx)@, objects.commits@, id@, depth as nat) == Ok::<
            Seq<EntryView>,
            Seq<u8>,
        >(final(tx)@),
    decreases depth, 0nat, 0nat,
{
    if tx.has_id(id) {
        return Ok(());
    }
    if depth == 0 {
        return Err(id.clone());
    }
    let commit = match objects.get(id) {
        Some(commit) => commit,
        None => {
            return Err(id.clone());
        },
    };
    proof {
        lemma_object_has_id(objects.commits@, id@, 0);
    }
    match index_commits(tx, objects, &commit.parent_ids, depth - 1, commit.parent_ids.len()) {
        Err(missing) => Err(missing),
        Ok(_) => {
            if tx.can_add_commit(&commit.parent_ids) {
                let ghost with_parents = tx@;
                tx.add_commit(commit.id.clone(), commit.change_id.clone(), &commit.parent_ids);
                proof {
                    lemma_agree_below_transitive(old(tx)@, with_parents, tx@);
                }
                Ok(())
            } else {
                Err(id.clone())
            }
        },
    }
}

/// Adds the first `upto` of the commits, each with everything in its
/// history, to the index of a transaction.
pub fn index_commits(
    tx: &mut MutableIndex,
    objects: &ObjectStore,
    ids: &Vec<CommitId>,
    depth: usize,
    upto: usize,
) -> (added: Result<(), CommitId>)
    requires
        old(tx).wf(),
        upto <= ids.len(),
    ensures
        final(tx).wf(),
        final(tx).base_levels() == old(tx).base_levels(),
        final(tx).changed_path_start() == old(tx).changed_path_start(),
        agree_below(old(tx)@, final(tx)@, old(tx)@.len() as int),
        added_view(added) == missing_of(
            graph_with_first(old(tx)@, objects.commits@, id_views(ids@), depth as nat, upto as nat),
        ),
        added is Ok ==> graph_with_first(
            old(tx)@,
            objects.commits@,
            id_views(ids@),
            depth as nat,
            upto as nat,
        ) == Ok::<Seq<EntryView>, Seq<u8>>(final(tx)@),
    decreases depth, 1nat, upto,
{
    if upto == 0 {
        return Ok(());
    }
    match index_commits(tx, objects, ids, depth, upto - 1) {
        Err(missing) => Err(missing),
        Ok(_) => {
            assert(id_views(ids@)[upto - 1] == ids@[upto - 1]@);
            let ghost before = tx@;
            let added = index_commit(tx, objects, &ids[upto - 1], depth);
            proof {
                lemma_agree_below_transitive(old(tx)@, before, tx@);
            }
            added
        },
    }
}

/// The graph of the index to start from: that of the latest of the first
/// `upto` operations whose index loads, or the root alone where none does.
pub open spec fn base_graph(
    store: SegmentStore,
    operations: Seq<Operation>,
    root: EntryView,
    upto: int,
) -> Seq<EntryView>
    decreases upto,
{
    if upto <= 0 {
        seq![root]
    } else {
        match store_head(store, operations[upto - 1].id@) {
            Some(head) => match loaded_index(
                store.files@,
                store.commit_id_len as int,
                store.change_id_len as int,
                head as int,
            ) {
                Ok(loaded) => loaded.0,
                Err(_) => base_graph(store, operations, root, upto - 1),
            },
            None => base_graph(store, operations, root, upto - 1),
        }
    }
}

/// Why an index could not be rebuilt: the operation, and the commit it
/// refers to that could not be added.
pub struct RebuildFailure {
    pub op_id: Seq<u8>,
    pub missing: Seq<u8>,
}

/// The graph after the commits of the first `upto` operations have been
/// added, operation by operation, or the first failure.
pub open spec fn rebuilt_graph(
    g: Seq<EntryView>,
    objects: Seq<StoredCommit>,
    operations: Seq<Operation>,
    upto: int,
) -> Result<Seq<EntryView>, RebuildFailure>
    decreases upto,
{
    if upto <= 0 {
        Ok(g)
    } else {
        match rebuilt_graph(g, objects, operations, upto - 1) {
            Err(failure) => Err(failure),
            Ok(before) => {
                let op = operations[upto - 1];
                match graph_with_first(
                    before,
                    objects,
                    id_views(op.heads@),
                    objects.len(),
                    op.heads.len() as nat,
                ) {
                    Ok(after) => Ok(after),
                    Err(missing) => Err(RebuildFailure { op_id: op.id@, missing }),
                }
            },
        }
    }
}

/// Once the rebuilding has failed, the failure stays whatever follows.
pub proof fn lemma_rebuild_failure_stays(
    g: Seq<EntryView>,
    objects: Seq<StoredCommit>,
    operations: Seq<Operation>,
    at: int,
    upto: int,
)
    requires
        0 <= at <= upto,
        rebuilt_graph(g, objects, operations, at) is Err,
    ensures
        rebuilt_graph(g, objects, operations, upto) == rebuilt_graph(g, objects, operations, at),
    decreases upto - at,
{
    if at < upto {
        lemma_rebuild_failure_stays(g, objects, operations, at, upto - 1);
    }
}

/// A copy of a run of bytes.
fn copy_id(bytes: &Vec<u8>) -> (copy: Vec<u8>)
    ensures
        copy@ == bytes@,
{
    crate::ids::bytes_copy(bytes)
}

/// Finds the index to start from: that of the latest operation whose index
/// loads, or the root alone.
pub fn find_base_index(
    store: &SegmentStore,
    operations: &Vec<Operation>,
    root_commit_id: &CommitId,
    root_change_id: &ChangeId,
) -> (base: ReadonlyIndex)
    ensures
        base.wf(),
        base@ == base_graph(
            *store,
            operations@,
            root_entry(root_commit_id@, root_change_id@),
            operations.len() as int,
        ),
{
    let ghost root = root_entry(root_commit_id@, root_change_id@);
    let mut k: usize = operations.len();
    while k > 0
        invariant
            k <= operations.len(),
            root == root_entry(root_commit_id@, root_change_id@),
            base_graph(*store, operations@, root, operations.len() as int) == base_graph(
                *store,
                operations@,
                root,
                k as int,
            ),
        decreases k,
    {
        match store.head_of(&operations[k - 1].id) {
            Some(head) => {
                match store.load(head) {
                    Ok(index) => {
                        assert(base_graph(*store, operations@, root, k as int) == index@);
                        return index;
                    },
                    Err(_) => {
                        assert(base_graph(*store, operations@, root, k as int) == base_graph(
                            *store,
                            operations@,
                            root,
                            k - 1,
                        ));
                    },
                }
            },
            None => {
                assert(base_graph(*store, operations@, root, k as int) == base_graph(
                    *store,
                    operations@,
                    root,
                    k - 1,
                ));
            },
        }
        k -= 1;
    }
    ReadonlyIndex::new(root_commit_id.clone(), root_change_id.clone())
}

/// Builds the index of an operation anew.
///
/// `operations` are the operation and its ancestors, oldest first. The
/// index starts from that of the latest of them whose index loads, or from
/// the root alone, and gets the commits that each operation refers to, with
/// everything in their history. A commit that cannot be added ends the
/// rebuilding with an error that names the operation that refers to it.
pub fn build_index_at_operation(
    store: &SegmentStore,
    operations: &Vec<Operation>,
    objects: &ObjectStore,
    root_commit_id: &CommitId,
    root_change_id: &ChangeId,
) -> (index: Result<ReadonlyIndex, IndexError>)
    ensures
        match index {
            Ok(i) => i.wf() && rebuilt_graph(
                base_graph(
                    *store,
                    operations@,
                    root_entry(root_commit_id@, root_change_id@),
                    operations.len() as int,
                ),
                objects.commits@,
                operations@,
                operations.len() as int,
            ) == Ok::<Seq<EntryView>, RebuildFailure>(i@),
            Err(error) => match rebuilt_graph(
                base_graph(
                    *store,
                    operations@,
                    root_entry(root_commit_id@, root_change_id@),
                    operations.len() as int,
                ),
                objects.commits@,
                operations@,
                operations.len() as int,
            ) {
                Ok(_) => false,
                Err(failure) => error@ == (IndexErrorView::IndexCommits {
                    op_id: failure.op_id,
                    missing: failure.missing,
                }),
            },
        },
{
    let base = find_base_index(store, operations, root_commit_id, root_change_id);
    let ghost g0 = base@;
    let mut tx = base.start_transaction();
    let depth: usize = objects.commits.len();
    let mut k: usize = 0;
    while k < operations.len()
        invariant
            tx.wf(),
            depth == objects.commits.len(),
            k <= operations.len(),
            g0 == base_graph(
                *store,
                operations@,
                root_entry(root_commit_id@, root_change_id@),
                operations.len() as int,
            ),
            rebuilt_graph(g0, objects.commits@, operations@, k as int) == Ok::<
                Seq<EntryView>,
                RebuildFailure,
            >(tx@),
        decreases operations.len() - k,
    {
        let op = &operations[k];
        match index_commits(&mut tx, objects, &op.heads, depth, op.heads.len()) {
            Ok(_) => {},
            Err(missing) => {
                proof {
                    assert(rebuilt_graph(g0, objects.commits@, operations@, k + 1) == Err::<
                        Seq<EntryView>,
                        RebuildFailure,
                    >(RebuildFailure { op_id: op.id@, missing: missing@ }));
                    lemma_rebuild_failure_stays(
                        g0,
                        objects.commits@,
                        operations@,
                        k + 1,
                        operations.len() as int,
                    );
                }
                return Err(IndexError::IndexCommits { op_id: copy_id(&op.id), missing });
            },
        }
        k += 1;
    }
    Ok(tx.commit())
}

} // verus!
