//! The sizes of the levels of a chain and how a commit rearranges them.
//!
//! A transaction's new entries form a new level at the end of the chain. The
//! new level is merged with the level below it unless it is less than half as
//! large, and the merged level is held to the same test against the next
//! level down. So each level is more than twice as large as the one after it,
//! the sizes never increase from oldest to newest, and a chain of `n`
//! commits has at most about `log2(n)` levels.

use vstd::prelude::*;

verus! {

/// The level `k` is more than twice as large as the level after it.
pub open spec fn halves_at(sizes: Seq<int>, k: int) -> bool {
    2 * sizes[k + 1] < sizes[k]
}

/// The level `k` is at least as large as the level after it.
pub open spec fn keeps_order_at(sizes: Seq<int>, k: int) -> bool {
    sizes[k] >= sizes[k + 1]
}

/// Every level holds a commit and is more than twice as large as the level
/// after it.
pub open spec fn levels_balanced(sizes: Seq<int>) -> bool {
    &&& forall|k: int| 0 <= k < sizes.len() ==> #[trigger] sizes[k] >= 1
    &&& forall|k: int| 0 <= k < sizes.len() - 1 ==> #[trigger] halves_at(sizes, k)
}

/// The sizes never increase from oldest to newest.
pub open spec fn levels_non_increasing(sizes: Seq<int>) -> bool {
    forall|j: int, k: int| 0 <= j <= k < sizes.len() ==> sizes[j] >= sizes[k]
}

/// The number of commits in all levels together.
pub open spec fn total_size(sizes: Seq<int>) -> int
    decreases sizes.len(),
{
    if sizes.len() == 0 {
        0
    } else {
        total_size(sizes.drop_last()) + sizes.last()
    }
}

/// The level sizes after a new level of `added` commits has been put on top
/// of `sizes` and merged downward as far as the rule asks.
pub open spec fn squashed_levels(sizes: Seq<int>, added: int) -> Seq<int>
    decreases sizes.len(),
{
    if sizes.len() == 0 {
        seq![added]
    } else if 2 * added < sizes.last() {
        sizes.push(added)
    } else {
        squashed_levels(sizes.drop_last(), added + sizes.last())
    }
}

/// The level sizes after a transaction that added `added` commits has been
/// committed: unchanged where it added none.
pub open spec fn committed_levels(sizes: Seq<int>, added: int) -> Seq<int> {
    if added == 0 {
        sizes
    } else {
        squashed_levels(sizes, added)
    }
}

/// The level sizes after `n` transactions of one commit each, started from an
/// index that holds the root alone.
pub open spec fn levels_after_single_commits(n: nat) -> Seq<int>
    decreases n,
{
    if n == 0 {
        seq![1int]
    } else {
        committed_levels(levels_after_single_commits((n - 1) as nat), 1)
    }
}

/// Merging keeps every commit: the total grows by what was added.
pub proof fn lemma_squashed_total(sizes: Seq<int>, added: int)
    ensures
        total_size(squashed_levels(sizes, added)) == total_size(sizes) + added,
    decreases sizes.len(),
{
    if sizes.len() == 0 {
        assert(seq![added].drop_last() =~= Seq::<int>::empty());
        assert(total_size(Seq::<int>::empty()) == 0);
    } else if 2 * added < sizes.last() {
        assert(sizes.push(added).drop_last() =~= sizes);
    } else {
        lemma_squashed_total(sizes.drop_last(), added + sizes.last());
    }
}

/// Merging restores the balance of the levels.
pub proof fn lemma_squashed_balanced(sizes: Seq<int>, added: int)
    requires
        levels_balanced(sizes),
        added >= 1,
    ensures
        levels_balanced(squashed_levels(sizes, added)),
    decreases sizes.len(),
{
    if sizes.len() == 0 {
    } else if 2 * added < sizes.last() {
        let after = sizes.push(added);
        assert forall|k: int| 0 <= k < after.len() - 1 implies #[trigger] halves_at(after, k) by {
            if k < sizes.len() - 1 {
                assert(halves_at(sizes, k));
            }
        }
        assert forall|k: int| 0 <= k < after.len() implies #[trigger] after[k] >= 1 by {
            if k < sizes.len() {
                assert(sizes[k] >= 1);
            }
        }
    } else {
        lemma_balanced_drop_last(sizes);
        assert(sizes.last() >= 1);
        lemma_squashed_balanced(sizes.drop_last(), added + sizes.last());
    }
}

/// Balanced levels never increase in size from oldest to newest.
pub proof fn lemma_balanced_non_increasing(sizes: Seq<int>)
    requires
        levels_balanced(sizes),
    ensures
        levels_non_increasing(sizes),
{
    assert forall|j: int, k: int| 0 <= j <= k < sizes.len() implies sizes[j] >= sizes[k] by {
        lemma_balanced_step(sizes, j, k);
    }
}

/// In balanced levels a later level is not larger than an earlier one.
pub proof fn lemma_balanced_step(sizes: Seq<int>, j: int, k: int)
    requires
        levels_balanced(sizes),
        0 <= j <= k < sizes.len(),
    ensures
        sizes[j] >= sizes[k],
    decreases k - j,
{
    if j < k {
        lemma_balanced_step(sizes, j, k - 1);
        assert(halves_at(sizes, k - 1));
        assert(sizes[k] >= 1);
    }
}

/// After `n` transactions of one commit each on an index that held the root
/// alone, the levels hold `n + 1` commits in all, whatever their layout, and
/// their sizes never increase from oldest to newest.
pub proof fn law_single_commit_transactions(n: nat)
    ensures
        total_size(levels_after_single_commits(n)) == n + 1,
        levels_balanced(levels_after_single_commits(n)),
        levels_non_increasing(levels_after_single_commits(n)),
    decreases n,
{
    if n == 0 {
        assert(seq![1int].drop_last() =~= Seq::<int>::empty());
        assert(total_size(Seq::<int>::empty()) == 0);
    } else {
        let before = levels_after_single_commits((n - 1) as nat);
        law_single_commit_transactions((n - 1) as nat);
        lemma_squashed_total(before, 1);
        lemma_squashed_balanced(before, 1);
    }
    lemma_balanced_non_increasing(levels_after_single_commits(n));
}

/// Dropping the last level of balanced levels leaves balanced levels.
pub proof fn lemma_balanced_drop_last(sizes: Seq<int>)
    requires
        levels_balanced(sizes),
        sizes.len() >= 1,
    ensures
        levels_balanced(sizes.drop_last()),
{
    let rest = sizes.drop_last();
    assert forall|j: int| 0 <= j < rest.len() - 1 implies #[trigger] halves_at(rest, j) by {
        assert(halves_at(sizes, j));
    }
    assert forall|j: int| 0 <= j < rest.len() implies #[trigger] rest[j] >= 1 by {
        assert(sizes[j] >= 1);
    }
}

/// Every level holds a commit, the sizes never increase from oldest to
/// newest, and every level but the last two is more than twice as large as
/// the one after it: only the two newest levels may be of a size.
pub open spec fn levels_skew_balanced(sizes: Seq<int>) -> bool {
    &&& forall|k: int| 0 <= k < sizes.len() ==> #[trigger] sizes[k] >= 1
    &&& forall|k: int| 0 <= k < sizes.len() - 1 ==> #[trigger] keeps_order_at(sizes, k)
    &&& forall|k: int| 0 <= k < sizes.len() - 2 ==> #[trigger] halves_at(sizes, k)
}

/// The level sizes after a new level of `added` commits has been put on top
/// of `sizes` in the way of a skew counter: the new level stays where it is
/// no larger than the newest level and that level is less than half of the
/// one before it; else it is merged with the newest level, and the merged
/// level is held to the same test.
pub open spec fn skew_levels(sizes: Seq<int>, added: int) -> Seq<int>
    decreases sizes.len(),
{
    if sizes.len() == 0 {
        seq![added]
    } else if sizes.last() >= added && (sizes.len() < 2 || sizes[sizes.len() - 2] > 2
        * sizes.last()) {
        sizes.push(added)
    } else {
        skew_levels(sizes.drop_last(), added + sizes.last())
    }
}

/// The level sizes after a transaction that added `added` commits to a
/// skew-balanced index has been committed: unchanged where it added none.
pub open spec fn skew_committed_levels(sizes: Seq<int>, added: int) -> Seq<int> {
    if added == 0 {
        sizes
    } else {
        skew_levels(sizes, added)
    }
}

/// Skew merging keeps every commit: the total grows by what was added.
pub proof fn lemma_skew_total(sizes: Seq<int>, added: int)
    ensures
        total_size(skew_levels(sizes, added)) == total_size(sizes) + added,
    decreases sizes.len(),
{
    if sizes.len() == 0 {
        assert(seq![added].drop_last() =~= Seq::<int>::empty());
        assert(total_size(Seq::<int>::empty()) == 0);
    } else if sizes.last() >= added && (sizes.len() < 2 || sizes[sizes.len() - 2] > 2
        * sizes.last()) {
        assert(sizes.push(added).drop_last() =~= sizes);
    } else {
        lemma_skew_total(sizes.drop_last(), added + sizes.last());
    }
}

/// Dropping the last level of skew-balanced levels leaves skew-balanced
/// levels.
pub proof fn lemma_skew_drop_last(sizes: Seq<int>)
    requires
        levels_skew_balanced(sizes),
        sizes.len() >= 1,
    ensures
        levels_skew_balanced(sizes.drop_last()),
{
    let rest = sizes.drop_last();
    assert forall|k: int| 0 <= k < rest.len() implies #[trigger] rest[k] >= 1 by {
        assert(sizes[k] >= 1);
    }
    assert forall|k: int| 0 <= k < rest.len() - 1 implies #[trigger] keeps_order_at(rest, k) by {
        assert(keeps_order_at(sizes, k));
    }
    assert forall|k: int| 0 <= k < rest.len() - 2 implies #[trigger] halves_at(rest, k) by {
        assert(halves_at(sizes, k));
    }
}

/// Skew merging restores the balance of the levels.
pub proof fn lemma_skew_balanced(sizes: Seq<int>, added: int)
    requires
        levels_skew_balanced(sizes),
        added >= 1,
    ensures
        levels_skew_balanced(skew_levels(sizes, added)),
    decreases sizes.len(),
{
    if sizes.len() == 0 {
    } else if sizes.last() >= added && (sizes.len() < 2 || sizes[sizes.len() - 2] > 2
        * sizes.last()) {
        let after = sizes.push(added);
        assert forall|k: int| 0 <= k < after.len() - 1 implies #[trigger] keeps_order_at(
            after,
            k,
        ) by {
            if k < sizes.len() - 1 {
                assert(keeps_order_at(sizes, k));
            }
        }
        assert forall|k: int| 0 <= k < after.len() - 2 implies #[trigger] halves_at(after, k) by {
            if k < sizes.len() - 2 {
                assert(halves_at(sizes, k));
            }
        }
        assert forall|k: int| 0 <= k < after.len() implies #[trigger] after[k] >= 1 by {
            if k < sizes.len() {
                assert(sizes[k] >= 1);
            }
        }
    } else {
        lemma_skew_drop_last(sizes);
        assert(sizes.last() >= 1);
        lemma_skew_balanced(sizes.drop_last(), added + sizes.last());
    }
}

/// Skew-balanced levels never increase in size from oldest to newest.
pub proof fn lemma_skew_non_increasing(sizes: Seq<int>, j: int, k: int)
    requires
        levels_skew_balanced(sizes),
        0 <= j <= k < sizes.len(),
    ensures
        sizes[j] >= sizes[k],
    decreases k - j,
{
    if j < k {
        lemma_skew_non_increasing(sizes, j, k - 1);
        assert(keeps_order_at(sizes, k - 1));
    }
}

/// Two to the power of `n`.
pub open spec fn two_to(n: nat) -> nat
    decreases n,
{
    if n == 0 {
        1
    } else {
        2 * two_to((n - 1) as nat)
    }
}

/// In balanced levels the level `k` holds at least two to the power of the
/// number of levels after it.
pub proof fn lemma_balanced_level_size(sizes: Seq<int>, k: int)
    requires
        levels_balanced(sizes),
        0 <= k < sizes.len(),
    ensures
        sizes[k] >= two_to((sizes.len() - 1 - k) as nat),
    decreases sizes.len() - k,
{
    if k < sizes.len() - 1 {
        lemma_balanced_level_size(sizes, k + 1);
        assert(halves_at(sizes, k));
    } else {
        assert(sizes[k] >= 1);
    }
}

/// The total of the sizes is at least each size.
pub proof fn lemma_total_at_least(sizes: Seq<int>, k: int)
    requires
        forall|j: int| 0 <= j < sizes.len() ==> #[trigger] sizes[j] >= 0,
        0 <= k < sizes.len(),
    ensures
        total_size(sizes) >= sizes[k],
        total_size(sizes) >= 0,
    decreases sizes.len(),
{
    let rest = sizes.drop_last();
    assert forall|j: int| 0 <= j < rest.len() implies #[trigger] rest[j] >= 0 by {
        assert(sizes[j] >= 0);
    }
    assert(sizes[sizes.len() - 1] >= 0);
    if rest.len() > 0 {
        lemma_total_at_least(rest, 0);
    } else {
        assert(total_size(rest) == 0);
    }
    if k < sizes.len() - 1 {
        lemma_total_at_least(rest, k);
        assert(rest[k] == sizes[k]);
    } else {
        assert(sizes.last() == sizes[k]);
    }
}

/// Balanced levels are few: an index of `n` commits in `m` levels holds at
/// least two to the power of `m - 1` commits, so the number of levels
/// grows with the logarithm of the number of commits.
pub proof fn law_balanced_levels_are_few(sizes: Seq<int>)
    requires
        levels_balanced(sizes),
        sizes.len() >= 1,
    ensures
        total_size(sizes) >= two_to((sizes.len() - 1) as nat),
{
    lemma_balanced_level_size(sizes, 0);
    assert forall|j: int| 0 <= j < sizes.len() implies #[trigger] sizes[j] >= 0 by {
        assert(sizes[j] >= 1);
    }
    lemma_total_at_least(sizes, 0);
}

/// Committing a transaction keeps every commit and leaves the levels
/// balanced, so that their sizes never increase from oldest to newest.
pub proof fn law_commit_keeps_levels_in_order(sizes: Seq<int>, added: int)
    requires
        levels_balanced(sizes),
        added >= 0,
    ensures
        total_size(committed_levels(sizes, added)) == total_size(sizes) + added,
        levels_balanced(committed_levels(sizes, added)),
        levels_non_increasing(committed_levels(sizes, added)),
{
    if added > 0 {
        lemma_squashed_total(sizes, added);
        lemma_squashed_balanced(sizes, added);
    }
    lemma_balanced_non_increasing(committed_levels(sizes, added));
}

/// Committing a transaction of the changed-path index keeps every commit
/// and leaves the levels in the balance of a skew counter, so that their
/// sizes never increase from oldest to newest.
pub proof fn law_skew_commit_keeps_levels_in_order(sizes: Seq<int>, added: int)
    requires
        levels_skew_balanced(sizes),
        added >= 0,
    ensures
        total_size(skew_committed_levels(sizes, added)) == total_size(sizes) + added,
        levels_skew_balanced(skew_committed_levels(sizes, added)),
        levels_non_increasing(skew_committed_levels(sizes, added)),
{
    if added > 0 {
        lemma_skew_total(sizes, added);
        lemma_skew_balanced(sizes, added);
    }
    let after = skew_committed_levels(sizes, added);
    assert forall|j: int, k: int| 0 <= j <= k < after.len() implies after[j] >= after[k] by {
        lemma_skew_non_increasing(after, j, k);
    }
}

} // verus!
