use commit_index::ids::{ChangeId, CommitId};
use commit_index::index::ancestry::cleared_marks;
use commit_index::index::chain::SegmentChain;
use commit_index::index::error::IndexError;
use commit_index::index::mutable::ReadonlyIndex;
use commit_index::index::recovery::{find_base_index, Operation};
use commit_index::index::revset::{GenerationRange, ParentsRange};
use commit_index::index::revwalk::RevWalk;
use commit_index::index::store::SegmentStore;

fn commit(n: u8) -> CommitId {
    CommitId::new(vec![n, 0, 0, 0])
}

fn change(n: u8) -> ChangeId {
    ChangeId::new(vec![n, 0xff, 0, 0, 0, 0, 0, 0])
}

/// The graph
///
/// ```text
///   5
///   |\
///   3 4
///   | |
///   1 2
///   |/
///   0
/// ```
///
/// in two segments, the commits at the positions of their numbers.
fn two_branches() -> ReadonlyIndex {
    let index = ReadonlyIndex::new(commit(0), change(0));
    let mut tx = index.start_transaction();
    tx.add_commit(commit(1), change(1), &vec![commit(0)]);
    tx.add_commit(commit(2), change(2), &vec![commit(0)]);
    let index = tx.commit();
    let mut tx = index.start_transaction();
    tx.add_commit(commit(3), change(3), &vec![commit(1)]);
    tx.add_commit(commit(4), change(4), &vec![commit(2)]);
    tx.add_commit(commit(5), change(5), &vec![commit(3), commit(4)]);
    tx.commit()
}

#[test]
fn test_root_is_an_ancestor_of_every_commit() {
    let index = two_branches();
    for n in 0..6u8 {
        assert!(index.is_ancestor(&commit(0), &commit(n)));
        assert!(index.is_ancestor(&commit(n), &commit(n)));
    }
    for n in 1..6u8 {
        assert!(!index.is_ancestor(&commit(n), &commit(0)));
    }
}

#[test]
fn test_generation_is_one_more_than_the_highest_parent() {
    let index = two_branches();
    let expected: [u32; 6] = [0, 1, 1, 2, 2, 3];
    for n in 0..6u8 {
        assert_eq!(index.generation_number(&commit(n)), Some(expected[n as usize]));
    }
    let mut tx = index.start_transaction();
    tx.add_commit(commit(6), change(6), &vec![commit(1), commit(5)]);
    assert_eq!(tx.generation_number(&commit(6)), Some(4));
    tx.add_commit(commit(7), change(7), &vec![commit(6), commit(0)]);
    assert_eq!(tx.generation_number(&commit(7)), Some(5));
}

#[test]
fn test_is_ancestor_by_position() {
    let index = two_branches();
    let chain = &index.chain;
    assert!(chain.is_ancestor_pos(1, 3));
    assert!(chain.is_ancestor_pos(1, 5));
    assert!(chain.is_ancestor_pos(2, 5));
    assert!(chain.is_ancestor_pos(4, 4));
    assert!(!chain.is_ancestor_pos(1, 4));
    assert!(!chain.is_ancestor_pos(2, 3));
    assert!(!chain.is_ancestor_pos(3, 4));
    assert!(!chain.is_ancestor_pos(5, 3));
}

#[test]
fn test_is_ancestor_of_commits_that_are_not_indexed() {
    let index = two_branches();
    assert!(index.is_ancestor(&commit(9), &commit(9)));
    assert!(!index.is_ancestor(&commit(9), &commit(5)));
    assert!(!index.is_ancestor(&commit(0), &commit(9)));
}

#[test]
fn test_ancestors_mask_marks_heads_and_their_history() {
    let index = two_branches();
    let chain = &index.chain;
    assert_eq!(chain.ancestors_mask(&vec![]), vec![false; 6]);
    assert_eq!(chain.ancestors_mask(&vec![0]), vec![true, false, false, false, false, false]);
    assert_eq!(chain.ancestors_mask(&vec![3]), vec![true, true, false, true, false, false]);
    assert_eq!(chain.ancestors_mask(&vec![4, 1]), vec![true, true, true, false, true, false]);
    assert_eq!(chain.ancestors_mask(&vec![5]), vec![true; 6]);
    assert_eq!(chain.ancestors_mask(&vec![3, 3]), vec![true, true, false, true, false, false]);
}

#[test]
fn test_descendants_mask_marks_roots_and_what_builds_on_them() {
    let index = two_branches();
    let chain = &index.chain;
    assert_eq!(chain.descendants_mask(&vec![]), vec![false; 6]);
    assert_eq!(chain.descendants_mask(&vec![0]), vec![true; 6]);
    assert_eq!(chain.descendants_mask(&vec![1]), vec![false, true, false, true, false, true]);
    assert_eq!(chain.descendants_mask(&vec![4]), vec![false, false, false, false, true, true]);
    assert_eq!(chain.descendants_mask(&vec![3, 2]), vec![false, false, true, true, true, true]);
    assert_eq!(chain.descendants_mask(&vec![5]), vec![false, false, false, false, false, true]);
    // A position that the index does not hold marks nothing.
    assert_eq!(chain.descendants_mask(&vec![17]), vec![false; 6]);
}

#[test]
fn test_ids_of_marked_come_latest_first() {
    let index = two_branches();
    let chain = &index.chain;
    let marks = vec![true, false, true, false, false, true];
    assert_eq!(chain.ids_of_marked(&marks), vec![commit(5), commit(2), commit(0)]);
    assert_eq!(chain.ids_of_marked(&vec![false; 6]), Vec::<CommitId>::new());
    assert_eq!(
        chain.ids_of_marked(&vec![true; 6]),
        vec![commit(5), commit(4), commit(3), commit(2), commit(1), commit(0)]
    );
}

#[test]
fn test_lists_position_and_cleared_marks() {
    assert!(SegmentChain::lists_position(&vec![4, 2, 9], 9));
    assert!(SegmentChain::lists_position(&vec![4, 2, 9], 4));
    assert!(!SegmentChain::lists_position(&vec![4, 2, 9], 3));
    assert!(!SegmentChain::lists_position(&vec![], 0));
    assert_eq!(cleared_marks(0), Vec::<bool>::new());
    assert_eq!(cleared_marks(3), vec![false, false, false]);
}

#[test]
fn test_find_base_index_takes_the_latest_index_that_loads() {
    let mut store = SegmentStore::new(4, 8);
    let operations = vec![
        Operation { id: vec![1], heads: vec![commit(0)] },
        Operation { id: vec![2], heads: vec![commit(2)] },
        Operation { id: vec![3], heads: vec![commit(5)] },
    ];
    // Nothing is stored: the root alone.
    let base = find_base_index(&store, &operations, &commit(0), &change(0));
    assert_eq!(base.num_commits(), 1);
    assert!(base.has_id(&commit(0)));

    // The second operation has an index: that one, whatever the third refers to.
    let index = ReadonlyIndex::new(commit(0), change(0));
    let mut tx = index.start_transaction();
    tx.add_commit(commit(1), change(1), &vec![commit(0)]);
    tx.add_commit(commit(2), change(2), &vec![commit(0)]);
    let second = tx.commit();
    let head = store.save(&second).unwrap();
    store.link_operation(vec![2], head);
    let base = find_base_index(&store, &operations, &commit(0), &change(0));
    assert_eq!(base.num_commits(), 3);
    assert!(base.has_id(&commit(2)));
    assert!(!base.has_id(&commit(5)));

    // The third has one too: the later one wins.
    let third = two_branches();
    let head = store.save(&third).unwrap();
    store.link_operation(vec![3], head);
    let base = find_base_index(&store, &operations, &commit(0), &change(0));
    assert_eq!(base.num_commits(), 6);

    // Its file is lost: back to the second.
    store.delete_segment(head);
    let base = find_base_index(&store, &operations, &commit(0), &change(0));
    assert_eq!(base.num_commits(), 3);
    assert!(base.is_ancestor(&commit(0), &commit(2)));
}

fn pull_all(walk: &mut RevWalk<'_>) -> Vec<CommitId> {
    let mut commits = vec![];
    while let Some(commit) = walk.next() {
        commits.push(commit);
    }
    commits
}

#[test]
fn test_walk_hands_out_the_range_from_the_latest_commit_on() {
    let index = two_branches();
    let everything = GenerationRange::full();
    let all_parents = ParentsRange::full();
    let mut walk = index.walk_revset(&vec![], &vec![commit(5)], &everything, &all_parents).unwrap();
    assert_eq!(walk.next(), Some(commit(5)));
    assert_eq!(walk.next(), Some(commit(4)));
    // Whoever has seen enough stops asking; the walk can be started anew.
    walk.restart();
    assert_eq!(
        pull_all(&mut walk),
        vec![commit(5), commit(4), commit(3), commit(2), commit(1), commit(0)]
    );
    // At its end the walk stays at its end.
    assert_eq!(walk.next(), None);
    assert_eq!(walk.next(), None);
    walk.restart();
    assert_eq!(walk.next(), Some(commit(5)));

    // The walk hands out what the evaluation lists.
    let ranges = [
        (vec![commit(1)], vec![commit(5)], GenerationRange::full()),
        (vec![], vec![commit(3), commit(4)], GenerationRange { start: 1, end: 2 }),
        (vec![commit(5)], vec![commit(5)], GenerationRange::full()),
        (vec![commit(2)], vec![commit(3)], GenerationRange { start: 0, end: 0 }),
    ];
    for (roots, heads, generation) in ranges {
        let listed = index.evaluate_revset(&roots, &heads, &generation, &all_parents).unwrap();
        let mut walk = index.walk_revset(&roots, &heads, &generation, &all_parents).unwrap();
        assert_eq!(pull_all(&mut walk), listed);
    }
    let mut walk = index
        .walk_revset(&vec![commit(1)], &vec![commit(5)], &everything, &all_parents)
        .unwrap();
    assert_eq!(pull_all(&mut walk), vec![commit(5), commit(4), commit(3), commit(2)]);
}

#[test]
fn test_walk_is_refused_where_the_evaluation_is() {
    let index = two_branches();
    let backwards = GenerationRange { start: 3, end: 2 };
    assert!(matches!(
        index.walk_revset(&vec![commit(9)], &vec![commit(5)], &backwards, &ParentsRange::full()),
        Err(IndexError::MalformedRange)
    ));
    assert!(matches!(
        index.walk_revset(&vec![], &vec![commit(5)], &GenerationRange::full(), &ParentsRange { start: 2, end: 1 }),
        Err(IndexError::MalformedRange)
    ));
    assert!(matches!(
        index.walk_revset(&vec![commit(9)], &vec![commit(8)], &GenerationRange::full(), &ParentsRange::full()),
        Err(IndexError::NotFound(id)) if id == commit(9)
    ));
    assert!(matches!(
        index.walk_revset(&vec![commit(1)], &vec![commit(8)], &GenerationRange::full(), &ParentsRange::full()),
        Err(IndexError::NotFound(id)) if id == commit(8)
    ));
}

/// Two chains that merge with each other at every generation: the commits
/// at `2k - 1` and `2k` both have the two commits of the generation before
/// as their parents, so the number of paths to the root doubles with every
/// generation.
fn criss_cross(depth: u32) -> ReadonlyIndex {
    let id = |n: u32| CommitId::new(n.to_be_bytes().to_vec());
    let change = |n: u32| ChangeId::new(n.to_le_bytes().to_vec());
    let index = ReadonlyIndex::new(id(0), change(0));
    let mut tx = index.start_transaction();
    for generation in 1..=depth {
        let parents = if generation == 1 {
            vec![id(0)]
        } else {
            vec![id(2 * generation - 3), id(2 * generation - 2)]
        };
        tx.add_commit(id(2 * generation - 1), change(2 * generation - 1), &parents);
        tx.add_commit(id(2 * generation), change(2 * generation), &parents);
    }
    tx.commit()
}

#[test]
fn test_ancestry_walk_takes_up_no_entry_more_often_than_edges_lead_to_it() {
    let depth: u32 = 50;
    let index = criss_cross(depth);
    assert_eq!(index.num_commits(), 1 + 2 * depth);
    let edges: u64 = 2 + 4 * (depth as u64 - 1);
    let top = 2 * depth;
    // The root is found although two to the power of fifty paths lead to it.
    let (found, steps) = index.chain.is_ancestor_pos_counted(0, top);
    assert!(found);
    assert!(steps <= 1 + edges);
    // The sibling at the top is no ancestor: the whole history is walked
    // to learn that, and no more than that.
    let (found, steps) = index.chain.is_ancestor_pos_counted(top - 1, top);
    assert!(!found);
    assert!(steps <= 1 + edges);
    for a in 0..=top {
        for d in [top - 1, top] {
            let (found, steps) = index.chain.is_ancestor_pos_counted(a, d);
            assert_eq!(found, a == d || a + 1 < d || (a < d && d % 2 == 1));
            assert!(steps <= 1 + edges);
        }
    }
    assert_eq!(index.chain.is_ancestor_pos_counted(7, 3), (false, 0));
    assert_eq!(index.chain.is_ancestor_pos_counted(7, 7), (true, 0));
}

#[test]
fn test_index_check_finds_what_is_not_well_formed() {
    assert!(two_branches().check());
    assert!(criss_cross(5).check());
    assert!(ReadonlyIndex::new(commit(0), change(0)).check());

    // An offset that does not count the entries before the segment.
    let mut index = two_branches();
    let last = index.chain.segments.len() - 1;
    index.chain.segments[last].num_parent_commits += 2;
    assert!(!index.check());
    // A generation number that does not follow from the parents.
    let mut index = two_branches();
    index.chain.segments[0].entries.last_mut().unwrap().generation_number = 7;
    assert!(!index.check());
    // A parent that does not stand before its child.
    let mut index = two_branches();
    index.chain.segments[0].entries[0].parent_positions = vec![0];
    assert!(!index.check());
    // A commit id twice.
    let mut index = two_branches();
    index.chain.segments[0].entries.last_mut().unwrap().commit_id = commit(0);
    assert!(!index.check());
    // No segment at all.
    let mut index = two_branches();
    index.chain.segments.clear();
    assert!(!index.check());
    // Changed paths that end before the last commit.
    let index = two_branches().enable_changed_path_index();
    assert!(index.check());
    let mut index = index;
    index.changed_paths.as_mut().unwrap().start = 3;
    assert!(!index.check());
}

#[test]
fn test_counted_queries_on_a_criss_cross_graph() {
    let depth: u32 = 50;
    let index = criss_cross(depth);
    let id = |n: u32| CommitId::new(n.to_be_bytes().to_vec());
    let edges: u64 = 4 * depth as u64 - 2;
    let top = 2 * depth;

    let (found, steps) = index.chain.is_ancestor_counted(&id(0), &id(top));
    assert!(found);
    assert!(steps <= 1 + edges);
    // An id that is not indexed costs no walk.
    assert_eq!(index.chain.is_ancestor_counted(&id(999), &id(top)), (false, 0));
    assert_eq!(index.chain.is_ancestor_counted(&id(999), &id(999)), (true, 0));

    // A generation is walked once, however many paths lead into it.
    let everything = GenerationRange::full();
    let (marks, rounds) =
        index.chain.marks_within_counted(&vec![top], &everything, &ParentsRange::full());
    assert_eq!(marks, vec![true; 1 + 2 * depth as usize].into_iter().enumerate().map(|(p, _)| p as u32 != top - 1).collect::<Vec<bool>>());
    assert!(rounds <= 1 + 2 * depth as u64);
    let near = GenerationRange { start: 1, end: 3 };
    let (marks, rounds) = index.chain.marks_within_counted(&vec![top], &near, &ParentsRange::full());
    assert_eq!(marks.iter().filter(|m| **m).count(), 4);
    assert!(rounds <= 3);
}
