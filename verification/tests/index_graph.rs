use commit_index::ids::{ChangeId, CommitId};
use commit_index::index::change_id::{HexPrefix, PrefixResolution};
use commit_index::index::error::IndexError;
use commit_index::index::mutable::{MutableIndex, ReadonlyIndex};
use commit_index::index::revset::{GenerationRange, ParentsRange};

/// A repository for tests: an index and a counter that names new commits.
struct TestRepo {
    index: ReadonlyIndex,
    next: u32,
}

fn root_commit_id() -> CommitId {
    CommitId::new(vec![0; 4])
}

fn root_change_id() -> ChangeId {
    ChangeId::new(vec![0; 20])
}

impl TestRepo {
    fn init() -> TestRepo {
        TestRepo { index: ReadonlyIndex::new(root_commit_id(), root_change_id()), next: 1 }
    }

    fn fresh_ids(&mut self) -> (CommitId, ChangeId) {
        let n = self.next;
        self.next += 1;
        let mut change = vec![0xc0u8; 16];
        change.extend_from_slice(&n.to_be_bytes());
        (CommitId::new(n.to_be_bytes().to_vec()), ChangeId::new(change))
    }
}

fn write_commit_with_parents(
    repo: &mut TestRepo,
    tx: &mut MutableIndex,
    parents: &[&CommitId],
) -> CommitId {
    let (commit_id, change_id) = repo.fresh_ids();
    let parent_ids: Vec<CommitId> = if parents.is_empty() {
        vec![root_commit_id()]
    } else {
        parents.iter().map(|p| (*p).clone()).collect()
    };
    assert!(tx.can_add_commit(&parent_ids));
    tx.add_commit(commit_id.clone(), change_id, &parent_ids);
    commit_id
}

fn write_commit(repo: &mut TestRepo, tx: &mut MutableIndex) -> CommitId {
    write_commit_with_parents(repo, tx, &[])
}

fn create_n_commits(repo: &mut TestRepo, num_commits: i32) {
    let mut tx = repo.index.start_transaction();
    for _ in 0..num_commits {
        write_commit(repo, &mut tx);
    }
    repo.index = tx.commit();
}

fn commits_by_level(repo: &TestRepo) -> Vec<u32> {
    repo.index.stats().commit_levels.iter().map(|level| level.num_commits).collect()
}

#[test]
fn test_index_commits_empty_repo() {
    let repo = TestRepo::init();
    let index = &repo.index;
    // There should be just the root commit
    assert_eq!(index.num_commits(), 1);

    // Check the generation number of the root
    assert_eq!(index.generation_number(&root_commit_id()).unwrap(), 0);
}

#[test]
fn test_index_commits_standard_cases() {
    let mut repo = TestRepo::init();

    //   o H
    // o | G
    // o | F
    // |\|
    // | o E
    // | o D
    // | o C
    // o | B
    // |/
    // o A
    // o root

    let root_commit_id = root_commit_id();
    let mut tx = repo.index.start_transaction();
    let commit_a = write_commit(&mut repo, &mut tx);
    let commit_b = write_commit_with_parents(&mut repo, &mut tx, &[&commit_a]);
    let commit_c = write_commit_with_parents(&mut repo, &mut tx, &[&commit_a]);
    let commit_d = write_commit_with_parents(&mut repo, &mut tx, &[&commit_c]);
    let commit_e = write_commit_with_parents(&mut repo, &mut tx, &[&commit_d]);
    let commit_f = write_commit_with_parents(&mut repo, &mut tx, &[&commit_b, &commit_e]);
    let commit_g = write_commit_with_parents(&mut repo, &mut tx, &[&commit_f]);
    let commit_h = write_commit_with_parents(&mut repo, &mut tx, &[&commit_e]);
    let index = tx.commit();

    // There should be the root commit, plus 8 more
    assert_eq!(index.num_commits(), 1 + 8);

    let stats = index.stats();
    assert_eq!(stats.num_commits, 1 + 8);
    assert_eq!(stats.num_merges, 1);
    assert_eq!(stats.max_generation_number, 6);

    assert_eq!(index.generation_number(&root_commit_id).unwrap(), 0);
    assert_eq!(index.generation_number(&commit_a).unwrap(), 1);
    assert_eq!(index.generation_number(&commit_b).unwrap(), 2);
    assert_eq!(index.generation_number(&commit_c).unwrap(), 2);
    assert_eq!(index.generation_number(&commit_d).unwrap(), 3);
    assert_eq!(index.generation_number(&commit_e).unwrap(), 4);
    assert_eq!(index.generation_number(&commit_f).unwrap(), 5);
    assert_eq!(index.generation_number(&commit_g).unwrap(), 6);
    assert_eq!(index.generation_number(&commit_h).unwrap(), 5);

    assert!(index.is_ancestor(&root_commit_id, &commit_a));
    assert!(!index.is_ancestor(&commit_a, &root_commit_id));

    assert!(index.is_ancestor(&root_commit_id, &commit_b));
    assert!(!index.is_ancestor(&commit_b, &root_commit_id));

    assert!(!index.is_ancestor(&commit_b, &commit_c));

    assert!(index.is_ancestor(&commit_a, &commit_b));
    assert!(index.is_ancestor(&commit_a, &commit_e));
    assert!(index.is_ancestor(&commit_a, &commit_f));
    assert!(index.is_ancestor(&commit_a, &commit_g));
    assert!(index.is_ancestor(&commit_a, &commit_h));
}

#[test]
fn test_index_commits_incremental() {
    let mut repo = TestRepo::init();

    // Create A in one operation, then B and C in another. Check that the index is
    // valid after.
    let mut tx = repo.index.start_transaction();
    let commit_a = write_commit_with_parents(&mut repo, &mut tx, &[]);
    repo.index = tx.commit();

    // There should be the root commit, plus 1 more
    assert_eq!(repo.index.num_commits(), 1 + 1);

    let mut tx = repo.index.start_transaction();
    let commit_b = write_commit_with_parents(&mut repo, &mut tx, &[&commit_a]);
    let commit_c = write_commit_with_parents(&mut repo, &mut tx, &[&commit_b]);
    repo.index = tx.commit();

    let index = &repo.index;
    // There should be the root commit, plus 3 more
    assert_eq!(index.num_commits(), 1 + 3);

    let stats = index.stats();
    assert_eq!(stats.num_commits, 1 + 3);
    assert_eq!(stats.num_merges, 0);
    assert_eq!(stats.max_generation_number, 3);
    assert_eq!(stats.commit_levels.len(), 1);
    assert_eq!(stats.commit_levels[0].num_commits, 4);

    assert_eq!(index.generation_number(&root_commit_id()).unwrap(), 0);
    assert_eq!(index.generation_number(&commit_a).unwrap(), 1);
    assert_eq!(index.generation_number(&commit_b).unwrap(), 2);
    assert_eq!(index.generation_number(&commit_c).unwrap(), 3);
}

#[test]
fn test_index_commits_incremental_empty_transaction() {
    let mut repo = TestRepo::init();

    // Create A in one operation, then just an empty transaction. Check that the
    // index is valid after.
    let root = root_commit_id();
    let mut tx = repo.index.start_transaction();
    let commit_a = write_commit_with_parents(&mut repo, &mut tx, &[&root]);
    repo.index = tx.commit();

    // There should be the root commit, plus 1 more
    assert_eq!(repo.index.num_commits(), 1 + 1);

    repo.index = repo.index.start_transaction().commit();

    let index = &repo.index;
    // There should be the root commit, plus 1 more
    assert_eq!(index.num_commits(), 1 + 1);

    let stats = index.stats();
    assert_eq!(stats.num_commits, 1 + 1);
    assert_eq!(stats.num_merges, 0);
    assert_eq!(stats.max_generation_number, 1);
    assert_eq!(stats.commit_levels.len(), 1);
    assert_eq!(stats.commit_levels[0].num_commits, 2);

    assert_eq!(index.generation_number(&root).unwrap(), 0);
    assert_eq!(index.generation_number(&commit_a).unwrap(), 1);
}

#[test]
fn test_index_commits_incremental_already_indexed() {
    // Tests that trying to add a commit that's already been added is a no-op.
    let mut repo = TestRepo::init();

    let root = root_commit_id();
    let mut tx = repo.index.start_transaction();
    let commit_a = write_commit_with_parents(&mut repo, &mut tx, &[&root]);
    repo.index = tx.commit();

    assert!(repo.index.has_id(&commit_a));
    assert_eq!(repo.index.num_commits(), 1 + 1);
    let mut tx = repo.index.start_transaction();
    tx.add_commit(commit_a.clone(), ChangeId::new(vec![9; 20]), &vec![root]);
    assert_eq!(tx.num_commits(), 1 + 1);
}

#[test]
fn test_index_commits_incremental_squashed() {
    let mut repo = TestRepo::init();
    create_n_commits(&mut repo, 1);
    assert_eq!(commits_by_level(&repo), vec![2]);
    create_n_commits(&mut repo, 1);
    assert_eq!(commits_by_level(&repo), vec![3]);

    let mut repo = TestRepo::init();
    create_n_commits(&mut repo, 2);
    assert_eq!(commits_by_level(&repo), vec![3]);

    let mut repo = TestRepo::init();
    create_n_commits(&mut repo, 100);
    assert_eq!(commits_by_level(&repo), vec![101]);

    let mut repo = TestRepo::init();
    create_n_commits(&mut repo, 1);
    create_n_commits(&mut repo, 2);
    create_n_commits(&mut repo, 4);
    create_n_commits(&mut repo, 8);
    create_n_commits(&mut repo, 16);
    create_n_commits(&mut repo, 32);
    assert_eq!(commits_by_level(&repo), vec![64]);

    let mut repo = TestRepo::init();
    create_n_commits(&mut repo, 32);
    create_n_commits(&mut repo, 16);
    create_n_commits(&mut repo, 8);
    create_n_commits(&mut repo, 4);
    create_n_commits(&mut repo, 2);
    assert_eq!(commits_by_level(&repo), vec![57, 6]);

    let mut repo = TestRepo::init();
    create_n_commits(&mut repo, 30);
    create_n_commits(&mut repo, 15);
    create_n_commits(&mut repo, 7);
    create_n_commits(&mut repo, 3);
    create_n_commits(&mut repo, 1);
    assert_eq!(commits_by_level(&repo), vec![31, 15, 7, 3, 1]);

    let mut repo = TestRepo::init();
    create_n_commits(&mut repo, 10);
    create_n_commits(&mut repo, 10);
    create_n_commits(&mut repo, 10);
    create_n_commits(&mut repo, 10);
    create_n_commits(&mut repo, 10);
    create_n_commits(&mut repo, 10);
    create_n_commits(&mut repo, 10);
    create_n_commits(&mut repo, 10);
    create_n_commits(&mut repo, 10);
    assert_eq!(commits_by_level(&repo), vec![71, 20]);
}

fn change_id_from_hex(hex: &str) -> ChangeId {
    let nibbles = HexPrefix::try_from_hex(hex).unwrap().nibbles;
    ChangeId::new(nibbles.chunks(2).map(|pair| pair[0] * 16 + pair[1]).collect())
}

fn sorted(mut ids: Vec<CommitId>) -> Vec<Vec<u8>> {
    let mut bytes: Vec<Vec<u8>> = ids.drain(..).map(|id| id.bytes).collect();
    bytes.sort();
    bytes
}

fn single(ids: &[&CommitId]) -> Option<Vec<Vec<u8>>> {
    Some(sorted(ids.iter().map(|id| (*id).clone()).collect()))
}

#[test]
fn test_change_id_index() {
    let mut repo = TestRepo::init();
    let root = root_commit_id();
    let mut tx = repo.index.start_transaction();

    let mut commit_with_change_id = |change_id: &str| {
        let (commit_id, _) = repo.fresh_ids();
        tx.add_commit(commit_id.clone(), change_id_from_hex(change_id), &vec![root_commit_id()]);
        commit_id
    };
    let commit_1 = commit_with_change_id("abbbbbbbbbbbbbbbbbbbbbbbbbbbbbbbbbbbbbbb");
    let commit_2 = commit_with_change_id("aaaaabbbbbbbbbbbbbbbbbbbbbbbbbbbbbbbbbbb");
    let commit_3 = commit_with_change_id("aaaaaaaaaaaaaaaaaaaaaaaaaaaaaaaaaaaaaaaa");
    let commit_4 = commit_with_change_id("bbbbbbbbbbbbbbbbbbbbbbbbbbbbbbbbbbbbbbbb");
    let commit_5 = commit_with_change_id("bbbbbbbbbbbbbbbbbbbbbbbbbbbbbbbbbbbbbbbb");

    let heads: Vec<CommitId> = [&commit_1, &commit_2, &commit_3, &commit_4, &commit_5]
        .iter()
        .map(|id| (*id).clone())
        .collect();
    let change_id_index = tx.change_id_index(&heads);
    let change_ids = [
        (&root, "0000000000000000000000000000000000000000"),
        (&commit_1, "abbbbbbbbbbbbbbbbbbbbbbbbbbbbbbbbbbbbbbb"),
        (&commit_2, "aaaaabbbbbbbbbbbbbbbbbbbbbbbbbbbbbbbbbbb"),
        (&commit_3, "aaaaaaaaaaaaaaaaaaaaaaaaaaaaaaaaaaaaaaaa"),
        (&commit_4, "bbbbbbbbbbbbbbbbbbbbbbbbbbbbbbbbbbbbbbbb"),
        (&commit_5, "bbbbbbbbbbbbbbbbbbbbbbbbbbbbbbbbbbbbbbbb"),
    ];
    let prefix_len = |commit: &CommitId| {
        let (_, hex) = change_ids.iter().find(|(id, _)| *id == commit).unwrap();
        change_id_index.shortest_unique_prefix_len(&change_id_from_hex(hex))
    };
    assert_eq!(prefix_len(&root), 1);
    assert_eq!(prefix_len(&commit_1), 2);
    assert_eq!(prefix_len(&commit_2), 6);
    assert_eq!(prefix_len(&commit_3), 6);
    assert_eq!(prefix_len(&commit_4), 1);
    assert_eq!(prefix_len(&commit_5), 1);
    let resolve_prefix = |prefix: &str| {
        match change_id_index.resolve_prefix(&HexPrefix::try_from_hex(prefix).unwrap()) {
            PrefixResolution::NoMatch => (0, None),
            PrefixResolution::SingleMatch(ids) => (1, Some(sorted(ids))),
            PrefixResolution::AmbiguousMatch => (2, None),
        }
    };
    // Ambiguous matches
    assert_eq!(resolve_prefix("a"), (2, None));
    assert_eq!(resolve_prefix("aaaaa"), (2, None));
    // Exactly the necessary length
    assert_eq!(resolve_prefix("0"), (1, single(&[&root])));
    assert_eq!(resolve_prefix("aaaaaa"), (1, single(&[&commit_3])));
    assert_eq!(resolve_prefix("aaaaab"), (1, single(&[&commit_2])));
    assert_eq!(resolve_prefix("ab"), (1, single(&[&commit_1])));
    assert_eq!(resolve_prefix("b"), (1, single(&[&commit_4, &commit_5])));
    // Longer than necessary
    assert_eq!(
        resolve_prefix("aaaaaaaaaaaaaaaaaaaaaaaaaaaaaaaaaaaaaaaa"),
        (1, single(&[&commit_3]))
    );
    // No match
    assert_eq!(resolve_prefix("ba"), (0, None));

    // Test with an index containing only some of the commits. The shortest
    // length doesn't have to be minimized further, but unreachable commits
    // should never be included in the resolved set.
    let heads: Vec<CommitId> = vec![commit_1.clone(), commit_2.clone()];
    let change_id_index = tx.change_id_index(&heads);
    let resolve_prefix = |prefix: &str| {
        match change_id_index.resolve_prefix(&HexPrefix::try_from_hex(prefix).unwrap()) {
            PrefixResolution::NoMatch => (0, None),
            PrefixResolution::SingleMatch(ids) => (1, Some(sorted(ids))),
            PrefixResolution::AmbiguousMatch => (2, None),
        }
    };
    assert_eq!(resolve_prefix("0"), (1, single(&[&root])));
    assert_eq!(resolve_prefix("aaaaab"), (1, single(&[&commit_2])));
    assert_eq!(resolve_prefix("aaaaaa"), (0, None));
    assert_eq!(resolve_prefix("a"), (2, None));
    assert_eq!(resolve_prefix("b"), (0, None));
}

#[test]
fn test_index_commits_criss_cross() {
    let mut repo = TestRepo::init();

    let num_generations = 50;

    // Create a long chain of criss-crossed merges. If they were traversed without
    // keeping track of visited nodes, it would be 2^50 visits, so if this test
    // finishes in reasonable time, we know that we don't do a naive traversal.
    let mut tx = repo.index.start_transaction();
    let mut left_commits = vec![write_commit(&mut repo, &mut tx)];
    let mut right_commits = vec![write_commit(&mut repo, &mut tx)];
    for generation in 1..num_generations {
        let new_left = write_commit_with_parents(
            &mut repo,
            &mut tx,
            &[&left_commits[generation - 1], &right_commits[generation - 1]],
        );
        let new_right = write_commit_with_parents(
            &mut repo,
            &mut tx,
            &[&left_commits[generation - 1], &right_commits[generation - 1]],
        );
        left_commits.push(new_left);
        right_commits.push(new_right);
    }
    let index = tx.commit();

    // There should the root commit, plus 2 for each generation
    assert_eq!(index.num_commits(), 1 + 2 * (num_generations as u32));

    let stats = index.stats();
    assert_eq!(stats.num_commits, 1 + 2 * (num_generations as u32));
    // The first generations are not merges
    assert_eq!(stats.num_merges, 2 * (num_generations as u32 - 1));
    assert_eq!(stats.max_generation_number, num_generations as u32);

    // Check generation numbers
    for generation in 0..num_generations {
        assert_eq!(
            index.generation_number(&left_commits[generation]).unwrap(),
            (generation as u32) + 1
        );
        assert_eq!(
            index.generation_number(&right_commits[generation]).unwrap(),
            (generation as u32) + 1
        );
    }

    // The left and right commits of the same generation should not be ancestors of
    // each other
    for generation in 0..num_generations {
        assert!(!index.is_ancestor(&left_commits[generation], &right_commits[generation]));
        assert!(!index.is_ancestor(&right_commits[generation], &left_commits[generation]));
    }

    // Both sides of earlier generations should be ancestors. Check a few different
    // earlier generations.
    for generation in 1..num_generations {
        for ancestor_side in &[&left_commits, &right_commits] {
            for descendant_side in &[&left_commits, &right_commits] {
                assert!(index.is_ancestor(&ancestor_side[0], &descendant_side[generation]));
                assert!(index
                    .is_ancestor(&ancestor_side[generation - 1], &descendant_side[generation]));
                assert!(index
                    .is_ancestor(&ancestor_side[generation / 2], &descendant_side[generation]));
            }
        }
    }

    let count_revs = |wanted: &[CommitId], unwanted: &[CommitId], generation: GenerationRange| {
        let revset = index
            .evaluate_revset(
                &unwanted.to_vec(),
                &wanted.to_vec(),
                &generation,
                &ParentsRange::full(),
            )
            .unwrap();
        revset.iter().count()
    };

    // The walk visits each entry once.
    assert_eq!(
        count_revs(&[left_commits[num_generations - 1].clone()], &[], GenerationRange::full()),
        2 * num_generations
    );
    assert_eq!(
        count_revs(&[right_commits[num_generations - 1].clone()], &[], GenerationRange::full()),
        2 * num_generations
    );
    assert_eq!(
        count_revs(
            &[left_commits[num_generations - 1].clone()],
            &[left_commits[num_generations - 2].clone()],
            GenerationRange::full(),
        ),
        2
    );
    assert_eq!(
        count_revs(
            &[right_commits[num_generations - 1].clone()],
            &[right_commits[num_generations - 2].clone()],
            GenerationRange::full(),
        ),
        2
    );

    // A bounded range of generations visits each entry once for each
    // generation, which may be more expensive, but should still finish in
    // reasonable time.
    let bounded = GenerationRange { start: 0, end: (num_generations + 1) as u64 };
    assert_eq!(
        count_revs(&[left_commits[num_generations - 1].clone()], &[], bounded),
        2 * num_generations
    );
    assert_eq!(
        count_revs(&[right_commits[num_generations - 1].clone()], &[], bounded),
        2 * num_generations
    );
    assert_eq!(
        count_revs(
            &[left_commits[num_generations - 1].clone()],
            &[left_commits[num_generations - 2].clone()],
            bounded,
        ),
        2
    );
    assert_eq!(
        count_revs(
            &[right_commits[num_generations - 1].clone()],
            &[right_commits[num_generations - 2].clone()],
            bounded,
        ),
        2
    );
}

#[test]
fn test_evaluate_revset_generation_and_parents_ranges() {
    let mut repo = TestRepo::init();
    let mut tx = repo.index.start_transaction();
    let a = write_commit(&mut repo, &mut tx);
    let b = write_commit_with_parents(&mut repo, &mut tx, &[&a]);
    let c = write_commit_with_parents(&mut repo, &mut tx, &[&a]);
    let d = write_commit_with_parents(&mut repo, &mut tx, &[&b, &c]);
    let index = tx.commit();
    let heads = vec![d.clone()];
    let none: Vec<CommitId> = vec![];

    // Generation zero is the head itself; the order is the latest first.
    let only_head = index
        .evaluate_revset(
            &none,
            &heads,
            &GenerationRange { start: 0, end: 1 },
            &ParentsRange::full(),
        )
        .unwrap();
    assert_eq!(only_head, vec![d.clone()]);
    let parents = index
        .evaluate_revset(
            &none,
            &heads,
            &GenerationRange { start: 1, end: 2 },
            &ParentsRange::full(),
        )
        .unwrap();
    assert_eq!(parents, vec![c.clone(), b.clone()]);
    // Commit A is two steps away on both paths and comes once.
    let grandparents = index
        .evaluate_revset(
            &none,
            &heads,
            &GenerationRange { start: 2, end: 3 },
            &ParentsRange::full(),
        )
        .unwrap();
    assert_eq!(grandparents, vec![a.clone()]);
    // First parents only: D, B, A, root.
    let first_parents = index
        .evaluate_revset(
            &none,
            &heads,
            &GenerationRange::full(),
            &ParentsRange { start: 0, end: 1 },
        )
        .unwrap();
    assert_eq!(first_parents, vec![d.clone(), b.clone(), a.clone(), root_commit_id()]);
    // Roots take their history away.
    let since_b = index
        .evaluate_revset(&vec![b.clone()], &heads, &GenerationRange::full(), &ParentsRange::full())
        .unwrap();
    assert_eq!(since_b, vec![d.clone(), c.clone()]);
    // An empty range of generations is well formed and holds nothing.
    let nothing = index
        .evaluate_revset(
            &none,
            &heads,
            &GenerationRange { start: 3, end: 3 },
            &ParentsRange::full(),
        )
        .unwrap();
    assert!(nothing.is_empty());
}

#[test]
fn test_evaluate_revset_rejects_malformed_ranges_and_missing_ids() {
    let repo = TestRepo::init();
    let index = &repo.index;
    let root = vec![root_commit_id()];
    let missing = CommitId::new(vec![9, 9, 9, 9]);
    assert!(matches!(
        index.evaluate_revset(
            &vec![],
            &root,
            &GenerationRange { start: 2, end: 1 },
            &ParentsRange::full()
        ),
        Err(IndexError::MalformedRange)
    ));
    assert!(matches!(
        index.evaluate_revset(
            &vec![],
            &root,
            &GenerationRange::full(),
            &ParentsRange { start: 1, end: 0 }
        ),
        Err(IndexError::MalformedRange)
    ));
    // A malformed range is rejected before ids are looked up.
    assert!(matches!(
        index.evaluate_revset(
            &vec![missing.clone()],
            &root,
            &GenerationRange { start: 2, end: 1 },
            &ParentsRange::full()
        ),
        Err(IndexError::MalformedRange)
    ));
    match index.evaluate_revset(
        &vec![],
        &vec![missing.clone()],
        &GenerationRange::full(),
        &ParentsRange::full(),
    ) {
        Err(IndexError::NotFound(id)) => assert_eq!(id, missing),
        other => panic!("unexpected {other:?}"),
    }
    match index.evaluate_revset(
        &vec![missing.clone()],
        &root,
        &GenerationRange::full(),
        &ParentsRange::full(),
    ) {
        Err(IndexError::NotFound(id)) => assert_eq!(id, missing),
        other => panic!("unexpected {other:?}"),
    }
}

#[test]
fn test_generation_number_and_has_id_of_unknown_commit() {
    let repo = TestRepo::init();
    let unknown = CommitId::new(vec![7, 7, 7, 7]);
    assert!(!repo.index.has_id(&unknown));
    assert_eq!(repo.index.generation_number(&unknown), None);
    // A commit is its own ancestor; an unknown commit has no other.
    assert!(repo.index.is_ancestor(&unknown, &unknown));
    assert!(!repo.index.is_ancestor(&root_commit_id(), &unknown));
    assert!(!repo.index.is_ancestor(&unknown, &root_commit_id()));
}

#[test]
fn test_single_commit_transactions_keep_every_commit() {
    // After N transactions of one commit each the index holds N + 1 commits,
    // whatever the layout of the levels, and the levels never grow from
    // oldest to newest.
    let mut repo = TestRepo::init();
    for n in 1..=40u32 {
        create_n_commits(&mut repo, 1);
        assert_eq!(repo.index.num_commits(), n + 1);
        let levels = commits_by_level(&repo);
        assert_eq!(levels.iter().sum::<u32>(), n + 1);
        assert!(levels.windows(2).all(|pair| pair[0] >= pair[1]));
    }
}

#[test]
fn test_can_add_commit_wants_indexed_parents() {
    let repo = TestRepo::init();
    let tx = repo.index.start_transaction();
    assert!(tx.can_add_commit(&vec![root_commit_id()]));
    assert!(!tx.can_add_commit(&vec![]));
    assert!(!tx.can_add_commit(&vec![root_commit_id(), CommitId::new(vec![5, 5, 5, 5])]));
}

#[test]
fn test_hex_prefix_reads_both_cases_and_rejects_other_characters() {
    assert_eq!(HexPrefix::try_from_hex("0aF").unwrap().nibbles, vec![0, 10, 15]);
    assert!(HexPrefix::try_from_hex("").unwrap().nibbles.is_empty());
    assert!(HexPrefix::try_from_hex("xyz").is_none());
    assert!(HexPrefix::try_from_hex("12g").is_none());
    // A prefix longer than the id matches nothing.
    let prefix = HexPrefix::try_from_hex("abcde").unwrap();
    assert!(prefix.matches(&vec![0xab, 0xcd, 0xe0]));
    assert!(!prefix.matches(&vec![0xab, 0xcd]));
    assert!(!prefix.matches(&vec![0xab, 0xcd, 0xf0]));
}
