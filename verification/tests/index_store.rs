use commit_index::ids::{ChangeId, CommitId};
use commit_index::index::error::IndexError;
use commit_index::index::format::{decode_segment, encode_segment, FORMAT_VERSION};
use commit_index::index::graph::IndexEntry;
use commit_index::index::mutable::ReadonlyIndex;
use commit_index::index::recovery::{
    build_index_at_operation, ObjectStore, Operation, StoredCommit,
};
use commit_index::index::changed_path::ChangedPathSegment;
use commit_index::index::path_format::{decode_paths, encode_paths};
use commit_index::index::path_store::ChangedPathStore;
use commit_index::index::store::SegmentStore;

const COMMIT_ID_LEN: usize = 4;
const CHANGE_ID_LEN: usize = 8;

fn cid(n: u32) -> CommitId {
    CommitId::new(n.to_be_bytes().to_vec())
}

fn chid(n: u32) -> ChangeId {
    let mut bytes = vec![0u8; 4];
    bytes.extend_from_slice(&n.to_be_bytes());
    ChangeId::new(bytes)
}

/// A repository for tests: the commits themselves, the operations, the
/// files of the index, and the index at the latest operation.
struct TestRepo {
    objects: ObjectStore,
    operations: Vec<Operation>,
    store: SegmentStore,
    index: ReadonlyIndex,
    next: u32,
}

impl TestRepo {
    fn init() -> TestRepo {
        let mut repo = TestRepo {
            objects: ObjectStore { commits: vec![] },
            operations: vec![],
            store: SegmentStore::new(COMMIT_ID_LEN, CHANGE_ID_LEN),
            index: ReadonlyIndex::new(cid(0), chid(0)),
            next: 1,
        };
        repo.commit_operation(vec![cid(0)]);
        repo
    }

    fn write_commit(&mut self, parents: &[&CommitId]) -> CommitId {
        let n = self.next;
        self.next += 1;
        let parent_ids: Vec<CommitId> = if parents.is_empty() {
            vec![cid(0)]
        } else {
            parents.iter().map(|p| (*p).clone()).collect()
        };
        self.objects.commits.push(StoredCommit { id: cid(n), change_id: chid(n), parent_ids });
        cid(n)
    }

    /// Ends a transaction: indexes the commits that the operation refers
    /// to, saves the index, and links the operation to it.
    fn commit_operation(&mut self, heads: Vec<CommitId>) -> Vec<u8> {
        let op_id = vec![self.operations.len() as u8];
        let mut tx = self.index.start_transaction();
        for head in &heads {
            commit_index::index::recovery::index_commit(
                &mut tx,
                &self.objects,
                head,
                self.objects.commits.len(),
            )
            .unwrap();
        }
        self.index = tx.commit();
        let head = self.store.save(&self.index).unwrap();
        self.store.link_operation(op_id.clone(), head);
        self.operations.push(Operation { id: op_id.clone(), heads });
        op_id
    }

    fn load_at_head(&self) -> Result<ReadonlyIndex, IndexError> {
        let op = self.operations.last().unwrap();
        match self.store.head_of(&op.id) {
            Some(head) => match self.store.load(head) {
                Ok(index) => return Ok(index),
                Err(_) => {}
            },
            None => {}
        }
        build_index_at_operation(&self.store, &self.operations, &self.objects, &cid(0), &chid(0))
    }
}

#[test]
fn test_index_commits_previous_operations() {
    // Test that commits visible only in previous operations are indexed.
    let mut repo = TestRepo::init();

    // Remove commit B and C in one operation and make sure they're still
    // visible in the index after that operation.
    let commit_a = repo.write_commit(&[]);
    let commit_b = repo.write_commit(&[&commit_a]);
    let commit_c = repo.write_commit(&[&commit_b]);
    repo.commit_operation(vec![commit_c.clone()]);

    // The head is removed: the next operation refers to A alone.
    repo.commit_operation(vec![commit_a.clone()]);

    // Delete index from disk
    repo.store.reinit();

    let index = repo.load_at_head().unwrap();
    // There should be the root commit, plus 3 more
    assert_eq!(index.num_commits(), 1 + 3);

    let stats = index.stats();
    assert_eq!(stats.num_commits, 1 + 3);
    assert_eq!(stats.num_merges, 0);
    assert_eq!(stats.max_generation_number, 3);

    assert_eq!(index.generation_number(&commit_a).unwrap(), 1);
    assert_eq!(index.generation_number(&commit_b).unwrap(), 2);
    assert_eq!(index.generation_number(&commit_c).unwrap(), 3);
}

#[test]
fn test_index_commits_hidden_but_referenced() {
    // Test that hidden-but-referenced commits are indexed.
    let mut repo = TestRepo::init();

    // The commits are no heads, but a remote bookmark points to them.
    let commit_a = repo.write_commit(&[]);
    let commit_b = repo.write_commit(&[]);
    let commit_c = repo.write_commit(&[]);
    repo.commit_operation(vec![commit_a.clone(), commit_b.clone(), commit_c.clone()]);

    // All commits should be indexed
    assert!(repo.index.has_id(&commit_a));
    assert!(repo.index.has_id(&commit_b));
    assert!(repo.index.has_id(&commit_c));

    // Delete index from disk
    repo.store.reinit();

    let index = repo.load_at_head().unwrap();
    // All commits should be reindexed
    assert!(index.has_id(&commit_a));
    assert!(index.has_id(&commit_b));
    assert!(index.has_id(&commit_c));
}

#[test]
fn test_reindex_no_segments_dir() {
    let mut repo = TestRepo::init();
    let commit_a = repo.write_commit(&[]);
    repo.commit_operation(vec![commit_a.clone()]);
    assert!(repo.index.has_id(&commit_a));

    // The files of the segments are gone; the links are still there.
    for id in 0..repo.store.files.len() as u32 {
        repo.store.delete_segment(id);
    }
    let head = repo.store.head_of(&repo.operations.last().unwrap().id).unwrap();
    assert!(matches!(repo.store.load(head), Err(IndexError::MissingSegment(id)) if id == head));

    let index = repo.load_at_head().unwrap();
    assert!(index.has_id(&commit_a));
}

#[test]
fn test_reindex_corrupt_segment_files() {
    let mut repo = TestRepo::init();
    let commit_a = repo.write_commit(&[]);
    repo.commit_operation(vec![commit_a.clone()]);
    assert!(repo.index.has_id(&commit_a));

    // Corrupt the index files
    for file in repo.store.files.iter_mut() {
        // u32: file format version
        // u32: base segment reference (0 means none)
        // u32: number of local commit entries
        // u32: number of local change ids
        // u32: number of overflow parent entries
        // u32: number of overflow change id positions
        *file = Some(b"\0".repeat(24));
    }
    let head = repo.store.head_of(&repo.operations.last().unwrap().id).unwrap();
    assert!(matches!(repo.store.load(head), Err(IndexError::CorruptSegment(id)) if id == head));

    let index = repo.load_at_head().unwrap();
    assert!(index.has_id(&commit_a));
}

#[test]
fn test_reindex_from_merged_operation() {
    let mut repo = TestRepo::init();

    // The following operation log:
    // x (add head, index will be missing)
    // x (add head, index will be missing)
    // |\
    // o o (remove head)
    // o o (add head)
    // |/
    // o
    let base = repo.index.start_transaction().commit();
    let mut sides: Vec<ReadonlyIndex> = vec![];
    for _ in 0..2 {
        repo.index = base.start_transaction().commit();
        let commit = repo.write_commit(&[]);
        repo.commit_operation(vec![commit]);
        repo.commit_operation(vec![cid(0)]);
        sides.push(repo.index.start_transaction().commit());
    }
    // The merge keeps the index of one side and adds the commits of the
    // other to it.
    let mut tx = sides[0].start_transaction();
    assert!(tx.merge_in(&sides[1]));
    repo.index = tx.commit();
    let merged = repo.commit_operation(vec![cid(0)]);
    let third = repo.write_commit(&[]);
    let last = repo.commit_operation(vec![third.clone()]);

    // Sanity check before corrupting the index store
    assert_eq!(repo.index.num_commits(), 4);

    // Forget the links of the last two operations.
    repo.store.op_links.retain(|link| link.op_id != merged && link.op_id != last);
    assert!(repo.store.head_of(&merged).is_none());
    assert!(repo.store.head_of(&last).is_none());

    // When re-indexing, the index of one of the sides is taken as the
    // base. The commits in the other side should still be reachable.
    let index = repo.load_at_head().unwrap();
    assert_eq!(index.num_commits(), 4);
    assert!(index.has_id(&cid(1)));
    assert!(index.has_id(&cid(2)));
    assert!(index.has_id(&third));
}

#[test]
fn test_merge_in_adds_the_commits_of_the_other_side() {
    let base = {
        let index = ReadonlyIndex::new(cid(0), chid(0));
        let mut tx = index.start_transaction();
        tx.add_commit(cid(1), chid(1), &vec![cid(0)]);
        tx.commit()
    };
    let ours = {
        let mut tx = base.start_transaction();
        tx.add_commit(cid(2), chid(2), &vec![cid(1)]);
        tx.add_commit(cid(3), chid(3), &vec![cid(2)]);
        tx.commit()
    };
    let theirs = {
        let mut tx = base.start_transaction();
        tx.add_commit(cid(4), chid(4), &vec![cid(1)]);
        tx.add_commit(cid(5), chid(5), &vec![cid(4), cid(0)]);
        tx.add_commit(cid(6), chid(6), &vec![cid(5)]);
        tx.commit()
    };
    let mut tx = ours.start_transaction();
    assert!(tx.merge_in(&theirs));
    let merged = tx.commit();
    // Every commit once, whichever side it came from.
    assert_eq!(merged.num_commits(), 7);
    for n in 0..7 {
        assert!(merged.has_id(&cid(n)));
        assert_eq!(
            merged.generation_number(&cid(n)),
            if n < 4 { ours.generation_number(&cid(n)) } else { theirs.generation_number(&cid(n)) }
        );
    }
    assert!(merged.is_ancestor(&cid(1), &cid(6)));
    assert!(merged.is_ancestor(&cid(4), &cid(6)));
    assert!(merged.is_ancestor(&cid(2), &cid(3)));
    assert!(!merged.is_ancestor(&cid(2), &cid(6)));
    assert!(!merged.is_ancestor(&cid(4), &cid(3)));

    // Merging once more changes nothing.
    let mut tx = merged.start_transaction();
    assert!(tx.merge_in(&theirs));
    assert!(tx.merge_in(&ours));
    assert_eq!(tx.commit().num_commits(), 7);

    // An index over another root cannot be merged in.
    let stranger = ReadonlyIndex::new(cid(9), chid(9));
    let mut tx = merged.start_transaction();
    assert!(!tx.merge_in(&stranger));
    assert_eq!(tx.commit().num_commits(), 7);
}

#[test]
fn test_reindex_missing_commit() {
    let mut repo = TestRepo::init();

    let missing_commit = repo.write_commit(&[]);
    let bad_op_id = repo.commit_operation(vec![missing_commit.clone()]);

    repo.commit_operation(vec![cid(0)]);

    // Remove historical head commit to simulate bad GC.
    repo.objects.commits.retain(|commit| commit.id != missing_commit);
    assert!(repo.objects.get(&missing_commit).is_none());

    // Reindexing error should include the operation id where the commit
    // couldn't be found.
    repo.store.reinit();
    let err = build_index_at_operation(
        &repo.store,
        &repo.operations,
        &repo.objects,
        &cid(0),
        &chid(0),
    )
    .unwrap_err();
    assert!(
        matches!(err, IndexError::IndexCommits { op_id, missing } if op_id == bad_op_id && missing == missing_commit)
    );
}

#[test]
fn test_rebuilt_index_answers_as_before() {
    // After all files are deleted and the index is rebuilt, generation
    // numbers, ancestry and the counts are what they were.
    let mut repo = TestRepo::init();
    let a = repo.write_commit(&[]);
    let b = repo.write_commit(&[&a]);
    let c = repo.write_commit(&[&a]);
    repo.commit_operation(vec![b.clone()]);
    let d = repo.write_commit(&[&c, &b]);
    let e = repo.write_commit(&[&d]);
    repo.commit_operation(vec![e.clone()]);
    let ids = vec![cid(0), a, b, c, d, e];
    let before = repo.load_at_head().unwrap();

    repo.store.reinit();
    let after = repo.load_at_head().unwrap();

    let stats_before = before.stats();
    let stats_after = after.stats();
    assert_eq!(stats_after.num_commits, stats_before.num_commits);
    assert_eq!(stats_after.num_merges, stats_before.num_merges);
    assert_eq!(stats_after.max_generation_number, stats_before.max_generation_number);
    for x in &ids {
        assert_eq!(after.generation_number(x), before.generation_number(x));
        for y in &ids {
            assert_eq!(after.is_ancestor(x, y), before.is_ancestor(x, y));
        }
    }
}

#[test]
fn test_saved_index_loads_as_it_was() {
    let mut repo = TestRepo::init();
    let a = repo.write_commit(&[]);
    let b = repo.write_commit(&[&a]);
    repo.commit_operation(vec![b.clone()]);
    for _ in 0..5 {
        let c = repo.write_commit(&[]);
        repo.commit_operation(vec![c]);
    }
    let head = repo.store.head_of(&repo.operations.last().unwrap().id).unwrap();
    let loaded = repo.store.load(head).unwrap();
    assert_eq!(loaded.num_commits(), repo.index.num_commits());
    assert_eq!(loaded.stats().commit_levels, repo.index.stats().commit_levels);
    assert_eq!(loaded.generation_number(&b), Some(2));
    assert!(loaded.is_ancestor(&a, &b));
    // The files written before are still there: an older operation loads.
    let older = repo.store.head_of(&repo.operations[1].id).unwrap();
    assert_eq!(repo.store.load(older).unwrap().num_commits(), 3);
}

#[test]
fn test_segment_format_round_trip_with_overflow_tables() {
    // A merge of three parents goes to the overflow parents, and a change
    // id that two commits share goes to the table once.
    let entries = vec![
        IndexEntry { commit_id: cid(1), change_id: chid(7), generation_number: 1, parent_positions: vec![0] },
        IndexEntry { commit_id: cid(2), change_id: chid(7), generation_number: 1, parent_positions: vec![0] },
        IndexEntry { commit_id: cid(3), change_id: chid(8), generation_number: 2, parent_positions: vec![1, 2] },
        IndexEntry {
            commit_id: cid(4),
            change_id: chid(9),
            generation_number: 3,
            parent_positions: vec![1, 2, 3],
        },
    ];
    let bytes = encode_segment(&entries, Some(5), COMMIT_ID_LEN, CHANGE_ID_LEN).unwrap();
    // Header: version, base reference, commits, change ids, overflow
    // parents, overflow change positions.
    let header: Vec<u32> = bytes[..24]
        .chunks(4)
        .map(|c| u32::from_le_bytes([c[0], c[1], c[2], c[3]]))
        .collect();
    assert_eq!(header, vec![FORMAT_VERSION, 6, 4, 3, 3, 1]);
    assert_eq!(bytes.len(), 24 + 4 * (16 + COMMIT_ID_LEN) + 3 * CHANGE_ID_LEN + 3 * 4 + 4);

    let decoded = decode_segment(&bytes, COMMIT_ID_LEN, CHANGE_ID_LEN).unwrap();
    assert_eq!(decoded.base, Some(5));
    assert_eq!(decoded.entries.len(), 4);
    for (read, written) in decoded.entries.iter().zip(&entries) {
        assert_eq!(read.commit_id, written.commit_id);
        assert_eq!(read.change_id, written.change_id);
        assert_eq!(read.generation_number, written.generation_number);
        assert_eq!(read.parent_positions, written.parent_positions);
    }
}

#[test]
fn test_segment_format_rejects_what_is_no_segment() {
    let entries = vec![IndexEntry {
        commit_id: cid(1),
        change_id: chid(1),
        generation_number: 0,
        parent_positions: vec![],
    }];
    let bytes = encode_segment(&entries, None, COMMIT_ID_LEN, CHANGE_ID_LEN).unwrap();
    assert!(decode_segment(&bytes, COMMIT_ID_LEN, CHANGE_ID_LEN).is_some());
    // Too short for a header.
    assert!(decode_segment(&bytes[..10].to_vec(), COMMIT_ID_LEN, CHANGE_ID_LEN).is_none());
    // A length that does not agree with the header.
    let mut longer = bytes.clone();
    longer.push(0);
    assert!(decode_segment(&longer, COMMIT_ID_LEN, CHANGE_ID_LEN).is_none());
    assert!(decode_segment(&bytes[..bytes.len() - 1].to_vec(), COMMIT_ID_LEN, CHANGE_ID_LEN).is_none());
    // Another version.
    let mut other_version = bytes.clone();
    other_version[0] = 9;
    assert!(decode_segment(&other_version, COMMIT_ID_LEN, CHANGE_ID_LEN).is_none());
    // A change id that the table does not hold.
    let mut bad_change = bytes.clone();
    let change_index_at = 24 + 3 * 4;
    bad_change[change_index_at] = 5;
    assert!(decode_segment(&bad_change, COMMIT_ID_LEN, CHANGE_ID_LEN).is_none());
    // Ids of another length cannot be stored.
    assert!(encode_segment(&entries, None, COMMIT_ID_LEN + 1, CHANGE_ID_LEN).is_none());
}

#[test]
fn test_load_rejects_a_graph_that_is_not_well_formed() {
    // The file holds a segment, but its root has a generation number that
    // does not follow the rule.
    let entries = vec![IndexEntry {
        commit_id: cid(0),
        change_id: chid(0),
        generation_number: 3,
        parent_positions: vec![],
    }];
    let mut store = SegmentStore::new(COMMIT_ID_LEN, CHANGE_ID_LEN);
    store.files.push(Some(encode_segment(&entries, None, COMMIT_ID_LEN, CHANGE_ID_LEN).unwrap()));
    assert!(matches!(store.load(0), Err(IndexError::CorruptSegment(0))));
    // A segment that names itself as its base.
    let good = vec![IndexEntry {
        commit_id: cid(0),
        change_id: chid(0),
        generation_number: 0,
        parent_positions: vec![],
    }];
    store.files.push(Some(encode_segment(&good, Some(1), COMMIT_ID_LEN, CHANGE_ID_LEN).unwrap()));
    assert!(matches!(store.load(1), Err(IndexError::CorruptSegment(1))));
    store.files.push(Some(encode_segment(&good, None, COMMIT_ID_LEN, CHANGE_ID_LEN).unwrap()));
    assert_eq!(store.load(2).unwrap().num_commits(), 1);
    assert!(matches!(store.load(7), Err(IndexError::MissingSegment(7))));
}

#[test]
fn test_changed_path_segments() {
    let repo = TestRepo::init();
    let root_commit_id = cid(0);

    // Changed-path index should be disabled by default
    let mut segments_dir = ChangedPathStore::new();
    assert_eq!(segments_dir.num_files(), 0);
    let stats = repo.index.stats();
    assert_eq!(stats.changed_path_commits_range, None);
    assert_eq!(stats.changed_path_levels.len(), 0);

    let index = repo.index.enable_changed_path_index();
    let stats = index.stats();
    assert_eq!(stats.changed_path_commits_range, Some((1, 1)));
    assert_eq!(stats.changed_path_levels.len(), 0);

    // Add new commit with changed-path index enabled
    let mut tx = index.start_transaction();
    tx.add_commit_with_paths(cid(1), chid(1), &vec![root_commit_id.clone()], vec!["a".to_string()]);
    let index = tx.commit();
    let ids = segments_dir.save(index.changed_paths.as_ref().unwrap()).unwrap();
    assert_eq!(ids, vec![0]);
    let stats = index.stats();
    assert_eq!(segments_dir.num_files(), 1);
    assert_eq!(stats.changed_path_commits_range, Some((1, 2)));
    assert_eq!(stats.changed_path_levels.len(), 1);
    assert_eq!(stats.changed_path_levels[0].num_commits, 1);
    assert_eq!(stats.changed_path_levels[0].num_changed_paths, 1);
    assert_eq!(stats.changed_path_levels[0].num_paths, 1);

    // Add one more commit
    let mut tx = index.start_transaction();
    tx.add_commit_with_paths(
        cid(2),
        chid(2),
        &vec![root_commit_id.clone()],
        vec!["a".to_string(), "b".to_string()],
    );
    let index = tx.commit();
    let ids = segments_dir.save(index.changed_paths.as_ref().unwrap()).unwrap();
    assert_eq!(ids, vec![0, 1]);
    let stats = index.stats();
    assert_eq!(segments_dir.num_files(), 2);
    assert_eq!(stats.changed_path_commits_range, Some((1, 3)));
    assert_eq!(stats.changed_path_levels.len(), 2);
    assert_eq!(stats.changed_path_levels[0].num_commits, 1);
    assert_eq!(stats.changed_path_levels[0].num_changed_paths, 1);
    assert_eq!(stats.changed_path_levels[0].num_paths, 1);
    assert_eq!(stats.changed_path_levels[1].num_commits, 1);
    assert_eq!(stats.changed_path_levels[1].num_changed_paths, 2);
    assert_eq!(stats.changed_path_levels[1].num_paths, 2);

    // What was saved loads as it was, and goes with the commits that were
    // saved with it.
    let loaded = segments_dir.load(1, &ids).unwrap();
    assert_eq!(loaded.commits_range(), (1, 3));
    assert_eq!(loaded.changed_paths(1).unwrap(), &vec!["a".to_string()]);
    assert_eq!(loaded.changed_paths(2).unwrap(), &vec!["a".to_string(), "b".to_string()]);
    let mut commits = SegmentStore::new(COMMIT_ID_LEN, CHANGE_ID_LEN);
    let head = commits.save(&index).unwrap();
    let reloaded = commits.load(head).unwrap();
    assert_eq!(reloaded.stats().changed_path_commits_range, None);
    let reloaded = reloaded.with_changed_paths(loaded);
    assert_eq!(reloaded.stats().changed_path_commits_range, Some((1, 3)));
    assert_eq!(reloaded.stats().changed_path_levels.len(), 2);
    assert_eq!(reloaded.changed_paths_at(2).unwrap(), &vec!["a".to_string(), "b".to_string()]);
    // Paths that end elsewhere than the commits are dropped.
    let short = segments_dir.load(1, &vec![ids[0]]).unwrap();
    let reloaded = commits.load(head).unwrap().with_changed_paths(short);
    assert_eq!(reloaded.stats().changed_path_commits_range, None);

    // A third commit merges the two levels of one commit with its own.
    let mut tx = index.start_transaction();
    tx.add_commit_with_paths(cid(3), chid(3), &vec![cid(2)], vec!["b".to_string(), "c".to_string()]);
    let index = tx.commit();
    let ids = segments_dir.save(index.changed_paths.as_ref().unwrap()).unwrap();
    assert_eq!(ids, vec![2]);
    let stats = index.stats();
    assert_eq!(segments_dir.num_files(), 3);
    assert_eq!(stats.changed_path_commits_range, Some((1, 4)));
    assert_eq!(stats.changed_path_levels.len(), 1);
    assert_eq!(stats.changed_path_levels[0].num_commits, 3);
    assert_eq!(stats.changed_path_levels[0].num_changed_paths, 5);
    assert_eq!(stats.changed_path_levels[0].num_paths, 3);

    // Positions outside the covered range have no answer.
    assert!(index.changed_paths_at(0).is_none());
    assert_eq!(index.changed_paths_at(1).unwrap(), &vec!["a".to_string()]);
    assert_eq!(index.changed_paths_at(3).unwrap(), &vec!["b".to_string(), "c".to_string()]);
    assert!(index.changed_paths_at(4).is_none());
}

#[test]
fn test_changed_path_files_round_trip() {
    let paths = vec![
        vec!["src/lib.rs".to_string(), "docs/überblick.md".to_string()],
        vec![],
        vec!["".to_string(), "日本語/ファイル".to_string(), "a\0b".to_string()],
    ];
    let bytes = encode_paths(&paths).unwrap();
    // The version, the number of commits, the number of paths of the first
    // commit, and the length of its first path.
    assert_eq!(&bytes[..4], &[1, 0, 0, 0]);
    assert_eq!(&bytes[4..8], &[3, 0, 0, 0]);
    assert_eq!(&bytes[8..12], &[2, 0, 0, 0]);
    assert_eq!(&bytes[12..16], &[10, 0, 0, 0]);
    assert_eq!(&bytes[16..26], b"src/lib.rs");
    assert_eq!(decode_paths(&bytes), Some(paths));
    assert_eq!(encode_paths(&vec![]).unwrap(), vec![1, 0, 0, 0, 0, 0, 0, 0]);
    assert_eq!(decode_paths(&vec![1, 0, 0, 0, 0, 0, 0, 0]), Some(vec![]));
}

#[test]
fn test_changed_path_files_that_are_no_files() {
    let bytes = encode_paths(&vec![vec!["a".to_string()], vec!["bc".to_string()]]).unwrap();
    assert!(decode_paths(&bytes).is_some());
    // Cut short, or longer than it says.
    for len in 0..bytes.len() {
        assert_eq!(decode_paths(&bytes[..len].to_vec()), None);
    }
    let mut longer = bytes.clone();
    longer.push(0);
    assert_eq!(decode_paths(&longer), None);
    // Another version.
    let mut other = bytes.clone();
    other[0] = 2;
    assert_eq!(decode_paths(&other), None);
    // A path that is no text.
    let mut garbled = bytes.clone();
    let last = garbled.len() - 1;
    garbled[last] = 0xff;
    assert_eq!(decode_paths(&garbled), None);
}

#[test]
fn test_changed_path_store_reads_and_checks_levels() {
    let level = |commits: &[&[&str]]| ChangedPathSegment {
        commits: commits.iter().map(|c| c.iter().map(|p| p.to_string()).collect()).collect(),
    };
    let mut store = ChangedPathStore::new();
    let one = store.write_segment(&level(&[&["a"]])).unwrap();
    let three = store.write_segment(&level(&[&["a"], &["b"], &[]])).unwrap();
    let empty = store.write_segment(&level(&[])).unwrap();
    assert_eq!((one, three, empty), (0, 1, 2));
    // The same level again is the same file.
    assert_eq!(store.write_segment(&level(&[&["a"]])), Some(0));
    assert_eq!(store.num_files(), 3);
    assert_eq!(store.read_segment(three).unwrap().commits.len(), 3);
    assert!(matches!(store.read_segment(7), Err(IndexError::MissingSegment(7))));
    store.files[0][0] = 9;
    assert!(matches!(store.read_segment(0), Err(IndexError::CorruptSegment(0))));
    store.files[0][0] = 1;

    let index = store.load(5, &vec![three, one]).unwrap();
    assert_eq!(index.commits_range(), (5, 9));
    assert_eq!(index.changed_paths(6).unwrap(), &vec!["b".to_string()]);
    assert_eq!(store.load(5, &vec![]).unwrap().commits_range(), (5, 5));
    // A level that is larger than the one before it, a level without a
    // commit, and a range that ends beyond the last position.
    assert!(matches!(store.load(5, &vec![one, three]), Err(IndexError::CorruptSegment(1))));
    assert!(matches!(store.load(5, &vec![three, empty]), Err(IndexError::CorruptSegment(2))));
    assert!(matches!(store.load(u32::MAX - 2, &vec![three]), Err(IndexError::CorruptSegment(1))));
    assert!(store.load(u32::MAX - 3, &vec![three]).is_ok());
    assert!(matches!(store.load(5, &vec![three, 9, one]), Err(IndexError::MissingSegment(9))));

    store.reinit();
    assert_eq!(store.num_files(), 0);
    assert!(matches!(store.load(5, &vec![0]), Err(IndexError::MissingSegment(0))));
}

#[test]
fn test_write_and_read_segment() {
    let mut store = SegmentStore::new(COMMIT_ID_LEN, CHANGE_ID_LEN);
    let root = vec![IndexEntry {
        commit_id: cid(0),
        change_id: chid(0),
        generation_number: 0,
        parent_positions: vec![],
    }];
    let child = vec![IndexEntry {
        commit_id: cid(1),
        change_id: chid(1),
        generation_number: 1,
        parent_positions: vec![0],
    }];
    assert_eq!(store.write_segment(&root, None), Some(0));
    assert_eq!(store.write_segment(&child, Some(0)), Some(1));
    // A commit id of another length cannot be stored.
    let odd = vec![IndexEntry {
        commit_id: CommitId::new(vec![1, 2]),
        change_id: chid(2),
        generation_number: 1,
        parent_positions: vec![0],
    }];
    assert_eq!(store.write_segment(&odd, Some(1)), None);
    assert_eq!(store.files.len(), 2);

    let read = store.read_segment(1).unwrap();
    assert_eq!(read.base, Some(0));
    assert_eq!(read.entries[0].commit_id, cid(1));
    assert!(matches!(store.read_segment(2), Err(IndexError::MissingSegment(2))));
    store.files[0] = Some(vec![1, 0, 0, 0]);
    assert!(matches!(store.read_segment(0), Err(IndexError::CorruptSegment(0))));
    // The chain of the second segment runs into the corrupt first one.
    assert!(matches!(store.load(1), Err(IndexError::CorruptSegment(0))));
    store.delete_segment(0);
    assert!(matches!(store.load(1), Err(IndexError::MissingSegment(0))));
}

/// The tag of the index store is the one that names this kind of index.
#[test]
fn test_index_store_type() {
    let repo = TestRepo::init();
    assert_eq!(repo.index.num_commits(), 1);
    assert_eq!(SegmentStore::store_type(), "default");
}

#[test]
fn test_read_legacy_operation_link_file() {
    let mut repo = TestRepo::init();

    // Only the links in the older form are left.
    let links: Vec<_> = repo.store.op_links.drain(..).collect();
    repo.store.legacy_op_links = links;

    // Reload the index
    let op_id = repo.operations.last().unwrap().id.clone();
    let head = repo.store.head_of(&op_id).unwrap();
    assert_eq!(repo.store.load(head).unwrap().num_commits(), 1);
    // Existing index should still be readable, so a new operation link won't
    // be created
    assert!(repo.store.op_links.iter().all(|link| link.op_id != op_id));

    // A new operation link can be created
    let commit = repo.write_commit(&[]);
    let new_op = repo.commit_operation(vec![commit]);
    assert!(repo.store.op_links.iter().any(|link| link.op_id == new_op));
    // A link in the newer form goes before one in the older form.
    repo.store.legacy_op_links.push(commit_index::index::store::OpLink { op_id: new_op.clone(), head: 0 });
    assert_eq!(repo.store.head_of(&new_op), Some(repo.store.files.len() as u32 - 1));
}
