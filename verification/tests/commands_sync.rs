use commit_index::commands::sync::{
    cmd_git_sync, CommitLookup, GitSyncArgs, MessageKind, SyncAction, SyncEvent, SyncState,
};
use commit_index::ids::{ChangeId, CommitId};
use commit_index::index::mutable::ReadonlyIndex;
use commit_index::refs::{LocalBookmark, RefTarget, RemoteBookmark, RemoteRef, RepoView};
use commit_index::str_pattern::StringPattern;

/// A commit id from its hexadecimal digits, filled up with zeros to twenty
/// bytes.
fn id(hex: &str) -> CommitId {
    let mut bytes: Vec<u8> = (0..hex.len() / 2)
        .map(|i| u8::from_str_radix(&hex[2 * i..2 * i + 2], 16).unwrap())
        .collect();
    bytes.resize(20, 0);
    CommitId::new(bytes)
}

const ROOT: &str = "000000000000";
const WORKING_COPY: &str = "e8849ae12c70";
/// The first commit of a remote repository.
const MESSAGE: &str = "ab8b299ea0750e860dc209afef721490f05818b9";

/// A repository as a sync sees it: the remotes, the bookmarks before and
/// after the fetch, and the commits.
struct World {
    /// The remotes that the configuration names for fetching.
    configured: Vec<StringPattern>,
    remotes: Vec<String>,
    locals: Vec<(String, CommitId)>,
    /// The remote bookmarks before the fetch, all of them followed.
    remote_before: Vec<(String, String, CommitId)>,
    /// The remote bookmarks after the fetch.
    remote_after: Vec<(String, String, CommitId)>,
    /// Every commit with its parents, parents first.
    commits: Vec<(CommitId, Vec<CommitId>)>,
    /// Whether the commits that a rebase moves turn out empty on the new
    /// head, so that none of them is rewritten.
    merged_already: bool,
}

impl World {
    fn new(remotes: &[&str]) -> World {
        World {
            configured: vec![StringPattern::Exact("origin".to_string())],
            remotes: remotes.iter().map(|r| r.to_string()).collect(),
            locals: vec![],
            remote_before: vec![],
            remote_after: vec![],
            commits: vec![(id(WORKING_COPY), vec![id(ROOT)])],
            merged_already: false,
        }
    }

    /// A remote made like the others: it holds one commit on a branch of
    /// its own name, which a first fetch has brought with a local bookmark.
    fn with_remote_branches(remotes: &[&str]) -> World {
        let mut world = World::new(remotes);
        for (i, remote) in remotes.iter().enumerate() {
            let first = if i == 0 { id(MESSAGE) } else { id(&format!("aa{i:02x}")) };
            world.commit(&first, &[&id(ROOT)]);
            world.fetched(remote, remote, &first);
            world.locals.push((remote.to_string(), first));
        }
        world
    }

    fn commit(&mut self, commit: &CommitId, parents: &[&CommitId]) {
        self.commits.push((commit.clone(), parents.iter().map(|p| (*p).clone()).collect()));
    }

    /// The remote bookmark as an earlier fetch has left it.
    fn fetched(&mut self, name: &str, remote: &str, at: &CommitId) {
        self.remote_before.push((name.to_string(), remote.to_string(), at.clone()));
        self.remote_after.push((name.to_string(), remote.to_string(), at.clone()));
    }

    /// The remote bookmark as the fetch of the sync will leave it.
    fn moves(&mut self, name: &str, remote: &str, to: &CommitId) {
        self.remote_after.retain(|(n, r, _)| !(n == name && r == remote));
        self.remote_after.push((name.to_string(), remote.to_string(), to.clone()));
    }

    fn local(&mut self, name: &str, at: &CommitId) {
        self.locals.retain(|(n, _)| n != name);
        self.locals.push((name.to_string(), at.clone()));
    }

    fn view(&self, remote: &[(String, String, CommitId)]) -> RepoView {
        let mut locals = self.locals.clone();
        locals.sort_by(|a, b| a.0.cmp(&b.0));
        let mut remote = remote.to_vec();
        remote.sort_by(|a, b| (&a.0, &a.1).cmp(&(&b.0, &b.1)));
        RepoView {
            local_bookmarks: locals
                .into_iter()
                .map(|(name, at)| LocalBookmark { name, target: RefTarget::normal(at) })
                .collect(),
            remote_bookmarks: remote
                .into_iter()
                .map(|(name, remote, at)| RemoteBookmark {
                    name,
                    remote,
                    remote_ref: RemoteRef { target: RefTarget::normal(at), tracking: true },
                })
                .collect(),
        }
    }

    fn index(&self) -> ReadonlyIndex {
        let index = ReadonlyIndex::new(id(ROOT), ChangeId::new(vec![0; 16]));
        let mut tx = index.start_transaction();
        for (n, (commit, parents)) in self.commits.iter().enumerate() {
            assert!(tx.can_add_commit(parents));
            tx.add_commit(commit.clone(), ChangeId::new(vec![n as u8 + 1; 16]), parents);
        }
        tx.commit()
    }

    /// Runs the sync to its end, doing for each step what it asks for.
    fn sync(&self, args: &GitSyncArgs) -> Outcome {
        let index = self.index();
        let before = self.view(&self.remote_before);
        let after = self.view(&self.remote_after);
        let mut outcome = Outcome::default();
        let mut fetched = false;
        let mut state = SyncState::Start;
        let mut event = SyncEvent::Begin;
        for _ in 0..100 {
            let view = if fetched { &after } else { &before };
            let step = cmd_git_sync(args, state, event, view, &index);
            for message in &step.messages {
                outcome.lines.push((message.kind, message.text.clone()));
            }
            state = step.state;
            event = match step.action {
                SyncAction::ReadConfiguredRemotes => SyncEvent::ConfiguredRemotes(
                    self.configured.iter().map(|p| p.clone()).collect(),
                ),
                SyncAction::ListRemotes => SyncEvent::RemoteNames(self.remotes.clone()),
                SyncAction::LookUpCommits(ids) => {
                    SyncEvent::Lookups(ids.iter().map(|_| CommitLookup::Found).collect())
                }
                SyncAction::Fetch { remotes, branches } => {
                    // The fetch takes every branch, whatever is synced.
                    assert_eq!(branches.len(), 1);
                    assert!(branches[0].matches("any/branch"));
                    assert!(branches[0].matches(""));
                    outcome.fetches.push(remotes);
                    fetched = true;
                    SyncEvent::Fetched
                }
                SyncAction::Rebase { commits, onto } => {
                    let rewritten = if self.merged_already { 0 } else { commits.len() as u64 };
                    outcome.rebases.push((commits, onto));
                    SyncEvent::Rebased(rewritten)
                }
                SyncAction::Finish { tx_description } => {
                    outcome.transactions.push(tx_description);
                    SyncEvent::Finished
                }
                SyncAction::Stop => return outcome,
                SyncAction::Fail(error) => {
                    outcome.error = Some(error.message);
                    return outcome;
                }
            };
        }
        panic!("the sync does not end");
    }
}

/// What a sync did.
#[derive(Default)]
struct Outcome {
    lines: Vec<(MessageKind, String)>,
    /// The remotes of each fetch.
    fetches: Vec<Vec<String>>,
    /// The rebases: the commits, the latest first, and where they went.
    rebases: Vec<(Vec<CommitId>, CommitId)>,
    /// The descriptions of the transactions that were finished.
    transactions: Vec<String>,
    error: Option<String>,
}

impl Outcome {
    fn status(&self) -> Vec<&str> {
        self.lines
            .iter()
            .filter(|(kind, _)| *kind == MessageKind::Status)
            .map(|(_, text)| text.as_str())
            .collect()
    }

    fn warnings(&self) -> Vec<&str> {
        self.lines
            .iter()
            .filter(|(kind, _)| *kind == MessageKind::Warning)
            .map(|(_, text)| text.as_str())
            .collect()
    }
}

fn no_args() -> GitSyncArgs {
    GitSyncArgs { remotes: vec![], bookmarks: vec![], all_remotes: false }
}

fn strings(items: &[&str]) -> Vec<String> {
    items.iter().map(|s| s.to_string()).collect()
}

/// Two local commits on the bookmark of the remote, and a new branch on the
/// remote beside them.
fn two_local_commits_and_a_new_branch() -> (World, CommitId, CommitId, CommitId) {
    let mut world = World::with_remote_branches(&["origin"]);
    let local1 = id("800d7ec1667b");
    let local2 = id("e5eddbf3afd0");
    world.commit(&local1, &[&id(MESSAGE)]);
    world.commit(&local2, &[&local1]);
    world.local("local1", &local1);
    world.local("local2", &local2);
    let remote_change = id("c4a3c3105d92");
    world.commit(&remote_change, &[&id(ROOT)]);
    world.moves("remote_change", "origin", &remote_change);
    (world, local1, local2, remote_change)
}

#[test]
fn test_git_sync_simple_rebase() {
    let (world, local1, local2, remote_change) = two_local_commits_and_a_new_branch();
    let outcome = world.sync(&no_args());
    assert_eq!(outcome.error, None);
    assert_eq!(outcome.fetches, vec![strings(&["origin"])]);
    // The branch is new and the bookmark of the local commits has not
    // moved: they stay, beside the new commit.
    assert!(outcome.rebases.is_empty());
    let index = world.index();
    assert!(index.has_id(&local1));
    assert!(index.has_id(&local2));
    assert!(index.has_id(&remote_change));
    assert!(index.is_ancestor(&id(MESSAGE), &local2));
    assert_eq!(outcome.status(), vec!["No local changes to sync."]);
}

#[test]
fn test_git_sync_specific_branch() {
    let mut world = World::with_remote_branches(&["origin", "upstream"]);
    let local_origin = id("0101");
    let local_upstream = id("0102");
    world.commit(&local_origin, &[&id(MESSAGE)]);
    world.commit(&local_upstream, &[&id("aa01")]);
    let origin_change = id("0103");
    world.commit(&origin_change, &[&id(ROOT)]);
    world.moves("origin_change", "origin", &origin_change);

    let mut args = no_args();
    args.bookmarks = vec![StringPattern::Exact("origin".to_string())];
    let outcome = world.sync(&args);
    assert_eq!(outcome.error, None);
    // Only the one remote is fetched from.
    assert_eq!(outcome.fetches, vec![strings(&["origin"])]);
    assert!(outcome.rebases.is_empty());
}

#[test]
fn test_git_sync_merged_change() {
    let (mut world, local1, local2, _) = two_local_commits_and_a_new_branch();
    // The remote has taken the local commits in: its branch stands on a
    // commit that holds what they hold.
    let merged = id("0201");
    world.commit(&merged, &[&id(MESSAGE)]);
    world.moves("origin", "origin", &merged);
    world.merged_already = true;
    let outcome = world.sync(&no_args());
    assert_eq!(outcome.error, None);
    assert_eq!(outcome.rebases, vec![(vec![local2, local1], merged)]);
    assert_eq!(
        outcome.status().last().copied(),
        Some("Synced and rebased 0 commits (2 already merged) across 1 bookmark updates.")
    );
}

#[test]
fn test_git_sync_deleted_parent() {
    let mut world = World::with_remote_branches(&["origin"]);
    let intermediate = id("0301");
    world.commit(&intermediate, &[&id(ROOT)]);
    world.fetched("intermediate", "origin", &intermediate);
    world.local("intermediate", &intermediate);
    let local1 = id("0302");
    let local2 = id("0303");
    world.commit(&local1, &[&id(MESSAGE)]);
    world.commit(&local2, &[&local1]);
    // The branch of the remote is set to where it stood, and a branch
    // `replacement` appears beside it.
    let replacement = id("0304");
    world.commit(&replacement, &[&id(ROOT)]);
    world.moves("replacement", "origin", &replacement);

    let outcome = world.sync(&no_args());
    assert_eq!(outcome.error, None);
    assert!(outcome.rebases.is_empty());
    let index = world.index();
    assert!(index.is_ancestor(&id(MESSAGE), &local1));
    assert!(index.is_ancestor(&local1, &local2));
    assert!(index.has_id(&replacement));
}

#[test]
fn test_git_sync_no_op() {
    let mut world = World::with_remote_branches(&["origin"]);
    let local = id("0401");
    world.commit(&local, &[&id(MESSAGE)]);
    world.local("local", &local);
    let outcome = world.sync(&no_args());
    assert_eq!(outcome.error, None);
    // Nothing moves and nothing is said but that.
    assert!(outcome.rebases.is_empty());
    assert!(outcome.warnings().is_empty());
    assert_eq!(outcome.status(), vec!["No local changes to sync."]);
    assert_eq!(
        outcome.transactions,
        vec!["git sync: fetched from origin (no local changes to rebase)"]
    );
}

#[test]
fn test_git_sync_undo() {
    let (mut world, local1, local2, _) = two_local_commits_and_a_new_branch();
    let moved = id("0501");
    world.commit(&moved, &[&id(MESSAGE)]);
    world.moves("origin", "origin", &moved);
    let outcome = world.sync(&no_args());
    assert_eq!(outcome.error, None);
    assert_eq!(outcome.rebases, vec![(vec![local2, local1], moved)]);
    // All of it is one transaction, which can be undone as one.
    assert_eq!(
        outcome.transactions,
        vec!["git sync: fetched and rebased 2 commits across 1 bookmark updates from origin"]
    );
}

#[test]
fn test_git_sync_all_remotes() {
    let mut world = World::with_remote_branches(&["upstream", "origin"]);
    let origin_change = id("0601");
    let upstream_change = id("0602");
    world.commit(&origin_change, &[&id(ROOT)]);
    world.commit(&upstream_change, &[&id(ROOT)]);
    world.moves("origin_change", "origin", &origin_change);
    world.moves("upstream_change", "upstream", &upstream_change);

    let mut args = no_args();
    args.all_remotes = true;
    let outcome = world.sync(&args);
    assert_eq!(outcome.error, None);
    assert!(outcome.warnings().is_empty());
    // Both remotes are fetched from, in the order of their names.
    assert_eq!(outcome.fetches, vec![strings(&["origin", "upstream"])]);
    assert_eq!(
        outcome.transactions,
        vec!["git sync: fetched from origin, upstream (no local changes to rebase)"]
    );
}

#[test]
fn test_git_sync_remote_patterns() {
    let mut world = World::with_remote_branches(&["upstream1", "upstream2", "other"]);
    let change1 = id("0701");
    let change2 = id("0702");
    world.commit(&change1, &[&id(ROOT)]);
    world.commit(&change2, &[&id(ROOT)]);
    world.moves("change1", "upstream1", &change1);
    world.moves("change2", "upstream2", &change2);

    let mut args = no_args();
    args.remotes = vec![StringPattern::parse("glob:upstream*").unwrap()];
    let outcome = world.sync(&args);
    assert_eq!(outcome.error, None);
    assert!(outcome.warnings().is_empty());
    assert_eq!(outcome.fetches, vec![strings(&["upstream1", "upstream2"])]);
}

#[test]
fn test_git_sync_no_matching_remotes() {
    let world = World::new(&[]);
    let mut args = no_args();
    args.remotes = vec![StringPattern::parse("nonexistent").unwrap()];
    let outcome = world.sync(&args);
    assert_eq!(outcome.warnings(), vec!["No git remotes matching 'nonexistent'"]);
    assert_eq!(outcome.error.as_deref(), Some("No git remotes to sync"));
    assert!(outcome.fetches.is_empty());
    assert!(outcome.transactions.is_empty());
}

#[test]
fn test_git_sync_branch_patterns() {
    let mut world = World::with_remote_branches(&["origin"]);
    let local_origin = id("0801");
    world.commit(&local_origin, &[&id(MESSAGE)]);
    world.local("local_origin", &local_origin);
    let origin_change = id("0802");
    world.commit(&origin_change, &[&id(MESSAGE)]);
    world.moves("origin", "origin", &origin_change);

    let mut args = no_args();
    args.bookmarks = vec![StringPattern::parse("origin").unwrap()];
    let outcome = world.sync(&args);
    assert_eq!(outcome.error, None);
    assert_eq!(outcome.fetches, vec![strings(&["origin"])]);
    assert_eq!(outcome.rebases, vec![(vec![local_origin], origin_change)]);

    // A pattern that the bookmark does not match leaves the commits alone.
    args.bookmarks = vec![StringPattern::parse("glob:release-*").unwrap()];
    let outcome = world.sync(&args);
    assert_eq!(outcome.error, None);
    assert!(outcome.rebases.is_empty());
}

#[test]
fn test_git_sync_config_default_remote() {
    let mut world = World::with_remote_branches(&["upstream", "origin"]);
    world.configured = vec![StringPattern::Exact("upstream".to_string())];
    let local = id("0901");
    world.commit(&local, &[&id(MESSAGE)]);
    let remote_change = id("0902");
    world.commit(&remote_change, &[&id(ROOT)]);
    world.moves("remote_change", "upstream", &remote_change);
    let outcome = world.sync(&no_args());
    assert_eq!(outcome.error, None);
    // The other remote is left alone.
    assert_eq!(outcome.fetches, vec![strings(&["upstream"])]);
}

#[test]
fn test_git_sync_leaves_bookmark_on_local_commit() {
    let mut world = World::with_remote_branches(&["origin"]);
    let my_local_commit = id("9a930c3b7335");
    world.commit(&my_local_commit, &[&id(MESSAGE)]);
    world.local("my_local_commit", &my_local_commit);
    // The local bookmark has gone ahead of the remote one.
    world.local("origin", &my_local_commit);
    let new_commit = id("71927577657d8120d65de471bbcca97a74938ca3");
    world.commit(&new_commit, &[&id(MESSAGE)]);
    world.moves("origin", "origin", &new_commit);
    world.merged_already = true;

    let outcome = world.sync(&no_args());
    assert_eq!(outcome.error, None);
    assert_eq!(
        outcome.status(),
        vec![
            "Rebasing local commits from origin@origin \
             (ab8b299ea0750e860dc209afef721490f05818b9 -> \
             71927577657d8120d65de471bbcca97a74938ca3)",
            "  Rebasing 1 commits",
            "Synced and rebased 0 commits (1 already merged) across 1 bookmark updates.",
        ]
    );
    assert_eq!(outcome.rebases, vec![(vec![my_local_commit], new_commit)]);
}

#[test]
fn test_git_sync_multiple_bookmarks_same_commit() {
    let mut world = World::with_remote_branches(&["origin"]);
    world.fetched("feature1", "origin", &id(MESSAGE));
    world.fetched("feature2", "origin", &id(MESSAGE));
    world.local("feature1", &id(MESSAGE));
    world.local("feature2", &id(MESSAGE));
    world.local("local-only", &id(MESSAGE));
    let local1 = id("0a01");
    let local2 = id("0a02");
    world.commit(&local1, &[&id(MESSAGE)]);
    world.commit(&local2, &[&local1]);
    world.local("local1", &local1);
    world.local("local2", &local2);
    // Only the one branch moves on the remote.
    let updated = id("d3aed15db130a4355f66338021e7fba26e4ed3e0");
    world.commit(&updated, &[&id(MESSAGE)]);
    world.moves("feature1", "origin", &updated);
    world.merged_already = true;

    let outcome = world.sync(&no_args());
    assert_eq!(outcome.error, None);
    assert_eq!(
        outcome.status(),
        vec![
            "Rebasing local commits from feature1@origin \
             (ab8b299ea0750e860dc209afef721490f05818b9 -> \
             d3aed15db130a4355f66338021e7fba26e4ed3e0)",
            "  Rebasing 2 commits",
            "Synced and rebased 0 commits (2 already merged) across 1 bookmark updates.",
        ]
    );
    assert_eq!(outcome.rebases, vec![(vec![local2, local1], updated)]);
}

#[test]
fn test_git_sync_hidden_commit_scenario() {
    let mut world = World::with_remote_branches(&["origin"]);
    let local1 = id("0b01");
    let local2 = id("0b02");
    world.commit(&local1, &[&id(MESSAGE)]);
    world.commit(&local2, &[&local1]);
    // An earlier fetch has brought an intermediate commit, which the
    // remote then gave up for a replacement.
    let intermediate = id("0b03");
    world.commit(&intermediate, &[&id(MESSAGE)]);
    world.remote_before = vec![];
    world.remote_after = vec![];
    world.fetched("origin", "origin", &intermediate);
    world.local("origin", &intermediate);
    let replacement = id("0b04");
    world.commit(&replacement, &[&id(MESSAGE)]);
    world.moves("origin", "origin", &replacement);

    let outcome = world.sync(&no_args());
    assert_eq!(outcome.error, None);
    // What stood on the intermediate commit goes onto the replacement; the
    // local commits beside it are not touched.
    assert_eq!(outcome.rebases, vec![(vec![intermediate], replacement.clone())]);
    let index = world.index();
    assert!(index.is_ancestor(&id(MESSAGE), &local2));
    assert!(index.is_ancestor(&local1, &local2));
    assert!(index.has_id(&replacement));
}

#[test]
fn test_git_sync_bookmark_moves_without_local_commits() {
    let mut world = World::new(&["origin"]);
    let commit1 = id("0c01");
    let commit2 = id("0c02");
    let commit3 = id("0c03");
    let commit4 = id("0c04");
    let commit5 = id("0c05");
    world.commit(&commit1, &[&id(ROOT)]);
    world.commit(&commit2, &[&commit1]);
    world.commit(&commit3, &[&commit1]);
    world.commit(&commit4, &[&commit3]);
    world.commit(&commit5, &[&commit4]);
    world.fetched("master", "origin", &commit4);
    world.fetched("feature", "origin", &commit2);
    world.local("master", &commit4);
    world.local("feature", &commit2);
    world.moves("master", "origin", &commit5);

    let outcome = world.sync(&no_args());
    assert_eq!(outcome.error, None);
    assert!(outcome.status().iter().any(|line| line.contains("No local commits to rebase")));
    assert_eq!(
        outcome.status(),
        vec![
            "Rebasing local commits from master@origin \
             (0c04000000000000000000000000000000000000 -> \
             0c05000000000000000000000000000000000000)",
            "  No local commits to rebase for master@origin",
            "No local changes to sync.",
        ]
    );
    // Nothing is rebased, least of all onto the other branch.
    assert!(outcome.rebases.is_empty());
}

#[test]
fn test_git_sync_uses_remote_bookmark_position_as_base() {
    let mut world = World::with_remote_branches(&["origin"]);
    let local_commit_b = id("ee014b51477b");
    world.commit(&local_commit_b, &[&id(MESSAGE)]);
    world.local("local_commit_B", &local_commit_b);
    world.local("origin", &local_commit_b);
    let remote_commit_c = id("7cd09c7feec680f8ae6df7de7921e14dc1ef4078");
    world.commit(&remote_commit_c, &[&id(MESSAGE)]);
    world.moves("origin", "origin", &remote_commit_c);
    world.merged_already = true;

    let outcome = world.sync(&no_args());
    assert_eq!(outcome.error, None);
    // The base is where the remote bookmark stood, not the local one.
    assert_eq!(
        outcome.status(),
        vec![
            "Rebasing local commits from origin@origin \
             (ab8b299ea0750e860dc209afef721490f05818b9 -> \
             7cd09c7feec680f8ae6df7de7921e14dc1ef4078)",
            "  Rebasing 1 commits",
            "Synced and rebased 0 commits (1 already merged) across 1 bookmark updates.",
        ]
    );
    assert_eq!(outcome.rebases, vec![(vec![local_commit_b], remote_commit_c)]);
}

/// The history of the two tests below: `commit_B` on the first commit of
/// the remote, with the branch of the remote on it.
fn branch_on_commit_b() -> (World, CommitId) {
    let mut world = World::new(&["origin"]);
    world.commit(&id(MESSAGE), &[&id(ROOT)]);
    let commit_b = id("dc3fa4163d2307842d972fce030a993137c9dbaa");
    world.commit(&commit_b, &[&id(MESSAGE)]);
    world.fetched("origin", "origin", &commit_b);
    world.local("origin", &commit_b);
    (world, commit_b)
}

#[test]
fn test_git_sync_hidden_commit_fallback() {
    let (mut world, commit_b) = branch_on_commit_b();
    let local_d = id("33a7137f17ed");
    let local_e = id("ab0a99878e05");
    world.commit(&local_d, &[&commit_b]);
    world.commit(&local_e, &[&local_d]);
    world.local("local_D", &local_d);
    world.local("local_E", &local_e);
    // The remote goes back to its first commit and on to another.
    let commit_c = id("b3c1287f07cfdc050436f73ce9036a1503063193");
    world.commit(&commit_c, &[&id(MESSAGE)]);
    world.moves("origin", "origin", &commit_c);
    world.merged_already = true;

    let outcome = world.sync(&no_args());
    assert_eq!(outcome.error, None);
    assert_eq!(
        outcome.status(),
        vec![
            "Rebasing local commits from origin@origin \
             (dc3fa4163d2307842d972fce030a993137c9dbaa -> \
             b3c1287f07cfdc050436f73ce9036a1503063193)",
            "  Rebasing 3 commits",
            "Synced and rebased 0 commits (3 already merged) across 1 bookmark updates.",
        ]
    );
    assert_eq!(outcome.rebases, vec![(vec![local_e, local_d, commit_b], commit_c)]);
}

#[test]
fn test_git_sync_regression_local_bookmark_ahead() {
    let (mut world, commit_b) = branch_on_commit_b();
    let local_d = id("33a7137f17ed");
    let local_e = id("ab0a99878e05");
    let local_f = id("42b3e886780c");
    world.commit(&local_d, &[&commit_b]);
    world.commit(&local_e, &[&local_d]);
    world.commit(&local_f, &[&local_e]);
    world.local("local_D", &local_d);
    world.local("local_E", &local_e);
    world.local("local_F", &local_f);
    world.local("origin", &local_f);
    world.local("feature", &local_e);
    let commit_c = id("b32a45ebaf4e");
    let commit_g = id("f445739b06bbaee568eb9c8218c3e8318aa519b9");
    world.commit(&commit_c, &[&id(MESSAGE)]);
    world.commit(&commit_g, &[&commit_c]);
    world.moves("origin", "origin", &commit_g);
    world.merged_already = true;

    let outcome = world.sync(&no_args());
    assert_eq!(outcome.error, None);
    assert_eq!(
        outcome.status(),
        vec![
            "Rebasing local commits from origin@origin \
             (dc3fa4163d2307842d972fce030a993137c9dbaa -> \
             f445739b06bbaee568eb9c8218c3e8318aa519b9)",
            "  Rebasing 4 commits",
            "Synced and rebased 0 commits (4 already merged) across 1 bookmark updates.",
        ]
    );
    assert_eq!(outcome.rebases, vec![(vec![local_f, local_e, local_d, commit_b], commit_g)]);
}
