use commit_index::commands::git::{
    cmd_git, cmd_git_remote_add, get_single_remote, maybe_add_gitignore,
    resolve_remote_patterns, write_repository_level_trunk_alias, GitCommand, GitHandler,
    GitRemoteAddArgs, RemoteCommand, RemoteFetchTagsMode,
};
use commit_index::commands::sync::{
    cmd_git_sync, commits_to_rebase, plan_rebases, pre_fetch_candidates, pre_fetch_heads,
    CommitLookup, GitSyncArgs, MessageKind, PreFetchHead, RebaseOperation, SyncAction, SyncEvent,
    SyncState, SyncStep, SyncTotals,
};
use commit_index::ids::{ChangeId, CommitId};
use commit_index::index::mutable::ReadonlyIndex;
use commit_index::refs::{LocalBookmark, RefTarget, RemoteBookmark, RemoteRef, RemoteRefSymbol, RepoView};
use commit_index::str_pattern::StringPattern;

fn cid(n: u8) -> CommitId {
    CommitId::new(vec![n])
}

fn strings(items: &[&str]) -> Vec<String> {
    items.iter().map(|s| s.to_string()).collect()
}

#[test]
fn test_resolve_remote_patterns_sorts_and_removes_repeats() {
    let all = strings(&["upstream", "origin", "backup"]);
    let resolved = resolve_remote_patterns(
        &all,
        &vec![StringPattern::Glob("*".to_string()), StringPattern::Exact("origin".to_string())],
    );
    assert!(resolved.warnings.is_empty());
    assert_eq!(resolved.remotes.unwrap(), strings(&["backup", "origin", "upstream"]));

    let resolved = resolve_remote_patterns(
        &all,
        &vec![
            StringPattern::Exact("nope".to_string()),
            StringPattern::Exact("upstream".to_string()),
            StringPattern::Glob("b*".to_string()),
        ],
    );
    assert_eq!(resolved.warnings, vec!["No git remotes matching 'nope'"]);
    assert_eq!(resolved.remotes.unwrap(), strings(&["backup", "upstream"]));
}

#[test]
fn test_resolve_remote_patterns_without_a_match() {
    let all = strings(&["origin"]);
    let resolved = resolve_remote_patterns(
        &all,
        &vec![StringPattern::Exact("a".to_string()), StringPattern::Glob("b*".to_string())],
    );
    assert_eq!(
        resolved.warnings,
        vec!["No git remotes matching 'a'", "No git remotes matching 'b*'"]
    );
    assert_eq!(resolved.remotes.unwrap_err().message, "No git remotes to sync");
    let resolved = resolve_remote_patterns(&all, &vec![]);
    assert!(resolved.warnings.is_empty());
    assert_eq!(resolved.remotes.unwrap_err().message, "No git remotes to sync");
}

#[test]
fn test_small_git_decisions() {
    assert_eq!(get_single_remote(strings(&["origin"])), Some("origin".to_string()));
    assert_eq!(get_single_remote(strings(&[])), None);
    assert_eq!(get_single_remote(strings(&["a", "b"])), None);

    assert!(maybe_add_gitignore(false).is_none());
    let file = maybe_add_gitignore(true).unwrap();
    assert_eq!(file.path, strings(&[".jj", ".gitignore"]));
    assert_eq!(file.contents, "/*\n");

    assert_eq!(cmd_git(&GitCommand::Fetch), GitHandler::Fetch);
    assert_eq!(cmd_git(&GitCommand::Clone), GitHandler::Clone);
    let add = GitRemoteAddArgs {
        remote: "origin".to_string(),
        url: "../repo".to_string(),
        fetch_tags: RemoteFetchTagsMode::Included,
    };
    let planned = cmd_git_remote_add(&add, "/home/user/repo".to_string());
    assert_eq!(planned.name, "origin");
    assert_eq!(planned.url, "/home/user/repo");
    assert_eq!(planned.fetch_tags, RemoteFetchTagsMode::Included);
    assert_eq!(cmd_git(&GitCommand::Remote(RemoteCommand::Add(add))), GitHandler::Remote);

    let symbol = RemoteRefSymbol { name: "main".to_string(), remote: "origin".to_string() };
    let change = write_repository_level_trunk_alias(&symbol);
    assert_eq!(change.key, strings(&["revset-aliases", "trunk()"]));
    assert_eq!(change.value, "main@origin");
    assert_eq!(change.status, "Setting the revset alias `trunk()` to `main@origin`");
}

fn view(main_at_origin: u8, local_main: u8) -> RepoView {
    RepoView {
        local_bookmarks: vec![LocalBookmark {
            name: "main".to_string(),
            target: RefTarget::normal(cid(local_main)),
        }],
        remote_bookmarks: vec![
            RemoteBookmark {
                name: "main".to_string(),
                remote: "origin".to_string(),
                remote_ref: RemoteRef { target: RefTarget::normal(cid(main_at_origin)), tracking: true },
            },
            RemoteBookmark {
                name: "side".to_string(),
                remote: "origin".to_string(),
                remote_ref: RemoteRef { target: RefTarget::normal(cid(9)), tracking: false },
            },
        ],
    }
}

/// root(0) - a(1) - b(2)
///                \ c(3)
fn index() -> ReadonlyIndex {
    let index = ReadonlyIndex::new(cid(0), ChangeId::new(vec![0]));
    let mut tx = index.start_transaction();
    tx.add_commit(cid(1), ChangeId::new(vec![1]), &vec![cid(0)]);
    tx.add_commit(cid(2), ChangeId::new(vec![2]), &vec![cid(1)]);
    tx.add_commit(cid(3), ChangeId::new(vec![3]), &vec![cid(1)]);
    tx.commit()
}

fn args() -> GitSyncArgs {
    GitSyncArgs { remotes: vec![], bookmarks: vec![], all_remotes: false }
}

fn texts(step: &SyncStep) -> Vec<(MessageKind, String)> {
    step.messages.iter().map(|m| (m.kind, m.text.clone())).collect()
}

#[test]
fn test_git_sync_rebases_local_commits_onto_the_new_head() {
    let args = args();
    let index = index();
    let before = view(1, 2);
    let after = view(3, 2);

    let step = cmd_git_sync(&args, SyncState::Start, SyncEvent::Begin, &before, &index);
    assert!(step.messages.is_empty());
    assert!(matches!(step.action, SyncAction::ReadConfiguredRemotes));

    let step = cmd_git_sync(
        &args,
        step.state,
        SyncEvent::ConfiguredRemotes(vec![StringPattern::Exact("origin".to_string())]),
        &before,
        &index,
    );
    assert!(matches!(step.action, SyncAction::ListRemotes));

    let step = cmd_git_sync(
        &args,
        step.state,
        SyncEvent::RemoteNames(strings(&["upstream", "origin"])),
        &before,
        &index,
    );
    assert!(step.messages.is_empty());
    // Only the tracked bookmark is looked at.
    match &step.action {
        SyncAction::LookUpCommits(ids) => assert_eq!(ids, &vec![cid(1)]),
        other => panic!("unexpected {other:?}"),
    }

    let step = cmd_git_sync(
        &args,
        step.state,
        SyncEvent::Lookups(vec![CommitLookup::Found]),
        &before,
        &index,
    );
    match &step.action {
        SyncAction::Fetch { remotes, branches } => {
            assert_eq!(remotes, &strings(&["origin"]));
            assert_eq!(branches.len(), 1);
            assert!(branches[0].matches("anything"));
        }
        other => panic!("unexpected {other:?}"),
    }

    let step = cmd_git_sync(&args, step.state, SyncEvent::Fetched, &after, &index);
    assert_eq!(
        texts(&step),
        vec![
            (MessageKind::Status, "Rebasing local commits from main@origin (01 -> 03)".to_string()),
            (MessageKind::Status, "  Rebasing 1 commits".to_string()),
        ]
    );
    match &step.action {
        SyncAction::Rebase { commits, onto } => {
            assert_eq!(commits, &vec![cid(2)]);
            assert_eq!(onto, &cid(3));
        }
        other => panic!("unexpected {other:?}"),
    }

    let step = cmd_git_sync(&args, step.state, SyncEvent::Rebased(1), &after, &index);
    assert!(step.messages.is_empty());
    match &step.action {
        SyncAction::Finish { tx_description } => assert_eq!(
            tx_description,
            "git sync: fetched and rebased 1 commits across 1 bookmark updates from origin"
        ),
        other => panic!("unexpected {other:?}"),
    }

    let step = cmd_git_sync(&args, step.state, SyncEvent::Finished, &after, &index);
    assert_eq!(
        texts(&step),
        vec![(
            MessageKind::Status,
            "Synced and rebased 1 commits across 1 bookmark updates.".to_string()
        )]
    );
    assert!(matches!(step.action, SyncAction::Stop));
    assert!(matches!(step.state, SyncState::Done));
}

#[test]
fn test_git_sync_without_changes() {
    let mut args = args();
    args.all_remotes = true;
    let index = index();
    let view = view(1, 2);
    let step = cmd_git_sync(&args, SyncState::Start, SyncEvent::Begin, &view, &index);
    assert!(matches!(step.action, SyncAction::ListRemotes));
    let step =
        cmd_git_sync(&args, step.state, SyncEvent::RemoteNames(strings(&["origin"])), &view, &index);
    let step =
        cmd_git_sync(&args, step.state, SyncEvent::Lookups(vec![CommitLookup::Found]), &view, &index);
    // The remote bookmark has not moved.
    let step = cmd_git_sync(&args, step.state, SyncEvent::Fetched, &view, &index);
    assert!(step.messages.is_empty());
    match &step.action {
        SyncAction::Finish { tx_description } => {
            assert_eq!(tx_description, "git sync: fetched from origin (no local changes to rebase)")
        }
        other => panic!("unexpected {other:?}"),
    }
    let step = cmd_git_sync(&args, step.state, SyncEvent::Finished, &view, &index);
    assert_eq!(texts(&step), vec![(MessageKind::Status, "No local changes to sync.".to_string())]);
}

#[test]
fn test_git_sync_failures() {
    let mut args = args();
    args.remotes = vec![StringPattern::Exact("nope".to_string())];
    let index = index();
    let view = view(1, 2);
    let step = cmd_git_sync(&args, SyncState::Start, SyncEvent::Begin, &view, &index);
    assert!(matches!(step.action, SyncAction::ListRemotes));
    let step =
        cmd_git_sync(&args, step.state, SyncEvent::RemoteNames(strings(&["origin"])), &view, &index);
    assert_eq!(
        texts(&step),
        vec![(MessageKind::Warning, "No git remotes matching 'nope'".to_string())]
    );
    match step.action {
        SyncAction::Fail(error) => assert_eq!(error.message, "No git remotes to sync"),
        other => panic!("unexpected {other:?}"),
    }
    // An event that cannot follow the state.
    let step = cmd_git_sync(&args, SyncState::Start, SyncEvent::Fetched, &view, &index);
    match step.action {
        SyncAction::Fail(error) => assert_eq!(error.message, "Unexpected event during sync"),
        other => panic!("unexpected {other:?}"),
    }
}

#[test]
fn test_pre_fetch_heads_fall_back_to_the_local_target() {
    let view = view(7, 2);
    let candidates = pre_fetch_candidates(&view, &strings(&["origin"]));
    assert_eq!(candidates.len(), 1);
    assert_eq!(candidates[0].remote_target, cid(7));
    assert_eq!(candidates[0].local_target, Some(cid(2)));
    // The remote target is hidden after a forced push.
    let heads = pre_fetch_heads(&candidates, &vec![CommitLookup::NotFound]).unwrap();
    assert_eq!(heads.len(), 1);
    assert_eq!(heads[0].commit_id, cid(2));
    let heads = pre_fetch_heads(&candidates, &vec![CommitLookup::Found]).unwrap();
    assert_eq!(heads[0].commit_id, cid(7));
    let err =
        pre_fetch_heads(&candidates, &vec![CommitLookup::Failed("disk on fire".to_string())])
            .unwrap_err();
    assert_eq!(err.message, "disk on fire");
    assert!(pre_fetch_heads(&candidates, &vec![]).is_err());
}

#[test]
fn test_plan_rebases_filters_by_bookmark() {
    let heads = vec![PreFetchHead {
        symbol: RemoteRefSymbol { name: "main".to_string(), remote: "origin".to_string() },
        commit_id: cid(1),
    }];
    let after = view(3, 2);
    assert_eq!(plan_rebases(&heads, &after, &vec![]).len(), 1);
    assert_eq!(
        plan_rebases(&heads, &after, &vec![StringPattern::Glob("ma*".to_string())]).len(),
        1
    );
    assert!(plan_rebases(&heads, &after, &vec![StringPattern::Exact("dev".to_string())]).is_empty());
    // A bookmark that has not moved needs no rebase.
    assert!(plan_rebases(&heads, &view(1, 2), &vec![]).is_empty());
}

#[test]
fn test_commits_to_rebase_leaves_other_bookmarks_alone() {
    // root - a - b - d
    //          \ c
    let base = index();
    let mut tx = base.start_transaction();
    tx.add_commit(cid(4), ChangeId::new(vec![4]), &vec![cid(2)]);
    let index = tx.commit();
    let main = RemoteRefSymbol { name: "main".to_string(), remote: "origin".to_string() };
    let side = RemoteRefSymbol { name: "side".to_string(), remote: "origin".to_string() };
    let operation = RebaseOperation { symbol: main.clone(), old_head: cid(1), new_head: cid(3) };
    let only = vec![PreFetchHead { symbol: main.clone(), commit_id: cid(1) }];
    // The latest commit comes first.
    assert_eq!(commits_to_rebase(&index, &operation, &only), vec![cid(4), cid(2)]);
    // Commits on the old head of another bookmark stay where they are.
    let both = vec![
        PreFetchHead { symbol: main, commit_id: cid(1) },
        PreFetchHead { symbol: side, commit_id: cid(2) },
    ];
    assert!(commits_to_rebase(&index, &operation, &both).is_empty());
}

#[test]
fn test_sync_totals() {
    let totals = SyncTotals::new();
    let totals = totals.record_rebase(5, 3).unwrap();
    assert_eq!(totals.num_rebased_stacks, 1);
    assert_eq!(totals.total_rebased_commits, 3);
    assert_eq!(totals.total_abandoned_commits, 2);
    // More commits rewritten than planned cannot be accounted for.
    assert!(totals.record_rebase(1, 2).is_none());
    assert_eq!(
        commit_index::commands::sync::summarize_sync(&totals),
        "Synced and rebased 3 commits (2 already merged) across 1 bookmark updates."
    );
}
