use commit_index::command_error::CommandErrorKind;
use commit_index::commands::bookmark::{
    cmd_bookmark, cmd_bookmark_track, conflicted_bookmarks, find_bookmarks_with,
    find_local_bookmarks, find_remote_bookmarks, is_fast_forward_counted, is_fast_forward, BookmarkCommand, BookmarkHandler, BookmarkTrackArgs,
    RemoteBookmarkNamePattern,
};
use commit_index::ids::{ChangeId, CommitId};
use commit_index::index::mutable::ReadonlyIndex;
use commit_index::refs::{LocalBookmark, RefTarget, RemoteBookmark, RemoteRef, RemoteRefSymbol, RepoView};
use commit_index::str_pattern::StringPattern;

fn cid(n: u8) -> CommitId {
    CommitId::new(vec![n])
}

fn local(name: &str, n: u8) -> LocalBookmark {
    LocalBookmark { name: name.to_string(), target: RefTarget::normal(cid(n)) }
}

fn remote(name: &str, on: &str, n: u8, tracking: bool) -> RemoteBookmark {
    RemoteBookmark {
        name: name.to_string(),
        remote: on.to_string(),
        remote_ref: RemoteRef { target: RefTarget::normal(cid(n)), tracking },
    }
}

fn view() -> RepoView {
    RepoView {
        local_bookmarks: vec![local("feature-a", 1), local("feature-b", 2), local("main", 3)],
        remote_bookmarks: vec![
            remote("dev", "origin", 4, false),
            remote("main", "origin", 3, true),
            remote("main", "upstream", 5, false),
        ],
    }
}

fn exact(s: &str) -> StringPattern {
    StringPattern::Exact(s.to_string())
}

fn glob(s: &str) -> StringPattern {
    StringPattern::Glob(s.to_string())
}

fn at(bookmark: StringPattern, on: StringPattern) -> RemoteBookmarkNamePattern {
    RemoteBookmarkNamePattern { bookmark, remote: on }
}

fn names(found: &[&LocalBookmark]) -> Vec<String> {
    found.iter().map(|b| b.name.clone()).collect()
}

#[test]
fn test_cmd_bookmark_names_the_handler() {
    assert_eq!(cmd_bookmark(&BookmarkCommand::Create), BookmarkHandler::Create);
    assert_eq!(cmd_bookmark(&BookmarkCommand::SetTarget), BookmarkHandler::SetTarget);
    assert_eq!(cmd_bookmark(&BookmarkCommand::Untrack), BookmarkHandler::Untrack);
    assert_eq!(
        cmd_bookmark(&BookmarkCommand::Track(BookmarkTrackArgs { names: vec![] })),
        BookmarkHandler::Track
    );
}

#[test]
fn test_find_local_bookmarks_selects_in_order_and_once() {
    let view = view();
    let found = find_local_bookmarks(&view, &vec![glob("feature-*")]).unwrap();
    assert_eq!(names(&found), vec!["feature-a", "feature-b"]);
    // A bookmark that several patterns match comes once, and the order is
    // that of the names whatever the order of the patterns.
    let found =
        find_local_bookmarks(&view, &vec![exact("main"), glob("*a*"), exact("main")]).unwrap();
    assert_eq!(names(&found), vec!["feature-a", "feature-b", "main"]);
    let found = find_local_bookmarks(&view, &vec![]).unwrap();
    assert!(found.is_empty());
}

#[test]
fn test_find_bookmarks_with_sorts_and_drops_repeats() {
    // The list stands in no order and holds a name twice.
    let bookmarks = vec![local("b", 1), local("a", 2), local("c", 3), local("a", 4)];
    let found = find_bookmarks_with(&vec![glob("*")], &bookmarks).unwrap();
    assert_eq!(names(&found), vec!["a", "b", "c"]);
    // Of two bookmarks of a name the first is taken.
    assert_eq!(found[0].target.adds, vec![cid(2)]);
    // A pattern without a match fails the whole selection.
    assert!(find_bookmarks_with(&vec![exact("c"), exact("b"), glob("x*")], &bookmarks).is_err());
    let found = find_bookmarks_with(&vec![exact("c"), exact("b"), exact("c")], &bookmarks).unwrap();
    assert_eq!(names(&found), vec!["b", "c"]);
    let err = find_bookmarks_with(&vec![exact("d")], &bookmarks).unwrap_err();
    assert_eq!(err.message, "No such bookmark: d");
}

#[test]
fn test_find_local_bookmarks_reports_unmatched_patterns() {
    let view = view();
    let err = find_local_bookmarks(&view, &vec![exact("main"), exact("nope")]).unwrap_err();
    assert_eq!(err.kind, CommandErrorKind::User);
    assert_eq!(err.message, "No such bookmark: nope");
    let err = find_local_bookmarks(&view, &vec![glob("x*")]).unwrap_err();
    assert_eq!(err.message, "No matching bookmarks for patterns: x*");
    let err =
        find_local_bookmarks(&view, &vec![glob("x*"), exact("main"), exact("y")]).unwrap_err();
    assert_eq!(err.message, "No matching bookmarks for patterns: x*, y");
}

fn symbols(found: &[commit_index::commands::bookmark::FoundRemoteBookmark]) -> Vec<(String, bool)> {
    found
        .iter()
        .map(|f| (format!("{}@{}", f.symbol.name, f.symbol.remote), f.remote_ref.is_some()))
        .collect()
}

#[test]
fn test_find_remote_bookmarks_sorts_by_symbol() {
    let view = view();
    let remotes = vec!["origin".to_string(), "upstream".to_string()];
    let found =
        find_remote_bookmarks(&view, &vec![at(glob("*"), glob("*"))], &remotes).unwrap();
    assert_eq!(
        symbols(&found),
        vec![
            ("dev@origin".to_string(), true),
            ("main@origin".to_string(), true),
            ("main@upstream".to_string(), true)
        ]
    );
    let found = find_remote_bookmarks(
        &view,
        &vec![at(exact("main"), exact("upstream")), at(glob("*"), exact("origin"))],
        &remotes,
    )
    .unwrap();
    assert_eq!(
        symbols(&found),
        vec![
            ("dev@origin".to_string(), true),
            ("main@origin".to_string(), true),
            ("main@upstream".to_string(), true)
        ]
    );
}

#[test]
fn test_find_remote_bookmarks_offers_local_bookmarks_for_remotes_without_them() {
    let view = view();
    let remotes = vec!["origin".to_string(), "upstream".to_string()];
    // No remote has a bookmark named feature-a: the local one is offered
    // on each remote that the pattern matches.
    let found =
        find_remote_bookmarks(&view, &vec![at(glob("feature-*"), glob("*"))], &remotes).unwrap();
    assert_eq!(
        symbols(&found),
        vec![
            ("feature-a@origin".to_string(), false),
            ("feature-a@upstream".to_string(), false),
            ("feature-b@origin".to_string(), false),
            ("feature-b@upstream".to_string(), false)
        ]
    );
    // The pattern matches a local bookmark but no remote of that name.
    let err = find_remote_bookmarks(&view, &vec![at(exact("feature-a"), exact("fork"))], &remotes)
        .unwrap_err();
    assert_eq!(err.message, "No such remote bookmark: feature-a@fork");
    let err = find_remote_bookmarks(
        &view,
        &vec![at(glob("zz*"), glob("*")), at(exact("main"), exact("origin")), at(exact("q"), exact("r"))],
        &remotes,
    )
    .unwrap_err();
    assert_eq!(err.message, "No matching remote bookmarks for patterns: zz*@*, q@r");
}

#[test]
fn test_cmd_bookmark_track_plan() {
    let view = view();
    let remotes = vec!["origin".to_string(), "upstream".to_string()];
    let args = BookmarkTrackArgs { names: vec![at(glob("*"), glob("*"))] };
    let plan = cmd_bookmark_track(&view, &args, &remotes).unwrap();
    assert_eq!(plan.warnings, vec!["Remote bookmark already tracked: main@origin"]);
    let followed: Vec<String> =
        plan.symbols.iter().map(|s| format!("{}@{}", s.name, s.remote)).collect();
    assert_eq!(followed, vec!["dev@origin", "main@upstream"]);
    assert_eq!(plan.status.as_deref(), Some("Started tracking 2 remote bookmarks."));
    assert_eq!(plan.tx_description, "track remote bookmark dev@origin, main@upstream");

    // Nothing is left to track: no status line, and the description names
    // nothing.
    let args = BookmarkTrackArgs { names: vec![at(exact("main"), exact("origin"))] };
    let plan = cmd_bookmark_track(&view, &args, &remotes).unwrap();
    assert_eq!(plan.warnings, vec!["Remote bookmark already tracked: main@origin"]);
    assert!(plan.symbols.is_empty());
    assert_eq!(plan.status, None);
    assert_eq!(plan.tx_description, "track remote bookmark ");

    let args = BookmarkTrackArgs { names: vec![at(exact("gone"), exact("origin"))] };
    let err = cmd_bookmark_track(&view, &args, &remotes).unwrap_err();
    assert_eq!(err.message, "No such remote bookmark: gone@origin");
}

#[test]
fn test_conflicted_bookmarks_after_tracking() {
    let mut view = view();
    // Tracking main@upstream left the local bookmark in conflict.
    view.local_bookmarks[2].target = RefTarget::from_legacy_form(vec![cid(1)], vec![cid(3), cid(5)]);
    let followed = vec![RemoteRefSymbol { name: "main".to_string(), remote: "upstream".to_string() }];
    let shown = conflicted_bookmarks(&view, &followed);
    assert_eq!(shown.len(), 1);
    assert_eq!(shown[0].local.name, "main");
    let remotes: Vec<&str> = shown[0].remotes.iter().map(|r| r.remote.as_str()).collect();
    assert_eq!(remotes, vec!["upstream"]);
    // A bookmark without a conflict is not shown.
    let other = vec![RemoteRefSymbol { name: "feature-a".to_string(), remote: "origin".to_string() }];
    assert!(conflicted_bookmarks(&view, &other).is_empty());
}

#[test]
fn test_is_fast_forward() {
    // root - a - b
    //          \ c
    let index = ReadonlyIndex::new(cid(0), ChangeId::new(vec![0]));
    let mut tx = index.start_transaction();
    tx.add_commit(cid(1), ChangeId::new(vec![1]), &vec![cid(0)]);
    tx.add_commit(cid(2), ChangeId::new(vec![2]), &vec![cid(1)]);
    tx.add_commit(cid(3), ChangeId::new(vec![3]), &vec![cid(1)]);
    let index = tx.commit();
    assert!(is_fast_forward(&index, &RefTarget::absent(), &cid(2)));
    assert!(is_fast_forward(&index, &RefTarget::normal(cid(1)), &cid(2)));
    assert!(is_fast_forward(&index, &RefTarget::normal(cid(2)), &cid(2)));
    assert!(!is_fast_forward(&index, &RefTarget::normal(cid(2)), &cid(1)));
    assert!(!is_fast_forward(&index, &RefTarget::normal(cid(3)), &cid(2)));
    // A conflicted bookmark moves forward from any of its sides.
    let conflict = RefTarget::from_legacy_form(vec![cid(0)], vec![cid(3), cid(1)]);
    assert!(is_fast_forward(&index, &conflict, &cid(2)));
}

#[test]
fn test_view_check_wants_names_and_symbols_in_order() {
    assert!(view().check());
    assert!(RepoView { local_bookmarks: vec![], remote_bookmarks: vec![] }.check());
    let mut unsorted = view();
    unsorted.local_bookmarks.swap(0, 2);
    assert!(!unsorted.check());
    let mut repeated = view();
    repeated.local_bookmarks.push(local("main", 9));
    assert!(!repeated.check());
    // Remote bookmarks go by name first and by remote second.
    let mut remotes = view();
    remotes.remote_bookmarks.swap(1, 2);
    assert!(!remotes.check());
    let mut twice = view();
    twice.remote_bookmarks.push(remote("main", "upstream", 6, true));
    assert!(!twice.check());
}

#[test]
fn test_is_fast_forward_counted_walks_once_for_each_added_commit() {
    // root - 1 - 2 - 3, and 4 beside 2.
    let index = ReadonlyIndex::new(cid(0), ChangeId::new(vec![0]));
    let mut tx = index.start_transaction();
    tx.add_commit(cid(1), ChangeId::new(vec![1]), &vec![cid(0)]);
    tx.add_commit(cid(2), ChangeId::new(vec![2]), &vec![cid(1)]);
    tx.add_commit(cid(3), ChangeId::new(vec![3]), &vec![cid(2)]);
    tx.add_commit(cid(4), ChangeId::new(vec![4]), &vec![cid(1)]);
    let index = tx.commit();
    let edges: u64 = 4;

    let (forward, steps) = is_fast_forward_counted(&index, &RefTarget::normal(cid(1)), &cid(3));
    assert!(forward);
    assert!(steps <= 1 + edges);
    let (forward, steps) = is_fast_forward_counted(&index, &RefTarget::normal(cid(4)), &cid(3));
    assert!(!forward);
    assert!(steps <= 1 + edges);
    // A conflicted target is tried commit by commit.
    let conflicted = RefTarget::from_legacy_form(vec![cid(1)], vec![cid(4), cid(2)]);
    let (forward, steps) = is_fast_forward_counted(&index, &conflicted, &cid(3));
    assert!(forward);
    assert!(steps <= 2 * (1 + edges));
    assert_eq!(is_fast_forward_counted(&index, &RefTarget::absent(), &cid(3)), (true, 0));
}
