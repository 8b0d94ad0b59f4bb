use commit_index::command_error::CommandErrorKind;
use commit_index::commands::bisect::{
    cmd_bisect_run, prepare_test, test_commit, BisectAction, BisectEvent, BisectionResult,
    CommandOutcome, TestResult,
};
use commit_index::commands::config::{
    cmd_review_managed, reconstruct, review_selected, ChangeType, ConfigReviewManagedArgs,
    ManagedConfigFiles, ReviewStep, Section, SectionChangedLine, SelectionOutcome,
};
use commit_index::commands::describe::{
    changed_commits, check_bulk_edit, cmd_describe, complete_newline, describe_revisions,
    join_message_paragraphs, report_described, wants_trailers, BulkEditFindings,
    CommitToDescribe, DescribeArgs, DescribeStart, Signature, Timestamp,
};
use commit_index::commands::bookmark::RemoteBookmarkNamePattern;
use commit_index::fake_bisector::{parse_instruction, plan_bisector_run, BisectorAction, BisectorStep};
use commit_index::ids::{ChangeId, CommitId};
use commit_index::index::recovery::{ObjectStore, StoredCommit};
use commit_index::revset::NamedCommit;
use commit_index::str_pattern::StringPattern;
use commit_index::index::error::IndexError;
use commit_index::index::mutable::ReadonlyIndex;
use commit_index::index::revset::{GenerationRange, ParentsRange};
use commit_index::refs::{LocalBookmark, RefTarget, RepoView};
use commit_index::revset::{
    default_symbol_resolver, parse_immutable_heads_expression, warn_unresolvable_trunk,
    RevsetExpression, RevsetExpressionEvaluator, RevsetResolutionError,
    UserRevsetEvaluationError,
};
use commit_index::revset_util::{
    evaluate_revset_to_single_commit, format_multiple_revisions_error, load_revset_aliases,
    parse_bookmark_name,
    warn_user_redefined_builtin, AliasEntry, AliasTable, AliasValue, ConfigLayer, ConfigSource,
    EvaluatedCommit,
};

fn cid(n: u8) -> CommitId {
    CommitId::new(vec![n])
}

fn strings(items: &[&str]) -> Vec<String> {
    items.iter().map(|s| s.to_string()).collect()
}

// Bisection

#[test]
fn test_test_commit_reads_the_exit_code() {
    let exited = |success, code| CommandOutcome::Exited { success, code };
    assert_eq!(test_commit(exited(true, Some(0))).unwrap(), TestResult::Good);
    assert_eq!(test_commit(exited(false, Some(1))).unwrap(), TestResult::Bad);
    assert_eq!(test_commit(exited(false, Some(126))).unwrap(), TestResult::Bad);
    assert_eq!(test_commit(exited(false, Some(125))).unwrap(), TestResult::Skip);
    // A signal ended the command.
    assert_eq!(test_commit(exited(false, None)).unwrap(), TestResult::Bad);
    let err = test_commit(exited(false, Some(127))).unwrap_err();
    assert_eq!(err.kind, CommandErrorKind::User);
    assert_eq!(
        err.message,
        "Test command returned 127 (command not found) - aborting bisection."
    );
    let err = test_commit(CommandOutcome::SpawnFailed("no such file".to_string())).unwrap_err();
    assert_eq!(err.message, "Failed to run test command");
    assert_eq!(err.hints, strings(&["no such file"]));
}

#[test]
fn test_bisect_run_steps() {
    let setup = prepare_test(&cid(0xab));
    assert_eq!(setup.tx_description, "Checked out commit ab for bisection");
    assert_eq!(setup.variable, "JJ_BISECT_TARGET");
    assert_eq!(setup.value, "ab");

    let step = cmd_bisect_run(
        None,
        BisectEvent::NextTest { commit_id: cid(0xab), summary: "ab fix the bug".to_string() },
    );
    assert_eq!(step.status, strings(&["Now testing: ab fix the bug"]));
    assert!(step.output.is_empty());
    assert!(matches!(&step.action, BisectAction::RunTest { commit_id, .. } if *commit_id == cid(0xab)));

    let step = cmd_bisect_run(
        step.testing,
        BisectEvent::TestEnded(CommandOutcome::Exited { success: false, code: Some(125) }),
    );
    assert_eq!(
        step.status,
        strings(&["It could not be determine if the commit is good or bad.", ""])
    );
    assert!(matches!(
        &step.action,
        BisectAction::Mark { commit_id, result: TestResult::Skip } if *commit_id == cid(0xab)
    ));
    assert!(step.testing.is_none());

    let step = cmd_bisect_run(
        Some(cid(1)),
        BisectEvent::TestEnded(CommandOutcome::Exited { success: true, code: Some(0) }),
    );
    assert_eq!(step.status, strings(&["The commit is good.", ""]));
    let step = cmd_bisect_run(
        Some(cid(1)),
        BisectEvent::TestEnded(CommandOutcome::Exited { success: false, code: Some(2) }),
    );
    assert_eq!(step.status, strings(&["The commit is bad.", ""]));

    let step = cmd_bisect_run(None, BisectEvent::Finished(BisectionResult::Found(strings(&["c1 one"]))));
    assert_eq!(step.output, strings(&["The first bad commit is: c1 one"]));
    assert!(matches!(step.action, BisectAction::Stop));
    let step = cmd_bisect_run(
        None,
        BisectEvent::Finished(BisectionResult::Found(strings(&["c1 one", "c2 two"]))),
    );
    assert_eq!(step.output, strings(&["The first bad commits are:", "c1 one", "c2 two"]));
    let step = cmd_bisect_run(None, BisectEvent::Finished(BisectionResult::Indeterminate));
    match step.action {
        BisectAction::Fail(error) => assert_eq!(
            error.message,
            "Could not find the first bad commit. Was the input range empty?"
        ),
        other => panic!("unexpected {other:?}"),
    }
    // A test cannot end where none was started.
    let step = cmd_bisect_run(
        None,
        BisectEvent::TestEnded(CommandOutcome::Exited { success: true, code: Some(0) }),
    );
    assert!(matches!(step.action, BisectAction::Fail(_)));
}

// Review of the managed configuration

fn changed(is_checked: bool, change_type: ChangeType, line: &str) -> SectionChangedLine {
    SectionChangedLine { is_checked, change_type, line: line.to_string() }
}

#[test]
fn test_reconstruct_keeps_what_the_picks_describe() {
    let sections = vec![
        Section::Unchanged { lines: strings(&["a = 1\n", "b = 2\n"]) },
        Section::Changed {
            lines: vec![
                changed(true, ChangeType::Removed, "c = 3\n"),
                changed(true, ChangeType::Added, "c = 4\n"),
                changed(false, ChangeType::Removed, "d = 5\n"),
                changed(false, ChangeType::Added, "d = 6\n"),
            ],
        },
        Section::Other,
        Section::Unchanged { lines: strings(&["e = 7"]) },
    ];
    assert_eq!(reconstruct(&sections), "a = 1\nb = 2\nc = 4\nd = 5\ne = 7");
    assert_eq!(reconstruct(&vec![]), "");
}

#[test]
fn test_review_managed_decisions() {
    let trusting = ConfigReviewManagedArgs { trust: true };
    let careful = ConfigReviewManagedArgs { trust: false };
    let files = |managed: &str, config: &str| {
        Some(ManagedConfigFiles { managed: managed.to_string(), config: config.to_string() })
    };

    let err = cmd_review_managed(&careful, None).unwrap_err();
    assert_eq!(err.message, "Unable to detect location of config files. Are you in a repo?");

    match cmd_review_managed(&careful, files("", "x = 1\n")).unwrap() {
        ReviewStep::RemoveLocalCopy { status } => assert_eq!(
            status,
            "The config file has been removed from the VCS, so we have removed the local copy too."
        ),
        other => panic!("unexpected {other:?}"),
    }
    match cmd_review_managed(&trusting, files("x = 1\n", "x = 1\n")).unwrap() {
        ReviewStep::UpToDate { status } => assert_eq!(status, "Your config file is already up to date"),
        other => panic!("unexpected {other:?}"),
    }
    match cmd_review_managed(&trusting, files("x = 2\n", "x = 1\n")).unwrap() {
        ReviewStep::Write { config, last_reviewed, status } => {
            assert_eq!(config, "x = 2\n");
            assert_eq!(last_reviewed, "x = 2\n");
            assert_eq!(status, "Updated repo config file");
        }
        other => panic!("unexpected {other:?}"),
    }
    match cmd_review_managed(&careful, files("x = 2\n", "x = 1\n")).unwrap() {
        ReviewStep::SelectChanges { old, new } => {
            assert_eq!(old, "x = 1\n");
            assert_eq!(new, "x = 2\n");
        }
        other => panic!("unexpected {other:?}"),
    }

    let picked = SelectionOutcome::Selected(vec![Section::Changed {
        lines: vec![
            changed(false, ChangeType::Removed, "x = 1\n"),
            changed(false, ChangeType::Added, "x = 2\n"),
        ],
    }]);
    match review_selected(picked, "x = 2\n".to_string()).unwrap() {
        ReviewStep::Write { config, last_reviewed, .. } => {
            // Nothing was picked: the copy in use stays, the review is recorded.
            assert_eq!(config, "x = 1\n");
            assert_eq!(last_reviewed, "x = 2\n");
        }
        other => panic!("unexpected {other:?}"),
    }
    let err = review_selected(SelectionOutcome::SelectionFailed, String::new()).unwrap_err();
    assert_eq!((err.kind, err.message.as_str()), (CommandErrorKind::User, "Failed to select changes"));
    let err = review_selected(SelectionOutcome::DiffFailed, String::new()).unwrap_err();
    assert_eq!(
        (err.kind, err.message.as_str()),
        (CommandErrorKind::Internal, "Failed to create diff sections")
    );
}

// Describing commits

fn describe_args() -> DescribeArgs {
    DescribeArgs {
        revisions_pos: vec![],
        revisions_opt: vec![],
        message_paragraphs: vec![],
        stdin: false,
        no_edit: false,
        edit: false,
        reset_author: false,
        author: None,
    }
}

fn signature(name: &str, millis: i64) -> Signature {
    Signature {
        name: name.to_string(),
        email: format!("{name}@example.com"),
        timestamp: Timestamp { millis_since_epoch: millis, tz_offset_minutes: 60 },
    }
}

fn commit(n: u8, description: &str) -> CommitToDescribe {
    CommitToDescribe { id: cid(n), description: description.to_string(), author: signature("ann", 100) }
}

#[test]
fn test_describe_revisions_and_paragraphs() {
    let mut args = describe_args();
    assert_eq!(describe_revisions(&args), strings(&["@"]));
    args.revisions_opt = strings(&["c"]);
    args.revisions_pos = strings(&["a", "b"]);
    assert_eq!(describe_revisions(&args), strings(&["a", "b", "c"]));

    assert_eq!(complete_newline(&"".to_string()), "");
    assert_eq!(complete_newline(&"x".to_string()), "x\n");
    assert_eq!(complete_newline(&"x\n".to_string()), "x\n");
    assert_eq!(join_message_paragraphs(&strings(&["title", "body\n", ""])), "title\n\nbody\n\n");
    assert_eq!(join_message_paragraphs(&strings(&["one"])), "one\n");
}

#[test]
fn test_cmd_describe_drafts() {
    let committer = signature("bob", 999);
    let mut args = describe_args();
    match cmd_describe(&args, &vec![], &String::new(), &committer) {
        DescribeStart::NoRevisions { status } => assert_eq!(status, "No revisions to describe."),
        other => panic!("unexpected {other:?}"),
    }

    let commits = vec![commit(0x1a, "first\n"), commit(0x2b, ""), commit(0x3c, "third\n")];
    match cmd_describe(&args, &commits[..1].iter().map(|c| commit(c.id.bytes[0], &c.description)).collect(), &String::new(), &committer) {
        DescribeStart::Describe { tx_description, drafts, use_editor } => {
            assert_eq!(tx_description, "describe commit 1a");
            assert_eq!(drafts.len(), 1);
            // Without a description given, each commit keeps its own and
            // the editor is opened.
            assert_eq!(drafts[0].description, "first\n");
            assert_eq!(drafts[0].author.name, "ann");
            assert_eq!(drafts[0].committer.name, "bob");
            assert!(use_editor);
        }
        other => panic!("unexpected {other:?}"),
    }

    args.message_paragraphs = strings(&["new title", "new body"]);
    args.author = Some(("cat".to_string(), "cat@example.org".to_string()));
    match cmd_describe(&args, &commits, &"ignored".to_string(), &committer) {
        DescribeStart::Describe { tx_description, drafts, use_editor } => {
            assert_eq!(tx_description, "describe commit 1a and 2 more");
            assert!(!use_editor);
            for draft in &drafts {
                assert_eq!(draft.description, "new title\n\nnew body\n");
                assert_eq!(draft.author.name, "cat");
                assert_eq!(draft.author.email, "cat@example.org");
                // The time of the author stays.
                assert_eq!(draft.author.timestamp.millis_since_epoch, 100);
            }
            let changed = changed_commits(&args, &commits, &drafts);
            assert_eq!(changed, vec![true, true, true]);
        }
        other => panic!("unexpected {other:?}"),
    }

    let mut args = describe_args();
    args.stdin = true;
    args.reset_author = true;
    args.edit = true;
    match cmd_describe(&args, &commits, &"from stdin".to_string(), &committer) {
        DescribeStart::Describe { drafts, use_editor, .. } => {
            assert!(use_editor);
            assert_eq!(drafts[1].description, "from stdin");
            assert_eq!(drafts[1].author.name, "bob");
            assert_eq!(drafts[1].author.timestamp.millis_since_epoch, 999);
        }
        other => panic!("unexpected {other:?}"),
    }

    let mut args = describe_args();
    args.no_edit = true;
    match cmd_describe(&args, &commits, &String::new(), &committer) {
        DescribeStart::Describe { drafts, use_editor, .. } => {
            assert!(!use_editor);
            // Nothing changes: no commit has to be rewritten.
            assert_eq!(changed_commits(&args, &commits, &drafts), vec![false, false, false]);
        }
        other => panic!("unexpected {other:?}"),
    }
}

#[test]
fn test_describe_small_decisions() {
    assert!(wants_trailers(true, &String::new()));
    assert!(wants_trailers(false, &"text".to_string()));
    assert!(!wants_trailers(false, &String::new()));

    let findings = |missing: &[&str], duplicates: &[&str], unexpected: &[&str]| BulkEditFindings {
        missing: strings(missing),
        duplicates: strings(duplicates),
        unexpected: strings(unexpected),
    };
    assert!(check_bulk_edit(&findings(&[], &[], &[])).is_ok());
    assert_eq!(
        check_bulk_edit(&findings(&["a1", "b2"], &["c3"], &[])).unwrap_err().message,
        "The description for the following commits were not found in the edited message: a1, b2"
    );
    assert_eq!(
        check_bulk_edit(&findings(&[], &["c3"], &["d4"])).unwrap_err().message,
        "The following commits were found in the edited message multiple times: c3"
    );
    assert_eq!(
        check_bulk_edit(&findings(&[], &[], &["d4", "e5"])).unwrap_err().message,
        "The following commits were not being edited, but were found in the edited message: d4, e5"
    );

    assert!(report_described(1, 0).is_empty());
    assert_eq!(report_described(3, 0), strings(&["Updated 3 commits"]));
    assert_eq!(report_described(1, 12), strings(&["Rebased 12 descendant commits"]));
    assert_eq!(
        report_described(2, 1),
        strings(&["Updated 2 commits", "Rebased 1 descendant commits"])
    );
}

// Helpers around revsets

#[test]
fn test_warn_user_redefined_builtin() {
    assert_eq!(warn_user_redefined_builtin(ConfigSource::Default, "mutable()"), None);
    assert_eq!(warn_user_redefined_builtin(ConfigSource::User, "trunk()"), None);
    assert_eq!(
        warn_user_redefined_builtin(ConfigSource::User, "immutable()").unwrap(),
        "Redefining `revset-aliases.immutable()` is not recommended; redefine `immutable_heads()` instead"
    );
    assert!(warn_user_redefined_builtin(ConfigSource::Repo, "mutable()").is_some());
    assert!(warn_user_redefined_builtin(ConfigSource::CommandArg, "builtin_immutable_heads()").is_some());
}

fn text_entry(declaration: &str, value: &str, rejected: Option<&str>) -> AliasEntry {
    AliasEntry {
        declaration: declaration.to_string(),
        value: AliasValue::Text { value: value.to_string(), rejected: rejected.map(str::to_string) },
    }
}

#[test]
fn test_load_revset_aliases() {
    let layers = vec![
        ConfigLayer {
            source: ConfigSource::Default,
            path: None,
            aliases: AliasTable::Entries(vec![text_entry("mutable()", "~immutable()", None)]),
        },
        ConfigLayer { source: ConfigSource::EnvBase, path: None, aliases: AliasTable::Missing },
        ConfigLayer {
            source: ConfigSource::User,
            path: Some("/home/u/config.toml".to_string()),
            aliases: AliasTable::Entries(vec![
                text_entry("mutable()", "all()", None),
                text_entry("f(", "x", Some("Syntax error")),
                AliasEntry {
                    declaration: "n".to_string(),
                    value: AliasValue::Other { kind_name: "integer".to_string() },
                },
            ]),
        },
    ];
    let loaded = load_revset_aliases(&layers).unwrap();
    let aliases: Vec<(&str, &str)> =
        loaded.aliases.iter().map(|a| (a.declaration.as_str(), a.definition.as_str())).collect();
    assert_eq!(aliases, vec![("mutable()", "~immutable()"), ("mutable()", "all()")]);
    assert_eq!(
        loaded.warnings,
        strings(&[
            "Redefining `revset-aliases.mutable()` is not recommended; redefine `immutable_heads()` instead",
            "Failed to load `revset-aliases.f(`: Syntax error",
            "Failed to load `revset-aliases.n`: Expected a string, but is integer",
        ])
    );

    let mut broken = layers;
    broken.insert(
        1,
        ConfigLayer {
            source: ConfigSource::Repo,
            path: Some("repo.toml".to_string()),
            aliases: AliasTable::NotATable { kind_name: "string".to_string() },
        },
    );
    let err = load_revset_aliases(&broken).unwrap_err();
    assert_eq!(err.hints, strings(&["Expected a table, but is string", "repo.toml"]));
}

fn evaluated(n: u8, summary: &str) -> EvaluatedCommit {
    EvaluatedCommit::Commit { id: cid(n), summary: summary.to_string() }
}

#[test]
fn test_evaluate_revset_to_single_commit() {
    assert_eq!(evaluate_revset_to_single_commit("x", &vec![evaluated(1, "one")]).unwrap(), cid(1));
    let err = evaluate_revset_to_single_commit("none()", &vec![]).unwrap_err();
    assert_eq!(err.message, "Revset `none()` didn't resolve to any revisions");

    let err = evaluate_revset_to_single_commit("a|b", &vec![evaluated(1, "one"), evaluated(2, "two")])
        .unwrap_err();
    assert_eq!(err.message, "Revset `a|b` resolved to more than one revision");
    assert_eq!(
        err.hints,
        strings(&["The revset `a|b` resolved to these revisions:\n  one\n  two\n"])
    );

    // Five commits are listed, and dots stand for the rest.
    let many: Vec<EvaluatedCommit> = (1..=6).map(|n| evaluated(n, &format!("c{n}"))).collect();
    let err = evaluate_revset_to_single_commit("all()", &many).unwrap_err();
    assert_eq!(
        err.hints,
        strings(&["The revset `all()` resolved to these revisions:\n  c1\n  c2\n  c3\n  c4\n  c5\n  ...\n"])
    );
    let five: Vec<EvaluatedCommit> = (1..=5).map(|n| evaluated(n, &format!("c{n}"))).collect();
    let err = evaluate_revset_to_single_commit("all()", &five).unwrap_err();
    assert!(!err.hints[0].contains("..."));

    // A failed evaluation is the error.
    let err = evaluate_revset_to_single_commit(
        "x",
        &vec![evaluated(1, "one"), EvaluatedCommit::Failed("store broke".to_string())],
    )
    .unwrap_err();
    assert_eq!(err.message, "store broke");
    let err = format_multiple_revisions_error("r", &strings(&["p", "q"]), true);
    assert_eq!(err.hints, strings(&["The revset `r` resolved to these revisions:\n  p\n  q\n  ...\n"]));
}

// Revset expressions

fn change(hex_byte: u8) -> ChangeId {
    ChangeId::new(vec![hex_byte, hex_byte])
}

/// root(0) - a(1) - b(2)
///                \ c(3)
fn index() -> ReadonlyIndex {
    let index = ReadonlyIndex::new(cid(0), change(0x00));
    let mut tx = index.start_transaction();
    tx.add_commit(cid(1), change(0xa1), &vec![cid(0)]);
    tx.add_commit(cid(2), change(0xa2), &vec![cid(1)]);
    tx.add_commit(cid(3), change(0xb3), &vec![cid(1)]);
    tx.commit()
}

fn symbol(name: &str) -> RevsetExpression {
    RevsetExpression::Symbol(name.to_string())
}

fn ancestors(heads: RevsetExpression) -> RevsetExpression {
    RevsetExpression::Range {
        roots: Box::new(RevsetExpression::Nothing),
        heads: Box::new(heads),
        generation: GenerationRange::full(),
        parents_range: ParentsRange::full(),
    }
}

#[test]
fn test_revset_expression_evaluator() {
    let index = index();
    let view = RepoView {
        local_bookmarks: vec![LocalBookmark { name: "main".to_string(), target: RefTarget::normal(cid(2)) }],
        remote_bookmarks: vec![],
    };
    let change_ids = index.change_id_index(&vec![cid(2), cid(3)]);
    let evaluate = |expression: RevsetExpression| {
        RevsetExpressionEvaluator::new(&index, default_symbol_resolver(&view, &change_ids), expression)
            .evaluate_to_commit_ids()
    };

    // A bookmark, and its history, the latest commit first.
    assert_eq!(evaluate(symbol("main")).unwrap(), vec![cid(2)]);
    assert_eq!(evaluate(ancestors(symbol("main"))).unwrap(), vec![cid(2), cid(1), cid(0)]);
    // A prefix of a change id.
    assert_eq!(evaluate(symbol("b")).unwrap(), vec![cid(3)]);
    assert_eq!(evaluate(symbol("a1")).unwrap(), vec![cid(1)]);
    assert!(matches!(
        evaluate(symbol("a")),
        Err(UserRevsetEvaluationError::Resolution(RevsetResolutionError::AmbiguousIdPrefix(name))) if name == "a"
    ));
    assert!(matches!(
        evaluate(symbol("nope")),
        Err(UserRevsetEvaluationError::Resolution(RevsetResolutionError::NoSuchRevision(name))) if name == "nope"
    ));
    // Union and intersection.
    let both = RevsetExpression::Union(Box::new(symbol("main")), Box::new(symbol("b3")));
    assert_eq!(evaluate(both).unwrap(), vec![cid(3), cid(2)]);
    let common = RevsetExpression::Intersection(
        Box::new(ancestors(symbol("main"))),
        Box::new(ancestors(symbol("b3"))),
    );
    assert_eq!(evaluate(common).unwrap(), vec![cid(1), cid(0)]);
    // What is neither in the history of one nor of the other.
    let since = RevsetExpression::Range {
        roots: Box::new(symbol("b3")),
        heads: Box::new(symbol("main")),
        generation: GenerationRange::full(),
        parents_range: ParentsRange::full(),
    };
    assert_eq!(evaluate(since).unwrap(), vec![cid(2)]);
    // The index reports commits it does not hold.
    assert!(matches!(
        evaluate(RevsetExpression::Commits(vec![cid(9)])),
        Err(UserRevsetEvaluationError::Evaluation(IndexError::NotFound(id))) if id == cid(9)
    ));
    assert_eq!(evaluate(RevsetExpression::Root).unwrap(), vec![cid(0)]);
    assert!(evaluate(RevsetExpression::Nothing).unwrap().is_empty());

    let mut evaluator = RevsetExpressionEvaluator::new(
        &index,
        default_symbol_resolver(&view, &change_ids),
        ancestors(symbol("main")),
    );
    evaluator.intersect_with(RevsetExpression::Commits(vec![cid(1), cid(3)]));
    assert!(matches!(evaluator.expression(), RevsetExpression::Intersection(_, _)));
    assert_eq!(evaluator.evaluate().unwrap(), vec![cid(1)]);
}

#[test]
fn test_immutable_heads_and_the_trunk() {
    let index = index();
    let view = RepoView { local_bookmarks: vec![], remote_bookmarks: vec![] };
    let change_ids = index.change_id_index(&vec![cid(2)]);
    let resolver = default_symbol_resolver(&view, &change_ids);

    let heads = parse_immutable_heads_expression(symbol("a1"));
    let evaluator = RevsetExpressionEvaluator::new(&index, default_symbol_resolver(&view, &change_ids), heads);
    // The root is always among the immutable heads.
    assert_eq!(evaluator.evaluate().unwrap(), vec![cid(1), cid(0)]);

    assert!(warn_unresolvable_trunk(&resolver, &symbol("a2")).is_none());
    let warning = warn_unresolvable_trunk(&resolver, &symbol("main")).unwrap();
    assert_eq!(
        warning.warning,
        "Failed to resolve `revset-aliases.trunk()`: Revision `main` doesn't exist"
    );
    assert_eq!(warning.hint, "Use `jj config edit --repo` to adjust the `trunk()` alias.");
    // The commit with the change b3 is not in the history of the heads.
    let warning = warn_unresolvable_trunk(&resolver, &symbol("b3")).unwrap();
    assert_eq!(
        warning.warning,
        "Failed to resolve `revset-aliases.trunk()`: Revision `b3` doesn't exist"
    );
}

// The stand-in for a test command

#[test]
fn test_fake_bisector_script() {
    assert!(matches!(parse_instruction(""), BisectorStep::Nothing));
    assert!(matches!(parse_instruction("\npayload"), BisectorStep::Nothing));
    assert!(matches!(parse_instruction("fail"), BisectorStep::Fail));
    assert!(matches!(parse_instruction("fail\nignored"), BisectorStep::Fail));
    assert!(matches!(
        parse_instruction("fail-if-target-is abc123"),
        BisectorStep::FailIfTargetIs(target) if target == "abc123"
    ));
    assert!(matches!(
        parse_instruction("fail-if-target-is "),
        BisectorStep::FailIfTargetIs(target) if target.is_empty()
    ));
    assert!(matches!(
        parse_instruction("write out.txt\nline 1\nline 2\n"),
        BisectorStep::Write { path, payload } if path == "out.txt" && payload == "line 1\nline 2\n"
    ));
    assert!(matches!(
        parse_instruction("write out.txt"),
        BisectorStep::Write { path, payload } if path == "out.txt" && payload.is_empty()
    ));
    // Too many or too few words.
    assert!(matches!(
        parse_instruction("write a b\nx"),
        BisectorStep::Unexpected(command) if command == "write a b"
    ));
    assert!(matches!(parse_instruction("write"), BisectorStep::Unexpected(_)));
    assert!(matches!(parse_instruction("fail now"), BisectorStep::Unexpected(_)));
    assert!(matches!(parse_instruction("next invocation"), BisectorStep::Unexpected(_)));

    let script = strings(&[
        "write a.txt\nA",
        "fail-if-target-is bad",
        "write b.txt\nB",
        "next invocation\n",
        "fail",
    ]);
    let run = plan_bisector_run(&script, "good");
    assert_eq!(run.own, 3);
    assert!(run.rewrite);
    assert_eq!(run.actions.len(), 2);
    assert!(matches!(&run.actions[1], BisectorAction::WriteFile { path, payload } if path == "b.txt" && payload == "B"));
    // The bad commit fails the test before the second file is written.
    let run = plan_bisector_run(&script, "bad");
    assert_eq!(run.actions.len(), 2);
    assert!(matches!(&run.actions[0], BisectorAction::WriteFile { path, .. } if path == "a.txt"));
    assert!(matches!(&run.actions[1], BisectorAction::Exit { code: 1, message: None }));
    // The invocation after sees the rest of the script only.
    let run = plan_bisector_run(&script[4..].to_vec(), "good");
    assert_eq!(run.own, 1);
    assert!(!run.rewrite);
    assert!(matches!(&run.actions[0], BisectorAction::Exit { code: 1, message: None }));
    let run = plan_bisector_run(&strings(&["frobnicate now"]), "x");
    assert!(matches!(
        &run.actions[0],
        BisectorAction::Exit { code: 1, message: Some(m) } if m == "fake-bisector: unexpected command: frobnicate now"
    ));
}

#[test]
fn test_patterns_as_users_write_them() {
    assert!(matches!(StringPattern::parse("main").unwrap(), StringPattern::Exact(p) if p == "main"));
    assert!(matches!(StringPattern::parse("exact:a:b").unwrap(), StringPattern::Exact(p) if p == "a:b"));
    assert!(matches!(StringPattern::parse("glob:push-*").unwrap(), StringPattern::Glob(p) if p == "push-*"));
    assert!(matches!(StringPattern::parse("substring:").unwrap(), StringPattern::Substring(p) if p.is_empty()));
    assert_eq!(StringPattern::parse("regexp:x").unwrap_err(), "Invalid string pattern kind \"regexp:\"");

    let pattern = RemoteBookmarkNamePattern::parse("main@origin").unwrap();
    assert!(pattern.is_exact());
    assert_eq!(pattern.to_text(), "main@origin");
    let pattern = RemoteBookmarkNamePattern::parse("glob:jjfan-*@upstream").unwrap();
    assert!(matches!(&pattern.bookmark, StringPattern::Glob(p) if p == "jjfan-*"));
    assert!(matches!(&pattern.remote, StringPattern::Glob(p) if p == "upstream"));
    // The last `@` parts the name from the remote.
    let pattern = RemoteBookmarkNamePattern::parse("a@b@c").unwrap();
    assert!(matches!(&pattern.bookmark, StringPattern::Exact(p) if p == "a@b"));
    assert!(matches!(&pattern.remote, StringPattern::Exact(p) if p == "c"));
    assert_eq!(
        RemoteBookmarkNamePattern::parse("main").unwrap_err(),
        "remote bookmark must be specified in bookmark@remote form"
    );
    assert_eq!(
        RemoteBookmarkNamePattern::parse("nope:a@b").unwrap_err(),
        "Invalid string pattern kind \"nope:\""
    );
}

#[test]
fn test_evaluate_to_commits_reads_the_store() {
    let index = index();
    let view = RepoView { local_bookmarks: vec![], remote_bookmarks: vec![] };
    let change_ids = index.change_id_index(&vec![cid(2)]);
    let objects = ObjectStore {
        commits: vec![StoredCommit { id: cid(2), change_id: change(0xa2), parent_ids: vec![cid(1)] }],
    };
    let evaluator = RevsetExpressionEvaluator::new(
        &index,
        default_symbol_resolver(&view, &change_ids),
        ancestors(symbol("a2")),
    );
    let commits = evaluator.evaluate_to_commits(&objects).unwrap();
    assert_eq!(commits.len(), 3);
    assert!(matches!(&commits[0], NamedCommit::Found(commit) if commit.id == cid(2)));
    assert!(matches!(&commits[1], NamedCommit::Missing(id) if *id == cid(1)));
    assert!(matches!(&commits[2], NamedCommit::Missing(id) if *id == cid(0)));
}

#[test]
fn test_parse_bookmark_name_keeps_the_input_with_the_failure() {
    let name = parse_bookmark_name("\"my bookmark\"", Ok("my bookmark".to_string())).unwrap();
    assert_eq!(name, "my bookmark");
    let error = parse_bookmark_name("a b", Err("Syntax error".to_string())).unwrap_err();
    assert_eq!(error.input, "a b");
    assert_eq!(error.reason, "Syntax error");
    assert_eq!(error.to_text(), "Failed to parse bookmark name: Syntax error");
}

#[test]
fn test_evaluator_lists_every_commit_of_a_criss_cross_graph_once() {
    let depth: u32 = 50;
    let id = |n: u32| CommitId::new(n.to_be_bytes().to_vec());
    let index = ReadonlyIndex::new(id(0), ChangeId::new(vec![0]));
    let mut tx = index.start_transaction();
    for generation in 1..=depth {
        let parents = if generation == 1 {
            vec![id(0)]
        } else {
            vec![id(2 * generation - 3), id(2 * generation - 2)]
        };
        for n in [2 * generation - 1, 2 * generation] {
            tx.add_commit(id(n), ChangeId::new(n.to_le_bytes().to_vec()), &parents);
        }
    }
    let index = tx.commit();
    let view = RepoView { local_bookmarks: vec![], remote_bookmarks: vec![] };
    let change_ids = index.change_id_index(&vec![]);
    // Everything that is visible: the history of the two tips.
    let all = ancestors(RevsetExpression::Commits(vec![id(2 * depth - 1), id(2 * depth)]));
    let commits =
        RevsetExpressionEvaluator::new(&index, default_symbol_resolver(&view, &change_ids), all)
            .evaluate_to_commit_ids()
            .unwrap();
    assert_eq!(commits.len(), 1 + 2 * depth as usize);
    // The latest commit comes first, and no commit comes twice.
    let expected: Vec<CommitId> = (0..=2 * depth).rev().map(id).collect();
    assert_eq!(commits, expected);
}
