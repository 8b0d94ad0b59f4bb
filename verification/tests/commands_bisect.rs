use commit_index::commands::bisect::{
    cmd_bisect_run, prepare_test, BisectAction, BisectEvent, BisectionResult, CommandOutcome,
    TestResult,
};
use commit_index::commands::config::{
    cmd_review_managed, ConfigReviewManagedArgs, ManagedConfigFiles, ReviewStep,
};
use commit_index::fake_bisector::{plan_script_run, split_script, BisectorAction};
use commit_index::ids::CommitId;

fn id(hex: &str) -> CommitId {
    CommitId::new(
        (0..hex.len() / 2)
            .map(|i| u8::from_str_radix(&hex[2 * i..2 * i + 2], 16).unwrap())
            .collect(),
    )
}

/// What a bisection showed and did.
#[derive(Default)]
struct Bisection {
    status: Vec<String>,
    output: Vec<String>,
    /// The descriptions of the transactions that checked commits out.
    transactions: Vec<String>,
    /// The commits as they were tested, with the value of the variable
    /// that names the commit to the test command.
    tested: Vec<(CommitId, String)>,
    marked: Vec<(CommitId, TestResult)>,
    error: Option<String>,
}

/// Runs a bisection in which the bisector asks for the given commits in
/// turn and then says what it found; `run` stands for the test command.
fn bisect(
    asked: &[(CommitId, &str)],
    found: BisectionResult,
    mut run: impl FnMut(&CommitId, &str) -> CommandOutcome,
) -> Bisection {
    let mut bisection = Bisection::default();
    let mut asked = asked.iter();
    let mut testing = None;
    let mut found = Some(found);
    let mut event = match asked.next() {
        Some((commit_id, summary)) => {
            BisectEvent::NextTest { commit_id: commit_id.clone(), summary: summary.to_string() }
        }
        None => BisectEvent::Finished(found.take().unwrap()),
    };
    for _ in 0..100 {
        let step = cmd_bisect_run(testing, event);
        bisection.status.extend(step.status);
        bisection.output.extend(step.output);
        testing = step.testing;
        event = match step.action {
            BisectAction::RunTest { commit_id, setup } => {
                bisection.transactions.push(setup.tx_description.clone());
                assert_eq!(setup.variable, "JJ_BISECT_TARGET");
                let outcome = run(&commit_id, &setup.value);
                bisection.tested.push((commit_id, setup.value));
                BisectEvent::TestEnded(outcome)
            }
            BisectAction::Mark { commit_id, result } => {
                bisection.marked.push((commit_id, result));
                match asked.next() {
                    Some((commit_id, summary)) => BisectEvent::NextTest {
                        commit_id: commit_id.clone(),
                        summary: summary.to_string(),
                    },
                    None => BisectEvent::Finished(found.take().unwrap()),
                }
            }
            BisectAction::Stop => return bisection,
            BisectAction::Fail(error) => {
                bisection.error = Some(error.message);
                return bisection;
            }
        };
    }
    panic!("the bisection does not end");
}

const ROOT_SUMMARY: &str = "zzzzzzzz 00000000 (empty) (no description set)";

#[test]
fn test_bisect_run() {
    let b = id("123b4d91");
    let root = id("00000000");
    // The command `false` fails whatever the commit.
    let bisection = bisect(
        &[(b.clone(), "zsuskuln 123b4d91 b | b"), (root.clone(), ROOT_SUMMARY)],
        BisectionResult::Found(vec![ROOT_SUMMARY.to_string()]),
        |_, _| CommandOutcome::Exited { success: false, code: Some(1) },
    );
    assert_eq!(bisection.error, None);
    assert_eq!(
        bisection.output,
        vec!["The first bad commit is: zzzzzzzz 00000000 (empty) (no description set)"]
    );
    assert_eq!(
        bisection.status,
        vec![
            "Now testing: zsuskuln 123b4d91 b | b",
            "The commit is bad.",
            "",
            "Now testing: zzzzzzzz 00000000 (empty) (no description set)",
            "The commit is bad.",
            "",
        ]
    );
    assert_eq!(bisection.marked, vec![(b, TestResult::Bad), (root, TestResult::Bad)]);
}

#[test]
fn test_bisect_run_write_file() {
    let a = id("7d980be7a1d499e4d316ab4c01242885032f7eaf");
    let root = id("0000000000000000000000000000000000000000");
    let mut script = ["write new-file\nsome contents", "fail\n"].join("\0");
    let mut written: Vec<(String, String)> = vec![];
    let bisection = bisect(
        &[(a.clone(), "rlvkpnrz 7d980be7 a | a"), (root.clone(), ROOT_SUMMARY)],
        BisectionResult::Found(vec![ROOT_SUMMARY.to_string()]),
        |_, target| {
            let run = plan_script_run(&script, target);
            if let Some(rest) = run.rest {
                script = rest;
            }
            for action in run.actions {
                match action {
                    BisectorAction::WriteFile { path, payload } => written.push((path, payload)),
                    BisectorAction::Exit { code, .. } => {
                        return CommandOutcome::Exited { success: code == 0, code: Some(code) };
                    }
                }
            }
            CommandOutcome::Exited { success: true, code: Some(0) }
        },
    );
    assert_eq!(bisection.error, None);
    assert_eq!(
        bisection.output,
        vec!["The first bad commit is: zzzzzzzz 00000000 (empty) (no description set)"]
    );
    assert_eq!(
        bisection.status,
        vec![
            "Now testing: rlvkpnrz 7d980be7 a | a",
            "The commit is bad.",
            "",
            "Now testing: zzzzzzzz 00000000 (empty) (no description set)",
            "The commit is bad.",
            "",
        ]
    );
    // Each test writes the file before it fails.
    let file = ("new-file".to_string(), "some contents".to_string());
    assert_eq!(written, vec![file.clone(), file]);
    // One transaction for each commit that was checked out, and none beside.
    assert_eq!(
        bisection.transactions,
        vec![
            "Checked out commit 7d980be7a1d499e4d316ab4c01242885032f7eaf for bisection",
            "Checked out commit 0000000000000000000000000000000000000000 for bisection",
        ]
    );
    assert_eq!(bisection.tested[0].1, "7d980be7a1d499e4d316ab4c01242885032f7eaf");
    assert_eq!(prepare_test(&a).value, bisection.tested[0].1);
}

#[test]
fn test_bisect_run_stops_where_the_command_is_missing() {
    let a = id("0a");
    let bisection = bisect(
        &[(a.clone(), "a"), (id("0b"), "b")],
        BisectionResult::Indeterminate,
        |_, _| CommandOutcome::Exited { success: false, code: Some(127) },
    );
    assert_eq!(
        bisection.error.as_deref(),
        Some("Test command returned 127 (command not found) - aborting bisection.")
    );
    assert_eq!(bisection.status, vec!["Now testing: a"]);
    assert!(bisection.marked.is_empty());
    assert_eq!(bisection.tested.len(), 1);
}

#[test]
fn test_bisect_run_of_an_empty_range() {
    let bisection = bisect(&[], BisectionResult::Indeterminate, |_, _| unreachable!());
    assert_eq!(
        bisection.error.as_deref(),
        Some("Could not find the first bad commit. Was the input range empty?")
    );
    assert!(bisection.status.is_empty());
    assert!(bisection.output.is_empty());
}

#[test]
fn test_split_script_at_every_nul() {
    assert_eq!(split_script(""), vec![""]);
    assert_eq!(split_script("fail"), vec!["fail"]);
    assert_eq!(split_script("a\0b\nc\0"), vec!["a", "b\nc", ""]);
    assert_eq!(split_script("\0\0"), vec!["", "", ""]);
}

#[test]
fn test_plan_script_run_leaves_the_rest_for_the_next_invocation() {
    let script = "write a\nA\0next invocation\n\0fail-if-target-is x\0write b\nB\0next invocation\n\0fail";
    let run = plan_script_run(script, "x");
    assert_eq!(
        run.rest.as_deref(),
        Some("fail-if-target-is x\0write b\nB\0next invocation\n\0fail")
    );
    assert_eq!(run.actions.len(), 1);
    assert!(matches!(&run.actions[0], BisectorAction::WriteFile { path, payload } if path == "a" && payload == "A"));

    let run = plan_script_run(run.rest.as_deref().unwrap(), "x");
    assert_eq!(run.rest.as_deref(), Some("fail"));
    assert_eq!(run.actions.len(), 1);
    assert!(matches!(&run.actions[0], BisectorAction::Exit { code: 1, message: None }));

    let run = plan_script_run("fail", "x");
    assert_eq!(run.rest, None);
    assert!(matches!(&run.actions[0], BisectorAction::Exit { code: 1, message: None }));

    // Nothing follows the marker: an empty script is left.
    let run = plan_script_run("next invocation\n", "x");
    assert_eq!(run.rest.as_deref(), Some(""));
    assert!(run.actions.is_empty());
}

#[test]
fn test_repo_managed_config() {
    let trusting = ConfigReviewManagedArgs { trust: true };
    let managed = r#"ui.pager = "repo-managed pager""#;
    // Nothing has been reviewed yet: with `--trust` the managed file is
    // taken as it is.
    let files = ManagedConfigFiles { managed: managed.to_string(), config: String::new() };
    let (config, last_reviewed) = match cmd_review_managed(&trusting, Some(files)).unwrap() {
        ReviewStep::Write { config, last_reviewed, status } => {
            assert_eq!(status, "Updated repo config file");
            (config, last_reviewed)
        }
        other => panic!("unexpected {other:?}"),
    };
    assert_eq!(config, managed);
    assert_eq!(last_reviewed, managed);

    // Reviewed once, there is nothing more to do.
    let files = ManagedConfigFiles { managed: managed.to_string(), config };
    match cmd_review_managed(&trusting, Some(files)).unwrap() {
        ReviewStep::UpToDate { status } => {
            assert_eq!(status, "Your config file is already up to date")
        }
        other => panic!("unexpected {other:?}"),
    }

    // The managed file changes: the copy is out of date again.
    let managed_v2 = r#"ui.pager = "repo-managed pager v2""#;
    let files =
        ManagedConfigFiles { managed: managed_v2.to_string(), config: managed.to_string() };
    match cmd_review_managed(&ConfigReviewManagedArgs { trust: false }, Some(files)).unwrap() {
        ReviewStep::SelectChanges { old, new } => {
            assert_eq!(old, managed);
            assert_eq!(new, managed_v2);
        }
        other => panic!("unexpected {other:?}"),
    }
}
