//! Bisection by running a command: how the outcome of the command is read,
//! and what the user is told while the bisection runs and when it ends.

use vstd::prelude::*;
use vstd::string::StringExecFns;
use crate::command_error::{user_error, user_error_view, CommandError, CommandErrorView};
use crate::ids::{hex_of, CommitId};
use crate::text::string_views;

verus! {

/// The arguments of the command that bisects by running a command.
#[derive(Debug)]
pub struct BisectRunArgs {
    /// The range of revisions to bisect. Its heads are taken to be bad.
    pub range: Vec<String>,
    /// The command that tells whether the bug is there, and its arguments.
    pub command: Vec<String>,
}

/// What a test says of a commit.
#[derive(Clone, Copy, Debug, PartialEq, Eq, Structural)]
pub enum TestResult {
    Good,
    Bad,
    Skip,
}

/// How the test command ended.
#[derive(Debug)]
pub enum CommandOutcome {
    /// The command could not be run; the text says why.
    SpawnFailed(String),
    /// The command ran and ended, with an exit code unless a signal ended
    /// it.
    Exited { success: bool, code: Option<i32> },
}

/// The name of the environment variable that tells the test command which
/// commit is tested.
pub open spec fn target_variable() -> Seq<char> {
    "JJ_BISECT_TARGET"@
}

/// The description of the transaction that checks a commit out for a test.
pub open spec fn checkout_description(id: Seq<u8>) -> Seq<char> {
    "Checked out commit "@ + hex_of(id) + " for bisection"@
}

/// How a commit is got ready for its test.
#[derive(Debug)]
pub struct TestSetup {
    /// The description of the transaction that checks the commit out.
    pub tx_description: String,
    /// The environment variable to set for the command, and its value: the
    /// commit id in hexadecimal.
    pub variable: String,
    pub value: String,
}

/// Says how the commit is got ready for its test.
pub fn prepare_test(commit_id: &CommitId) -> (setup: TestSetup)
    ensures
        setup.tx_description@ == checkout_description(commit_id@),
        setup.variable@ == target_variable(),
        setup.value@ == hex_of(commit_id@),
{
    let value = commit_id.hex();
    let mut tx_description = String::from_str("Checked out commit ");
    tx_description.append(value.as_str());
    tx_description.append(" for bisection");
    TestSetup { tx_description, variable: String::from_str("JJ_BISECT_TARGET"), value }
}

/// The error for a command that could not be run.
pub open spec fn spawn_error(reason: Seq<char>) -> CommandErrorView {
    CommandErrorView {
        kind: crate::command_error::CommandErrorKind::User,
        message: "Failed to run test command"@,
        hints: seq![reason],
    }
}

/// What the outcome of the test command says of the commit.
///
/// Success means the commit is good. Exit code 125 means it cannot be
/// judged. Exit code 127 means the command was not found, and the bisection
/// is given up. Every other ending means the commit is bad.
pub open spec fn outcome_result(outcome: CommandOutcome) -> Result<TestResult, CommandErrorView> {
    match outcome {
        CommandOutcome::SpawnFailed(reason) => Err(spawn_error(reason@)),
        CommandOutcome::Exited { success, code } => if success {
            Ok(TestResult::Good)
        } else if code == Some(125i32) {
            Ok(TestResult::Skip)
        } else if code == Some(127i32) {
            Err(
                user_error_view(
                    "Test command returned 127 (command not found) - aborting bisection."@,
                ),
            )
        } else {
            Ok(TestResult::Bad)
        },
    }
}

/// What a result of a test holds, as plain values.
pub open spec fn test_view(result: Result<TestResult, CommandError>) -> Result<
    TestResult,
    CommandErrorView,
> {
    match result {
        Ok(r) => Ok(r),
        Err(error) => Err(error@),
    }
}

/// Reads the outcome of the test command.
pub fn test_commit(outcome: CommandOutcome) -> (result: Result<TestResult, CommandError>)
    ensures
        test_view(result) == outcome_result(outcome),
{
    match outcome {
        CommandOutcome::SpawnFailed(reason) => {
            let mut error = user_error(String::from_str("Failed to run test command"));
            error.add_hint(reason);
            assert(error@.hints =~= seq![reason@]);
            Err(error)
        },
        CommandOutcome::Exited { success, code } => {
            if success {
                Ok(TestResult::Good)
            } else {
                match code {
                    Some(125) => Ok(TestResult::Skip),
                    Some(127) => Err(
                        user_error(
                            String::from_str(
                                "Test command returned 127 (command not found) - aborting bisection.",
                            ),
                        ),
                    ),
                    _ => Ok(TestResult::Bad),
                }
            }
        },
    }
}

/// What the user is told of the result of a test.
pub open spec fn result_message(result: TestResult) -> Seq<char> {
    match result {
        TestResult::Good => "The commit is good."@,
        TestResult::Bad => "The commit is bad."@,
        TestResult::Skip => "It could not be determine if the commit is good or bad."@,
    }
}

/// How a bisection ended.
#[derive(Debug)]
pub enum BisectionResult {
    /// The first bad commits, each by its summary line.
    Found(Vec<String>),
    /// No first bad commit could be found.
    Indeterminate,
}

/// The lines that name the first bad commits: one line for one commit, a
/// heading and a line for each where there are more or none.
pub open spec fn found_lines(summaries: Seq<Seq<char>>) -> Seq<Seq<char>> {
    if summaries.len() == 1 {
        seq!["The first bad commit is: "@ + summaries[0]]
    } else {
        seq!["The first bad commits are:"@] + summaries
    }
}

/// The report of a bisection: the lines that name the first bad commits,
/// or the error where none was found.
pub open spec fn bisection_report(result: BisectionResult) -> Result<
    Seq<Seq<char>>,
    CommandErrorView,
> {
    match result {
        BisectionResult::Indeterminate => Err(
            user_error_view("Could not find the first bad commit. Was the input range empty?"@),
        ),
        BisectionResult::Found(summaries) => Ok(found_lines(string_views(summaries@))),
    }
}

/// What happened in a bisection since the last step.
#[derive(Debug)]
pub enum BisectEvent {
    /// The next commit to test, with its summary line.
    NextTest { commit_id: CommitId, summary: String },
    /// The test command ended.
    TestEnded(CommandOutcome),
    /// The bisection is over.
    Finished(BisectionResult),
}

/// What the caller of a bisection is to do next.
#[derive(Debug)]
pub enum BisectAction {
    /// Check the commit out and run the test command.
    RunTest { commit_id: CommitId, setup: TestSetup },
    /// Mark the commit with the result, load the workspace anew, and ask
    /// for the next step.
    Mark { commit_id: CommitId, result: TestResult },
    /// Nothing: the bisection has ended.
    Stop,
    /// Give the bisection up with this error.
    Fail(CommandError),
}

/// One step of a bisection: the lines to show, and what to do then.
#[derive(Debug)]
pub struct BisectStep {
    /// Lines of progress, shown where the user wants status.
    pub status: Vec<String>,
    /// Lines of the result, always shown.
    pub output: Vec<String>,
    pub action: BisectAction,
    /// The commit under test, while a test runs.
    pub testing: Option<CommitId>,
}

/// The error for an event that cannot follow the state.
pub open spec fn unexpected_bisect_event() -> CommandErrorView {
    crate::command_error::internal_error_view("Unexpected event during bisection"@)
}

/// Takes one step of a bisection by running a command.
///
/// A commit to test is announced, checked out and tested. The outcome of
/// the test is read and told, and the commit is marked with it. When the
/// bisection is over, the first bad commits are named. `testing` is the
/// commit under test, if a test is running.
pub fn cmd_bisect_run(testing: Option<CommitId>, event: BisectEvent) -> (step: BisectStep)
    ensures
        match event {
            BisectEvent::NextTest { commit_id, summary } => {
                &&& string_views(step.status@) == seq!["Now testing: "@ + summary@]
                &&& step.output.len() == 0
                &&& step.action matches BisectAction::RunTest { commit_id: id, setup }
                &&& id == commit_id
                &&& setup.tx_description@ == checkout_description(commit_id@)
                &&& setup.variable@ == target_variable()
                &&& setup.value@ == hex_of(commit_id@)
                &&& step.testing matches Some(t)
                &&& t@ == commit_id@
            },
            BisectEvent::TestEnded(outcome) => match testing {
                Some(commit_id) => match outcome_result(outcome) {
                    Ok(result) => {
                        &&& string_views(step.status@) == seq![result_message(result), ""@]
                        &&& step.output.len() == 0
                        &&& step.action matches BisectAction::Mark { commit_id: id, result: r }
                        &&& id == commit_id
                        &&& r == result
                        &&& step.testing is None
                    },
                    Err(error) => {
                        &&& step.status.len() == 0
                        &&& step.output.len() == 0
                        &&& step.action matches BisectAction::Fail(e)
                        &&& e@ == error
                        &&& step.testing is None
                    },
                },
                None => {
                    &&& step.status.len() == 0
                    &&& step.output.len() == 0
                    &&& step.action matches BisectAction::Fail(e)
                    &&& e@ == unexpected_bisect_event()
                    &&& step.testing is None
                },
            },
            BisectEvent::Finished(result) => {
                &&& step.status.len() == 0
                &&& step.testing is None
                &&& match bisection_report(result) {
                    Ok(lines) => string_views(step.output@) == lines && step.action is Stop,
                    Err(error) => {
                        &&& step.output.len() == 0
                        &&& step.action matches BisectAction::Fail(e)
                        &&& e@ == error
                    },
                }
            },
        },
{
    match event {
        BisectEvent::NextTest { commit_id, summary } => {
            let mut line = String::from_str("Now testing: ");
            line.append(summary.as_str());
            let mut status: Vec<String> = Vec::new();
            status.push(line);
            assert(string_views(status@) =~= seq!["Now testing: "@ + summary@]);
            let setup = prepare_test(&commit_id);
            let under_test = commit_id.clone();
            BisectStep {
                status,
                output: Vec::new(),
                action: BisectAction::RunTest { commit_id, setup },
                testing: Some(under_test),
            }
        },
        BisectEvent::TestEnded(outcome) => {
            match testing {
                Some(commit_id) => {
                    match test_commit(outcome) {
                        Ok(result) => {
                            let text = match result {
                                TestResult::Good => String::from_str("The commit is good."),
                                TestResult::Bad => String::from_str("The commit is bad."),
                                TestResult::Skip => String::from_str(
                                    "It could not be determine if the commit is good or bad.",
                                ),
                            };
                            let mut status: Vec<String> = Vec::new();
                            status.push(text);
                            status.push(String::from_str(""));
                            assert(string_views(status@) =~= seq![result_message(result), ""@]);
                            BisectStep {
                                status,
                                output: Vec::new(),
                                action: BisectAction::Mark { commit_id, result },
                                testing: None,
                            }
                        },
                        Err(error) => BisectStep {
                            status: Vec::new(),
                            output: Vec::new(),
                            action: BisectAction::Fail(error),
                            testing: None,
                        },
                    }
                },
                None => BisectStep {
                    status: Vec::new(),
                    output: Vec::new(),
                    action: BisectAction::Fail(
                        crate::command_error::internal_error(
                            String::from_str("Unexpected event during bisection"),
                        ),
                    ),
                    testing: None,
                },
            }
        },
        BisectEvent::Finished(result) => {
            match result {
                BisectionResult::Indeterminate => BisectStep {
                    status: Vec::new(),
                    output: Vec::new(),
                    action: BisectAction::Fail(
                        user_error(
                            String::from_str(
                                "Could not find the first bad commit. Was the input range empty?",
                            ),
                        ),
                    ),
                    testing: None,
                },
                BisectionResult::Found(summaries) => {
                    let mut output: Vec<String> = Vec::new();
                    if summaries.len() == 1 {
                        let mut line = String::from_str("The first bad commit is: ");
                        line.append(summaries[0].as_str());
                        output.push(line);
                        assert(string_views(summaries@)[0] == summaries@[0]@);
                        assert(string_views(output@) =~= found_lines(string_views(summaries@)));
                    } else {
                        output.push(String::from_str("The first bad commits are:"));
                        let ghost heading = string_views(output@);
                        assert(heading =~= seq!["The first bad commits are:"@]);
                        let mut i: usize = 0;
                        while i < summaries.len()
                            invariant
                                i <= summaries.len(),
                                heading == seq!["The first bad commits are:"@],
                                string_views(output@) == heading + string_views(
                                    summaries@,
                                ).subrange(0, i as int),
                            decreases summaries.len() - i,
                        {
                            let ghost before = string_views(output@);
                            output.push(summaries[i].clone());
                            assert(string_views(output@) =~= before.push(summaries@[i as int]@));
                            assert(string_views(output@) =~= heading + string_views(
                                summaries@,
                            ).subrange(0, i + 1));
                            i += 1;
                        }
                        assert(string_views(summaries@).subrange(0, summaries.len() as int)
                            =~= string_views(summaries@));
                    }
                    BisectStep {
                        status: Vec::new(),
                        output,
                        action: BisectAction::Stop,
                        testing: None,
                    }
                },
            }
        },
    }
}

} // verus!
