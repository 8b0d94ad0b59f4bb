//! The script of the stand-in for a test command in tests of bisection.
//!
//! A script is a list of instructions. One invocation carries out the
//! instructions up to the one that says `next invocation`, and leaves the
//! instructions after it for the invocation that follows. An instruction is
//! a command on its first line and a payload on the lines after.

use vstd::prelude::*;
use vstd::string::StrSliceExecFns;
use vstd::string::StringExecFns;
use crate::text::{
    chars_of, find_char, first_index_from, join_strings, joined, starts_with, string_views,
};

verus! {

/// What an instruction asks for.
#[derive(Debug)]
pub enum BisectorStep {
    /// Nothing.
    Nothing,
    /// Fail the test.
    Fail,
    /// Fail the test where the commit under test is the given one.
    FailIfTargetIs(String),
    /// Write the payload to the file at the path.
    Write { path: String, payload: String },
    /// A command that the stand-in does not know.
    Unexpected(String),
}

/// A step as plain values.
pub enum StepView {
    Nothing,
    Fail,
    FailIfTargetIs(Seq<char>),
    Write { path: Seq<char>, payload: Seq<char> },
    Unexpected(Seq<char>),
}

impl View for BisectorStep {
    type V = StepView;

    open spec fn view(&self) -> StepView {
        match self {
            BisectorStep::Nothing => StepView::Nothing,
            BisectorStep::Fail => StepView::Fail,
            BisectorStep::FailIfTargetIs(target) => StepView::FailIfTargetIs(target@),
            BisectorStep::Write { path, payload } => StepView::Write {
                path: path@,
                payload: payload@,
            },
            BisectorStep::Unexpected(command) => StepView::Unexpected(command@),
        }
    }
}

/// The command of an instruction: its first line, without the end of the
/// line.
pub open spec fn command_of(instruction: Seq<char>) -> Seq<char> {
    instruction.subrange(0, first_index_from(instruction, '\n', 0))
}

/// The payload of an instruction: what follows its first line, and nothing
/// where it has one line only.
pub open spec fn payload_of(instruction: Seq<char>) -> Seq<char> {
    let end = first_index_from(instruction, '\n', 0);
    if end < instruction.len() {
        instruction.subrange(end + 1, instruction.len() as int)
    } else {
        Seq::empty()
    }
}

/// Whether the text starts with the word and a space and holds no other
/// space.
pub open spec fn is_word_with_argument(text: Seq<char>, word: Seq<char>) -> bool {
    &&& text.len() > word.len()
    &&& text.subrange(0, word.len() as int) == word
    &&& text[word.len() as int] == ' '
    &&& first_index_from(text, ' ', word.len() as int + 1) == text.len()
}

/// What follows the word and the space.
pub open spec fn argument_of(text: Seq<char>, word: Seq<char>) -> Seq<char> {
    text.subrange(word.len() as int + 1, text.len() as int)
}

/// What an instruction asks for: nothing where the command is empty, a
/// failure for `fail`, a failure on one commit for `fail-if-target-is` and
/// the commit, a file for `write` and the path, and else a command that is
/// not known.
pub open spec fn step_of(instruction: Seq<char>) -> StepView {
    let command = command_of(instruction);
    if command.len() == 0 {
        StepView::Nothing
    } else if command == "fail"@ {
        StepView::Fail
    } else if is_word_with_argument(command, "fail-if-target-is"@) {
        StepView::FailIfTargetIs(argument_of(command, "fail-if-target-is"@))
    } else if is_word_with_argument(command, "write"@) {
        StepView::Write { path: argument_of(command, "write"@), payload: payload_of(instruction) }
    } else {
        StepView::Unexpected(command)
    }
}

/// Whether the command is the word, a space, and an argument without a
/// space.
fn has_argument(command: &Vec<char>, word: &str) -> (yes: bool)
    ensures
        yes == is_word_with_argument(command@, word@),
{
    let letters = chars_of(word);
    if command.len() <= letters.len() || !starts_with(command, &letters) {
        return false;
    }
    if command[letters.len()] != ' ' {
        return false;
    }
    find_char(command, ' ', letters.len() + 1) == command.len()
}

/// Reads an instruction.
pub fn parse_instruction(instruction: &str) -> (step: BisectorStep)
    ensures
        step@ == step_of(instruction@),
{
    let chars = chars_of(instruction);
    let end = find_char(&chars, '\n', 0);
    let command_text = instruction.substring_char(0, end);
    let command = chars_of(command_text);
    if command.len() == 0 {
        return BisectorStep::Nothing;
    }
    let fail = chars_of("fail");
    if crate::str_pattern::chars_equal(&command, &fail) {
        return BisectorStep::Fail;
    }
    if has_argument(&command, "fail-if-target-is") {
        let word_len = chars_of("fail-if-target-is").len();
        let target = command_text.substring_char(word_len + 1, command.len());
        return BisectorStep::FailIfTargetIs(String::from_str(target));
    }
    if has_argument(&command, "write") {
        let word_len = chars_of("write").len();
        let path = command_text.substring_char(word_len + 1, command.len());
        let payload = if end < chars.len() {
            instruction.substring_char(end + 1, chars.len())
        } else {
            ""
        };
        proof {
            reveal_strlit("");
            assert(""@ =~= Seq::<char>::empty());
        }
        return BisectorStep::Write {
            path: String::from_str(path),
            payload: String::from_str(payload),
        };
    }
    BisectorStep::Unexpected(String::from_str(command_text))
}

/// The place of the first instruction that says `next invocation`, from
/// `from` on, or the number of instructions where none does.
pub open spec fn next_invocation_from(instructions: Seq<Seq<char>>, from: int) -> int
    decreases instructions.len() - from,
{
    if from < 0 || from >= instructions.len() {
        instructions.len() as int
    } else if instructions[from] == "next invocation\n"@ {
        from
    } else {
        next_invocation_from(instructions, from + 1)
    }
}

/// What one invocation does.
#[derive(Debug)]
pub enum BisectorAction {
    /// Write the payload to the file at the path.
    WriteFile { path: String, payload: String },
    /// End with the exit code, after the message, if there is one.
    Exit { code: i32, message: Option<String> },
}

/// An action as plain values.
pub enum ActionView {
    WriteFile { path: Seq<char>, payload: Seq<char> },
    Exit { code: i32, message: Option<Seq<char>> },
}

impl View for BisectorAction {
    type V = ActionView;

    open spec fn view(&self) -> ActionView {
        match self {
            BisectorAction::WriteFile { path, payload } => ActionView::WriteFile {
                path: path@,
                payload: payload@,
            },
            BisectorAction::Exit { code, message } => ActionView::Exit {
                code: *code,
                message: match message {
                    Some(m) => Some(m@),
                    None => None,
                },
            },
        }
    }
}

/// The views of the actions, in their order.
pub open spec fn action_views(actions: Seq<BisectorAction>) -> Seq<ActionView> {
    actions.map_values(|a: BisectorAction| a@)
}

/// Whether the list of actions ends the invocation.
pub open spec fn ends_with_exit(actions: Seq<ActionView>) -> bool {
    actions.len() > 0 && actions.last() is Exit
}

/// The message for a command that is not known.
pub open spec fn unexpected_message(command: Seq<char>) -> Seq<char> {
    "fake-bisector: unexpected command: "@ + command
}

/// The actions of the first `upto` instructions for a commit under test:
/// the files to write, up to and with the first action that ends the
/// invocation.
pub open spec fn actions_of(instructions: Seq<Seq<char>>, target: Seq<char>, upto: int) -> Seq<
    ActionView,
>
    decreases upto,
{
    if upto <= 0 {
        Seq::empty()
    } else {
        let before = actions_of(instructions, target, upto - 1);
        if ends_with_exit(before) {
            before
        } else {
            match step_of(instructions[upto - 1]) {
                StepView::Nothing => before,
                StepView::Fail => before.push(ActionView::Exit { code: 1, message: None }),
                StepView::FailIfTargetIs(bad) => if bad == target {
                    before.push(ActionView::Exit { code: 1, message: None })
                } else {
                    before
                },
                StepView::Write { path, payload } => before.push(
                    ActionView::WriteFile { path, payload },
                ),
                StepView::Unexpected(command) => before.push(
                    ActionView::Exit { code: 1, message: Some(unexpected_message(command)) },
                ),
            }
        }
    }
}

/// What one invocation of the stand-in does with a script.
#[derive(Debug)]
pub struct BisectorRun {
    /// The number of instructions that belong to this invocation.
    pub own: usize,
    /// Whether the script is to be written anew, with the instructions
    /// after the one that says `next invocation`.
    pub rewrite: bool,
    /// What this invocation does, in order.
    pub actions: Vec<BisectorAction>,
}

/// Plans one invocation of the stand-in.
///
/// The instructions up to the first that says `next invocation` belong to
/// this invocation; where there is such an instruction, the script is
/// written anew with what follows it, before anything else is done.
pub fn plan_bisector_run(instructions: &Vec<String>, target: &str) -> (run: BisectorRun)
    ensures
        run.own == next_invocation_from(string_views(instructions@), 0),
        run.rewrite == (run.own < instructions.len()),
        action_views(run.actions@) == actions_of(
            string_views(instructions@),
            target@,
            run.own as int,
        ),
{
    let ghost texts = string_views(instructions@);
    let marker = chars_of("next invocation\n");
    let mut own: usize = 0;
    let mut found: bool = false;
    while own < instructions.len() && !found
        invariant
            texts == string_views(instructions@),
            marker@ == "next invocation\n"@,
            own <= instructions.len(),
            next_invocation_from(texts, 0) == next_invocation_from(texts, own as int),
            found ==> own < instructions.len() && texts[own as int] == "next invocation\n"@,
        decreases
                instructions.len() - own,
                if found {
                    0int
                } else {
                    1int
                },
    {
        assert(texts[own as int] == instructions@[own as int]@);
        let chars = chars_of(instructions[own].as_str());
        if crate::str_pattern::chars_equal(&chars, &marker) {
            found = true;
        } else {
            own += 1;
        }
    }
    let target_chars = chars_of(target);
    let mut actions: Vec<BisectorAction> = Vec::new();
    let mut ended: bool = false;
    let mut i: usize = 0;
    assert(action_views(actions@) =~= Seq::<ActionView>::empty());
    while i < own
        invariant
            texts == string_views(instructions@),
            target_chars@ == target@,
            own <= instructions.len(),
            i <= own,
            action_views(actions@) == actions_of(texts, target@, i as int),
            ended == ends_with_exit(action_views(actions@)),
        decreases own - i,
    {
        assert(texts[i as int] == instructions@[i as int]@);
        let ghost before = action_views(actions@);
        if !ended {
            match parse_instruction(instructions[i].as_str()) {
                BisectorStep::Nothing => {},
                BisectorStep::Fail => {
                    let action = BisectorAction::Exit { code: 1, message: None };
                    actions.push(action);
                    assert(action_views(actions@) =~= before.push(action@));
                    ended = true;
                },
                BisectorStep::FailIfTargetIs(bad) => {
                    let bad_chars = chars_of(bad.as_str());
                    if crate::str_pattern::chars_equal(&bad_chars, &target_chars) {
                        let action = BisectorAction::Exit { code: 1, message: None };
                        actions.push(action);
                        assert(action_views(actions@) =~= before.push(action@));
                        ended = true;
                    }
                },
                BisectorStep::Write { path, payload } => {
                    let action = BisectorAction::WriteFile { path, payload };
                    actions.push(action);
                    assert(action_views(actions@) =~= before.push(action@));
                },
                BisectorStep::Unexpected(command) => {
                    let mut message = String::from_str("fake-bisector: unexpected command: ");
                    message.append(command.as_str());
                    let action = BisectorAction::Exit { code: 1, message: Some(message) };
                    actions.push(action);
                    assert(action_views(actions@) =~= before.push(action@));
                    ended = true;
                },
            }
        }
        i += 1;
    }
    BisectorRun { own, rewrite: own < instructions.len(), actions }
}

/// The pieces of the text from `from` on: what stands before the first
/// separator, and the pieces of what follows it.
pub open spec fn pieces_from(text: Seq<char>, sep: char, from: int) -> Seq<Seq<char>>
    decreases text.len() - from,
{
    let end = first_index_from(text, sep, from);
    if 0 <= from <= end < text.len() {
        seq![text.subrange(from, end)] + pieces_from(text, sep, end + 1)
    } else {
        seq![text.subrange(from, text.len() as int)]
    }
}

/// The instructions of a script: its pieces between the NUL characters.
pub open spec fn instructions_of(script: Seq<char>) -> Seq<Seq<char>> {
    pieces_from(script, '\0', 0)
}

/// Splits a script into its instructions.
pub fn split_script(script: &str) -> (instructions: Vec<String>)
    ensures
        string_views(instructions@) == instructions_of(script@),
{
    let chars = chars_of(script);
    let n: usize = chars.len();
    let mut instructions: Vec<String> = Vec::new();
    let mut start: usize = 0;
    let mut more: bool = true;
    assert(string_views(instructions@) =~= Seq::<Seq<char>>::empty());
    while more
        invariant
            chars@ == script@,
            n == chars.len(),
            start <= n,
            more ==> string_views(instructions@) + pieces_from(script@, '\0', start as int)
                == instructions_of(script@),
            !more ==> string_views(instructions@) == instructions_of(script@),
        decreases
                n - start,
                if more {
                    1int
                } else {
                    0int
                },
    {
        let ghost before = string_views(instructions@);
        let end = find_char(&chars, '\0', start);
        let piece = String::from_str(script.substring_char(start, end));
        instructions.push(piece);
        assert(string_views(instructions@) =~= before.push(script@.subrange(
            start as int,
            end as int,
        )));
        if end < n {
            assert(before.push(script@.subrange(start as int, end as int)) + pieces_from(
                script@,
                '\0',
                end + 1,
            ) =~= before + pieces_from(script@, '\0', start as int));
            start = end + 1;
        } else {
            assert(before.push(script@.subrange(start as int, end as int)) =~= before
                + pieces_from(script@, '\0', start as int));
            more = false;
        }
    }
    instructions
}

/// What one invocation of the stand-in does with the text of a script.
#[derive(Debug)]
pub struct ScriptRun {
    /// The script to leave for the invocation that follows, where this
    /// one does not see all of it.
    pub rest: Option<String>,
    /// What this invocation does after that, in order.
    pub actions: Vec<BisectorAction>,
}

/// The script that an invocation leaves behind: the instructions after the
/// first that says `next invocation`, with a NUL character between each
/// two, where there is such an instruction.
pub open spec fn script_rest(script: Seq<char>) -> Option<Seq<char>> {
    let instructions = instructions_of(script);
    let own = next_invocation_from(instructions, 0);
    if own < instructions.len() {
        Some(joined(instructions.subrange(own + 1, instructions.len() as int), seq!['\0']))
    } else {
        None
    }
}

/// The rest of a run as plain values.
pub open spec fn rest_view(rest: Option<String>) -> Option<Seq<char>> {
    match rest {
        Some(text) => Some(text@),
        None => None,
    }
}

/// Plans one invocation of the stand-in from the text of the script and
/// the commit under test.
pub fn plan_script_run(script: &str, target: &str) -> (run: ScriptRun)
    ensures
        rest_view(run.rest) == script_rest(script@),
        action_views(run.actions@) == actions_of(
            instructions_of(script@),
            target@,
            next_invocation_from(instructions_of(script@), 0) as int,
        ),
{
    let instructions = split_script(script);
    let run = plan_bisector_run(&instructions, target);
    let rest = if run.rewrite {
        let mut later: Vec<String> = Vec::new();
        let mut i: usize = run.own + 1;
        assert(string_views(later@) =~= string_views(instructions@).subrange(
            run.own + 1,
            i as int,
        ));
        while i < instructions.len()
            invariant
                run.own < i <= instructions.len(),
                string_views(later@) == string_views(instructions@).subrange(
                    run.own + 1,
                    i as int,
                ),
            decreases instructions.len() - i,
        {
            let ghost before = string_views(later@);
            later.push(instructions[i].clone());
            assert(string_views(later@) =~= before.push(instructions@[i as int]@));
            assert(string_views(instructions@).subrange(run.own + 1, i + 1)
                =~= string_views(instructions@).subrange(run.own + 1, i as int).push(
                instructions@[i as int]@,
            ));
            i += 1;
        }
        proof {
            reveal_strlit("\0");
            assert("\0"@ =~= seq!['\0']);
        }
        Some(join_strings(&later, "\0"))
    } else {
        None
    };
    ScriptRun { rest, actions: run.actions }
}

} // verus!
