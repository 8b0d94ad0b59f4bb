//! The errors that commands report to the user.

use vstd::prelude::*;

verus! {

/// Who is to blame for an error.
#[derive(Clone, Copy, Debug, PartialEq, Eq, Structural)]
pub enum CommandErrorKind {
    /// The user asked for something that cannot be done.
    User,
    /// The program failed on its own account.
    Internal,
}

/// An error of a command, with the hints printed after it.
#[derive(Debug)]
pub struct CommandError {
    pub kind: CommandErrorKind,
    pub message: String,
    pub hints: Vec<String>,
}

/// What an error says, as plain values.
pub struct CommandErrorView {
    pub kind: CommandErrorKind,
    pub message: Seq<char>,
    pub hints: Seq<Seq<char>>,
}

impl View for CommandError {
    type V = CommandErrorView;

    open spec fn view(&self) -> CommandErrorView {
        CommandErrorView {
            kind: self.kind,
            message: self.message@,
            hints: self.hints@.map_values(|h: String| h@),
        }
    }
}

/// The user error with the given message and no hint.
pub open spec fn user_error_view(message: Seq<char>) -> CommandErrorView {
    CommandErrorView { kind: CommandErrorKind::User, message, hints: Seq::empty() }
}

/// The internal error with the given message and no hint.
pub open spec fn internal_error_view(message: Seq<char>) -> CommandErrorView {
    CommandErrorView { kind: CommandErrorKind::Internal, message, hints: Seq::empty() }
}

/// An error that the user can mend.
pub fn user_error(message: String) -> (error: CommandError)
    ensures
        error@ == user_error_view(message@),
{
    let error = CommandError { kind: CommandErrorKind::User, message, hints: Vec::new() };
    assert(error@.hints =~= Seq::<Seq<char>>::empty());
    error
}

/// An error that the user cannot mend.
pub fn internal_error(message: String) -> (error: CommandError)
    ensures
        error@ == internal_error_view(message@),
{
    let error = CommandError { kind: CommandErrorKind::Internal, message, hints: Vec::new() };
    assert(error@.hints =~= Seq::<Seq<char>>::empty());
    error
}

impl CommandError {
    /// Adds a hint, printed after the hints the error has already.
    pub fn add_hint(&mut self, hint: String)
        ensures
            final(self)@ == (CommandErrorView { hints: old(self)@.hints.push(hint@), ..old(self)@ }),
    {
        self.hints.push(hint);
        assert(self@.hints =~= old(self)@.hints.push(hint@));
    }
}

} // verus!
