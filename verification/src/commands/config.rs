//! Review of the configuration that a repository keeps under version
//! control.
//!
//! The copy under version control is compared with the copy in use. Where
//! they differ the user accepts it whole or picks the changes line by line,
//! and the copy in use is rebuilt from the lines picked.

use vstd::prelude::*;
use vstd::string::StringExecFns;
use crate::command_error::{
    internal_error, internal_error_view, user_error, user_error_view, CommandError,
    CommandErrorView,
};

verus! {

/// The arguments of the review command.
#[derive(Clone, Copy, Debug, PartialEq, Eq, Structural)]
pub struct ConfigReviewManagedArgs {
    /// Trust the repository's configuration and skip the review.
    pub trust: bool,
}

/// Whether a changed line was added or removed.
#[derive(Clone, Copy, Debug, PartialEq, Eq, Structural)]
pub enum ChangeType {
    Added,
    Removed,
}

/// A changed line and whether the user picked the change.
#[derive(Debug)]
pub struct SectionChangedLine {
    pub is_checked: bool,
    pub change_type: ChangeType,
    /// The line with the characters that end it.
    pub line: String,
}

/// A section of a file under review.
#[derive(Debug)]
#[allow(inconsistent_fields)]
pub enum Section {
    /// Lines that are the same in both copies.
    Unchanged { lines: Vec<String> },
    /// Lines that differ between the copies.
    Changed { lines: Vec<SectionChangedLine> },
    /// A change that carries no line of text, such as one of the file's mode.
    Other,
}

/// Whether the line belongs to the file that the user's picks describe: an
/// added line that was picked, or a removed line that was not.
pub open spec fn line_is_kept(line: SectionChangedLine) -> bool {
    line.is_checked == (line.change_type == ChangeType::Added)
}

/// The lines written one after another.
pub open spec fn lines_text(lines: Seq<String>) -> Seq<char>
    decreases lines.len(),
{
    if lines.len() == 0 {
        Seq::empty()
    } else {
        lines_text(lines.drop_last()) + lines.last()@
    }
}

/// The kept lines among the changed ones, written one after another.
pub open spec fn changed_text(lines: Seq<SectionChangedLine>) -> Seq<char>
    decreases lines.len(),
{
    if lines.len() == 0 {
        Seq::empty()
    } else {
        changed_text(lines.drop_last()) + if line_is_kept(lines.last()) {
            lines.last().line@
        } else {
            Seq::empty()
        }
    }
}

/// The text that a section contributes.
pub open spec fn section_text(section: Section) -> Seq<char> {
    match section {
        Section::Unchanged { lines } => lines_text(lines@),
        Section::Changed { lines } => changed_text(lines@),
        Section::Other => Seq::empty(),
    }
}

/// The file that the sections describe after the user's picks.
pub open spec fn reconstructed(sections: Seq<Section>) -> Seq<char>
    decreases sections.len(),
{
    if sections.len() == 0 {
        Seq::empty()
    } else {
        reconstructed(sections.drop_last()) + section_text(sections.last())
    }
}

/// Rebuilds the file from the sections and the user's picks: unchanged
/// lines stay, added lines stay where picked, removed lines stay where not
/// picked.
pub fn reconstruct(sections: &Vec<Section>) -> (text: String)
    ensures
        text@ == reconstructed(sections@),
{
    let mut text = String::new();
    let mut s: usize = 0;
    while s < sections.len()
        invariant
            s <= sections.len(),
            text@ == reconstructed(sections@.subrange(0, s as int)),
        decreases sections.len() - s,
    {
        let ghost start = text@;
        proof {
            let upto = sections@.subrange(0, s + 1);
            assert(upto.drop_last() =~= sections@.subrange(0, s as int));
            assert(upto.last() == sections@[s as int]);
        }
        match &sections[s] {
            Section::Unchanged { lines } => {
                let mut i: usize = 0;
                while i < lines.len()
                    invariant
                        i <= lines.len(),
                        text@ == start + lines_text(lines@.subrange(0, i as int)),
                    decreases lines.len() - i,
                {
                    proof {
                        let upto = lines@.subrange(0, i + 1);
                        assert(upto.drop_last() =~= lines@.subrange(0, i as int));
                        assert(upto.last() == lines@[i as int]);
                    }
                    text.append(lines[i].as_str());
                    assert(text@ =~= start + lines_text(lines@.subrange(0, i + 1)));
                    i += 1;
                }
                assert(lines@.subrange(0, lines.len() as int) =~= lines@);
            },
            Section::Changed { lines } => {
                let mut i: usize = 0;
                while i < lines.len()
                    invariant
                        i <= lines.len(),
                        text@ == start + changed_text(lines@.subrange(0, i as int)),
                    decreases lines.len() - i,
                {
                    proof {
                        let upto = lines@.subrange(0, i + 1);
                        assert(upto.drop_last() =~= lines@.subrange(0, i as int));
                        assert(upto.last() == lines@[i as int]);
                    }
                    let line = &lines[i];
                    let added: bool = match line.change_type {
                        ChangeType::Added => true,
                        ChangeType::Removed => false,
                    };
                    if line.is_checked == added {
                        text.append(line.line.as_str());
                    }
                    assert(text@ =~= start + changed_text(lines@.subrange(0, i + 1)));
                    i += 1;
                }
                assert(lines@.subrange(0, lines.len() as int) =~= lines@);
            },
            Section::Other => {
                assert(text@ =~= start + Seq::<char>::empty());
            },
        }
        s += 1;
    }
    assert(sections@.subrange(0, sections.len() as int) =~= sections@);
    text
}

/// The two copies of the configuration as they are on disk. A file that does
/// not exist counts as empty.
#[derive(Debug)]
pub struct ManagedConfigFiles {
    /// The copy under version control.
    pub managed: String,
    /// The copy in use.
    pub config: String,
}

/// What the review does next.
#[derive(Debug)]
pub enum ReviewStep {
    /// The copy under version control is gone: remove the copy in use and
    /// the record of the last review.
    RemoveLocalCopy { status: String },
    /// The copies are the same: nothing to do.
    UpToDate { status: String },
    /// Let the user pick, line by line, the changes from the copy in use to
    /// the copy under version control.
    SelectChanges { old: String, new: String },
    /// Write the copy in use and the record of the last review.
    Write { config: String, last_reviewed: String, status: String },
}

/// What a step says, as plain values.
pub enum ReviewStepView {
    RemoveLocalCopy { status: Seq<char> },
    UpToDate { status: Seq<char> },
    SelectChanges { old: Seq<char>, new: Seq<char> },
    Write { config: Seq<char>, last_reviewed: Seq<char>, status: Seq<char> },
}

impl View for ReviewStep {
    type V = ReviewStepView;

    open spec fn view(&self) -> ReviewStepView {
        match self {
            ReviewStep::RemoveLocalCopy { status } => ReviewStepView::RemoveLocalCopy {
                status: status@,
            },
            ReviewStep::UpToDate { status } => ReviewStepView::UpToDate { status: status@ },
            ReviewStep::SelectChanges { old, new } => ReviewStepView::SelectChanges {
                old: old@,
                new: new@,
            },
            ReviewStep::Write { config, last_reviewed, status } => ReviewStepView::Write {
                config: config@,
                last_reviewed: last_reviewed@,
                status: status@,
            },
        }
    }
}

/// The first step of a review, from the arguments and the two copies.
pub open spec fn review_start(
    trust: bool,
    files: Option<ManagedConfigFiles>,
) -> Result<ReviewStepView, CommandErrorView> {
    match files {
        None => Err(
            user_error_view("Unable to detect location of config files. Are you in a repo?"@),
        ),
        Some(files) => if files.managed@.len() == 0 {
            Ok(
                ReviewStepView::RemoveLocalCopy {
                    status: "The config file has been removed from the VCS, so we have removed the local copy too."@,
                },
            )
        } else if files.config@ == files.managed@ {
            Ok(ReviewStepView::UpToDate { status: "Your config file is already up to date"@ })
        } else if trust {
            Ok(
                ReviewStepView::Write {
                    config: files.managed@,
                    last_reviewed: files.managed@,
                    status: "Updated repo config file"@,
                },
            )
        } else {
            Ok(ReviewStepView::SelectChanges { old: files.config@, new: files.managed@ })
        },
    }
}

/// What a result of a step holds, as plain values.
pub open spec fn step_view(
    step: Result<ReviewStep, CommandError>,
) -> Result<ReviewStepView, CommandErrorView> {
    match step {
        Ok(step) => Ok(step@),
        Err(error) => Err(error@),
    }
}

/// Decides how the review starts.
///
/// Without the files there is no repository and the command fails. An empty
/// copy under version control removes the copy in use. Equal copies need
/// nothing. Trusted, the copy under version control is taken whole.
/// Otherwise the user is asked to pick changes.
pub fn cmd_review_managed(args: &ConfigReviewManagedArgs, files: Option<ManagedConfigFiles>) -> (step:
    Result<ReviewStep, CommandError>)
    ensures
        step_view(step) == review_start(args.trust, files),
{
    match files {
        None => Err(
            user_error(
                String::from_str("Unable to detect location of config files. Are you in a repo?"),
            ),
        ),
        Some(files) => {
            if files.managed.as_str().is_empty() {
                Ok(
                    ReviewStep::RemoveLocalCopy {
                        status: String::from_str(
                            "The config file has been removed from the VCS, so we have removed the local copy too.",
                        ),
                    },
                )
            } else if files.config == files.managed {
                Ok(
                    ReviewStep::UpToDate {
                        status: String::from_str("Your config file is already up to date"),
                    },
                )
            } else if args.trust {
                let last_reviewed = files.managed.clone();
                Ok(
                    ReviewStep::Write {
                        config: files.managed,
                        last_reviewed,
                        status: String::from_str("Updated repo config file"),
                    },
                )
            } else {
                Ok(ReviewStep::SelectChanges { old: files.config, new: files.managed })
            }
        },
    }
}

/// How the user's selection of changes ended.
#[derive(Debug)]
pub enum SelectionOutcome {
    /// The sections of the file with the user's picks.
    Selected(Vec<Section>),
    /// The two copies could not be compared.
    DiffFailed,
    /// The selection was abandoned or failed.
    SelectionFailed,
}

/// The step after the user's selection.
pub open spec fn review_after_selection(
    outcome: SelectionOutcome,
    managed: Seq<char>,
) -> Result<ReviewStepView, CommandErrorView> {
    match outcome {
        SelectionOutcome::Selected(sections) => Ok(
            ReviewStepView::Write {
                config: reconstructed(sections@),
                last_reviewed: managed,
                status: "Updated repo config file"@,
            },
        ),
        SelectionOutcome::DiffFailed => Err(internal_error_view("Failed to create diff sections"@)),
        SelectionOutcome::SelectionFailed => Err(user_error_view("Failed to select changes"@)),
    }
}

/// Decides what follows the user's selection: the copy in use is rebuilt
/// from the picks and the copy under version control is recorded as
/// reviewed, or the command fails as the selection did.
pub fn review_selected(outcome: SelectionOutcome, managed: String) -> (step: Result<
    ReviewStep,
    CommandError,
>)
    ensures
        step_view(step) == review_after_selection(outcome, managed@),
{
    match outcome {
        SelectionOutcome::Selected(sections) => {
            let config = reconstruct(&sections);
            Ok(
                ReviewStep::Write {
                    config,
                    last_reviewed: managed,
                    status: String::from_str("Updated repo config file"),
                },
            )
        },
        SelectionOutcome::DiffFailed => Err(
            internal_error(String::from_str("Failed to create diff sections")),
        ),
        SelectionOutcome::SelectionFailed => Err(
            user_error(String::from_str("Failed to select changes")),
        ),
    }
}

} // verus!
