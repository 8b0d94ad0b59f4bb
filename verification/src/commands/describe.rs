//! Describing commits: which description and author each commit gets,
//! whether an editor is opened, which commits change at all, and what the
//! user is told.

use vstd::prelude::*;
use vstd::string::StringExecFns;
use crate::command_error::{user_error, user_error_view, CommandError, CommandErrorView};
use crate::ids::{hex_of, CommitId};
use crate::text::{decimal, join_strings, joined, push_decimal, string_views};

verus! {

/// The arguments of the describe command.
#[derive(Debug)]
pub struct DescribeArgs {
    /// The revisions whose description to edit, as positional arguments.
    pub revisions_pos: Vec<String>,
    /// The revisions whose description to edit, as options.
    pub revisions_opt: Vec<String>,
    /// The paragraphs of the description to use.
    pub message_paragraphs: Vec<String>,
    /// Read the description from the standard input.
    pub stdin: bool,
    /// Do not open an editor.
    pub no_edit: bool,
    /// Open an editor even where a description is given.
    pub edit: bool,
    /// Reset the author to the configured user.
    pub reset_author: bool,
    /// Set the author to this name and email.
    pub author: Option<(String, String)>,
}

/// A point in time with the offset of its time zone.
#[derive(Clone, Copy, Debug, PartialEq, Eq, Structural)]
pub struct Timestamp {
    pub millis_since_epoch: i64,
    pub tz_offset_minutes: i32,
}

/// Who wrote or committed a commit, and when.
#[derive(Debug)]
pub struct Signature {
    pub name: String,
    pub email: String,
    pub timestamp: Timestamp,
}

/// A signature as plain values.
pub struct SignatureView {
    pub name: Seq<char>,
    pub email: Seq<char>,
    pub timestamp: Timestamp,
}

impl View for Signature {
    type V = SignatureView;

    open spec fn view(&self) -> SignatureView {
        SignatureView { name: self.name@, email: self.email@, timestamp: self.timestamp }
    }
}

impl Clone for Signature {
    fn clone(&self) -> (copy: Self)
        ensures
            copy == *self,
    {
        Signature { name: self.name.clone(), email: self.email.clone(), timestamp: self.timestamp }
    }
}

/// What the command reads of a commit to describe.
#[derive(Debug)]
pub struct CommitToDescribe {
    pub id: CommitId,
    pub description: String,
    pub author: Signature,
}

/// The description and signatures that a commit is to get.
#[derive(Debug)]
pub struct DescribeDraft {
    pub description: String,
    pub author: Signature,
    pub committer: Signature,
}

/// A draft as plain values.
pub struct DraftView {
    pub description: Seq<char>,
    pub author: SignatureView,
    pub committer: SignatureView,
}

impl View for DescribeDraft {
    type V = DraftView;

    open spec fn view(&self) -> DraftView {
        DraftView {
            description: self.description@,
            author: self.author@,
            committer: self.committer@,
        }
    }
}

/// The views of the drafts, in their order.
pub open spec fn draft_views(drafts: Seq<DescribeDraft>) -> Seq<DraftView> {
    drafts.map_values(|d: DescribeDraft| d@)
}

/// The revisions to describe: those given, positional ones first, or the
/// working copy where none is given.
pub open spec fn revisions_to_describe(args: DescribeArgs) -> Seq<Seq<char>> {
    if args.revisions_pos.len() > 0 || args.revisions_opt.len() > 0 {
        string_views(args.revisions_pos@) + string_views(args.revisions_opt@)
    } else {
        seq!["@"@]
    }
}

/// Lists the revisions to describe.
pub fn describe_revisions(args: &DescribeArgs) -> (revisions: Vec<String>)
    ensures
        string_views(revisions@) == revisions_to_describe(*args),
{
    let mut revisions: Vec<String> = Vec::new();
    if args.revisions_pos.len() > 0 || args.revisions_opt.len() > 0 {
        let mut i: usize = 0;
        while i < args.revisions_pos.len()
            invariant
                i <= args.revisions_pos.len(),
                string_views(revisions@) == string_views(args.revisions_pos@).subrange(0, i as int),
            decreases args.revisions_pos.len() - i,
        {
            let ghost before = string_views(revisions@);
            revisions.push(args.revisions_pos[i].clone());
            assert(string_views(revisions@) =~= before.push(args.revisions_pos@[i as int]@));
            assert(string_views(revisions@) =~= string_views(args.revisions_pos@).subrange(
                0,
                i + 1,
            ));
            i += 1;
        }
        let ghost first = string_views(revisions@);
        assert(first =~= string_views(args.revisions_pos@));
        let mut j: usize = 0;
        while j < args.revisions_opt.len()
            invariant
                j <= args.revisions_opt.len(),
                first == string_views(args.revisions_pos@),
                string_views(revisions@) == first + string_views(args.revisions_opt@).subrange(
                    0,
                    j as int,
                ),
            decreases args.revisions_opt.len() - j,
        {
            let ghost before = string_views(revisions@);
            revisions.push(args.revisions_opt[j].clone());
            assert(string_views(revisions@) =~= before.push(args.revisions_opt@[j as int]@));
            assert(string_views(revisions@) =~= first + string_views(args.revisions_opt@).subrange(
                0,
                j + 1,
            ));
            j += 1;
        }
        assert(string_views(args.revisions_opt@).subrange(0, args.revisions_opt.len() as int)
            =~= string_views(args.revisions_opt@));
    } else {
        revisions.push(String::from_str("@"));
        assert(string_views(revisions@) =~= seq!["@"@]);
    }
    revisions
}

/// The text with a line end after it, unless it is empty or ends with one.
pub open spec fn completed_line(text: Seq<char>) -> Seq<char> {
    if text.len() > 0 && text.last() != '\n' {
        text.push('\n')
    } else {
        text
    }
}

/// The paragraphs, each with its line completed.
pub open spec fn completed_paragraphs(paragraphs: Seq<Seq<char>>) -> Seq<Seq<char>> {
    paragraphs.map_values(|p: Seq<char>| completed_line(p))
}

/// The description made of the paragraphs: each with its line completed,
/// and an empty line between each two.
pub open spec fn paragraphs_joined(paragraphs: Seq<Seq<char>>) -> Seq<char> {
    joined(completed_paragraphs(paragraphs), "\n"@)
}

/// Completes the last line of a text.
pub fn complete_newline(text: &String) -> (completed: String)
    ensures
        completed@ == completed_line(text@),
{
    let chars = crate::text::chars_of(text.as_str());
    let mut completed = text.clone();
    if chars.len() > 0 && chars[chars.len() - 1] != '\n' {
        proof {
            reveal_strlit("\n");
        }
        completed.append("\n");
        assert(completed@ =~= text@.push('\n'));
    }
    completed
}

/// Joins the paragraphs of a message into a description.
pub fn join_message_paragraphs(paragraphs: &Vec<String>) -> (description: String)
    ensures
        description@ == paragraphs_joined(string_views(paragraphs@)),
{
    let mut completed: Vec<String> = Vec::new();
    let mut i: usize = 0;
    while i < paragraphs.len()
        invariant
            i <= paragraphs.len(),
            completed.len() == i,
            forall|j: int|
                0 <= j < i ==> (#[trigger] completed@[j])@ == completed_line(paragraphs@[j]@),
        decreases paragraphs.len() - i,
    {
        completed.push(complete_newline(&paragraphs[i]));
        i += 1;
    }
    assert(string_views(completed@) =~= completed_paragraphs(string_views(paragraphs@)));
    join_strings(&completed, "\n")
}

/// The description that all commits get: what was read from the standard
/// input where that was asked for, else the paragraphs given, else none.
pub open spec fn shared_description_of(args: DescribeArgs, stdin_text: Seq<char>) -> Option<
    Seq<char>,
> {
    if args.stdin {
        Some(stdin_text)
    } else if args.message_paragraphs.len() > 0 {
        Some(paragraphs_joined(string_views(args.message_paragraphs@)))
    } else {
        None
    }
}

/// Whether the editor is opened: where asked for, and where no description
/// is given unless that was ruled out.
pub open spec fn uses_editor(args: DescribeArgs) -> bool {
    args.edit || (!args.stdin && args.message_paragraphs.len() == 0 && !args.no_edit)
}

/// The description of the transaction: the first commit and how many more.
pub open spec fn describe_tx_description(ids: Seq<Seq<u8>>) -> Seq<char> {
    if ids.len() == 1 {
        "describe commit "@ + hex_of(ids[0])
    } else {
        "describe commit "@ + hex_of(ids[0]) + " and "@ + decimal((ids.len() - 1) as nat) + " more"@
    }
}

/// The author that a commit gets: the one named on the command line, with
/// the time of the author it would have had; else the committer where the
/// author is reset; else the one it has.
pub open spec fn drafted_author(
    args: DescribeArgs,
    author: SignatureView,
    committer: SignatureView,
) -> SignatureView {
    let base = if args.reset_author {
        committer
    } else {
        author
    };
    match args.author {
        Some(pair) => SignatureView { name: pair.0@, email: pair.1@, timestamp: base.timestamp },
        None => base,
    }
}

/// The draft for a commit.
pub open spec fn draft_of(
    args: DescribeArgs,
    stdin_text: Seq<char>,
    commit: CommitToDescribe,
    committer: SignatureView,
) -> DraftView {
    DraftView {
        description: match shared_description_of(args, stdin_text) {
            Some(text) => text,
            None => commit.description@,
        },
        author: drafted_author(args, commit.author@, committer),
        committer,
    }
}

/// The drafts for the commits, in their order.
pub open spec fn drafts_of(
    args: DescribeArgs,
    stdin_text: Seq<char>,
    commits: Seq<CommitToDescribe>,
    committer: SignatureView,
) -> Seq<DraftView> {
    Seq::new(commits.len(), |i: int| draft_of(args, stdin_text, commits[i], committer))
}

/// How a description starts.
#[derive(Debug)]
pub enum DescribeStart {
    /// There is nothing to describe; the user is told so.
    NoRevisions { status: String },
    /// The commits are to be described as drafted.
    Describe { tx_description: String, drafts: Vec<DescribeDraft>, use_editor: bool },
}

/// The ids of the commits, in their order.
pub open spec fn commit_ids(commits: Seq<CommitToDescribe>) -> Seq<Seq<u8>> {
    commits.map_values(|c: CommitToDescribe| c.id@)
}

/// Decides how the commits are described.
///
/// `commits` are the commits that the revisions name, and `committer` is
/// the signature that rewritten commits get. `stdin_text` is what the
/// standard input held; it is looked at only where the description is to be
/// read from there. Without a commit there is nothing to do. Else each
/// commit gets a draft: the description given, or its own; its author, or
/// the one asked for.
pub fn cmd_describe(
    args: &DescribeArgs,
    commits: &Vec<CommitToDescribe>,
    stdin_text: &String,
    committer: &Signature,
) -> (start: DescribeStart)
    ensures
        commits.len() == 0 ==> (start matches DescribeStart::NoRevisions { status } && status@
            == "No revisions to describe."@),
        commits.len() > 0 ==> {
            &&& start matches DescribeStart::Describe { tx_description, drafts, use_editor }
            &&& tx_description@ == describe_tx_description(commit_ids(commits@))
            &&& draft_views(drafts@) == drafts_of(*args, stdin_text@, commits@, committer@)
            &&& use_editor == uses_editor(*args)
        },
{
    if commits.len() == 0 {
        return DescribeStart::NoRevisions { status: String::from_str("No revisions to describe.") };
    }
    let mut tx_description = String::from_str("describe commit ");
    let first = commits[0].id.hex();
    tx_description.append(first.as_str());
    assert(commit_ids(commits@)[0] == commits@[0].id@);
    if commits.len() > 1 {
        tx_description.append(" and ");
        push_decimal(&mut tx_description, (commits.len() - 1) as u64);
        tx_description.append(" more");
    }
    let shared: Option<String> = if args.stdin {
        Some(stdin_text.clone())
    } else if args.message_paragraphs.len() > 0 {
        Some(join_message_paragraphs(&args.message_paragraphs))
    } else {
        None
    };
    let mut drafts: Vec<DescribeDraft> = Vec::new();
    let mut i: usize = 0;
    while i < commits.len()
        invariant
            i <= commits.len(),
            drafts.len() == i,
            match shared {
                Some(text) => shared_description_of(*args, stdin_text@) == Some(text@),
                None => shared_description_of(*args, stdin_text@) is None,
            },
            forall|j: int|
                0 <= j < i ==> (#[trigger] drafts@[j])@ == draft_of(
                    *args,
                    stdin_text@,
                    commits@[j],
                    committer@,
                ),
        decreases commits.len() - i,
    {
        let commit = &commits[i];
        let description = match &shared {
            Some(text) => text.clone(),
            None => commit.description.clone(),
        };
        let base = if args.reset_author {
            committer.clone()
        } else {
            commit.author.clone()
        };
        let author = match &args.author {
            Some(pair) => Signature {
                name: pair.0.clone(),
                email: pair.1.clone(),
                timestamp: base.timestamp,
            },
            None => base,
        };
        drafts.push(DescribeDraft { description, author, committer: committer.clone() });
        i += 1;
    }
    assert(draft_views(drafts@) =~= drafts_of(*args, stdin_text@, commits@, committer@));
    let use_editor = args.edit || (!args.stdin && args.message_paragraphs.len() == 0
        && !args.no_edit);
    DescribeStart::Describe { tx_description, drafts, use_editor }
}

/// Whether trailers are added to a description: where the editor is opened,
/// and where the description is not empty. An empty description stays
/// empty, so that the commit can still be discarded.
pub fn wants_trailers(use_editor: bool, description: &String) -> (wanted: bool)
    ensures
        wanted == (use_editor || description@.len() > 0),
{
    use_editor || !description.as_str().is_empty()
}

/// What the message edited for several commits lacks or has too much of.
#[derive(Debug)]
pub struct BulkEditFindings {
    /// The commits whose description is not in the message.
    pub missing: Vec<String>,
    /// The commits that the message holds more than once.
    pub duplicates: Vec<String>,
    /// The commits that the message holds and that were not edited.
    pub unexpected: Vec<String>,
}

/// The error for the findings, where there is one: missing commits come
/// first, then duplicates, then unexpected ones.
pub open spec fn bulk_edit_error(findings: BulkEditFindings) -> Option<CommandErrorView> {
    if findings.missing.len() > 0 {
        Some(
            user_error_view(
                "The description for the following commits were not found in the edited message: "@
                    + joined(string_views(findings.missing@), ", "@),
            ),
        )
    } else if findings.duplicates.len() > 0 {
        Some(
            user_error_view(
                "The following commits were found in the edited message multiple times: "@
                    + joined(string_views(findings.duplicates@), ", "@),
            ),
        )
    } else if findings.unexpected.len() > 0 {
        Some(
            user_error_view(
                "The following commits were not being edited, but were found in the edited message: "@
                    + joined(string_views(findings.unexpected@), ", "@),
            ),
        )
    } else {
        None
    }
}

/// Checks the message edited for several commits.
pub fn check_bulk_edit(findings: &BulkEditFindings) -> (checked: Result<(), CommandError>)
    ensures
        match checked {
            Ok(_) => bulk_edit_error(*findings) is None,
            Err(error) => bulk_edit_error(*findings) == Some(error@),
        },
{
    if findings.missing.len() > 0 {
        let mut message = String::from_str(
            "The description for the following commits were not found in the edited message: ",
        );
        let list = join_strings(&findings.missing, ", ");
        message.append(list.as_str());
        Err(user_error(message))
    } else if findings.duplicates.len() > 0 {
        let mut message = String::from_str(
            "The following commits were found in the edited message multiple times: ",
        );
        let list = join_strings(&findings.duplicates, ", ");
        message.append(list.as_str());
        Err(user_error(message))
    } else if findings.unexpected.len() > 0 {
        let mut message = String::from_str(
            "The following commits were not being edited, but were found in the edited message: ",
        );
        let list = join_strings(&findings.unexpected, ", ");
        message.append(list.as_str());
        Err(user_error(message))
    } else {
        Ok(())
    }
}

/// Whether the draft changes the commit: the description differs, the
/// author is reset, or the author's name or email differs. The time of the
/// author does not count.
pub open spec fn draft_changes(reset_author: bool, commit: CommitToDescribe, draft: DraftView) -> bool {
    commit.description@ != draft.description || reset_author || commit.author.name@
        != draft.author.name || commit.author.email@ != draft.author.email
}

/// For each commit that has a draft, whether its draft changes it.
pub open spec fn changes_of(
    reset_author: bool,
    commits: Seq<CommitToDescribe>,
    drafts: Seq<DraftView>,
) -> Seq<bool> {
    Seq::new(
        if commits.len() <= drafts.len() {
            commits.len()
        } else {
            drafts.len()
        },
        |i: int| draft_changes(reset_author, commits[i], drafts[i]),
    )
}

/// Says for each commit whether its draft changes it, so that commits that
/// stay as they are need not be rewritten. Commits and drafts go together
/// by their places; a commit without a draft is not looked at.
pub fn changed_commits(args: &DescribeArgs, commits: &Vec<CommitToDescribe>, drafts: &Vec<DescribeDraft>) -> (changed:
    Vec<bool>)
    ensures
        changed@ == changes_of(args.reset_author, commits@, draft_views(drafts@)),
{
    let count: usize = if commits.len() <= drafts.len() {
        commits.len()
    } else {
        drafts.len()
    };
    let mut changed: Vec<bool> = Vec::new();
    let mut i: usize = 0;
    while i < count
        invariant
            count <= commits.len(),
            count <= drafts.len(),
            i <= count,
            changed.len() == i,
            forall|j: int|
                0 <= j < i ==> changed@[j] == draft_changes(
                    args.reset_author,
                    commits@[j],
                    #[trigger] draft_views(drafts@)[j],
                ),
        decreases count - i,
    {
        let commit = &commits[i];
        let draft = &drafts[i];
        assert(draft_views(drafts@)[i as int] == draft@);
        let differs = !(commit.description == draft.description) || args.reset_author || !(
        commit.author.name == draft.author.name) || !(commit.author.email == draft.author.email);
        changed.push(differs);
        i += 1;
    }
    assert(changed@ =~= changes_of(args.reset_author, commits@, draft_views(drafts@)));
    changed
}

/// What the user is told after the commits have been rewritten: how many
/// were described, where more than one, and how many descendants were
/// rebased, where any.
pub open spec fn describe_report(num_described: u64, num_reparented: u64) -> Seq<Seq<char>> {
    let described = if num_described > 1 {
        seq!["Updated "@ + decimal(num_described as nat) + " commits"@]
    } else {
        Seq::empty()
    };
    if num_reparented > 0 {
        described.push("Rebased "@ + decimal(num_reparented as nat) + " descendant commits"@)
    } else {
        described
    }
}

/// Reports what the rewriting did.
pub fn report_described(num_described: u64, num_reparented: u64) -> (lines: Vec<String>)
    ensures
        string_views(lines@) == describe_report(num_described, num_reparented),
{
    let mut lines: Vec<String> = Vec::new();
    if num_described > 1 {
        let mut line = String::from_str("Updated ");
        push_decimal(&mut line, num_described);
        line.append(" commits");
        lines.push(line);
    }
    if num_reparented > 0 {
        let mut line = String::from_str("Rebased ");
        push_decimal(&mut line, num_reparented);
        line.append(" descendant commits");
        lines.push(line);
    }
    assert(string_views(lines@) =~= describe_report(num_described, num_reparented));
    lines
}

} // verus!
