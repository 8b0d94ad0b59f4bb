//! Helpers around revsets that users write: loading their aliases, and
//! reading a revset that must name one commit.

use vstd::prelude::*;
use vstd::string::StringExecFns;
use crate::command_error::{
    internal_error, internal_error_view, user_error, user_error_view, CommandError,
    CommandErrorKind, CommandErrorView,
};
use crate::ids::CommitId;
use crate::text::{string_views, text_order, TextOrder};

verus! {

/// Where a layer of the configuration comes from, from the weakest to the
/// strongest.
#[derive(Clone, Copy, Debug, PartialEq, Eq, Structural)]
pub enum ConfigSource {
    Default,
    EnvBase,
    User,
    RepoManaged,
    Repo,
    EnvOverrides,
    CommandArg,
}

/// Whether the alias is one of the built-in aliases about mutability, which
/// users should leave alone.
pub open spec fn is_mutability_builtin(name: Seq<char>) -> bool {
    name == "mutable()"@ || name == "immutable()"@ || name == "builtin_immutable_heads()"@
}

/// The warning for a built-in alias about mutability that a layer other
/// than the built-in one defines.
pub open spec fn redefined_builtin_warning(name: Seq<char>) -> Seq<char> {
    "Redefining `revset-aliases."@ + name
        + "` is not recommended; redefine `immutable_heads()` instead"@
}

/// The warning, if any, for an alias that a layer defines.
pub open spec fn redefinition_warning(source: ConfigSource, name: Seq<char>) -> Option<Seq<char>> {
    if source != ConfigSource::Default && is_mutability_builtin(name) {
        Some(redefined_builtin_warning(name))
    } else {
        None
    }
}

/// What an optional string holds, as plain values.
pub open spec fn optional_text(text: Option<String>) -> Option<Seq<char>> {
    match text {
        Some(t) => Some(t@),
        None => None,
    }
}

/// Warns where a layer other than the built-in one redefines a built-in
/// alias about mutability.
pub fn warn_user_redefined_builtin(source: ConfigSource, name: &str) -> (warning: Option<String>)
    ensures
        optional_text(warning) == redefinition_warning(source, name@),
{
    match source {
        ConfigSource::Default => None,
        _ => {
            let checked = text_order(name, "mutable()") == TextOrder::Same || text_order(
                name,
                "immutable()",
            ) == TextOrder::Same || text_order(name, "builtin_immutable_heads()")
                == TextOrder::Same;
            if checked {
                let mut warning = String::from_str("Redefining `revset-aliases.");
                warning.append(name);
                warning.append("` is not recommended; redefine `immutable_heads()` instead");
                Some(warning)
            } else {
                None
            }
        },
    }
}

/// A value of the configuration, as far as aliases look at it.
#[derive(Debug)]
pub enum AliasValue {
    /// A string, and what is wrong with the alias it defines, if anything.
    Text { value: String, rejected: Option<String> },
    /// Something else, by the name of its type.
    Other { kind_name: String },
}

/// One entry of a table of aliases: the declaration and its value.
#[derive(Debug)]
pub struct AliasEntry {
    pub declaration: String,
    pub value: AliasValue,
}

/// What a layer holds under the name of the table of aliases.
#[derive(Debug)]
pub enum AliasTable {
    /// Nothing.
    Missing,
    /// Something that is no table, by the name of its type.
    NotATable { kind_name: String },
    /// The entries of the table, in their order.
    Entries(Vec<AliasEntry>),
}

/// One layer of the configuration.
#[derive(Debug)]
pub struct ConfigLayer {
    pub source: ConfigSource,
    /// The file the layer was read from, if it was read from one.
    pub path: Option<String>,
    pub aliases: AliasTable,
}

/// An alias that was accepted.
#[derive(Debug)]
pub struct LoadedAlias {
    pub declaration: String,
    pub definition: String,
}

/// A loaded alias as plain values.
pub struct LoadedAliasView {
    pub declaration: Seq<char>,
    pub definition: Seq<char>,
}

impl View for LoadedAlias {
    type V = LoadedAliasView;

    open spec fn view(&self) -> LoadedAliasView {
        LoadedAliasView { declaration: self.declaration@, definition: self.definition@ }
    }
}

/// The aliases loaded from the layers and the warnings given on the way.
#[derive(Debug)]
pub struct LoadedAliases {
    /// The accepted aliases in the order in which they were read. A later
    /// one replaces an earlier one of the same declaration.
    pub aliases: Vec<LoadedAlias>,
    pub warnings: Vec<String>,
}

/// Loaded aliases as plain values.
pub struct LoadedAliasesView {
    pub aliases: Seq<LoadedAliasView>,
    pub warnings: Seq<Seq<char>>,
}

impl View for LoadedAliases {
    type V = LoadedAliasesView;

    open spec fn view(&self) -> LoadedAliasesView {
        LoadedAliasesView {
            aliases: self.aliases@.map_values(|a: LoadedAlias| a@),
            warnings: string_views(self.warnings@),
        }
    }
}

/// The warning for an alias that could not be loaded.
pub open spec fn failed_alias_warning(declaration: Seq<char>, reason: Seq<char>) -> Seq<char> {
    "Failed to load `revset-aliases."@ + declaration + "`: "@ + reason
}

/// Why the value of an entry cannot be loaded, if it cannot.
pub open spec fn rejection_of(value: AliasValue) -> Option<Seq<char>> {
    match value {
        AliasValue::Text { value, rejected } => optional_text(rejected),
        AliasValue::Other { kind_name } => Some("Expected a string, but is "@ + kind_name@),
    }
}

/// What has been loaded after one more entry of a layer.
pub open spec fn with_entry(
    loaded: LoadedAliasesView,
    source: ConfigSource,
    entry: AliasEntry,
) -> LoadedAliasesView {
    let warned = match redefinition_warning(source, entry.declaration@) {
        Some(warning) => loaded.warnings.push(warning),
        None => loaded.warnings,
    };
    match rejection_of(entry.value) {
        Some(reason) => LoadedAliasesView {
            aliases: loaded.aliases,
            warnings: warned.push(failed_alias_warning(entry.declaration@, reason)),
        },
        None => LoadedAliasesView {
            aliases: loaded.aliases.push(
                LoadedAliasView {
                    declaration: entry.declaration@,
                    definition: entry.value->Text_value@,
                },
            ),
            warnings: warned,
        },
    }
}

/// What has been loaded after the entries of a layer.
pub open spec fn with_entries(
    loaded: LoadedAliasesView,
    source: ConfigSource,
    entries: Seq<AliasEntry>,
) -> LoadedAliasesView
    decreases entries.len(),
{
    if entries.len() == 0 {
        loaded
    } else {
        with_entry(with_entries(loaded, source, entries.drop_last()), source, entries.last())
    }
}

/// The error for a layer that holds something else than a table under the
/// name of the table of aliases.
pub open spec fn not_a_table_error(kind_name: Seq<char>, path: Option<Seq<char>>) -> CommandErrorView {
    CommandErrorView {
        kind: CommandErrorKind::User,
        message: "Invalid type or value for revset-aliases"@,
        hints: match path {
            Some(p) => seq!["Expected a table, but is "@ + kind_name, p],
            None => seq!["Expected a table, but is "@ + kind_name],
        },
    }
}

/// What has been loaded after the layers, weakest first, or the error of
/// the first layer that holds no table where it should.
pub open spec fn loaded_from(layers: Seq<ConfigLayer>) -> Result<LoadedAliasesView, CommandErrorView>
    decreases layers.len(),
{
    if layers.len() == 0 {
        Ok(LoadedAliasesView { aliases: Seq::empty(), warnings: Seq::empty() })
    } else {
        match loaded_from(layers.drop_last()) {
            Err(error) => Err(error),
            Ok(loaded) => match layers.last().aliases {
                AliasTable::Missing => Ok(loaded),
                AliasTable::NotATable { kind_name } => Err(
                    not_a_table_error(kind_name@, optional_text(layers.last().path)),
                ),
                AliasTable::Entries(entries) => Ok(
                    with_entries(loaded, layers.last().source, entries@),
                ),
            },
        }
    }
}

/// What a result of loading holds, as plain values.
pub open spec fn loaded_view(loaded: Result<LoadedAliases, CommandError>) -> Result<
    LoadedAliasesView,
    CommandErrorView,
> {
    match loaded {
        Ok(l) => Ok(l@),
        Err(error) => Err(error@),
    }
}

/// Once a layer has failed, the error stays whatever follows.
pub proof fn lemma_loading_error_stays(layers: Seq<ConfigLayer>, at: int)
    requires
        0 <= at <= layers.len(),
        loaded_from(layers.subrange(0, at)) is Err,
    ensures
        loaded_from(layers) == loaded_from(layers.subrange(0, at)),
    decreases layers.len() - at,
{
    if at < layers.len() {
        let next = layers.subrange(0, at + 1);
        assert(next.drop_last() =~= layers.subrange(0, at));
        lemma_loading_error_stays(layers, at + 1);
    } else {
        assert(layers.subrange(0, at) =~= layers);
    }
}

/// Loads the aliases of revsets from the layers of the configuration, the
/// weakest layer first, so that a stronger layer replaces what a weaker one
/// defines.
///
/// A layer that holds something else than a table under the name of the
/// table of aliases ends the loading with an error. An entry whose value is
/// no string, or whose alias is rejected, gives a warning and is left out.
pub fn load_revset_aliases(layers: &Vec<ConfigLayer>) -> (loaded: Result<LoadedAliases, CommandError>)
    ensures
        loaded_view(loaded) == loaded_from(layers@),
{
    let mut loaded = LoadedAliases { aliases: Vec::new(), warnings: Vec::new() };
    assert(loaded@.aliases =~= Seq::<LoadedAliasView>::empty());
    assert(loaded@.warnings =~= Seq::<Seq<char>>::empty());
    let mut l: usize = 0;
    while l < layers.len()
        invariant
            l <= layers.len(),
            loaded_from(layers@.subrange(0, l as int)) == Ok::<
                LoadedAliasesView,
                CommandErrorView,
            >(loaded@),
        decreases layers.len() - l,
    {
        let layer = &layers[l];
        proof {
            let upto = layers@.subrange(0, l + 1);
            assert(upto.drop_last() =~= layers@.subrange(0, l as int));
            assert(upto.last() == *layer);
        }
        match &layer.aliases {
            AliasTable::Missing => {},
            AliasTable::NotATable { kind_name } => {
                let mut error = user_error(
                    String::from_str("Invalid type or value for revset-aliases"),
                );
                let mut reason = String::from_str("Expected a table, but is ");
                reason.append(kind_name.as_str());
                error.add_hint(reason);
                match &layer.path {
                    Some(path) => {
                        error.add_hint(path.clone());
                    },
                    None => {},
                }
                proof {
                    assert(error@.hints =~= not_a_table_error(
                        kind_name@,
                        optional_text(layer.path),
                    ).hints);
                    lemma_loading_error_stays(layers@, l + 1);
                }
                return Err(error);
            },
            AliasTable::Entries(entries) => {
                let ghost start = loaded@;
                let mut e: usize = 0;
                while e < entries.len()
                    invariant
                        e <= entries.len(),
                        loaded@ == with_entries(start, layer.source, entries@.subrange(0, e as int)),
                    decreases entries.len() - e,
                {
                    let entry = &entries[e];
                    proof {
                        let upto = entries@.subrange(0, e + 1);
                        assert(upto.drop_last() =~= entries@.subrange(0, e as int));
                        assert(upto.last() == *entry);
                    }
                    let ghost before = loaded@;
                    match warn_user_redefined_builtin(layer.source, entry.declaration.as_str()) {
                        Some(warning) => {
                            loaded.warnings.push(warning);
                        },
                        None => {},
                    }
                    let ghost warned = loaded@.warnings;
                    let rejection: Option<String> = match &entry.value {
                        AliasValue::Text { value, rejected } => match rejected {
                            Some(reason) => Some(reason.clone()),
                            None => None,
                        },
                        AliasValue::Other { kind_name } => {
                            let mut reason = String::from_str("Expected a string, but is ");
                            reason.append(kind_name.as_str());
                            Some(reason)
                        },
                    };
                    assert(optional_text(rejection) == rejection_of(entry.value));
                    match rejection {
                        Some(reason) => {
                            let mut warning = String::from_str("Failed to load `revset-aliases.");
                            warning.append(entry.declaration.as_str());
                            warning.append("`: ");
                            warning.append(reason.as_str());
                            loaded.warnings.push(warning);
                        },
                        None => {
                            match &entry.value {
                                AliasValue::Text { value, rejected } => {
                                    loaded.aliases.push(
                                        LoadedAlias {
                                            declaration: entry.declaration.clone(),
                                            definition: value.clone(),
                                        },
                                    );
                                },
                                AliasValue::Other { kind_name } => {},
                            }
                        },
                    }
                    proof {
                        let wanted = with_entry(before, layer.source, *entry);
                        assert(loaded@.aliases =~= wanted.aliases);
                        assert(loaded@.warnings =~= wanted.warnings);
                    }
                    e += 1;
                }
                assert(entries@.subrange(0, entries.len() as int) =~= entries@);
            },
        }
        l += 1;
    }
    assert(layers@.subrange(0, layers.len() as int) =~= layers@);
    Ok(loaded)
}

/// What the evaluation of a revset gave for one commit: the commit with its
/// summary line, or the text of the error.
#[derive(Debug)]
pub enum EvaluatedCommit {
    Commit { id: CommitId, summary: String },
    Failed(String),
}

/// The error for a revset that names no revision.
pub open spec fn no_revisions_error(revision: Seq<char>) -> CommandErrorView {
    user_error_view("Revset `"@ + revision + "` didn't resolve to any revisions"@)
}

/// The lines of the hint that lists the revisions a revset named.
pub open spec fn revisions_hint_lines(summaries: Seq<Seq<char>>) -> Seq<char>
    decreases summaries.len(),
{
    if summaries.len() == 0 {
        Seq::empty()
    } else {
        revisions_hint_lines(summaries.drop_last()) + "  "@ + summaries.last() + "\n"@
    }
}

/// The hint that lists the revisions a revset named, with a last line of
/// dots where more revisions were left out.
pub open spec fn revisions_hint(revision: Seq<char>, summaries: Seq<Seq<char>>, elided: bool) -> Seq<
    char,
> {
    let listed = "The revset `"@ + revision + "` resolved to these revisions:\n"@
        + revisions_hint_lines(summaries);
    if elided {
        listed + "  ...\n"@
    } else {
        listed
    }
}

/// The error for a revset that names more than one revision.
pub open spec fn multiple_revisions_error(
    revision: Seq<char>,
    summaries: Seq<Seq<char>>,
    elided: bool,
) -> CommandErrorView {
    CommandErrorView {
        kind: CommandErrorKind::User,
        message: "Revset `"@ + revision + "` resolved to more than one revision"@,
        hints: seq![revisions_hint(revision, summaries, elided)],
    }
}

/// Makes the error for a revset that names more than one revision. The
/// hint lists the revisions given, and ends in dots where more were left
/// out.
pub fn format_multiple_revisions_error(revision_str: &str, summaries: &Vec<String>, elided: bool) -> (error:
    CommandError)
    requires
        summaries.len() >= 2,
    ensures
        error@ == multiple_revisions_error(revision_str@, string_views(summaries@), elided),
{
    let mut message = String::from_str("Revset `");
    message.append(revision_str);
    message.append("` resolved to more than one revision");
    let mut error = user_error(message);
    let mut hint = String::from_str("The revset `");
    hint.append(revision_str);
    hint.append("` resolved to these revisions:\n");
    let ghost head = hint@;
    let mut i: usize = 0;
    while i < summaries.len()
        invariant
            i <= summaries.len(),
            hint@ == head + revisions_hint_lines(string_views(summaries@).subrange(0, i as int)),
        decreases summaries.len() - i,
    {
        proof {
            let upto = string_views(summaries@).subrange(0, i + 1);
            assert(upto.drop_last() =~= string_views(summaries@).subrange(0, i as int));
            assert(upto.last() == summaries@[i as int]@);
        }
        hint.append("  ");
        hint.append(summaries[i].as_str());
        hint.append("\n");
        assert(hint@ =~= head + revisions_hint_lines(
            string_views(summaries@).subrange(0, i + 1),
        ));
        i += 1;
    }
    assert(string_views(summaries@).subrange(0, summaries.len() as int) =~= string_views(
        summaries@,
    ));
    if elided {
        hint.append("  ...\n");
    }
    error.add_hint(hint);
    assert(error@.hints =~= seq![revisions_hint(revision_str@, string_views(summaries@), elided)]);
    error
}

/// The summaries of the first `upto` evaluated commits, or the text of the
/// first failure among them.
pub open spec fn summaries_upto(commits: Seq<EvaluatedCommit>, upto: int) -> Result<
    Seq<Seq<char>>,
    Seq<char>,
>
    decreases upto,
{
    if upto <= 0 {
        Ok(Seq::empty())
    } else {
        match summaries_upto(commits, upto - 1) {
            Err(reason) => Err(reason),
            Ok(summaries) => match commits[upto - 1] {
                EvaluatedCommit::Commit { id, summary } => Ok(summaries.push(summary@)),
                EvaluatedCommit::Failed(reason) => Err(reason@),
            },
        }
    }
}

/// What a revset that must name one commit gives.
///
/// `commits` are the first commits that the revset evaluates to, as far as
/// they were asked for. One commit is the answer. None is an error. Of more
/// than one, the first five are listed in the error, with dots where there
/// is a sixth. A failed evaluation among those looked at is the error.
pub open spec fn single_commit_of(revision: Seq<char>, commits: Seq<EvaluatedCommit>) -> Result<
    Seq<u8>,
    CommandErrorView,
> {
    if commits.len() == 0 {
        Err(no_revisions_error(revision))
    } else if commits.len() == 1 {
        match commits[0] {
            EvaluatedCommit::Commit { id, summary } => Ok(id@),
            EvaluatedCommit::Failed(reason) => Err(internal_error_view(reason@)),
        }
    } else {
        let shown = if commits.len() < 5 {
            commits.len() as int
        } else {
            5
        };
        match summaries_upto(commits, shown) {
            Err(reason) => Err(internal_error_view(reason)),
            Ok(summaries) => Err(multiple_revisions_error(revision, summaries, commits.len() > 5)),
        }
    }
}

/// What a result of a commit id holds, as plain values.
pub open spec fn single_view(found: Result<CommitId, CommandError>) -> Result<
    Seq<u8>,
    CommandErrorView,
> {
    match found {
        Ok(id) => Ok(id@),
        Err(error) => Err(error@),
    }
}

/// Reads a revset that must name one commit.
pub fn evaluate_revset_to_single_commit(revision_str: &str, commits: &Vec<EvaluatedCommit>) -> (found:
    Result<CommitId, CommandError>)
    ensures
        single_view(found) == single_commit_of(revision_str@, commits@),
{
    if commits.len() == 0 {
        let mut message = String::from_str("Revset `");
        message.append(revision_str);
        message.append("` didn't resolve to any revisions");
        return Err(user_error(message));
    }
    if commits.len() == 1 {
        return match &commits[0] {
            EvaluatedCommit::Commit { id, summary } => Ok(id.clone()),
            EvaluatedCommit::Failed(reason) => Err(internal_error(reason.clone())),
        };
    }
    let shown: usize = if commits.len() < 5 {
        commits.len()
    } else {
        5
    };
    let mut summaries: Vec<String> = Vec::new();
    let mut i: usize = 0;
    assert(string_views(summaries@) =~= Seq::<Seq<char>>::empty());
    while i < shown
        invariant
            commits.len() >= 2,
            shown == if commits.len() < 5 {
                commits.len()
            } else {
                5usize
            },
            i <= shown,
            summaries.len() == i,
            summaries_upto(commits@, i as int) == Ok::<Seq<Seq<char>>, Seq<char>>(
                string_views(summaries@),
            ),
        decreases shown - i,
    {
        let ghost before = string_views(summaries@);
        match &commits[i] {
            EvaluatedCommit::Commit { id, summary } => {
                summaries.push(summary.clone());
                assert(string_views(summaries@) =~= before.push(summary@));
            },
            EvaluatedCommit::Failed(reason) => {
                proof {
                    assert(summaries_upto(commits@, i + 1) == Err::<Seq<Seq<char>>, Seq<char>>(
                        reason@,
                    ));
                    lemma_summaries_error_stays(commits@, i + 1, shown as int);
                }
                return Err(internal_error(reason.clone()));
            },
        }
        i += 1;
    }
    Err(format_multiple_revisions_error(revision_str, &summaries, commits.len() > 5))
}

/// Once an evaluation has failed, the failure stays whatever follows.
pub proof fn lemma_summaries_error_stays(commits: Seq<EvaluatedCommit>, at: int, upto: int)
    requires
        0 <= at <= upto,
        summaries_upto(commits, at) is Err,
    ensures
        summaries_upto(commits, upto) == summaries_upto(commits, at),
    decreases upto - at,
{
    if at < upto {
        lemma_summaries_error_stays(commits, at, upto - 1);
    }
}

/// Why a text is no name of a bookmark.
#[derive(Debug)]
pub struct BookmarkNameParseError {
    /// The text as it was given.
    pub input: String,
    /// What the symbol parser said of it.
    pub reason: String,
}

impl BookmarkNameParseError {
    /// The error as a user reads it.
    pub open spec fn text(&self) -> Seq<char> {
        "Failed to parse bookmark name: "@ + self.reason@
    }

    /// The error as a user reads it.
    pub fn to_text(&self) -> (text: String)
        ensures
            text@ == self.text(),
    {
        let mut text = String::from_str("Failed to parse bookmark name: ");
        text.append(self.reason.as_str());
        text
    }
}

/// What [`parse_bookmark_name`] gives for a text and the symbol parser's
/// answer to it.
pub open spec fn bookmark_name_of(text: Seq<char>, parsed: Result<String, String>) -> Result<
    Seq<char>,
    (Seq<char>, Seq<char>),
> {
    match parsed {
        Ok(name) => Ok(name@),
        Err(reason) => Err((text, reason@)),
    }
}

/// A parsed name as plain values: the name, or the input and the reason.
pub open spec fn bookmark_name_view(name: Result<String, BookmarkNameParseError>) -> Result<
    Seq<char>,
    (Seq<char>, Seq<char>),
> {
    match name {
        Ok(n) => Ok(n@),
        Err(e) => Err((e.input@, e.reason@)),
    }
}

/// Reads a bookmark name written as a revset symbol.
///
/// `parsed` is the answer of the symbol parser to `text`: the name with
/// quotes and escapes resolved, or why the text is no symbol. A name is
/// handed on as it is; a failure is kept together with the input.
pub fn parse_bookmark_name(text: &str, parsed: Result<String, String>) -> (name: Result<
    String,
    BookmarkNameParseError,
>)
    ensures
        bookmark_name_view(name) == bookmark_name_of(text@, parsed),
{
    match parsed {
        Ok(name) => Ok(name),
        Err(reason) => Err(BookmarkNameParseError { input: String::from_str(text), reason }),
    }
}

} // verus!
