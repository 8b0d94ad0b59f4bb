//! Git commands: which remotes a set of patterns names, and the small
//! decisions around a Git-backed repository.

use vstd::prelude::*;
use vstd::string::StringExecFns;
use crate::command_error::{user_error, user_error_view, CommandError, CommandErrorView};
use crate::commands::bookmark::{matches_some, some_matches, some_pattern_matches};
use crate::commands::sync::GitSyncArgs;
use crate::refs::{symbol_text, RemoteRefSymbol};
use crate::str_pattern::StringPattern;
use crate::text::{
    lemma_push_contains, lemma_text_lt_transitive, sorted_strings, string_views, text_le, text_lt,
    texts_sorted, texts_strictly_sorted,
};

verus! {

/// When to fetch tags from a remote.
#[derive(Clone, Copy, Debug, PartialEq, Eq, Structural)]
pub enum RemoteFetchTagsMode {
    /// Always fetch all tags.
    All,
    /// Only fetch tags that point to objects that are already being
    /// transmitted.
    Included,
    /// Do not fetch any tags.
    Never,
}

/// The one remote of a repository, where it has exactly one.
pub fn get_single_remote(names: Vec<String>) -> (single: Option<String>)
    ensures
        names.len() == 1 ==> single == Some(names[0]),
        names.len() != 1 ==> single is None,
{
    let mut names = names;
    if names.len() == 1 {
        names.pop()
    } else {
        None
    }
}

/// A file to write below the workspace root.
#[derive(Debug)]
pub struct FileToWrite {
    /// The names of the directories from the workspace root down, then the
    /// name of the file.
    pub path: Vec<String>,
    pub contents: String,
}

/// The ignore file that keeps Git from seeing the repository's own
/// directory, where the working copy is shared with Git; nothing where it is
/// not.
pub fn maybe_add_gitignore(working_copy_shared_with_git: bool) -> (file: Option<FileToWrite>)
    ensures
        file is Some <==> working_copy_shared_with_git,
        file is Some ==> {
            &&& string_views(file->0.path@) == seq![".jj"@, ".gitignore"@]
            &&& file->0.contents@ == "/*\n"@
        },
{
    if working_copy_shared_with_git {
        let mut path: Vec<String> = Vec::new();
        path.push(String::from_str(".jj"));
        path.push(String::from_str(".gitignore"));
        assert(string_views(path@) =~= seq![".jj"@, ".gitignore"@]);
        Some(FileToWrite { path, contents: String::from_str("/*\n") })
    } else {
        None
    }
}

/// The warning for a pattern that matches no remote.
pub open spec fn no_remote_warning(pattern: StringPattern) -> Seq<char> {
    "No git remotes matching '"@ + pattern.source() + "'"@
}

/// The warnings for the patterns that match no remote, in the order of the
/// patterns.
pub open spec fn no_remote_warnings(
    patterns: Seq<StringPattern>,
    remotes: Seq<Seq<char>>,
) -> Seq<Seq<char>>
    decreases patterns.len(),
{
    if patterns.len() == 0 {
        Seq::empty()
    } else {
        let before = no_remote_warnings(patterns.drop_last(), remotes);
        if matches_some(patterns.last(), remotes) {
            before
        } else {
            before.push(no_remote_warning(patterns.last()))
        }
    }
}

/// Whether the remote is one that the patterns name.
pub open spec fn is_named_remote(
    patterns: Seq<StringPattern>,
    remotes: Seq<Seq<char>>,
    name: Seq<char>,
) -> bool {
    remotes.contains(name) && some_matches(patterns, name)
}

/// The remotes that a set of patterns names.
#[derive(Debug)]
pub struct ResolvedRemotes {
    /// One warning for each pattern that matches no remote.
    pub warnings: Vec<String>,
    /// The names of the matching remotes in ascending order, each once; an
    /// error where there is none.
    pub remotes: Result<Vec<String>, CommandError>,
}

/// Removes repeated strings from a sorted list.
pub fn dedup_sorted(items: &Vec<String>) -> (out: Vec<String>)
    requires
        texts_sorted(string_views(items@)),
    ensures
        texts_strictly_sorted(string_views(out@)),
        forall|x: Seq<char>| string_views(out@).contains(x) <==> string_views(items@).contains(x),
{
    let ghost all = string_views(items@);
    let mut out: Vec<String> = Vec::new();
    let mut i: usize = 0;
    while i < items.len()
        invariant
            all == string_views(items@),
            texts_sorted(all),
            i <= items.len(),
            texts_strictly_sorted(string_views(out@)),
            forall|x: Seq<char>|
                string_views(out@).contains(x) <==> all.subrange(0, i as int).contains(x),
            i > 0 ==> out.len() > 0 && out@[out.len() - 1]@ == all[i - 1],
            i == 0 ==> out.len() == 0,
        decreases items.len() - i,
    {
        let item = &items[i];
        let ghost before = string_views(out@);
        let ghost seen = all.subrange(0, i as int);
        let ghost grown = all.subrange(0, i + 1);
        assert(all[i as int] == item@);
        assert(grown =~= seen.push(item@));
        let fresh: bool = if out.len() == 0 {
            true
        } else {
            !(out[out.len() - 1] == *item)
        };
        if fresh {
            out.push(item.clone());
            proof {
                let after = string_views(out@);
                assert(after =~= before.push(item@));
                assert forall|a: int, b: int| 0 <= a < b < after.len() implies text_lt(
                    after[a],
                    after[b],
                ) by {
                    if b < before.len() {
                        assert(text_lt(before[a], before[b]));
                    } else {
                        let last = before.len() - 1;
                        assert(before[last] == all[i - 1]);
                        assert(text_le(all[i - 1], all[i as int]));
                        if a < last {
                            assert(text_lt(before[a], before[last]));
                            lemma_text_lt_transitive(before[a], before[last], item@);
                        }
                    }
                }
                assert forall|x: Seq<char>| after.contains(x) <==> grown.contains(x) by {
                    lemma_push_contains(before, item@, x);
                    lemma_push_contains(seen, item@, x);
                }
            }
        } else {
            proof {
                assert(before[before.len() - 1] == item@);
                assert(before.contains(item@));
                assert forall|x: Seq<char>| before.contains(x) <==> grown.contains(x) by {
                    lemma_push_contains(seen, item@, x);
                }
            }
        }
        i += 1;
    }
    assert(all.subrange(0, items.len() as int) =~= all);
    out
}

/// Whether the pattern matches one of the names.
fn matches_some_remote(pattern: &StringPattern, names: &Vec<String>) -> (matched: bool)
    ensures
        matched == matches_some(*pattern, string_views(names@)),
{
    let mut i: usize = 0;
    while i < names.len()
        invariant
            i <= names.len(),
            forall|j: int| 0 <= j < i ==> !pattern.matches_text(#[trigger] string_views(names@)[j]),
        decreases names.len() - i,
    {
        assert(string_views(names@)[i as int] == names[i as int]@);
        if pattern.matches(names[i].as_str()) {
            return true;
        }
        i += 1;
    }
    false
}

/// Resolves patterns over remotes into the list of remotes they name.
///
/// A pattern that matches no remote gives a warning. The remotes are those
/// that some pattern matches, in ascending order and each once. Where no
/// remote is left the result is an error.
pub fn resolve_remote_patterns(all_remotes: &Vec<String>, remote_patterns: &Vec<StringPattern>) -> (resolved:
    ResolvedRemotes)
    ensures
        string_views(resolved.warnings@) == no_remote_warnings(
            remote_patterns@,
            string_views(all_remotes@),
        ),
        resolved.remotes is Ok <==> exists|x: Seq<char>|
            is_named_remote(remote_patterns@, string_views(all_remotes@), x),
        resolved.remotes is Ok ==> {
            let names = string_views(resolved.remotes->Ok_0@);
            &&& texts_strictly_sorted(names)
            &&& forall|x: Seq<char>|
                names.contains(x) <==> is_named_remote(
                    remote_patterns@,
                    string_views(all_remotes@),
                    x,
                )
        },
        resolved.remotes is Err ==> resolved.remotes->Err_0@ == user_error_view(
            "No git remotes to sync"@,
        ),
{
    let ghost remotes = string_views(all_remotes@);
    let mut warnings: Vec<String> = Vec::new();
    let mut k: usize = 0;
    while k < remote_patterns.len()
        invariant
            remotes == string_views(all_remotes@),
            k <= remote_patterns.len(),
            string_views(warnings@) == no_remote_warnings(
                remote_patterns@.subrange(0, k as int),
                remotes,
            ),
        decreases remote_patterns.len() - k,
    {
        let pattern = &remote_patterns[k];
        proof {
            let grown = remote_patterns@.subrange(0, k + 1);
            assert(grown.drop_last() =~= remote_patterns@.subrange(0, k as int));
            assert(grown.last() == *pattern);
        }
        if !matches_some_remote(pattern, all_remotes) {
            let mut warning = String::from_str("No git remotes matching '");
            warning.append(pattern.as_str());
            warning.append("'");
            let ghost warnings_before = string_views(warnings@);
            warnings.push(warning);
            assert(string_views(warnings@) =~= warnings_before.push(no_remote_warning(*pattern)));
        }
        k += 1;
    }
    assert(remote_patterns@.subrange(0, remote_patterns.len() as int) =~= remote_patterns@);
    let mut matching: Vec<String> = Vec::new();
    let mut i: usize = 0;
    while i < all_remotes.len()
        invariant
            remotes == string_views(all_remotes@),
            i <= all_remotes.len(),
            forall|x: Seq<char>|
                string_views(matching@).contains(x) <==> is_named_remote(
                    remote_patterns@,
                    remotes.subrange(0, i as int),
                    x,
                ),
        decreases all_remotes.len() - i,
    {
        let name = &all_remotes[i];
        let ghost seen = remotes.subrange(0, i as int);
        let ghost grown = remotes.subrange(0, i + 1);
        let ghost held = string_views(matching@);
        assert(remotes[i as int] == name@);
        assert(grown =~= seen.push(name@));
        if some_pattern_matches(remote_patterns, name.as_str()) {
            matching.push(name.clone());
            proof {
                assert(string_views(matching@) =~= held.push(name@));
                assert forall|x: Seq<char>| string_views(matching@).contains(x) <==> is_named_remote(
                    remote_patterns@,
                    grown,
                    x,
                ) by {
                    lemma_push_contains(held, name@, x);
                    lemma_push_contains(seen, name@, x);
                }
            }
        } else {
            proof {
                assert forall|x: Seq<char>| held.contains(x) <==> is_named_remote(
                    remote_patterns@,
                    grown,
                    x,
                ) by {
                    lemma_push_contains(seen, name@, x);
                }
            }
        }
        i += 1;
    }
    assert(remotes.subrange(0, all_remotes.len() as int) =~= remotes);
    if matching.len() == 0 {
        proof {
            assert forall|x: Seq<char>| !is_named_remote(remote_patterns@, remotes, x) by {
                if is_named_remote(remote_patterns@, remotes, x) {
                    assert(string_views(matching@).contains(x));
                }
            }
        }
        return ResolvedRemotes {
            warnings,
            remotes: Err(user_error(String::from_str("No git remotes to sync"))),
        };
    }
    let ghost unsorted = string_views(matching@);
    let sorted = sorted_strings(matching);
    let names = dedup_sorted(&sorted);
    proof {
        let ordered = string_views(sorted@);
        assert forall|x: Seq<char>| ordered.contains(x) <==> unsorted.contains(x) by {
            vstd::seq_lib::to_multiset_contains(ordered, x);
            vstd::seq_lib::to_multiset_contains(unsorted, x);
        }
        assert(unsorted.contains(unsorted[0]));
        assert(is_named_remote(remote_patterns@, remotes, unsorted[0]));
    }
    ResolvedRemotes { warnings, remotes: Ok(names) }
}

/// The Git subcommands.
///
/// The arguments are carried for the subcommands whose decisions are taken
/// here; the others are named only.
#[derive(Debug)]
pub enum GitCommand {
    Clone,
    Export,
    Fetch,
    Import,
    Init,
    Push,
    Remote(RemoteCommand),
    Root,
    Sync(GitSyncArgs),
}

/// The subcommands that manage remotes.
#[derive(Debug)]
pub enum RemoteCommand {
    Add(GitRemoteAddArgs),
    List,
    Remove,
    Rename,
    SetUrl,
}

/// The part of the program that carries a Git subcommand out.
#[derive(Clone, Copy, Debug, PartialEq, Eq, Structural)]
pub enum GitHandler {
    Clone,
    Export,
    Fetch,
    Import,
    Init,
    Push,
    Remote,
    Root,
    Sync,
}

/// The handler of each subcommand.
pub open spec fn git_handler_of(subcommand: GitCommand) -> GitHandler {
    match subcommand {
        GitCommand::Clone => GitHandler::Clone,
        GitCommand::Export => GitHandler::Export,
        GitCommand::Fetch => GitHandler::Fetch,
        GitCommand::Import => GitHandler::Import,
        GitCommand::Init => GitHandler::Init,
        GitCommand::Push => GitHandler::Push,
        GitCommand::Remote(_) => GitHandler::Remote,
        GitCommand::Root => GitHandler::Root,
        GitCommand::Sync(_) => GitHandler::Sync,
    }
}

/// Says which handler carries the subcommand out.
pub fn cmd_git(subcommand: &GitCommand) -> (handler: GitHandler)
    ensures
        handler == git_handler_of(*subcommand),
{
    match subcommand {
        GitCommand::Clone => GitHandler::Clone,
        GitCommand::Export => GitHandler::Export,
        GitCommand::Fetch => GitHandler::Fetch,
        GitCommand::Import => GitHandler::Import,
        GitCommand::Init => GitHandler::Init,
        GitCommand::Push => GitHandler::Push,
        GitCommand::Remote(_) => GitHandler::Remote,
        GitCommand::Root => GitHandler::Root,
        GitCommand::Sync(_) => GitHandler::Sync,
    }
}

/// The arguments of the command that adds a remote.
#[derive(Debug)]
pub struct GitRemoteAddArgs {
    /// The name of the remote.
    pub remote: String,
    /// The URL or path of the remote.
    pub url: String,
    /// When to fetch tags.
    pub fetch_tags: RemoteFetchTagsMode,
}

/// A remote to add to the repository.
#[derive(Debug)]
pub struct RemoteToAdd {
    pub name: String,
    /// The URL of the remote, a path made absolute.
    pub url: String,
    pub fetch_tags: RemoteFetchTagsMode,
}

/// Says which remote the command adds: the one named, at the URL made
/// absolute, with the tag mode asked for.
pub fn cmd_git_remote_add(args: &GitRemoteAddArgs, absolute_url: String) -> (remote: RemoteToAdd)
    ensures
        remote.name@ == args.remote@,
        remote.url@ == absolute_url@,
        remote.fetch_tags == args.fetch_tags,
{
    RemoteToAdd { name: args.remote.clone(), url: absolute_url, fetch_tags: args.fetch_tags }
}

/// A value to set in the configuration of the repository, and what to tell
/// the user of it.
#[derive(Debug)]
pub struct ConfigChange {
    /// The names of the tables from the root down, then the name of the
    /// value.
    pub key: Vec<String>,
    pub value: String,
    pub status: String,
}

/// What the user is told when the alias of the trunk is set.
pub open spec fn trunk_alias_status(symbol: Seq<char>) -> Seq<char> {
    "Setting the revset alias `trunk()` to `"@ + symbol + "`"@
}

/// Sets the alias `trunk()` of the repository to a remote bookmark.
pub fn write_repository_level_trunk_alias(symbol: &RemoteRefSymbol) -> (change: ConfigChange)
    ensures
        string_views(change.key@) == seq!["revset-aliases"@, "trunk()"@],
        change.value@ == symbol_text(symbol@),
        change.status@ == trunk_alias_status(symbol_text(symbol@)),
{
    let mut key: Vec<String> = Vec::new();
    key.push(String::from_str("revset-aliases"));
    key.push(String::from_str("trunk()"));
    assert(string_views(key@) =~= seq!["revset-aliases"@, "trunk()"@]);
    let value = crate::commands::bookmark::symbol_to_text(symbol);
    let mut status = String::from_str("Setting the revset alias `trunk()` to `");
    status.append(value.as_str());
    status.append("`");
    ConfigChange { key, value, status }
}

} // verus!
