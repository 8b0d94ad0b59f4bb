//! Bookmark commands: which bookmarks a set of patterns selects, whether a
//! move is a fast-forward, and what tracking remote bookmarks does and says.

use vstd::prelude::*;
use vstd::string::StrSliceExecFns;
use vstd::string::StringExecFns;
use crate::command_error::{user_error, user_error_view, CommandError, CommandErrorView};
use crate::ids::CommitId;
use crate::index::ancestry::{is_ancestor_id, num_edges};
use crate::index::mutable::ReadonlyIndex;
use crate::refs::{
    symbol_lt, lemma_symbol_lt_asymmetric, lemma_symbol_lt_transitive, local_names, remote_symbols,
    symbol_order, symbol_text, symbols_strictly_sorted, LocalBookmark, RefTarget, RemoteBookmark,
    RemoteRef, RemoteRefSymbol, RepoView, SymbolView,
};
use crate::str_pattern::{pattern_of_kind, StringPattern, StringPatternView};
use crate::text::{
    decimal, join_strings, joined, lemma_insert_contains, lemma_insert_index,
    lemma_push_contains, lemma_text_lt_transitive, push_decimal, string_views, text_lt,
    text_order, texts_strictly_sorted, TextOrder,
};

verus! {

/// The bookmark subcommands.
///
/// The arguments are carried for the subcommand whose decisions are taken
/// here; the others are named only.
#[derive(Debug)]
pub enum BookmarkCommand {
    Create,
    Delete,
    Forget,
    List,
    Move,
    Rename,
    SetTarget,
    Track(BookmarkTrackArgs),
    Untrack,
}

/// The part of the program that carries a bookmark subcommand out.
#[derive(Clone, Copy, Debug, PartialEq, Eq, Structural)]
pub enum BookmarkHandler {
    Create,
    Delete,
    Forget,
    List,
    Move,
    Rename,
    SetTarget,
    Track,
    Untrack,
}

/// The handler of each subcommand.
pub open spec fn handler_of(subcommand: BookmarkCommand) -> BookmarkHandler {
    match subcommand {
        BookmarkCommand::Create => BookmarkHandler::Create,
        BookmarkCommand::Delete => BookmarkHandler::Delete,
        BookmarkCommand::Forget => BookmarkHandler::Forget,
        BookmarkCommand::List => BookmarkHandler::List,
        BookmarkCommand::Move => BookmarkHandler::Move,
        BookmarkCommand::Rename => BookmarkHandler::Rename,
        BookmarkCommand::SetTarget => BookmarkHandler::SetTarget,
        BookmarkCommand::Track(_) => BookmarkHandler::Track,
        BookmarkCommand::Untrack => BookmarkHandler::Untrack,
    }
}

/// Says which handler carries the subcommand out.
pub fn cmd_bookmark(subcommand: &BookmarkCommand) -> (handler: BookmarkHandler)
    ensures
        handler == handler_of(*subcommand),
{
    match subcommand {
        BookmarkCommand::Create => BookmarkHandler::Create,
        BookmarkCommand::Delete => BookmarkHandler::Delete,
        BookmarkCommand::Forget => BookmarkHandler::Forget,
        BookmarkCommand::List => BookmarkHandler::List,
        BookmarkCommand::Move => BookmarkHandler::Move,
        BookmarkCommand::Rename => BookmarkHandler::Rename,
        BookmarkCommand::SetTarget => BookmarkHandler::SetTarget,
        BookmarkCommand::Track(_) => BookmarkHandler::Track,
        BookmarkCommand::Untrack => BookmarkHandler::Untrack,
    }
}

/// A pattern over remote bookmarks: one for the name and one for the remote.
#[derive(Debug)]
pub struct RemoteBookmarkNamePattern {
    pub bookmark: StringPattern,
    pub remote: StringPattern,
}

impl RemoteBookmarkNamePattern {
    /// Whether the pattern names one remote bookmark exactly.
    pub fn is_exact(&self) -> (exact: bool)
        ensures
            exact == (self.bookmark is Exact && self.remote is Exact),
    {
        self.bookmark.is_exact() && self.remote.is_exact()
    }

    /// The pattern as the user wrote it: the name pattern, `@`, the remote
    /// pattern.
    pub open spec fn text(&self) -> Seq<char> {
        self.bookmark.source() + "@"@ + self.remote.source()
    }

    /// The pattern as the user wrote it.
    pub fn to_text(&self) -> (text: String)
        ensures
            text@ == self.text(),
    {
        let mut text = String::from_str(self.bookmark.as_str());
        text.append("@");
        text.append(self.remote.as_str());
        text
    }

    /// Whether the pattern matches the remote bookmark of the given name on
    /// the given remote.
    pub open spec fn matches_symbol(&self, name: Seq<char>, remote: Seq<char>) -> bool {
        self.bookmark.matches_text(name) && self.remote.matches_text(remote)
    }
}

/// The arguments of the command that starts tracking remote bookmarks.
#[derive(Debug)]
pub struct BookmarkTrackArgs {
    /// The remote bookmarks to track.
    pub names: Vec<RemoteBookmarkNamePattern>,
}

/// Whether the pattern matches one of the names.
pub open spec fn matches_some(pattern: StringPattern, names: Seq<Seq<char>>) -> bool {
    exists|i: int| 0 <= i < names.len() && pattern.matches_text(#[trigger] names[i])
}

/// Whether one of the patterns matches the name.
pub open spec fn some_matches(patterns: Seq<StringPattern>, name: Seq<char>) -> bool {
    exists|k: int| 0 <= k < patterns.len() && (#[trigger] patterns[k]).matches_text(name)
}

/// The patterns that match none of the names, in their order.
pub open spec fn unmatched_patterns(
    patterns: Seq<StringPattern>,
    names: Seq<Seq<char>>,
) -> Seq<StringPattern>
    decreases patterns.len(),
{
    if patterns.len() == 0 {
        Seq::empty()
    } else {
        let before = unmatched_patterns(patterns.drop_last(), names);
        if matches_some(patterns.last(), names) {
            before
        } else {
            before.push(patterns.last())
        }
    }
}

/// The texts the patterns were made from.
pub open spec fn pattern_sources(patterns: Seq<StringPattern>) -> Seq<Seq<char>> {
    patterns.map_values(|p: StringPattern| p.source())
}

/// The error for patterns that matched no bookmark: a single exact pattern
/// is a bookmark that does not exist, anything else a list of patterns.
pub open spec fn unmatched_error(unmatched: Seq<StringPattern>) -> CommandErrorView {
    if unmatched.len() == 1 && unmatched[0] is Exact {
        user_error_view("No such bookmark: "@ + unmatched[0].source())
    } else {
        user_error_view(
            "No matching bookmarks for patterns: "@ + joined(pattern_sources(unmatched), ", "@),
        )
    }
}

/// The bookmarks that the references point to.
pub open spec fn bookmark_values(list: Seq<&LocalBookmark>) -> Seq<LocalBookmark> {
    list.map_values(|b: &LocalBookmark| *b)
}

/// Whether one of the first `upto` bookmarks carries the name.
pub open spec fn is_named_upto(bookmarks: Seq<LocalBookmark>, upto: int, name: Seq<char>) -> bool {
    exists|j: int| 0 <= j < upto && j < bookmarks.len() && (#[trigger] bookmarks[j]).name@ == name
}

/// Whether a bookmark carries the name and one of the patterns matches it.
pub open spec fn is_selected_name(
    bookmarks: Seq<LocalBookmark>,
    patterns: Seq<StringPattern>,
    name: Seq<char>,
) -> bool {
    is_named_upto(bookmarks, bookmarks.len() as int, name) && some_matches(patterns, name)
}

/// No bookmark before the place `k` carries the name of the bookmark at
/// `k`.
pub open spec fn is_first_of_name(bookmarks: Seq<LocalBookmark>, k: int) -> bool {
    forall|j: int| 0 <= j < k ==> (#[trigger] bookmarks[j]).name@ != bookmarks[k].name@
}

/// Whether the bookmark stands among the bookmarks, as the first of its
/// name.
pub open spec fn is_first_named(bookmarks: Seq<LocalBookmark>, bookmark: LocalBookmark) -> bool {
    exists|k: int|
        0 <= k < bookmarks.len() && bookmarks[k] == bookmark && #[trigger] is_first_of_name(
            bookmarks,
            k,
        )
}

/// Whether the list is what the patterns select among the bookmarks: it
/// stands in the order of the names, each name once; it holds the names
/// that a bookmark carries and a pattern matches, and no other; and for
/// each of them it holds the first bookmark of that name.
pub open spec fn is_selection(
    found: Seq<LocalBookmark>,
    bookmarks: Seq<LocalBookmark>,
    patterns: Seq<StringPattern>,
) -> bool {
    &&& texts_strictly_sorted(local_names(found))
    &&& forall|x: Seq<char>|
        #![trigger local_names(found).contains(x)]
        #![trigger is_selected_name(bookmarks, patterns, x)]
        local_names(found).contains(x) <==> is_selected_name(bookmarks, patterns, x)
    &&& forall|i: int| 0 <= i < found.len() ==> is_first_named(bookmarks, #[trigger] found[i])
}

/// What the patterns select among the bookmarks is one list: two lists
/// that are a selection are the same.
pub proof fn law_selection_is_one(
    first: Seq<LocalBookmark>,
    second: Seq<LocalBookmark>,
    bookmarks: Seq<LocalBookmark>,
    patterns: Seq<StringPattern>,
)
    requires
        is_selection(first, bookmarks, patterns),
        is_selection(second, bookmarks, patterns),
    ensures
        first == second,
{
    let names = local_names(first);
    let others = local_names(second);
    assert forall|x: Seq<char>| names.contains(x) <==> others.contains(x) by {
        assert(names.contains(x) <==> is_selected_name(bookmarks, patterns, x));
        assert(others.contains(x) <==> is_selected_name(bookmarks, patterns, x));
    }
    crate::text::lemma_sorted_lists_agree(names, others);
    assert(names.len() == first.len());
    assert(others.len() == second.len());
    assert(first.len() == second.len());
    assert forall|i: int| 0 <= i < first.len() implies first[i] == second[i] by {
        assert(names[i] == others[i]);
        assert(first[i].name@ == second[i].name@);
        assert(is_first_named(bookmarks, first[i]));
        assert(is_first_named(bookmarks, second[i]));
        let k = choose|k: int|
            0 <= k < bookmarks.len() && bookmarks[k] == first[i] && #[trigger] is_first_of_name(
                bookmarks,
                k,
            );
        let m = choose|m: int|
            0 <= m < bookmarks.len() && bookmarks[m] == second[i] && #[trigger] is_first_of_name(
                bookmarks,
                m,
            );
        if k < m {
            assert(bookmarks[k].name@ != bookmarks[m].name@);
        } else if m < k {
            assert(bookmarks[m].name@ != bookmarks[k].name@);
        }
    }
    assert(first =~= second);
}

/// Whether the result is what the patterns select among the bookmarks:
/// the selection where every pattern matches a bookmark, else the error
/// that names the patterns that match none.
pub open spec fn is_found(
    found: Result<Seq<LocalBookmark>, CommandErrorView>,
    patterns: Seq<StringPattern>,
    bookmarks: Seq<LocalBookmark>,
) -> bool {
    let unmatched = unmatched_patterns(patterns, local_names(bookmarks));
    match found {
        Ok(list) => unmatched.len() == 0 && is_selection(list, bookmarks, patterns),
        Err(error) => unmatched.len() > 0 && error == unmatched_error(unmatched),
    }
}

/// What a result of references to bookmarks holds, as plain values.
pub open spec fn found_view(
    found: Result<Vec<&LocalBookmark>, CommandError>,
) -> Result<Seq<LocalBookmark>, CommandErrorView> {
    match found {
        Ok(list) => Ok(bookmark_values(list@)),
        Err(error) => Err(error@),
    }
}

/// Puts a bookmark at its place in a list ordered by name, unless the list
/// holds a bookmark of its name already.
fn insert_named<'a>(found: &mut Vec<&'a LocalBookmark>, item: &'a LocalBookmark)
    requires
        texts_strictly_sorted(local_names(bookmark_values(old(found)@))),
    ensures
        texts_strictly_sorted(local_names(bookmark_values(final(found)@))),
        forall|x: Seq<char>|
            local_names(bookmark_values(final(found)@)).contains(x) <==> (local_names(
                bookmark_values(old(found)@),
            ).contains(x) || x == item.name@),
        forall|i: int|
            0 <= i < final(found).len() ==> bookmark_values(old(found)@).contains(
                #[trigger] bookmark_values(final(found)@)[i],
            ) || (bookmark_values(final(found)@)[i] == *item && !local_names(
                bookmark_values(old(found)@),
            ).contains(item.name@)),
{
    let ghost before = bookmark_values(found@);
    let ghost names = local_names(before);
    let ghost new_name = item.name@;
    let mut at: usize = 0;
    let mut passed: bool = false;
    while at < found.len() && !passed
        invariant
            bookmark_values(found@) == before,
            found@ == old(found)@,
            names == local_names(before),
            texts_strictly_sorted(names),
            new_name == item.name@,
            at <= found.len(),
            forall|j: int| 0 <= j < at ==> text_lt(#[trigger] names[j], new_name),
            passed ==> at < found.len() && text_lt(new_name, names[at as int]),
        decreases
                found.len() - at,
                if passed {
                    0int
                } else {
                    1int
                },
    {
        assert(names[at as int] == found@[at as int].name@) by {
            assert(before[at as int] == *found@[at as int]);
        }
        match text_order(found[at].name.as_str(), item.name.as_str()) {
            TextOrder::Before => {
                at += 1;
            },
            TextOrder::Same => {
                proof {
                    assert(names.contains(new_name));
                    assert forall|i: int| 0 <= i < found.len() implies before.contains(
                        #[trigger] bookmark_values(found@)[i],
                    ) by {}
                }
                return;
            },
            TextOrder::After => {
                passed = true;
            },
        }
    }
    proof {
        if names.contains(new_name) {
            let j = choose|j: int| 0 <= j < names.len() && names[j] == new_name;
            if j > at {
                assert(text_lt(names[at as int], names[j]));
                crate::text::lemma_text_le_antisymmetric(new_name, names[at as int]);
            }
        }
    }
    found.insert(at, item);
    proof {
        let after = bookmark_values(found@);
        let after_names = local_names(after);
        let grown = names.insert(at as int, new_name);
        assert forall|j: int| 0 <= j < after.len() implies after[j] == before.insert(
            at as int,
            *item,
        )[j] by {
            lemma_insert_index(old(found)@, at as int, item, j);
            lemma_insert_index(before, at as int, *item, j);
            if j < at {
                assert(before[j] == *old(found)@[j]);
            } else if j > at {
                assert(before[j - 1] == *old(found)@[j - 1]);
            }
        }
        lemma_insert_index(before, at as int, *item, at as int);
        assert(after =~= before.insert(at as int, *item));
        assert forall|j: int| 0 <= j < after_names.len() implies after_names[j] == grown[j] by {
            lemma_insert_index(before, at as int, *item, j);
            lemma_insert_index(names, at as int, new_name, j);
        }
        lemma_insert_index(names, at as int, new_name, at as int);
        assert(after_names =~= grown);
        assert forall|i: int, j: int| 0 <= i < j < after_names.len() implies text_lt(
            after_names[i],
            after_names[j],
        ) by {
            lemma_insert_index(names, at as int, new_name, i);
            lemma_insert_index(names, at as int, new_name, j);
            if j < at {
                assert(text_lt(names[i], names[j]));
            } else if j == at {
            } else if i < at {
                if j - 1 > at {
                    assert(text_lt(names[at as int], names[j - 1]));
                    lemma_text_lt_transitive(new_name, names[at as int], names[j - 1]);
                }
                lemma_text_lt_transitive(names[i], new_name, names[j - 1]);
            } else if i == at {
                if j - 1 > at {
                    assert(text_lt(names[at as int], names[j - 1]));
                    lemma_text_lt_transitive(new_name, names[at as int], names[j - 1]);
                }
            } else {
                assert(text_lt(names[i - 1], names[j - 1]));
            }
        }
        assert forall|x: Seq<char>| after_names.contains(x) <==> (names.contains(x) || x
            == new_name) by {
            lemma_insert_contains(names, at as int, new_name, x);
        }
        assert forall|i: int| 0 <= i < found.len() implies before.contains(#[trigger] after[i])
            || (after[i] == *item && !names.contains(new_name)) by {
            lemma_insert_index(before, at as int, *item, i);
            if i < at {
                assert(before[i] == after[i]);
            } else if i > at {
                assert(before[i - 1] == after[i]);
            }
        }
    }
}

/// Whether the pattern matches the name of one of the bookmarks.
fn matches_some_bookmark(pattern: &StringPattern, bookmarks: &Vec<LocalBookmark>) -> (matched: bool)
    ensures
        matched == matches_some(*pattern, local_names(bookmarks@)),
{
    let mut i: usize = 0;
    while i < bookmarks.len()
        invariant
            i <= bookmarks.len(),
            forall|j: int|
                0 <= j < i ==> !pattern.matches_text(#[trigger] local_names(bookmarks@)[j]),
        decreases bookmarks.len() - i,
    {
        if pattern.matches(bookmarks[i].name.as_str()) {
            assert(local_names(bookmarks@)[i as int] == bookmarks[i as int].name@);
            return true;
        }
        assert(local_names(bookmarks@)[i as int] == bookmarks[i as int].name@);
        i += 1;
    }
    false
}

/// Whether one of the patterns matches the name.
pub fn some_pattern_matches(patterns: &Vec<StringPattern>, name: &str) -> (matched: bool)
    ensures
        matched == some_matches(patterns@, name@),
{
    let mut k: usize = 0;
    while k < patterns.len()
        invariant
            k <= patterns.len(),
            forall|j: int| 0 <= j < k ==> !(#[trigger] patterns@[j]).matches_text(name@),
        decreases patterns.len() - k,
    {
        if patterns[k].matches(name) {
            return true;
        }
        k += 1;
    }
    false
}

/// Finds the bookmarks that the patterns select.
///
/// Every pattern has to match a bookmark. The bookmarks come in the order
/// of their names, each name once, however many patterns match it and in
/// whatever order the bookmarks stand; of bookmarks of one name the first
/// is taken. The bookmarks are handed in as a list, so looking them up
/// cannot fail, and the only errors are those of patterns without a match.
pub fn find_bookmarks_with<'a>(
    name_patterns: &Vec<StringPattern>,
    bookmarks: &'a Vec<LocalBookmark>,
) -> (found: Result<Vec<&'a LocalBookmark>, CommandError>)
    ensures
        is_found(found_view(found), name_patterns@, bookmarks@),
{
    let ghost names = local_names(bookmarks@);
    let mut sources: Vec<String> = Vec::new();
    let mut first_is_exact: bool = false;
    let ghost mut unmatched: Seq<StringPattern> = Seq::empty();
    let mut k: usize = 0;
    while k < name_patterns.len()
        invariant
            names == local_names(bookmarks@),
            k <= name_patterns.len(),
            unmatched == unmatched_patterns(name_patterns@.subrange(0, k as int), names),
            sources.len() == unmatched.len(),
            string_views(sources@) == pattern_sources(unmatched),
            unmatched.len() > 0 ==> first_is_exact == (unmatched[0] is Exact),
        decreases name_patterns.len() - k,
    {
        let pattern = &name_patterns[k];
        proof {
            let upto = name_patterns@.subrange(0, k + 1);
            assert(upto.drop_last() =~= name_patterns@.subrange(0, k as int));
            assert(upto.last() == *pattern);
        }
        if !matches_some_bookmark(pattern, bookmarks) {
            if sources.len() == 0 {
                first_is_exact = pattern.is_exact();
            }
            let ghost sources_before = sources@;
            sources.push(String::from_str(pattern.as_str()));
            proof {
                let before = unmatched;
                unmatched = unmatched.push(*pattern);
                assert forall|j: int| 0 <= j < sources@.len() implies string_views(sources@)[j]
                    == pattern_sources(unmatched)[j] by {
                    if j < sources_before.len() {
                        assert(string_views(sources_before)[j] == pattern_sources(before)[j]);
                        assert(sources@[j] == sources_before[j]);
                        assert(unmatched[j] == before[j]);
                    } else {
                        assert(sources@[j]@ == pattern.source());
                        assert(unmatched[j] == *pattern);
                    }
                }
                assert(string_views(sources@) =~= pattern_sources(unmatched));
            }
        }
        k += 1;
    }
    assert(name_patterns@.subrange(0, name_patterns.len() as int) =~= name_patterns@);
    if sources.len() == 1 && first_is_exact {
        let mut message = String::from_str("No such bookmark: ");
        message.append(sources[0].as_str());
        assert(string_views(sources@)[0] == sources@[0]@);
        assert(pattern_sources(unmatched)[0] == unmatched[0].source());
        return Err(user_error(message));
    }
    if sources.len() > 0 {
        let mut message = String::from_str("No matching bookmarks for patterns: ");
        let list = join_strings(&sources, ", ");
        message.append(list.as_str());
        return Err(user_error(message));
    }
    assert(unmatched.len() == 0);
    let mut selected: Vec<&'a LocalBookmark> = Vec::new();
    let mut i: usize = 0;
    assert(local_names(bookmark_values(selected@)) =~= Seq::<Seq<char>>::empty());
    while i < bookmarks.len()
        invariant
            i <= bookmarks.len(),
            texts_strictly_sorted(local_names(bookmark_values(selected@))),
            forall|x: Seq<char>|
                #![trigger local_names(bookmark_values(selected@)).contains(x)]
                #![trigger is_named_upto(bookmarks@, i as int, x)]
                local_names(bookmark_values(selected@)).contains(x) <==> (is_named_upto(
                    bookmarks@,
                    i as int,
                    x,
                ) && some_matches(name_patterns@, x)),
            forall|s: int|
                0 <= s < selected.len() ==> is_first_named(
                    bookmarks@,
                    #[trigger] bookmark_values(selected@)[s],
                ),
        decreases bookmarks.len() - i,
    {
        let bookmark = &bookmarks[i];
        let ghost before = bookmark_values(selected@);
        let ghost name = bookmark.name@;
        let matched = some_pattern_matches(name_patterns, bookmark.name.as_str());
        if matched {
            insert_named(&mut selected, bookmark);
        }
        proof {
            let after = bookmark_values(selected@);
            assert forall|x: Seq<char>|
                #![trigger local_names(after).contains(x)]
                #![trigger is_named_upto(bookmarks@, i + 1, x)]
                local_names(after).contains(x) <==> (is_named_upto(bookmarks@, i + 1, x)
                    && some_matches(name_patterns@, x)) by {
                assert(local_names(before).contains(x) <==> (is_named_upto(
                    bookmarks@,
                    i as int,
                    x,
                ) && some_matches(name_patterns@, x)));
                if is_named_upto(bookmarks@, i as int, x) {
                    let j = choose|j: int|
                        0 <= j < i && j < bookmarks@.len() && (#[trigger] bookmarks@[j]).name@
                            == x;
                    assert(bookmarks@[j].name@ == x);
                    assert(is_named_upto(bookmarks@, i + 1, x));
                }
                if x == name {
                    assert(bookmarks@[i as int].name@ == x);
                    assert(is_named_upto(bookmarks@, i + 1, x));
                }
                if is_named_upto(bookmarks@, i + 1, x) && x != name {
                    let j = choose|j: int|
                        0 <= j < i + 1 && j < bookmarks@.len() && (#[trigger] bookmarks@[j]).name@
                            == x;
                    assert(j < i);
                    assert(is_named_upto(bookmarks@, i as int, x));
                }
            }
            assert forall|s: int| 0 <= s < selected.len() implies is_first_named(
                bookmarks@,
                #[trigger] after[s],
            ) by {
                if !matched || before.contains(after[s]) {
                    if matched {
                        let t = choose|t: int| 0 <= t < before.len() && before[t] == after[s];
                        assert(is_first_named(bookmarks@, before[t]));
                    } else {
                        assert(is_first_named(bookmarks@, before[s]));
                    }
                } else {
                    assert(after[s] == *bookmark);
                    assert(!local_names(before).contains(name));
                    assert(is_first_of_name(bookmarks@, i as int)) by {
                        assert forall|j: int| 0 <= j < i implies (#[trigger] bookmarks@[j]).name@
                            != bookmarks@[i as int].name@ by {
                            if bookmarks@[j].name@ == name {
                                assert(is_named_upto(bookmarks@, i as int, name));
                            }
                        }
                    }
                    assert(bookmarks@[i as int] == after[s]);
                }
            }
        }
        i += 1;
    }
    proof {
        let list = bookmark_values(selected@);
        assert forall|x: Seq<char>|
            #![trigger local_names(list).contains(x)]
            #![trigger is_selected_name(bookmarks@, name_patterns@, x)]
            local_names(list).contains(x) <==> is_selected_name(
                bookmarks@,
                name_patterns@,
                x,
            ) by {
            assert(local_names(list).contains(x) <==> (is_named_upto(
                bookmarks@,
                bookmarks.len() as int,
                x,
            ) && some_matches(name_patterns@, x)));
        }
    }
    Ok(selected)
}

/// Finds the local bookmarks that the patterns select, in the order of
/// their names.
pub fn find_local_bookmarks<'a>(view: &'a RepoView, name_patterns: &Vec<StringPattern>) -> (found:
    Result<Vec<&'a LocalBookmark>, CommandError>)
    ensures
        is_found(found_view(found), name_patterns@, view.local_bookmarks@),
{
    find_bookmarks_with(name_patterns, &view.local_bookmarks)
}

/// Whether one of the commits that the target adds is the given commit or
/// an ancestor of it.
pub open spec fn some_added_is_ancestor(
    index: ReadonlyIndex,
    adds: Seq<CommitId>,
    new_target: Seq<u8>,
) -> bool {
    exists|i: int| 0 <= i < adds.len() && is_ancestor_id(index@, (#[trigger] adds[i])@, new_target)
}

/// Whether moving a bookmark from its old target to a commit moves it
/// forward: the old target points to nothing, or one of the commits it adds
/// is the new commit or an ancestor of it.
pub fn is_fast_forward(index: &ReadonlyIndex, old_target: &RefTarget, new_target_id: &CommitId) -> (forward:
    bool)
    requires
        index.wf(),
    ensures
        forward == (!old_target@.is_present() || some_added_is_ancestor(
            *index,
            old_target.adds@,
            new_target_id@,
        )),
{
    is_fast_forward_counted(index, old_target, new_target_id).0
}

/// As `is_fast_forward`, with the number of entries that the ancestry
/// walks took up: for each commit that the old target adds no more than
/// the graph has edges, and one.
pub fn is_fast_forward_counted(
    index: &ReadonlyIndex,
    old_target: &RefTarget,
    new_target_id: &CommitId,
) -> (answer: (bool, u64))
    requires
        index.wf(),
    ensures
        answer.0 == (!old_target@.is_present() || some_added_is_ancestor(
            *index,
            old_target.adds@,
            new_target_id@,
        )),
        answer.1 <= old_target.adds.len() * (1 + num_edges(index@)),
{
    let ghost each = 1 + num_edges(index@);
    proof {
        crate::index::ancestry::lemma_marked_edges_grow(
            index@,
            Seq::new(index@.len(), |p: int| false),
            Seq::new(index@.len(), |p: int| true),
            index@.len() as int,
        );
        crate::index::ancestry::lemma_no_marked_edges(
            index@,
            Seq::new(index@.len(), |p: int| false),
            index@.len() as int,
        );
        assert(each >= 1);
    }
    let mut steps: u64 = 0;
    if old_target.is_present() {
        let mut i: usize = 0;
        assert(0 * each == 0) by (nonlinear_arith);
        while i < old_target.adds.len()
            invariant
                index.wf(),
                each == 1 + num_edges(index@),
                each >= 1,
                i <= old_target.adds.len(),
                steps <= i * each,
                forall|j: int|
                    0 <= j < i ==> !is_ancestor_id(
                        index@,
                        (#[trigger] old_target.adds@[j])@,
                        new_target_id@,
                    ),
            decreases old_target.adds.len() - i,
        {
            let (found, more) = index.chain.is_ancestor_counted(&old_target.adds[i], new_target_id);
            steps = if more > u64::MAX - steps {
                u64::MAX
            } else {
                steps + more
            };
            proof {
                let n = old_target.adds.len() as int;
                let k = i as int;
                assert((k + 1) * each == k * each + each) by (nonlinear_arith);
                assert((k + 1) * each <= n * each) by (nonlinear_arith)
                    requires
                        k + 1 <= n,
                        each >= 1,
                ;
            }
            if found {
                return (true, steps);
            }
            i += 1;
        }
        (false, steps)
    } else {
        assert(old_target.adds.len() * each >= 0) by (nonlinear_arith)
            requires
                each >= 1,
        ;
        (true, steps)
    }
}

/// A remote bookmark that patterns select: its symbol and, where the remote
/// has a bookmark of that name, what is known of it.
#[derive(Debug)]
pub struct FoundRemoteBookmark<'a> {
    pub symbol: RemoteRefSymbol,
    pub remote_ref: Option<&'a RemoteRef>,
}

/// The symbols of the found bookmarks, in their order.
pub open spec fn found_symbols(found: Seq<FoundRemoteBookmark>) -> Seq<SymbolView> {
    found.map_values(|f: FoundRemoteBookmark| f.symbol@)
}

/// Whether the pattern matches one of the symbols.
pub open spec fn matched_among(pattern: RemoteBookmarkNamePattern, symbols: Seq<SymbolView>) -> bool {
    exists|s: SymbolView| symbols.contains(s) && pattern.matches_symbol(s.name, s.remote)
}

/// Whether the pattern matches a bookmark that some remote has.
pub open spec fn has_remote_match(view: RepoView, pattern: RemoteBookmarkNamePattern) -> bool {
    matched_among(pattern, remote_symbols(view.remote_bookmarks@))
}

/// Whether the text is one of `all` and the pattern matches it.
pub open spec fn is_match_among(pattern: StringPattern, all: Seq<Seq<char>>, x: Seq<char>) -> bool {
    all.contains(x) && pattern.matches_text(x)
}

/// Whether the symbol is one of `symbols` and the pattern matches it.
pub open spec fn symbol_matches_in(
    pattern: RemoteBookmarkNamePattern,
    symbols: Seq<SymbolView>,
    s: SymbolView,
) -> bool {
    symbols.contains(s) && pattern.matches_symbol(s.name, s.remote)
}

/// Whether the symbol is held already or is one of `symbols` that the
/// pattern matches.
pub open spec fn held_or_matches(
    held: Seq<SymbolView>,
    pattern: RemoteBookmarkNamePattern,
    symbols: Seq<SymbolView>,
    s: SymbolView,
) -> bool {
    held.contains(s) || symbol_matches_in(pattern, symbols, s)
}

/// Whether the symbol is held already or pairs one of the names with one of
/// the remotes.
pub open spec fn held_or_pair(
    held: Seq<SymbolView>,
    names: Seq<Seq<char>>,
    remotes: Seq<Seq<char>>,
    s: SymbolView,
) -> bool {
    held.contains(s) || is_pair_of(names, remotes, s)
}

/// Whether the symbol is held already, pairs one of the names with one of
/// the remotes, or pairs `name` with one of `some_remotes`.
pub open spec fn held_or_pair_so_far(
    held: Seq<SymbolView>,
    names: Seq<Seq<char>>,
    remotes: Seq<Seq<char>>,
    name: Seq<char>,
    some_remotes: Seq<Seq<char>>,
    s: SymbolView,
) -> bool {
    held.contains(s) || is_pair_of(names, remotes, s) || (s.name == name && some_remotes.contains(
        s.remote,
    ))
}

/// Whether the symbol pairs one of the names with one of the remotes.
pub open spec fn is_pair_of(names: Seq<Seq<char>>, remotes: Seq<Seq<char>>, s: SymbolView) -> bool {
    names.contains(s.name) && remotes.contains(s.remote)
}

/// Whether the pattern selects the symbol.
///
/// A pattern that matches bookmarks that remotes have selects those. One
/// that matches none selects every pair of a local bookmark and a remote
/// whose names it matches: the bookmark is then new on that remote.
pub open spec fn pattern_finds(
    view: RepoView,
    remote_names: Seq<Seq<char>>,
    pattern: RemoteBookmarkNamePattern,
    symbol: SymbolView,
) -> bool {
    pattern.matches_symbol(symbol.name, symbol.remote) && if has_remote_match(view, pattern) {
        remote_symbols(view.remote_bookmarks@).contains(symbol)
    } else {
        is_pair_of(local_names(view.local_bookmarks@), remote_names, symbol)
    }
}

/// Whether the pattern selects something.
pub open spec fn finds_some(
    view: RepoView,
    remote_names: Seq<Seq<char>>,
    pattern: RemoteBookmarkNamePattern,
) -> bool {
    exists|symbol: SymbolView| pattern_finds(view, remote_names, pattern, symbol)
}

/// Whether one of the patterns selects the symbol.
pub open spec fn some_pattern_finds(
    view: RepoView,
    remote_names: Seq<Seq<char>>,
    patterns: Seq<RemoteBookmarkNamePattern>,
    symbol: SymbolView,
) -> bool {
    exists|k: int|
        0 <= k < patterns.len() && pattern_finds(view, remote_names, #[trigger] patterns[k], symbol)
}

/// The patterns that select nothing, in their order.
pub open spec fn unmatched_remote_patterns(
    view: RepoView,
    remote_names: Seq<Seq<char>>,
    patterns: Seq<RemoteBookmarkNamePattern>,
) -> Seq<RemoteBookmarkNamePattern>
    decreases patterns.len(),
{
    if patterns.len() == 0 {
        Seq::empty()
    } else {
        let before = unmatched_remote_patterns(view, remote_names, patterns.drop_last());
        if finds_some(view, remote_names, patterns.last()) {
            before
        } else {
            before.push(patterns.last())
        }
    }
}

/// The patterns as the user wrote them.
pub open spec fn remote_pattern_texts(patterns: Seq<RemoteBookmarkNamePattern>) -> Seq<Seq<char>> {
    patterns.map_values(|p: RemoteBookmarkNamePattern| p.text())
}

/// The error for patterns that selected no remote bookmark.
pub open spec fn unmatched_remote_error(
    unmatched: Seq<RemoteBookmarkNamePattern>,
) -> CommandErrorView {
    if unmatched.len() == 1 && unmatched[0].bookmark is Exact && unmatched[0].remote is Exact {
        user_error_view("No such remote bookmark: "@ + unmatched[0].text())
    } else {
        user_error_view(
            "No matching remote bookmarks for patterns: "@ + joined(
                remote_pattern_texts(unmatched),
                ", "@,
            ),
        )
    }
}

/// What is known of the bookmark with the symbol, where a remote has it.
pub open spec fn existing_ref(view: RepoView, symbol: SymbolView) -> Option<RemoteRef> {
    if remote_symbols(view.remote_bookmarks@).contains(symbol) {
        Some(
            view.remote_bookmarks[choose|i: int|
                0 <= i < view.remote_bookmarks.len() && remote_symbols(view.remote_bookmarks@)[i]
                    == symbol].remote_ref,
        )
    } else {
        None
    }
}

/// What a found bookmark knows of its bookmark.
pub open spec fn found_ref(found: FoundRemoteBookmark) -> Option<RemoteRef> {
    match found.remote_ref {
        Some(r) => Some(*r),
        None => None,
    }
}

/// Every found bookmark knows of its bookmark what the view holds.
pub open spec fn refs_agree(view: RepoView, found: Seq<FoundRemoteBookmark>) -> bool {
    forall|i: int|
        0 <= i < found.len() ==> found_ref(#[trigger] found[i]) == existing_ref(
            view,
            found[i].symbol@,
        )
}

/// In a view whose symbols are distinct the bookmark at a place is what the
/// view holds for its symbol.
pub proof fn lemma_existing_ref_at(view: RepoView, i: int)
    requires
        view.wf(),
        0 <= i < view.remote_bookmarks.len(),
    ensures
        existing_ref(view, remote_symbols(view.remote_bookmarks@)[i]) == Some(
            view.remote_bookmarks[i].remote_ref,
        ),
{
    let symbols = remote_symbols(view.remote_bookmarks@);
    let s = symbols[i];
    assert(symbols.contains(s));
    assert(symbols_strictly_sorted(symbols));
    assert forall|j: int| 0 <= j < view.remote_bookmarks.len() && symbols[j] == s implies j
        == i by {
        if j < i {
            assert(symbol_lt(symbols[j], symbols[i]));
            lemma_symbol_lt_asymmetric(symbols[j], symbols[i]);
        } else if i < j {
            assert(symbol_lt(symbols[i], symbols[j]));
            lemma_symbol_lt_asymmetric(symbols[i], symbols[j]);
        }
    }
}

/// Puts a found bookmark at its place in a list ordered by symbol, unless
/// the list holds its symbol already.
fn insert_found<'a>(found: &mut Vec<FoundRemoteBookmark<'a>>, item: FoundRemoteBookmark<'a>)
    requires
        symbols_strictly_sorted(found_symbols(old(found)@)),
    ensures
        symbols_strictly_sorted(found_symbols(final(found)@)),
        forall|s: SymbolView|
            found_symbols(final(found)@).contains(s) <==> (found_symbols(old(found)@).contains(s)
                || s == item.symbol@),
        forall|i: int|
            0 <= i < final(found).len() ==> old(found)@.contains(#[trigger] final(found)@[i])
                || final(found)@[i] == item,
{
    let ghost before = found@;
    let ghost symbols = found_symbols(before);
    let ghost new_symbol = item.symbol@;
    let mut at: usize = 0;
    let mut passed: bool = false;
    while at < found.len() && !passed
        invariant
            found@ == before,
            symbols == found_symbols(before),
            symbols_strictly_sorted(symbols),
            new_symbol == item.symbol@,
            at <= found.len(),
            forall|j: int| 0 <= j < at ==> symbol_lt(#[trigger] symbols[j], new_symbol),
            passed ==> at < found.len() && symbol_lt(new_symbol, symbols[at as int]),
        decreases
                found.len() - at,
                if passed {
                    0int
                } else {
                    1int
                },
    {
        assert(symbols[at as int] == found@[at as int].symbol@);
        match symbol_order(&found[at].symbol, &item.symbol) {
            TextOrder::Before => {
                at += 1;
            },
            TextOrder::Same => {
                proof {
                    assert(symbols.contains(new_symbol));
                    assert forall|i: int| 0 <= i < found.len() implies before.contains(
                        #[trigger] found@[i],
                    ) by {}
                }
                return;
            },
            TextOrder::After => {
                passed = true;
            },
        }
    }
    proof {
        if symbols.contains(new_symbol) {
            let j = choose|j: int| 0 <= j < symbols.len() && symbols[j] == new_symbol;
            if j < at {
                lemma_symbol_lt_asymmetric(symbols[j], new_symbol);
            } else if j > at {
                assert(symbol_lt(symbols[at as int], symbols[j]));
                lemma_symbol_lt_transitive(new_symbol, symbols[at as int], symbols[j]);
                lemma_symbol_lt_asymmetric(new_symbol, symbols[j]);
            } else {
                lemma_symbol_lt_asymmetric(new_symbol, symbols[j]);
            }
        }
    }
    found.insert(at, item);
    proof {
        let after = found_symbols(found@);
        let grown = symbols.insert(at as int, new_symbol);
        lemma_insert_index(before, at as int, item, at as int);
        lemma_insert_index(symbols, at as int, new_symbol, at as int);
        assert forall|j: int| 0 <= j < after.len() implies after[j] == grown[j] by {
            lemma_insert_index(before, at as int, item, j);
            lemma_insert_index(symbols, at as int, new_symbol, j);
        }
        assert(after =~= grown);
        assert forall|i: int, j: int| 0 <= i < j < after.len() implies symbol_lt(
            after[i],
            after[j],
        ) by {
            lemma_insert_index(symbols, at as int, new_symbol, i);
            lemma_insert_index(symbols, at as int, new_symbol, j);
            if j < at {
                assert(symbol_lt(symbols[i], symbols[j]));
            } else if j == at {
            } else if i < at {
                if j - 1 > at {
                    assert(symbol_lt(symbols[at as int], symbols[j - 1]));
                    lemma_symbol_lt_transitive(new_symbol, symbols[at as int], symbols[j - 1]);
                }
                lemma_symbol_lt_transitive(symbols[i], new_symbol, symbols[j - 1]);
            } else if i == at {
                if j - 1 > at {
                    assert(symbol_lt(symbols[at as int], symbols[j - 1]));
                    lemma_symbol_lt_transitive(new_symbol, symbols[at as int], symbols[j - 1]);
                }
            } else {
                assert(symbol_lt(symbols[i - 1], symbols[j - 1]));
            }
        }
        assert forall|s: SymbolView| after.contains(s) <==> (symbols.contains(s) || s
            == new_symbol) by {
            lemma_insert_contains(symbols, at as int, new_symbol, s);
        }
        assert forall|i: int| 0 <= i < found.len() implies before.contains(#[trigger] found@[i])
            || found@[i] == item by {
            lemma_insert_index(before, at as int, item, i);
            if i < at {
                assert(before[i] == found@[i]);
            } else if i > at {
                assert(before[i - 1] == found@[i]);
            }
        }
    }
}

/// The strings that the pattern matches, in their order.
pub fn matching_strings(names: &Vec<String>, pattern: &StringPattern) -> (matching: Vec<String>)
    ensures
        forall|x: Seq<char>|
            string_views(matching@).contains(x) <==> is_match_among(
                *pattern,
                string_views(names@),
                x,
            ),
{
    let ghost all = string_views(names@);
    let mut matching: Vec<String> = Vec::new();
    let mut i: usize = 0;
    while i < names.len()
        invariant
            all == string_views(names@),
            i <= names.len(),
            forall|x: Seq<char>|
                string_views(matching@).contains(x) <==> is_match_among(
                    *pattern,
                    all.subrange(0, i as int),
                    x,
                ),
        decreases names.len() - i,
    {
        let name = &names[i];
        let ghost held = string_views(matching@);
        let ghost seen = all.subrange(0, i as int);
        assert(all[i as int] == name@);
        assert(all.subrange(0, i + 1) =~= seen.push(name@));
        if pattern.matches(name.as_str()) {
            matching.push(name.clone());
            assert(string_views(matching@) =~= held.push(name@));
            assert forall|x: Seq<char>| string_views(matching@).contains(x) <==> is_match_among(
                *pattern,
                all.subrange(0, i + 1),
                x,
            ) by {
                lemma_push_contains(held, name@, x);
                lemma_push_contains(seen, name@, x);
            }
        } else {
            assert forall|x: Seq<char>| held.contains(x) <==> is_match_among(
                *pattern,
                all.subrange(0, i + 1),
                x,
            ) by {
                lemma_push_contains(seen, name@, x);
            }
        }
        i += 1;
    }
    assert(all.subrange(0, names.len() as int) =~= all);
    matching
}

/// The names of the local bookmarks that the pattern matches, in their
/// order.
pub fn matching_local_names(view: &RepoView, pattern: &StringPattern) -> (matching: Vec<String>)
    ensures
        forall|x: Seq<char>|
            string_views(matching@).contains(x) <==> is_match_among(
                *pattern,
                local_names(view.local_bookmarks@),
                x,
            ),
{
    let ghost all = local_names(view.local_bookmarks@);
    let mut matching: Vec<String> = Vec::new();
    let mut i: usize = 0;
    while i < view.local_bookmarks.len()
        invariant
            all == local_names(view.local_bookmarks@),
            i <= view.local_bookmarks.len(),
            forall|x: Seq<char>|
                string_views(matching@).contains(x) <==> is_match_among(
                    *pattern,
                    all.subrange(0, i as int),
                    x,
                ),
        decreases view.local_bookmarks.len() - i,
    {
        let name = &view.local_bookmarks[i].name;
        let ghost held = string_views(matching@);
        let ghost seen = all.subrange(0, i as int);
        assert(all[i as int] == name@);
        assert(all.subrange(0, i + 1) =~= seen.push(name@));
        if pattern.matches(name.as_str()) {
            matching.push(name.clone());
            assert(string_views(matching@) =~= held.push(name@));
            assert forall|x: Seq<char>| string_views(matching@).contains(x) <==> is_match_among(
                *pattern,
                all.subrange(0, i + 1),
                x,
            ) by {
                lemma_push_contains(held, name@, x);
                lemma_push_contains(seen, name@, x);
            }
        } else {
            assert forall|x: Seq<char>| held.contains(x) <==> is_match_among(
                *pattern,
                all.subrange(0, i + 1),
                x,
            ) by {
                lemma_push_contains(seen, name@, x);
            }
        }
        i += 1;
    }
    assert(all.subrange(0, view.local_bookmarks.len() as int) =~= all);
    matching
}

/// Adds the bookmarks that remotes have and the pattern matches, and says
/// whether there is one.
fn add_existing_matches<'a>(
    view: &'a RepoView,
    pattern: &RemoteBookmarkNamePattern,
    found: &mut Vec<FoundRemoteBookmark<'a>>,
) -> (any: bool)
    requires
        view.wf(),
        symbols_strictly_sorted(found_symbols(old(found)@)),
        refs_agree(*view, old(found)@),
    ensures
        symbols_strictly_sorted(found_symbols(final(found)@)),
        refs_agree(*view, final(found)@),
        any == has_remote_match(*view, *pattern),
        forall|s: SymbolView|
            found_symbols(final(found)@).contains(s) <==> held_or_matches(
                found_symbols(old(found)@),
                *pattern,
                remote_symbols(view.remote_bookmarks@),
                s,
            ),
{
    let ghost symbols = remote_symbols(view.remote_bookmarks@);
    let ghost held_before = found_symbols(found@);
    let mut any: bool = false;
    let mut i: usize = 0;
    while i < view.remote_bookmarks.len()
        invariant
            view.wf(),
            symbols == remote_symbols(view.remote_bookmarks@),
            i <= view.remote_bookmarks.len(),
            symbols_strictly_sorted(found_symbols(found@)),
            refs_agree(*view, found@),
            any == matched_among(*pattern, symbols.subrange(0, i as int)),
            forall|s: SymbolView|
                found_symbols(found@).contains(s) <==> held_or_matches(
                    held_before,
                    *pattern,
                    symbols.subrange(0, i as int),
                    s,
                ),
        decreases view.remote_bookmarks.len() - i,
    {
        let bookmark = &view.remote_bookmarks[i];
        let ghost seen = symbols.subrange(0, i as int);
        let ghost grown = symbols.subrange(0, i + 1);
        let ghost here = symbols[i as int];
        let ghost held = found_symbols(found@);
        let ghost found_mid = found@;
        assert(here == SymbolView { name: bookmark.name@, remote: bookmark.remote@ });
        assert(grown =~= seen.push(here));
        if pattern.bookmark.matches(bookmark.name.as_str()) && pattern.remote.matches(
            bookmark.remote.as_str(),
        ) {
            let item = FoundRemoteBookmark {
                symbol: RemoteRefSymbol {
                    name: bookmark.name.clone(),
                    remote: bookmark.remote.clone(),
                },
                remote_ref: Some(&bookmark.remote_ref),
            };
            insert_found(found, item);
            any = true;
            proof {
                lemma_existing_ref_at(*view, i as int);
                assert forall|j: int| 0 <= j < found.len() implies found_ref(#[trigger] found@[j])
                    == existing_ref(*view, found@[j].symbol@) by {
                    if found_mid.contains(found@[j]) {
                        let m = choose|m: int| 0 <= m < found_mid.len() && found_mid[m] == found@[j];
                        assert(found_ref(found_mid[m]) == existing_ref(*view, found_mid[m].symbol@));
                    }
                }
                assert(grown.contains(here)) by {
                    assert(grown[i as int] == here);
                }
                assert forall|s: SymbolView| found_symbols(found@).contains(s) <==> held_or_matches(
                    held_before,
                    *pattern,
                    grown,
                    s,
                ) by {
                    lemma_push_contains(seen, here, s);
                    assert(held.contains(s) <==> held_or_matches(held_before, *pattern, seen, s));
                }
            }
        } else {
            proof {
                assert forall|s: SymbolView| held.contains(s) <==> held_or_matches(
                    held_before,
                    *pattern,
                    grown,
                    s,
                ) by {
                    lemma_push_contains(seen, here, s);
                    assert(held.contains(s) <==> held_or_matches(held_before, *pattern, seen, s));
                }
                if matched_among(*pattern, grown) {
                    let s = choose|s: SymbolView|
                        grown.contains(s) && pattern.matches_symbol(s.name, s.remote);
                    lemma_push_contains(seen, here, s);
                }
                if matched_among(*pattern, seen) {
                    let s = choose|s: SymbolView|
                        seen.contains(s) && pattern.matches_symbol(s.name, s.remote);
                    lemma_push_contains(seen, here, s);
                }
            }
        }
        i += 1;
    }
    assert(symbols.subrange(0, view.remote_bookmarks.len() as int) =~= symbols);
    any
}

/// Adds, for every pair of one of the names and one of the remotes, the
/// bookmark of that name on that remote, as one that no remote has yet.
fn add_new_pairs<'a>(
    view: &'a RepoView,
    names: &Vec<String>,
    remotes: &Vec<String>,
    found: &mut Vec<FoundRemoteBookmark<'a>>,
)
    requires
        symbols_strictly_sorted(found_symbols(old(found)@)),
        refs_agree(*view, old(found)@),
        forall|s: SymbolView|
            is_pair_of(string_views(names@), string_views(remotes@), s) ==> !remote_symbols(
                view.remote_bookmarks@,
            ).contains(s),
    ensures
        symbols_strictly_sorted(found_symbols(final(found)@)),
        refs_agree(*view, final(found)@),
        forall|s: SymbolView|
            found_symbols(final(found)@).contains(s) <==> held_or_pair(
                found_symbols(old(found)@),
                string_views(names@),
                string_views(remotes@),
                s,
            ),
{
    let ghost all_names = string_views(names@);
    let ghost all_remotes = string_views(remotes@);
    let ghost held_before = found_symbols(found@);
    let mut a: usize = 0;
    while a < names.len()
        invariant
            all_names == string_views(names@),
            all_remotes == string_views(remotes@),
            a <= names.len(),
            symbols_strictly_sorted(found_symbols(found@)),
            refs_agree(*view, found@),
            forall|s: SymbolView|
                is_pair_of(all_names, all_remotes, s) ==> !remote_symbols(
                    view.remote_bookmarks@,
                ).contains(s),
            forall|s: SymbolView|
                found_symbols(found@).contains(s) <==> held_or_pair(
                    held_before,
                    all_names.subrange(0, a as int),
                    all_remotes,
                    s,
                ),
        decreases names.len() - a,
    {
        let name = &names[a];
        let ghost names_seen = all_names.subrange(0, a as int);
        assert(all_names[a as int] == name@);
        assert(all_names.subrange(0, a + 1) =~= names_seen.push(name@));
        assert(all_names.contains(name@));
        let mut b: usize = 0;
        proof {
            assert forall|s: SymbolView| found_symbols(found@).contains(s) <==> held_or_pair_so_far(
                held_before,
                names_seen,
                all_remotes,
                name@,
                all_remotes.subrange(0, 0),
                s,
            ) by {
                assert(found_symbols(found@).contains(s) <==> held_or_pair(
                    held_before,
                    names_seen,
                    all_remotes,
                    s,
                ));
                assert(all_remotes.subrange(0, 0) =~= Seq::<Seq<char>>::empty());
            }
        }
        while b < remotes.len()
            invariant
                all_names == string_views(names@),
                all_remotes == string_views(remotes@),
                a < names.len(),
                name@ == all_names[a as int],
                all_names.contains(name@),
                names_seen == all_names.subrange(0, a as int),
                b <= remotes.len(),
                symbols_strictly_sorted(found_symbols(found@)),
                refs_agree(*view, found@),
                forall|s: SymbolView|
                    is_pair_of(all_names, all_remotes, s) ==> !remote_symbols(
                        view.remote_bookmarks@,
                    ).contains(s),
                forall|s: SymbolView|
                    found_symbols(found@).contains(s) <==> held_or_pair_so_far(
                        held_before,
                        names_seen,
                        all_remotes,
                        name@,
                        all_remotes.subrange(0, b as int),
                        s,
                    ),
            decreases remotes.len() - b,
        {
            let remote = &remotes[b];
            let ghost remotes_seen = all_remotes.subrange(0, b as int);
            let ghost found_mid = found@;
            let ghost held_mid = found_symbols(found@);
            assert(all_remotes[b as int] == remote@);
            assert(all_remotes.subrange(0, b + 1) =~= remotes_seen.push(remote@));
            assert(all_remotes.contains(remote@));
            let item = FoundRemoteBookmark {
                symbol: RemoteRefSymbol { name: name.clone(), remote: remote.clone() },
                remote_ref: None,
            };
            let ghost here = item.symbol@;
            insert_found(found, item);
            proof {
                assert(is_pair_of(all_names, all_remotes, here));
                assert(existing_ref(*view, here) is None);
                assert forall|j: int| 0 <= j < found.len() implies found_ref(#[trigger] found@[j])
                    == existing_ref(*view, found@[j].symbol@) by {
                    if found_mid.contains(found@[j]) {
                        let m = choose|m: int| 0 <= m < found_mid.len() && found_mid[m] == found@[j];
                        assert(found_ref(found_mid[m]) == existing_ref(*view, found_mid[m].symbol@));
                    }
                }
                assert forall|s: SymbolView| found_symbols(found@).contains(s)
                    <==> held_or_pair_so_far(
                    held_before,
                    names_seen,
                    all_remotes,
                    name@,
                    all_remotes.subrange(0, b + 1),
                    s,
                ) by {
                    lemma_push_contains(remotes_seen, remote@, s.remote);
                    assert(held_mid.contains(s) <==> held_or_pair_so_far(
                        held_before,
                        names_seen,
                        all_remotes,
                        name@,
                        remotes_seen,
                        s,
                    ));
                    if s.name == name@ && s.remote == remote@ {
                        assert(s == here);
                    }
                }
            }
            b += 1;
        }
        proof {
            assert(all_remotes.subrange(0, remotes.len() as int) =~= all_remotes);
            assert forall|s: SymbolView| found_symbols(found@).contains(s) <==> held_or_pair(
                held_before,
                all_names.subrange(0, a + 1),
                all_remotes,
                s,
            ) by {
                lemma_push_contains(names_seen, name@, s.name);
                assert(found_symbols(found@).contains(s) <==> held_or_pair_so_far(
                    held_before,
                    names_seen,
                    all_remotes,
                    name@,
                    all_remotes,
                    s,
                ));
            }
        }
        a += 1;
    }
    assert(all_names.subrange(0, names.len() as int) =~= all_names);
}

/// The list is what the patterns select: ordered by symbol, each symbol that
/// some pattern selects once and no other, each with what the view holds
/// for it.
pub open spec fn is_found_list(
    view: RepoView,
    remote_names: Seq<Seq<char>>,
    patterns: Seq<RemoteBookmarkNamePattern>,
    list: Seq<FoundRemoteBookmark>,
) -> bool {
    &&& symbols_strictly_sorted(found_symbols(list))
    &&& refs_agree(view, list)
    &&& forall|s: SymbolView|
        found_symbols(list).contains(s) <==> some_pattern_finds(view, remote_names, patterns, s)
}

/// Finds the remote bookmarks that the patterns select.
///
/// Every pattern has to select something. A pattern that matches bookmarks
/// on remotes selects those; one that matches none selects the local
/// bookmarks it matches on each remote it matches. The result is ordered by
/// symbol and holds each symbol once.
pub fn find_remote_bookmarks<'a>(
    view: &'a RepoView,
    name_patterns: &Vec<RemoteBookmarkNamePattern>,
    remote_names: &Vec<String>,
) -> (found: Result<Vec<FoundRemoteBookmark<'a>>, CommandError>)
    requires
        view.wf(),
    ensures
        found is Ok <==> unmatched_remote_patterns(
            *view,
            string_views(remote_names@),
            name_patterns@,
        ).len() == 0,
        found is Ok ==> is_found_list(
            *view,
            string_views(remote_names@),
            name_patterns@,
            found->Ok_0@,
        ),
        found is Err ==> found->Err_0@ == unmatched_remote_error(
            unmatched_remote_patterns(*view, string_views(remote_names@), name_patterns@),
        ),
{
    let ghost remotes = string_views(remote_names@);
    let ghost locals = local_names(view.local_bookmarks@);
    let mut found: Vec<FoundRemoteBookmark<'a>> = Vec::new();
    let mut texts: Vec<String> = Vec::new();
    let mut first_is_exact: bool = false;
    let ghost mut unmatched: Seq<RemoteBookmarkNamePattern> = Seq::empty();
    let mut k: usize = 0;
    while k < name_patterns.len()
        invariant
            view.wf(),
            remotes == string_views(remote_names@),
            locals == local_names(view.local_bookmarks@),
            k <= name_patterns.len(),
            unmatched == unmatched_remote_patterns(
                *view,
                remotes,
                name_patterns@.subrange(0, k as int),
            ),
            texts.len() == unmatched.len(),
            string_views(texts@) == remote_pattern_texts(unmatched),
            unmatched.len() > 0 ==> first_is_exact == (unmatched[0].bookmark is Exact
                && unmatched[0].remote is Exact),
            symbols_strictly_sorted(found_symbols(found@)),
            refs_agree(*view, found@),
            forall|s: SymbolView|
                found_symbols(found@).contains(s) <==> some_pattern_finds(
                    *view,
                    remotes,
                    name_patterns@.subrange(0, k as int),
                    s,
                ),
        decreases name_patterns.len() - k,
    {
        let pattern = &name_patterns[k];
        let ghost upto = name_patterns@.subrange(0, k as int);
        let ghost grown = name_patterns@.subrange(0, k + 1);
        let ghost held = found_symbols(found@);
        proof {
            assert(grown.drop_last() =~= upto);
            assert(grown.last() == *pattern);
        }
        let any = add_existing_matches(view, pattern, &mut found);
        let ghost mut selects: bool = any;
        if !any {
            let names = matching_local_names(view, &pattern.bookmark);
            let on = matching_strings(remote_names, &pattern.remote);
            proof {
                assert forall|s: SymbolView|
                    is_pair_of(string_views(names@), string_views(on@), s) <==> pattern_finds(
                        *view,
                        remotes,
                        *pattern,
                        s,
                    ) by {
                    assert(string_views(names@).contains(s.name) <==> is_match_among(
                        pattern.bookmark,
                        locals,
                        s.name,
                    ));
                    assert(string_views(on@).contains(s.remote) <==> is_match_among(
                        pattern.remote,
                        remotes,
                        s.remote,
                    ));
                }
            }
            if names.len() == 0 || on.len() == 0 {
                if texts.len() == 0 {
                    first_is_exact = pattern.is_exact();
                }
                let ghost texts_before = texts@;
                texts.push(pattern.to_text());
                proof {
                    let before = unmatched;
                    unmatched = unmatched.push(*pattern);
                    assert forall|j: int| 0 <= j < texts@.len() implies string_views(texts@)[j]
                        == remote_pattern_texts(unmatched)[j] by {
                        if j < texts_before.len() {
                            assert(string_views(texts_before)[j] == remote_pattern_texts(before)[j]);
                            assert(texts@[j] == texts_before[j]);
                            assert(unmatched[j] == before[j]);
                        } else {
                            assert(unmatched[j] == *pattern);
                        }
                    }
                    assert(string_views(texts@) =~= remote_pattern_texts(unmatched));
                    assert forall|s: SymbolView| !pattern_finds(*view, remotes, *pattern, s) by {
                        if is_pair_of(string_views(names@), string_views(on@), s) {
                            assert(string_views(names@).contains(s.name));
                            assert(string_views(on@).contains(s.remote));
                            let x = choose|x: int|
                                0 <= x < string_views(names@).len() && string_views(names@)[x]
                                    == s.name;
                            let y = choose|y: int|
                                0 <= y < string_views(on@).len() && string_views(on@)[y]
                                    == s.remote;
                        }
                    }
                }
            } else {
                proof {
                    assert forall|s: SymbolView|
                        is_pair_of(
                            string_views(names@),
                            string_views(on@),
                            s,
                        ) implies !remote_symbols(view.remote_bookmarks@).contains(s) by {
                        if remote_symbols(view.remote_bookmarks@).contains(s) {
                            assert(matched_among(*pattern, remote_symbols(view.remote_bookmarks@)));
                        }
                    }
                }
                add_new_pairs(view, &names, &on, &mut found);
                proof {
                    selects = true;
                    let x = string_views(names@)[0];
                    let y = string_views(on@)[0];
                    assert(string_views(names@).contains(x));
                    assert(string_views(on@).contains(y));
                    let s = SymbolView { name: x, remote: y };
                    assert(is_pair_of(string_views(names@), string_views(on@), s));
                    assert(pattern_finds(*view, remotes, *pattern, s));
                }
            }
        } else {
            proof {
                let s = choose|s: SymbolView|
                    remote_symbols(view.remote_bookmarks@).contains(s) && pattern.matches_symbol(
                        s.name,
                        s.remote,
                    );
                assert(pattern_finds(*view, remotes, *pattern, s));
            }
        }
        proof {
            assert(selects == finds_some(*view, remotes, *pattern));
            assert forall|s: SymbolView| found_symbols(found@).contains(s) <==> some_pattern_finds(
                *view,
                remotes,
                grown,
                s,
            ) by {
                assert(held.contains(s) <==> some_pattern_finds(*view, remotes, upto, s));
                if any {
                    assert(found_symbols(found@).contains(s) <==> held_or_matches(
                        held,
                        *pattern,
                        remote_symbols(view.remote_bookmarks@),
                        s,
                    ));
                }
                if some_pattern_finds(*view, remotes, upto, s) {
                    let m = choose|m: int|
                        0 <= m < upto.len() && pattern_finds(*view, remotes, #[trigger] upto[m], s);
                    assert(pattern_finds(*view, remotes, grown[m], s));
                }
                if pattern_finds(*view, remotes, *pattern, s) {
                    assert(pattern_finds(*view, remotes, grown[k as int], s));
                }
                if some_pattern_finds(*view, remotes, grown, s) {
                    let m = choose|m: int|
                        0 <= m < grown.len() && pattern_finds(
                            *view,
                            remotes,
                            #[trigger] grown[m],
                            s,
                        );
                    if m < k {
                        assert(pattern_finds(*view, remotes, upto[m], s));
                    }
                }
            }
        }
        k += 1;
    }
    assert(name_patterns@.subrange(0, name_patterns.len() as int) =~= name_patterns@);
    if texts.len() == 1 && first_is_exact {
        let mut message = String::from_str("No such remote bookmark: ");
        message.append(texts[0].as_str());
        assert(string_views(texts@)[0] == texts@[0]@);
        assert(remote_pattern_texts(unmatched)[0] == unmatched[0].text());
        return Err(user_error(message));
    }
    if texts.len() > 0 {
        let mut message = String::from_str("No matching remote bookmarks for patterns: ");
        let list = join_strings(&texts, ", ");
        message.append(list.as_str());
        return Err(user_error(message));
    }
    Ok(found)
}

/// Whether the found bookmark is tracked already.
pub open spec fn is_already_tracked(found: FoundRemoteBookmark) -> bool {
    match found.remote_ref {
        Some(r) => r.tracking,
        None => false,
    }
}

/// The symbols of the found bookmarks that are not tracked yet, in their
/// order.
pub open spec fn symbols_to_track(found: Seq<FoundRemoteBookmark>) -> Seq<SymbolView>
    decreases found.len(),
{
    if found.len() == 0 {
        Seq::empty()
    } else {
        let before = symbols_to_track(found.drop_last());
        if is_already_tracked(found.last()) {
            before
        } else {
            before.push(found.last().symbol@)
        }
    }
}

/// The warning for a remote bookmark that is tracked already.
pub open spec fn already_tracked_warning(symbol: SymbolView) -> Seq<char> {
    "Remote bookmark already tracked: "@ + symbol_text(symbol)
}

/// The warnings for the found bookmarks that are tracked already, in their
/// order.
pub open spec fn already_tracked_warnings(found: Seq<FoundRemoteBookmark>) -> Seq<Seq<char>>
    decreases found.len(),
{
    if found.len() == 0 {
        Seq::empty()
    } else {
        let before = already_tracked_warnings(found.drop_last());
        if is_already_tracked(found.last()) {
            before.push(already_tracked_warning(found.last().symbol@))
        } else {
            before
        }
    }
}

/// The texts of the symbols, in their order.
pub open spec fn symbol_texts(symbols: Seq<SymbolView>) -> Seq<Seq<char>> {
    symbols.map_values(|s: SymbolView| symbol_text(s))
}

/// The views of the symbols, in their order.
pub open spec fn symbol_views(symbols: Seq<RemoteRefSymbol>) -> Seq<SymbolView> {
    symbols.map_values(|s: RemoteRefSymbol| s@)
}

/// What tracking remote bookmarks does and says.
#[derive(Debug)]
pub struct TrackPlan {
    /// One warning for each selected bookmark that is tracked already.
    pub warnings: Vec<String>,
    /// The remote bookmarks to start tracking.
    pub symbols: Vec<RemoteRefSymbol>,
    /// What to tell the user, where something is to be tracked.
    pub status: Option<String>,
    /// The description of the transaction.
    pub tx_description: String,
}

/// A plan as plain values.
pub struct TrackPlanView {
    pub warnings: Seq<Seq<char>>,
    pub symbols: Seq<SymbolView>,
    pub status: Option<Seq<char>>,
    pub tx_description: Seq<char>,
}

impl View for TrackPlan {
    type V = TrackPlanView;

    open spec fn view(&self) -> TrackPlanView {
        TrackPlanView {
            warnings: string_views(self.warnings@),
            symbols: symbol_views(self.symbols@),
            status: match self.status {
                Some(text) => Some(text@),
                None => None,
            },
            tx_description: self.tx_description@,
        }
    }
}

/// The plan for the found bookmarks: those tracked already give a
/// warning, the others are to be tracked; the user is told how many where
/// there is one; the transaction is described by their symbols.
pub open spec fn track_plan(found: Seq<FoundRemoteBookmark>) -> TrackPlanView {
    let symbols = symbols_to_track(found);
    TrackPlanView {
        warnings: already_tracked_warnings(found),
        symbols,
        status: if symbols.len() > 0 {
            Some("Started tracking "@ + decimal(symbols.len()) + " remote bookmarks."@)
        } else {
            None
        },
        tx_description: "track remote bookmark "@ + joined(symbol_texts(symbols), ", "@),
    }
}

/// The text of a symbol: the name, `@`, the remote.
pub fn symbol_to_text(symbol: &RemoteRefSymbol) -> (text: String)
    ensures
        text@ == symbol_text(symbol@),
{
    let mut text = symbol.name.clone();
    text.append("@");
    text.append(symbol.remote.as_str());
    text
}

/// Plans the tracking of the found bookmarks.
pub fn plan_tracking(found: &Vec<FoundRemoteBookmark>) -> (plan: TrackPlan)
    ensures
        plan@ == track_plan(found@),
{
    let mut warnings: Vec<String> = Vec::new();
    let mut symbols: Vec<RemoteRefSymbol> = Vec::new();
    let mut texts: Vec<String> = Vec::new();
    let mut i: usize = 0;
    while i < found.len()
        invariant
            i <= found.len(),
            symbols.len() <= i,
            string_views(warnings@) == already_tracked_warnings(found@.subrange(0, i as int)),
            symbol_views(symbols@) == symbols_to_track(found@.subrange(0, i as int)),
            string_views(texts@) == symbol_texts(symbol_views(symbols@)),
        decreases found.len() - i,
    {
        let item = &found[i];
        proof {
            let upto = found@.subrange(0, i + 1);
            assert(upto.drop_last() =~= found@.subrange(0, i as int));
            assert(upto.last() == *item);
        }
        let already: bool = match item.remote_ref {
            Some(r) => r.is_tracked(),
            None => false,
        };
        if already {
            let mut warning = String::from_str("Remote bookmark already tracked: ");
            let text = symbol_to_text(&item.symbol);
            warning.append(text.as_str());
            let ghost before = string_views(warnings@);
            warnings.push(warning);
            assert(string_views(warnings@) =~= before.push(already_tracked_warning(item.symbol@)));
        } else {
            let ghost symbols_before = symbol_views(symbols@);
            let ghost texts_before = string_views(texts@);
            texts.push(symbol_to_text(&item.symbol));
            symbols.push(item.symbol.clone());
            assert(symbol_views(symbols@) =~= symbols_before.push(item.symbol@));
            assert(string_views(texts@) =~= texts_before.push(symbol_text(item.symbol@)));
            assert(string_views(texts@) =~= symbol_texts(symbol_views(symbols@)));
        }
        i += 1;
    }
    assert(found@.subrange(0, found.len() as int) =~= found@);
    let status: Option<String> = if symbols.len() > 0 {
        let mut text = String::from_str("Started tracking ");
        push_decimal(&mut text, symbols.len() as u64);
        text.append(" remote bookmarks.");
        Some(text)
    } else {
        None
    };
    let mut tx_description = String::from_str("track remote bookmark ");
    let list = join_strings(&texts, ", ");
    tx_description.append(list.as_str());
    TrackPlan { warnings, symbols, status, tx_description }
}

/// What the command that starts tracking remote bookmarks does and says.
///
/// The patterns have to select remote bookmarks, else the command fails as
/// the search does. Of the bookmarks selected, those tracked already give a
/// warning and the others are tracked.
pub fn cmd_bookmark_track(view: &RepoView, args: &BookmarkTrackArgs, remote_names: &Vec<String>) -> (plan:
    Result<TrackPlan, CommandError>)
    requires
        view.wf(),
    ensures
        plan is Ok <==> unmatched_remote_patterns(
            *view,
            string_views(remote_names@),
            args.names@,
        ).len() == 0,
        plan is Ok ==> exists|found: Seq<FoundRemoteBookmark>|
            is_found_list(*view, string_views(remote_names@), args.names@, found) && plan->Ok_0@
                == #[trigger] track_plan(found),
        plan is Err ==> plan->Err_0@ == unmatched_remote_error(
            unmatched_remote_patterns(*view, string_views(remote_names@), args.names@),
        ),
{
    match find_remote_bookmarks(view, &args.names, remote_names) {
        Ok(found) => {
            let plan = plan_tracking(&found);
            assert(plan@ == track_plan(found@));
            Ok(plan)
        },
        Err(error) => Err(error),
    }
}

/// A conflicted local bookmark to show after tracking, with the bookmarks of
/// its name on the remotes that were tracked.
#[derive(Debug)]
pub struct ConflictedBookmark<'a> {
    pub local: &'a LocalBookmark,
    pub remotes: Vec<&'a RemoteBookmark>,
}

/// Whether the symbols hold one with the given name.
pub open spec fn names_symbol(symbols: Seq<SymbolView>, name: Seq<char>) -> bool {
    exists|i: int| 0 <= i < symbols.len() && (#[trigger] symbols[i]).name == name
}

/// The remote bookmarks of the given name whose symbol is among `symbols`,
/// in their order.
pub open spec fn remotes_to_show(
    bookmarks: Seq<RemoteBookmark>,
    symbols: Seq<SymbolView>,
    name: Seq<char>,
) -> Seq<RemoteBookmark>
    decreases bookmarks.len(),
{
    if bookmarks.len() == 0 {
        Seq::empty()
    } else {
        let before = remotes_to_show(bookmarks.drop_last(), symbols, name);
        let last = bookmarks.last();
        if last.name@ == name && symbols.contains(SymbolView { name, remote: last.remote@ }) {
            before.push(last)
        } else {
            before
        }
    }
}

/// What a conflicted bookmark to show is, as plain values.
pub struct ConflictedBookmarkView {
    pub local: LocalBookmark,
    pub remotes: Seq<RemoteBookmark>,
}

impl<'a> View for ConflictedBookmark<'a> {
    type V = ConflictedBookmarkView;

    open spec fn view(&self) -> ConflictedBookmarkView {
        ConflictedBookmarkView {
            local: *self.local,
            remotes: self.remotes@.map_values(|r: &RemoteBookmark| *r),
        }
    }
}

/// The conflicted bookmarks to show, in the order of the local bookmarks:
/// those whose name one of the symbols carries and whose target is a
/// conflict.
pub open spec fn conflicts_to_show(
    locals: Seq<LocalBookmark>,
    remotes: Seq<RemoteBookmark>,
    symbols: Seq<SymbolView>,
) -> Seq<ConflictedBookmarkView>
    decreases locals.len(),
{
    if locals.len() == 0 {
        Seq::empty()
    } else {
        let before = conflicts_to_show(locals.drop_last(), remotes, symbols);
        let last = locals.last();
        if names_symbol(symbols, last.name@) && last.target@.has_conflict() {
            before.push(
                ConflictedBookmarkView {
                    local: last,
                    remotes: remotes_to_show(remotes, symbols, last.name@),
                },
            )
        } else {
            before
        }
    }
}

/// Whether the symbols hold the one with the given name and remote.
fn holds_symbol(symbols: &Vec<RemoteRefSymbol>, name: &str, remote: &str) -> (held: bool)
    ensures
        held == symbol_views(symbols@).contains(SymbolView { name: name@, remote: remote@ }),
{
    let ghost wanted = SymbolView { name: name@, remote: remote@ };
    let mut i: usize = 0;
    while i < symbols.len()
        invariant
            i <= symbols.len(),
            wanted == (SymbolView { name: name@, remote: remote@ }),
            forall|j: int| 0 <= j < i ==> #[trigger] symbol_views(symbols@)[j] != wanted,
        decreases symbols.len() - i,
    {
        assert(symbol_views(symbols@)[i as int] == symbols[i as int]@);
        let same_name = text_order(symbols[i].name.as_str(), name);
        let same_remote = text_order(symbols[i].remote.as_str(), remote);
        if same_name == TextOrder::Same && same_remote == TextOrder::Same {
            assert(symbol_views(symbols@)[i as int] == wanted);
            return true;
        }
        i += 1;
    }
    false
}

/// Whether one of the symbols carries the name.
fn carries_name(symbols: &Vec<RemoteRefSymbol>, name: &str) -> (carried: bool)
    ensures
        carried == names_symbol(symbol_views(symbols@), name@),
{
    let mut i: usize = 0;
    while i < symbols.len()
        invariant
            i <= symbols.len(),
            forall|j: int| 0 <= j < i ==> (#[trigger] symbol_views(symbols@)[j]).name != name@,
        decreases symbols.len() - i,
    {
        assert(symbol_views(symbols@)[i as int] == symbols[i as int]@);
        if text_order(symbols[i].name.as_str(), name) == TextOrder::Same {
            return true;
        }
        i += 1;
    }
    false
}

/// Finds the conflicted bookmarks to show after the given remote bookmarks
/// have been tracked.
pub fn conflicted_bookmarks<'a>(view: &'a RepoView, symbols: &Vec<RemoteRefSymbol>) -> (shown: Vec<
    ConflictedBookmark<'a>,
>)
    ensures
        shown@.map_values(|c: ConflictedBookmark| c@) == conflicts_to_show(
            view.local_bookmarks@,
            view.remote_bookmarks@,
            symbol_views(symbols@),
        ),
{
    let ghost wanted = symbol_views(symbols@);
    let mut shown: Vec<ConflictedBookmark<'a>> = Vec::new();
    let mut i: usize = 0;
    while i < view.local_bookmarks.len()
        invariant
            wanted == symbol_views(symbols@),
            i <= view.local_bookmarks.len(),
            shown@.map_values(|c: ConflictedBookmark| c@) == conflicts_to_show(
                view.local_bookmarks@.subrange(0, i as int),
                view.remote_bookmarks@,
                wanted,
            ),
        decreases view.local_bookmarks.len() - i,
    {
        let local = &view.local_bookmarks[i];
        proof {
            let upto = view.local_bookmarks@.subrange(0, i + 1);
            assert(upto.drop_last() =~= view.local_bookmarks@.subrange(0, i as int));
            assert(upto.last() == *local);
        }
        if carries_name(symbols, local.name.as_str()) && local.target.has_conflict() {
            let mut remotes: Vec<&'a RemoteBookmark> = Vec::new();
            let mut j: usize = 0;
            while j < view.remote_bookmarks.len()
                invariant
                    wanted == symbol_views(symbols@),
                    j <= view.remote_bookmarks.len(),
                    remotes@.map_values(|r: &RemoteBookmark| *r) == remotes_to_show(
                        view.remote_bookmarks@.subrange(0, j as int),
                        wanted,
                        local.name@,
                    ),
                decreases view.remote_bookmarks.len() - j,
            {
                let remote = &view.remote_bookmarks[j];
                proof {
                    let upto = view.remote_bookmarks@.subrange(0, j + 1);
                    assert(upto.drop_last() =~= view.remote_bookmarks@.subrange(0, j as int));
                    assert(upto.last() == *remote);
                }
                let ghost before = remotes@.map_values(|r: &RemoteBookmark| *r);
                if text_order(remote.name.as_str(), local.name.as_str()) == TextOrder::Same
                    && holds_symbol(symbols, local.name.as_str(), remote.remote.as_str()) {
                    remotes.push(remote);
                    assert(remotes@.map_values(|r: &RemoteBookmark| *r) =~= before.push(*remote));
                }
                j += 1;
            }
            assert(view.remote_bookmarks@.subrange(0, view.remote_bookmarks.len() as int)
                =~= view.remote_bookmarks@);
            let ghost before = shown@.map_values(|c: ConflictedBookmark| c@);
            let item = ConflictedBookmark { local, remotes };
            shown.push(item);
            assert(shown@.map_values(|c: ConflictedBookmark| c@) =~= before.push(item@));
        }
        i += 1;
    }
    assert(view.local_bookmarks@.subrange(0, view.local_bookmarks.len() as int)
        =~= view.local_bookmarks@);
    shown
}

/// A pattern over remote bookmarks as plain values.
pub struct RemotePatternView {
    pub bookmark: StringPatternView,
    pub remote: StringPatternView,
}

impl View for RemoteBookmarkNamePattern {
    type V = RemotePatternView;

    open spec fn view(&self) -> RemotePatternView {
        RemotePatternView { bookmark: self.bookmark@, remote: self.remote@ }
    }
}

/// The pattern of the kind, or the exact text where no kind is given.
pub open spec fn pattern_of_optional_kind(kind: Option<Seq<char>>, text: Seq<char>) -> Result<
    StringPatternView,
    Seq<char>,
> {
    match kind {
        Some(k) => pattern_of_kind(k, text),
        None => Ok(StringPatternView::Exact(text)),
    }
}

/// What a text stands for as a pattern over remote bookmarks.
///
/// A kind and a colon may come first; the kind holds for the name and for
/// the remote. What follows is the name, the last `@`, and the remote.
/// Without an `@` it names no remote bookmark.
pub open spec fn parsed_remote_pattern(text: Seq<char>) -> Result<RemotePatternView, Seq<char>> {
    let colon = crate::text::first_index_from(text, ':', 0);
    let kind = if colon < text.len() {
        Some(text.subrange(0, colon))
    } else {
        None
    };
    let rest = if colon < text.len() {
        text.subrange(colon + 1, text.len() as int)
    } else {
        text
    };
    let at = crate::text::last_index_upto(rest, '@', rest.len() as int);
    if at < 0 {
        Err("remote bookmark must be specified in bookmark@remote form"@)
    } else {
        match pattern_of_optional_kind(kind, rest.subrange(0, at)) {
            Err(error) => Err(error),
            Ok(bookmark) => match pattern_of_optional_kind(
                kind,
                rest.subrange(at + 1, rest.len() as int),
            ) {
                Err(error) => Err(error),
                Ok(remote) => Ok(RemotePatternView { bookmark, remote }),
            },
        }
    }
}

/// What a result of a remote pattern holds, as plain values.
pub open spec fn remote_pattern_result_view(
    parsed: Result<RemoteBookmarkNamePattern, String>,
) -> Result<RemotePatternView, Seq<char>> {
    match parsed {
        Ok(p) => Ok(p@),
        Err(e) => Err(e@),
    }
}

/// The pattern of the kind, or the exact text where no kind is given.
fn pattern_with_kind(kind: Option<&str>, text: &str) -> (pattern: Result<StringPattern, String>)
    ensures
        crate::str_pattern::pattern_result_view(pattern) == pattern_of_optional_kind(
            match kind {
                Some(k) => Some(k@),
                None => None,
            },
            text@,
        ),
{
    match kind {
        Some(k) => StringPattern::from_str_kind(text, k),
        None => Ok(StringPattern::Exact(String::from_str(text))),
    }
}

impl RemoteBookmarkNamePattern {
    /// Reads a pattern over remote bookmarks as users write it.
    pub fn parse(text: &str) -> (pattern: Result<RemoteBookmarkNamePattern, String>)
        ensures
            remote_pattern_result_view(pattern) == parsed_remote_pattern(text@),
    {
        let chars = crate::text::chars_of(text);
        let colon = crate::text::find_char(&chars, ':', 0);
        let kind: Option<&str> = if colon < chars.len() {
            Some(text.substring_char(0, colon))
        } else {
            None
        };
        let rest: &str = if colon < chars.len() {
            text.substring_char(colon + 1, chars.len())
        } else {
            text
        };
        let rest_chars = crate::text::chars_of(rest);
        let at = match crate::text::find_last_char(&rest_chars, '@') {
            Some(at) => at,
            None => {
                return Err(
                    String::from_str("remote bookmark must be specified in bookmark@remote form"),
                );
            },
        };
        let bookmark = match pattern_with_kind(kind, rest.substring_char(0, at)) {
            Ok(p) => p,
            Err(error) => {
                return Err(error);
            },
        };
        let remote = match pattern_with_kind(kind, rest.substring_char(at + 1, rest_chars.len())) {
            Ok(p) => p,
            Err(error) => {
                return Err(error);
            },
        };
        Ok(RemoteBookmarkNamePattern { bookmark, remote })
    }
}

} // verus!
