//! Syncing with Git remotes: fetch, then rebase onto the new remote heads
//! the local commits that descended from the old ones.
//!
//! The decisions are taken here, from the bookmarks and the index as they
//! are before and after the fetch. Fetching and rewriting commits are left
//! to the caller.

use vstd::prelude::*;
use vstd::string::StringExecFns;
use crate::command_error::{internal_error, internal_error_view, CommandError, CommandErrorView};
use crate::commands::git::{resolve_remote_patterns, ResolvedRemotes};
use crate::commands::bookmark::{some_matches, some_pattern_matches, symbol_to_text};
use crate::ids::{hex_of, CommitId};
use crate::index::chain::SegmentChain;
use crate::index::graph::{has_commit, is_ancestor_at, position_of, EntryView};
use crate::index::mutable::{id_views, ReadonlyIndex};
use crate::index::reach::{
    is_ancestor_of_some, is_descendant_of_some, is_listed, lemma_marked_ids_same, marked_ids,
};
use crate::refs::{
    symbol_text, LocalBookmark, RemoteBookmark, RemoteRefSymbol, RepoView, SymbolView,
};
use crate::str_pattern::StringPattern;
use crate::text::{
    decimal, join_strings, joined, push_decimal, string_views, text_order, TextOrder,
};

verus! {

/// The arguments of the sync command.
#[derive(Debug)]
pub struct GitSyncArgs {
    /// The remotes to sync with.
    pub remotes: Vec<StringPattern>,
    /// Sync only the bookmarks that one of these patterns matches; all where
    /// there is no pattern.
    pub bookmarks: Vec<StringPattern>,
    /// Sync with all remotes.
    pub all_remotes: bool,
}

/// Where the patterns over remotes come from.
#[derive(Clone, Copy, Debug, PartialEq, Eq, Structural)]
pub enum RemoteSelection {
    /// Every remote.
    Everything,
    /// The remotes that the configuration names for fetching.
    Configured,
    /// The remotes given on the command line.
    Given,
}

/// Says where the patterns over remotes come from: all remotes where asked
/// for, else the configuration where the command line names none.
pub fn select_remotes(args: &GitSyncArgs) -> (selection: RemoteSelection)
    ensures
        selection == if args.all_remotes {
            RemoteSelection::Everything
        } else if args.remotes.len() == 0 {
            RemoteSelection::Configured
        } else {
            RemoteSelection::Given
        },
{
    if args.all_remotes {
        RemoteSelection::Everything
    } else if args.remotes.len() == 0 {
        RemoteSelection::Configured
    } else {
        RemoteSelection::Given
    }
}

/// A remote bookmark whose place before the fetch may matter: it is tracked
/// and points to one commit.
#[derive(Debug)]
pub struct PreFetchCandidate {
    pub symbol: RemoteRefSymbol,
    /// The commit the remote bookmark points to.
    pub remote_target: CommitId,
    /// The commit the local bookmark of that name points to, where it
    /// points to exactly one.
    pub local_target: Option<CommitId>,
}

/// A candidate as plain values.
pub struct CandidateView {
    pub symbol: SymbolView,
    pub remote_target: Seq<u8>,
    pub local_target: Option<Seq<u8>>,
}

impl View for PreFetchCandidate {
    type V = CandidateView;

    open spec fn view(&self) -> CandidateView {
        CandidateView {
            symbol: self.symbol@,
            remote_target: self.remote_target@,
            local_target: match self.local_target {
                Some(id) => Some(id@),
                None => None,
            },
        }
    }
}

/// The views of the candidates, in their order.
pub open spec fn candidate_views(candidates: Seq<PreFetchCandidate>) -> Seq<CandidateView> {
    candidates.map_values(|c: PreFetchCandidate| c@)
}

/// The commit that the local bookmark of the given name points to, where
/// there is such a bookmark and it points to exactly one commit.
pub open spec fn local_target_of(locals: Seq<LocalBookmark>, name: Seq<char>) -> Option<Seq<u8>>
    decreases locals.len(),
{
    if locals.len() == 0 {
        None
    } else if locals.last().name@ == name {
        if locals.last().target@.is_normal() {
            Some(locals.last().target@.adds[0])
        } else {
            None
        }
    } else {
        local_target_of(locals.drop_last(), name)
    }
}

/// Whether the remote bookmark is a candidate on the given remote.
pub open spec fn is_candidate(bookmark: RemoteBookmark, remote: Seq<char>) -> bool {
    bookmark.remote@ == remote && bookmark.remote_ref.tracking
        && bookmark.remote_ref.target@.is_normal()
}

/// The candidate that a remote bookmark makes.
pub open spec fn candidate_of(bookmark: RemoteBookmark, locals: Seq<LocalBookmark>) -> CandidateView {
    CandidateView {
        symbol: SymbolView { name: bookmark.name@, remote: bookmark.remote@ },
        remote_target: bookmark.remote_ref.target@.adds[0],
        local_target: local_target_of(locals, bookmark.name@),
    }
}

/// The candidates on one remote, in the order of the bookmarks.
pub open spec fn candidates_on(
    bookmarks: Seq<RemoteBookmark>,
    locals: Seq<LocalBookmark>,
    remote: Seq<char>,
) -> Seq<CandidateView>
    decreases bookmarks.len(),
{
    if bookmarks.len() == 0 {
        Seq::empty()
    } else {
        let before = candidates_on(bookmarks.drop_last(), locals, remote);
        if is_candidate(bookmarks.last(), remote) {
            before.push(candidate_of(bookmarks.last(), locals))
        } else {
            before
        }
    }
}

/// The candidates on the given remotes, remote by remote.
pub open spec fn all_candidates(view: RepoView, remotes: Seq<Seq<char>>) -> Seq<CandidateView>
    decreases remotes.len(),
{
    if remotes.len() == 0 {
        Seq::empty()
    } else {
        all_candidates(view, remotes.drop_last()) + candidates_on(
            view.remote_bookmarks@,
            view.local_bookmarks@,
            remotes.last(),
        )
    }
}

/// The commit that the local bookmark of the given name points to, where
/// it points to exactly one.
pub fn find_local_target(view: &RepoView, name: &str) -> (target: Option<CommitId>)
    ensures
        match target {
            Some(id) => local_target_of(view.local_bookmarks@, name@) == Some(id@),
            None => local_target_of(view.local_bookmarks@, name@) is None,
        },
{
    let mut target: Option<CommitId> = None;
    let mut i: usize = 0;
    while i < view.local_bookmarks.len()
        invariant
            i <= view.local_bookmarks.len(),
            match target {
                Some(id) => local_target_of(view.local_bookmarks@.subrange(0, i as int), name@)
                    == Some(id@),
                None => local_target_of(view.local_bookmarks@.subrange(0, i as int), name@) is None,
            },
        decreases view.local_bookmarks.len() - i,
    {
        let bookmark = &view.local_bookmarks[i];
        proof {
            let upto = view.local_bookmarks@.subrange(0, i + 1);
            assert(upto.drop_last() =~= view.local_bookmarks@.subrange(0, i as int));
            assert(upto.last() == *bookmark);
        }
        if text_order(bookmark.name.as_str(), name) == TextOrder::Same {
            target = match bookmark.target.as_normal() {
                Some(id) => {
                    assert(bookmark.target@.adds[0] == bookmark.target.adds[0]@);
                    Some(id.clone())
                },
                None => None,
            };
        }
        i += 1;
    }
    assert(view.local_bookmarks@.subrange(0, view.local_bookmarks.len() as int)
        =~= view.local_bookmarks@);
    target
}

/// Lists the remote bookmarks whose place before the fetch may matter: on
/// each of the remotes, the tracked bookmarks that point to one commit.
pub fn pre_fetch_candidates(view: &RepoView, remotes: &Vec<String>) -> (candidates: Vec<
    PreFetchCandidate,
>)
    ensures
        candidate_views(candidates@) == all_candidates(*view, string_views(remotes@)),
{
    let ghost names = string_views(remotes@);
    let mut candidates: Vec<PreFetchCandidate> = Vec::new();
    let mut r: usize = 0;
    while r < remotes.len()
        invariant
            names == string_views(remotes@),
            r <= remotes.len(),
            candidate_views(candidates@) == all_candidates(*view, names.subrange(0, r as int)),
        decreases remotes.len() - r,
    {
        let remote = &remotes[r];
        let ghost start = candidate_views(candidates@);
        proof {
            let upto = names.subrange(0, r + 1);
            assert(upto.drop_last() =~= names.subrange(0, r as int));
            assert(upto.last() == remote@);
        }
        let mut i: usize = 0;
        while i < view.remote_bookmarks.len()
            invariant
                i <= view.remote_bookmarks.len(),
                candidate_views(candidates@) == start + candidates_on(
                    view.remote_bookmarks@.subrange(0, i as int),
                    view.local_bookmarks@,
                    remote@,
                ),
            decreases view.remote_bookmarks.len() - i,
        {
            let bookmark = &view.remote_bookmarks[i];
            proof {
                let upto = view.remote_bookmarks@.subrange(0, i + 1);
                assert(upto.drop_last() =~= view.remote_bookmarks@.subrange(0, i as int));
                assert(upto.last() == *bookmark);
            }
            let ghost before = candidate_views(candidates@);
            if text_order(bookmark.remote.as_str(), remote.as_str()) == TextOrder::Same
                && bookmark.remote_ref.is_tracked() {
                match bookmark.remote_ref.target.as_normal() {
                    Some(id) => {
                        assert(bookmark.remote_ref.target@.adds[0]
                            == bookmark.remote_ref.target.adds[0]@);
                        let candidate = PreFetchCandidate {
                            symbol: RemoteRefSymbol {
                                name: bookmark.name.clone(),
                                remote: bookmark.remote.clone(),
                            },
                            remote_target: id.clone(),
                            local_target: find_local_target(view, bookmark.name.as_str()),
                        };
                        assert(candidate@ == candidate_of(*bookmark, view.local_bookmarks@));
                        candidates.push(candidate);
                        assert(candidate_views(candidates@) =~= before.push(candidate@));
                    },
                    None => {},
                }
            }
            assert(candidate_views(candidates@) =~= start + candidates_on(
                view.remote_bookmarks@.subrange(0, i + 1),
                view.local_bookmarks@,
                remote@,
            ));
            i += 1;
        }
        assert(view.remote_bookmarks@.subrange(0, view.remote_bookmarks.len() as int)
            =~= view.remote_bookmarks@);
        r += 1;
    }
    assert(names.subrange(0, remotes.len() as int) =~= names);
    candidates
}

/// What the object store says of a commit.
#[derive(Debug)]
pub enum CommitLookup {
    /// The commit is there.
    Found,
    /// The store has no such commit.
    NotFound,
    /// The store failed, with the message of its error.
    Failed(String),
}

/// Where a remote bookmark stood before the fetch.
#[derive(Debug)]
pub struct PreFetchHead {
    pub symbol: RemoteRefSymbol,
    pub commit_id: CommitId,
}

/// A head as plain values.
pub struct HeadView {
    pub symbol: SymbolView,
    pub commit_id: Seq<u8>,
}

impl View for PreFetchHead {
    type V = HeadView;

    open spec fn view(&self) -> HeadView {
        HeadView { symbol: self.symbol@, commit_id: self.commit_id@ }
    }
}

/// The views of the heads, in their order.
pub open spec fn head_views(heads: Seq<PreFetchHead>) -> Seq<HeadView> {
    heads.map_values(|h: PreFetchHead| h@)
}

/// The error for lookups that do not answer the candidates one for one.
pub open spec fn lookups_mismatch_error() -> CommandErrorView {
    internal_error_view("The commit lookups do not match the remote bookmarks"@)
}

/// The heads that the first `upto` candidates give, or the error of the
/// first lookup that failed.
///
/// A candidate whose commit is in the store stood there. One whose commit
/// the store lacks, as after a forced push, stood where the local bookmark
/// points, if that is one commit, and is left out otherwise.
pub open spec fn heads_upto(
    candidates: Seq<CandidateView>,
    lookups: Seq<CommitLookup>,
    upto: int,
) -> Result<Seq<HeadView>, CommandErrorView>
    decreases upto,
{
    if upto <= 0 {
        Ok(Seq::empty())
    } else {
        match heads_upto(candidates, lookups, upto - 1) {
            Err(error) => Err(error),
            Ok(heads) => {
                let candidate = candidates[upto - 1];
                match lookups[upto - 1] {
                    CommitLookup::Found => Ok(
                        heads.push(
                            HeadView {
                                symbol: candidate.symbol,
                                commit_id: candidate.remote_target,
                            },
                        ),
                    ),
                    CommitLookup::NotFound => match candidate.local_target {
                        Some(id) => Ok(
                            heads.push(HeadView { symbol: candidate.symbol, commit_id: id }),
                        ),
                        None => Ok(heads),
                    },
                    CommitLookup::Failed(message) => Err(internal_error_view(message@)),
                }
            },
        }
    }
}

/// The heads before the fetch, from the candidates and what the store says
/// of the commit of each.
pub open spec fn heads_from(
    candidates: Seq<CandidateView>,
    lookups: Seq<CommitLookup>,
) -> Result<Seq<HeadView>, CommandErrorView> {
    if candidates.len() != lookups.len() {
        Err(lookups_mismatch_error())
    } else {
        heads_upto(candidates, lookups, candidates.len() as int)
    }
}

/// What a result of heads holds, as plain values.
pub open spec fn heads_result_view(
    heads: Result<Vec<PreFetchHead>, CommandError>,
) -> Result<Seq<HeadView>, CommandErrorView> {
    match heads {
        Ok(heads) => Ok(head_views(heads@)),
        Err(error) => Err(error@),
    }
}

/// Settles where each candidate stood before the fetch.
pub fn pre_fetch_heads(candidates: &Vec<PreFetchCandidate>, lookups: &Vec<CommitLookup>) -> (heads:
    Result<Vec<PreFetchHead>, CommandError>)
    ensures
        heads_result_view(heads) == heads_from(candidate_views(candidates@), lookups@),
{
    if candidates.len() != lookups.len() {
        return Err(
            internal_error(
                String::from_str("The commit lookups do not match the remote bookmarks"),
            ),
        );
    }
    let ghost views = candidate_views(candidates@);
    let mut heads: Vec<PreFetchHead> = Vec::new();
    let mut i: usize = 0;
    assert(head_views(heads@) =~= Seq::<HeadView>::empty());
    while i < candidates.len()
        invariant
            views == candidate_views(candidates@),
            candidates.len() == lookups.len(),
            i <= candidates.len(),
            heads_upto(views, lookups@, i as int) == Ok::<Seq<HeadView>, CommandErrorView>(
                head_views(heads@),
            ),
        decreases candidates.len() - i,
    {
        let candidate = &candidates[i];
        let ghost before = head_views(heads@);
        assert(views[i as int] == candidate@);
        match &lookups[i] {
            CommitLookup::Found => {
                let head = PreFetchHead {
                    symbol: candidate.symbol.clone(),
                    commit_id: candidate.remote_target.clone(),
                };
                heads.push(head);
                assert(head_views(heads@) =~= before.push(head@));
            },
            CommitLookup::NotFound => {
                match &candidate.local_target {
                    Some(id) => {
                        let head = PreFetchHead {
                            symbol: candidate.symbol.clone(),
                            commit_id: id.clone(),
                        };
                        heads.push(head);
                        assert(head_views(heads@) =~= before.push(head@));
                    },
                    None => {},
                }
            },
            CommitLookup::Failed(message) => {
                let error = internal_error(message.clone());
                proof {
                    lemma_heads_error_stays(views, lookups@, i + 1, candidates.len() as int);
                }
                return Err(error);
            },
        }
        i += 1;
    }
    Ok(heads)
}

/// Once a lookup has failed, the error stays whatever follows.
pub proof fn lemma_heads_error_stays(
    candidates: Seq<CandidateView>,
    lookups: Seq<CommitLookup>,
    at: int,
    upto: int,
)
    requires
        0 <= at <= upto,
        heads_upto(candidates, lookups, at) is Err,
    ensures
        heads_upto(candidates, lookups, upto) == heads_upto(candidates, lookups, at),
    decreases upto - at,
{
    if at < upto {
        lemma_heads_error_stays(candidates, lookups, at, upto - 1);
    }
}

/// A rebase to carry out: the local commits that descended from the old
/// head of a remote bookmark go onto its new head.
#[derive(Debug)]
pub struct RebaseOperation {
    pub symbol: RemoteRefSymbol,
    pub old_head: CommitId,
    pub new_head: CommitId,
}

/// A rebase as plain values.
pub struct RebaseView {
    pub symbol: SymbolView,
    pub old_head: Seq<u8>,
    pub new_head: Seq<u8>,
}

impl View for RebaseOperation {
    type V = RebaseView;

    open spec fn view(&self) -> RebaseView {
        RebaseView { symbol: self.symbol@, old_head: self.old_head@, new_head: self.new_head@ }
    }
}

/// The views of the rebases, in their order.
pub open spec fn rebase_views(operations: Seq<RebaseOperation>) -> Seq<RebaseView> {
    operations.map_values(|o: RebaseOperation| o@)
}

/// The commit that the remote bookmark with the symbol points to, where
/// there is such a bookmark and it points to exactly one commit.
pub open spec fn remote_target_of(bookmarks: Seq<RemoteBookmark>, symbol: SymbolView) -> Option<
    Seq<u8>,
>
    decreases bookmarks.len(),
{
    if bookmarks.len() == 0 {
        None
    } else if bookmarks.last().name@ == symbol.name && bookmarks.last().remote@ == symbol.remote {
        if bookmarks.last().remote_ref.target@.is_normal() {
            Some(bookmarks.last().remote_ref.target@.adds[0])
        } else {
            None
        }
    } else {
        remote_target_of(bookmarks.drop_last(), symbol)
    }
}

/// Whether the bookmark passes the filter: there is no pattern, or one of
/// the patterns matches its name.
pub open spec fn passes_filter(patterns: Seq<StringPattern>, name: Seq<char>) -> bool {
    patterns.len() == 0 || some_matches(patterns, name)
}

/// The rebases for the heads, in their order: one for each head whose
/// remote bookmark points to another single commit after the fetch and
/// passes the filter.
pub open spec fn rebases_for(
    heads: Seq<HeadView>,
    bookmarks_after: Seq<RemoteBookmark>,
    patterns: Seq<StringPattern>,
) -> Seq<RebaseView>
    decreases heads.len(),
{
    if heads.len() == 0 {
        Seq::empty()
    } else {
        let before = rebases_for(heads.drop_last(), bookmarks_after, patterns);
        let head = heads.last();
        match remote_target_of(bookmarks_after, head.symbol) {
            Some(new_head) => if new_head != head.commit_id && passes_filter(
                patterns,
                head.symbol.name,
            ) {
                before.push(
                    RebaseView { symbol: head.symbol, old_head: head.commit_id, new_head },
                )
            } else {
                before
            },
            None => before,
        }
    }
}

/// The commit that the remote bookmark with the symbol points to, where it
/// points to exactly one.
pub fn find_remote_target(view: &RepoView, symbol: &RemoteRefSymbol) -> (target: Option<CommitId>)
    ensures
        match target {
            Some(id) => remote_target_of(view.remote_bookmarks@, symbol@) == Some(id@),
            None => remote_target_of(view.remote_bookmarks@, symbol@) is None,
        },
{
    let mut target: Option<CommitId> = None;
    let mut i: usize = 0;
    while i < view.remote_bookmarks.len()
        invariant
            i <= view.remote_bookmarks.len(),
            match target {
                Some(id) => remote_target_of(view.remote_bookmarks@.subrange(0, i as int), symbol@)
                    == Some(id@),
                None => remote_target_of(
                    view.remote_bookmarks@.subrange(0, i as int),
                    symbol@,
                ) is None,
            },
        decreases view.remote_bookmarks.len() - i,
    {
        let bookmark = &view.remote_bookmarks[i];
        proof {
            let upto = view.remote_bookmarks@.subrange(0, i + 1);
            assert(upto.drop_last() =~= view.remote_bookmarks@.subrange(0, i as int));
            assert(upto.last() == *bookmark);
        }
        if text_order(bookmark.name.as_str(), symbol.name.as_str()) == TextOrder::Same
            && text_order(bookmark.remote.as_str(), symbol.remote.as_str()) == TextOrder::Same {
            target = match bookmark.remote_ref.target.as_normal() {
                Some(id) => {
                    assert(bookmark.remote_ref.target@.adds[0]
                        == bookmark.remote_ref.target.adds[0]@);
                    Some(id.clone())
                },
                None => None,
            };
        }
        i += 1;
    }
    assert(view.remote_bookmarks@.subrange(0, view.remote_bookmarks.len() as int)
        =~= view.remote_bookmarks@);
    target
}

/// Decides what to rebase after the fetch: for each remote bookmark that
/// moved to another single commit and passes the filter, the local commits
/// on its old head go onto the new one.
pub fn plan_rebases(
    heads: &Vec<PreFetchHead>,
    view_after: &RepoView,
    bookmark_patterns: &Vec<StringPattern>,
) -> (operations: Vec<RebaseOperation>)
    ensures
        rebase_views(operations@) == rebases_for(
            head_views(heads@),
            view_after.remote_bookmarks@,
            bookmark_patterns@,
        ),
{
    let ghost views = head_views(heads@);
    let mut operations: Vec<RebaseOperation> = Vec::new();
    let mut i: usize = 0;
    while i < heads.len()
        invariant
            views == head_views(heads@),
            i <= heads.len(),
            rebase_views(operations@) == rebases_for(
                views.subrange(0, i as int),
                view_after.remote_bookmarks@,
                bookmark_patterns@,
            ),
        decreases heads.len() - i,
    {
        let head = &heads[i];
        proof {
            let upto = views.subrange(0, i + 1);
            assert(upto.drop_last() =~= views.subrange(0, i as int));
            assert(upto.last() == head@);
        }
        let ghost before = rebase_views(operations@);
        match find_remote_target(view_after, &head.symbol) {
            Some(new_head) => {
                if !new_head.same_as(&head.commit_id) && (bookmark_patterns.len() == 0
                    || some_pattern_matches(bookmark_patterns, head.symbol.name.as_str())) {
                    let operation = RebaseOperation {
                        symbol: head.symbol.clone(),
                        old_head: head.commit_id.clone(),
                        new_head,
                    };
                    operations.push(operation);
                    assert(rebase_views(operations@) =~= before.push(operation@));
                }
            },
            None => {},
        }
        i += 1;
    }
    assert(views.subrange(0, heads.len() as int) =~= views);
    operations
}

/// Whether the head belongs to another remote bookmark than the rebase and
/// stood on another commit.
pub open spec fn is_other_head(head: HeadView, operation: RebaseView) -> bool {
    head.symbol != operation.symbol && head.commit_id != operation.old_head
}

/// Whether one of the first `upto` heads is another head, is indexed, and
/// stands at the position `x`.
pub open spec fn other_head_at(
    g: Seq<EntryView>,
    heads: Seq<HeadView>,
    operation: RebaseView,
    upto: int,
    x: int,
) -> bool {
    exists|j: int|
        0 <= j < upto && j < heads.len() && is_other_head(#[trigger] heads[j], operation)
            && has_commit(g, heads[j].commit_id) && position_of(g, heads[j].commit_id) == x
}

/// Whether the entry at `p` descends from the old head of another remote
/// bookmark.
pub open spec fn descends_from_other(
    g: Seq<EntryView>,
    heads: Seq<HeadView>,
    operation: RebaseView,
    p: int,
) -> bool {
    exists|x: int|
        other_head_at(g, heads, operation, heads.len() as int, x) && #[trigger] is_ancestor_at(
            g,
            x,
            p,
        )
}

/// Whether the commit at `p` is one to rebase: it is the old head or
/// descends from it, it is neither the new head nor an ancestor of it, and
/// it does not descend from the old head of another remote bookmark.
pub open spec fn is_to_rebase(
    g: Seq<EntryView>,
    heads: Seq<HeadView>,
    operation: RebaseView,
    p: int,
) -> bool {
    &&& has_commit(g, operation.old_head)
    &&& is_ancestor_at(g, position_of(g, operation.old_head), p)
    &&& !(has_commit(g, operation.new_head) && is_ancestor_at(
        g,
        p,
        position_of(g, operation.new_head),
    ))
    &&& !descends_from_other(g, heads, operation, p)
}

/// For each position, whether its commit is one to rebase.
pub open spec fn rebase_marks(
    g: Seq<EntryView>,
    heads: Seq<HeadView>,
    operation: RebaseView,
) -> Seq<bool> {
    Seq::new(g.len(), |p: int| is_to_rebase(g, heads, operation, p))
}

/// The positions of the commit, as a list of one or none.
fn positions_of_commit(chain: &SegmentChain, id: &CommitId) -> (positions: Vec<u32>)
    requires
        chain.wf(),
    ensures
        forall|x: int|
            is_listed(positions@, x) <==> (has_commit(chain@, id@) && position_of(chain@, id@)
                == x),
        forall|i: int| 0 <= i < positions.len() ==> (#[trigger] positions@[i]) < chain@.len(),
{
    let mut positions: Vec<u32> = Vec::new();
    match chain.position_of(id) {
        Some(pos) => {
            positions.push(pos);
            assert forall|x: int| is_listed(positions@, x) <==> (has_commit(chain@, id@)
                && position_of(chain@, id@) == x) by {
                if position_of(chain@, id@) == x {
                    assert(positions@[0] as int == x);
                }
            }
        },
        None => {},
    }
    positions
}

/// Lists the commits to rebase for one operation, the latest first: the
/// commits on the old head that are not in the new head's history and do
/// not belong to the old head of another remote bookmark.
pub fn commits_to_rebase(
    index: &ReadonlyIndex,
    operation: &RebaseOperation,
    heads: &Vec<PreFetchHead>,
) -> (commits: Vec<CommitId>)
    requires
        index.wf(),
    ensures
        id_views(commits@) == marked_ids(
            index@,
            rebase_marks(index@, head_views(heads@), operation@),
        ),
{
    let chain = &index.chain;
    let ghost g = index@;
    let ghost views = head_views(heads@);
    let roots = positions_of_commit(chain, &operation.old_head);
    let tips = positions_of_commit(chain, &operation.new_head);
    let mut others: Vec<u32> = Vec::new();
    let mut i: usize = 0;
    while i < heads.len()
        invariant
            index.wf(),
            chain == &index.chain,
            g == index@,
            views == head_views(heads@),
            i <= heads.len(),
            forall|x: int| is_listed(others@, x) <==> other_head_at(g, views, operation@, i as int, x),
        decreases heads.len() - i,
    {
        let head = &heads[i];
        assert(views[i as int] == head@);
        let ghost before = others@;
        let same_symbol: bool = text_order(head.symbol.name.as_str(), operation.symbol.name.as_str())
            == TextOrder::Same && text_order(
            head.symbol.remote.as_str(),
            operation.symbol.remote.as_str(),
        ) == TextOrder::Same;
        let mut added: bool = false;
        if !same_symbol && !head.commit_id.same_as(&operation.old_head) {
            match chain.position_of(&head.commit_id) {
                Some(pos) => {
                    others.push(pos);
                    added = true;
                },
                None => {},
            }
        }
        proof {
            assert forall|x: int| is_listed(others@, x) <==> other_head_at(
                g,
                views,
                operation@,
                i + 1,
                x,
            ) by {
                if is_listed(others@, x) {
                    let m = choose|m: int| 0 <= m < others.len() && #[trigger] others@[m] as int == x;
                    if m < before.len() {
                        assert(before[m] as int == x);
                        assert(is_listed(before, x));
                        assert(other_head_at(g, views, operation@, i as int, x));
                        let j = choose|j: int|
                            0 <= j < i && j < views.len() && is_other_head(
                                #[trigger] views[j],
                                operation@,
                            ) && has_commit(g, views[j].commit_id) && position_of(
                                g,
                                views[j].commit_id,
                            ) == x;
                        assert(j < i + 1);
                    } else {
                        assert(is_other_head(views[i as int], operation@));
                    }
                }
                if other_head_at(g, views, operation@, i + 1, x) {
                    let j = choose|j: int|
                        0 <= j < i + 1 && j < views.len() && is_other_head(
                            #[trigger] views[j],
                            operation@,
                        ) && has_commit(g, views[j].commit_id) && position_of(
                            g,
                            views[j].commit_id,
                        ) == x;
                    if j < i {
                        assert(other_head_at(g, views, operation@, i as int, x));
                        assert(is_listed(before, x));
                        let m = choose|m: int|
                            0 <= m < before.len() && #[trigger] before[m] as int == x;
                        assert(others@[m] as int == x);
                    } else {
                        assert(added);
                        assert(others@[others.len() - 1] as int == x);
                    }
                }
            }
        }
        i += 1;
    }
    let on_old = chain.descendants_mask(&roots);
    let in_new = chain.ancestors_mask(&tips);
    let on_other = chain.descendants_mask(&others);
    let n: u32 = chain.num_commits();
    let mut marks: Vec<bool> = Vec::new();
    let mut p: u32 = 0;
    while p < n
        invariant
            n == g.len(),
            on_old.len() == n,
            in_new.len() == n,
            on_other.len() == n,
            p <= n,
            marks.len() == p,
            forall|x: int|
                0 <= x < p ==> marks[x] == (on_old[x] && !in_new[x] && !on_other[x]),
        decreases n - p,
    {
        marks.push(on_old[p as usize] && !in_new[p as usize] && !on_other[p as usize]);
        p += 1;
    }
    proof {
        let wanted = rebase_marks(g, views, operation@);
        assert forall|x: int| 0 <= x < g.len() implies marks@[x] == wanted[x] by {
            // On the old head.
            if is_descendant_of_some(g, roots@, x) {
                let r = choose|r: int|
                    0 <= r < roots.len() && is_ancestor_at(g, #[trigger] roots@[r] as int, x);
                assert(is_listed(roots@, roots@[r] as int));
            }
            if has_commit(g, operation@.old_head) && is_ancestor_at(
                g,
                position_of(g, operation@.old_head),
                x,
            ) {
                assert(is_listed(roots@, position_of(g, operation@.old_head)));
                let r = choose|r: int|
                    0 <= r < roots.len() && #[trigger] roots@[r] as int == position_of(
                        g,
                        operation@.old_head,
                    );
                assert(is_ancestor_at(g, roots@[r] as int, x));
            }
            // In the history of the new head.
            if is_ancestor_of_some(g, tips@, x) {
                let r = choose|r: int|
                    0 <= r < tips.len() && is_ancestor_at(g, x, #[trigger] tips@[r] as int);
                assert(is_listed(tips@, tips@[r] as int));
            }
            if has_commit(g, operation@.new_head) && is_ancestor_at(
                g,
                x,
                position_of(g, operation@.new_head),
            ) {
                assert(is_listed(tips@, position_of(g, operation@.new_head)));
                let r = choose|r: int|
                    0 <= r < tips.len() && #[trigger] tips@[r] as int == position_of(
                        g,
                        operation@.new_head,
                    );
                assert(is_ancestor_at(g, x, tips@[r] as int));
            }
            // On the old head of another remote bookmark.
            if is_descendant_of_some(g, others@, x) {
                let r = choose|r: int|
                    0 <= r < others.len() && is_ancestor_at(g, #[trigger] others@[r] as int, x);
                assert(is_listed(others@, others@[r] as int));
                assert(other_head_at(g, views, operation@, views.len() as int, others@[r] as int));
                assert(descends_from_other(g, views, operation@, x));
            }
            if descends_from_other(g, views, operation@, x) {
                let y = choose|y: int|
                    other_head_at(g, views, operation@, views.len() as int, y)
                        && #[trigger] is_ancestor_at(g, y, x);
                assert(is_listed(others@, y));
                let r = choose|r: int| 0 <= r < others.len() && #[trigger] others@[r] as int == y;
                assert(is_ancestor_at(g, others@[r] as int, x));
            }
        }
        lemma_marked_ids_same(g, marks@, wanted, 0);
    }
    chain.ids_of_marked(&marks)
}

/// What is said before the commits of a rebase are looked for.
pub open spec fn rebase_announcement(operation: RebaseView) -> Seq<char> {
    "Rebasing local commits from "@ + symbol_text(operation.symbol) + " ("@ + hex_of(
        operation.old_head,
    ) + " -> "@ + hex_of(operation.new_head) + ")"@
}

/// What is said where a rebase finds no commit.
pub open spec fn nothing_to_rebase_message(operation: RebaseView) -> Seq<char> {
    "  No local commits to rebase for "@ + symbol_text(operation.symbol)
}

/// What is said before a number of commits is rebased.
pub open spec fn rebasing_message(count: nat) -> Seq<char> {
    "  Rebasing "@ + decimal(count) + " commits"@
}

/// Says which rebase is about to be looked at.
pub fn announce_rebase(operation: &RebaseOperation) -> (text: String)
    ensures
        text@ == rebase_announcement(operation@),
{
    let mut text = String::from_str("Rebasing local commits from ");
    let symbol = symbol_to_text(&operation.symbol);
    text.append(symbol.as_str());
    text.append(" (");
    let old = operation.old_head.hex();
    text.append(old.as_str());
    text.append(" -> ");
    let new = operation.new_head.hex();
    text.append(new.as_str());
    text.append(")");
    text
}

/// Says how a rebase starts: that there is nothing to rebase, or how many
/// commits are.
pub fn announce_commits(operation: &RebaseOperation, count: u64) -> (text: String)
    ensures
        text@ == if count == 0 {
            nothing_to_rebase_message(operation@)
        } else {
            rebasing_message(count as nat)
        },
{
    if count == 0 {
        let mut text = String::from_str("  No local commits to rebase for ");
        let symbol = symbol_to_text(&operation.symbol);
        text.append(symbol.as_str());
        text
    } else {
        let mut text = String::from_str("  Rebasing ");
        push_decimal(&mut text, count);
        text.append(" commits");
        text
    }
}

/// The running totals of a sync.
#[derive(Clone, Copy, Debug, PartialEq, Eq, Structural)]
pub struct SyncTotals {
    /// The number of rebases that moved commits.
    pub num_rebased_stacks: u64,
    /// The number of commits that were rewritten onto new heads.
    pub total_rebased_commits: u64,
    /// The number of commits that were dropped because the remote has them
    /// already.
    pub total_abandoned_commits: u64,
}

impl SyncTotals {
    /// The totals of a sync that has rebased nothing yet.
    pub fn new() -> (totals: SyncTotals)
        ensures
            totals == (SyncTotals {
                num_rebased_stacks: 0,
                total_rebased_commits: 0,
                total_abandoned_commits: 0,
            }),
    {
        SyncTotals { num_rebased_stacks: 0, total_rebased_commits: 0, total_abandoned_commits: 0 }
    }

    /// The totals after one more rebase, of which `planned` commits were
    /// to be rebased and `rebased` were rewritten: the rest was dropped as
    /// merged already.
    pub open spec fn after_rebase(self, planned: u64, rebased: u64) -> SyncTotals {
        SyncTotals {
            num_rebased_stacks: (self.num_rebased_stacks + 1) as u64,
            total_rebased_commits: (self.total_rebased_commits + rebased) as u64,
            total_abandoned_commits: (self.total_abandoned_commits + (planned - rebased)) as u64,
        }
    }

    /// Whether one more rebase can be recorded: no more commits were
    /// rewritten than planned, and the totals stay within their range.
    pub open spec fn can_record(self, planned: u64, rebased: u64) -> bool {
        &&& rebased <= planned
        &&& self.num_rebased_stacks < u64::MAX
        &&& self.total_rebased_commits + rebased <= u64::MAX
        &&& self.total_abandoned_commits + (planned - rebased) <= u64::MAX
    }

    /// Records one more rebase, where it can be recorded.
    pub fn record_rebase(self, planned: u64, rebased: u64) -> (totals: Option<SyncTotals>)
        ensures
            totals is Some <==> self.can_record(planned, rebased),
            totals is Some ==> totals->0 == self.after_rebase(planned, rebased),
    {
        if rebased > planned || self.num_rebased_stacks == u64::MAX {
            return None;
        }
        let abandoned: u64 = planned - rebased;
        if rebased > u64::MAX - self.total_rebased_commits || abandoned > u64::MAX
            - self.total_abandoned_commits {
            return None;
        }
        Some(
            SyncTotals {
                num_rebased_stacks: self.num_rebased_stacks + 1,
                total_rebased_commits: self.total_rebased_commits + rebased,
                total_abandoned_commits: self.total_abandoned_commits + abandoned,
            },
        )
    }
}

/// The description of the transaction of a sync.
pub open spec fn sync_description(totals: SyncTotals, remotes: Seq<Seq<char>>) -> Seq<char> {
    if totals.num_rebased_stacks > 0 {
        "git sync: fetched and rebased "@ + decimal(totals.total_rebased_commits as nat)
            + " commits across "@ + decimal(totals.num_rebased_stacks as nat)
            + " bookmark updates from "@ + joined(remotes, ", "@)
    } else {
        "git sync: fetched from "@ + joined(remotes, ", "@) + " (no local changes to rebase)"@
    }
}

/// What the user is told at the end of a sync.
pub open spec fn sync_summary(totals: SyncTotals) -> Seq<char> {
    if totals.num_rebased_stacks > 0 {
        if totals.total_abandoned_commits > 0 {
            "Synced and rebased "@ + decimal(totals.total_rebased_commits as nat) + " commits ("@
                + decimal(totals.total_abandoned_commits as nat) + " already merged) across "@
                + decimal(totals.num_rebased_stacks as nat) + " bookmark updates."@
        } else {
            "Synced and rebased "@ + decimal(totals.total_rebased_commits as nat)
                + " commits across "@ + decimal(totals.num_rebased_stacks as nat)
                + " bookmark updates."@
        }
    } else {
        "No local changes to sync."@
    }
}

/// Describes the transaction of a sync.
pub fn describe_sync(totals: &SyncTotals, remotes: &Vec<String>) -> (text: String)
    ensures
        text@ == sync_description(*totals, string_views(remotes@)),
{
    let list = join_strings(remotes, ", ");
    if totals.num_rebased_stacks > 0 {
        let mut text = String::from_str("git sync: fetched and rebased ");
        push_decimal(&mut text, totals.total_rebased_commits);
        text.append(" commits across ");
        push_decimal(&mut text, totals.num_rebased_stacks);
        text.append(" bookmark updates from ");
        text.append(list.as_str());
        text
    } else {
        let mut text = String::from_str("git sync: fetched from ");
        text.append(list.as_str());
        text.append(" (no local changes to rebase)");
        text
    }
}

/// Sums a sync up for the user.
pub fn summarize_sync(totals: &SyncTotals) -> (text: String)
    ensures
        text@ == sync_summary(*totals),
{
    if totals.num_rebased_stacks > 0 {
        let mut text = String::from_str("Synced and rebased ");
        push_decimal(&mut text, totals.total_rebased_commits);
        if totals.total_abandoned_commits > 0 {
            text.append(" commits (");
            push_decimal(&mut text, totals.total_abandoned_commits);
            text.append(" already merged) across ");
        } else {
            text.append(" commits across ");
        }
        push_decimal(&mut text, totals.num_rebased_stacks);
        text.append(" bookmark updates.");
        text
    } else {
        String::from_str("No local changes to sync.")
    }
}

/// How a line is shown to the user.
#[derive(Clone, Copy, Debug, PartialEq, Eq, Structural)]
pub enum MessageKind {
    Status,
    Warning,
}

/// A line for the user.
#[derive(Debug)]
pub struct Message {
    pub kind: MessageKind,
    pub text: String,
}

/// A line as plain values.
pub struct MessageView {
    pub kind: MessageKind,
    pub text: Seq<char>,
}

impl View for Message {
    type V = MessageView;

    open spec fn view(&self) -> MessageView {
        MessageView { kind: self.kind, text: self.text@ }
    }
}

/// The views of the lines, in their order.
pub open spec fn message_views(messages: Seq<Message>) -> Seq<MessageView> {
    messages.map_values(|m: Message| m@)
}

/// A line of status.
pub open spec fn status_line(text: Seq<char>) -> MessageView {
    MessageView { kind: MessageKind::Status, text }
}

/// The texts as warnings, in their order.
pub open spec fn warning_lines(texts: Seq<Seq<char>>) -> Seq<MessageView> {
    texts.map_values(|t: Seq<char>| MessageView { kind: MessageKind::Warning, text: t })
}

/// Where a sync stands.
#[derive(Debug)]
pub enum SyncState {
    /// Nothing has been done.
    Start,
    /// The remotes that the configuration names have been asked for.
    AwaitingConfiguredRemotes,
    /// The names of all remotes have been asked for.
    AwaitingRemoteNames { patterns: Vec<StringPattern> },
    /// The store has been asked about the commits of the candidates.
    AwaitingLookups { remotes: Vec<String>, candidates: Vec<PreFetchCandidate> },
    /// The fetch is running.
    Fetching { remotes: Vec<String>, heads: Vec<PreFetchHead> },
    /// The rebase numbered `next` is running, with `planned` commits.
    Rebasing {
        remotes: Vec<String>,
        heads: Vec<PreFetchHead>,
        operations: Vec<RebaseOperation>,
        next: usize,
        planned: u64,
        totals: SyncTotals,
    },
    /// The transaction is being finished.
    Finishing { totals: SyncTotals },
    /// The sync has ended.
    Done,
}

/// What has happened since the last step.
#[derive(Debug)]
pub enum SyncEvent {
    /// The command was started.
    Begin,
    /// The configuration names these remotes for fetching.
    ConfiguredRemotes(Vec<StringPattern>),
    /// The repository has these remotes.
    RemoteNames(Vec<String>),
    /// The store says this of the commits asked about, in their order.
    Lookups(Vec<CommitLookup>),
    /// The fetch has ended.
    Fetched,
    /// The rebase has ended and rewrote this many commits.
    Rebased(u64),
    /// The transaction has been finished.
    Finished,
}

/// What the caller is to do next.
#[derive(Debug)]
pub enum SyncAction {
    /// Read the remotes that the configuration names for fetching.
    ReadConfiguredRemotes,
    /// List the remotes of the repository.
    ListRemotes,
    /// Ask the store about these commits.
    LookUpCommits(Vec<CommitId>),
    /// Fetch the branches that the patterns match from the remotes.
    Fetch { remotes: Vec<String>, branches: Vec<StringPattern> },
    /// Record each of the commits as rewritten to `onto` and rebase their
    /// descendants, dropping commits that become empty.
    Rebase { commits: Vec<CommitId>, onto: CommitId },
    /// Finish the transaction under this description.
    Finish { tx_description: String },
    /// Nothing: the sync has ended.
    Stop,
    /// Give the sync up with this error.
    Fail(CommandError),
}

/// One step of a sync: the lines to show, what to do then, and where the
/// sync stands after.
#[derive(Debug)]
pub struct SyncStep {
    pub messages: Vec<Message>,
    pub action: SyncAction,
    pub state: SyncState,
}

/// The error for an event that cannot follow the state.
pub open spec fn unexpected_event_error() -> CommandErrorView {
    internal_error_view("Unexpected event during sync"@)
}

/// The error for a rebase that rewrote more commits than it was given, or
/// for totals out of range.
pub open spec fn rebase_count_error() -> CommandErrorView {
    internal_error_view("The rebase reported more commits than can be accounted for"@)
}

/// The commits that the rebase finds in the graph.
pub open spec fn commits_of(g: Seq<EntryView>, heads: Seq<HeadView>, operation: RebaseView) -> Seq<
    Seq<u8>,
> {
    marked_ids(g, rebase_marks(g, heads, operation))
}

/// The first rebase from `from` on that finds commits, or the number of
/// rebases where none does.
pub open spec fn next_with_commits(
    g: Seq<EntryView>,
    heads: Seq<HeadView>,
    operations: Seq<RebaseView>,
    from: int,
) -> int
    decreases operations.len() - from,
{
    if from >= operations.len() || from < 0 {
        operations.len() as int
    } else if commits_of(g, heads, operations[from]).len() > 0 {
        from
    } else {
        next_with_commits(g, heads, operations, from + 1)
    }
}

/// The lines for the rebases from `from` up to `to`, each of which finds
/// no commit.
pub open spec fn skipped_lines(operations: Seq<RebaseView>, from: int, to: int) -> Seq<MessageView>
    decreases to - from,
{
    if from >= to {
        Seq::empty()
    } else {
        skipped_lines(operations, from, to - 1).push(
            status_line(rebase_announcement(operations[to - 1])),
        ).push(status_line(nothing_to_rebase_message(operations[to - 1])))
    }
}

/// The lines shown on the way to the next rebase that finds commits.
pub open spec fn lines_to_next(
    g: Seq<EntryView>,
    heads: Seq<HeadView>,
    operations: Seq<RebaseView>,
    from: int,
) -> Seq<MessageView> {
    let stop = next_with_commits(g, heads, operations, from);
    if stop < operations.len() {
        skipped_lines(operations, from, stop).push(
            status_line(rebase_announcement(operations[stop])),
        ).push(status_line(rebasing_message(commits_of(g, heads, operations[stop]).len())))
    } else {
        skipped_lines(operations, from, stop)
    }
}

/// Goes on to the next rebase that finds commits, or to the end of the
/// sync where none is left.
fn next_rebase(
    index: &ReadonlyIndex,
    remotes: Vec<String>,
    heads: Vec<PreFetchHead>,
    operations: Vec<RebaseOperation>,
    from: usize,
    totals: SyncTotals,
) -> (step: SyncStep)
    requires
        index.wf(),
        from <= operations.len(),
    ensures
        message_views(step.messages@) == lines_to_next(
            index@,
            head_views(heads@),
            rebase_views(operations@),
            from as int,
        ),
        ({
            let stop = next_with_commits(
                index@,
                head_views(heads@),
                rebase_views(operations@),
                from as int,
            );
            if stop < operations.len() {
                &&& step.action matches SyncAction::Rebase { commits, onto }
                &&& id_views(commits@) == commits_of(
                    index@,
                    head_views(heads@),
                    rebase_views(operations@)[stop],
                )
                &&& onto@ == rebase_views(operations@)[stop].new_head
                &&& step.state matches SyncState::Rebasing {
                    remotes: r,
                    heads: h,
                    operations: o,
                    next,
                    planned,
                    totals: t,
                }
                &&& r == remotes
                &&& h == heads
                &&& o == operations
                &&& next == stop
                &&& planned == commits.len()
                &&& t == totals
            } else {
                &&& step.action matches SyncAction::Finish { tx_description }
                &&& tx_description@ == sync_description(totals, string_views(remotes@))
                &&& step.state matches SyncState::Finishing { totals: t }
                &&& t == totals
            }
        }),
{
    let ghost g = index@;
    let ghost hv = head_views(heads@);
    let ghost ov = rebase_views(operations@);
    let mut messages: Vec<Message> = Vec::new();
    let mut at: usize = from;
    assert(message_views(messages@) =~= skipped_lines(ov, from as int, from as int));
    while at < operations.len()
        invariant
            index.wf(),
            g == index@,
            hv == head_views(heads@),
            ov == rebase_views(operations@),
            from <= at <= operations.len(),
            next_with_commits(g, hv, ov, at as int) == next_with_commits(g, hv, ov, from as int),
            message_views(messages@) == skipped_lines(ov, from as int, at as int),
        decreases operations.len() - at,
    {
        let operation = &operations[at];
        assert(ov[at as int] == operation@);
        let commits = commits_to_rebase(index, operation, &heads);
        let ghost before = message_views(messages@);
        let first = Message { kind: MessageKind::Status, text: announce_rebase(operation) };
        messages.push(first);
        let second = Message {
            kind: MessageKind::Status,
            text: announce_commits(operation, commits.len() as u64),
        };
        messages.push(second);
        assert(message_views(messages@) =~= before.push(first@).push(second@));
        if commits.len() > 0 {
            let onto = operation.new_head.clone();
            let planned: u64 = commits.len() as u64;
            return SyncStep {
                messages,
                action: SyncAction::Rebase { commits, onto },
                state: SyncState::Rebasing { remotes, heads, operations, next: at, planned, totals },
            };
        }
        at += 1;
    }
    let tx_description = describe_sync(&totals, &remotes);
    SyncStep {
        messages,
        action: SyncAction::Finish { tx_description },
        state: SyncState::Finishing { totals },
    }
}

/// The step that gives the sync up.
fn failed_step(error: CommandError, messages: Vec<Message>) -> (step: SyncStep)
    ensures
        step.messages == messages,
        step.action == SyncAction::Fail(error),
        step.state is Done,
{
    SyncStep { messages, action: SyncAction::Fail(error), state: SyncState::Done }
}

/// The lines for the warnings, in their order.
fn warnings_to_messages(warnings: Vec<String>) -> (messages: Vec<Message>)
    ensures
        message_views(messages@) == warning_lines(string_views(warnings@)),
{
    let ghost all = string_views(warnings@);
    let mut messages: Vec<Message> = Vec::new();
    let mut i: usize = 0;
    let n: usize = warnings.len();
    while i < n
        invariant
            n == warnings.len(),
            all == string_views(warnings@),
            i <= n,
            messages.len() == i,
            forall|j: int| 0 <= j < i ==> (#[trigger] messages@[j])@ == warning_lines(all)[j],
        decreases n - i,
    {
        let text = warnings[i].clone();
        assert(all[i as int] == warnings@[i as int]@);
        messages.push(Message { kind: MessageKind::Warning, text });
        i += 1;
    }
    assert(message_views(messages@) =~= warning_lines(all));
    messages
}

/// The commits to ask the store about: the targets of the candidates on
/// their remotes, in their order.
pub open spec fn lookup_ids(candidates: Seq<CandidateView>) -> Seq<Seq<u8>> {
    candidates.map_values(|c: CandidateView| c.remote_target)
}

/// Takes one step of a sync.
///
/// The sync lists the remotes to sync with, notes where their tracked
/// bookmarks stand, fetches, and then rebases, bookmark by bookmark, the
/// local commits that stood on an old head onto the new one. `view` and
/// `index` are the bookmarks and the index as they are when the step is
/// taken. An event that cannot follow the state ends the sync with an
/// error.
pub fn cmd_git_sync(
    args: &GitSyncArgs,
    state: SyncState,
    event: SyncEvent,
    view: &RepoView,
    index: &ReadonlyIndex,
) -> (step: SyncStep)
    requires
        index.wf(),
    ensures
        (state is Start && event is Begin) ==> {
            &&& step.messages.len() == 0
            &&& match select_remotes_of(*args) {
                RemoteSelection::Configured => step.action is ReadConfiguredRemotes
                    && step.state is AwaitingConfiguredRemotes,
                RemoteSelection::Everything => {
                    &&& step.action is ListRemotes
                    &&& step.state matches SyncState::AwaitingRemoteNames { patterns }
                    &&& patterns.len() == 1
                    &&& forall|text: Seq<char>| patterns[0].matches_text(text)
                },
                RemoteSelection::Given => {
                    &&& step.action is ListRemotes
                    &&& step.state matches SyncState::AwaitingRemoteNames { patterns }
                    &&& patterns@ == args.remotes@
                },
            }
        },
        (state is AwaitingConfiguredRemotes && event is ConfiguredRemotes) ==> {
            &&& step.messages.len() == 0
            &&& step.action is ListRemotes
            &&& step.state matches SyncState::AwaitingRemoteNames { patterns }
            &&& patterns == event->ConfiguredRemotes_0
        },
        (state is AwaitingRemoteNames && event is RemoteNames) ==> {
            let patterns = state->AwaitingRemoteNames_patterns;
            let names = event->RemoteNames_0;
            &&& message_views(step.messages@) == warning_lines(
                crate::commands::git::no_remote_warnings(patterns@, string_views(names@)),
            )
            &&& (exists|x: Seq<char>|
                crate::commands::git::is_named_remote(patterns@, string_views(names@), x)) ==> {
                &&& step.action matches SyncAction::LookUpCommits(ids)
                &&& step.state matches SyncState::AwaitingLookups { remotes, candidates }
                &&& crate::text::texts_strictly_sorted(string_views(remotes@))
                &&& forall|x: Seq<char>|
                    string_views(remotes@).contains(x) <==> crate::commands::git::is_named_remote(
                        patterns@,
                        string_views(names@),
                        x,
                    )
                &&& candidate_views(candidates@) == all_candidates(*view, string_views(remotes@))
                &&& id_views(ids@) == lookup_ids(candidate_views(candidates@))
            }
            &&& !(exists|x: Seq<char>|
                crate::commands::git::is_named_remote(patterns@, string_views(names@), x)) ==> {
                &&& step.action matches SyncAction::Fail(error)
                &&& error@ == crate::command_error::user_error_view("No git remotes to sync"@)
                &&& step.state is Done
            }
        },
        (state is AwaitingLookups && event is Lookups) ==> {
            let candidates = state->AwaitingLookups_candidates;
            let remotes = state->AwaitingLookups_remotes;
            &&& step.messages.len() == 0
            &&& match heads_from(candidate_views(candidates@), event->Lookups_0@) {
                Ok(heads) => {
                    &&& step.action matches SyncAction::Fetch { remotes: r, branches }
                    &&& r == remotes
                    &&& branches.len() == 1
                    &&& forall|text: Seq<char>| branches[0].matches_text(text)
                    &&& step.state matches SyncState::Fetching { remotes: r2, heads: h }
                    &&& r2@ == remotes@
                    &&& head_views(h@) == heads
                },
                Err(error) => {
                    &&& step.action matches SyncAction::Fail(e)
                    &&& e@ == error
                    &&& step.state is Done
                },
            }
        },
        (state is Fetching && event is Fetched) ==> {
            let heads = state->Fetching_heads;
            let remotes = state->Fetching_remotes;
            exists|operations: Seq<RebaseOperation>|
                {
                    &&& rebase_views(operations) == rebases_for(
                        head_views(heads@),
                        view.remote_bookmarks@,
                        args.bookmarks@,
                    )
                    &&& #[trigger] step_goes_on(
                        step,
                        index@,
                        head_views(heads@),
                        operations,
                        0,
                        SyncTotals {
                            num_rebased_stacks: 0,
                            total_rebased_commits: 0,
                            total_abandoned_commits: 0,
                        },
                        string_views(remotes@),
                    )
                }
        },
        (state is Rebasing && event is Rebased) ==> {
            let totals = state->Rebasing_totals;
            let planned = state->Rebasing_planned;
            let next = state->Rebasing_next;
            let operations = state->Rebasing_operations;
            let rebased = event->Rebased_0;
            if totals.can_record(planned, rebased) && next < operations.len() {
                step_goes_on(
                    step,
                    index@,
                    head_views(state->Rebasing_heads@),
                    operations@,
                    next + 1,
                    totals.after_rebase(planned, rebased),
                    string_views(state->Rebasing_remotes@),
                )
            } else {
                &&& step.messages.len() == 0
                &&& step.action matches SyncAction::Fail(error)
                &&& error@ == rebase_count_error()
                &&& step.state is Done
            }
        },
        (state is Finishing && event is Finished) ==> {
            &&& message_views(step.messages@) == seq![
                status_line(sync_summary(state->Finishing_totals)),
            ]
            &&& step.action is Stop
            &&& step.state is Done
        },
        !follows(state, event) ==> {
            &&& step.messages.len() == 0
            &&& step.action matches SyncAction::Fail(error)
            &&& error@ == unexpected_event_error()
            &&& step.state is Done
        },
{
    match (state, event) {
        (SyncState::Start, SyncEvent::Begin) => {
            match select_remotes(args) {
                RemoteSelection::Configured => SyncStep {
                    messages: Vec::new(),
                    action: SyncAction::ReadConfiguredRemotes,
                    state: SyncState::AwaitingConfiguredRemotes,
                },
                RemoteSelection::Everything => {
                    let mut patterns: Vec<StringPattern> = Vec::new();
                    patterns.push(StringPattern::everything());
                    SyncStep {
                        messages: Vec::new(),
                        action: SyncAction::ListRemotes,
                        state: SyncState::AwaitingRemoteNames { patterns },
                    }
                },
                RemoteSelection::Given => {
                    let patterns = clone_patterns(&args.remotes);
                    SyncStep {
                        messages: Vec::new(),
                        action: SyncAction::ListRemotes,
                        state: SyncState::AwaitingRemoteNames { patterns },
                    }
                },
            }
        },
        (SyncState::AwaitingConfiguredRemotes, SyncEvent::ConfiguredRemotes(patterns)) => SyncStep {
            messages: Vec::new(),
            action: SyncAction::ListRemotes,
            state: SyncState::AwaitingRemoteNames { patterns },
        },
        (SyncState::AwaitingRemoteNames { patterns }, SyncEvent::RemoteNames(names)) => {
            let resolved = resolve_remote_patterns(&names, &patterns);
            let messages = warnings_to_messages(resolved.warnings);
            match resolved.remotes {
                Err(error) => failed_step(error, messages),
                Ok(remotes) => {
                    let candidates = pre_fetch_candidates(view, &remotes);
                    let mut ids: Vec<CommitId> = Vec::new();
                    let mut i: usize = 0;
                    while i < candidates.len()
                        invariant
                            i <= candidates.len(),
                            ids.len() == i,
                            forall|j: int|
                                0 <= j < i ==> (#[trigger] ids@[j])@ == candidates@[j].remote_target@,
                        decreases candidates.len() - i,
                    {
                        ids.push(candidates[i].remote_target.clone());
                        i += 1;
                    }
                    assert(id_views(ids@) =~= lookup_ids(candidate_views(candidates@)));
                    SyncStep {
                        messages,
                        action: SyncAction::LookUpCommits(ids),
                        state: SyncState::AwaitingLookups { remotes, candidates },
                    }
                },
            }
        },
        (SyncState::AwaitingLookups { remotes, candidates }, SyncEvent::Lookups(lookups)) => {
            match pre_fetch_heads(&candidates, &lookups) {
                Err(error) => failed_step(error, Vec::new()),
                Ok(heads) => {
                    let mut branches: Vec<StringPattern> = Vec::new();
                    branches.push(StringPattern::everything());
                    let to_fetch = clone_strings(&remotes);
                    SyncStep {
                        messages: Vec::new(),
                        action: SyncAction::Fetch { remotes, branches },
                        state: SyncState::Fetching { remotes: to_fetch, heads },
                    }
                },
            }
        },
        (SyncState::Fetching { remotes, heads }, SyncEvent::Fetched) => {
            let operations = plan_rebases(&heads, view, &args.bookmarks);
            let ghost planned = operations@;
            let step = next_rebase(index, remotes, heads, operations, 0, SyncTotals::new());
            assert(step_goes_on(
                step,
                index@,
                head_views(heads@),
                planned,
                0,
                SyncTotals {
                    num_rebased_stacks: 0,
                    total_rebased_commits: 0,
                    total_abandoned_commits: 0,
                },
                string_views(remotes@),
            ));
            step
        },
        (
            SyncState::Rebasing { remotes, heads, operations, next, planned, totals },
            SyncEvent::Rebased(rebased),
        ) => {
            match totals.record_rebase(planned, rebased) {
                Some(after) => {
                    if next < operations.len() {
                        next_rebase(index, remotes, heads, operations, next + 1, after)
                    } else {
                        failed_step(
                            internal_error(
                                String::from_str(
                                    "The rebase reported more commits than can be accounted for",
                                ),
                            ),
                            Vec::new(),
                        )
                    }
                },
                None => failed_step(
                    internal_error(
                        String::from_str(
                            "The rebase reported more commits than can be accounted for",
                        ),
                    ),
                    Vec::new(),
                ),
            }
        },
        (SyncState::Finishing { totals }, SyncEvent::Finished) => {
            let mut messages: Vec<Message> = Vec::new();
            let line = Message { kind: MessageKind::Status, text: summarize_sync(&totals) };
            messages.push(line);
            assert(message_views(messages@) =~= seq![status_line(sync_summary(totals))]);
            SyncStep { messages, action: SyncAction::Stop, state: SyncState::Done }
        },
        _ => failed_step(
            internal_error(String::from_str("Unexpected event during sync")),
            Vec::new(),
        ),
    }
}

/// Where the patterns over remotes come from.
pub open spec fn select_remotes_of(args: GitSyncArgs) -> RemoteSelection {
    if args.all_remotes {
        RemoteSelection::Everything
    } else if args.remotes.len() == 0 {
        RemoteSelection::Configured
    } else {
        RemoteSelection::Given
    }
}

/// Whether the event can follow the state.
pub open spec fn follows(state: SyncState, event: SyncEvent) -> bool {
    ||| state is Start && event is Begin
    ||| state is AwaitingConfiguredRemotes && event is ConfiguredRemotes
    ||| state is AwaitingRemoteNames && event is RemoteNames
    ||| state is AwaitingLookups && event is Lookups
    ||| state is Fetching && event is Fetched
    ||| state is Rebasing && event is Rebased
    ||| state is Finishing && event is Finished
}

/// The step goes on to the next rebase that finds commits, from the rebase
/// numbered `from`, or finishes the transaction where none is left.
pub open spec fn step_goes_on(
    step: SyncStep,
    g: Seq<EntryView>,
    heads: Seq<HeadView>,
    operations: Seq<RebaseOperation>,
    from: int,
    totals: SyncTotals,
    remotes: Seq<Seq<char>>,
) -> bool {
    let views = rebase_views(operations);
    let stop = next_with_commits(g, heads, views, from);
    &&& message_views(step.messages@) == lines_to_next(g, heads, views, from)
    &&& if stop < operations.len() {
        &&& step.action matches SyncAction::Rebase { commits, onto }
        &&& id_views(commits@) == commits_of(g, heads, views[stop])
        &&& onto@ == views[stop].new_head
        &&& step.state matches SyncState::Rebasing {
            remotes: r,
            heads: h,
            operations: o,
            next,
            planned,
            totals: t,
        }
        &&& string_views(r@) == remotes
        &&& head_views(h@) == heads
        &&& o@ == operations
        &&& next == stop
        &&& planned == commits.len()
        &&& t == totals
    } else {
        &&& step.action matches SyncAction::Finish { tx_description }
        &&& tx_description@ == sync_description(totals, remotes)
        &&& step.state matches SyncState::Finishing { totals: t }
        &&& t == totals
    }
}

/// A copy of a list of patterns.
pub fn clone_patterns(patterns: &Vec<StringPattern>) -> (copy: Vec<StringPattern>)
    ensures
        copy@ == patterns@,
{
    let mut copy: Vec<StringPattern> = Vec::new();
    let mut i: usize = 0;
    while i < patterns.len()
        invariant
            i <= patterns.len(),
            copy@ == patterns@.subrange(0, i as int),
        decreases patterns.len() - i,
    {
        copy.push(patterns[i].clone());
        assert(patterns@.subrange(0, i + 1) == patterns@.subrange(0, i as int).push(
            patterns@[i as int],
        ));
        i += 1;
    }
    assert(patterns@.subrange(0, patterns.len() as int) == patterns@);
    copy
}

/// A copy of a list of strings.
pub fn clone_strings(items: &Vec<String>) -> (copy: Vec<String>)
    ensures
        copy@ == items@,
{
    let mut copy: Vec<String> = Vec::new();
    let mut i: usize = 0;
    while i < items.len()
        invariant
            i <= items.len(),
            copy@ == items@.subrange(0, i as int),
        decreases items.len() - i,
    {
        copy.push(items[i].clone());
        assert(items@.subrange(0, i + 1) == items@.subrange(0, i as int).push(items@[i as int]));
        i += 1;
    }
    assert(items@.subrange(0, items.len() as int) == items@);
    copy
}

} // verus!
