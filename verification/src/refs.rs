//! Bookmarks and what they point to.

use vstd::prelude::*;
use crate::ids::CommitId;
use crate::text::{
    lemma_text_le_antisymmetric, lemma_text_le_total, lemma_text_lt_transitive, text_lt, text_order,
    TextOrder,
};

verus! {

/// What a bookmark points to: nothing, one commit, or, after diverging
/// updates, a conflict between commits added and commits removed.
#[derive(Debug)]
pub struct RefTarget {
    pub removes: Vec<CommitId>,
    pub adds: Vec<CommitId>,
}

/// A target as plain values.
pub struct RefTargetView {
    pub removes: Seq<Seq<u8>>,
    pub adds: Seq<Seq<u8>>,
}

impl View for RefTarget {
    type V = RefTargetView;

    open spec fn view(&self) -> RefTargetView {
        RefTargetView {
            removes: self.removes@.map_values(|id: CommitId| id@),
            adds: self.adds@.map_values(|id: CommitId| id@),
        }
    }
}

impl RefTargetView {
    /// The target points to something.
    pub open spec fn is_present(&self) -> bool {
        self.adds.len() > 0
    }

    /// The target points to exactly one commit.
    pub open spec fn is_normal(&self) -> bool {
        self.adds.len() == 1 && self.removes.len() == 0
    }

    /// The target is a conflict.
    pub open spec fn has_conflict(&self) -> bool {
        self.is_present() && !self.is_normal()
    }
}

impl RefTarget {
    /// The target that points to nothing.
    pub fn absent() -> (target: RefTarget)
        ensures
            !target@.is_present(),
            target@.removes.len() == 0,
    {
        RefTarget { removes: Vec::new(), adds: Vec::new() }
    }

    /// The target that points to one commit.
    pub fn normal(id: CommitId) -> (target: RefTarget)
        ensures
            target@.is_normal(),
            target@.adds[0] == id@,
    {
        let mut adds: Vec<CommitId> = Vec::new();
        adds.push(id);
        RefTarget { removes: Vec::new(), adds }
    }

    /// The conflicted target with the given sides.
    pub fn from_legacy_form(removes: Vec<CommitId>, adds: Vec<CommitId>) -> (target: RefTarget)
        ensures
            target.removes == removes,
            target.adds == adds,
    {
        RefTarget { removes, adds }
    }

    /// Whether the target points to something.
    pub fn is_present(&self) -> (present: bool)
        ensures
            present == self@.is_present(),
    {
        self.adds.len() > 0
    }

    /// Whether the target is a conflict.
    pub fn has_conflict(&self) -> (conflict: bool)
        ensures
            conflict == self@.has_conflict(),
    {
        self.adds.len() > 0 && !(self.adds.len() == 1 && self.removes.len() == 0)
    }

    /// The commit the target points to, where it points to exactly one.
    pub fn as_normal(&self) -> (id: Option<&CommitId>)
        ensures
            id is Some <==> self@.is_normal(),
            id is Some ==> *id->0 == self.adds[0],
    {
        if self.adds.len() == 1 && self.removes.len() == 0 {
            Some(&self.adds[0])
        } else {
            None
        }
    }
}

impl Clone for RefTarget {
    fn clone(&self) -> (copy: Self)
        ensures
            copy@ == self@,
    {
        let copy = RefTarget { removes: clone_ids(&self.removes), adds: clone_ids(&self.adds) };
        assert(copy@.removes =~= self@.removes);
        assert(copy@.adds =~= self@.adds);
        copy
    }
}

/// A copy of a list of commit ids.
pub fn clone_ids(ids: &Vec<CommitId>) -> (copy: Vec<CommitId>)
    ensures
        copy.len() == ids.len(),
        forall|i: int| 0 <= i < ids.len() ==> (#[trigger] copy[i])@ == ids[i]@,
{
    let mut copy: Vec<CommitId> = Vec::new();
    let mut i: usize = 0;
    while i < ids.len()
        invariant
            i <= ids.len(),
            copy.len() == i,
            forall|j: int| 0 <= j < i ==> (#[trigger] copy[j])@ == ids[j]@,
        decreases ids.len() - i,
    {
        copy.push(ids[i].clone());
        i += 1;
    }
    copy
}

/// What is known of a bookmark on a remote.
#[derive(Debug)]
pub struct RemoteRef {
    pub target: RefTarget,
    pub tracking: bool,
}

impl RemoteRef {
    /// Whether the remote bookmark is merged into the local one of its name.
    pub fn is_tracked(&self) -> (tracking: bool)
        ensures
            tracking == self.tracking,
    {
        self.tracking
    }
}

/// A local bookmark.
#[derive(Debug)]
pub struct LocalBookmark {
    pub name: String,
    pub target: RefTarget,
}

/// A bookmark on a remote.
#[derive(Debug)]
pub struct RemoteBookmark {
    pub name: String,
    pub remote: String,
    pub remote_ref: RemoteRef,
}

/// The name of a bookmark on a remote.
#[derive(Debug)]
pub struct RemoteRefSymbol {
    pub name: String,
    pub remote: String,
}

/// A symbol as plain values.
pub struct SymbolView {
    pub name: Seq<char>,
    pub remote: Seq<char>,
}

impl View for RemoteRefSymbol {
    type V = SymbolView;

    open spec fn view(&self) -> SymbolView {
        SymbolView { name: self.name@, remote: self.remote@ }
    }
}

impl Clone for RemoteRefSymbol {
    fn clone(&self) -> (copy: Self)
        ensures
            copy == *self,
    {
        RemoteRefSymbol { name: self.name.clone(), remote: self.remote.clone() }
    }
}

/// The order of symbols: by name, and by remote where the names are equal.
pub open spec fn symbol_lt(a: SymbolView, b: SymbolView) -> bool {
    text_lt(a.name, b.name) || (a.name == b.name && text_lt(a.remote, b.remote))
}

/// The text of a symbol: the name, `@`, the remote.
pub open spec fn symbol_text(symbol: SymbolView) -> Seq<char> {
    symbol.name + "@"@ + symbol.remote
}

/// The names of the local bookmarks, in order.
pub open spec fn local_names(bookmarks: Seq<LocalBookmark>) -> Seq<Seq<char>> {
    bookmarks.map_values(|b: LocalBookmark| b.name@)
}

/// The symbols of the remote bookmarks, in order.
pub open spec fn remote_symbols(bookmarks: Seq<RemoteBookmark>) -> Seq<SymbolView> {
    bookmarks.map_values(|b: RemoteBookmark| SymbolView { name: b.name@, remote: b.remote@ })
}

/// The bookmarks of a repository as one operation sees them.
#[derive(Debug)]
pub struct RepoView {
    pub local_bookmarks: Vec<LocalBookmark>,
    pub remote_bookmarks: Vec<RemoteBookmark>,
}

impl RepoView {
    /// Local bookmarks stand in the order of their names and remote ones in
    /// the order of their symbols, each name or symbol once.
    pub open spec fn wf(&self) -> bool {
        &&& forall|i: int, j: int|
            0 <= i < j < self.local_bookmarks.len() ==> text_lt(
                self.local_bookmarks[i].name@,
                self.local_bookmarks[j].name@,
            )
        &&& symbols_strictly_sorted(remote_symbols(self.remote_bookmarks@))
    }
}

/// The strict order of symbols is transitive.
pub proof fn lemma_symbol_lt_transitive(a: SymbolView, b: SymbolView, c: SymbolView)
    requires
        symbol_lt(a, b),
        symbol_lt(b, c),
    ensures
        symbol_lt(a, c),
{
    if text_lt(a.name, b.name) && text_lt(b.name, c.name) {
        lemma_text_lt_transitive(a.name, b.name, c.name);
    } else if a.name == b.name && b.name == c.name {
        lemma_text_lt_transitive(a.remote, b.remote, c.remote);
    }
}

/// No symbol stands before itself, and of two symbols that stand before
/// each other there is none.
pub proof fn lemma_symbol_lt_asymmetric(a: SymbolView, b: SymbolView)
    requires
        symbol_lt(a, b),
    ensures
        !symbol_lt(b, a),
        a != b,
{
    if text_lt(a.name, b.name) && text_lt(b.name, a.name) {
        lemma_text_le_antisymmetric(a.name, b.name);
    }
    if a.name == b.name && text_lt(a.remote, b.remote) && text_lt(b.remote, a.remote) {
        lemma_text_le_antisymmetric(a.remote, b.remote);
    }
}

/// How the first symbol stands to the second in the order of symbols.
pub fn symbol_order(a: &RemoteRefSymbol, b: &RemoteRefSymbol) -> (order: TextOrder)
    ensures
        order == TextOrder::Before <==> symbol_lt(a@, b@),
        order == TextOrder::Same <==> a@ == b@,
        order == TextOrder::After <==> symbol_lt(b@, a@),
{
    proof {
        if symbol_lt(a@, b@) {
            lemma_symbol_lt_asymmetric(a@, b@);
        }
        if symbol_lt(b@, a@) {
            lemma_symbol_lt_asymmetric(b@, a@);
        }
        lemma_text_le_total(a.name@, b.name@);
        lemma_text_le_total(a.remote@, b.remote@);
    }
    match text_order(a.name.as_str(), b.name.as_str()) {
        TextOrder::Before => TextOrder::Before,
        TextOrder::After => TextOrder::After,
        TextOrder::Same => text_order(a.remote.as_str(), b.remote.as_str()),
    }
}

/// Each symbol stands strictly before the one after it.
pub open spec fn symbols_strictly_sorted(symbols: Seq<SymbolView>) -> bool {
    forall|i: int, j: int| 0 <= i < j < symbols.len() ==> symbol_lt(symbols[i], symbols[j])
}

/// Whether the local bookmarks stand in the order of their names, each
/// name once.
fn check_local_bookmarks(bookmarks: &Vec<LocalBookmark>) -> (ok: bool)
    ensures
        ok == forall|i: int, j: int|
            0 <= i < j < bookmarks.len() ==> text_lt(bookmarks[i].name@, bookmarks[j].name@),
{
    if bookmarks.len() == 0 {
        return true;
    }
    let mut k: usize = 0;
    while k < bookmarks.len() - 1
        invariant
            k < bookmarks.len(),
            forall|i: int, j: int|
                0 <= i < j <= k && j < bookmarks.len() ==> text_lt(
                    bookmarks[i].name@,
                    bookmarks[j].name@,
                ),
        decreases bookmarks.len() - k,
    {
        match text_order(bookmarks[k].name.as_str(), bookmarks[k + 1].name.as_str()) {
            TextOrder::Before => {},
            _ => {
                return false;
            },
        }
        proof {
            assert forall|i: int, j: int| 0 <= i < j <= k + 1 && j < bookmarks.len() implies text_lt(
                bookmarks[i].name@,
                bookmarks[j].name@,
            ) by {
                if j == k + 1 && i < k {
                    crate::text::lemma_text_lt_transitive(
                        bookmarks[i].name@,
                        bookmarks[k as int].name@,
                        bookmarks[j].name@,
                    );
                }
            }
        }
        k += 1;
    }
    true
}

/// Whether the remote bookmarks stand in the order of their symbols, each
/// symbol once.
fn check_remote_bookmarks(bookmarks: &Vec<RemoteBookmark>) -> (ok: bool)
    ensures
        ok == symbols_strictly_sorted(remote_symbols(bookmarks@)),
{
    let ghost symbols = remote_symbols(bookmarks@);
    if bookmarks.len() == 0 {
        return true;
    }
    let mut k: usize = 0;
    while k < bookmarks.len() - 1
        invariant
            symbols == remote_symbols(bookmarks@),
            k < bookmarks.len(),
            forall|i: int, j: int|
                0 <= i < j <= k && j < symbols.len() ==> symbol_lt(symbols[i], symbols[j]),
        decreases bookmarks.len() - k,
    {
        let first = &bookmarks[k];
        let second = &bookmarks[k + 1];
        assert(symbols[k as int] == (SymbolView { name: first.name@, remote: first.remote@ }));
        assert(symbols[k + 1] == (SymbolView { name: second.name@, remote: second.remote@ }));
        let in_order = match text_order(first.name.as_str(), second.name.as_str()) {
            TextOrder::Before => true,
            TextOrder::Same => match text_order(first.remote.as_str(), second.remote.as_str()) {
                TextOrder::Before => true,
                _ => false,
            },
            TextOrder::After => false,
        };
        if !in_order {
            assert(!symbol_lt(symbols[k as int], symbols[k + 1]));
            return false;
        }
        proof {
            assert(symbol_lt(symbols[k as int], symbols[k + 1]));
            assert forall|i: int, j: int| 0 <= i < j <= k + 1 && j < symbols.len() implies symbol_lt(
                symbols[i],
                symbols[j],
            ) by {
                if j == k + 1 && i < k {
                    lemma_symbol_lt_transitive(symbols[i], symbols[k as int], symbols[j]);
                }
            }
        }
        k += 1;
    }
    true
}

impl RepoView {
    /// Whether the view is well formed. A view that was put together from
    /// lists of bookmarks is tested with this before it is handed to the
    /// commands.
    pub fn check(&self) -> (ok: bool)
        ensures
            ok == self.wf(),
    {
        check_local_bookmarks(&self.local_bookmarks) && check_remote_bookmarks(
            &self.remote_bookmarks,
        )
    }
}

} // verus!
