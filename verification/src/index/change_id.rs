//! Resolution of change ids by prefix.
//!
//! The index is built for a set of heads and holds the commits that can be
//! reached from them, and no others: a prefix never resolves to a commit
//! outside the history of the heads. Commits that share a change id are
//! found together.

use vstd::prelude::*;
use crate::ids::{nibble_at, ChangeId, CommitId};
use crate::index::chain::SegmentChain;
use crate::index::graph::{has_commit, is_ancestor_at, position_of, EntryView};
use crate::index::mutable::{id_views, MutableIndex, ReadonlyIndex};
use crate::index::reach::{is_ancestor_of_some, is_listed};

verus! {

/// A prefix of an id in hexadecimal, digit by digit.
#[derive(Debug)]
pub struct HexPrefix {
    /// The digits, each below sixteen.
    pub nibbles: Vec<u8>,
}

impl View for HexPrefix {
    type V = Seq<u8>;

    open spec fn view(&self) -> Seq<u8> {
        self.nibbles@
    }
}

/// The value of a hexadecimal digit, in either case, if the character is
/// one.
pub open spec fn hex_value(c: char) -> Option<u8> {
    if '0' <= c <= '9' {
        Some((c as u8 - '0' as u8) as u8)
    } else if 'a' <= c <= 'f' {
        Some((c as u8 - 'a' as u8 + 10) as u8)
    } else if 'A' <= c <= 'F' {
        Some((c as u8 - 'A' as u8 + 10) as u8)
    } else {
        None
    }
}

/// Whether every character of the text is a hexadecimal digit.
pub open spec fn is_hex_text(text: Seq<char>) -> bool {
    forall|i: int| 0 <= i < text.len() ==> hex_value(#[trigger] text[i]) is Some
}

/// The values of the digits of a hexadecimal text.
pub open spec fn hex_values(text: Seq<char>) -> Seq<u8> {
    Seq::new(text.len(), |i: int| hex_value(text[i])->0)
}

/// Whether the digits are the first digits of the id in hexadecimal.
pub open spec fn is_prefix_of(prefix: Seq<u8>, id: Seq<u8>) -> bool {
    &&& prefix.len() <= 2 * id.len()
    &&& forall|i: int| 0 <= i < prefix.len() ==> #[trigger] prefix[i] as int == nibble_at(id, i)
}

/// The value of a hexadecimal digit.
fn digit_value(c: char) -> (value: Option<u8>)
    ensures
        value == hex_value(c),
        value is Some ==> value->0 < 16,
{
    if '0' <= c && c <= '9' {
        Some(c as u8 - '0' as u8)
    } else if 'a' <= c && c <= 'f' {
        Some(c as u8 - 'a' as u8 + 10)
    } else if 'A' <= c && c <= 'F' {
        Some(c as u8 - 'A' as u8 + 10)
    } else {
        None
    }
}

impl HexPrefix {
    /// Reads a prefix from hexadecimal digits. A text with another
    /// character is no prefix.
    pub fn try_from_hex(text: &str) -> (prefix: Option<HexPrefix>)
        ensures
            prefix is Some <==> is_hex_text(text@),
            prefix is Some ==> prefix->0@ == hex_values(text@),
    {
        let chars = crate::text::chars_of(text);
        let mut nibbles: Vec<u8> = Vec::new();
        let mut i: usize = 0;
        while i < chars.len()
            invariant
                chars@ == text@,
                i <= chars.len(),
                nibbles.len() == i,
                forall|j: int| 0 <= j < i ==> hex_value(#[trigger] text@[j]) == Some(nibbles@[j]),
            decreases chars.len() - i,
        {
            match digit_value(chars[i]) {
                Some(value) => nibbles.push(value),
                None => {
                    assert(hex_value(text@[i as int]) is None);
                    return None;
                },
            }
            i += 1;
        }
        assert(nibbles@ =~= hex_values(text@));
        Some(HexPrefix { nibbles })
    }

    /// Whether the prefix is a prefix of the id.
    pub fn matches(&self, id: &Vec<u8>) -> (matched: bool)
        ensures
            matched == is_prefix_of(self@, id@),
    {
        if self.nibbles.len() / 2 > id.len() || (self.nibbles.len() / 2 == id.len()
            && self.nibbles.len() % 2 == 1) {
            return false;
        }
        let mut i: usize = 0;
        while i < self.nibbles.len()
            invariant
                self.nibbles.len() <= 2 * id.len(),
                i <= self.nibbles.len(),
                forall|j: int| 0 <= j < i ==> #[trigger] self@[j] as int == nibble_at(id@, j),
            decreases self.nibbles.len() - i,
        {
            let byte: u8 = id[i / 2];
            let nibble: u8 = if i % 2 == 0 {
                byte / 16
            } else {
                byte % 16
            };
            if self.nibbles[i] != nibble {
                return false;
            }
            i += 1;
        }
        true
    }
}

/// The number of leading hexadecimal digits that two ids share, from the
/// digit `from` on.
pub open spec fn common_digits_from(a: Seq<u8>, b: Seq<u8>, from: int) -> int
    decreases 2 * a.len() - from,
{
    if 0 <= from < 2 * a.len() && from < 2 * b.len() && nibble_at(a, from) == nibble_at(b, from) {
        1 + common_digits_from(a, b, from + 1)
    } else {
        0
    }
}

/// The number of leading hexadecimal digits that two ids share.
pub open spec fn common_digits(a: Seq<u8>, b: Seq<u8>) -> int {
    common_digits_from(a, b, 0)
}

/// The number of leading hexadecimal digits that two ids share.
pub fn count_common_digits(a: &Vec<u8>, b: &Vec<u8>) -> (count: usize)
    requires
        a.len() <= usize::MAX / 2,
    ensures
        count == common_digits(a@, b@),
{
    let limit: usize = if a.len() < b.len() {
        2 * a.len()
    } else {
        2 * b.len()
    };
    let mut i: usize = 0;
    while i < limit
        invariant
            a.len() <= usize::MAX / 2,
            limit <= 2 * a.len(),
            limit <= 2 * b.len(),
            limit == 2 * a.len() || limit == 2 * b.len(),
            i <= limit,
            common_digits(a@, b@) == i + common_digits_from(a@, b@, i as int),
        decreases limit - i,
    {
        let x: u8 = a[i / 2];
        let y: u8 = b[i / 2];
        let same: bool = if i % 2 == 0 {
            x / 16 == y / 16
        } else {
            x % 16 == y % 16
        };
        if !same {
            return i;
        }
        i += 1;
    }
    i
}

/// A commit and its change, as the change-id index holds them.
#[derive(Debug)]
pub struct IdPair {
    pub change_id: ChangeId,
    pub commit_id: CommitId,
}

/// A pair as plain values.
pub struct IdPairView {
    pub change_id: Seq<u8>,
    pub commit_id: Seq<u8>,
}

impl View for IdPair {
    type V = IdPairView;

    open spec fn view(&self) -> IdPairView {
        IdPairView { change_id: self.change_id@, commit_id: self.commit_id@ }
    }
}

/// The views of the pairs, in their order.
pub open spec fn pair_views(pairs: Seq<IdPair>) -> Seq<IdPairView> {
    pairs.map_values(|p: IdPair| p@)
}

/// Whether the entry at `p` is one of the heads or an ancestor of one. A
/// head that is not indexed has no history.
pub open spec fn is_reachable(g: Seq<EntryView>, heads: Seq<Seq<u8>>, p: int) -> bool {
    exists|i: int|
        0 <= i < heads.len() && has_commit(g, #[trigger] heads[i]) && is_ancestor_at(
            g,
            p,
            position_of(g, heads[i]),
        )
}

/// The pairs of the reachable entries among the first `upto`, in the order
/// of their positions.
pub open spec fn reachable_pairs_upto(g: Seq<EntryView>, heads: Seq<Seq<u8>>, upto: int) -> Seq<
    IdPairView,
>
    decreases upto,
{
    if upto <= 0 {
        Seq::empty()
    } else {
        let before = reachable_pairs_upto(g, heads, upto - 1);
        if is_reachable(g, heads, upto - 1) {
            before.push(
                IdPairView { change_id: g[upto - 1].change_id, commit_id: g[upto - 1].commit_id },
            )
        } else {
            before
        }
    }
}

/// The pairs of the entries that can be reached from the heads, in the
/// order of their positions.
pub open spec fn reachable_pairs(g: Seq<EntryView>, heads: Seq<Seq<u8>>) -> Seq<IdPairView> {
    reachable_pairs_upto(g, heads, g.len() as int)
}

/// What a prefix resolves to.
#[derive(Debug)]
pub enum PrefixResolution {
    /// No change id starts with the prefix.
    NoMatch,
    /// One change id starts with the prefix; these are its commits.
    SingleMatch(Vec<CommitId>),
    /// Several change ids start with the prefix.
    AmbiguousMatch,
}

/// A resolution as plain values.
pub enum ResolutionView {
    NoMatch,
    SingleMatch(Seq<Seq<u8>>),
    AmbiguousMatch,
}

impl View for PrefixResolution {
    type V = ResolutionView;

    open spec fn view(&self) -> ResolutionView {
        match self {
            PrefixResolution::NoMatch => ResolutionView::NoMatch,
            PrefixResolution::SingleMatch(ids) => ResolutionView::SingleMatch(id_views(ids@)),
            PrefixResolution::AmbiguousMatch => ResolutionView::AmbiguousMatch,
        }
    }
}

/// Whether the pair at `i` carries a change id that the prefix matches.
pub open spec fn matches_at(pairs: Seq<IdPairView>, prefix: Seq<u8>, i: int) -> bool {
    0 <= i < pairs.len() && is_prefix_of(prefix, pairs[i].change_id)
}

/// Whether some change id among the pairs starts with the prefix.
pub open spec fn some_change_matches(pairs: Seq<IdPairView>, prefix: Seq<u8>) -> bool {
    exists|i: int| matches_at(pairs, prefix, i)
}

/// Whether two distinct change ids among the pairs start with the prefix.
pub open spec fn two_changes_match(pairs: Seq<IdPairView>, prefix: Seq<u8>) -> bool {
    exists|i: int, j: int|
        matches_at(pairs, prefix, i) && matches_at(pairs, prefix, j) && pairs[i].change_id
            != pairs[j].change_id
}

/// The commit ids of the first `upto` pairs that carry the change id, in
/// their order.
pub open spec fn commits_of_change(pairs: Seq<IdPairView>, change_id: Seq<u8>, upto: int) -> Seq<
    Seq<u8>,
>
    decreases upto,
{
    if upto <= 0 {
        Seq::empty()
    } else {
        let before = commits_of_change(pairs, change_id, upto - 1);
        if pairs[upto - 1].change_id == change_id {
            before.push(pairs[upto - 1].commit_id)
        } else {
            before
        }
    }
}

/// The first pair whose change id the prefix matches.
pub open spec fn first_match(pairs: Seq<IdPairView>, prefix: Seq<u8>) -> int {
    choose|i: int|
        matches_at(pairs, prefix, i) && forall|j: int| 0 <= j < i ==> !matches_at(pairs, prefix, j)
}

/// What the prefix resolves to among the pairs: nothing where no change id
/// starts with it, an ambiguity where two distinct ones do, and else the
/// commits of the one change id that does.
pub open spec fn resolution_of(pairs: Seq<IdPairView>, prefix: Seq<u8>) -> ResolutionView {
    if !some_change_matches(pairs, prefix) {
        ResolutionView::NoMatch
    } else if two_changes_match(pairs, prefix) {
        ResolutionView::AmbiguousMatch
    } else {
        ResolutionView::SingleMatch(
            commits_of_change(
                pairs,
                pairs[first_match(pairs, prefix)].change_id,
                pairs.len() as int,
            ),
        )
    }
}

/// The largest number of leading digits that the change id shares with
/// another change id among the first `upto` pairs, and zero where there is
/// no other.
pub open spec fn longest_shared(pairs: Seq<IdPairView>, change_id: Seq<u8>, upto: int) -> int
    decreases upto,
{
    if upto <= 0 {
        0
    } else {
        let before = longest_shared(pairs, change_id, upto - 1);
        let other = pairs[upto - 1].change_id;
        if other != change_id && common_digits(change_id, other) > before {
            common_digits(change_id, other)
        } else {
            before
        }
    }
}

/// The least number of leading digits of the change id that no other
/// change id among the pairs shares: one more than the most it shares with
/// any.
pub open spec fn shortest_unique_len(pairs: Seq<IdPairView>, change_id: Seq<u8>) -> int {
    1 + longest_shared(pairs, change_id, pairs.len() as int)
}

/// The change ids of the history of a set of heads, with their commits.
#[derive(Debug)]
pub struct ChangeIdIndex {
    pub pairs: Vec<IdPair>,
}

impl View for ChangeIdIndex {
    type V = Seq<IdPairView>;

    open spec fn view(&self) -> Seq<IdPairView> {
        pair_views(self.pairs@)
    }
}

impl ChangeIdIndex {
    /// Resolves a prefix of a change id.
    pub fn resolve_prefix(&self, prefix: &HexPrefix) -> (resolution: PrefixResolution)
        ensures
            resolution@ == resolution_of(self@, prefix@),
    {
        let ghost pairs = self@;
        let mut first: Option<usize> = None;
        let mut i: usize = 0;
        while i < self.pairs.len() && first.is_none()
            invariant
                pairs == self@,
                i <= self.pairs.len(),
                first is None ==> forall|j: int| 0 <= j < i ==> !matches_at(pairs, prefix@, j),
                first is Some ==> {
                    &&& matches_at(pairs, prefix@, first->0 as int)
                    &&& forall|j: int| 0 <= j < first->0 ==> !matches_at(pairs, prefix@, j)
                },
            decreases
                    self.pairs.len() - i,
                    if first is None {
                        1int
                    } else {
                        0int
                    },
        {
            assert(pairs[i as int] == self.pairs[i as int]@);
            if prefix.matches(&self.pairs[i].change_id.bytes) {
                first = Some(i);
            } else {
                i += 1;
            }
        }
        let f: usize = match first {
            None => {
                assert(!some_change_matches(pairs, prefix@));
                return PrefixResolution::NoMatch;
            },
            Some(f) => f,
        };
        proof {
            assert(some_change_matches(pairs, prefix@));
            let chosen = first_match(pairs, prefix@);
            assert(chosen == f) by {
                if chosen < f {
                    assert(!matches_at(pairs, prefix@, chosen));
                } else if f < chosen {
                    assert(!matches_at(pairs, prefix@, f as int));
                }
            }
        }
        let wanted = &self.pairs[f].change_id;
        assert(pairs[f as int] == self.pairs[f as int]@);
        let mut commits: Vec<CommitId> = Vec::new();
        let mut k: usize = 0;
        while k < self.pairs.len()
            invariant
                pairs == self@,
                f < self.pairs.len(),
                wanted@ == pairs[f as int].change_id,
                matches_at(pairs, prefix@, f as int),
                k <= self.pairs.len(),
                id_views(commits@) == commits_of_change(pairs, wanted@, k as int),
                forall|j: int|
                    0 <= j < k && matches_at(pairs, prefix@, j) ==> pairs[j].change_id == wanted@,
            decreases self.pairs.len() - k,
        {
            let pair = &self.pairs[k];
            assert(pairs[k as int] == pair@);
            let ghost before = id_views(commits@);
            if pair.change_id.same_as(wanted) {
                commits.push(pair.commit_id.clone());
                assert(id_views(commits@) =~= before.push(pair.commit_id@));
            } else if prefix.matches(&pair.change_id.bytes) {
                assert(two_changes_match(pairs, prefix@)) by {
                    assert(matches_at(pairs, prefix@, k as int));
                    assert(matches_at(pairs, prefix@, f as int));
                }
                return PrefixResolution::AmbiguousMatch;
            }
            k += 1;
        }
        proof {
            if two_changes_match(pairs, prefix@) {
                let (a, b) = choose|a: int, b: int|
                    matches_at(pairs, prefix@, a) && matches_at(pairs, prefix@, b)
                        && pairs[a].change_id != pairs[b].change_id;
                assert(pairs[a].change_id == wanted@);
                assert(pairs[b].change_id == wanted@);
            }
        }
        PrefixResolution::SingleMatch(commits)
    }

    /// The least number of leading hexadecimal digits of the change id that
    /// no other change id of the index shares. It is at least one.
    pub fn shortest_unique_prefix_len(&self, change_id: &ChangeId) -> (len: usize)
        requires
            change_id.bytes.len() < usize::MAX / 2,
        ensures
            len == shortest_unique_len(self@, change_id@),
            len >= 1,
    {
        let ghost pairs = self@;
        let mut longest: usize = 0;
        let mut i: usize = 0;
        while i < self.pairs.len()
            invariant
                pairs == self@,
                change_id.bytes.len() < usize::MAX / 2,
                i <= self.pairs.len(),
                longest == longest_shared(pairs, change_id@, i as int),
                longest <= 2 * change_id.bytes.len(),
            decreases self.pairs.len() - i,
        {
            let other = &self.pairs[i].change_id;
            assert(pairs[i as int] == self.pairs[i as int]@);
            if !other.same_as(change_id) {
                let shared = count_common_digits(&change_id.bytes, &other.bytes);
                proof {
                    lemma_common_digits_bound(change_id@, other@, 0);
                }
                if shared > longest {
                    longest = shared;
                }
            }
            i += 1;
        }
        longest + 1
    }
}

/// Two ids share at most as many digits as the first has left.
pub proof fn lemma_common_digits_bound(a: Seq<u8>, b: Seq<u8>, from: int)
    requires
        0 <= from,
    ensures
        0 <= common_digits_from(a, b, from),
        from < 2 * a.len() ==> common_digits_from(a, b, from) <= 2 * a.len() - from,
        from >= 2 * a.len() ==> common_digits_from(a, b, from) == 0,
    decreases 2 * a.len() - from,
{
    if 0 <= from < 2 * a.len() && from < 2 * b.len() && nibble_at(a, from) == nibble_at(b, from) {
        lemma_common_digits_bound(a, b, from + 1);
    }
}

impl SegmentChain {
    /// Builds the change-id index of the history of the heads. A head that
    /// is not indexed has no history.
    pub fn change_id_index(&self, heads: &Vec<CommitId>) -> (index: ChangeIdIndex)
        requires
            self.wf(),
        ensures
            index@ == reachable_pairs(self@, id_views(heads@)),
    {
        let ghost g = self@;
        let ghost ids = id_views(heads@);
        let mut positions: Vec<u32> = Vec::new();
        let mut i: usize = 0;
        while i < heads.len()
            invariant
                self.wf(),
                g == self@,
                ids == id_views(heads@),
                i <= heads.len(),
                forall|j: int| 0 <= j < positions.len() ==> (#[trigger] positions@[j]) < g.len(),
                forall|x: int| is_listed(positions@, x) <==> head_at(g, ids, i as int, x),
            decreases heads.len() - i,
        {
            assert(ids[i as int] == heads@[i as int]@);
            let ghost before = positions@;
            let found = self.position_of(&heads[i]);
            match found {
                Some(pos) => {
                    positions.push(pos);
                },
                None => {},
            }
            proof {
                assert forall|x: int| is_listed(positions@, x) <==> head_at(g, ids, i + 1, x) by {
                    if is_listed(positions@, x) {
                        let m = choose|m: int|
                            0 <= m < positions.len() && #[trigger] positions@[m] as int == x;
                        if m < before.len() {
                            assert(before[m] as int == x);
                            assert(is_listed(before, x));
                            assert(head_at(g, ids, i as int, x));
                            let j = choose|j: int|
                                0 <= j < i && j < ids.len() && has_commit(g, #[trigger] ids[j])
                                    && position_of(g, ids[j]) == x;
                            assert(j < i + 1);
                        } else {
                            assert(has_commit(g, ids[i as int]) && position_of(g, ids[i as int]) == x);
                        }
                    }
                    if head_at(g, ids, i + 1, x) {
                        let j = choose|j: int|
                            0 <= j < i + 1 && j < ids.len() && has_commit(g, #[trigger] ids[j])
                                && position_of(g, ids[j]) == x;
                        if j < i {
                            assert(head_at(g, ids, i as int, x));
                            assert(is_listed(before, x));
                            let m = choose|m: int|
                                0 <= m < before.len() && #[trigger] before[m] as int == x;
                            assert(positions@[m] as int == x);
                        } else {
                            assert(found is Some);
                            assert(positions@[positions.len() - 1] as int == x);
                        }
                    }
                }
            }
            i += 1;
        }
        let marks = self.ancestors_mask(&positions);
        proof {
            assert forall|p: int| 0 <= p < g.len() implies marks@[p] == is_reachable(g, ids, p) by {
                if is_ancestor_of_some(g, positions@, p) {
                    let m = choose|m: int|
                        0 <= m < positions.len() && is_ancestor_at(
                            g,
                            p,
                            #[trigger] positions@[m] as int,
                        );
                    assert(is_listed(positions@, positions@[m] as int));
                    assert(head_at(g, ids, heads.len() as int, positions@[m] as int));
                    let j = choose|j: int|
                        0 <= j < heads.len() && j < ids.len() && has_commit(g, #[trigger] ids[j])
                            && position_of(g, ids[j]) == positions@[m] as int;
                    assert(is_reachable(g, ids, p));
                }
                if is_reachable(g, ids, p) {
                    let j = choose|j: int|
                        0 <= j < ids.len() && has_commit(g, #[trigger] ids[j]) && is_ancestor_at(
                            g,
                            p,
                            position_of(g, ids[j]),
                        );
                    assert(head_at(g, ids, heads.len() as int, position_of(g, ids[j])));
                    assert(is_listed(positions@, position_of(g, ids[j])));
                    let m = choose|m: int|
                        0 <= m < positions.len() && #[trigger] positions@[m] as int == position_of(
                            g,
                            ids[j],
                        );
                    assert(is_ancestor_at(g, p, positions@[m] as int));
                }
            }
        }
        let n: u32 = self.num_commits();
        let mut pairs: Vec<IdPair> = Vec::new();
        let mut p: u32 = 0;
        while p < n
            invariant
                self.wf(),
                g == self@,
                n == g.len(),
                marks.len() == n,
                p <= n,
                forall|x: int| 0 <= x < n ==> marks@[x] == is_reachable(g, ids, x),
                pair_views(pairs@) == reachable_pairs_upto(g, ids, p as int),
            decreases n - p,
        {
            let ghost before = pair_views(pairs@);
            if marks[p as usize] {
                let entry = self.entry(p);
                let pair = IdPair {
                    change_id: entry.change_id.clone(),
                    commit_id: entry.commit_id.clone(),
                };
                pairs.push(pair);
                assert(pair_views(pairs@) =~= before.push(pair@));
            }
            p += 1;
        }
        ChangeIdIndex { pairs }
    }
}

/// Whether one of the first `upto` heads is indexed and stands at the
/// position `x`.
pub open spec fn head_at(g: Seq<EntryView>, heads: Seq<Seq<u8>>, upto: int, x: int) -> bool {
    exists|j: int|
        0 <= j < upto && j < heads.len() && has_commit(g, #[trigger] heads[j]) && position_of(
            g,
            heads[j],
        ) == x
}

impl ReadonlyIndex {
    /// Builds the change-id index of the history of the heads.
    pub fn change_id_index(&self, heads: &Vec<CommitId>) -> (index: ChangeIdIndex)
        requires
            self.wf(),
        ensures
            index@ == reachable_pairs(self@, id_views(heads@)),
    {
        self.chain.change_id_index(heads)
    }
}

impl MutableIndex {
    /// Builds the change-id index of the history of the heads.
    pub fn change_id_index(&self, heads: &Vec<CommitId>) -> (index: ChangeIdIndex)
        requires
            self.wf(),
        ensures
            index@ == reachable_pairs(self@, id_views(heads@)),
    {
        self.chain.change_id_index(heads)
    }
}

} // verus!
