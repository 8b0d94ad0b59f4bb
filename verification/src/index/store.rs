//! The segment store: the files of the segments, and of each operation the
//! segment that heads its index.
//!
//! Segments are addressed by ids that only grow. A segment names its base
//! by id, and the base of a segment has a smaller id than the segment, so
//! the chain of bases ends. A file is written once and never changed.
//! Nothing that is read from a file is believed: the graph of a chain is
//! checked before an index is made of it, and a chain that fails the check
//! counts as corrupt.

use vstd::prelude::*;
use crate::index::chain::{
    chain_entries, clone_entries, lemma_push_segment, level_sizes, offsets_agree, Segment,
    SegmentChain,
};
use crate::index::error::{IndexError, IndexErrorView};
use crate::index::format::{
    decode_segment, encode_segment, parsed_segment, storable, StoredSegment, StoredView,
};
use crate::index::graph::{
    entry_views, generation_rule, graph_wf, ids_distinct, max_generation, parents_precede,
    EntryView, IndexEntry,
};
use crate::index::levels::{halves_at, levels_balanced};
use crate::ids::{bytes_copy, bytes_equal};
use crate::index::mutable::ReadonlyIndex;

verus! {

/// The entries before `upto` are as a well-formed graph asks of each entry
/// by itself: the root has no parent, every other entry has one, parents
/// precede, and generation numbers follow the rule.
pub open spec fn entries_checked(g: Seq<EntryView>, upto: int) -> bool {
    forall|i: int|
        0 <= i < upto ==> {
            &&& (#[trigger] g[i]).parents.len() == 0 <==> i == 0
            &&& parents_precede(g, i)
            &&& generation_rule(g, i)
        }
}

/// No entry before `upto` carries the commit id of an entry before it.
pub open spec fn ids_checked(g: Seq<EntryView>, upto: int) -> bool {
    forall|i: int, j: int|
        0 <= i < j < upto ==> (#[trigger] g[i]).commit_id != (#[trigger] g[j]).commit_id
}

/// A graph is well formed exactly if it holds an entry, every entry by
/// itself is as asked, and no two entries carry the same commit id.
pub proof fn lemma_checked_is_well_formed(g: Seq<EntryView>)
    requires
        1 <= g.len() <= u32::MAX,
    ensures
        graph_wf(g) == (entries_checked(g, g.len() as int) && ids_distinct(g)),
{
    if graph_wf(g) {
        assert forall|i: int| 0 <= i < g.len() implies {
            &&& (#[trigger] g[i]).parents.len() == 0 <==> i == 0
            &&& parents_precede(g, i)
            &&& generation_rule(g, i)
        } by {
            assert(parents_precede(g, i));
            assert(generation_rule(g, i));
            if i > 0 {
                assert(g[i].parents.len() >= 1);
            }
        }
    }
    if entries_checked(g, g.len() as int) && ids_distinct(g) {
        assert forall|i: int| 0 < i < g.len() implies (#[trigger] g[i]).parents.len() >= 1 by {}
        assert forall|i: int| 0 <= i < g.len() implies #[trigger] parents_precede(g, i) by {
            assert(g[i].parents.len() == 0 <==> i == 0);
        }
        assert forall|i: int| 0 <= i < g.len() implies #[trigger] generation_rule(g, i) by {
            assert(g[i].parents.len() == 0 <==> i == 0);
        }
        assert(g[0].parents.len() == 0);
    }
}

impl SegmentChain {
    /// Whether the entry at `p` is as a well-formed graph asks.
    fn check_entry(&self, p: u32) -> (ok: bool)
        requires
            self.layout_wf(),
            p < self@.len(),
        ensures
            ok == {
                &&& self@[p as int].parents.len() == 0 <==> p == 0
                &&& parents_precede(self@, p as int)
                &&& generation_rule(self@, p as int)
            },
    {
        let ghost g = self@;
        let entry = self.entry(p);
        if (entry.parent_positions.len() == 0) != (p == 0) {
            return false;
        }
        let mut expected: u64 = 0;
        let mut k: usize = 0;
        while k < entry.parent_positions.len()
            invariant
                self.layout_wf(),
                g == self@,
                p < g.len(),
                entry@ == g[p as int],
                k <= entry.parent_positions.len(),
                forall|j: int| 0 <= j < k ==> 0 <= #[trigger] g[p as int].parents[j] < p,
                expected == 1 + max_generation(g, g[p as int].parents.subrange(0, k as int)),
                expected <= u32::MAX + 1,
            decreases entry.parent_positions.len() - k,
        {
            let q: u32 = entry.parent_positions[k];
            assert(g[p as int].parents[k as int] == q as int);
            if q >= p {
                return false;
            }
            let generation: u32 = self.entry(q).generation_number;
            proof {
                let upto = g[p as int].parents.subrange(0, k + 1);
                assert(upto.drop_last() =~= g[p as int].parents.subrange(0, k as int));
                assert(upto.last() == q as int);
            }
            if generation as u64 + 1 > expected {
                expected = generation as u64 + 1;
            }
            k += 1;
        }
        assert(g[p as int].parents.subrange(0, entry.parent_positions.len() as int)
            =~= g[p as int].parents);
        entry.generation_number as u64 == expected
    }

    /// Whether every entry by itself is as a well-formed graph asks.
    fn check_entries(&self) -> (ok: bool)
        requires
            self.layout_wf(),
        ensures
            ok == entries_checked(self@, self@.len() as int),
    {
        let ghost g = self@;
        let n: u32 = self.num_commits();
        let mut p: u32 = 0;
        while p < n
            invariant
                self.layout_wf(),
                g == self@,
                n == g.len(),
                p <= n,
                entries_checked(g, p as int),
            decreases n - p,
        {
            if !self.check_entry(p) {
                assert(!entries_checked(g, n as int)) by {
                    if entries_checked(g, n as int) {
                        assert(g[p as int].parents.len() == 0 <==> p == 0);
                    }
                }
                return false;
            }
            p += 1;
        }
        true
    }

    /// Whether the entry at `j` carries a commit id that no entry before
    /// it carries.
    fn check_id(&self, j: u32) -> (ok: bool)
        requires
            self.layout_wf(),
            j < self@.len(),
        ensures
            ok == forall|m: int| 0 <= m < j ==> (#[trigger] self@[m]).commit_id != self@[j as int].commit_id,
    {
        let ghost g = self@;
        let later = self.entry(j);
        let mut i: u32 = 0;
        while i < j
            invariant
                self.layout_wf(),
                g == self@,
                j < g.len(),
                later@ == g[j as int],
                i <= j,
                forall|m: int| 0 <= m < i ==> (#[trigger] g[m]).commit_id != g[j as int].commit_id,
            decreases j - i,
        {
            if self.entry(i).commit_id.same_as(&later.commit_id) {
                return false;
            }
            i += 1;
        }
        true
    }

    /// Whether no two entries carry the same commit id.
    fn check_ids(&self) -> (ok: bool)
        requires
            self.layout_wf(),
        ensures
            ok == ids_distinct(self@),
    {
        let ghost g = self@;
        let n: u32 = self.num_commits();
        let mut j: u32 = 0;
        while j < n
            invariant
                self.layout_wf(),
                g == self@,
                n == g.len(),
                j <= n,
                ids_checked(g, j as int),
            decreases n - j,
        {
            if !self.check_id(j) {
                assert(!ids_distinct(g)) by {
                    let m = choose|m: int|
                        0 <= m < j && (#[trigger] g[m]).commit_id == g[j as int].commit_id;
                    if ids_distinct(g) {
                        assert(g[m].commit_id != g[j as int].commit_id);
                    }
                }
                return false;
            }
            j += 1;
        }
        true
    }

    /// Whether the graph of the chain is well formed.
    pub fn check_graph(&self) -> (ok: bool)
        requires
            self.layout_wf(),
        ensures
            ok == graph_wf(self@),
    {
        let n: u32 = self.num_commits();
        if n == 0 {
            return false;
        }
        let entries_ok = self.check_entries();
        let ids_ok = self.check_ids();
        proof {
            lemma_checked_is_well_formed(self@);
        }
        entries_ok && ids_ok
    }

    /// Whether the levels of the chain are balanced.
    pub fn check_levels(&self) -> (ok: bool)
        ensures
            ok == levels_balanced(level_sizes(self.segments@)),
    {
        let ghost sizes = level_sizes(self.segments@);
        let mut k: usize = 0;
        while k < self.segments.len()
            invariant
                sizes == level_sizes(self.segments@),
                k <= self.segments.len(),
                forall|j: int| 0 <= j < k ==> #[trigger] sizes[j] >= 1,
                forall|j: int| 0 <= j < k - 1 ==> #[trigger] halves_at(sizes, j),
            decreases self.segments.len() - k,
        {
            let size: usize = self.segments[k].entries.len();
            assert(sizes[k as int] == size);
            if size == 0 {
                return false;
            }
            if k > 0 {
                let before: usize = self.segments[k - 1].entries.len();
                assert(sizes[k - 1] == before);
                if before <= size || before - size <= size {
                    assert(!halves_at(sizes, k - 1));
                    return false;
                }
                assert(halves_at(sizes, k - 1));
            }
            k += 1;
        }
        true
    }
}

/// What the file of a segment holds, if the segment has a file.
pub open spec fn file_bytes(files: Seq<Option<Vec<u8>>>, id: int) -> Option<Seq<u8>> {
    if 0 <= id < files.len() {
        match files[id] {
            Some(bytes) => Some(bytes@),
            None => None,
        }
    } else {
        None
    }
}

/// The segment with the id, or the reason why it cannot be read: it has no
/// file, or its file holds no segment.
pub open spec fn stored_segment(
    files: Seq<Option<Vec<u8>>>,
    commit_id_len: int,
    change_id_len: int,
    id: int,
) -> Result<StoredView, IndexErrorView> {
    match file_bytes(files, id) {
        None => Err(IndexErrorView::MissingSegment(id as u32)),
        Some(bytes) => match parsed_segment(bytes, commit_id_len, change_id_len) {
            None => Err(IndexErrorView::CorruptSegment(id as u32)),
            Some(segment) => Ok(segment),
        },
    }
}

/// What a result of a segment holds, as plain values.
pub open spec fn segment_result_view(segment: Result<StoredSegment, IndexError>) -> Result<
    StoredView,
    IndexErrorView,
> {
    match segment {
        Ok(s) => Ok(s@),
        Err(error) => Err(error@),
    }
}

/// The segments of the chain that the segment `head` heads, oldest first,
/// or the reason why the chain cannot be read: a file is not there, a file
/// holds no segment, or a segment names a base that is not older than
/// itself.
pub open spec fn stored_chain(
    files: Seq<Option<Vec<u8>>>,
    commit_id_len: int,
    change_id_len: int,
    head: int,
) -> Result<Seq<StoredView>, IndexErrorView>
    decreases head,
{
    match stored_segment(files, commit_id_len, change_id_len, head) {
        Err(error) => Err(error),
        Ok(segment) => match segment.base {
            None => Ok(seq![segment]),
            Some(base) => if base >= head {
                Err(IndexErrorView::CorruptSegment(head as u32))
            } else {
                match stored_chain(files, commit_id_len, change_id_len, base as int) {
                    Err(error) => Err(error),
                    Ok(chain) => Ok(chain.push(segment)),
                }
            },
        },
    }
}

/// The entries of a chain of stored segments, oldest first.
pub open spec fn chain_graph(chain: Seq<StoredView>) -> Seq<EntryView>
    decreases chain.len(),
{
    if chain.len() == 0 {
        Seq::empty()
    } else {
        chain_graph(chain.drop_last()) + chain.last().entries
    }
}

/// The number of commits in each stored segment, oldest first.
pub open spec fn stored_sizes(chain: Seq<StoredView>) -> Seq<int> {
    Seq::new(chain.len(), |k: int| chain[k].entries.len() as int)
}

/// Whether a chain of stored segments makes an index: its entries can be
/// numbered, its graph is well formed, and its levels are balanced.
pub open spec fn chain_valid(chain: Seq<StoredView>) -> bool {
    &&& chain_graph(chain).len() <= u32::MAX
    &&& graph_wf(chain_graph(chain))
    &&& levels_balanced(stored_sizes(chain))
}

/// What loading the index that the segment `head` heads gives: the graph
/// and the level sizes, or the reason why it cannot be loaded. A chain that
/// makes no index counts as a corrupt head.
pub open spec fn loaded_index(
    files: Seq<Option<Vec<u8>>>,
    commit_id_len: int,
    change_id_len: int,
    head: int,
) -> Result<(Seq<EntryView>, Seq<int>), IndexErrorView> {
    match stored_chain(files, commit_id_len, change_id_len, head) {
        Err(error) => Err(error),
        Ok(chain) => if chain_valid(chain) {
            Ok((chain_graph(chain), stored_sizes(chain)))
        } else {
            Err(IndexErrorView::CorruptSegment(head as u32))
        },
    }
}

/// The views of stored segments, in their order.
pub open spec fn stored_views(segments: Seq<StoredSegment>) -> Seq<StoredView> {
    segments.map_values(|s: StoredSegment| s@)
}

/// The link from an operation to the segment that heads its index.
#[derive(Debug)]
pub struct OpLink {
    pub op_id: Vec<u8>,
    pub head: u32,
}

/// The segment store.
#[derive(Debug)]
pub struct SegmentStore {
    /// The length of every commit id.
    pub commit_id_len: usize,
    /// The length of every change id.
    pub change_id_len: usize,
    /// The files of the segments by id. A segment without a file was
    /// deleted.
    pub files: Vec<Option<Vec<u8>>>,
    /// The links from operations to the heads of their indexes, oldest
    /// first.
    pub op_links: Vec<OpLink>,
    /// The links that were written in the older form. They are read where
    /// an operation has no link in the newer form, and never written.
    pub legacy_op_links: Vec<OpLink>,
}

/// What reading a chain gives, as plain values.
pub open spec fn chain_result_view(chain: Result<Vec<StoredSegment>, IndexError>) -> Result<
    Seq<StoredView>,
    IndexErrorView,
> {
    match chain {
        Ok(segments) => Ok(stored_views(segments@)),
        Err(error) => Err(error@),
    }
}

/// The chain of the segments with their offsets, as the stored segments
/// give it.
pub open spec fn assembled_agrees(stored: Seq<StoredView>, segments: Seq<Segment>) -> bool {
    &&& segments.len() == stored.len()
    &&& forall|k: int| 0 <= k < stored.len() ==> (#[trigger] segments[k])@ == stored[k].entries
}

/// A chain put together from stored segments holds their entries.
pub proof fn lemma_assembled_graph(stored: Seq<StoredView>, segments: Seq<Segment>)
    requires
        assembled_agrees(stored, segments),
    ensures
        chain_entries(segments) == chain_graph(stored),
        level_sizes(segments) == stored_sizes(stored),
    decreases stored.len(),
{
    if stored.len() > 0 {
        assert(segments.last()@ == stored.last().entries);
        assert forall|k: int| 0 <= k < stored.drop_last().len() implies (
        #[trigger] segments.drop_last()[k])@ == stored.drop_last()[k].entries by {
            assert(segments[k]@ == stored[k].entries);
        }
        lemma_assembled_graph(stored.drop_last(), segments.drop_last());
    }
    assert forall|k: int| 0 <= k < stored.len() implies level_sizes(segments)[k] == stored_sizes(
        stored,
    )[k] by {
        assert(segments[k]@ == stored[k].entries);
    }
    assert(level_sizes(segments) =~= stored_sizes(stored));
}

/// Puts stored segments together into a chain. Nothing comes of segments
/// that hold more entries than can be numbered.
pub fn assemble(stored: &Vec<StoredSegment>) -> (chain: Option<SegmentChain>)
    requires
        stored.len() >= 1,
    ensures
        chain is Some <==> chain_graph(stored_views(stored@)).len() <= u32::MAX,
        chain is Some ==> chain->0.layout_wf() && assembled_agrees(
            stored_views(stored@),
            chain->0.segments@,
        ),
{
    let ghost views = stored_views(stored@);
    let mut segments: Vec<Segment> = Vec::new();
    let mut offset: u32 = 0;
    let mut k: usize = 0;
    assert(views.subrange(0, 0) =~= Seq::<StoredView>::empty());
    while k < stored.len()
        invariant
            views == stored_views(stored@),
            k <= stored.len(),
            segments.len() == k,
            forall|j: int| 0 <= j < k ==> (#[trigger] segments@[j])@ == views[j].entries,
            offsets_agree(segments@),
            offset == chain_entries(segments@).len(),
            chain_entries(segments@) == chain_graph(views.subrange(0, k as int)),
        decreases stored.len() - k,
    {
        let next = &stored[k];
        assert(next@ == views[k as int]);
        proof {
            let upto = views.subrange(0, k + 1);
            assert(upto.drop_last() =~= views.subrange(0, k as int));
            assert(upto.last() == views[k as int]);
            lemma_graph_prefix(views, k + 1);
        }
        if next.entries.len() > (u32::MAX - offset) as usize {
            return None;
        }
        let size: u32 = next.entries.len() as u32;
        let segment = Segment { num_parent_commits: offset, entries: clone_entries(&next.entries) };
        proof {
            lemma_push_segment(segments@, segment);
        }
        segments.push(segment);
        offset = offset + size;
        k += 1;
    }
    assert(views.subrange(0, stored.len() as int) =~= views);
    Some(SegmentChain { segments })
}

/// The entries of the first stored segments are at most as many as those
/// of all.
pub proof fn lemma_graph_prefix(chain: Seq<StoredView>, upto: int)
    requires
        0 <= upto <= chain.len(),
    ensures
        chain_graph(chain.subrange(0, upto)).len() <= chain_graph(chain).len(),
    decreases chain.len() - upto,
{
    if upto < chain.len() {
        let next = chain.subrange(0, upto + 1);
        assert(next.drop_last() =~= chain.subrange(0, upto));
        lemma_graph_prefix(chain, upto + 1);
    } else {
        assert(chain.subrange(0, upto) =~= chain);
    }
}

/// A chain of stored segments has a segment.
pub proof fn lemma_stored_chain_nonempty(
    files: Seq<Option<Vec<u8>>>,
    commit_id_len: int,
    change_id_len: int,
    head: int,
)
    requires
        stored_chain(files, commit_id_len, change_id_len, head) is Ok,
    ensures
        stored_chain(files, commit_id_len, change_id_len, head)->Ok_0.len() >= 1,
    decreases head,
{
    let segment = stored_segment(files, commit_id_len, change_id_len, head)->Ok_0;
    if segment.base is Some {
        lemma_stored_chain_nonempty(files, commit_id_len, change_id_len, segment.base->0 as int);
    }
}

impl SegmentStore {
    /// A store without a file, for ids of the given lengths.
    pub fn new(commit_id_len: usize, change_id_len: usize) -> (store: SegmentStore)
        ensures
            store.commit_id_len == commit_id_len,
            store.change_id_len == change_id_len,
            store.files.len() == 0,
            store.op_links.len() == 0,
            store.legacy_op_links.len() == 0,
    {
        SegmentStore {
            commit_id_len,
            change_id_len,
            files: Vec::new(),
            op_links: Vec::new(),
            legacy_op_links: Vec::new(),
        }
    }

    /// The tag of this kind of index store.
    pub fn store_type() -> (tag: &'static str)
        ensures
            tag@ == "default"@,
    {
        "default"
    }

    /// Writes a segment as a new file and gives its id. A segment that
    /// cannot be stored, or for which no id is left, is not written.
    pub fn write_segment(&mut self, entries: &Vec<IndexEntry>, base: Option<u32>) -> (id: Option<u32>)
        ensures
            final(self).commit_id_len == old(self).commit_id_len,
            final(self).change_id_len == old(self).change_id_len,
            final(self).op_links == old(self).op_links,
            final(self).legacy_op_links == old(self).legacy_op_links,
            id is Some <==> (old(self).files.len() < u32::MAX && storable(
                entry_views(entries@),
                base,
                old(self).commit_id_len as int,
                old(self).change_id_len as int,
            )),
            id is None ==> final(self).files@ == old(self).files@,
            id is Some ==> {
                &&& id->0 == old(self).files.len()
                &&& final(self).files.len() == old(self).files.len() + 1
                &&& final(self).files@.subrange(0, old(self).files.len() as int) == old(self).files@
                &&& stored_segment(
                    final(self).files@,
                    old(self).commit_id_len as int,
                    old(self).change_id_len as int,
                    id->0 as int,
                ) == Ok::<StoredView, IndexErrorView>(
                    StoredView { base, entries: entry_views(entries@) },
                )
            },
    {
        if self.files.len() >= u32::MAX as usize {
            return None;
        }
        match encode_segment(entries, base, self.commit_id_len, self.change_id_len) {
            Some(bytes) => {
                let id: u32 = self.files.len() as u32;
                self.files.push(Some(bytes));
                assert(self.files@.subrange(0, old(self).files.len() as int) =~= old(self).files@);
                Some(id)
            },
            None => None,
        }
    }

    /// Reads the segment with the id. The read fails where the segment has
    /// no file, and where its file holds no segment: where the file is too
    /// short for a header, carries another version, or has a length that
    /// does not agree with the counts in its header.
    pub fn read_segment(&self, id: u32) -> (segment: Result<StoredSegment, IndexError>)
        ensures
            segment_result_view(segment) == stored_segment(
                self.files@,
                self.commit_id_len as int,
                self.change_id_len as int,
                id as int,
            ),
    {
        if id as usize >= self.files.len() {
            return Err(IndexError::MissingSegment(id));
        }
        let bytes = match &self.files[id as usize] {
            Some(bytes) => bytes,
            None => {
                return Err(IndexError::MissingSegment(id));
            },
        };
        match decode_segment(bytes, self.commit_id_len, self.change_id_len) {
            Some(segment) => Ok(segment),
            None => Err(IndexError::CorruptSegment(id)),
        }
    }

    /// Reads the segments of the chain that the segment `head` heads,
    /// oldest first.
    pub fn read_chain(&self, head: u32) -> (chain: Result<Vec<StoredSegment>, IndexError>)
        ensures
            chain_result_view(chain) == stored_chain(
                self.files@,
                self.commit_id_len as int,
                self.change_id_len as int,
                head as int,
            ),
        decreases head,
    {
        let segment = match self.read_segment(head) {
            Ok(segment) => segment,
            Err(error) => {
                return Err(error);
            },
        };
        match segment.base {
            None => {
                let mut chain: Vec<StoredSegment> = Vec::new();
                chain.push(segment);
                assert(stored_views(chain@) =~= seq![segment@]);
                Ok(chain)
            },
            Some(base) => {
                if base >= head {
                    return Err(IndexError::CorruptSegment(head));
                }
                match self.read_chain(base) {
                    Err(error) => Err(error),
                    Ok(chain) => {
                        let mut chain = chain;
                        let ghost before = stored_views(chain@);
                        chain.push(segment);
                        assert(stored_views(chain@) =~= before.push(segment@));
                        Ok(chain)
                    },
                }
            },
        }
    }

    /// Loads the index that the segment `head` heads. The changed-path
    /// index of what is loaded is off.
    pub fn load(&self, head: u32) -> (index: Result<ReadonlyIndex, IndexError>)
        ensures
            match index {
                Ok(i) => i.wf() && i.changed_paths is None && loaded_index(
                    self.files@,
                    self.commit_id_len as int,
                    self.change_id_len as int,
                    head as int,
                ) == Ok::<(Seq<EntryView>, Seq<int>), IndexErrorView>((i@, i.levels())),
                Err(error) => loaded_index(
                    self.files@,
                    self.commit_id_len as int,
                    self.change_id_len as int,
                    head as int,
                ) == Err::<(Seq<EntryView>, Seq<int>), IndexErrorView>(error@),
            },
    {
        let stored = match self.read_chain(head) {
            Ok(stored) => stored,
            Err(error) => {
                return Err(error);
            },
        };
        let ghost views = stored_views(stored@);
        proof {
            lemma_stored_chain_nonempty(
                self.files@,
                self.commit_id_len as int,
                self.change_id_len as int,
                head as int,
            );
        }
        let chain = match assemble(&stored) {
            Some(chain) => chain,
            None => {
                return Err(IndexError::CorruptSegment(head));
            },
        };
        proof {
            lemma_assembled_graph(views, chain.segments@);
        }
        if !chain.check_graph() || !chain.check_levels() {
            return Err(IndexError::CorruptSegment(head));
        }
        Ok(ReadonlyIndex { chain, changed_paths: None })
    }
}

/// The base of the segment numbered `j` of a chain that is written from
/// the id `first_id` on: none for the first, else the segment before.
pub open spec fn written_base(first_id: int, j: int) -> Option<u32> {
    if j == 0 {
        None
    } else {
        Some((first_id + j - 1) as u32)
    }
}

/// The stored segments that the segments of a chain make when they are
/// written from the id `first_id` on.
pub open spec fn written_views(segments: Seq<Segment>, first_id: int) -> Seq<StoredView> {
    Seq::new(
        segments.len(),
        |j: int| StoredView { base: written_base(first_id, j), entries: segments[j]@ },
    )
}

/// Whether the files from `first_id` on hold the stored segments, the
/// first `upto` of them.
pub open spec fn files_hold(
    files: Seq<Option<Vec<u8>>>,
    commit_id_len: int,
    change_id_len: int,
    first_id: int,
    views: Seq<StoredView>,
    upto: int,
) -> bool {
    forall|m: int|
        0 <= m < upto ==> {
            &&& first_id + m < files.len()
            &&& (#[trigger] files[first_id + m]) is Some
            &&& parsed_segment(files[first_id + m]->0@, commit_id_len, change_id_len) == Some(
                views[m],
            )
        }
}

/// A chain that was written file by file is read back segment by segment.
pub proof fn lemma_written_chain(
    files: Seq<Option<Vec<u8>>>,
    commit_id_len: int,
    change_id_len: int,
    first_id: int,
    views: Seq<StoredView>,
    j: int,
)
    requires
        0 <= first_id,
        0 <= j < views.len(),
        first_id + j < u32::MAX,
        files_hold(files, commit_id_len, change_id_len, first_id, views, j + 1),
        forall|m: int| 0 <= m <= j ==> (#[trigger] views[m]).base == written_base(first_id, m),
    ensures
        stored_chain(files, commit_id_len, change_id_len, first_id + j) == Ok::<
            Seq<StoredView>,
            IndexErrorView,
        >(views.subrange(0, j + 1)),
    decreases j,
{
    assert(files[first_id + j] is Some);
    assert(views[j].base == written_base(first_id, j));
    if j == 0 {
        assert(views.subrange(0, 1) =~= seq![views[0]]);
    } else {
        lemma_written_chain(files, commit_id_len, change_id_len, first_id, views, j - 1);
        assert(views.subrange(0, j + 1) =~= views.subrange(0, j).push(views[j]));
    }
}

/// Whether the index can be saved in the store: there are ids left for its
/// segments, and every segment can be stored.
pub open spec fn can_save(store: SegmentStore, index: ReadonlyIndex) -> bool {
    &&& store.files.len() + index.chain.segments.len() < u32::MAX
    &&& forall|j: int|
        0 <= j < index.chain.segments.len() ==> #[trigger] storable(
            index.chain.segments[j]@,
            written_base(store.files.len() as int, j),
            store.commit_id_len as int,
            store.change_id_len as int,
        )
}

/// The head that the latest link of the first `upto` gives for the
/// operation, if one of them is for it.
pub open spec fn linked_head(links: Seq<OpLink>, op_id: Seq<u8>, upto: int) -> Option<u32>
    decreases upto,
{
    if upto <= 0 {
        None
    } else if links[upto - 1].op_id@ == op_id {
        Some(links[upto - 1].head)
    } else {
        linked_head(links, op_id, upto - 1)
    }
}

/// The head that the store gives for an operation: by its links, and by
/// its links in the older form where those have none for it.
pub open spec fn store_head(store: SegmentStore, op_id: Seq<u8>) -> Option<u32> {
    match linked_head(store.op_links@, op_id, store.op_links.len() as int) {
        Some(head) => Some(head),
        None => linked_head(store.legacy_op_links@, op_id, store.legacy_op_links.len() as int),
    }
}

/// The head that the latest of the links gives for the operation.
fn latest_link(links: &Vec<OpLink>, op_id: &Vec<u8>) -> (head: Option<u32>)
    ensures
        head == linked_head(links@, op_id@, links.len() as int),
{
    let mut head: Option<u32> = None;
    let mut i: usize = 0;
    while i < links.len()
        invariant
            i <= links.len(),
            head == linked_head(links@, op_id@, i as int),
        decreases links.len() - i,
    {
        if bytes_equal(&links[i].op_id, op_id) {
            head = Some(links[i].head);
        }
        i += 1;
    }
    head
}

impl SegmentStore {
    /// Saves the index: writes each of its segments as a new file and
    /// gives the id of the segment that heads it. What is saved loads as
    /// the index that was saved. Where the index cannot be saved nothing is
    /// written. The files that were there stay as they are.
    pub fn save(&mut self, index: &ReadonlyIndex) -> (head: Option<u32>)
        requires
            index.wf(),
        ensures
            head is Some <==> can_save(*old(self), *index),
            final(self).commit_id_len == old(self).commit_id_len,
            final(self).change_id_len == old(self).change_id_len,
            final(self).op_links == old(self).op_links,
            final(self).legacy_op_links == old(self).legacy_op_links,
            head is None ==> final(self).files@ == old(self).files@,
            head is Some ==> {
                &&& final(self).files.len() == old(self).files.len() + index.chain.segments.len()
                &&& final(self).files@.subrange(0, old(self).files.len() as int) == old(self).files@
                &&& head->0 == final(self).files.len() - 1
                &&& loaded_index(
                    final(self).files@,
                    old(self).commit_id_len as int,
                    old(self).change_id_len as int,
                    head->0 as int,
                ) == Ok::<(Seq<EntryView>, Seq<int>), IndexErrorView>((index@, index.levels()))
            },
    {
        let ghost lc = self.commit_id_len as int;
        let ghost lch = self.change_id_len as int;
        let first_id: usize = self.files.len();
        let count: usize = index.chain.segments.len();
        if first_id >= u32::MAX as usize || count >= u32::MAX as usize - first_id {
            return None;
        }
        let ghost views = written_views(index.chain.segments@, first_id as int);
        let mut encoded: Vec<Vec<u8>> = Vec::new();
        let mut j: usize = 0;
        while j < count
            invariant
                lc == self.commit_id_len,
                lch == self.change_id_len,
                first_id == self.files.len(),
                count == index.chain.segments.len(),
                first_id + count < u32::MAX,
                views == written_views(index.chain.segments@, first_id as int),
                j <= count,
                encoded.len() == j,
                forall|m: int|
                    0 <= m < j ==> #[trigger] storable(
                        index.chain.segments[m]@,
                        written_base(first_id as int, m),
                        lc,
                        lch,
                    ),
                forall|m: int|
                    0 <= m < j ==> parsed_segment((#[trigger] encoded@[m])@, lc, lch) == Some(
                        views[m],
                    ),
            decreases count - j,
        {
            let base: Option<u32> = if j == 0 {
                None
            } else {
                Some((first_id + j - 1) as u32)
            };
            match encode_segment(
                &index.chain.segments[j].entries,
                base,
                self.commit_id_len,
                self.change_id_len,
            ) {
                Some(bytes) => {
                    encoded.push(bytes);
                },
                None => {
                    assert(!storable(
                        index.chain.segments[j as int]@,
                        written_base(first_id as int, j as int),
                        lc,
                        lch,
                    ));
                    return None;
                },
            }
            j += 1;
        }
        let ghost files_before = self.files@;
        let mut m: usize = 0;
        while m < count
            invariant
                lc == self.commit_id_len,
                lch == self.change_id_len,
                self.commit_id_len == old(self).commit_id_len,
                self.change_id_len == old(self).change_id_len,
                self.op_links == old(self).op_links,
                self.legacy_op_links == old(self).legacy_op_links,
                files_before == old(self).files@,
                first_id == files_before.len(),
                count == index.chain.segments.len(),
                encoded.len() == count,
                m <= count,
                self.files.len() == first_id + m,
                self.files@.subrange(0, first_id as int) == files_before,
                forall|x: int|
                    0 <= x < count ==> parsed_segment((#[trigger] encoded@[x])@, lc, lch) == Some(
                        views[x],
                    ),
                files_hold(self.files@, lc, lch, first_id as int, views, m as int),
            decreases count - m,
        {
            let ghost before = self.files@;
            let bytes = bytes_copy(&encoded[m]);
            self.files.push(Some(bytes));
            proof {
                assert(self.files@.subrange(0, first_id as int) =~= files_before);
                assert forall|x: int| 0 <= x < m + 1 implies {
                    &&& first_id + x < self.files@.len()
                    &&& (#[trigger] self.files@[first_id + x]) is Some
                    &&& parsed_segment(self.files@[first_id + x]->0@, lc, lch) == Some(views[x])
                } by {
                    if x < m {
                        assert(before[first_id + x] is Some);
                        assert(self.files@[first_id + x] == before[first_id + x]);
                    } else {
                        assert(parsed_segment(encoded@[m as int]@, lc, lch) == Some(views[m as int]));
                    }
                }
            }
            m += 1;
        }
        let head: u32 = (first_id + count - 1) as u32;
        proof {
            assert(count >= 1);
            lemma_written_chain(self.files@, lc, lch, first_id as int, views, count - 1);
            assert(views.subrange(0, count as int) =~= views);
            lemma_assembled_graph(views, index.chain.segments@);
        }
        Some(head)
    }

    /// Forgets every file and every link, as after the directory of the
    /// index has been deleted. The ids that were given out are not given
    /// out again.
    pub fn reinit(&mut self)
        ensures
            final(self).commit_id_len == old(self).commit_id_len,
            final(self).change_id_len == old(self).change_id_len,
            final(self).files.len() == old(self).files.len(),
            forall|id: int| 0 <= id < final(self).files.len() ==> (#[trigger] final(self).files@[id]) is None,
            final(self).op_links.len() == 0,
            final(self).legacy_op_links.len() == 0,
    {
        let n: usize = self.files.len();
        let mut files: Vec<Option<Vec<u8>>> = Vec::new();
        let mut i: usize = 0;
        while i < n
            invariant
                i <= n,
                files.len() == i,
                forall|id: int| 0 <= id < i ==> (#[trigger] files@[id]) is None,
            decreases n - i,
        {
            files.push(None);
            i += 1;
        }
        self.files = files;
        self.op_links = Vec::new();
        self.legacy_op_links = Vec::new();
    }

    /// Deletes the file of a segment. Nothing happens where it has none.
    pub fn delete_segment(&mut self, id: u32)
        ensures
            final(self).commit_id_len == old(self).commit_id_len,
            final(self).change_id_len == old(self).change_id_len,
            final(self).op_links == old(self).op_links,
            final(self).legacy_op_links == old(self).legacy_op_links,
            final(self).files.len() == old(self).files.len(),
            forall|other: int|
                0 <= other < final(self).files.len() && other != id ==> #[trigger] final(self).files@[other] == old(self).files@[other],
            id < final(self).files.len() ==> final(self).files@[id as int] is None,
    {
        if (id as usize) < self.files.len() {
            self.files.set(id as usize, None);
        }
    }

    /// Links an operation to the segment that heads its index.
    pub fn link_operation(&mut self, op_id: Vec<u8>, head: u32)
        ensures
            final(self).commit_id_len == old(self).commit_id_len,
            final(self).change_id_len == old(self).change_id_len,
            final(self).files == old(self).files,
            final(self).legacy_op_links == old(self).legacy_op_links,
            final(self).op_links@ == old(self).op_links@.push(OpLink { op_id, head }),
    {
        self.op_links.push(OpLink { op_id, head });
    }

    /// The segment that heads the index of an operation: by the latest
    /// link for it, or by the latest link in the older form where it has
    /// none, if it has one at all.
    pub fn head_of(&self, op_id: &Vec<u8>) -> (head: Option<u32>)
        ensures
            head == store_head(*self, op_id@),
    {
        match latest_link(&self.op_links, op_id) {
            Some(head) => Some(head),
            None => latest_link(&self.legacy_op_links, op_id),
        }
    }
}

} // verus!
