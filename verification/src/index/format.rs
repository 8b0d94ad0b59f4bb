//! The layout of a segment file.
//!
//! A file starts with a header of six numbers: the version of the format,
//! the reference to the base segment (zero where there is none, else its id
//! plus one), and the numbers of local commits, of local change ids, of
//! overflow parents and of overflow change positions. Arrays of fixed
//! stride follow: for each commit its generation number, its two parent
//! fields, the place of its change id in the table of change ids, and its
//! commit id; then the table of change ids; then the overflow parents, for
//! merges of more than two parents; then the overflow change positions,
//! the commits whose change id another commit before them carries. A file
//! whose length does not agree with the numbers of its header holds no
//! segment.

use vstd::prelude::*;
use crate::ids::{bytes_copy, bytes_equal, ChangeId, CommitId};
use crate::index::graph::{entry_views, EntryView, IndexEntry};
use crate::index::bytes::{
    is_prefix, lemma_prefix_transitive, lemma_runs_at_prefix, lemma_runs_len,
    lemma_u32s_at_prefix, lemma_u32s_len, read_runs, read_u32s, run_views, runs_at, u32s_at,
    write_runs, write_u32s,
};

verus! {

/// The version of the format.
pub const FORMAT_VERSION: u32 = 1;

/// The value of a parent field that holds no parent.
pub const NO_PARENT: u32 = 0xffff_ffff;

/// The least value of a parent field that refers to the overflow parents.
pub const OVERFLOW_FLAG: u32 = 0x8000_0000;

/// The arrays of a segment file as they stand in it.
#[derive(Debug)]
pub struct RawSegment {
    pub base_ref: u32,
    pub generations: Vec<u32>,
    pub first_parents: Vec<u32>,
    pub second_parents: Vec<u32>,
    pub change_indices: Vec<u32>,
    pub commit_ids: Vec<Vec<u8>>,
    pub change_ids: Vec<Vec<u8>>,
    pub overflow_parents: Vec<u32>,
    pub overflow_changes: Vec<u32>,
}

/// The arrays of a segment file as plain values.
pub struct RawView {
    pub base_ref: u32,
    pub generations: Seq<u32>,
    pub first_parents: Seq<u32>,
    pub second_parents: Seq<u32>,
    pub change_indices: Seq<u32>,
    pub commit_ids: Seq<Seq<u8>>,
    pub change_ids: Seq<Seq<u8>>,
    pub overflow_parents: Seq<u32>,
    pub overflow_changes: Seq<u32>,
}

impl View for RawSegment {
    type V = RawView;

    open spec fn view(&self) -> RawView {
        RawView {
            base_ref: self.base_ref,
            generations: self.generations@,
            first_parents: self.first_parents@,
            second_parents: self.second_parents@,
            change_indices: self.change_indices@,
            commit_ids: run_views(self.commit_ids@),
            change_ids: run_views(self.change_ids@),
            overflow_parents: self.overflow_parents@,
            overflow_changes: self.overflow_changes@,
        }
    }
}

/// The header of the arrays.
pub open spec fn header_of(raw: RawView) -> Seq<u32> {
    seq![
        FORMAT_VERSION,
        raw.base_ref,
        raw.generations.len() as u32,
        raw.change_ids.len() as u32,
        raw.overflow_parents.len() as u32,
        raw.overflow_changes.len() as u32,
    ]
}

/// The arrays agree in their lengths, every length fits the header, and
/// every id has the length of its kind.
pub open spec fn raw_wf(raw: RawView, commit_id_len: int, change_id_len: int) -> bool {
    &&& raw.generations.len() <= u32::MAX
    &&& raw.first_parents.len() == raw.generations.len()
    &&& raw.second_parents.len() == raw.generations.len()
    &&& raw.change_indices.len() == raw.generations.len()
    &&& raw.commit_ids.len() == raw.generations.len()
    &&& raw.change_ids.len() <= u32::MAX
    &&& raw.overflow_parents.len() <= u32::MAX
    &&& raw.overflow_changes.len() <= u32::MAX
    &&& forall|i: int| 0 <= i < raw.commit_ids.len() ==> (#[trigger] raw.commit_ids[i]).len()
        == commit_id_len
    &&& forall|i: int| 0 <= i < raw.change_ids.len() ==> (#[trigger] raw.change_ids[i]).len()
        == change_id_len
}

/// The arrays that a file holds, if it holds a segment of this version
/// whose length agrees with its header.
pub open spec fn raw_at(bytes: Seq<u8>, commit_id_len: int, change_id_len: int) -> Option<RawView> {
    match u32s_at(bytes, 0, 6) {
        None => None,
        Some((header, o0)) => if header[0] != FORMAT_VERSION {
            None
        } else {
            match u32s_at(bytes, o0, header[2] as int) {
                None => None,
                Some((generations, o1)) => match u32s_at(bytes, o1, header[2] as int) {
                    None => None,
                    Some((first_parents, o2)) => match u32s_at(bytes, o2, header[2] as int) {
                        None => None,
                        Some((second_parents, o3)) => match u32s_at(
                            bytes,
                            o3,
                            header[2] as int,
                        ) {
                            None => None,
                            Some((change_indices, o4)) => match runs_at(
                                bytes,
                                o4,
                                commit_id_len,
                                header[2] as int,
                            ) {
                                None => None,
                                Some((commit_ids, o5)) => match runs_at(
                                    bytes,
                                    o5,
                                    change_id_len,
                                    header[3] as int,
                                ) {
                                    None => None,
                                    Some((change_ids, o6)) => match u32s_at(
                                        bytes,
                                        o6,
                                        header[4] as int,
                                    ) {
                                        None => None,
                                        Some((overflow_parents, o7)) => match u32s_at(
                                            bytes,
                                            o7,
                                            header[5] as int,
                                        ) {
                                            None => None,
                                            Some((overflow_changes, o8)) => if o8 == bytes.len() {
                                                Some(
                                                    RawView {
                                                        base_ref: header[1],
                                                        generations,
                                                        first_parents,
                                                        second_parents,
                                                        change_indices,
                                                        commit_ids,
                                                        change_ids,
                                                        overflow_parents,
                                                        overflow_changes,
                                                    },
                                                )
                                            } else {
                                                None
                                            },
                                        },
                                    },
                                },
                            },
                        },
                    },
                },
            }
        },
    }
}

/// Reads the arrays of a segment file.
pub fn read_raw(bytes: &Vec<u8>, commit_id_len: usize, change_id_len: usize) -> (raw: Option<
    RawSegment,
>)
    ensures
        match raw {
            Some(r) => raw_at(bytes@, commit_id_len as int, change_id_len as int) == Some(r@),
            None => raw_at(bytes@, commit_id_len as int, change_id_len as int) is None,
        },
{
    let (header, o0) = match read_u32s(bytes, 0, 6) {
        Some(read) => read,
        None => {
            return None;
        },
    };
    proof {
        lemma_u32s_len(bytes@, 0, 6);
    }
    if header[0] != FORMAT_VERSION {
        return None;
    }
    let n: u32 = header[2];
    let (generations, o1) = match read_u32s(bytes, o0, n) {
        Some(read) => read,
        None => {
            return None;
        },
    };
    let (first_parents, o2) = match read_u32s(bytes, o1, n) {
        Some(read) => read,
        None => {
            return None;
        },
    };
    let (second_parents, o3) = match read_u32s(bytes, o2, n) {
        Some(read) => read,
        None => {
            return None;
        },
    };
    let (change_indices, o4) = match read_u32s(bytes, o3, n) {
        Some(read) => read,
        None => {
            return None;
        },
    };
    let (commit_ids, o5) = match read_runs(bytes, o4, commit_id_len, n) {
        Some(read) => read,
        None => {
            return None;
        },
    };
    let (change_ids, o6) = match read_runs(bytes, o5, change_id_len, header[3]) {
        Some(read) => read,
        None => {
            return None;
        },
    };
    let (overflow_parents, o7) = match read_u32s(bytes, o6, header[4]) {
        Some(read) => read,
        None => {
            return None;
        },
    };
    let (overflow_changes, o8) = match read_u32s(bytes, o7, header[5]) {
        Some(read) => read,
        None => {
            return None;
        },
    };
    if o8 != bytes.len() {
        return None;
    }
    Some(
        RawSegment {
            base_ref: header[1],
            generations,
            first_parents,
            second_parents,
            change_indices,
            commit_ids,
            change_ids,
            overflow_parents,
            overflow_changes,
        },
    )
}

/// Writes the arrays of a segment as a file.
pub fn write_raw(raw: &RawSegment, commit_id_len: usize, change_id_len: usize) -> (bytes: Vec<u8>)
    requires
        raw_wf(raw@, commit_id_len as int, change_id_len as int),
    ensures
        raw_at(bytes@, commit_id_len as int, change_id_len as int) == Some(raw@),
{
    let mut header: Vec<u32> = Vec::new();
    header.push(FORMAT_VERSION);
    header.push(raw.base_ref);
    header.push(raw.generations.len() as u32);
    header.push(raw.change_ids.len() as u32);
    header.push(raw.overflow_parents.len() as u32);
    header.push(raw.overflow_changes.len() as u32);
    assert(header@ =~= header_of(raw@));
    let ghost n = raw.generations.len() as int;
    let mut bytes: Vec<u8> = Vec::new();
    write_u32s(&mut bytes, &header);
    let ghost b0 = bytes@;
    write_u32s(&mut bytes, &raw.generations);
    let ghost b1 = bytes@;
    write_u32s(&mut bytes, &raw.first_parents);
    let ghost b2 = bytes@;
    write_u32s(&mut bytes, &raw.second_parents);
    let ghost b3 = bytes@;
    write_u32s(&mut bytes, &raw.change_indices);
    let ghost b4 = bytes@;
    assert forall|i: int| 0 <= i < raw.commit_ids.len() implies (
    #[trigger] raw.commit_ids@[i]).len() == commit_id_len by {
        assert(run_views(raw.commit_ids@)[i].len() == commit_id_len);
    }
    write_runs(&mut bytes, &raw.commit_ids, commit_id_len);
    let ghost b5 = bytes@;
    assert forall|i: int| 0 <= i < raw.change_ids.len() implies (
    #[trigger] raw.change_ids@[i]).len() == change_id_len by {
        assert(run_views(raw.change_ids@)[i].len() == change_id_len);
    }
    write_runs(&mut bytes, &raw.change_ids, change_id_len);
    let ghost b6 = bytes@;
    write_u32s(&mut bytes, &raw.overflow_parents);
    let ghost b7 = bytes@;
    write_u32s(&mut bytes, &raw.overflow_changes);
    let ghost b8 = bytes@;
    proof {
        lemma_prefix_transitive(b6, b7, b8);
        lemma_prefix_transitive(b5, b6, b8);
        lemma_prefix_transitive(b4, b5, b8);
        lemma_prefix_transitive(b3, b4, b8);
        lemma_prefix_transitive(b2, b3, b8);
        lemma_prefix_transitive(b1, b2, b8);
        lemma_prefix_transitive(b0, b1, b8);
        lemma_u32s_at_prefix(b0, b8, 0, 6);
        lemma_u32s_at_prefix(b1, b8, b0.len() as int, n);
        lemma_u32s_at_prefix(b2, b8, b1.len() as int, n);
        lemma_u32s_at_prefix(b3, b8, b2.len() as int, n);
        lemma_u32s_at_prefix(b4, b8, b3.len() as int, n);
        lemma_runs_at_prefix(b5, b8, b4.len() as int, commit_id_len as int, n);
        lemma_runs_at_prefix(
            b6,
            b8,
            b5.len() as int,
            change_id_len as int,
            raw.change_ids.len() as int,
        );
        lemma_u32s_at_prefix(b7, b8, b6.len() as int, raw.overflow_parents.len() as int);
    }
    bytes
}

/// The positions as integers.
pub open spec fn position_ints(positions: Seq<u32>) -> Seq<int> {
    positions.map_values(|p: u32| p as int)
}

/// The parents that two parent fields stand for, if they stand for any.
///
/// Two empty fields stand for no parent, one filled field for one parent,
/// two for two. Two flagged fields stand for the parents in a stretch of
/// the overflow parents, of which there are three at least: the first
/// field gives the start of the stretch and the second its length.
pub open spec fn field_parents(first: u32, second: u32, overflow: Seq<u32>) -> Option<Seq<int>> {
    if first == NO_PARENT {
        if second == NO_PARENT {
            Some(Seq::empty())
        } else {
            None
        }
    } else if first >= OVERFLOW_FLAG {
        if second >= OVERFLOW_FLAG && second != NO_PARENT {
            let start = first - OVERFLOW_FLAG;
            let count = second - OVERFLOW_FLAG;
            if count >= 3 && start + count <= overflow.len() {
                Some(position_ints(overflow.subrange(start, start + count)))
            } else {
                None
            }
        } else {
            None
        }
    } else if second == NO_PARENT {
        Some(seq![first as int])
    } else if second >= OVERFLOW_FLAG {
        None
    } else {
        Some(seq![first as int, second as int])
    }
}

/// The entry that the arrays hold at `i`, if they hold one.
pub open spec fn raw_entry(raw: RawView, i: int) -> Option<EntryView> {
    match field_parents(raw.first_parents[i], raw.second_parents[i], raw.overflow_parents) {
        None => None,
        Some(parents) => if raw.change_indices[i] < raw.change_ids.len() {
            Some(
                EntryView {
                    commit_id: raw.commit_ids[i],
                    change_id: raw.change_ids[raw.change_indices[i] as int],
                    generation: raw.generations[i] as nat,
                    parents,
                },
            )
        } else {
            None
        },
    }
}

/// The places among the first `upto` whose number stands at an earlier
/// place too.
pub open spec fn repeats_upto(indices: Seq<u32>, upto: int) -> Seq<u32>
    decreases upto,
{
    if upto <= 0 {
        Seq::empty()
    } else {
        let before = repeats_upto(indices, upto - 1);
        if indices.subrange(0, upto - 1).contains(indices[upto - 1]) {
            before.push((upto - 1) as u32)
        } else {
            before
        }
    }
}

/// A segment as it is stored: its entries and the id of its base segment.
#[derive(Debug)]
pub struct StoredSegment {
    pub base: Option<u32>,
    pub entries: Vec<IndexEntry>,
}

/// A stored segment as plain values.
pub struct StoredView {
    pub base: Option<u32>,
    pub entries: Seq<EntryView>,
}

impl View for StoredSegment {
    type V = StoredView;

    open spec fn view(&self) -> StoredView {
        StoredView { base: self.base, entries: entry_views(self.entries@) }
    }
}

/// The base that a reference in a header stands for.
pub open spec fn base_of(base_ref: u32) -> Option<u32> {
    if base_ref == 0 {
        None
    } else {
        Some((base_ref - 1) as u32)
    }
}

/// Whether the arrays hold an entry at every place.
pub open spec fn entries_decode(raw: RawView) -> bool {
    forall|i: int| 0 <= i < raw.generations.len() ==> (#[trigger] raw_entry(raw, i)) is Some
}

/// The segment that the arrays hold, if they hold one: every place holds
/// an entry, and the overflow change positions are the places whose change
/// id stands at an earlier place too.
pub open spec fn segment_of(raw: RawView) -> Option<StoredView> {
    if entries_decode(raw) && raw.overflow_changes == repeats_upto(
        raw.change_indices,
        raw.generations.len() as int,
    ) {
        Some(
            StoredView {
                base: base_of(raw.base_ref),
                entries: Seq::new(raw.generations.len(), |i: int| raw_entry(raw, i)->0),
            },
        )
    } else {
        None
    }
}

/// The segment that a file holds, if it holds one.
pub open spec fn parsed_segment(bytes: Seq<u8>, commit_id_len: int, change_id_len: int) -> Option<
    StoredView,
> {
    match raw_at(bytes, commit_id_len, change_id_len) {
        Some(raw) => segment_of(raw),
        None => None,
    }
}

/// Reads the parents that two parent fields stand for.
pub fn decode_parents(first: u32, second: u32, overflow: &Vec<u32>) -> (parents: Option<Vec<u32>>)
    ensures
        match parents {
            Some(p) => field_parents(first, second, overflow@) == Some(position_ints(p@)),
            None => field_parents(first, second, overflow@) is None,
        },
{
    let mut parents: Vec<u32> = Vec::new();
    if first == NO_PARENT {
        if second == NO_PARENT {
            assert(position_ints(parents@) =~= Seq::<int>::empty());
            Some(parents)
        } else {
            None
        }
    } else if first >= OVERFLOW_FLAG {
        if second >= OVERFLOW_FLAG && second != NO_PARENT {
            let start: u32 = first - OVERFLOW_FLAG;
            let count: u32 = second - OVERFLOW_FLAG;
            if count >= 3 && start as u64 + count as u64 <= overflow.len() as u64 {
                let mut k: u32 = 0;
                while k < count
                    invariant
                        start + count <= overflow.len(),
                        start + count <= u32::MAX,
                        k <= count,
                        parents@ == overflow@.subrange(start as int, start + k),
                    decreases count - k,
                {
                    parents.push(overflow[(start + k) as usize]);
                    assert(overflow@.subrange(start as int, start + k + 1) == overflow@.subrange(
                        start as int,
                        start + k,
                    ).push(overflow@[start + k]));
                    k += 1;
                }
                Some(parents)
            } else {
                None
            }
        } else {
            None
        }
    } else if second == NO_PARENT {
        parents.push(first);
        assert(position_ints(parents@) =~= seq![first as int]);
        Some(parents)
    } else if second >= OVERFLOW_FLAG {
        None
    } else {
        parents.push(first);
        parents.push(second);
        assert(position_ints(parents@) =~= seq![first as int, second as int]);
        Some(parents)
    }
}

/// Lists the places whose number stands at an earlier place too.
pub fn compute_repeats(indices: &Vec<u32>) -> (repeats: Vec<u32>)
    requires
        indices.len() <= u32::MAX,
    ensures
        repeats@ == repeats_upto(indices@, indices.len() as int),
{
    let mut repeats: Vec<u32> = Vec::new();
    let mut i: usize = 0;
    while i < indices.len()
        invariant
            indices.len() <= u32::MAX,
            i <= indices.len(),
            repeats@ == repeats_upto(indices@, i as int),
        decreases indices.len() - i,
    {
        let mut found: bool = false;
        let mut j: usize = 0;
        while j < i && !found
            invariant
                i < indices.len(),
                j <= i,
                found ==> indices@.subrange(0, i as int).contains(indices@[i as int]),
                !found ==> forall|m: int| 0 <= m < j ==> #[trigger] indices@[m] != indices@[i as int],
            decreases
                    i - j,
                    if found {
                        0int
                    } else {
                        1int
                    },
        {
            if indices[j] == indices[i] {
                found = true;
                assert(indices@.subrange(0, i as int)[j as int] == indices@[i as int]);
            } else {
                j += 1;
            }
        }
        proof {
            if !found && indices@.subrange(0, i as int).contains(indices@[i as int]) {
                let m = choose|m: int|
                    0 <= m < i && indices@.subrange(0, i as int)[m] == indices@[i as int];
                assert(indices@[m] == indices@[i as int]);
            }
        }
        if found {
            repeats.push(i as u32);
        }
        i += 1;
    }
    repeats
}

/// Whether two lists of numbers are the same.
pub fn numbers_equal(a: &Vec<u32>, b: &Vec<u32>) -> (same: bool)
    ensures
        same == (a@ == b@),
{
    if a.len() != b.len() {
        return false;
    }
    let mut i: usize = 0;
    while i < a.len()
        invariant
            a.len() == b.len(),
            i <= a.len(),
            a@.subrange(0, i as int) == b@.subrange(0, i as int),
        decreases a.len() - i,
    {
        if a[i] != b[i] {
            return false;
        }
        assert(a@.subrange(0, i + 1) == a@.subrange(0, i as int).push(a@[i as int]));
        assert(b@.subrange(0, i + 1) == b@.subrange(0, i as int).push(b@[i as int]));
        i += 1;
    }
    assert(a@ == a@.subrange(0, a.len() as int));
    assert(b@ == b@.subrange(0, b.len() as int));
    true
}

/// What a decoded segment holds, as plain values.
pub open spec fn stored_view(segment: Option<StoredSegment>) -> Option<StoredView> {
    match segment {
        Some(s) => Some(s@),
        None => None,
    }
}

/// Reads a segment from a file. A file that holds no segment gives
/// nothing.
pub fn decode_segment(bytes: &Vec<u8>, commit_id_len: usize, change_id_len: usize) -> (segment:
    Option<StoredSegment>)
    ensures
        stored_view(segment) == parsed_segment(
            bytes@,
            commit_id_len as int,
            change_id_len as int,
        ),
{
    let raw = match read_raw(bytes, commit_id_len, change_id_len) {
        Some(raw) => raw,
        None => {
            return None;
        },
    };
    let ghost view = raw@;
    proof {
        lemma_raw_lengths(bytes@, commit_id_len as int, change_id_len as int);
    }
    let n: usize = raw.generations.len();
    let mut entries: Vec<IndexEntry> = Vec::new();
    let mut i: usize = 0;
    while i < n
        invariant
            view == raw@,
            raw_at(bytes@, commit_id_len as int, change_id_len as int) == Some(view),
            n == raw.generations.len(),
            n <= u32::MAX,
            raw.first_parents.len() == n,
            raw.second_parents.len() == n,
            raw.change_indices.len() == n,
            raw.commit_ids.len() == n,
            i <= n,
            entries.len() == i,
            forall|j: int| 0 <= j < i ==> raw_entry(view, j) == Some((#[trigger] entries@[j])@),
        decreases n - i,
    {
        let parents = match decode_parents(
            raw.first_parents[i],
            raw.second_parents[i],
            &raw.overflow_parents,
        ) {
            Some(parents) => parents,
            None => {
                assert(raw_entry(view, i as int) is None);
                return None;
            },
        };
        let index: u32 = raw.change_indices[i];
        if index as usize >= raw.change_ids.len() {
            assert(raw_entry(view, i as int) is None);
            return None;
        }
        assert(view.commit_ids[i as int] == raw.commit_ids@[i as int]@);
        assert(view.change_ids[index as int] == raw.change_ids@[index as int]@);
        let entry = IndexEntry {
            commit_id: CommitId::new(bytes_copy(&raw.commit_ids[i])),
            change_id: ChangeId::new(bytes_copy(&raw.change_ids[index as usize])),
            generation_number: raw.generations[i],
            parent_positions: parents,
        };
        assert(raw_entry(view, i as int) == Some(entry@));
        entries.push(entry);
        i += 1;
    }
    let repeats = compute_repeats(&raw.change_indices);
    if !numbers_equal(&repeats, &raw.overflow_changes) {
        return None;
    }
    let base: Option<u32> = if raw.base_ref == 0 {
        None
    } else {
        Some(raw.base_ref - 1)
    };
    let segment = StoredSegment { base, entries };
    proof {
        assert forall|j: int| 0 <= j < view.generations.len() implies (#[trigger] raw_entry(
            view,
            j,
        )) is Some by {
            assert(raw_entry(view, j) == Some(entries@[j]@));
        }
        assert(entries_decode(view));
        assert forall|j: int| 0 <= j < n implies segment@.entries[j] == raw_entry(view, j)->0 by {
            assert(raw_entry(view, j) == Some(entries@[j]@));
        }
        assert(segment@.entries =~= Seq::new(n as nat, |j: int| raw_entry(view, j)->0));
    }
    Some(segment)
}

/// The arrays that a file holds agree in their lengths.
pub proof fn lemma_raw_lengths(bytes: Seq<u8>, commit_id_len: int, change_id_len: int)
    requires
        raw_at(bytes, commit_id_len, change_id_len) is Some,
    ensures
        ({
            let raw = raw_at(bytes, commit_id_len, change_id_len)->0;
            &&& raw.generations.len() <= u32::MAX
            &&& raw.first_parents.len() == raw.generations.len()
            &&& raw.second_parents.len() == raw.generations.len()
            &&& raw.change_indices.len() == raw.generations.len()
            &&& raw.commit_ids.len() == raw.generations.len()
        }),
{
    lemma_u32s_len(bytes, 0, 6);
    let header = crate::index::bytes::u32s_read(bytes, 0, 6);
    let n = header[2] as int;
    let o0 = match u32s_at(bytes, 0, 6) {
        Some((items, next)) => next,
        None => 0,
    };
    lemma_u32s_len(bytes, o0, n);
    let o1 = match u32s_at(bytes, o0, n) {
        Some((items, next)) => next,
        None => 0,
    };
    lemma_u32s_len(bytes, o1, n);
    let o2 = match u32s_at(bytes, o1, n) {
        Some((items, next)) => next,
        None => 0,
    };
    lemma_u32s_len(bytes, o2, n);
    let o3 = match u32s_at(bytes, o2, n) {
        Some((items, next)) => next,
        None => 0,
    };
    lemma_u32s_len(bytes, o3, n);
    let o4 = match u32s_at(bytes, o3, n) {
        Some((items, next)) => next,
        None => 0,
    };
    lemma_runs_len(bytes, o4, commit_id_len, n);
}

/// The number of overflow parents that the first `upto` entries need: the
/// parents of the entries with more than two.
pub open spec fn overflow_needed(entries: Seq<EntryView>, upto: int) -> int
    decreases upto,
{
    if upto <= 0 {
        0
    } else {
        overflow_needed(entries, upto - 1) + if entries[upto - 1].parents.len() > 2 {
            entries[upto - 1].parents.len() as int
        } else {
            0int
        }
    }
}

/// The most overflow parents that a file can refer to.
pub open spec fn overflow_limit() -> int {
    0x7fff_ffff
}

/// Whether the parents of an entry stand below the flag.
pub open spec fn parents_below_flag(parents: Seq<int>) -> bool {
    forall|k: int| 0 <= k < parents.len() ==> #[trigger] parents[k] < OVERFLOW_FLAG
}

/// Whether the entry at `i` can be stored: its ids have the lengths of
/// their kinds, its parents fit the parent fields where it has two at
/// most, and the overflow parents up to its own can be referred to where
/// it has more.
pub open spec fn entry_storable(
    entries: Seq<EntryView>,
    i: int,
    commit_id_len: int,
    change_id_len: int,
) -> bool {
    &&& entries[i].commit_id.len() == commit_id_len
    &&& entries[i].change_id.len() == change_id_len
    &&& entries[i].parents.len() <= 2 ==> parents_below_flag(entries[i].parents)
    &&& entries[i].parents.len() > 2 ==> overflow_needed(entries, i + 1) < overflow_limit()
}

/// Whether a segment can be stored.
pub open spec fn storable(
    entries: Seq<EntryView>,
    base: Option<u32>,
    commit_id_len: int,
    change_id_len: int,
) -> bool {
    &&& entries.len() <= u32::MAX
    &&& base is Some ==> base->0 < u32::MAX
    &&& forall|i: int|
        0 <= i < entries.len() ==> #[trigger] entry_storable(
            entries,
            i,
            commit_id_len,
            change_id_len,
        )
}

/// Parent fields that stand for parents stand for the same parents when
/// overflow parents are added.
pub proof fn lemma_field_parents_stable(first: u32, second: u32, overflow: Seq<u32>, more: Seq<u32>)
    requires
        field_parents(first, second, overflow) is Some,
    ensures
        field_parents(first, second, overflow + more) == field_parents(first, second, overflow),
{
    if first != NO_PARENT && first >= OVERFLOW_FLAG {
        let start = first - OVERFLOW_FLAG;
        let count = second - OVERFLOW_FLAG;
        assert((overflow + more).subrange(start, start + count) =~= overflow.subrange(
            start,
            start + count,
        ));
    }
}

/// The place of a change id in the table of change ids, which gets the id
/// at its end where it does not hold it yet.
fn intern_change_id(table: &mut Vec<Vec<u8>>, id: &Vec<u8>) -> (index: u32)
    requires
        old(table).len() < u32::MAX,
    ensures
        index < final(table).len(),
        run_views(final(table)@)[index as int] == id@,
        final(table).len() == old(table).len() || final(table).len() == old(table).len() + 1,
        run_views(final(table)@).subrange(0, old(table).len() as int) == run_views(old(table)@),
        forall|j: int|
            0 <= j < final(table).len() ==> (#[trigger] final(table)@[j]).len() == (if j
                < old(table).len() {
                old(table)@[j].len()
            } else {
                id.len()
            }),
{
    let mut k: usize = 0;
    while k < table.len()
        invariant
            table@ == old(table)@,
            table.len() < u32::MAX,
            k <= table.len(),
        decreases table.len() - k,
    {
        if bytes_equal(&table[k], id) {
            assert(run_views(table@).subrange(0, table.len() as int) =~= run_views(table@));
            return k as u32;
        }
        k += 1;
    }
    let index: u32 = table.len() as u32;
    table.push(bytes_copy(id));
    assert(run_views(table@).subrange(0, old(table).len() as int) =~= run_views(old(table)@));
    index
}

/// The arrays made of the given pieces, without overflow change positions.
pub open spec fn arrays_of(
    base_ref: u32,
    generations: Seq<u32>,
    first_parents: Seq<u32>,
    second_parents: Seq<u32>,
    change_indices: Seq<u32>,
    commit_ids: Seq<Vec<u8>>,
    change_ids: Seq<Vec<u8>>,
    overflow_parents: Seq<u32>,
) -> RawView {
    RawView {
        base_ref,
        generations,
        first_parents,
        second_parents,
        change_indices,
        commit_ids: run_views(commit_ids),
        change_ids: run_views(change_ids),
        overflow_parents,
        overflow_changes: Seq::empty(),
    }
}

/// Writes a segment as a file. A segment that cannot be stored gives
/// nothing. What is written reads back as the segment.
pub fn encode_segment(
    entries: &Vec<IndexEntry>,
    base: Option<u32>,
    commit_id_len: usize,
    change_id_len: usize,
) -> (bytes: Option<Vec<u8>>)
    ensures
        bytes is Some <==> storable(
            entry_views(entries@),
            base,
            commit_id_len as int,
            change_id_len as int,
        ),
        bytes is Some ==> parsed_segment(bytes->0@, commit_id_len as int, change_id_len as int)
            == Some(StoredView { base, entries: entry_views(entries@) }),
{
    let ghost views = entry_views(entries@);
    let ghost lc = commit_id_len as int;
    let ghost lch = change_id_len as int;
    if entries.len() > u32::MAX as usize {
        return None;
    }
    let base_ref: u32 = match base {
        None => 0,
        Some(id) => {
            if id == u32::MAX {
                return None;
            }
            id + 1
        },
    };
    let mut generations: Vec<u32> = Vec::new();
    let mut first_parents: Vec<u32> = Vec::new();
    let mut second_parents: Vec<u32> = Vec::new();
    let mut change_indices: Vec<u32> = Vec::new();
    let mut commit_ids: Vec<Vec<u8>> = Vec::new();
    let mut change_ids: Vec<Vec<u8>> = Vec::new();
    let mut overflow_parents: Vec<u32> = Vec::new();
    let mut i: usize = 0;
    while i < entries.len()
        invariant
            views == entry_views(entries@),
            lc == commit_id_len,
            lch == change_id_len,
            entries.len() <= u32::MAX,
            i <= entries.len(),
            generations.len() == i,
            first_parents.len() == i,
            second_parents.len() == i,
            change_indices.len() == i,
            commit_ids.len() == i,
            change_ids.len() <= i,
            overflow_parents.len() == overflow_needed(views, i as int),
            overflow_parents.len() < overflow_limit(),
            forall|j: int| 0 <= j < i ==> #[trigger] entry_storable(views, j, lc, lch),
            forall|j: int|
                0 <= j < i ==> raw_entry(
                    arrays_of(
                        base_ref,
                        generations@,
                        first_parents@,
                        second_parents@,
                        change_indices@,
                        commit_ids@,
                        change_ids@,
                        overflow_parents@,
                    ),
                    j,
                ) == Some(#[trigger] views[j]),
            forall|j: int| 0 <= j < commit_ids.len() ==> (#[trigger] commit_ids@[j]).len() == lc,
            forall|j: int| 0 <= j < change_ids.len() ==> (#[trigger] change_ids@[j]).len() == lch,
        decreases entries.len() - i,
    {
        let entry = &entries[i];
        assert(views[i as int] == entry@);
        let ghost before = arrays_of(
            base_ref,
            generations@,
            first_parents@,
            second_parents@,
            change_indices@,
            commit_ids@,
            change_ids@,
            overflow_parents@,
        );
        if entry.commit_id.bytes.len() != commit_id_len || entry.change_id.bytes.len()
            != change_id_len {
            assert(!entry_storable(views, i as int, lc, lch));
            return None;
        }
        let parents = &entry.parent_positions;
        let first: u32;
        let second: u32;
        let ghost overflow_before = overflow_parents@;
        if parents.len() == 0 {
            first = NO_PARENT;
            second = NO_PARENT;
            assert(position_ints(parents@) =~= Seq::<int>::empty());
        } else if parents.len() == 1 {
            if parents[0] >= OVERFLOW_FLAG {
                assert(entry@.parents[0] == parents@[0] as int);
                assert(!parents_below_flag(entry@.parents));
                assert(!entry_storable(views, i as int, lc, lch));
                return None;
            }
            first = parents[0];
            second = NO_PARENT;
            assert(position_ints(parents@) =~= seq![first as int]);
        } else if parents.len() == 2 {
            if parents[0] >= OVERFLOW_FLAG || parents[1] >= OVERFLOW_FLAG {
                assert(entry@.parents[0] == parents@[0] as int);
                assert(entry@.parents[1] == parents@[1] as int);
                assert(!parents_below_flag(entry@.parents));
                assert(!entry_storable(views, i as int, lc, lch));
                return None;
            }
            first = parents[0];
            second = parents[1];
            assert(position_ints(parents@) =~= seq![first as int, second as int]);
        } else {
            let start: usize = overflow_parents.len();
            if parents.len() >= 0x7fff_ffff - start {
                assert(!entry_storable(views, i as int, lc, lch));
                return None;
            }
            first = OVERFLOW_FLAG + start as u32;
            second = OVERFLOW_FLAG + parents.len() as u32;
            let mut k: usize = 0;
            while k < parents.len()
                invariant
                    k <= parents.len(),
                    overflow_parents@ == overflow_before + parents@.subrange(0, k as int),
                decreases parents.len() - k,
            {
                overflow_parents.push(parents[k]);
                assert(overflow_parents@ =~= overflow_before + parents@.subrange(0, k + 1));
                k += 1;
            }
            proof {
                assert(parents@.subrange(0, parents.len() as int) =~= parents@);
                assert(overflow_parents@.subrange(start as int, start + parents.len())
                    =~= parents@);
            }
        }
        let ghost overflow_now = overflow_parents@;
        assert(field_parents(first, second, overflow_now) == Some(position_ints(parents@)));
        let ghost table_before = change_ids@;
        let index = intern_change_id(&mut change_ids, &entry.change_id.bytes);
        generations.push(entry.generation_number);
        first_parents.push(first);
        second_parents.push(second);
        change_indices.push(index);
        commit_ids.push(bytes_copy(&entry.commit_id.bytes));
        proof {
            let now = arrays_of(
                base_ref,
                generations@,
                first_parents@,
                second_parents@,
                change_indices@,
                commit_ids@,
                change_ids@,
                overflow_parents@,
            );
            let more = if parents.len() > 2 {
                parents@
            } else {
                Seq::<u32>::empty()
            };
            assert(overflow_now =~= overflow_before + more);
            assert forall|j: int| 0 <= j < i + 1 implies raw_entry(now, j) == Some(
                #[trigger] views[j],
            ) by {
                if j < i {
                    assert(raw_entry(before, j) == Some(views[j]));
                    lemma_field_parents_stable(
                        before.first_parents[j],
                        before.second_parents[j],
                        before.overflow_parents,
                        more,
                    );
                    assert(now.first_parents[j] == before.first_parents[j]);
                    assert(now.second_parents[j] == before.second_parents[j]);
                    assert(now.generations[j] == before.generations[j]);
                    assert(now.change_indices[j] == before.change_indices[j]);
                    assert(now.commit_ids[j] == before.commit_ids[j]);
                    let c = before.change_indices[j] as int;
                    assert(c < table_before.len());
                    assert(now.change_ids.subrange(0, table_before.len() as int)[c]
                        == before.change_ids[c]);
                } else {
                    assert(now.first_parents[j] == first);
                    assert(now.second_parents[j] == second);
                    assert(now.commit_ids[j] == entry.commit_id@);
                    assert(now.change_ids[index as int] == entry.change_id@);
                    assert(position_ints(parents@) == entry@.parents);
                }
            }
            assert forall|j: int| 0 <= j < i + 1 implies #[trigger] entry_storable(
                views,
                j,
                lc,
                lch,
            ) by {
                if j == i {
                    assert forall|k: int| 0 <= k < entry@.parents.len() && parents.len()
                        <= 2 implies #[trigger] entry@.parents[k] < OVERFLOW_FLAG by {
                        assert(entry@.parents[k] == parents@[k] as int);
                    }
                }
            }
        }
        i += 1;
    }
    let overflow_changes = compute_repeats(&change_indices);
    let ghost arrays = arrays_of(
        base_ref,
        generations@,
        first_parents@,
        second_parents@,
        change_indices@,
        commit_ids@,
        change_ids@,
        overflow_parents@,
    );
    let raw = RawSegment {
        base_ref,
        generations,
        first_parents,
        second_parents,
        change_indices,
        commit_ids,
        change_ids,
        overflow_parents,
        overflow_changes,
    };
    proof {
        let now = raw@;
        assert forall|j: int| 0 <= j < now.generations.len() implies (#[trigger] raw_entry(
            now,
            j,
        )) is Some && raw_entry(now, j)->0 == views[j] by {
            assert(raw_entry(arrays, j) == Some(views[j]));
            assert(raw_entry(now, j) == raw_entry(arrays, j));
        }
        assert(entries_decode(now));
        assert(Seq::new(now.generations.len(), |j: int| raw_entry(now, j)->0) =~= views);
        assert forall|j: int| 0 <= j < now.commit_ids.len() implies (
        #[trigger] now.commit_ids[j]).len() == lc by {
            assert(raw.commit_ids@[j].len() == lc);
        }
        assert forall|j: int| 0 <= j < now.change_ids.len() implies (
        #[trigger] now.change_ids[j]).len() == lch by {
            assert(raw.change_ids@[j].len() == lch);
        }
        lemma_repeats_len(now.change_indices, now.change_indices.len() as int);
    }
    Some(write_raw(&raw, commit_id_len, change_id_len))
}

/// The repeated places are at most as many as the places.
pub proof fn lemma_repeats_len(indices: Seq<u32>, upto: int)
    requires
        0 <= upto,
    ensures
        repeats_upto(indices, upto).len() <= upto,
    decreases upto,
{
    if upto > 0 {
        lemma_repeats_len(indices, upto - 1);
    }
}

} // verus!
