//! The files of the changed-path index.
//!
//! Every level of the index is one file. A file is known by what it holds:
//! a level that some file holds already, byte for byte, is not written a
//! second time, so a level that outlives a transaction keeps its file. The
//! id of a file is its place in the order in which the files were written.

use vstd::prelude::*;
use crate::ids::{bytes_copy, bytes_equal};
use crate::index::changed_path::{
    law_path_levels_hold_every_commit, path_level_sizes, ChangedPathIndex, ChangedPathSegment,
};
use crate::index::error::{IndexError, IndexErrorView};
use crate::index::levels::{halves_at, keeps_order_at, levels_skew_balanced, total_size};
use crate::index::path_format::{decode_paths, encode_paths, parsed_paths, paths_file, paths_fit};

verus! {

/// The files of the changed-path index, by id.
#[derive(Debug)]
pub struct ChangedPathStore {
    pub files: Vec<Vec<u8>>,
}

/// The place of the first file from `from` on that holds exactly the
/// bytes, or the number of files where none does.
pub open spec fn first_holding(files: Seq<Vec<u8>>, bytes: Seq<u8>, from: int) -> int
    decreases files.len() - from,
{
    if from < 0 || from >= files.len() {
        files.len() as int
    } else if files[from]@ == bytes {
        from
    } else {
        first_holding(files, bytes, from + 1)
    }
}

/// The first place of the bytes is a place of them, and no place before
/// it is.
pub proof fn lemma_first_holding(files: Seq<Vec<u8>>, bytes: Seq<u8>, from: int)
    requires
        0 <= from <= files.len(),
    ensures
        from <= first_holding(files, bytes, from) <= files.len(),
        first_holding(files, bytes, from) < files.len() ==> files[first_holding(
            files,
            bytes,
            from,
        )]@ == bytes,
        forall|k: int| from <= k < first_holding(files, bytes, from) ==> (#[trigger] files[k])@ != bytes,
    decreases files.len() - from,
{
    if from < files.len() && files[from]@ != bytes {
        lemma_first_holding(files, bytes, from + 1);
    }
}

/// The level that the file with the id holds, or the reason why it cannot
/// be read: there is no such file, or the file holds no level.
pub open spec fn stored_level(files: Seq<Vec<u8>>, id: u32) -> Result<
    Seq<Seq<Seq<char>>>,
    IndexErrorView,
> {
    if id >= files.len() {
        Err(IndexErrorView::MissingSegment(id))
    } else {
        match parsed_paths(files[id as int]@) {
            Some(level) => Ok(level),
            None => Err(IndexErrorView::CorruptSegment(id)),
        }
    }
}

/// The levels that the files with the first `upto` ids hold, or the
/// reason why the first of them that cannot be read cannot.
pub open spec fn stored_levels(files: Seq<Vec<u8>>, ids: Seq<u32>, upto: int) -> Result<
    Seq<Seq<Seq<Seq<char>>>>,
    IndexErrorView,
>
    decreases upto,
{
    if upto <= 0 {
        Ok(Seq::empty())
    } else {
        match stored_levels(files, ids, upto - 1) {
            Err(error) => Err(error),
            Ok(levels) => match stored_level(files, ids[upto - 1]) {
                Ok(level) => Ok(levels.push(level)),
                Err(error) => Err(error),
            },
        }
    }
}

/// Once a level cannot be read, the failure stays whatever follows.
pub proof fn lemma_stored_levels_error_stays(
    files: Seq<Vec<u8>>,
    ids: Seq<u32>,
    at: int,
    upto: int,
)
    requires
        0 <= at <= upto,
        stored_levels(files, ids, at) is Err,
    ensures
        stored_levels(files, ids, upto) == stored_levels(files, ids, at),
    decreases upto - at,
{
    if at < upto {
        lemma_stored_levels_error_stays(files, ids, at, upto - 1);
    }
}

/// What each level holds, as plain values.
pub open spec fn level_views(segments: Seq<ChangedPathSegment>) -> Seq<Seq<Seq<Seq<char>>>> {
    segments.map_values(|segment: ChangedPathSegment| segment@)
}

/// What a read level holds, as plain values.
pub open spec fn level_result_view(segment: Result<ChangedPathSegment, IndexError>) -> Result<
    Seq<Seq<Seq<char>>>,
    IndexErrorView,
> {
    match segment {
        Ok(s) => Ok(s@),
        Err(error) => Err(error@),
    }
}

/// Whether the index can be saved: every level can be written, and there
/// are ids left for as many files as it has levels.
pub open spec fn can_save_paths(store: ChangedPathStore, index: ChangedPathIndex) -> bool {
    &&& store.files.len() + index.segments.len() <= u32::MAX
    &&& forall|k: int| 0 <= k < index.segments.len() ==> paths_fit((#[trigger] index.segments[k])@)
}

/// The files that were there are there still, under their ids.
pub open spec fn files_kept(before: Seq<Vec<u8>>, after: Seq<Vec<u8>>) -> bool {
    before.len() <= after.len() && after.subrange(0, before.len() as int) == before
}

impl ChangedPathStore {
    /// A store without files.
    pub fn new() -> (store: ChangedPathStore)
        ensures
            store.files.len() == 0,
    {
        ChangedPathStore { files: Vec::new() }
    }

    /// The number of files.
    pub fn num_files(&self) -> (count: usize)
        ensures
            count == self.files.len(),
    {
        self.files.len()
    }

    /// Discards every file.
    pub fn reinit(&mut self)
        ensures
            final(self).files.len() == 0,
    {
        self.files = Vec::new();
    }

    /// The place of the first file that holds exactly the bytes.
    fn find_file(&self, bytes: &Vec<u8>) -> (at: usize)
        ensures
            at == first_holding(self.files@, bytes@, 0),
            at <= self.files.len(),
    {
        let mut k: usize = 0;
        while k < self.files.len()
            invariant
                k <= self.files.len(),
                first_holding(self.files@, bytes@, 0) == first_holding(self.files@, bytes@, k as int),
            decreases self.files.len() - k,
        {
            if bytes_equal(&self.files[k], bytes) {
                return k;
            }
            k += 1;
        }
        k
    }

    /// Puts the bytes of a level into the store, unless a file holds them
    /// already, and gives the id of the file that holds them.
    fn put_file(&mut self, bytes: Vec<u8>) -> (id: u32)
        requires
            old(self).files.len() < u32::MAX,
        ensures
            id == first_holding(old(self).files@, bytes@, 0),
            id < final(self).files.len(),
            final(self).files@[id as int]@ == bytes@,
            files_kept(old(self).files@, final(self).files@),
            final(self).files.len() == old(self).files.len() + if id < old(self).files.len() {
                0int
            } else {
                1int
            },
    {
        let at = self.find_file(&bytes);
        proof {
            lemma_first_holding(self.files@, bytes@, 0);
            assert(self.files@.subrange(0, self.files.len() as int) =~= self.files@);
        }
        if at == self.files.len() {
            let ghost before = self.files@;
            self.files.push(bytes);
            assert(self.files@.subrange(0, before.len() as int) =~= before);
        }
        at as u32
    }

    /// Writes a level as a file, unless a file holds what its file would
    /// hold, and gives the id of the file. Nothing is written where the
    /// level cannot be written or no id is left.
    pub fn write_segment(&mut self, segment: &ChangedPathSegment) -> (id: Option<u32>)
        ensures
            id is Some <==> paths_fit(segment@) && old(self).files.len() < u32::MAX,
            id is None ==> final(self).files@ == old(self).files@,
            files_kept(old(self).files@, final(self).files@),
            id is Some ==> {
                &&& id->0 == first_holding(old(self).files@, paths_file(segment@), 0)
                &&& final(self).files.len() == old(self).files.len() + if id->0 < old(
                    self,
                ).files.len() {
                    0int
                } else {
                    1int
                }
                &&& stored_level(final(self).files@, id->0) == Ok::<
                    Seq<Seq<Seq<char>>>,
                    IndexErrorView,
                >(segment@)
            },
    {
        assert(self.files@.subrange(0, self.files.len() as int) =~= self.files@);
        if self.files.len() >= u32::MAX as usize {
            return None;
        }
        match encode_paths(&segment.commits) {
            Some(bytes) => Some(self.put_file(bytes)),
            None => None,
        }
    }

    /// Reads the level that the file with the id holds.
    pub fn read_segment(&self, id: u32) -> (segment: Result<ChangedPathSegment, IndexError>)
        ensures
            level_result_view(segment) == stored_level(self.files@, id),
    {
        if id as usize >= self.files.len() {
            return Err(IndexError::MissingSegment(id));
        }
        match decode_paths(&self.files[id as usize]) {
            Some(commits) => Ok(ChangedPathSegment { commits }),
            None => Err(IndexError::CorruptSegment(id)),
        }
    }
}

/// Levels that are read from files that were kept are read as before.
pub proof fn lemma_stored_levels_kept(
    before: Seq<Vec<u8>>,
    after: Seq<Vec<u8>>,
    ids: Seq<u32>,
    upto: int,
)
    requires
        files_kept(before, after),
        0 <= upto <= ids.len(),
        stored_levels(before, ids, upto) is Ok,
    ensures
        stored_levels(after, ids, upto) == stored_levels(before, ids, upto),
    decreases upto,
{
    if upto > 0 {
        lemma_stored_levels_kept(before, after, ids, upto - 1);
        let id = ids[upto - 1];
        assert(stored_level(before, id) is Ok);
        assert(after.subrange(0, before.len() as int)[id as int] == before[id as int]);
    }
}

/// The number of commits in each level.
pub open spec fn level_lens(levels: Seq<Seq<Seq<Seq<char>>>>) -> Seq<int> {
    Seq::new(levels.len(), |k: int| levels[k].len() as int)
}

/// Whether levels make an index that starts at `start`: they are balanced
/// in the way of a skew counter, and the covered range ends within the
/// range of positions.
pub open spec fn levels_fit(start: u32, levels: Seq<Seq<Seq<Seq<char>>>>) -> bool {
    &&& levels_skew_balanced(level_lens(levels))
    &&& start + total_size(level_lens(levels)) <= u32::MAX
}

/// What loading gives, as plain values: the start, and the levels.
pub open spec fn loaded_view(index: Result<ChangedPathIndex, IndexError>) -> Result<
    (u32, Seq<Seq<Seq<Seq<char>>>>),
    IndexErrorView,
> {
    match index {
        Ok(i) => Ok((i.start, level_views(i.segments@))),
        Err(error) => Err(error@),
    }
}

/// What loading the levels with the ids gives: the index of those levels,
/// or the reason why a level cannot be read, or, where the levels that
/// were read make no index, that the file of the last is at fault.
pub open spec fn loaded_paths(files: Seq<Vec<u8>>, start: u32, ids: Seq<u32>) -> Result<
    (u32, Seq<Seq<Seq<Seq<char>>>>),
    IndexErrorView,
> {
    match stored_levels(files, ids, ids.len() as int) {
        Err(error) => Err(error),
        Ok(levels) => if levels_fit(start, levels) {
            Ok((start, levels))
        } else {
            Err(IndexErrorView::CorruptSegment(ids.last()))
        },
    }
}

/// Whether the levels make an index that starts at `start`.
pub fn check_path_levels(start: u32, segments: &Vec<ChangedPathSegment>) -> (ok: bool)
    ensures
        ok == levels_fit(start, level_views(segments@)),
{
    let ghost sizes = level_lens(level_views(segments@));
    let mut total: u64 = start as u64;
    let mut k: usize = 0;
    assert(sizes.subrange(0, 0) =~= Seq::<int>::empty());
    while k < segments.len()
        invariant
            sizes == level_lens(level_views(segments@)),
            sizes.len() == segments.len(),
            k <= segments.len(),
            total == start + total_size(sizes.subrange(0, k as int)),
            total <= u32::MAX,
            forall|j: int| 0 <= j < k ==> #[trigger] sizes[j] >= 1,
            forall|j: int| 0 <= j < k - 1 ==> #[trigger] keeps_order_at(sizes, j),
            forall|j: int| 0 <= j < k - 2 ==> #[trigger] halves_at(sizes, j),
        decreases segments.len() - k,
    {
        let size: usize = segments[k].commits.len();
        assert(sizes[k as int] == size) by {
            assert(level_views(segments@)[k as int] == segments@[k as int]@);
        }
        proof {
            assert(sizes.subrange(0, k + 1).drop_last() =~= sizes.subrange(0, k as int));
            crate::index::levels::lemma_total_at_least(sizes, k as int);
            lemma_total_grows(sizes, k + 1);
        }
        if size == 0 {
            return false;
        }
        if size > u32::MAX as usize || size as u64 > u32::MAX as u64 - total {
            return false;
        }
        if k > 0 {
            let before: usize = segments[k - 1].commits.len();
            assert(sizes[k - 1] == before) by {
                assert(level_views(segments@)[k - 1] == segments@[k - 1]@);
            }
            if before < size {
                assert(!keeps_order_at(sizes, k - 1));
                return false;
            }
            if k > 1 {
                let earlier: usize = segments[k - 2].commits.len();
                assert(sizes[k - 2] == earlier) by {
                    assert(level_views(segments@)[k - 2] == segments@[k - 2]@);
                }
                if earlier <= before || earlier - before <= before {
                    assert(!halves_at(sizes, k - 2));
                    return false;
                }
                assert(halves_at(sizes, k - 2));
            }
        }
        total = total + size as u64;
        k += 1;
    }
    assert(sizes.subrange(0, segments.len() as int) =~= sizes);
    true
}

/// The first levels hold no more commits than all of them, where every
/// level holds a commit or none.
pub proof fn lemma_total_grows(sizes: Seq<int>, upto: int)
    requires
        0 <= upto <= sizes.len(),
        forall|j: int| 0 <= j < sizes.len() ==> #[trigger] sizes[j] >= 0,
    ensures
        total_size(sizes.subrange(0, upto)) <= total_size(sizes),
    decreases sizes.len() - upto,
{
    if upto < sizes.len() {
        lemma_total_grows(sizes, upto + 1);
        assert(sizes.subrange(0, upto + 1).drop_last() =~= sizes.subrange(0, upto));
    } else {
        assert(sizes.subrange(0, upto) =~= sizes);
    }
}

impl ChangedPathStore {
    /// Saves the index: every level becomes a file, unless some file holds
    /// it already, and the ids of the files are given level by level.
    /// Where the index cannot be saved nothing is written.
    pub fn save(&mut self, index: &ChangedPathIndex) -> (ids: Option<Vec<u32>>)
        ensures
            ids is Some <==> can_save_paths(*old(self), *index),
            ids is None ==> final(self).files@ == old(self).files@,
            files_kept(old(self).files@, final(self).files@),
            final(self).files.len() <= old(self).files.len() + index.segments.len(),
            ids is Some ==> stored_levels(final(self).files@, ids->0@, ids->0.len() as int) == Ok::<
                Seq<Seq<Seq<Seq<char>>>>,
                IndexErrorView,
            >(level_views(index.segments@)),
    {
        let ghost views = level_views(index.segments@);
        let count: usize = index.segments.len();
        assert(self.files@.subrange(0, self.files.len() as int) =~= self.files@);
        if self.files.len() > u32::MAX as usize || count > u32::MAX as usize - self.files.len() {
            return None;
        }
        let mut encoded: Vec<Vec<u8>> = Vec::new();
        let mut j: usize = 0;
        while j < count
            invariant
                views == level_views(index.segments@),
                count == index.segments.len(),
                self.files@ == old(self).files@,
                files_kept(old(self).files@, self.files@),
                j <= count,
                encoded.len() == j,
                forall|m: int| 0 <= m < j ==> paths_fit((#[trigger] index.segments[m])@),
                forall|m: int|
                    0 <= m < j ==> (#[trigger] encoded@[m])@ == paths_file(views[m])
                        && parsed_paths(encoded@[m]@) == Some(views[m]),
            decreases count - j,
        {
            assert(views[j as int] == index.segments[j as int]@);
            match encode_paths(&index.segments[j].commits) {
                Some(bytes) => {
                    encoded.push(bytes);
                },
                None => {
                    return None;
                },
            }
            j += 1;
        }
        let ghost files_before = self.files@;
        let mut ids: Vec<u32> = Vec::new();
        let mut m: usize = 0;
        assert(views.subrange(0, 0) =~= Seq::<Seq<Seq<Seq<char>>>>::empty());
        while m < count
            invariant
                views == level_views(index.segments@),
                count == index.segments.len(),
                files_before == old(self).files@,
                files_before.len() + count <= u32::MAX,
                encoded.len() == count,
                m <= count,
                ids.len() == m,
                files_kept(files_before, self.files@),
                self.files.len() <= files_before.len() + m,
                forall|x: int|
                    0 <= x < count ==> parsed_paths((#[trigger] encoded@[x])@) == Some(views[x]),
                stored_levels(self.files@, ids@, m as int) == Ok::<
                    Seq<Seq<Seq<Seq<char>>>>,
                    IndexErrorView,
                >(views.subrange(0, m as int)),
            decreases count - m,
        {
            let ghost files_mid = self.files@;
            let ghost ids_mid = ids@;
            let bytes = bytes_copy(&encoded[m]);
            let id = self.put_file(bytes);
            ids.push(id);
            proof {
                assert(files_kept(files_before, self.files@)) by {
                    assert(self.files@.subrange(0, files_before.len() as int)
                        =~= files_mid.subrange(0, files_before.len() as int)) by {
                        assert forall|i: int| 0 <= i < files_before.len() implies self.files@[i]
                            == files_mid[i] by {
                            assert(self.files@.subrange(0, files_mid.len() as int)[i]
                                == files_mid[i]);
                        }
                    }
                }
                lemma_stored_levels_kept(files_mid, self.files@, ids_mid, m as int);
                lemma_stored_levels_same_ids(self.files@, ids_mid, ids@, m as int);
                assert(parsed_paths(encoded@[m as int]@) == Some(views[m as int]));
                assert(stored_level(self.files@, id) == Ok::<Seq<Seq<Seq<char>>>, IndexErrorView>(
                    views[m as int],
                ));
                assert(views.subrange(0, m + 1) =~= views.subrange(0, m as int).push(
                    views[m as int],
                ));
            }
            m += 1;
        }
        assert(views.subrange(0, count as int) =~= views);
        Some(ids)
    }

    /// Loads the index whose levels the files with the ids hold, oldest
    /// first, and which starts at `start`.
    pub fn load(&self, start: u32, ids: &Vec<u32>) -> (index: Result<ChangedPathIndex, IndexError>)
        ensures
            loaded_view(index) == loaded_paths(self.files@, start, ids@),
            index is Ok ==> index->Ok_0.wf(),
    {
        let mut segments: Vec<ChangedPathSegment> = Vec::new();
        let mut k: usize = 0;
        assert(level_views(segments@) =~= Seq::<Seq<Seq<Seq<char>>>>::empty());
        while k < ids.len()
            invariant
                k <= ids.len(),
                segments.len() == k,
                stored_levels(self.files@, ids@, k as int) == Ok::<
                    Seq<Seq<Seq<Seq<char>>>>,
                    IndexErrorView,
                >(level_views(segments@)),
            decreases ids.len() - k,
        {
            let ghost before = level_views(segments@);
            match self.read_segment(ids[k]) {
                Ok(segment) => {
                    let ghost level = segment@;
                    segments.push(segment);
                    assert(level_views(segments@) =~= before.push(level));
                },
                Err(error) => {
                    proof {
                        assert(stored_levels(self.files@, ids@, k + 1) == Err::<
                            Seq<Seq<Seq<Seq<char>>>>,
                            IndexErrorView,
                        >(error@));
                        lemma_stored_levels_error_stays(
                            self.files@,
                            ids@,
                            k + 1,
                            ids.len() as int,
                        );
                    }
                    return Err(error);
                },
            }
            k += 1;
        }
        if !check_path_levels(start, &segments) {
            assert(ids.len() > 0) by {
                if ids.len() == 0 {
                    assert(level_lens(level_views(segments@)) =~= Seq::<int>::empty());
                    assert(total_size(Seq::<int>::empty()) == 0);
                }
            }
            return Err(IndexError::CorruptSegment(ids[ids.len() - 1]));
        }
        let index = ChangedPathIndex { start, segments };
        proof {
            assert(index.levels() =~= level_lens(level_views(index.segments@))) by {
                assert forall|j: int| 0 <= j < index.segments.len() implies index.levels()[j]
                    == level_lens(level_views(index.segments@))[j] by {
                    assert(level_views(index.segments@)[j] == index.segments@[j]@);
                }
            }
            law_path_levels_hold_every_commit(index.segments@);
        }
        Ok(index)
    }
}

/// Levels are read by the ids alone: lists of ids that start alike give
/// the same levels as far as they are alike.
pub proof fn lemma_stored_levels_same_ids(
    files: Seq<Vec<u8>>,
    first: Seq<u32>,
    second: Seq<u32>,
    upto: int,
)
    requires
        0 <= upto <= first.len(),
        upto <= second.len(),
        forall|k: int| 0 <= k < upto ==> first[k] == second[k],
    ensures
        stored_levels(files, first, upto) == stored_levels(files, second, upto),
    decreases upto,
{
    if upto > 0 {
        lemma_stored_levels_same_ids(files, first, second, upto - 1);
    }
}

} // verus!
