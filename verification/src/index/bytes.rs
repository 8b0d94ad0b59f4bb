//! Reading and writing the pieces of a segment file: numbers of four bytes,
//! least significant byte first, and runs of bytes of a given length.
//!
//! Pieces are read one after another from an offset. A read that would go
//! past the end of the file gives nothing.

use vstd::bytes::{
    lemma_auto_spec_u32_to_from_le_bytes, spec_u32_from_le_bytes, spec_u32_to_le_bytes,
    u32_from_le_bytes, u32_to_le_bytes,
};
use vstd::prelude::*;
use vstd::slice::slice_subrange;

verus! {

/// The number that the four bytes at `off` hold, if the file has them.
pub open spec fn u32_at(bytes: Seq<u8>, off: int) -> Option<u32> {
    if 0 <= off && off + 4 <= bytes.len() {
        Some(spec_u32_from_le_bytes(bytes.subrange(off, off + 4)))
    } else {
        None
    }
}

/// The `len` bytes at `off`, if the file has them.
pub open spec fn bytes_at(bytes: Seq<u8>, off: int, len: int) -> Option<Seq<u8>> {
    if 0 <= off && 0 <= len && off + len <= bytes.len() {
        Some(bytes.subrange(off, off + len))
    } else {
        None
    }
}

/// The first `count` numbers from `off` on, and the offset after them, if
/// the file has them.
pub open spec fn u32s_at(bytes: Seq<u8>, off: int, count: int) -> Option<(Seq<u32>, int)>
    decreases count,
{
    if count <= 0 {
        Some((Seq::empty(), off))
    } else {
        match u32s_at(bytes, off, count - 1) {
            Some((items, next)) => match u32_at(bytes, next) {
                Some(item) => Some((items.push(item), next + 4)),
                None => None,
            },
            None => None,
        }
    }
}

/// The first `count` runs of `len` bytes from `off` on, and the offset
/// after them, if the file has them.
pub open spec fn runs_at(bytes: Seq<u8>, off: int, len: int, count: int) -> Option<
    (Seq<Seq<u8>>, int),
>
    decreases count,
{
    if count <= 0 {
        Some((Seq::empty(), off))
    } else {
        match runs_at(bytes, off, len, count - 1) {
            Some((items, next)) => match bytes_at(bytes, next, len) {
                Some(item) => Some((items.push(item), next + len)),
                None => None,
            },
            None => None,
        }
    }
}

/// Reads the number at `off`.
pub fn read_u32(bytes: &Vec<u8>, off: usize) -> (value: Option<u32>)
    ensures
        value == u32_at(bytes@, off as int),
{
    if bytes.len() < 4 || off > bytes.len() - 4 {
        return None;
    }
    let piece = slice_subrange(bytes.as_slice(), off, off + 4);
    Some(u32_from_le_bytes(piece))
}

/// Reads the `len` bytes at `off`.
pub fn read_bytes(bytes: &Vec<u8>, off: usize, len: usize) -> (value: Option<Vec<u8>>)
    ensures
        match value {
            Some(run) => bytes_at(bytes@, off as int, len as int) == Some(run@),
            None => bytes_at(bytes@, off as int, len as int) is None,
        },
{
    if off > bytes.len() || len > bytes.len() - off {
        return None;
    }
    let mut run: Vec<u8> = Vec::new();
    let mut i: usize = 0;
    while i < len
        invariant
            off + len <= bytes.len(),
            i <= len,
            run@ == bytes@.subrange(off as int, off + i),
        decreases len - i,
    {
        run.push(bytes[off + i]);
        assert(bytes@.subrange(off as int, off + i + 1) == bytes@.subrange(
            off as int,
            off + i,
        ).push(bytes@[off + i]));
        i += 1;
    }
    Some(run)
}

/// Writes a number at the end of the file.
pub fn write_u32(bytes: &mut Vec<u8>, value: u32)
    ensures
        final(bytes)@ == old(bytes)@ + spec_u32_to_le_bytes(value),
        final(bytes)@.len() == old(bytes)@.len() + 4,
        u32_at(final(bytes)@, old(bytes)@.len() as int) == Some(value),
{
    let ghost before = bytes@;
    let mut piece = u32_to_le_bytes(value);
    bytes.append(&mut piece);
    proof {
        lemma_auto_spec_u32_to_from_le_bytes();
        assert(bytes@.subrange(before.len() as int, before.len() as int + 4) =~= spec_u32_to_le_bytes(
            value,
        ));
    }
}

/// Writes a run of bytes at the end of the file.
pub fn write_bytes(bytes: &mut Vec<u8>, run: &Vec<u8>)
    ensures
        final(bytes)@ == old(bytes)@ + run@,
        bytes_at(final(bytes)@, old(bytes)@.len() as int, run@.len() as int) == Some(run@),
{
    let ghost before = bytes@;
    let mut i: usize = 0;
    while i < run.len()
        invariant
            i <= run.len(),
            bytes@ == before + run@.subrange(0, i as int),
        decreases run.len() - i,
    {
        bytes.push(run[i]);
        assert(bytes@ =~= before + run@.subrange(0, i + 1));
        i += 1;
    }
    assert(run@.subrange(0, run.len() as int) =~= run@);
    assert(bytes@.subrange(before.len() as int, before.len() as int + run@.len()) =~= run@);
}

/// What is read from the start of a file is read from every file that
/// starts with it.
pub open spec fn is_prefix(short: Seq<u8>, long: Seq<u8>) -> bool {
    short.len() <= long.len() && long.subrange(0, short.len() as int) == short
}

/// A file that is made longer starts with what it was.
pub proof fn lemma_prefix_of_longer(short: Seq<u8>, more: Seq<u8>)
    ensures
        is_prefix(short, short + more),
{
    assert((short + more).subrange(0, short.len() as int) =~= short);
}

/// Being the start of a file carries over to the starts of that file.
pub proof fn lemma_prefix_transitive(a: Seq<u8>, b: Seq<u8>, c: Seq<u8>)
    requires
        is_prefix(a, b),
        is_prefix(b, c),
    ensures
        is_prefix(a, c),
{
    assert(c.subrange(0, a.len() as int) =~= b.subrange(0, a.len() as int)) by {
        assert forall|i: int| 0 <= i < a.len() implies #[trigger] c.subrange(0, a.len() as int)[i]
            == b.subrange(0, a.len() as int)[i] by {
            assert(c.subrange(0, b.len() as int)[i] == b[i]);
        }
    }
}

/// A number read from the start of a file is read from every file that
/// starts with it.
pub proof fn lemma_u32_at_prefix(short: Seq<u8>, long: Seq<u8>, off: int)
    requires
        is_prefix(short, long),
        u32_at(short, off) is Some,
    ensures
        u32_at(long, off) == u32_at(short, off),
{
    assert(long.subrange(off, off + 4) =~= short.subrange(off, off + 4)) by {
        assert forall|i: int| 0 <= i < 4 implies #[trigger] long.subrange(off, off + 4)[i]
            == short.subrange(off, off + 4)[i] by {
            assert(long.subrange(0, short.len() as int)[off + i] == short[off + i]);
        }
    }
}

/// Bytes read from the start of a file are read from every file that
/// starts with it.
pub proof fn lemma_bytes_at_prefix(short: Seq<u8>, long: Seq<u8>, off: int, len: int)
    requires
        is_prefix(short, long),
        bytes_at(short, off, len) is Some,
    ensures
        bytes_at(long, off, len) == bytes_at(short, off, len),
{
    assert(long.subrange(off, off + len) =~= short.subrange(off, off + len)) by {
        assert forall|i: int| 0 <= i < len implies #[trigger] long.subrange(off, off + len)[i]
            == short.subrange(off, off + len)[i] by {
            assert(long.subrange(0, short.len() as int)[off + i] == short[off + i]);
        }
    }
}

/// Numbers read from the start of a file are read from every file that
/// starts with it.
pub proof fn lemma_u32s_at_prefix(short: Seq<u8>, long: Seq<u8>, off: int, count: int)
    requires
        is_prefix(short, long),
        u32s_at(short, off, count) is Some,
    ensures
        u32s_at(long, off, count) == u32s_at(short, off, count),
    decreases count,
{
    if count > 0 {
        lemma_u32s_at_prefix(short, long, off, count - 1);
        let read = u32s_at(short, off, count - 1)->0;
        let next = read.1;
        lemma_u32_at_prefix(short, long, next);
    }
}

/// Runs read from the start of a file are read from every file that starts
/// with it.
pub proof fn lemma_runs_at_prefix(short: Seq<u8>, long: Seq<u8>, off: int, len: int, count: int)
    requires
        is_prefix(short, long),
        runs_at(short, off, len, count) is Some,
    ensures
        runs_at(long, off, len, count) == runs_at(short, off, len, count),
    decreases count,
{
    if count > 0 {
        lemma_runs_at_prefix(short, long, off, len, count - 1);
        let read = runs_at(short, off, len, count - 1)->0;
        let next = read.1;
        lemma_bytes_at_prefix(short, long, next, len);
    }
}

/// Reads `count` numbers from `off` on.
pub fn read_u32s(bytes: &Vec<u8>, off: usize, count: u32) -> (read: Option<(Vec<u32>, usize)>)
    ensures
        match read {
            Some((items, next)) => u32s_at(bytes@, off as int, count as int) == Some(
                (items@, next as int),
            ),
            None => u32s_at(bytes@, off as int, count as int) is None,
        },
{
    let mut items: Vec<u32> = Vec::new();
    let mut next: usize = off;
    let mut i: u32 = 0;
    while i < count
        invariant
            i <= count,
            u32s_at(bytes@, off as int, i as int) == Some((items@, next as int)),
        decreases count - i,
    {
        match read_u32(bytes, next) {
            Some(item) => {
                assert(u32_at(bytes@, next as int) is Some);
                assert(next + 4 <= bytes.len());
                items.push(item);
                next = next + 4;
            },
            None => {
                proof {
                    lemma_u32s_fail_stays(bytes@, off as int, i + 1, count as int);
                }
                return None;
            },
        }
        i += 1;
    }
    Some((items, next))
}

/// Once numbers cannot be read, more of them cannot either.
pub proof fn lemma_u32s_fail_stays(bytes: Seq<u8>, off: int, at: int, count: int)
    requires
        0 <= at <= count,
        u32s_at(bytes, off, at) is None,
    ensures
        u32s_at(bytes, off, count) is None,
    decreases count - at,
{
    if at < count {
        lemma_u32s_fail_stays(bytes, off, at, count - 1);
    }
}

/// Once runs cannot be read, more of them cannot either.
pub proof fn lemma_runs_fail_stays(bytes: Seq<u8>, off: int, len: int, at: int, count: int)
    requires
        0 <= at <= count,
        runs_at(bytes, off, len, at) is None,
    ensures
        runs_at(bytes, off, len, count) is None,
    decreases count - at,
{
    if at < count {
        lemma_runs_fail_stays(bytes, off, len, at, count - 1);
    }
}

/// The views of runs of bytes, in their order.
pub open spec fn run_views(runs: Seq<Vec<u8>>) -> Seq<Seq<u8>> {
    runs.map_values(|r: Vec<u8>| r@)
}

/// Reads `count` runs of `len` bytes from `off` on.
pub fn read_runs(bytes: &Vec<u8>, off: usize, len: usize, count: u32) -> (read: Option<
    (Vec<Vec<u8>>, usize),
>)
    ensures
        match read {
            Some((items, next)) => runs_at(bytes@, off as int, len as int, count as int) == Some(
                (run_views(items@), next as int),
            ),
            None => runs_at(bytes@, off as int, len as int, count as int) is None,
        },
{
    let mut items: Vec<Vec<u8>> = Vec::new();
    let mut next: usize = off;
    let mut i: u32 = 0;
    assert(run_views(items@) =~= Seq::<Seq<u8>>::empty());
    while i < count
        invariant
            i <= count,
            runs_at(bytes@, off as int, len as int, i as int) == Some(
                (run_views(items@), next as int),
            ),
        decreases count - i,
    {
        let ghost before = run_views(items@);
        match read_bytes(bytes, next, len) {
            Some(item) => {
                assert(bytes_at(bytes@, next as int, len as int) is Some);
                assert(next + len <= bytes.len());
                items.push(item);
                assert(run_views(items@) =~= before.push(item@));
                next = next + len;
            },
            None => {
                proof {
                    lemma_runs_fail_stays(bytes@, off as int, len as int, i + 1, count as int);
                }
                return None;
            },
        }
        i += 1;
    }
    Some((items, next))
}

/// Writes numbers at the end of the file.
pub fn write_u32s(bytes: &mut Vec<u8>, items: &Vec<u32>)
    ensures
        is_prefix(old(bytes)@, final(bytes)@),
        u32s_at(final(bytes)@, old(bytes)@.len() as int, items.len() as int) == Some(
            (items@, final(bytes)@.len() as int),
        ),
{
    let ghost before = bytes@;
    let ghost start = before.len() as int;
    let mut i: usize = 0;
    proof {
        lemma_prefix_of_longer(before, Seq::<u8>::empty());
        assert(before + Seq::<u8>::empty() =~= before);
    }
    while i < items.len()
        invariant
            start == before.len(),
            i <= items.len(),
            is_prefix(before, bytes@),
            u32s_at(bytes@, start, i as int) == Some(
                (items@.subrange(0, i as int), bytes@.len() as int),
            ),
        decreases items.len() - i,
    {
        let ghost mid = bytes@;
        write_u32(bytes, items[i]);
        proof {
            lemma_prefix_of_longer(mid, vstd::bytes::spec_u32_to_le_bytes(items@[i as int]));
            lemma_prefix_transitive(before, mid, bytes@);
            lemma_u32s_at_prefix(mid, bytes@, start, i as int);
            assert(items@.subrange(0, i + 1) =~= items@.subrange(0, i as int).push(
                items@[i as int],
            ));
        }
        i += 1;
    }
    assert(items@.subrange(0, items.len() as int) =~= items@);
}

/// Writes runs of bytes at the end of the file.
pub fn write_runs(bytes: &mut Vec<u8>, items: &Vec<Vec<u8>>, len: usize)
    requires
        forall|i: int| 0 <= i < items.len() ==> (#[trigger] items@[i]).len() == len,
    ensures
        is_prefix(old(bytes)@, final(bytes)@),
        runs_at(final(bytes)@, old(bytes)@.len() as int, len as int, items.len() as int) == Some(
            (run_views(items@), final(bytes)@.len() as int),
        ),
{
    let ghost before = bytes@;
    let ghost start = before.len() as int;
    let mut i: usize = 0;
    proof {
        lemma_prefix_of_longer(before, Seq::<u8>::empty());
        assert(before + Seq::<u8>::empty() =~= before);
        assert(run_views(items@).subrange(0, 0) =~= Seq::<Seq<u8>>::empty());
    }
    while i < items.len()
        invariant
            start == before.len(),
            i <= items.len(),
            forall|j: int| 0 <= j < items.len() ==> (#[trigger] items@[j]).len() == len,
            is_prefix(before, bytes@),
            runs_at(bytes@, start, len as int, i as int) == Some(
                (run_views(items@).subrange(0, i as int), bytes@.len() as int),
            ),
        decreases items.len() - i,
    {
        let ghost mid = bytes@;
        write_bytes(bytes, &items[i]);
        proof {
            lemma_prefix_of_longer(mid, items@[i as int]@);
            lemma_prefix_transitive(before, mid, bytes@);
            lemma_runs_at_prefix(mid, bytes@, start, len as int, i as int);
            assert(run_views(items@).subrange(0, i + 1) =~= run_views(items@).subrange(
                0,
                i as int,
            ).push(items@[i as int]@));
        }
        i += 1;
    }
    assert(run_views(items@).subrange(0, items.len() as int) =~= run_views(items@));
}

/// The numbers that are read, without the offset after them.
pub open spec fn u32s_read(bytes: Seq<u8>, off: int, count: int) -> Seq<u32> {
    match u32s_at(bytes, off, count) {
        Some((items, next)) => items,
        None => Seq::empty(),
    }
}

/// The runs that are read, without the offset after them.
pub open spec fn runs_read(bytes: Seq<u8>, off: int, len: int, count: int) -> Seq<Seq<u8>> {
    match runs_at(bytes, off, len, count) {
        Some((items, next)) => items,
        None => Seq::empty(),
    }
}

/// Numbers that are read are as many as asked for.
pub proof fn lemma_u32s_len(bytes: Seq<u8>, off: int, count: int)
    requires
        0 <= count,
        u32s_at(bytes, off, count) is Some,
    ensures
        u32s_read(bytes, off, count).len() == count,
    decreases count,
{
    if count > 0 {
        lemma_u32s_len(bytes, off, count - 1);
    }
}

/// Runs that are read are as many as asked for, each of the length asked
/// for.
pub proof fn lemma_runs_len(bytes: Seq<u8>, off: int, len: int, count: int)
    requires
        0 <= count,
        runs_at(bytes, off, len, count) is Some,
    ensures
        runs_read(bytes, off, len, count).len() == count,
        forall|i: int|
            0 <= i < count ==> (#[trigger] runs_read(bytes, off, len, count)[i]).len() == len,
    decreases count,
{
    if count > 0 {
        lemma_runs_len(bytes, off, len, count - 1);
        let before = runs_read(bytes, off, len, count - 1);
        let now = runs_read(bytes, off, len, count);
        assert forall|i: int| 0 <= i < count implies (#[trigger] now[i]).len() == len by {
            if i < count - 1 {
                assert(now[i] == before[i]);
            }
        }
    }
}

} // verus!
