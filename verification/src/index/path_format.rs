//! The file of one level of the changed-path index.
//!
//! A file holds the format version, the number of commits, and then commit
//! by commit the number of its changed paths and the paths themselves. A
//! path is written as the number of its bytes and its bytes in UTF-8. All
//! numbers take four bytes, least significant byte first. A file is what
//! the reading functions below make of it: bytes that they cannot read to
//! the end, and to the end only, are no file of this format.

use vstd::bytes::spec_u32_to_le_bytes;
use vstd::prelude::*;
use vstd::string::StrSliceExecFns;
use vstd::string::StringSliceAdditionalSpecFns;
use vstd::utf8::{decode_utf8, encode_utf8, encode_utf8_decode_utf8, encode_utf8_valid_utf8, valid_utf8};
use crate::index::bytes::{
    bytes_at, is_prefix, lemma_bytes_at_prefix, lemma_prefix_of_longer, lemma_prefix_transitive,
    lemma_u32_at_prefix, read_bytes, read_u32, u32_at, write_bytes, write_u32,
};
use crate::index::changed_path::commit_paths;
use crate::text::string_views;

verus! {

/// The version of the format that is written.
pub const PATHS_FORMAT_VERSION: u32 = 1;

/// Reads bytes as text.
///
/// Calls `String::from_utf8` of the standard library, which gives the
/// string that the bytes encode where they are valid UTF-8, and an error
/// where they are not. The contract says so in the terms in which the
/// verifier's library describes UTF-8. Nothing of it is proved here.
#[verifier::external_body]
pub(crate) fn text_from_utf8(bytes: Vec<u8>) -> (text: Option<String>)
    ensures
        text is Some <==> valid_utf8(bytes@),
        text is Some ==> text->0@ == decode_utf8(bytes@),
{
    String::from_utf8(bytes).ok()
}

/// The path at `off` and the offset after it, if the file has one there.
pub open spec fn path_at(bytes: Seq<u8>, off: int) -> Option<(Seq<char>, int)> {
    match u32_at(bytes, off) {
        Some(len) => match bytes_at(bytes, off + 4, len as int) {
            Some(run) => if valid_utf8(run) {
                Some((decode_utf8(run), off + 4 + len))
            } else {
                None
            },
            None => None,
        },
        None => None,
    }
}

/// The first `count` paths from `off` on and the offset after them, if the
/// file has them.
pub open spec fn paths_at(bytes: Seq<u8>, off: int, count: int) -> Option<(Seq<Seq<char>>, int)>
    decreases count,
{
    if count <= 0 {
        Some((Seq::empty(), off))
    } else {
        match paths_at(bytes, off, count - 1) {
            Some((paths, next)) => match path_at(bytes, next) {
                Some((path, end)) => Some((paths.push(path), end)),
                None => None,
            },
            None => None,
        }
    }
}

/// The changed paths of the commit at `off` and the offset after them, if
/// the file has them.
pub open spec fn commit_at(bytes: Seq<u8>, off: int) -> Option<(Seq<Seq<char>>, int)> {
    match u32_at(bytes, off) {
        Some(count) => paths_at(bytes, off + 4, count as int),
        None => None,
    }
}

/// The changed paths of the first `count` commits from `off` on and the
/// offset after them, if the file has them.
pub open spec fn commits_at(bytes: Seq<u8>, off: int, count: int) -> Option<
    (Seq<Seq<Seq<char>>>, int),
>
    decreases count,
{
    if count <= 0 {
        Some((Seq::empty(), off))
    } else {
        match commits_at(bytes, off, count - 1) {
            Some((commits, next)) => match commit_at(bytes, next) {
                Some((paths, end)) => Some((commits.push(paths), end)),
                None => None,
            },
            None => None,
        }
    }
}

/// What a file holds: the changed paths of its commits, where the bytes
/// are a file of this format.
pub open spec fn parsed_paths(bytes: Seq<u8>) -> Option<Seq<Seq<Seq<char>>>> {
    if u32_at(bytes, 0) != Some(PATHS_FORMAT_VERSION) {
        None
    } else {
        match u32_at(bytes, 4) {
            Some(count) => match commits_at(bytes, 8, count as int) {
                Some((commits, end)) => if end == bytes.len() {
                    Some(commits)
                } else {
                    None
                },
                None => None,
            },
            None => None,
        }
    }
}

/// A path read from the start of a file is read from every file that
/// starts with it.
pub proof fn lemma_path_at_prefix(short: Seq<u8>, long: Seq<u8>, off: int)
    requires
        is_prefix(short, long),
        path_at(short, off) is Some,
    ensures
        path_at(long, off) == path_at(short, off),
{
    lemma_u32_at_prefix(short, long, off);
    let len = u32_at(short, off)->0;
    lemma_bytes_at_prefix(short, long, off + 4, len as int);
}

/// Paths read from the start of a file are read from every file that
/// starts with it.
pub proof fn lemma_paths_at_prefix(short: Seq<u8>, long: Seq<u8>, off: int, count: int)
    requires
        is_prefix(short, long),
        paths_at(short, off, count) is Some,
    ensures
        paths_at(long, off, count) == paths_at(short, off, count),
    decreases count,
{
    if count > 0 {
        lemma_paths_at_prefix(short, long, off, count - 1);
        let read = paths_at(short, off, count - 1)->0;
        lemma_path_at_prefix(short, long, read.1);
    }
}

/// A commit read from the start of a file is read from every file that
/// starts with it.
pub proof fn lemma_commit_at_prefix(short: Seq<u8>, long: Seq<u8>, off: int)
    requires
        is_prefix(short, long),
        commit_at(short, off) is Some,
    ensures
        commit_at(long, off) == commit_at(short, off),
{
    lemma_u32_at_prefix(short, long, off);
    let count = u32_at(short, off)->0;
    lemma_paths_at_prefix(short, long, off + 4, count as int);
}

/// Commits read from the start of a file are read from every file that
/// starts with it.
pub proof fn lemma_commits_at_prefix(short: Seq<u8>, long: Seq<u8>, off: int, count: int)
    requires
        is_prefix(short, long),
        commits_at(short, off, count) is Some,
    ensures
        commits_at(long, off, count) == commits_at(short, off, count),
    decreases count,
{
    if count > 0 {
        lemma_commits_at_prefix(short, long, off, count - 1);
        let read = commits_at(short, off, count - 1)->0;
        lemma_commit_at_prefix(short, long, read.1);
    }
}

/// The bytes of a path in a file: the number of its bytes in UTF-8, and
/// those bytes.
pub open spec fn path_bytes(path: Seq<char>) -> Seq<u8> {
    spec_u32_to_le_bytes(encode_utf8(path).len() as u32) + encode_utf8(path)
}

/// The bytes of the first `upto` paths, one after another.
pub open spec fn paths_bytes(paths: Seq<Seq<char>>, upto: int) -> Seq<u8>
    decreases upto,
{
    if upto <= 0 {
        Seq::empty()
    } else {
        paths_bytes(paths, upto - 1) + path_bytes(paths[upto - 1])
    }
}

/// The bytes of the changed paths of a commit in a file: their number, and
/// the paths.
pub open spec fn commit_bytes(paths: Seq<Seq<char>>) -> Seq<u8> {
    spec_u32_to_le_bytes(paths.len() as u32) + paths_bytes(paths, paths.len() as int)
}

/// The bytes of the first `upto` commits, one after another.
pub open spec fn commits_bytes(commits: Seq<Seq<Seq<char>>>, upto: int) -> Seq<u8>
    decreases upto,
{
    if upto <= 0 {
        Seq::empty()
    } else {
        commits_bytes(commits, upto - 1) + commit_bytes(commits[upto - 1])
    }
}

/// The file of the changed paths of a run of commits: the version, the
/// number of the commits, and the commits.
pub open spec fn paths_file(commits: Seq<Seq<Seq<char>>>) -> Seq<u8> {
    spec_u32_to_le_bytes(PATHS_FORMAT_VERSION) + spec_u32_to_le_bytes(commits.len() as u32)
        + commits_bytes(commits, commits.len() as int)
}

/// Whether the path can be written: the number of its bytes fits in four
/// bytes.
pub open spec fn path_fits(path: Seq<char>) -> bool {
    encode_utf8(path).len() <= u32::MAX
}

/// Writes a path at the end of the file, where it can be written.
pub fn write_path(bytes: &mut Vec<u8>, path: &str) -> (written: bool)
    ensures
        written == path_fits(path@),
        is_prefix(old(bytes)@, final(bytes)@),
        written ==> final(bytes)@ == old(bytes)@ + path_bytes(path@),
        written ==> path_at(final(bytes)@, old(bytes)@.len() as int) == Some(
            (path@, final(bytes)@.len() as int),
        ),
        !written ==> final(bytes)@ == old(bytes)@,
{
    let ghost before = bytes@;
    let run = path.as_bytes_vec();
    proof {
        lemma_prefix_of_longer(before, Seq::<u8>::empty());
        assert(before + Seq::<u8>::empty() =~= before);
    }
    if run.len() > u32::MAX as usize {
        return false;
    }
    write_u32(bytes, run.len() as u32);
    let ghost mid = bytes@;
    write_bytes(bytes, &run);
    proof {
        lemma_prefix_of_longer(before, spec_u32_to_le_bytes(run.len() as u32));
        lemma_prefix_of_longer(mid, run@);
        lemma_prefix_transitive(before, mid, bytes@);
        lemma_u32_at_prefix(mid, bytes@, before.len() as int);
        encode_utf8_valid_utf8(path@);
        encode_utf8_decode_utf8(path@);
        assert(bytes@ =~= before + path_bytes(path@));
    }
    true
}

/// Reads the path at `off`.
pub fn read_path(bytes: &Vec<u8>, off: usize) -> (read: Option<(String, usize)>)
    ensures
        match read {
            Some((path, next)) => path_at(bytes@, off as int) == Some((path@, next as int))
                && next <= bytes.len(),
            None => path_at(bytes@, off as int) is None,
        },
{
    let len = match read_u32(bytes, off) {
        Some(len) => len,
        None => { return None; },
    };
    assert(u32_at(bytes@, off as int) is Some);
    assert(off + 4 <= bytes.len());
    let run = match read_bytes(bytes, off + 4, len as usize) {
        Some(run) => run,
        None => { return None; },
    };
    assert(bytes_at(bytes@, off + 4, len as int) is Some);
    assert(off + 4 + len <= bytes.len());
    match text_from_utf8(run) {
        Some(path) => Some((path, off + 4 + len as usize)),
        None => None,
    }
}

/// Once paths cannot be read, more of them cannot either.
pub proof fn lemma_paths_fail_stays(bytes: Seq<u8>, off: int, at: int, count: int)
    requires
        0 <= at <= count,
        paths_at(bytes, off, at) is None,
    ensures
        paths_at(bytes, off, count) is None,
    decreases count - at,
{
    if at < count {
        lemma_paths_fail_stays(bytes, off, at, count - 1);
    }
}

/// Once commits cannot be read, more of them cannot either.
pub proof fn lemma_commits_fail_stays(bytes: Seq<u8>, off: int, at: int, count: int)
    requires
        0 <= at <= count,
        commits_at(bytes, off, at) is None,
    ensures
        commits_at(bytes, off, count) is None,
    decreases count - at,
{
    if at < count {
        lemma_commits_fail_stays(bytes, off, at, count - 1);
    }
}

/// Whether the changed paths of a commit can be written: their number
/// fits in four bytes, and each of them can be written.
pub open spec fn commit_fits(paths: Seq<Seq<char>>) -> bool {
    &&& paths.len() <= u32::MAX
    &&& forall|i: int| 0 <= i < paths.len() ==> path_fits(#[trigger] paths[i])
}

/// Writes the changed paths of a commit at the end of the file, where
/// they can be written. Where they cannot, the file is left unfinished.
pub fn write_commit(bytes: &mut Vec<u8>, paths: &Vec<String>) -> (written: bool)
    ensures
        written == commit_fits(string_views(paths@)),
        written ==> is_prefix(old(bytes)@, final(bytes)@),
        written ==> final(bytes)@ == old(bytes)@ + commit_bytes(string_views(paths@)),
        written ==> commit_at(final(bytes)@, old(bytes)@.len() as int) == Some(
            (string_views(paths@), final(bytes)@.len() as int),
        ),
{
    let ghost before = bytes@;
    let ghost start = before.len() as int;
    let ghost views = string_views(paths@);
    if paths.len() > u32::MAX as usize {
        return false;
    }
    write_u32(bytes, paths.len() as u32);
    proof {
        lemma_prefix_of_longer(before, spec_u32_to_le_bytes(paths.len() as u32));
        assert(views.subrange(0, 0) =~= Seq::<Seq<char>>::empty());
        assert(bytes@ =~= before + spec_u32_to_le_bytes(paths.len() as u32) + paths_bytes(views, 0));
    }
    let mut i: usize = 0;
    while i < paths.len()
        invariant
            start == before.len(),
            views == string_views(paths@),
            paths.len() <= u32::MAX,
            i <= paths.len(),
            is_prefix(before, bytes@),
            u32_at(bytes@, start) == Some(paths.len() as u32),
            bytes@ == before + spec_u32_to_le_bytes(paths.len() as u32) + paths_bytes(
                views,
                i as int,
            ),
            paths_at(bytes@, start + 4, i as int) == Some(
                (views.subrange(0, i as int), bytes@.len() as int),
            ),
            forall|j: int| 0 <= j < i ==> path_fits(#[trigger] views[j]),
        decreases paths.len() - i,
    {
        let ghost mid = bytes@;
        assert(views[i as int] == paths@[i as int]@);
        if !write_path(bytes, paths[i].as_str()) {
            return false;
        }
        proof {
            lemma_prefix_transitive(before, mid, bytes@);
            lemma_u32_at_prefix(mid, bytes@, start);
            lemma_paths_at_prefix(mid, bytes@, start + 4, i as int);
            assert(views.subrange(0, i + 1) =~= views.subrange(0, i as int).push(views[i as int]));
            assert(bytes@ =~= before + spec_u32_to_le_bytes(paths.len() as u32) + paths_bytes(
                views,
                i + 1,
            ));
        }
        i += 1;
    }
    assert(views.subrange(0, paths.len() as int) =~= views);
    assert(bytes@ =~= before + commit_bytes(views));
    true
}

/// Reads the changed paths of the commit at `off`.
pub fn read_commit(bytes: &Vec<u8>, off: usize) -> (read: Option<(Vec<String>, usize)>)
    ensures
        match read {
            Some((paths, next)) => commit_at(bytes@, off as int) == Some(
                (string_views(paths@), next as int),
            ) && next <= bytes.len(),
            None => commit_at(bytes@, off as int) is None,
        },
{
    let count = match read_u32(bytes, off) {
        Some(count) => count,
        None => { return None; },
    };
    assert(u32_at(bytes@, off as int) is Some);
    assert(off + 4 <= bytes.len());
    let mut paths: Vec<String> = Vec::new();
    let mut next: usize = off + 4;
    let mut i: u32 = 0;
    assert(string_views(paths@) =~= Seq::<Seq<char>>::empty());
    while i < count
        invariant
            off + 4 <= bytes.len(),
            u32_at(bytes@, off as int) == Some(count),
            i <= count,
            next <= bytes.len(),
            paths_at(bytes@, off + 4, i as int) == Some((string_views(paths@), next as int)),
        decreases count - i,
    {
        let ghost before = string_views(paths@);
        match read_path(bytes, next) {
            Some((path, end)) => {
                paths.push(path);
                assert(string_views(paths@) =~= before.push(path@));
                next = end;
            },
            None => {
                proof {
                    assert(paths_at(bytes@, off + 4, i + 1) is None);
                    lemma_paths_fail_stays(bytes@, off + 4, i + 1, count as int);
                }
                return None;
            },
        }
        i += 1;
    }
    Some((paths, next))
}

/// Whether the changed paths of a run of commits can be written: the
/// number of the commits fits in four bytes, and the paths of each can be
/// written.
pub open spec fn paths_fit(commits: Seq<Seq<Seq<char>>>) -> bool {
    &&& commits.len() <= u32::MAX
    &&& forall|i: int| 0 <= i < commits.len() ==> commit_fits(#[trigger] commits[i])
}

/// Writes the file of the changed paths of a run of commits, where they
/// can be written. The file reads back as what was written.
pub fn encode_paths(commits: &Vec<Vec<String>>) -> (file: Option<Vec<u8>>)
    ensures
        file is Some <==> paths_fit(commit_paths(commits@)),
        file is Some ==> file->0@ == paths_file(commit_paths(commits@)),
        file is Some ==> parsed_paths(file->0@) == Some(commit_paths(commits@)),
{
    let ghost views = commit_paths(commits@);
    if commits.len() > u32::MAX as usize {
        return None;
    }
    let mut bytes: Vec<u8> = Vec::new();
    write_u32(&mut bytes, PATHS_FORMAT_VERSION);
    let ghost head = bytes@;
    write_u32(&mut bytes, commits.len() as u32);
    proof {
        lemma_prefix_of_longer(head, spec_u32_to_le_bytes(commits.len() as u32));
        lemma_u32_at_prefix(head, bytes@, 0);
        assert(views.subrange(0, 0) =~= Seq::<Seq<Seq<char>>>::empty());
        assert(bytes@ =~= spec_u32_to_le_bytes(PATHS_FORMAT_VERSION) + spec_u32_to_le_bytes(
            commits.len() as u32,
        ) + commits_bytes(views, 0));
    }
    let mut i: usize = 0;
    while i < commits.len()
        invariant
            views == commit_paths(commits@),
            commits.len() <= u32::MAX,
            i <= commits.len(),
            bytes@.len() >= 8,
            u32_at(bytes@, 0) == Some(PATHS_FORMAT_VERSION),
            u32_at(bytes@, 4) == Some(commits.len() as u32),
            bytes@ == spec_u32_to_le_bytes(PATHS_FORMAT_VERSION) + spec_u32_to_le_bytes(
                commits.len() as u32,
            ) + commits_bytes(views, i as int),
            commits_at(bytes@, 8, i as int) == Some(
                (views.subrange(0, i as int), bytes@.len() as int),
            ),
            forall|j: int| 0 <= j < i ==> commit_fits(#[trigger] views[j]),
        decreases commits.len() - i,
    {
        let ghost mid = bytes@;
        assert(views[i as int] == string_views(commits@[i as int]@));
        if !write_commit(&mut bytes, &commits[i]) {
            return None;
        }
        proof {
            lemma_u32_at_prefix(mid, bytes@, 0);
            lemma_u32_at_prefix(mid, bytes@, 4);
            lemma_commits_at_prefix(mid, bytes@, 8, i as int);
            assert(views.subrange(0, i + 1) =~= views.subrange(0, i as int).push(views[i as int]));
            assert(bytes@ =~= spec_u32_to_le_bytes(PATHS_FORMAT_VERSION) + spec_u32_to_le_bytes(
                commits.len() as u32,
            ) + commits_bytes(views, i + 1));
        }
        i += 1;
    }
    assert(views.subrange(0, commits.len() as int) =~= views);
    Some(bytes)
}

/// Reads the file of the changed paths of a run of commits. Bytes that
/// are no such file give nothing.
pub fn decode_paths(bytes: &Vec<u8>) -> (commits: Option<Vec<Vec<String>>>)
    ensures
        match commits {
            Some(read) => parsed_paths(bytes@) == Some(commit_paths(read@)),
            None => parsed_paths(bytes@) is None,
        },
{
    match read_u32(bytes, 0) {
        Some(version) => {
            if version != PATHS_FORMAT_VERSION {
                return None;
            }
        },
        None => { return None; },
    }
    let count = match read_u32(bytes, 4) {
        Some(count) => count,
        None => { return None; },
    };
    assert(u32_at(bytes@, 4) is Some);
    assert(8 <= bytes.len());
    let mut commits: Vec<Vec<String>> = Vec::new();
    let mut next: usize = 8;
    let mut i: u32 = 0;
    assert(commit_paths(commits@) =~= Seq::<Seq<Seq<char>>>::empty());
    while i < count
        invariant
            u32_at(bytes@, 0) == Some(PATHS_FORMAT_VERSION),
            u32_at(bytes@, 4) == Some(count),
            i <= count,
            next <= bytes.len(),
            commits_at(bytes@, 8, i as int) == Some((commit_paths(commits@), next as int)),
        decreases count - i,
    {
        let ghost before = commit_paths(commits@);
        match read_commit(bytes, next) {
            Some((paths, end)) => {
                let ghost read = string_views(paths@);
                commits.push(paths);
                assert(commit_paths(commits@) =~= before.push(read));
                next = end;
            },
            None => {
                proof {
                    assert(commits_at(bytes@, 8, i + 1) is None);
                    lemma_commits_fail_stays(bytes@, 8, i + 1, count as int);
                }
                return None;
            },
        }
        i += 1;
    }
    if next != bytes.len() {
        return None;
    }
    Some(commits)
}

} // verus!
