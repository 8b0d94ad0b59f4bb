//! Commit and change identifiers.
//!
//! Both are opaque byte strings. The index compares them and renders them in
//! hexadecimal; it never interprets their contents.

use vstd::prelude::*;
use vstd::string::StringExecFns;

verus! {

/// Whether two byte vectors hold the same bytes.
pub fn bytes_equal(a: &Vec<u8>, b: &Vec<u8>) -> (same: bool)
    ensures
        same == (a@ == b@),
{
    if a.len() != b.len() {
        return false;
    }
    let mut i: usize = 0;
    while i < a.len()
        invariant
            a.len() == b.len(),
            i <= a.len(),
            a@.subrange(0, i as int) == b@.subrange(0, i as int),
        decreases a.len() - i,
    {
        if a[i] != b[i] {
            return false;
        }
        assert(a@.subrange(0, i + 1) == a@.subrange(0, i as int).push(a@[i as int]));
        assert(b@.subrange(0, i + 1) == b@.subrange(0, i as int).push(b@[i as int]));
        i += 1;
    }
    assert(a@ == a@.subrange(0, a.len() as int));
    assert(b@ == b@.subrange(0, b.len() as int));
    true
}

/// A copy of a byte vector.
pub fn bytes_copy(a: &Vec<u8>) -> (copy: Vec<u8>)
    ensures
        copy@ == a@,
{
    let mut copy: Vec<u8> = Vec::new();
    let mut i: usize = 0;
    while i < a.len()
        invariant
            i <= a.len(),
            copy@ == a@.subrange(0, i as int),
        decreases a.len() - i,
    {
        copy.push(a[i]);
        assert(a@.subrange(0, i + 1) == a@.subrange(0, i as int).push(a@[i as int]));
        i += 1;
    }
    assert(a@ == a@.subrange(0, a.len() as int));
    copy
}

/// The hexadecimal digit, in lower case, of a value below sixteen.
pub open spec fn hex_digit(nibble: int) -> char {
    if nibble == 0 {
        '0'
    } else if nibble == 1 {
        '1'
    } else if nibble == 2 {
        '2'
    } else if nibble == 3 {
        '3'
    } else if nibble == 4 {
        '4'
    } else if nibble == 5 {
        '5'
    } else if nibble == 6 {
        '6'
    } else if nibble == 7 {
        '7'
    } else if nibble == 8 {
        '8'
    } else if nibble == 9 {
        '9'
    } else if nibble == 10 {
        'a'
    } else if nibble == 11 {
        'b'
    } else if nibble == 12 {
        'c'
    } else if nibble == 13 {
        'd'
    } else if nibble == 14 {
        'e'
    } else {
        'f'
    }
}

/// The hexadecimal rendering of a byte string: two digits per byte, high
/// nibble first.
pub open spec fn hex_of(bytes: Seq<u8>) -> Seq<char> {
    Seq::new(2 * bytes.len(), |i: int| hex_nibble_at(bytes, i))
}

/// The digit at place `i` of the hexadecimal rendering of `bytes`.
pub open spec fn hex_nibble_at(bytes: Seq<u8>, i: int) -> char {
    hex_digit(nibble_at(bytes, i))
}

/// The nibble at place `i` of a byte string, counting two nibbles per byte,
/// high nibble first.
pub open spec fn nibble_at(bytes: Seq<u8>, i: int) -> int {
    if i % 2 == 0 {
        bytes[i / 2] as int / 16
    } else {
        bytes[i / 2] as int % 16
    }
}

/// Identifier of a commit.
#[derive(Debug, PartialEq, Eq, Hash)]
pub struct CommitId {
    pub bytes: Vec<u8>,
}

impl View for CommitId {
    type V = Seq<u8>;

    open spec fn view(&self) -> Seq<u8> {
        self.bytes@
    }
}

impl Clone for CommitId {
    fn clone(&self) -> (copy: Self)
        ensures
            copy@ == self@,
    {
        CommitId { bytes: bytes_copy(&self.bytes) }
    }
}

impl CommitId {
    /// The id made of the given bytes.
    pub fn new(bytes: Vec<u8>) -> (id: CommitId)
        ensures
            id@ == bytes@,
    {
        CommitId { bytes }
    }

    /// Whether the two ids are the same.
    pub fn same_as(&self, other: &CommitId) -> (same: bool)
        ensures
            same == (self@ == other@),
    {
        bytes_equal(&self.bytes, &other.bytes)
    }
}

/// Identifier of a change: it stays the same when a commit is rewritten, so
/// several commits may carry one change id.
#[derive(Debug, PartialEq, Eq, Hash)]
pub struct ChangeId {
    pub bytes: Vec<u8>,
}

impl View for ChangeId {
    type V = Seq<u8>;

    open spec fn view(&self) -> Seq<u8> {
        self.bytes@
    }
}

impl Clone for ChangeId {
    fn clone(&self) -> (copy: Self)
        ensures
            copy@ == self@,
    {
        ChangeId { bytes: bytes_copy(&self.bytes) }
    }
}

impl ChangeId {
    /// The id made of the given bytes.
    pub fn new(bytes: Vec<u8>) -> (id: ChangeId)
        ensures
            id@ == bytes@,
    {
        ChangeId { bytes }
    }

    /// Whether the two ids are the same.
    pub fn same_as(&self, other: &ChangeId) -> (same: bool)
        ensures
            same == (self@ == other@),
    {
        bytes_equal(&self.bytes, &other.bytes)
    }
}

/// Appends the hexadecimal digit of a value below sixteen to a string.
fn push_hex_digit(text: &mut String, nibble: u8)
    requires
        nibble < 16,
    ensures
        final(text)@ == old(text)@.push(hex_digit(nibble as int)),
{
    proof {
        reveal_strlit("0");
        reveal_strlit("1");
        reveal_strlit("2");
        reveal_strlit("3");
        reveal_strlit("4");
        reveal_strlit("5");
        reveal_strlit("6");
        reveal_strlit("7");
        reveal_strlit("8");
        reveal_strlit("9");
        reveal_strlit("a");
        reveal_strlit("b");
        reveal_strlit("c");
        reveal_strlit("d");
        reveal_strlit("e");
        reveal_strlit("f");
    }
    let ghost before = text@;
    let digit: &str = if nibble == 0 {
        "0"
    } else if nibble == 1 {
        "1"
    } else if nibble == 2 {
        "2"
    } else if nibble == 3 {
        "3"
    } else if nibble == 4 {
        "4"
    } else if nibble == 5 {
        "5"
    } else if nibble == 6 {
        "6"
    } else if nibble == 7 {
        "7"
    } else if nibble == 8 {
        "8"
    } else if nibble == 9 {
        "9"
    } else if nibble == 10 {
        "a"
    } else if nibble == 11 {
        "b"
    } else if nibble == 12 {
        "c"
    } else if nibble == 13 {
        "d"
    } else if nibble == 14 {
        "e"
    } else {
        "f"
    };
    assert(digit@ =~= seq![hex_digit(nibble as int)]);
    text.append(digit);
    assert(text@ =~= before.push(hex_digit(nibble as int)));
}

/// The hexadecimal rendering of a byte string.
pub fn hex_string(bytes: &Vec<u8>) -> (text: String)
    ensures
        text@ == hex_of(bytes@),
{
    let mut text = String::new();
    let mut i: usize = 0;
    while i < bytes.len()
        invariant
            i <= bytes.len(),
            text@ == hex_of(bytes@.subrange(0, i as int)),
        decreases bytes.len() - i,
    {
        let b: u8 = bytes[i];
        let ghost before = text@;
        push_hex_digit(&mut text, b / 16);
        push_hex_digit(&mut text, b % 16);
        proof {
            let upto = bytes@.subrange(0, i as int);
            let grown = bytes@.subrange(0, i + 1);
            assert(grown =~= upto.push(b));
            assert forall|j: int| 0 <= j < 2 * grown.len() implies text@[j] == hex_nibble_at(
                grown,
                j,
            ) by {
                if j < 2 * upto.len() {
                    assert(before[j] == hex_nibble_at(upto, j));
                    assert(upto[j / 2] == grown[j / 2]);
                } else {
                    assert(j / 2 == i);
                }
            }
            assert(text@ =~= hex_of(grown));
        }
        i += 1;
    }
    assert(bytes@.subrange(0, bytes.len() as int) =~= bytes@);
    text
}

impl CommitId {
    /// The id in hexadecimal.
    pub fn hex(&self) -> (text: String)
        ensures
            text@ == hex_of(self@),
    {
        hex_string(&self.bytes)
    }
}

impl ChangeId {
    /// The id in hexadecimal.
    pub fn hex(&self) -> (text: String)
        ensures
            text@ == hex_of(self@),
    {
        hex_string(&self.bytes)
    }
}

} // verus!
