//! Patterns that select names: exact text, a piece of text, or a glob in
//! which `*` stands for any run of characters.

use vstd::prelude::*;
use vstd::string::StrSliceExecFns;
use vstd::string::StringExecFns;
use crate::text::{chars_of, find_char, first_index_from};

verus! {

/// Whether the pattern from place `i` on matches the text from place `j` on,
/// where `*` in the pattern matches any run of characters and every other
/// character matches itself.
pub open spec fn glob_matches_from(pattern: Seq<char>, text: Seq<char>, i: int, j: int) -> bool
    decreases pattern.len() - i, text.len() - j,
{
    if i >= pattern.len() {
        j >= text.len()
    } else if pattern[i] == '*' {
        glob_matches_from(pattern, text, i + 1, j) || (j < text.len() && glob_matches_from(
            pattern,
            text,
            i,
            j + 1,
        ))
    } else {
        j < text.len() && text[j] == pattern[i] && glob_matches_from(pattern, text, i + 1, j + 1)
    }
}

/// Whether the glob matches the whole text.
pub open spec fn glob_matches(pattern: Seq<char>, text: Seq<char>) -> bool {
    glob_matches_from(pattern, text, 0, 0)
}

/// Whether `piece` occurs in `text` at place `k`.
pub open spec fn occurs_at(text: Seq<char>, piece: Seq<char>, k: int) -> bool {
    0 <= k && k + piece.len() <= text.len() && text.subrange(k, k + piece.len()) == piece
}

/// Whether `piece` occurs somewhere in `text`.
pub open spec fn contains_text(text: Seq<char>, piece: Seq<char>) -> bool {
    exists|k: int| occurs_at(text, piece, k)
}

/// Whether two runs of characters are the same.
pub fn chars_equal(a: &Vec<char>, b: &Vec<char>) -> (same: bool)
    ensures
        same == (a@ == b@),
{
    if a.len() != b.len() {
        return false;
    }
    let mut i: usize = 0;
    while i < a.len()
        invariant
            a.len() == b.len(),
            i <= a.len(),
            a@.subrange(0, i as int) == b@.subrange(0, i as int),
        decreases a.len() - i,
    {
        if a[i] != b[i] {
            return false;
        }
        assert(a@.subrange(0, i + 1) == a@.subrange(0, i as int).push(a@[i as int]));
        assert(b@.subrange(0, i + 1) == b@.subrange(0, i as int).push(b@[i as int]));
        i += 1;
    }
    assert(a@ == a@.subrange(0, a.len() as int));
    assert(b@ == b@.subrange(0, b.len() as int));
    true
}

/// Whether `piece` occurs in `text` at place `k`.
fn occurs_at_exec(text: &Vec<char>, piece: &Vec<char>, k: usize) -> (found: bool)
    requires
        k + piece.len() <= text.len(),
    ensures
        found == occurs_at(text@, piece@, k as int),
{
    let mut j: usize = 0;
    while j < piece.len()
        invariant
            k + piece.len() <= text.len(),
            j <= piece.len(),
            text@.subrange(k as int, k + j) == piece@.subrange(0, j as int),
        decreases piece.len() - j,
    {
        if text[k + j] != piece[j] {
            proof {
                if occurs_at(text@, piece@, k as int) {
                    assert(text@.subrange(k as int, k + piece.len())[j as int] == piece@[j as int]);
                }
            }
            return false;
        }
        assert(text@.subrange(k as int, k + j + 1) == text@.subrange(k as int, k + j).push(
            text@[k + j],
        ));
        assert(piece@.subrange(0, j + 1) == piece@.subrange(0, j as int).push(piece@[j as int]));
        j += 1;
    }
    assert(piece@ == piece@.subrange(0, piece.len() as int));
    true
}

/// Whether `piece` occurs somewhere in `text`.
pub fn contains_chars(text: &Vec<char>, piece: &Vec<char>) -> (found: bool)
    ensures
        found == contains_text(text@, piece@),
{
    if piece.len() > text.len() {
        return false;
    }
    let last: usize = text.len() - piece.len();
    let mut k: usize = 0;
    while k < last
        invariant
            last == text.len() - piece.len(),
            k <= last,
            forall|m: int| 0 <= m < k ==> !occurs_at(text@, piece@, m),
        decreases last - k,
    {
        if occurs_at_exec(text, piece, k) {
            return true;
        }
        k += 1;
    }
    occurs_at_exec(text, piece, last)
}

/// A row of `len` flags, none of them set.
fn cleared_row(len: usize) -> (row: Vec<bool>)
    ensures
        row.len() == len,
        forall|t: int| 0 <= t < len ==> !row[t],
{
    let mut row: Vec<bool> = Vec::new();
    let mut t: usize = 0;
    while t < len
        invariant
            t <= len,
            row.len() == t,
            forall|u: int| 0 <= u < t ==> !row[u],
        decreases len - t,
    {
        row.push(false);
        t += 1;
    }
    row
}

/// Whether the glob matches the whole text.
///
/// The table has one row for each place of the pattern, filled from the last
/// place to the first; a row tells for each place of the text whether the
/// rest of the pattern matches the rest of the text. Only two rows are kept.
pub fn glob_matches_chars(pattern: &Vec<char>, text: &Vec<char>) -> (matched: bool)
    ensures
        matched == glob_matches(pattern@, text@),
{
    let n: usize = pattern.len();
    let m: usize = text.len();
    let mut row: Vec<bool> = cleared_row(m);
    let mut row_end: bool = true;
    let mut i: usize = n;
    while i > 0
        invariant
            m == text.len(),
            n == pattern.len(),
            i <= n,
            row.len() == m,
            forall|t: int| 0 <= t < m ==> row[t] == glob_matches_from(pattern@, text@, i as int, t),
            row_end == glob_matches_from(pattern@, text@, i as int, m as int),
        decreases i,
    {
        i -= 1;
        let c: char = pattern[i];
        let star: bool = c == '*';
        let above_end: bool = star && row_end;
        let mut above: Vec<bool> = cleared_row(m);
        let mut j: usize = m;
        while j > 0
            invariant
                m == text.len(),
                n == pattern.len(),
                i < n,
                c == pattern@[i as int],
                star == (c == '*'),
                j <= m,
                row.len() == m,
                above.len() == m,
                forall|t: int|
                    0 <= t < m ==> row[t] == glob_matches_from(pattern@, text@, i + 1, t),
                row_end == glob_matches_from(pattern@, text@, i + 1, m as int),
                above_end == glob_matches_from(pattern@, text@, i as int, m as int),
                forall|t: int|
                    j <= t < m ==> above[t] == glob_matches_from(pattern@, text@, i as int, t),
            decreases j,
        {
            j -= 1;
            let value: bool = if star {
                let next_above: bool = if j + 1 == m {
                    above_end
                } else {
                    above[j + 1]
                };
                row[j] || next_above
            } else {
                let next_row: bool = if j + 1 == m {
                    row_end
                } else {
                    row[j + 1]
                };
                text[j] == c && next_row
            };
            above.set(j, value);
        }
        row = above;
        row_end = above_end;
    }
    if m == 0 {
        row_end
    } else {
        row[0]
    }
}

/// A pattern over names.
#[derive(Debug)]
pub enum StringPattern {
    /// Matches the text that equals the pattern.
    Exact(String),
    /// Matches the texts that the glob matches, where `*` stands for any run
    /// of characters.
    Glob(String),
    /// Matches the texts in which the pattern occurs.
    Substring(String),
}

impl StringPattern {
    /// Whether the pattern matches the text.
    pub open spec fn matches_text(&self, text: Seq<char>) -> bool {
        match self {
            StringPattern::Exact(p) => p@ == text,
            StringPattern::Glob(p) => glob_matches(p@, text),
            StringPattern::Substring(p) => contains_text(text, p@),
        }
    }

    /// The text the pattern was made from.
    pub open spec fn source(&self) -> Seq<char> {
        match self {
            StringPattern::Exact(p) => p@,
            StringPattern::Glob(p) => p@,
            StringPattern::Substring(p) => p@,
        }
    }

    /// The pattern that matches every text.
    pub fn everything() -> (pattern: StringPattern)
        ensures
            pattern is Substring,
            pattern.source() == Seq::<char>::empty(),
            forall|text: Seq<char>| pattern.matches_text(text),
    {
        let pattern = StringPattern::Substring(String::new());
        assert forall|text: Seq<char>| pattern.matches_text(text) by {
            assert(text.subrange(0, 0) =~= Seq::<char>::empty());
            assert(occurs_at(text, Seq::<char>::empty(), 0));
        }
        pattern
    }

    /// The pattern that matches the given text and no other.
    pub fn exact(text: String) -> (pattern: StringPattern)
        ensures
            pattern == StringPattern::Exact(text),
    {
        StringPattern::Exact(text)
    }

    /// Whether the pattern names one text exactly.
    pub fn is_exact(&self) -> (exact: bool)
        ensures
            exact == (self is Exact),
    {
        match self {
            StringPattern::Exact(_) => true,
            _ => false,
        }
    }

    /// The text the pattern was made from.
    pub fn as_str(&self) -> (text: &str)
        ensures
            text@ == self.source(),
    {
        match self {
            StringPattern::Exact(p) => p.as_str(),
            StringPattern::Glob(p) => p.as_str(),
            StringPattern::Substring(p) => p.as_str(),
        }
    }

    /// Whether the pattern matches the text.
    pub fn matches(&self, text: &str) -> (matched: bool)
        ensures
            matched == self.matches_text(text@),
    {
        match self {
            StringPattern::Exact(p) => {
                let a = chars_of(p.as_str());
                let b = chars_of(text);
                chars_equal(&a, &b)
            },
            StringPattern::Glob(p) => {
                let a = chars_of(p.as_str());
                let b = chars_of(text);
                glob_matches_chars(&a, &b)
            },
            StringPattern::Substring(p) => {
                let a = chars_of(p.as_str());
                let b = chars_of(text);
                contains_chars(&b, &a)
            },
        }
    }
}

impl Clone for StringPattern {
    fn clone(&self) -> (copy: Self)
        ensures
            copy == *self,
    {
        match self {
            StringPattern::Exact(p) => StringPattern::Exact(p.clone()),
            StringPattern::Glob(p) => StringPattern::Glob(p.clone()),
            StringPattern::Substring(p) => StringPattern::Substring(p.clone()),
        }
    }
}

/// The pattern of the given kind, or the error for a kind that is not
/// known.
pub open spec fn pattern_of_kind(kind: Seq<char>, text: Seq<char>) -> Result<
    StringPatternView,
    Seq<char>,
> {
    if kind == "exact"@ {
        Ok(StringPatternView::Exact(text))
    } else if kind == "glob"@ {
        Ok(StringPatternView::Glob(text))
    } else if kind == "substring"@ {
        Ok(StringPatternView::Substring(text))
    } else {
        Err("Invalid string pattern kind \""@ + kind + ":\""@)
    }
}

/// A pattern as plain values.
pub enum StringPatternView {
    Exact(Seq<char>),
    Glob(Seq<char>),
    Substring(Seq<char>),
}

impl View for StringPattern {
    type V = StringPatternView;

    open spec fn view(&self) -> StringPatternView {
        match self {
            StringPattern::Exact(p) => StringPatternView::Exact(p@),
            StringPattern::Glob(p) => StringPatternView::Glob(p@),
            StringPattern::Substring(p) => StringPatternView::Substring(p@),
        }
    }
}

/// What a text stands for as a pattern: the pattern of the kind before the
/// first colon, made of what follows the colon, or the exact text where it
/// holds no colon.
pub open spec fn parsed_pattern(text: Seq<char>) -> Result<StringPatternView, Seq<char>> {
    let colon = first_index_from(text, ':', 0);
    if colon < text.len() {
        pattern_of_kind(text.subrange(0, colon), text.subrange(colon + 1, text.len() as int))
    } else {
        Ok(StringPatternView::Exact(text))
    }
}

/// What a result of a pattern holds, as plain values.
pub open spec fn pattern_result_view(parsed: Result<StringPattern, String>) -> Result<
    StringPatternView,
    Seq<char>,
> {
    match parsed {
        Ok(p) => Ok(p@),
        Err(e) => Err(e@),
    }
}

impl StringPattern {
    /// The pattern of the given kind.
    pub fn from_str_kind(text: &str, kind: &str) -> (pattern: Result<StringPattern, String>)
        ensures
            pattern_result_view(pattern) == pattern_of_kind(kind@, text@),
    {
        let letters = chars_of(kind);
        if chars_equal(&letters, &chars_of("exact")) {
            Ok(StringPattern::Exact(String::from_str(text)))
        } else if chars_equal(&letters, &chars_of("glob")) {
            Ok(StringPattern::Glob(String::from_str(text)))
        } else if chars_equal(&letters, &chars_of("substring")) {
            Ok(StringPattern::Substring(String::from_str(text)))
        } else {
            let mut error = String::from_str("Invalid string pattern kind \"");
            error.append(kind);
            error.append(":\"");
            Err(error)
        }
    }

    /// Reads a pattern as users write it: a kind and a colon before the
    /// pattern, or the exact text.
    pub fn parse(text: &str) -> (pattern: Result<StringPattern, String>)
        ensures
            pattern_result_view(pattern) == parsed_pattern(text@),
    {
        let chars = chars_of(text);
        let colon = find_char(&chars, ':', 0);
        if colon < chars.len() {
            let kind = text.substring_char(0, colon);
            let rest = text.substring_char(colon + 1, chars.len());
            StringPattern::from_str_kind(rest, kind)
        } else {
            Ok(StringPattern::Exact(String::from_str(text)))
        }
    }
}

} // verus!
