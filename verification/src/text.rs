//! Text helpers: joining, ordering, decimal numbers.

use itertools::Itertools;
use vstd::prelude::*;
use vstd::string::StrSliceExecFns;
use vstd::string::StringExecFns;

verus! {

/// The views of a sequence of strings, in the same order.
pub open spec fn string_views(items: Seq<String>) -> Seq<Seq<char>> {
    items.map_values(|s: String| s@)
}

/// The parts written one after another with `sep` between each two.
pub open spec fn joined(parts: Seq<Seq<char>>, sep: Seq<char>) -> Seq<char>
    decreases parts.len(),
{
    if parts.len() == 0 {
        Seq::empty()
    } else if parts.len() == 1 {
        parts[0]
    } else {
        joined(parts.drop_last(), sep) + sep + parts.last()
    }
}

/// Joins the strings with a separator.
///
/// Calls `itertools::Itertools::join` on the iterator over the strings. That
/// function writes the first element, then for each further element the
/// separator and the element; for no element it gives the empty string. The
/// contract says the same by [`joined`]. Nothing of it is proved here.
#[verifier::external_body]
pub(crate) fn join_strings(parts: &Vec<String>, sep: &str) -> (text: String)
    ensures
        text@ == joined(string_views(parts@), sep@),
{
    parts.iter().join(sep)
}

/// Lexicographic order of two texts by their characters:
/// the first text is a prefix of the second, or holds the smaller character
/// at the first place where they differ.
pub open spec fn text_le(a: Seq<char>, b: Seq<char>) -> bool
    decreases a.len(),
{
    if a.len() == 0 {
        true
    } else if b.len() == 0 {
        false
    } else if a[0] != b[0] {
        a[0] < b[0]
    } else {
        text_le(a.skip(1), b.skip(1))
    }
}

/// The first text stands strictly before the second.
pub open spec fn text_lt(a: Seq<char>, b: Seq<char>) -> bool {
    text_le(a, b) && a != b
}

/// Each text is at most the one after it.
pub open spec fn texts_sorted(items: Seq<Seq<char>>) -> bool {
    forall|i: int, j: int| 0 <= i <= j < items.len() ==> text_le(items[i], items[j])
}

/// Each text stands strictly before the one after it.
pub open spec fn texts_strictly_sorted(items: Seq<Seq<char>>) -> bool {
    forall|i: int, j: int| 0 <= i < j < items.len() ==> text_lt(items[i], items[j])
}

/// Sorts the strings in ascending order.
///
/// Calls `itertools::Itertools::sorted`, which collects the elements into a
/// vector, sorts it with the standard stable sort and hands the elements
/// back. The order of strings in the standard library is the lexicographic
/// order of their bytes, which is the order of their code points. The
/// contract says that the result holds the same strings as often and in
/// that order. Nothing of it is proved here.
#[verifier::external_body]
pub(crate) fn sorted_strings(items: Vec<String>) -> (sorted: Vec<String>)
    ensures
        string_views(sorted@).to_multiset() == string_views(items@).to_multiset(),
        texts_sorted(string_views(sorted@)),
{
    items.into_iter().sorted().collect()
}

/// The characters of a string.
pub fn chars_of(s: &str) -> (chars: Vec<char>)
    ensures
        chars@ == s@,
{
    let n: usize = s.unicode_len();
    let mut chars: Vec<char> = Vec::new();
    let mut i: usize = 0;
    while i < n
        invariant
            n == s@.len(),
            i <= n,
            chars@ == s@.subrange(0, i as int),
        decreases n - i,
    {
        chars.push(s.get_char(i));
        assert(s@.subrange(0, i + 1) == s@.subrange(0, i as int).push(s@[i as int]));
        i += 1;
    }
    assert(s@ == s@.subrange(0, n as int));
    chars
}

/// The decimal digit of a value below ten.
pub open spec fn digit_char(d: int) -> char {
    if d == 0 {
        '0'
    } else if d == 1 {
        '1'
    } else if d == 2 {
        '2'
    } else if d == 3 {
        '3'
    } else if d == 4 {
        '4'
    } else if d == 5 {
        '5'
    } else if d == 6 {
        '6'
    } else if d == 7 {
        '7'
    } else if d == 8 {
        '8'
    } else {
        '9'
    }
}

/// The decimal numeral of a number, without leading zeros.
pub open spec fn decimal(n: nat) -> Seq<char>
    decreases n,
{
    if n < 10 {
        seq![digit_char(n as int)]
    } else {
        decimal(n / 10).push(digit_char((n % 10) as int))
    }
}

/// Appends one decimal digit to a string.
fn push_digit(text: &mut String, d: u64)
    requires
        d < 10,
    ensures
        final(text)@ == old(text)@.push(digit_char(d as int)),
{
    proof {
        reveal_strlit("0");
        reveal_strlit("1");
        reveal_strlit("2");
        reveal_strlit("3");
        reveal_strlit("4");
        reveal_strlit("5");
        reveal_strlit("6");
        reveal_strlit("7");
        reveal_strlit("8");
        reveal_strlit("9");
    }
    let ghost before = text@;
    if d == 0 {
        text.append("0");
        assert(text@ =~= before.push('0'));
    } else if d == 1 {
        text.append("1");
        assert(text@ =~= before.push('1'));
    } else if d == 2 {
        text.append("2");
        assert(text@ =~= before.push('2'));
    } else if d == 3 {
        text.append("3");
        assert(text@ =~= before.push('3'));
    } else if d == 4 {
        text.append("4");
        assert(text@ =~= before.push('4'));
    } else if d == 5 {
        text.append("5");
        assert(text@ =~= before.push('5'));
    } else if d == 6 {
        text.append("6");
        assert(text@ =~= before.push('6'));
    } else if d == 7 {
        text.append("7");
        assert(text@ =~= before.push('7'));
    } else if d == 8 {
        text.append("8");
        assert(text@ =~= before.push('8'));
    } else {
        text.append("9");
        assert(text@ =~= before.push('9'));
    }
}

/// Appends the decimal numeral of a number to a string.
pub fn push_decimal(text: &mut String, n: u64)
    ensures
        final(text)@ == old(text)@ + decimal(n as nat),
    decreases n,
{
    if n < 10 {
        push_digit(text, n);
        assert(text@ =~= old(text)@ + decimal(n as nat));
    } else {
        push_decimal(text, n / 10);
        push_digit(text, n % 10);
        assert(text@ =~= old(text)@ + decimal(n as nat));
    }
}

/// The decimal numeral of a number.
pub fn decimal_string(n: u64) -> (text: String)
    ensures
        text@ == decimal(n as nat),
{
    let mut text = String::new();
    push_decimal(&mut text, n);
    assert(text@ =~= decimal(n as nat));
    text
}

/// How one text stands to another in the order of texts.
#[derive(Clone, Copy, Debug, PartialEq, Eq, Structural)]
pub enum TextOrder {
    Before,
    Same,
    After,
}

/// Two texts that are each at most the other are the same.
pub proof fn lemma_text_le_antisymmetric(a: Seq<char>, b: Seq<char>)
    requires
        text_le(a, b),
        text_le(b, a),
    ensures
        a == b,
    decreases a.len(),
{
    if a.len() == 0 {
        assert(a =~= b);
    } else {
        lemma_text_le_antisymmetric(a.skip(1), b.skip(1));
        assert(a =~= seq![a[0]] + a.skip(1));
        assert(b =~= seq![b[0]] + b.skip(1));
    }
}

/// The order of texts is transitive.
pub proof fn lemma_text_le_transitive(a: Seq<char>, b: Seq<char>, c: Seq<char>)
    requires
        text_le(a, b),
        text_le(b, c),
    ensures
        text_le(a, c),
    decreases a.len(),
{
    if a.len() > 0 && a[0] == b[0] && b[0] == c[0] {
        lemma_text_le_transitive(a.skip(1), b.skip(1), c.skip(1));
    }
}

/// Of two texts one is at most the other.
pub proof fn lemma_text_le_total(a: Seq<char>, b: Seq<char>)
    ensures
        text_le(a, b) || text_le(b, a),
    decreases a.len(),
{
    if a.len() > 0 && b.len() > 0 && a[0] == b[0] {
        lemma_text_le_total(a.skip(1), b.skip(1));
    }
}

/// The strict order of texts is transitive.
pub proof fn lemma_text_lt_transitive(a: Seq<char>, b: Seq<char>, c: Seq<char>)
    requires
        text_lt(a, b),
        text_lt(b, c),
    ensures
        text_lt(a, c),
{
    lemma_text_le_transitive(a, b, c);
    if a == c {
        lemma_text_le_antisymmetric(a, b);
    }
}

/// Lists of texts in strict order that hold the same texts are the same
/// list.
pub proof fn lemma_sorted_lists_agree(s: Seq<Seq<char>>, t: Seq<Seq<char>>)
    requires
        texts_strictly_sorted(s),
        texts_strictly_sorted(t),
        forall|x: Seq<char>| s.contains(x) <==> t.contains(x),
    ensures
        s == t,
    decreases s.len(),
{
    if s.len() == 0 {
        if t.len() > 0 {
            assert(t.contains(t[0]));
        }
        assert(s =~= t);
    } else {
        let a = s.last();
        assert(s.contains(a));
        assert(t.contains(a));
        let b = t.last();
        assert(t.contains(b));
        assert(s.contains(b));
        let j = choose|j: int| 0 <= j < t.len() && t[j] == a;
        let i = choose|i: int| 0 <= i < s.len() && s[i] == b;
        if j < t.len() - 1 {
            assert(text_lt(t[j], t[t.len() - 1]));
            if i < s.len() - 1 {
                assert(text_lt(s[i], s[s.len() - 1]));
                lemma_text_le_antisymmetric(a, b);
            }
        }
        assert(a == b);
        let short_s = s.drop_last();
        let short_t = t.drop_last();
        assert forall|x: Seq<char>| short_s.contains(x) <==> short_t.contains(x) by {
            if short_s.contains(x) {
                let k = choose|k: int| 0 <= k < short_s.len() && short_s[k] == x;
                assert(text_lt(s[k], s[s.len() - 1]));
                assert(s.contains(x));
                let m = choose|m: int| 0 <= m < t.len() && t[m] == x;
                assert(short_t[m] == x);
            }
            if short_t.contains(x) {
                let k = choose|k: int| 0 <= k < short_t.len() && short_t[k] == x;
                assert(text_lt(t[k], t[t.len() - 1]));
                assert(t.contains(x));
                let m = choose|m: int| 0 <= m < s.len() && s[m] == x;
                assert(short_s[m] == x);
            }
        }
        assert forall|i: int, j: int| 0 <= i < j < short_s.len() implies text_lt(
            short_s[i],
            short_s[j],
        ) by {
            assert(text_lt(s[i], s[j]));
        }
        assert forall|i: int, j: int| 0 <= i < j < short_t.len() implies text_lt(
            short_t[i],
            short_t[j],
        ) by {
            assert(text_lt(t[i], t[j]));
        }
        lemma_sorted_lists_agree(short_s, short_t);
        assert(s =~= short_s.push(a));
        assert(t =~= short_t.push(b));
    }
}

/// Texts that agree up to a place stand to each other as their rests do.
pub proof fn lemma_text_le_skip(a: Seq<char>, b: Seq<char>, i: int)
    requires
        0 <= i <= a.len(),
        i <= b.len(),
        a.subrange(0, i) == b.subrange(0, i),
    ensures
        text_le(a, b) == text_le(a.skip(i), b.skip(i)),
    decreases i,
{
    if i == 0 {
        assert(a.skip(0) =~= a);
        assert(b.skip(0) =~= b);
    } else {
        assert(a.subrange(0, i - 1) =~= a.subrange(0, i).subrange(0, i - 1));
        assert(b.subrange(0, i - 1) =~= b.subrange(0, i).subrange(0, i - 1));
        lemma_text_le_skip(a, b, i - 1);
        assert(a.subrange(0, i)[i - 1] == a[i - 1]);
        assert(b.subrange(0, i)[i - 1] == b[i - 1]);
        assert(a.skip(i - 1)[0] == a[i - 1]);
        assert(b.skip(i - 1)[0] == b[i - 1]);
        assert(a.skip(i - 1).len() > 0);
        assert(b.skip(i - 1).len() > 0);
        let x = a.skip(i - 1);
        let y = b.skip(i - 1);
        assert(x.skip(1) =~= a.skip(i));
        assert(y.skip(1) =~= b.skip(i));
        assert(text_le(a, b) == text_le(x, y));
        assert(x[0] == y[0]);
        assert(text_le(x, y) == text_le(x.skip(1), y.skip(1)));
    }
}

/// How the first run of characters stands to the second in the order of
/// texts.
pub fn chars_order(a: &Vec<char>, b: &Vec<char>) -> (order: TextOrder)
    ensures
        order == TextOrder::Before <==> text_lt(a@, b@),
        order == TextOrder::Same <==> a@ == b@,
        order == TextOrder::After <==> text_lt(b@, a@),
{
    let mut i: usize = 0;
    while i < a.len() && i < b.len()
        invariant
            i <= a.len(),
            i <= b.len(),
            a@.subrange(0, i as int) == b@.subrange(0, i as int),
        decreases a.len() - i,
    {
        let x: char = a[i];
        let y: char = b[i];
        if x != y {
            proof {
                lemma_text_le_skip(a@, b@, i as int);
                lemma_text_le_skip(b@, a@, i as int);
                assert(a@.skip(i as int)[0] == x);
                assert(b@.skip(i as int)[0] == y);
                if a@ == b@ {
                    assert(a@[i as int] == b@[i as int]);
                }
            }
            if x < y {
                return TextOrder::Before;
            } else {
                return TextOrder::After;
            }
        }
        assert(a@.subrange(0, i + 1) == a@.subrange(0, i as int).push(a@[i as int]));
        assert(b@.subrange(0, i + 1) == b@.subrange(0, i as int).push(b@[i as int]));
        i += 1;
    }
    proof {
        lemma_text_le_skip(a@, b@, i as int);
        lemma_text_le_skip(b@, a@, i as int);
        if a.len() == b.len() {
            assert(a@ =~= a@.subrange(0, i as int));
            assert(b@ =~= b@.subrange(0, i as int));
        }
    }
    if a.len() == b.len() {
        TextOrder::Same
    } else if a.len() < b.len() {
        TextOrder::Before
    } else {
        TextOrder::After
    }
}

/// How the first string stands to the second in the order of texts.
pub fn text_order(a: &str, b: &str) -> (order: TextOrder)
    ensures
        order == TextOrder::Before <==> text_lt(a@, b@),
        order == TextOrder::Same <==> a@ == b@,
        order == TextOrder::After <==> text_lt(b@, a@),
{
    let x = chars_of(a);
    let y = chars_of(b);
    chars_order(&x, &y)
}

/// What a sequence holds after one more element has been put at its end.
pub proof fn lemma_push_contains<A>(s: Seq<A>, a: A, x: A)
    ensures
        s.push(a).contains(x) <==> (s.contains(x) || x == a),
{
    let t = s.push(a);
    if t.contains(x) {
        let j = choose|j: int| 0 <= j < t.len() && t[j] == x;
        if j < s.len() {
            assert(s[j] == x);
        }
    }
    if s.contains(x) {
        let j = choose|j: int| 0 <= j < s.len() && s[j] == x;
        assert(t[j] == x);
    }
    if x == a {
        assert(t[s.len() as int] == x);
    }
}

/// The element at each place of a sequence after one more has been put
/// into it.
pub proof fn lemma_insert_index<A>(s: Seq<A>, i: int, a: A, j: int)
    requires
        0 <= i <= s.len(),
        0 <= j <= s.len(),
    ensures
        s.insert(i, a).len() == s.len() + 1,
        s.insert(i, a)[j] == if j < i {
            s[j]
        } else if j == i {
            a
        } else {
            s[j - 1]
        },
{
}

/// What a sequence holds after one more element has been put into it.
pub proof fn lemma_insert_contains<A>(s: Seq<A>, i: int, a: A, x: A)
    requires
        0 <= i <= s.len(),
    ensures
        s.insert(i, a).contains(x) <==> (s.contains(x) || x == a),
{
    let t = s.insert(i, a);
    lemma_insert_index(s, i, a, i);
    if t.contains(x) {
        let j = choose|j: int| 0 <= j < t.len() && t[j] == x;
        lemma_insert_index(s, i, a, j);
        if j < i {
            assert(s[j] == x);
        } else if j > i {
            assert(s[j - 1] == x);
        }
    }
    if s.contains(x) {
        let j = choose|j: int| 0 <= j < s.len() && s[j] == x;
        if j < i {
            lemma_insert_index(s, i, a, j);
            assert(t[j] == x);
        } else {
            lemma_insert_index(s, i, a, j + 1);
            assert(t[j + 1] == x);
        }
    }
    if x == a {
        assert(t[i] == x);
    }
}

/// The place of the first of the character in the text from `from` on, or
/// the length of the text where it has none.
pub open spec fn first_index_from(text: Seq<char>, c: char, from: int) -> int
    decreases text.len() - from,
{
    if from < 0 || from >= text.len() {
        text.len() as int
    } else if text[from] == c {
        from
    } else {
        first_index_from(text, c, from + 1)
    }
}

/// The place of the first of the character from `from` on.
pub fn find_char(chars: &Vec<char>, c: char, from: usize) -> (at: usize)
    requires
        from <= chars.len(),
    ensures
        at == first_index_from(chars@, c, from as int),
        from <= at <= chars.len(),
{
    let mut i: usize = from;
    while i < chars.len()
        invariant
            from <= i <= chars.len(),
            first_index_from(chars@, c, from as int) == first_index_from(chars@, c, i as int),
        decreases chars.len() - i,
    {
        if chars[i] == c {
            return i;
        }
        i += 1;
    }
    i
}

/// Whether the characters start with the characters of the word.
pub fn starts_with(chars: &Vec<char>, word: &Vec<char>) -> (yes: bool)
    ensures
        yes == (chars.len() >= word.len() && chars@.subrange(0, word.len() as int) == word@),
{
    if chars.len() < word.len() {
        return false;
    }
    let mut i: usize = 0;
    while i < word.len()
        invariant
            word.len() <= chars.len(),
            i <= word.len(),
            chars@.subrange(0, i as int) == word@.subrange(0, i as int),
        decreases word.len() - i,
    {
        if chars[i] != word[i] {
            proof {
                if chars@.subrange(0, word.len() as int) == word@ {
                    assert(chars@.subrange(0, word.len() as int)[i as int] == word@[i as int]);
                }
            }
            return false;
        }
        assert(chars@.subrange(0, i + 1) == chars@.subrange(0, i as int).push(chars@[i as int]));
        assert(word@.subrange(0, i + 1) == word@.subrange(0, i as int).push(word@[i as int]));
        i += 1;
    }
    assert(word@.subrange(0, word.len() as int) == word@);
    true
}

/// The place of the last of the character in the first `upto` characters
/// of the text, or -1 where they hold none.
pub open spec fn last_index_upto(text: Seq<char>, c: char, upto: int) -> int
    decreases upto,
{
    if upto <= 0 {
        -1
    } else if text[upto - 1] == c {
        upto - 1
    } else {
        last_index_upto(text, c, upto - 1)
    }
}

/// The place of the last of the character, if the characters hold it.
pub fn find_last_char(chars: &Vec<char>, c: char) -> (at: Option<usize>)
    ensures
        match at {
            Some(i) => i < chars.len() && last_index_upto(chars@, c, chars.len() as int) == i,
            None => last_index_upto(chars@, c, chars.len() as int) == -1,
        },
{
    let mut i: usize = chars.len();
    while i > 0
        invariant
            i <= chars.len(),
            last_index_upto(chars@, c, chars.len() as int) == last_index_upto(chars@, c, i as int),
        decreases i,
    {
        if chars[i - 1] == c {
            return Some(i - 1);
        }
        i -= 1;
    }
    None
}

} // verus!
