//! Text as sequences of characters: conversion to and from `String` and
//! bytes, searching, splitting into lines, reading decimal numbers and
//! joining paths.

use vstd::prelude::*;

verus! {

/// Index of the first occurrence of `x` in `s`, or `s.len()` when `x` does
/// not occur.
pub open spec fn first_index<T>(s: Seq<T>, x: T) -> int
    decreases s.len(),
{
    if s.len() == 0 || s[0] == x {
        0
    } else {
        1 + first_index(s.skip(1), x)
    }
}

/// Index of the last occurrence of `x` in `s`, or `-1` when `x` does not
/// occur.
pub open spec fn last_index<T>(s: Seq<T>, x: T) -> int
    decreases s.len(),
{
    if s.len() == 0 {
        -1
    } else if s.last() == x {
        s.len() - 1
    } else {
        last_index(s.drop_last(), x)
    }
}

/// `first_index` is in range, points at `x` when inside `s`, and nothing
/// before it equals `x`.
pub proof fn lemma_first_index<T>(s: Seq<T>, x: T)
    ensures
        0 <= first_index(s, x) <= s.len(),
        first_index(s, x) < s.len() ==> s[first_index(s, x)] == x,
        forall|j: int| 0 <= j < first_index(s, x) ==> s[j] != x,
    decreases s.len(),
{
    if s.len() == 0 || s[0] == x {
    } else {
        lemma_first_index(s.skip(1), x);
        assert forall|j: int| 0 <= j < first_index(s, x) implies s[j] != x by {
            if j > 0 {
                assert(s.skip(1)[j - 1] == s[j]);
            }
        }
    }
}

/// An index with the three properties of `lemma_first_index` is
/// `first_index`.
pub proof fn lemma_first_index_unique<T>(s: Seq<T>, x: T, i: int)
    requires
        0 <= i <= s.len(),
        i < s.len() ==> s[i] == x,
        forall|j: int| 0 <= j < i ==> s[j] != x,
    ensures
        first_index(s, x) == i,
{
    lemma_first_index(s, x);
}

/// `last_index` is in range, points at `x` when not `-1`, and nothing after
/// it equals `x`.
pub proof fn lemma_last_index<T>(s: Seq<T>, x: T)
    ensures
        -1 <= last_index(s, x) < s.len(),
        last_index(s, x) >= 0 ==> s[last_index(s, x)] == x,
        forall|j: int| last_index(s, x) < j < s.len() ==> s[j] != x,
    decreases s.len(),
{
    if s.len() == 0 || s.last() == x {
    } else {
        lemma_last_index(s.drop_last(), x);
        assert forall|j: int| last_index(s, x) < j < s.len() implies s[j] != x by {
            if j < s.len() - 1 {
                assert(s.drop_last()[j] == s[j]);
            }
        }
    }
}

/// An index with the three properties of `lemma_last_index` is `last_index`.
pub proof fn lemma_last_index_unique<T>(s: Seq<T>, x: T, i: int)
    requires
        -1 <= i < s.len(),
        i >= 0 ==> s[i] == x,
        forall|j: int| i < j < s.len() ==> s[j] != x,
    ensures
        last_index(s, x) == i,
{
    lemma_last_index(s, x);
}

/// The pieces of `s` between occurrences of `sep`. There is always at least
/// one piece; a trailing `sep` is followed by a last, empty piece.
pub open spec fn split_on<T>(s: Seq<T>, sep: T) -> Seq<Seq<T>>
    decreases s.len(),
{
    let i = first_index(s, sep);
    if 0 <= i < s.len() {
        seq![s.take(i)] + split_on(s.skip(i + 1), sep)
    } else {
        seq![s]
    }
}

/// `piece` without one carriage return at its end, if it has one.
pub open spec fn strip_cr(piece: Seq<char>) -> Seq<char> {
    if piece.len() > 0 && piece.last() == '\r' {
        piece.drop_last()
    } else {
        piece
    }
}

/// The lines of `s`. A line ends at a line feed; the line feed, and a
/// carriage return just before it, are not part of the line. Text after the
/// last line feed is a line of its own unless it is empty.
pub open spec fn lines_of(s: Seq<char>) -> Seq<Seq<char>>
    decreases s.len(),
{
    let i = first_index(s, '\n');
    if s.len() == 0 {
        seq![]
    } else if 0 <= i < s.len() {
        seq![strip_cr(s.take(i))] + lines_of(s.skip(i + 1))
    } else {
        seq![s]
    }
}

/// `String::push`: appends one character to the end of the string.
#[verifier::external_body]
pub(crate) fn push_char(s: &mut String, c: char)
    ensures
        final(s)@ == old(s)@.push(c),
{
    s.push(c)
}

/// `std::str::from_utf8`: the bytes as text when they are valid UTF-8, and
/// nothing otherwise.
#[verifier::external_body]
pub(crate) fn utf8_str(bytes: &[u8]) -> (r: Option<&str>)
    ensures
        r is Some <==> vstd::utf8::valid_utf8(bytes@),
        r matches Some(s) ==> s@ == vstd::utf8::decode_utf8(bytes@),
{
    std::str::from_utf8(bytes).ok()
}

/// The text that `String::from_utf8_lossy` makes of `bytes`: the text they
/// encode, with U+FFFD in place of each part that is not valid UTF-8.
pub uninterp spec fn utf8_lossy(bytes: Seq<u8>) -> Seq<char>;

/// The bytes read as text: decoded where they are valid UTF-8, and as
/// `utf8_lossy` has it where they are not.
pub open spec fn text_of(bytes: Seq<u8>) -> Seq<char> {
    if vstd::utf8::valid_utf8(bytes) {
        vstd::utf8::decode_utf8(bytes)
    } else {
        utf8_lossy(bytes)
    }
}

/// `String::from_utf8_lossy`: the bytes as text, whatever they hold. Valid
/// UTF-8 is decoded as it stands.
#[verifier::external_body]
pub(crate) fn lossy_string(bytes: &[u8]) -> (s: String)
    ensures
        s@ == (if vstd::utf8::valid_utf8(bytes@) {
            vstd::utf8::decode_utf8(bytes@)
        } else {
            utf8_lossy(bytes@)
        }),
{
    String::from_utf8_lossy(bytes).into_owned()
}

/// The characters of `s`, in order.
pub fn to_chars(s: &str) -> (v: Vec<char>)
    ensures
        v@ == s@,
{
    let mut v: Vec<char> = Vec::new();
    for c in it: s.chars()
        invariant
            it.seq() == s@,
            v@ == s@.take(it.index()),
    {
        v.push(c);
    }
    v
}

/// The string made of the characters of `v`, in order.
pub fn from_chars(v: &[char]) -> (s: String)
    ensures
        s@ == v@,
{
    let mut s = String::new();
    let mut i: usize = 0;
    while i < v.len()
        invariant
            i <= v.len(),
            s@ == v@.take(i as int),
        decreases v.len() - i,
    {
        push_char(&mut s, v[i]);
        i += 1;
    }
    s
}

/// A copy of `s[from..to]`.
pub fn copy_range<T: Copy>(s: &[T], from: usize, to: usize) -> (v: Vec<T>)
    requires
        from <= to <= s@.len(),
    ensures
        v@ == s@.subrange(from as int, to as int),
{
    let mut v: Vec<T> = Vec::new();
    let mut i: usize = from;
    while i < to
        invariant
            from <= i <= to <= s@.len(),
            v@ == s@.subrange(from as int, i as int),
        decreases to - i,
    {
        v.push(s[i]);
        i += 1;
    }
    v
}

/// Appends the elements of `tail` to `v`.
pub fn append_all<T: Copy>(v: &mut Vec<T>, tail: &[T])
    ensures
        final(v)@ == old(v)@ + tail@,
{
    let mut i: usize = 0;
    while i < tail.len()
        invariant
            i <= tail.len(),
            v@ == old(v)@ + tail@.take(i as int),
        decreases tail.len() - i,
    {
        v.push(tail[i]);
        i += 1;
    }
    assert(tail@.take(tail@.len() as int) == tail@);
}

/// Whether the two slices hold the same characters.
pub fn same_chars(a: &[char], b: &[char]) -> (r: bool)
    ensures
        r == (a@ == b@),
{
    if a.len() != b.len() {
        return false;
    }
    let mut i: usize = 0;
    while i < a.len()
        invariant
            i <= a.len(),
            a.len() == b.len(),
            a@.take(i as int) == b@.take(i as int),
        decreases a.len() - i,
    {
        if a[i] != b[i] {
            return false;
        }
        assert(a@.take(i + 1) == a@.take(i as int).push(a@[i as int]));
        assert(b@.take(i + 1) == b@.take(i as int).push(b@[i as int]));
        i += 1;
    }
    assert(a@.take(a@.len() as int) == a@);
    assert(b@.take(b@.len() as int) == b@);
    true
}

/// Whether the two slices hold the same bytes.
pub fn same_bytes(a: &[u8], b: &[u8]) -> (r: bool)
    ensures
        r == (a@ == b@),
{
    if a.len() != b.len() {
        return false;
    }
    let mut i: usize = 0;
    while i < a.len()
        invariant
            i <= a.len(),
            a.len() == b.len(),
            a@.take(i as int) == b@.take(i as int),
        decreases a.len() - i,
    {
        if a[i] != b[i] {
            return false;
        }
        assert(a@.take(i + 1) == a@.take(i as int).push(a@[i as int]));
        assert(b@.take(i + 1) == b@.take(i as int).push(b@[i as int]));
        i += 1;
    }
    assert(a@.take(a@.len() as int) == a@);
    assert(b@.take(b@.len() as int) == b@);
    true
}

/// Whether the two texts hold the same characters.
pub fn same_text(a: &str, b: &str) -> (r: bool)
    ensures
        r == (a@ == b@),
{
    let r = same_bytes(a.as_bytes(), b.as_bytes());
    proof {
        vstd::utf8::encode_utf8_decode_utf8(a@);
        vstd::utf8::encode_utf8_decode_utf8(b@);
    }
    r
}

/// Position of the first `c` at or after `from`, or `s.len()`.
pub fn find_char(s: &[char], from: usize, c: char) -> (i: usize)
    requires
        from <= s@.len(),
    ensures
        i == from + first_index(s@.skip(from as int), c),
        from <= i <= s@.len(),
{
    let mut i: usize = from;
    while i < s.len() && s[i] != c
        invariant
            from <= i <= s@.len(),
            forall|j: int| from <= j < i ==> s@[j] != c,
        decreases s.len() - i,
    {
        i += 1;
    }
    proof {
        lemma_first_index_unique(s@.skip(from as int), c, i - from);
    }
    i
}

/// Position of the first `b` at or after `from`, or `s.len()`.
pub fn find_byte(s: &[u8], from: usize, b: u8) -> (i: usize)
    requires
        from <= s@.len(),
    ensures
        i == from + first_index(s@.skip(from as int), b),
        from <= i <= s@.len(),
{
    let mut i: usize = from;
    while i < s.len() && s[i] != b
        invariant
            from <= i <= s@.len(),
            forall|j: int| from <= j < i ==> s@[j] != b,
        decreases s.len() - i,
    {
        i += 1;
    }
    proof {
        lemma_first_index_unique(s@.skip(from as int), b, i - from);
    }
    i
}

/// Position of the last `c` in `s`, if there is one.
pub fn rfind_char(s: &[char], c: char) -> (r: Option<usize>)
    ensures
        match r {
            Some(i) => i == last_index(s@, c) && i < s@.len() && s@[i as int] == c,
            None => last_index(s@, c) == -1,
        },
{
    let mut i: usize = s.len();
    while i > 0 && s[i - 1] != c
        invariant
            i <= s@.len(),
            forall|j: int| i <= j < s@.len() ==> s@[j] != c,
        decreases i,
    {
        i -= 1;
    }
    proof {
        lemma_last_index_unique(s@, c, i - 1);
    }
    if i == 0 {
        None
    } else {
        Some(i - 1)
    }
}

/// Whether `pat` occurs in `s` at position `at`.
pub open spec fn occurs_at<T>(s: Seq<T>, at: int, pat: Seq<T>) -> bool {
    0 <= at && at + pat.len() <= s.len() && s.subrange(at, at + pat.len()) == pat
}

/// Whether `pat` occurs in `s` at position `at`.
pub fn has_chars_at(s: &[char], at: usize, pat: &[char]) -> (r: bool)
    ensures
        r == occurs_at(s@, at as int, pat@),
{
    if at > s.len() || pat.len() > s.len() - at {
        return false;
    }
    same_chars(&s[at..at + pat.len()], pat)
}

/// Whether `pat` occurs in `s` at position `at`.
pub fn has_bytes_at(s: &[u8], at: usize, pat: &[u8]) -> (r: bool)
    ensures
        r == occurs_at(s@, at as int, pat@),
{
    if at > s.len() || pat.len() > s.len() - at {
        return false;
    }
    same_bytes(&s[at..at + pat.len()], pat)
}


/// Position of the first occurrence of `pat` in `s` at or after `from`, if
/// there is one.
pub open spec fn first_occurrence<T>(s: Seq<T>, pat: Seq<T>, from: int) -> Option<int>
    decreases s.len() - from + 1,
{
    if from < 0 || from + pat.len() > s.len() {
        None
    } else if occurs_at(s, from, pat) {
        Some(from)
    } else {
        first_occurrence(s, pat, from + 1)
    }
}

/// `first_occurrence` gives a position where `pat` occurs, with no
/// occurrence between `from` and it; it gives none only when `pat` does not
/// occur at or after `from`.
pub proof fn lemma_first_occurrence<T>(s: Seq<T>, pat: Seq<T>, from: int)
    requires
        0 <= from,
    ensures
        match first_occurrence(s, pat, from) {
            Some(i) => from <= i && occurs_at(s, i, pat) && forall|j: int|
                from <= j < i ==> !occurs_at(s, j, pat),
            None => forall|j: int| from <= j ==> !occurs_at(s, j, pat),
        },
    decreases s.len() - from + 1,
{
    if from + pat.len() > s.len() {
    } else if occurs_at(s, from, pat) {
    } else {
        lemma_first_occurrence(s, pat, from + 1);
    }
}

/// Position of the first occurrence of `pat` in `s`, if there is one.
pub fn find_chars(s: &[char], pat: &[char]) -> (r: Option<usize>)
    ensures
        match r {
            Some(i) => first_occurrence(s@, pat@, 0) == Some(i as int) && occurs_at(
                s@,
                i as int,
                pat@,
            ) && forall|j: int| 0 <= j < i ==> !occurs_at(s@, j, pat@),
            None => first_occurrence(s@, pat@, 0) is None && forall|j: int|
                0 <= j ==> !occurs_at(s@, j, pat@),
        },
{
    proof {
        lemma_first_occurrence(s@, pat@, 0);
    }
    if pat.len() > s.len() {
        return None;
    }
    let last: usize = s.len() - pat.len();
    let mut i: usize = 0;
    loop
        invariant
            pat@.len() <= s@.len(),
            last == s@.len() - pat@.len(),
            i <= last,
            first_occurrence(s@, pat@, 0) == first_occurrence(s@, pat@, i as int),
        decreases last - i,
    {
        if has_chars_at(s, i, pat) {
            proof {
                lemma_first_occurrence(s@, pat@, 0);
            }
            return Some(i);
        }
        if i == last {
            proof {
                assert(first_occurrence(s@, pat@, i + 1) is None);
                lemma_first_occurrence(s@, pat@, 0);
            }
            return None;
        }
        i += 1;
    }
}

/// The lines as sequences of characters.
pub open spec fn rows_view(rows: Seq<Vec<char>>) -> Seq<Seq<char>> {
    rows.map_values(|row: Vec<char>| row@)
}

/// Splits a text into its lines, as `lines_of` says.
pub fn text_lines(text: &[char]) -> (rows: Vec<Vec<char>>)
    ensures
        rows_view(rows@) == lines_of(text@),
{
    let mut rows: Vec<Vec<char>> = Vec::new();
    let mut start: usize = 0;
    assert(rows_view(rows@) =~= Seq::empty());
    assert(text@.skip(0) =~= text@);
    while start < text.len()
        invariant
            start <= text.len(),
            rows_view(rows@) + lines_of(text@.skip(start as int)) == lines_of(text@),
        decreases text.len() - start,
    {
        let end = find_char(text, start, '\n');
        let ghost before = rows@;
        let ghost rest = text@.skip(start as int);
        if end == text.len() {
            rows.push(copy_range(text, start, end));
            proof {
                assert(text@.subrange(start as int, end as int) =~= rest);
                assert(rows_view(rows@) =~= rows_view(before).push(rest));
                assert(text@.skip(end as int) =~= Seq::empty());
                assert(rows_view(rows@) + lines_of(text@.skip(end as int)) =~= rows_view(before)
                    + lines_of(rest));
            }
            start = end;
        } else {
            let stop: usize = if end > start && text[end - 1] == '\r' {
                end - 1
            } else {
                end
            };
            rows.push(copy_range(text, start, stop));
            proof {
                assert(rest.take(end - start) =~= text@.subrange(start as int, end as int));
                assert(strip_cr(rest.take(end - start)) =~= text@.subrange(
                    start as int,
                    stop as int,
                ));
                assert(rows_view(rows@) =~= rows_view(before).push(
                    strip_cr(rest.take(end - start)),
                ));
                assert(rest.skip(end - start + 1) =~= text@.skip(end + 1));
                assert(rows_view(rows@) + lines_of(text@.skip(end + 1)) =~= rows_view(before)
                    + lines_of(rest));
            }
            start = end + 1;
        }
    }
    rows
}

/// The lines with a line feed between each two of them.
pub open spec fn join_lines(lines: Seq<Seq<char>>) -> Seq<char>
    decreases lines.len(),
{
    if lines.len() == 0 {
        Seq::empty()
    } else if lines.len() == 1 {
        lines[0]
    } else {
        join_lines(lines.drop_last()) + seq!['\n'] + lines.last()
    }
}

/// Joins the rows from row `from` on with line feeds.
pub fn join_rows(rows: &Vec<Vec<char>>, from: usize) -> (text: Vec<char>)
    requires
        from <= rows.len(),
    ensures
        text@ == join_lines(rows_view(rows@).skip(from as int)),
{
    let ghost tail = rows_view(rows@).skip(from as int);
    let mut text: Vec<char> = Vec::new();
    let mut i: usize = from;
    while i < rows.len()
        invariant
            from <= i <= rows.len(),
            tail == rows_view(rows@).skip(from as int),
            text@ == join_lines(tail.take(i - from)),
        decreases rows.len() - i,
    {
        if i > from {
            text.push('\n');
        }
        append_all(&mut text, rows[i].as_slice());
        proof {
            assert(tail.take(i + 1 - from).drop_last() =~= tail.take(i - from));
            assert(tail.take(i + 1 - from).last() == rows@[i as int]@);
        }
        i += 1;
    }
    assert(tail.take(rows.len() - from) =~= tail);
    text
}


/// The texts as sequences of characters.
pub open spec fn texts(list: Seq<String>) -> Seq<Seq<char>> {
    list.map_values(|t: String| t@)
}

/// Whether `list` holds `text`.
pub fn holds_text(list: &Vec<String>, text: &str) -> (r: bool)
    ensures
        r == texts(list@).contains(text@),
{
    let mut i: usize = 0;
    while i < list.len()
        invariant
            i <= list.len(),
            forall|j: int| 0 <= j < i ==> texts(list@)[j] != text@,
        decreases list.len() - i,
    {
        if same_text(list[i].as_str(), text) {
            assert(texts(list@)[i as int] == text@);
            return true;
        }
        i += 1;
    }
    false
}

/// Whether `text` starts with `prefix`.
pub fn starts_with(text: &str, prefix: &[char]) -> (r: bool)
    ensures
        r == occurs_at(text@, 0, prefix@),
{
    let chars = to_chars(text);
    has_chars_at(chars.as_slice(), 0, prefix)
}

/// Whether `text` is exactly the characters `chars`.
pub fn spells(text: &str, chars: &[char]) -> (r: bool)
    ensures
        r == (text@ == chars@),
{
    let own = to_chars(text);
    same_chars(own.as_slice(), chars)
}


/// Whether `c` is a decimal digit.
pub open spec fn is_digit(c: char) -> bool {
    '0' <= c <= '9'
}

/// Whether all of `s` is decimal digits.
pub open spec fn all_digits(s: Seq<char>) -> bool {
    forall|i: int| 0 <= i < s.len() ==> is_digit(#[trigger] s[i])
}

/// The value of the digit `c`; 0 where it is none.
pub open spec fn digit_value(c: char) -> nat {
    if is_digit(c) {
        (c as int - '0' as int) as nat
    } else {
        0
    }
}

/// The number that the digits spell in decimal.
pub open spec fn digits_value(s: Seq<char>) -> nat
    decreases s.len(),
{
    if s.len() == 0 {
        0
    } else {
        digits_value(s.drop_last()) * 10 + digit_value(s.last())
    }
}

/// The number that `s` spells, as `str::parse::<u64>` reads it: decimal
/// digits, at least one, after at most one plus sign, with a value that
/// fits.
pub open spec fn parse_number(s: Seq<char>) -> Option<u64> {
    let digits = if s.len() > 0 && s[0] == '+' {
        s.skip(1)
    } else {
        s
    };
    if digits.len() > 0 && all_digits(digits) && digits_value(digits) <= u64::MAX {
        Some(digits_value(digits) as u64)
    } else {
        None
    }
}

/// A text spells no less than any of its prefixes.
pub proof fn lemma_digits_value_grows(s: Seq<char>, n: int)
    requires
        0 <= n <= s.len(),
    ensures
        digits_value(s.take(n)) <= digits_value(s),
    decreases s.len(),
{
    if n == s.len() {
        assert(s.take(n) =~= s);
    } else {
        assert(s.drop_last().take(n) =~= s.take(n));
        lemma_digits_value_grows(s.drop_last(), n);
    }
}

/// Reads a decimal number.
pub fn parse_u64(text: &[char]) -> (r: Option<u64>)
    ensures
        r == parse_number(text@),
{
    let n = text.len();
    let start: usize = if n > 0 && text[0] == '+' {
        1
    } else {
        0
    };
    let ghost digits = text@.skip(start as int);
    assert(text@.skip(0) =~= text@);
    if start == n {
        return None;
    }
    let mut value: u64 = 0;
    let mut i: usize = start;
    assert(digits.take(0) =~= Seq::empty());
    while i < n
        invariant
            start <= i <= n,
            start < n,
            n == text@.len(),
            start == (if text@[0] == '+' {
                1int
            } else {
                0int
            }),
            digits == text@.skip(start as int),
            text@.skip(0) == text@,
            all_digits(digits.take(i - start)),
            value == digits_value(digits.take(i - start)),
        decreases n - i,
    {
        let c = text[i];
        if c < '0' || c > '9' {
            assert(!is_digit(digits[i - start]));
            return None;
        }
        let digit: u64 = (c as u32 - '0' as u32) as u64;
        proof {
            assert(digits.take(i + 1 - start).drop_last() =~= digits.take(i - start));
            assert(digits.take(i + 1 - start).last() == c);
            assert(digit == digit_value(c));
            assert(digits_value(digits.take(i + 1 - start)) == value * 10 + digit);
            lemma_digits_value_grows(digits, i + 1 - start);
        }
        if value > (u64::MAX - digit) / 10 {
            return None;
        }
        value = value * 10 + digit;
        i += 1;
    }
    assert(digits.take(n - start) =~= digits);
    Some(value)
}

/// The path of `name` in the directory at `dir`.
pub open spec fn path_in(dir: Seq<char>, name: Seq<char>) -> Seq<char> {
    dir + seq!['/'] + name
}

/// The path of `name` in the directory at `dir`.
pub fn join_dir(dir: &str, name: &str) -> (path: String)
    ensures
        path@ == path_in(dir@, name@),
{
    let mut path = to_chars(dir);
    path.push('/');
    let tail = to_chars(name);
    append_all(&mut path, tail.as_slice());
    from_chars(path.as_slice())
}

} // verus!
