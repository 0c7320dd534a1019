//! White space, digits, lines and decimal numbers, and conversions between
//! strings and vectors of characters.

use crate::scan::{
    char_at, find_char, first_index, last_index, lemma_first_index, lemma_first_index_is,
    lemma_last_index_is,
};
use crate::trusted::{unicode_digit, unicode_digit_char, unicode_word_char};
use vstd::prelude::*;

verus! {

/// Whether `c` has the Unicode `White_Space` property.
pub open spec fn is_whitespace(c: char) -> bool {
    let n = c as u32;
    ||| 0x09 <= n <= 0x0d
    ||| n == 0x20
    ||| n == 0x85
    ||| n == 0xa0
    ||| n == 0x1680
    ||| 0x2000 <= n <= 0x200a
    ||| n == 0x2028
    ||| n == 0x2029
    ||| n == 0x202f
    ||| n == 0x205f
    ||| n == 0x3000
}

/// Decides [`is_whitespace`].
pub fn whitespace(c: char) -> (r: bool)
    ensures
        r == is_whitespace(c),
{
    let n: u32 = c as u32;
    (0x09 <= n && n <= 0x0d) || n == 0x20 || n == 0x85 || n == 0xa0 || n == 0x1680 || (0x2000 <= n
        && n <= 0x200a) || n == 0x2028 || n == 0x2029 || n == 0x202f || n == 0x205f || n == 0x3000
}

/// Whether `c` is a word character: below U+0080 a letter, a digit or the
/// underscore, above it a character of the Unicode word class.
pub open spec fn is_word_char(c: char) -> bool {
    if (c as u32) < 0x80 {
        ||| '0' <= c <= '9'
        ||| 'A' <= c <= 'Z'
        ||| 'a' <= c <= 'z'
        ||| c == '_'
    } else {
        unicode_word_char(c)
    }
}

/// Decides [`is_word_char`].
pub fn word_char(c: char) -> (r: bool)
    ensures
        r == is_word_char(c),
{
    if (c as u32) < 0x80 {
        ('0' <= c && c <= '9') || ('A' <= c && c <= 'Z') || ('a' <= c && c <= 'z') || c == '_'
    } else {
        regex_syntax::is_word_character(c)
    }
}

/// Whether `c` is a decimal digit: below U+0080 one of `0` to `9`, above it a
/// character of the Unicode class of decimal digits.
pub open spec fn is_digit(c: char) -> bool {
    if (c as u32) < 0x80 {
        '0' <= c <= '9'
    } else {
        unicode_digit_char(c)
    }
}

/// Decides [`is_digit`].
pub fn digit(c: char) -> (r: bool)
    ensures
        r == is_digit(c),
{
    if (c as u32) < 0x80 {
        '0' <= c && c <= '9'
    } else {
        unicode_digit(c)
    }
}

/// The characters of `s`, in order.
pub fn chars_of(s: &str) -> (v: Vec<char>)
    ensures
        v@ == s@,
{
    let mut v: Vec<char> = Vec::new();
    for c in it: s.chars()
        invariant
            it.seq() == s@,
            v@ == s@.take(it.index()),
    {
        v.push(c);
    }
    v
}

/// The string made of `v[from..to]`.
pub(crate) fn string_of(v: &Vec<char>, from: usize, to: usize) -> (s: String)
    requires
        from <= to <= v.len(),
    ensures
        s@ == v@.subrange(from as int, to as int),
{
    let mut s = String::new();
    let mut i: usize = from;
    while i < to
        invariant
            from <= i <= to <= v.len(),
            s@ == v@.subrange(from as int, i as int),
        decreases to - i,
    {
        s.push(v[i]);
        i = i + 1;
    }
    s
}

/// The copy of `v[from..to]`.
pub(crate) fn slice_of(v: &Vec<char>, from: usize, to: usize) -> (part: Vec<char>)
    requires
        from <= to <= v.len(),
    ensures
        part@ == v@.subrange(from as int, to as int),
{
    let mut part: Vec<char> = Vec::new();
    let mut i: usize = from;
    while i < to
        invariant
            from <= i <= to <= v.len(),
            part@ == v@.subrange(from as int, i as int),
        decreases to - i,
    {
        part.push(v[i]);
        i = i + 1;
    }
    part
}

/// Appends the characters of `part` to `out`.
pub(crate) fn append_chars(out: &mut Vec<char>, part: &Vec<char>)
    ensures
        final(out)@ == old(out)@ + part@,
{
    let mut i: usize = 0;
    while i < part.len()
        invariant
            i <= part.len(),
            out@ == old(out)@ + part@.take(i as int),
        decreases part.len() - i,
    {
        out.push(part[i]);
        i = i + 1;
    }
}

/// `s[i]` is no white space, as a property of the index `i`.
pub open spec fn non_whitespace_at(s: Seq<char>) -> spec_fn(int) -> bool {
    |i: int| 0 <= i < s.len() && !is_whitespace(s[i])
}

/// `s` without the white space at its start.
pub open spec fn trim_start(s: Seq<char>) -> Seq<char> {
    s.skip(first_index(non_whitespace_at(s), 0, s.len() as int))
}

/// `s` without the white space at its start and at its end.
pub open spec fn trim(s: Seq<char>) -> Seq<char> {
    let a = first_index(non_whitespace_at(s), 0, s.len() as int);
    let b = last_index(non_whitespace_at(s), a, s.len() as int) + 1;
    s.subrange(a, b)
}

/// The first index in `[from, to)` that holds no white space, or `to`.
pub(crate) fn skip_whitespace(v: &Vec<char>, from: usize, to: usize) -> (r: usize)
    requires
        from <= to <= v.len(),
    ensures
        r == first_index(non_whitespace_at(v@), from as int, to as int),
        from <= r <= to,
{
    let mut i: usize = from;
    while i < to && whitespace(v[i])
        invariant
            from <= i <= to <= v.len(),
            forall|j: int| from <= j < i ==> !#[trigger] non_whitespace_at(v@)(j),
        decreases to - i,
    {
        i = i + 1;
    }
    proof {
        lemma_first_index_is(non_whitespace_at(v@), from as int, to as int, i as int);
    }
    i
}

/// The index just past the last one in `[from, to)` that holds no white
/// space, or `from`.
pub(crate) fn skip_whitespace_back(v: &Vec<char>, from: usize, to: usize) -> (r: usize)
    requires
        from <= to <= v.len(),
    ensures
        r == last_index(non_whitespace_at(v@), from as int, to as int) + 1,
        from <= r <= to,
{
    let mut i: usize = to;
    while i > from && whitespace(v[i - 1])
        invariant
            from <= i <= to <= v.len(),
            forall|j: int| i <= j < to ==> !#[trigger] non_whitespace_at(v@)(j),
        decreases i,
    {
        i = i - 1;
    }
    proof {
        lemma_last_index_is(non_whitespace_at(v@), from as int, to as int, i - 1);
    }
    i
}

/// `line` without the carriage return at its end, where it ends in one.
pub open spec fn without_carriage_return(line: Seq<char>) -> Seq<char> {
    if line.len() > 0 && line.last() == '\r' {
        line.drop_last()
    } else {
        line
    }
}

/// The lines of `s` from the index `from` on. A line ends before a line feed,
/// and before the carriage return that stands in front of that line feed,
/// where one does. What follows the last line feed is a line if it is not
/// empty.
pub open spec fn lines_from(s: Seq<char>, from: int) -> Seq<Seq<char>>
    decreases s.len() - from,
{
    if from >= s.len() {
        Seq::empty()
    } else {
        let feed = first_index(char_at(s, '\n'), from, s.len() as int);
        proof {
            lemma_first_index(char_at(s, '\n'), from, s.len() as int);
        }
        if feed < s.len() {
            seq![without_carriage_return(s.subrange(from, feed))] + lines_from(s, feed + 1)
        } else {
            seq![s.subrange(from, s.len() as int)]
        }
    }
}

/// The lines of `s`.
pub open spec fn lines(s: Seq<char>) -> Seq<Seq<char>> {
    lines_from(s, 0)
}

/// The lines of a text that goes on after a first part, which is empty or
/// ends in a line feed: the lines of the first part, then those of the rest.
pub proof fn lemma_lines_from_prefix(first: Seq<char>, rest: Seq<char>, from: int)
    requires
        0 <= from <= first.len(),
        first.len() == 0 || first.last() == '\n',
    ensures
        lines_from(first + rest, from) == lines_from(first, from) + lines_from(
            first + rest,
            first.len() as int,
        ),
    decreases first.len() - from,
{
    let s = first + rest;
    let tail = lines_from(s, first.len() as int);
    if from < first.len() {
        let feed = first_index(char_at(first, '\n'), from, first.len() as int);
        lemma_first_index(char_at(first, '\n'), from, first.len() as int);
        assert(feed < first.len()) by {
            if feed == first.len() {
                assert(char_at(first, '\n')(first.len() - 1));
            }
        }
        assert forall|j: int| from <= j < feed implies !#[trigger] char_at(s, '\n')(j) by {
            assert(!char_at(first, '\n')(j));
            assert(s[j] == first[j]);
        }
        assert(char_at(s, '\n')(feed)) by {
            assert(char_at(first, '\n')(feed));
            assert(s[feed] == first[feed]);
        }
        lemma_first_index_is(char_at(s, '\n'), from, s.len() as int, feed);
        assert(s.subrange(from, feed) == first.subrange(from, feed));
        lemma_lines_from_prefix(first, rest, feed + 1);
        let head = seq![without_carriage_return(first.subrange(from, feed))];
        assert(head + (lines_from(first, feed + 1) + tail) == (head + lines_from(first, feed + 1))
            + tail);
    } else {
        assert(lines_from(first, from) + tail == tail);
    }
}

/// A line that is added with its line feed to a text that is empty or ends in
/// a line feed is one more line of the text.
pub proof fn lemma_lines_push(text: Seq<char>, line: Seq<char>)
    requires
        text.len() == 0 || text.last() == '\n',
        forall|i: int| 0 <= i < line.len() ==> line[i] != '\n',
        line.len() == 0 || line.last() != '\r',
    ensures
        lines(text + (line + seq!['\n'])) == lines(text).push(line),
{
    let rest = line + seq!['\n'];
    let s = text + rest;
    let from = text.len() as int;
    let feed = from + line.len();
    lemma_lines_from_prefix(text, rest, 0);
    assert forall|j: int| from <= j < feed implies !#[trigger] char_at(s, '\n')(j) by {
        assert(s[j] == line[j - from]);
    }
    assert(char_at(s, '\n')(feed));
    lemma_first_index_is(char_at(s, '\n'), from, s.len() as int, feed);
    assert(s.subrange(from, feed) == line);
    assert(lines_from(s, feed + 1) == Seq::<Seq<char>>::empty());
    assert(lines_from(s, from) == seq![line]);
    assert(lines(text) + seq![line] == lines(text).push(line));
}

/// The lines joined again, with a line feed between each two of them.
pub open spec fn join_lines(lines: Seq<Seq<char>>) -> Seq<char>
    decreases lines.len(),
{
    if lines.len() == 0 {
        Seq::empty()
    } else if lines.len() == 1 {
        lines[0]
    } else {
        join_lines(lines.drop_last()) + seq!['\n'] + lines.last()
    }
}

/// The character of the decimal digit `d`.
pub open spec fn digit_char(d: int) -> char {
    (48 + d) as u8 as char
}

/// The decimal notation of `n`, without leading zeros.
pub open spec fn decimal_text(n: nat) -> Seq<char>
    decreases n,
{
    if n < 10 {
        seq![digit_char(n as int)]
    } else {
        decimal_text(n / 10).push(digit_char((n % 10) as int))
    }
}

/// The decimal notation of a number holds digits and nothing else.
pub proof fn lemma_decimal_text_digits(n: nat)
    ensures
        decimal_text(n).len() >= 1,
        forall|i: int| 0 <= i < decimal_text(n).len() ==> '0' <= #[trigger] decimal_text(n)[i] <= '9',
    decreases n,
{
    if n >= 10 {
        lemma_decimal_text_digits(n / 10);
    }
}

/// Appends the decimal notation of `n` to `output`.
pub(crate) fn push_decimal(output: &mut String, n: usize)
    ensures
        final(output)@ == old(output)@ + decimal_text(n as nat),
    decreases n,
{
    if n >= 10 {
        push_decimal(output, n / 10);
    }
    let d: u8 = (n % 10) as u8;
    output.push((48u8 + d) as char);
    proof {
        let digit = digit_char((n % 10) as int);
        if n < 10 {
            assert(old(output)@.push(digit) == old(output)@ + seq![digit]);
        } else {
            let head = decimal_text((n / 10) as nat);
            assert((old(output)@ + head).push(digit) == old(output)@ + head.push(digit));
        }
    }
}

/// Splits a text into its lines.
pub fn split_lines(text: &str) -> (found: Vec<String>)
    ensures
        found.deep_view() == lines(text@),
{
    let v = chars_of(text);
    let n = v.len();
    let ghost s = v@;
    let mut found: Vec<String> = Vec::new();
    let mut pos: usize = 0;
    while pos < n
        invariant
            pos <= n == v.len(),
            s == v@,
            found.deep_view() + lines_from(s, pos as int) == lines(s),
        decreases n - pos,
    {
        let feed = find_char(&v, '\n', pos, n);
        let end = if feed < n && feed > pos && v[feed - 1] == '\r' {
            feed - 1
        } else {
            feed
        };
        let next = if feed < n {
            feed + 1
        } else {
            n
        };
        let line = string_of(&v, pos, end);
        proof {
            let rest = lines_from(s, next as int);
            if feed < n {
                let whole = s.subrange(pos as int, feed as int);
                if whole.len() > 0 && whole.last() == '\r' {
                    assert(whole.drop_last() == s.subrange(pos as int, feed - 1));
                }
            }
            assert(lines_from(s, pos as int) == seq![line@] + rest);
            assert(found.deep_view().push(line@) + rest == found.deep_view() + lines_from(
                s,
                pos as int,
            ));
        }
        let ghost before = found.deep_view();
        found.push(line);
        assert(found.deep_view() == before.push(line@));
        pos = next;
    }
    assert(found.deep_view() + Seq::<Seq<char>>::empty() == found.deep_view());
    found
}

} // verus!
