//! From a raw key token to the text of its cell: the display name of the
//! token, and the name centred in a cell of fixed width.

use crate::dictionary::KeymapDictionary;
use crate::scan::{
    char_at, find_char, first_index, last_index, lemma_first_index_is, lemma_last_index_is,
    rfind_char,
};
use crate::text::{
    chars_of, is_whitespace, is_word_char, non_whitespace_at, skip_whitespace,
    skip_whitespace_back, slice_of, string_of, trim, word_char,
};
use vstd::prelude::*;

verus! {

/// The index at which the line of `s` that holds the index `open` ends: that
/// of the first line feed after `open`, or the length of `s`.
pub open spec fn line_end_after(s: Seq<char>, open: int) -> int {
    first_index(char_at(s, '\n'), open + 1, s.len() as int)
}

/// The index of the last closing parenthesis after `open` on its line, and
/// `open` where there is none.
pub open spec fn last_close_after(s: Seq<char>, open: int) -> int {
    last_index(char_at(s, ')'), open + 1, line_end_after(s, open))
}

/// A wrapper call opens at `open`, as a property of the index `open`: an
/// opening parenthesis stands there, a word character stands before it, and a
/// closing parenthesis follows it on the same line.
pub open spec fn wrapper_open_at(s: Seq<char>) -> spec_fn(int) -> bool {
    |open: int|
        1 <= open < s.len() && s[open] == '(' && is_word_char(s[open - 1]) && last_close_after(
            s,
            open,
        ) > open
}

/// A token without its wrapper: the text between the parentheses of the
/// first wrapper call in it, from its opening parenthesis to the last closing
/// one on that line. A token that holds no wrapper call is left as it is.
pub open spec fn unwrapped(s: Seq<char>) -> Seq<char> {
    let open = first_index(wrapper_open_at(s), 0, s.len() as int);
    if open < s.len() {
        s.subrange(open + 1, last_close_after(s, open))
    } else {
        s
    }
}

/// `s` without its commas.
pub open spec fn without_commas(s: Seq<char>) -> Seq<char> {
    s.filter(|c: char| c != ',')
}

/// The text under which a raw token is looked up: the token without the white
/// space around it, without its wrapper and without commas.
pub open spec fn cleaned_token(token: Seq<char>) -> Seq<char> {
    without_commas(unwrapped(trim(token)))
}

/// The display name of a raw token: the name that the dictionary gives to its
/// cleaned text, and the cleaned text itself where the dictionary has none.
pub open spec fn display_name(token: Seq<char>, dictionary: Map<Seq<char>, Seq<char>>) -> Seq<
    char,
> {
    let key = cleaned_token(token);
    if dictionary.contains_key(key) {
        dictionary[key]
    } else {
        key
    }
}

/// The index of the last closing parenthesis after `open` on its line, if
/// there is one.
fn find_last_close(v: &Vec<char>, open: usize) -> (r: Option<usize>)
    requires
        open < v.len(),
    ensures
        match r {
            Some(close) => close == last_close_after(v@, open as int) && open < close < v.len(),
            None => last_close_after(v@, open as int) == open,
        },
{
    let end = find_char(v, '\n', open + 1, v.len());
    rfind_char(v, ')', open + 1, end)
}

/// The bounds in `v` of [`unwrapped`]`(v)`.
fn unwrapped_bounds(v: &Vec<char>) -> (r: (usize, usize))
    ensures
        r.0 <= r.1 <= v.len(),
        v@.subrange(r.0 as int, r.1 as int) == unwrapped(v@),
{
    let n = v.len();
    let mut open: usize = 1;
    while open < n
        invariant
            1 <= open,
            n == v.len(),
            forall|j: int| 0 <= j < open && j < n ==> !#[trigger] wrapper_open_at(v@)(j),
        decreases n - open,
    {
        if v[open] == '(' && word_char(v[open - 1]) {
            if let Some(close) = find_last_close(v, open) {
                proof {
                    lemma_first_index_is(wrapper_open_at(v@), 0, n as int, open as int);
                }
                return (open + 1, close);
            }
        }
        open = open + 1;
    }
    proof {
        lemma_first_index_is(wrapper_open_at(v@), 0, n as int, n as int);
        assert(v@.subrange(0, n as int) == v@);
    }
    (0, n)
}

/// The display name of the raw key token `keycode`.
pub fn get_key_code_human_readable(keycode: &str, keymap_dictionary: &KeymapDictionary) -> (name:
    String)
    ensures
        name@ == display_name(keycode@, keymap_dictionary@),
{
    let raw = chars_of(keycode);
    let a = skip_whitespace(&raw, 0, raw.len());
    let b = skip_whitespace_back(&raw, a, raw.len());
    let trimmed = slice_of(&raw, a, b);
    assert(trimmed@ == trim(keycode@));
    let (from, to) = unwrapped_bounds(&trimmed);
    let mut key = String::new();
    let mut i: usize = from;
    while i < to
        invariant
            from <= i <= to <= trimmed.len(),
            key@ == without_commas(trimmed@.subrange(from as int, i as int)),
        decreases to - i,
    {
        proof {
            let part = trimmed@.subrange(from as int, i as int);
            let next = trimmed@.subrange(from as int, i + 1);
            assert(next == part.push(trimmed@[i as int]));
            Seq::lemma_filter_push(part, trimmed@[i as int], |c: char| c != ',');
        }
        if trimmed[i] != ',' {
            key.push(trimmed[i]);
        }
        i = i + 1;
    }
    assert(key@ == cleaned_token(keycode@));
    match keymap_dictionary.get(key.as_str()) {
        Some(found) => found.clone(),
        None => key,
    }
}

/// A run of `count` spaces.
pub open spec fn spaces(count: int) -> Seq<char> {
    Seq::new(count as nat, |i: int| ' ')
}

/// The part of a display name that fits in a cell: its first `width`
/// characters.
pub open spec fn shown_part(name: Seq<char>, width: int) -> Seq<char> {
    if name.len() > width {
        name.take(width)
    } else {
        name
    }
}

/// The text of the cell of a key: a pipe, then the shown part of the name
/// centred in `width` characters. Of an odd number of padding spaces the
/// right side takes one more than the left.
pub open spec fn cell_text(name: Seq<char>, width: int) -> Seq<char> {
    let shown = shown_part(name, width);
    let padding = width - shown.len();
    seq!['|'] + spaces(padding / 2) + shown + spaces(padding - padding / 2)
}

/// A cell is one character wider than its text, whatever the name.
pub proof fn lemma_cell_text_len(name: Seq<char>, width: int)
    requires
        width >= 0,
    ensures
        cell_text(name, width).len() == width + 1,
        cell_text(name, width)[0] == '|',
{
}

/// Appends `count` spaces to `output`.
pub(crate) fn push_spaces(output: &mut String, count: usize)
    ensures
        final(output)@ == old(output)@ + spaces(count as int),
{
    let mut i: usize = 0;
    while i < count
        invariant
            i <= count,
            output@ == old(output)@ + spaces(i as int),
        decreases count - i,
    {
        output.push(' ');
        i = i + 1;
        assert(spaces(i as int) == spaces(i - 1).push(' '));
    }
}

/// The part of the display name `name` that fits in a cell of `cell_width`
/// characters.
pub fn shown_name(name: &str, cell_width: usize) -> (shown: String)
    ensures
        shown@ == shown_part(name@, cell_width as int),
{
    let all = chars_of(name);
    if all.len() > cell_width {
        string_of(&all, 0, cell_width)
    } else {
        assert(all@.subrange(0, all.len() as int) == all@);
        string_of(&all, 0, all.len())
    }
}

/// The text of the cell of a key with the display name `key_str`, for cells
/// of `cell_width` characters.
pub fn create_key_gui(key_str: &str, cell_width: usize) -> (cell: String)
    ensures
        cell@ == cell_text(key_str@, cell_width as int),
{
    let name = chars_of(key_str);
    let shown: usize = if name.len() > cell_width {
        cell_width
    } else {
        name.len()
    };
    let padding: usize = cell_width - shown;
    let left_pad: usize = padding / 2;
    let right_pad: usize = padding - left_pad;
    let mut cell = String::new();
    cell.push('|');
    push_spaces(&mut cell, left_pad);
    let ghost head = cell@;
    let mut i: usize = 0;
    while i < shown
        invariant
            i <= shown <= name.len(),
            cell@ == head + name@.take(i as int),
        decreases shown - i,
    {
        cell.push(name[i]);
        i = i + 1;
        assert(name@.take(i as int) == name@.take(i - 1).push(name@[i - 1]));
    }
    push_spaces(&mut cell, right_pad);
    proof {
        assert(name@.take(shown as int) == shown_part(key_str@, cell_width as int));
        assert(head == seq!['|'] + spaces(left_pad as int));
    }
    cell
}

/// A token without a parenthesis is its own unwrapped text.
pub proof fn lemma_unwrapped_plain(s: Seq<char>)
    requires
        forall|i: int| 0 <= i < s.len() ==> s[i] != '(',
    ensures
        unwrapped(s) == s,
{
    lemma_first_index_is(wrapper_open_at(s), 0, s.len() as int, s.len() as int);
}

/// A text without a comma is left as it is when the commas are taken out.
pub proof fn lemma_without_commas_plain(s: Seq<char>)
    requires
        forall|i: int| 0 <= i < s.len() ==> s[i] != ',',
    ensures
        without_commas(s) == s,
    decreases s.len(),
{
    reveal(Seq::filter);
    if s.len() > 0 {
        lemma_without_commas_plain(s.drop_last());
        assert(s.drop_last().push(s.last()) == s);
    }
}

/// A token that holds no parenthesis and no comma, and has no white space
/// around it, is looked up as it is: its display name is the name that the
/// dictionary gives it, and the token itself where the dictionary has none.
pub proof fn lemma_plain_token(token: Seq<char>, dictionary: Map<Seq<char>, Seq<char>>)
    requires
        trim(token) == token,
        forall|i: int| 0 <= i < token.len() ==> #[trigger] token[i] != '(' && token[i] != ',',
    ensures
        cleaned_token(token) == token,
        display_name(token, dictionary) == if dictionary.contains_key(token) {
            dictionary[token]
        } else {
            token
        },
{
    lemma_unwrapped_plain(token);
    lemma_without_commas_plain(token);
}

/// A wrapped token has the display name of its inner token: `name(inner)` is
/// shown as `inner` is, where `name` is a run of word characters, none of them
/// white space or a parenthesis, and `inner` stands on one line, holds no
/// opening parenthesis and has no white space around it.
pub proof fn lemma_wrapped_token(
    name: Seq<char>,
    inner: Seq<char>,
    dictionary: Map<Seq<char>, Seq<char>>,
)
    requires
        name.len() > 0,
        forall|i: int|
            0 <= i < name.len() ==> is_word_char(#[trigger] name[i]) && name[i] != '('
                && !is_whitespace(name[i]),
        forall|i: int| 0 <= i < inner.len() ==> #[trigger] inner[i] != '(' && inner[i] != '\n',
        trim(inner) == inner,
    ensures
        display_name(name + seq!['('] + inner + seq![')'], dictionary) == display_name(
            inner,
            dictionary,
        ),
{
    let s = name + seq!['('] + inner + seq![')'];
    let n = name.len() as int;
    let len = s.len() as int;
    assert(len == n + inner.len() + 2);
    assert(forall|i: int| 0 <= i < n ==> s[i] == name[i]);
    assert(s[n] == '(');
    assert(forall|i: int| 0 <= i < inner.len() ==> s[n + 1 + i] == inner[i]);
    assert(s[len - 1] == ')');
    // no white space stands around the wrapped token
    assert(trim(s) == s) by {
        assert(non_whitespace_at(s)(0)) by {
            assert(s[0] == name[0]);
        }
        lemma_first_index_is(non_whitespace_at(s), 0, len, 0);
        assert(non_whitespace_at(s)(len - 1));
        lemma_last_index_is(non_whitespace_at(s), 0, len, len - 1);
        assert(s.subrange(0, len) == s);
    }
    // its wrapper opens after the name and closes at its end
    assert(unwrapped(s) == inner) by {
        assert forall|j: int| n + 1 <= j < len implies !#[trigger] char_at(s, '\n')(j) by {
            if j < len - 1 {
                assert(s[j] == inner[j - n - 1]);
            }
        }
        lemma_first_index_is(char_at(s, '\n'), n + 1, len, len);
        assert(char_at(s, ')')(len - 1));
        lemma_last_index_is(char_at(s, ')'), n + 1, len, len - 1);
        assert(last_close_after(s, n) == len - 1);
        assert(wrapper_open_at(s)(n)) by {
            assert(s[n - 1] == name[n - 1]);
        }
        assert forall|j: int| 0 <= j < n implies !#[trigger] wrapper_open_at(s)(j) by {
            assert(s[j] == name[j]);
        }
        lemma_first_index_is(wrapper_open_at(s), 0, len, n);
        assert(s.subrange(n + 1, len - 1) == inner);
    }
    lemma_unwrapped_plain(inner);
}

} // verus!
