//! Extraction of the keyboard layers from the text of a firmware keymap
//! source: the block that holds the layer array, the sub-block of each layer,
//! and the key tokens of each sub-block.

use crate::scan::{
    char_at, find_char, find_pattern, first_index, lemma_first_index, lemma_first_index_is,
    lemma_last_index, occurs_at, rfind_char,
};
use crate::text::{
    append_chars, chars_of, digit, is_digit, is_whitespace, is_word_char, join_lines, lines,
    lines_from, skip_whitespace, slice_of, string_of, trim_start, whitespace, word_char,
};
use vstd::prelude::*;

verus! {

/// Why no layers could be extracted from a source text.
#[derive(Debug, Clone, Copy, PartialEq, Eq, Structural)]
pub enum ExtractionError {
    /// The text holds no layer-array declaration followed by a braced block.
    BlockNotFound,
    /// The block of the layer array holds no layer sub-block.
    LayerNotFound,
}

impl ExtractionError {
    /// What the error says, in words.
    pub open spec fn message_text(self) -> Seq<char> {
        match self {
            ExtractionError::BlockNotFound => "no layer array was found in the keymap source"@,
            ExtractionError::LayerNotFound => "no layer was found in the layer array"@,
        }
    }

    /// What the error says, in words.
    pub fn message(&self) -> (text: String)
        ensures
            text@ == self.message_text(),
    {
        match self {
            ExtractionError::BlockNotFound => {
                "no layer array was found in the keymap source".to_owned()
            },
            ExtractionError::LayerNotFound => "no layer was found in the layer array".to_owned(),
        }
    }
}

/// The keyword that opens the declaration of the layer array.
pub open spec fn declaration_keyword() -> Seq<char> {
    "keymaps"@
}

/// The keyword of the key-matrix dimensions that follows it.
pub open spec fn matrix_keyword() -> Seq<char> {
    "MATRIX"@
}

/// Whether a declaration head precedes the index `open`: the declaration
/// keyword, and after it the matrix keyword, both before `open`.
pub open spec fn declared_before(s: Seq<char>, open: int) -> bool {
    exists|k: int, m: int|
        #![trigger occurs_at(s, declaration_keyword())(k), occurs_at(s, matrix_keyword())(m)]
        occurs_at(s, declaration_keyword())(k) && occurs_at(s, matrix_keyword())(m) && k
            + declaration_keyword().len() <= m && m + matrix_keyword().len() <= open
}

/// Whether the braces at `open` and `close` enclose the layer block of `s`:
/// `close` is the last closing brace of the text, `open` the last opening
/// brace before it, and a declaration head precedes `open`.
pub open spec fn encloses_block(s: Seq<char>, open: int, close: int) -> bool {
    &&& 0 <= open < close < s.len()
    &&& s[open] == '{'
    &&& s[close] == '}'
    &&& forall|j: int| close < j < s.len() ==> s[j] != '}'
    &&& forall|j: int| open < j < close ==> s[j] != '{'
    &&& declared_before(s, open)
}

/// Whether `s` holds a layer block.
pub open spec fn has_block(s: Seq<char>) -> bool {
    exists|open: int, close: int| encloses_block(s, open, close)
}

/// The text of the layer block of `s`, between its braces.
pub open spec fn block_of(s: Seq<char>) -> Seq<char> {
    let (open, close) = choose|open: int, close: int| encloses_block(s, open, close);
    s.subrange(open + 1, close)
}

/// A text has at most one pair of braces that encloses its layer block.
pub proof fn lemma_block_unique(s: Seq<char>, open: int, close: int, open2: int, close2: int)
    requires
        encloses_block(s, open, close),
        encloses_block(s, open2, close2),
    ensures
        open == open2,
        close == close2,
{
}

/// Locates the layer block of `source` and returns the text between its
/// braces.
pub fn locate_block(source: &str) -> (r: Result<String, ExtractionError>)
    ensures
        match r {
            Ok(block) => has_block(source@) && block@ == block_of(source@),
            Err(e) => !has_block(source@) && e == ExtractionError::BlockNotFound,
        },
{
    let v = chars_of(source);
    let n = v.len();
    let ghost s = v@;
    let ghost is_close = char_at(s, '}');
    let ghost is_open = char_at(s, '{');
    let close = match rfind_char(&v, '}', 0, n) {
        Some(i) => i,
        None => {
            proof {
                lemma_last_index(is_close, 0, n as int);
                assert forall|o: int, c: int| !encloses_block(s, o, c) by {
                    if encloses_block(s, o, c) {
                        assert(is_close(c));
                    }
                }
            }
            return Err(ExtractionError::BlockNotFound);
        },
    };
    proof {
        lemma_last_index(is_close, 0, n as int);
        assert(is_close(close as int));
        assert forall|j: int| close < j < n implies s[j] != '}' by {
            assert(!is_close(j));
        }
    }
    let open = match rfind_char(&v, '{', 0, close) {
        Some(i) => i,
        None => {
            proof {
                lemma_last_index(is_open, 0, close as int);
                assert forall|o: int, c: int| !encloses_block(s, o, c) by {
                    if encloses_block(s, o, c) {
                        assert(c == close);
                        assert(is_open(o));
                    }
                }
            }
            return Err(ExtractionError::BlockNotFound);
        },
    };
    proof {
        lemma_last_index(is_open, 0, close as int);
        assert(is_open(open as int));
        assert forall|j: int| open < j < close implies s[j] != '{' by {
            assert(!is_open(j));
        }
    }
    let keyword = chars_of("keymaps");
    let matrix = chars_of("MATRIX");
    let ghost has_keyword = occurs_at(s, declaration_keyword());
    let ghost has_matrix = occurs_at(s, matrix_keyword());
    proof {
        reveal_strlit("keymaps");
        reveal_strlit("MATRIX");
    }
    let k = find_pattern(&v, &keyword, 0);
    proof {
        lemma_first_index(has_keyword, 0, n as int);
    }
    let found = if k < n {
        let m = find_pattern(&v, &matrix, k + keyword.len());
        proof {
            lemma_first_index(has_matrix, k + keyword.len(), n as int);
        }
        m < n && m + matrix.len() <= open
    } else {
        false
    };
    if !found {
        proof {
            assert forall|o: int, c: int| !encloses_block(s, o, c) by {
                if encloses_block(s, o, c) {
                    assert(c == close);
                    assert(o == open);
                    let (k2, m2) = choose|k2: int, m2: int|
                        #![trigger has_keyword(k2), has_matrix(m2)]
                        has_keyword(k2) && has_matrix(m2) && k2 + declaration_keyword().len()
                            <= m2 && m2 + matrix_keyword().len() <= o;
                    assert(k <= k2);
                    assert(k < n);
                    let m = first_index(has_matrix, k + keyword.len(), n as int);
                    assert(m <= m2);
                }
            }
        }
        return Err(ExtractionError::BlockNotFound);
    }
    proof {
        let m = first_index(has_matrix, k + keyword.len(), n as int);
        assert(has_keyword(k as int) && has_matrix(m));
        assert(declared_before(s, open as int));
        assert(encloses_block(s, open as int, close as int));
        let (o2, c2) = choose|o: int, c: int| encloses_block(s, o, c);
        lemma_block_unique(s, open as int, close as int, o2, c2);
    }
    Ok(string_of(&v, open + 1, close))
}

/// `s[i]` is no digit, as a property of the index `i`.
pub open spec fn non_digit_at(s: Seq<char>) -> spec_fn(int) -> bool {
    |i: int| !(0 <= i < s.len() && is_digit(s[i]))
}

/// The index just past the index marker that starts at `i`: an opening
/// bracket, one digit or more, and a closing bracket. `None` where no marker
/// starts at `i`.
pub open spec fn marker_end(s: Seq<char>, i: int) -> Option<int> {
    let d = first_index(non_digit_at(s), i + 1, s.len() as int);
    if 0 <= i < s.len() && s[i] == '[' && i + 1 < d < s.len() && s[d] == ']' {
        Some(d + 1)
    } else {
        None
    }
}

/// The three characters that close a layer stand at `q`: a white-space
/// character, a closing parenthesis and a comma.
pub open spec fn layer_close_at(s: Seq<char>) -> spec_fn(int) -> bool {
    |q: int| 0 <= q && q + 2 < s.len() && is_whitespace(s[q]) && s[q + 1] == ')' && s[q + 2] == ','
}

/// The index just past the layer sub-block that starts at `i`: it runs from
/// an index marker at `i` through the first layer close after the marker.
/// `None` where no marker starts at `i` or no layer close follows it.
pub open spec fn layer_end(s: Seq<char>, i: int) -> Option<int> {
    match marker_end(s, i) {
        Some(h) => {
            let q = first_index(layer_close_at(s), h, s.len() as int);
            if q < s.len() {
                Some(q + 3)
            } else {
                None
            }
        },
        None => None,
    }
}

/// A layer sub-block starts at `i`, as a property of the index `i`.
pub open spec fn layer_start_at(s: Seq<char>) -> spec_fn(int) -> bool {
    |i: int| layer_end(s, i) is Some
}

/// A layer sub-block that starts at `i` ends after `i`, within the text.
pub proof fn lemma_layer_end_bounds(s: Seq<char>, i: int)
    ensures
        layer_end(s, i) matches Some(e) ==> 0 <= i && i + 6 <= e <= s.len(),
{
    if let Some(h) = marker_end(s, i) {
        lemma_first_index(non_digit_at(s), i + 1, s.len() as int);
        lemma_first_index(layer_close_at(s), h, s.len() as int);
    }
}

/// The texts of the layer sub-blocks of `s` that start at or after `from`, in
/// the order of the text: the first one that starts there, then those that
/// start at or after its end.
pub open spec fn layers_from(s: Seq<char>, from: int) -> Seq<Seq<char>>
    decreases s.len() - from,
{
    let p = first_index(layer_start_at(s), from, s.len() as int);
    match layer_end(s, p) {
        Some(e) => {
            proof {
                lemma_layer_end_bounds(s, p);
                if from <= s.len() {
                    lemma_first_index(layer_start_at(s), from, s.len() as int);
                }
            }
            seq![s.subrange(p, e)] + layers_from(s, e)
        },
        None => Seq::empty(),
    }
}

/// The texts of the layer sub-blocks of the block `s`, in the order of the
/// text.
pub open spec fn layer_texts(s: Seq<char>) -> Seq<Seq<char>> {
    layers_from(s, 0)
}

/// The end of the layer sub-block that starts at `i`, if one starts there.
fn layer_end_at(v: &Vec<char>, i: usize) -> (r: Option<usize>)
    requires
        i < v.len(),
    ensures
        match r {
            Some(e) => layer_end(v@, i as int) == Some(e as int) && i < e <= v.len(),
            None => layer_end(v@, i as int) is None,
        },
{
    let n = v.len();
    if v[i] != '[' {
        return None;
    }
    let mut d: usize = i + 1;
    while d < n && digit(v[d])
        invariant
            i < d <= n == v.len(),
            forall|j: int| i < j < d ==> !#[trigger] non_digit_at(v@)(j),
        decreases n - d,
    {
        d = d + 1;
    }
    proof {
        lemma_first_index_is(non_digit_at(v@), i + 1, n as int, d as int);
    }
    if d == i + 1 || d >= n || v[d] != ']' {
        return None;
    }
    let mut q: usize = d + 1;
    while q < n && !(n - q > 2 && whitespace(v[q]) && v[q + 1] == ')' && v[q + 2] == ',')
        invariant
            d < q <= n == v.len(),
            forall|j: int| d < j < q ==> !#[trigger] layer_close_at(v@)(j),
        decreases n - q,
    {
        q = q + 1;
    }
    proof {
        lemma_first_index_is(layer_close_at(v@), d + 1, n as int, q as int);
    }
    if q < n {
        Some(q + 3)
    } else {
        None
    }
}

/// Splits the text of a layer block into the texts of its layer sub-blocks.
pub fn split_layers(block: &str) -> (layers: Vec<String>)
    ensures
        layers.deep_view() == layer_texts(block@),
{
    let v = chars_of(block);
    let n = v.len();
    let ghost s = v@;
    let mut layers: Vec<String> = Vec::new();
    let mut pos: usize = 0;
    let mut p: usize = 0;
    while p < n
        invariant
            pos <= p <= n == v.len(),
            s == v@,
            forall|j: int| pos <= j < p ==> !#[trigger] layer_start_at(s)(j),
            layers.deep_view() + layers_from(s, pos as int) == layers_from(s, 0),
        decreases n - p,
    {
        match layer_end_at(&v, p) {
            Some(e) => {
                let text = string_of(&v, p, e);
                proof {
                    lemma_first_index_is(layer_start_at(s), pos as int, n as int, p as int);
                    let before = layers.deep_view();
                    let after = before.push(text@);
                    assert(layers_from(s, pos as int) == seq![text@] + layers_from(s, e as int));
                    assert(after + layers_from(s, e as int) == before + layers_from(s, pos as int));
                }
                let ghost before = layers.deep_view();
                layers.push(text);
                assert(layers.deep_view() == before.push(text@));
                pos = e;
                p = e;
            },
            None => {
                p = p + 1;
            },
        }
    }
    proof {
        lemma_first_index_is(layer_start_at(s), pos as int, n as int, n as int);
        assert(layer_end(s, n as int) is None);
        assert(layers_from(s, pos as int) == Seq::<Seq<char>>::empty());
        assert(layers.deep_view() + Seq::<Seq<char>>::empty() == layers.deep_view());
    }
    layers
}

/// Whether a line of a layer sub-block holds no key: after the white space
/// at its start it begins a comment or begins with a closing parenthesis, or
/// it ends in an opening parenthesis.
pub open spec fn is_noise_line(line: Seq<char>) -> bool {
    let t = trim_start(line);
    ||| t.len() >= 2 && t[0] == '/' && t[1] == '/'
    ||| t.len() >= 1 && t[0] == ')'
    ||| t.len() >= 1 && t.last() == '('
}

/// The lines that are kept, as a property of a line.
pub open spec fn key_line() -> spec_fn(Seq<char>) -> bool {
    |line: Seq<char>| !is_noise_line(line)
}

/// The text of a layer sub-block without its noise lines: the other lines,
/// joined by line feeds.
pub open spec fn without_noise_lines(layer: Seq<char>) -> Seq<char> {
    join_lines(lines(layer).filter(key_line()))
}

/// Decides [`is_noise_line`].
fn noise_line(line: &Vec<char>) -> (r: bool)
    ensures
        r == is_noise_line(line@),
{
    let n = line.len();
    let a = skip_whitespace(line, 0, n);
    proof {
        let t = trim_start(line@);
        assert(t.len() == n - a);
        assert(forall|i: int| 0 <= i < t.len() ==> t[i] == line@[a + i]);
    }
    (n - a >= 2 && line[a] == '/' && line[a + 1] == '/') || (n - a >= 1 && line[a] == ')') || (n
        - a >= 1 && line[n - 1] == '(')
}

/// Removes the noise lines from the text of a layer sub-block.
pub fn drop_noise_lines(layer: &str) -> (cleaned: String)
    ensures
        cleaned@ == without_noise_lines(layer@),
{
    let v = chars_of(layer);
    let n = v.len();
    let ghost s = v@;
    let mut out: Vec<char> = Vec::new();
    let ghost mut kept: Seq<Seq<char>> = Seq::empty();
    let mut any = false;
    let mut pos: usize = 0;
    while pos < n
        invariant
            pos <= n == v.len(),
            s == v@,
            kept + lines_from(s, pos as int).filter(key_line()) == lines(s).filter(key_line()),
            out@ == join_lines(kept),
            any == (kept.len() > 0),
        decreases n - pos,
    {
        let feed = find_char(&v, '\n', pos, n);
        let end = if feed < n && feed > pos && v[feed - 1] == '\r' {
            feed - 1
        } else {
            feed
        };
        let next = if feed < n {
            feed + 1
        } else {
            n
        };
        let line = slice_of(&v, pos, end);
        let noise = noise_line(&line);
        proof {
            let rest = lines_from(s, next as int);
            if feed < n {
                let whole = s.subrange(pos as int, feed as int);
                if whole.len() > 0 && whole.last() == '\r' {
                    assert(whole.drop_last() == s.subrange(pos as int, feed - 1));
                }
            } else {
                assert(seq![line@] + rest == seq![line@]);
            }
            assert(lines_from(s, pos as int) == seq![line@] + rest);
            Seq::filter_distributes_over_add(seq![line@], rest, key_line());
            reveal_with_fuel(Seq::filter, 2);
            let one = seq![line@].filter(key_line());
            assert(seq![line@].drop_last() == Seq::<Seq<char>>::empty());
            assert(one == if noise {
                Seq::<Seq<char>>::empty()
            } else {
                seq![line@]
            });
            if noise {
                assert(kept + rest.filter(key_line()) == kept + (one + rest.filter(key_line())));
            } else {
                assert(kept.push(line@) + rest.filter(key_line()) == kept + (one + rest.filter(
                    key_line(),
                )));
                assert(kept.push(line@).drop_last() == kept);
            }
        }
        if !noise {
            if any {
                out.push('\n');
            }
            append_chars(&mut out, &line);
            any = true;
            proof {
                kept = kept.push(line@);
            }
        }
        pos = next;
    }
    proof {
        assert(lines_from(s, pos as int) == Seq::<Seq<char>>::empty());
        assert(kept + Seq::<Seq<char>>::empty().filter(key_line()) == kept);
    }
    string_of(&out, 0, out.len())
}

/// `s[i]` is a word character, as a property of the index `i`.
pub open spec fn word_at(s: Seq<char>) -> spec_fn(int) -> bool {
    |i: int| 0 <= i < s.len() && is_word_char(s[i])
}

/// `s[i]` is no word character, as a property of the index `i`.
pub open spec fn non_word_at(s: Seq<char>) -> spec_fn(int) -> bool {
    |i: int| !(0 <= i < s.len() && is_word_char(s[i]))
}

/// The index just past the key token that starts at `p`. The token is the run
/// of word characters from `p` on; where an opening parenthesis follows the
/// run at once and a closing one comes after it, the token goes on through
/// the first closing parenthesis.
pub open spec fn token_end(s: Seq<char>, p: int) -> int {
    let run = first_index(non_word_at(s), p, s.len() as int);
    let close = first_index(char_at(s, ')'), run + 1, s.len() as int);
    if run < s.len() && s[run] == '(' && close < s.len() {
        close + 1
    } else {
        run
    }
}

/// A key token that starts at a word character ends after it, within the
/// text.
pub proof fn lemma_token_end_bounds(s: Seq<char>, p: int)
    requires
        word_at(s)(p),
    ensures
        p < token_end(s, p) <= s.len(),
{
    lemma_first_index(non_word_at(s), p, s.len() as int);
    let run = first_index(non_word_at(s), p, s.len() as int);
    assert(run != p) by {
        if run == p {
            assert(non_word_at(s)(p));
        }
    }
    if run < s.len() {
        lemma_first_index(char_at(s, ')'), run + 1, s.len() as int);
    }
}

/// The key tokens of `s` that start at or after `from`, in the order of the
/// text: the one that starts at the first word character there, then those
/// that start at or after its end.
pub open spec fn tokens_from(s: Seq<char>, from: int) -> Seq<Seq<char>>
    decreases s.len() - from,
{
    let p = first_index(word_at(s), from, s.len() as int);
    if from <= p < s.len() {
        proof {
            lemma_first_index(word_at(s), from, s.len() as int);
            lemma_token_end_bounds(s, p);
        }
        seq![s.subrange(p, token_end(s, p))] + tokens_from(s, token_end(s, p))
    } else {
        Seq::empty()
    }
}

/// The key tokens of `s`, in the order of the text.
pub open spec fn tokens(s: Seq<char>) -> Seq<Seq<char>> {
    tokens_from(s, 0)
}

/// The end of the key token that starts at `p`.
fn token_end_at(v: &Vec<char>, p: usize) -> (e: usize)
    requires
        p < v.len(),
    ensures
        e == token_end(v@, p as int),
{
    let n = v.len();
    let mut run: usize = p;
    while run < n && word_char(v[run])
        invariant
            p <= run <= n == v.len(),
            forall|j: int| p <= j < run ==> !#[trigger] non_word_at(v@)(j),
        decreases n - run,
    {
        run = run + 1;
    }
    proof {
        lemma_first_index_is(non_word_at(v@), p as int, n as int, run as int);
    }
    if run < n && v[run] == '(' {
        let close = find_char(v, ')', run + 1, n);
        if close < n {
            return close + 1;
        }
    }
    run
}

/// Splits a text into its key tokens.
pub fn tokenize(text: &str) -> (found: Vec<String>)
    ensures
        found.deep_view() == tokens(text@),
{
    let v = chars_of(text);
    let n = v.len();
    let ghost s = v@;
    let mut found: Vec<String> = Vec::new();
    let mut pos: usize = 0;
    let mut p: usize = 0;
    while p < n
        invariant
            pos <= p <= n == v.len(),
            s == v@,
            forall|j: int| pos <= j < p ==> !#[trigger] word_at(s)(j),
            found.deep_view() + tokens_from(s, pos as int) == tokens_from(s, 0),
        decreases n - p,
    {
        if word_char(v[p]) {
            let e = token_end_at(&v, p);
            proof {
                lemma_first_index_is(word_at(s), pos as int, n as int, p as int);
                lemma_token_end_bounds(s, p as int);
            }
            let token = string_of(&v, p, e);
            proof {
                let before = found.deep_view();
                assert(tokens_from(s, pos as int) == seq![token@] + tokens_from(s, e as int));
                assert(before.push(token@) + tokens_from(s, e as int) == before + tokens_from(
                    s,
                    pos as int,
                ));
            }
            let ghost before = found.deep_view();
            found.push(token);
            assert(found.deep_view() == before.push(token@));
            pos = e;
            p = e;
        } else {
            p = p + 1;
        }
    }
    proof {
        lemma_first_index_is(word_at(s), pos as int, n as int, n as int);
        assert(tokens_from(s, pos as int) == Seq::<Seq<char>>::empty());
        assert(found.deep_view() + Seq::<Seq<char>>::empty() == found.deep_view());
    }
    found
}

/// The key tokens of one layer sub-block: those of its text without the noise
/// lines.
pub open spec fn layer_tokens(layer: Seq<char>) -> Seq<Seq<char>> {
    tokens(without_noise_lines(layer))
}

/// The layers of a source text that holds a layer block: one sequence of key
/// tokens for each layer sub-block of the block, in the order of the text.
pub open spec fn extracted_layers(source: Seq<char>) -> Seq<Seq<Seq<char>>> {
    layer_texts(block_of(source)).map_values(|layer: Seq<char>| layer_tokens(layer))
}

/// Whether `source` holds a layer block with at least one layer sub-block in
/// it: what the extraction of its layers asks for.
pub open spec fn has_layers(source: Seq<char>) -> bool {
    has_block(source) && layer_texts(block_of(source)).len() > 0
}

/// Why the layers of `source` cannot be extracted, if they cannot: the text
/// holds no layer block, or its block holds no layer sub-block.
pub open spec fn extraction_failure(source: Seq<char>) -> Option<ExtractionError> {
    if !has_block(source) {
        Some(ExtractionError::BlockNotFound)
    } else if layer_texts(block_of(source)).len() == 0 {
        Some(ExtractionError::LayerNotFound)
    } else {
        None
    }
}

/// Extracts the layers of key tokens from the text of a keymap source. Fails
/// where the text holds no layer block, and where the block holds no layer
/// sub-block: no model without layers is given. There is one layer for each
/// layer sub-block of the block, in the order of the text, and it holds the
/// key tokens of that sub-block in their order; a sub-block without keys
/// gives a layer without tokens.
pub fn parse_keymap(source: &str) -> (r: Result<Vec<Vec<String>>, ExtractionError>)
    ensures
        match r {
            Ok(layers) => {
                &&& has_layers(source@)
                &&& layers.deep_view() == extracted_layers(source@)
                &&& layers.len() == layer_texts(block_of(source@)).len()
                &&& layers.len() > 0
                &&& forall|i: int|
                    0 <= i < layers.len() ==> (#[trigger] layers[i]).deep_view() == layer_tokens(
                        layer_texts(block_of(source@))[i],
                    )
            },
            Err(ExtractionError::BlockNotFound) => !has_block(source@),
            Err(ExtractionError::LayerNotFound) => has_block(source@) && layer_texts(
                block_of(source@),
            ).len() == 0,
        },
        r is Ok <==> has_layers(source@),
        r is Err <==> extraction_failure(source@) == Some(r->Err_0),
{
    let block = match locate_block(source) {
        Ok(block) => block,
        Err(e) => {
            return Err(ExtractionError::BlockNotFound);
        },
    };
    let texts = split_layers(block.as_str());
    if texts.len() == 0 {
        return Err(ExtractionError::LayerNotFound);
    }
    let ghost wanted = extracted_layers(source@);
    let mut layers: Vec<Vec<String>> = Vec::new();
    let mut i: usize = 0;
    while i < texts.len()
        invariant
            i <= texts.len(),
            texts.deep_view() == layer_texts(block_of(source@)),
            wanted == extracted_layers(source@),
            layers.deep_view() == wanted.take(i as int),
        decreases texts.len() - i,
    {
        let cleaned = drop_noise_lines(texts[i].as_str());
        let found = tokenize(cleaned.as_str());
        proof {
            assert(texts.deep_view()[i as int] == texts[i as int]@);
            assert(found.deep_view() == wanted[i as int]);
            assert(wanted.take(i + 1) == wanted.take(i as int).push(wanted[i as int]));
        }
        let ghost before = layers.deep_view();
        layers.push(found);
        assert(layers.deep_view() == before.push(found.deep_view()));
        i = i + 1;
    }
    assert(wanted.take(texts.len() as int) == wanted);
    assert forall|i: int| 0 <= i < layers.len() implies (#[trigger] layers[i]).deep_view()
        == layer_tokens(layer_texts(block_of(source@))[i]) by {
        assert(layers.deep_view()[i] == layers[i].deep_view());
    }
    Ok(layers)
}

/// The rows of a layer: its key tokens in runs of `columns`, the last run
/// holding what is left.
pub open spec fn rows_of(keys: Seq<Seq<char>>, columns: int) -> Seq<Seq<Seq<char>>>
    decreases keys.len(),
{
    if columns <= 0 || keys.len() == 0 {
        Seq::empty()
    } else if keys.len() <= columns {
        seq![keys]
    } else {
        seq![keys.take(columns)] + rows_of(keys.skip(columns), columns)
    }
}

/// The rows of a layer hold its keys and nothing else: one after the other
/// they are the keys in their order, and each row holds at least one key and
/// at most `columns`.
pub proof fn lemma_rows_hold_keys(keys: Seq<Seq<char>>, columns: int)
    requires
        columns > 0,
    ensures
        rows_of(keys, columns).flatten() == keys,
        forall|r: int|
            0 <= r < rows_of(keys, columns).len() ==> 1 <= (#[trigger] rows_of(
                keys,
                columns,
            )[r]).len() <= columns,
    decreases keys.len(),
{
    let rows = rows_of(keys, columns);
    if keys.len() == 0 {
    } else if keys.len() <= columns {
        rows.lemma_flatten_one_element();
    } else {
        let rest = rows_of(keys.skip(columns), columns);
        lemma_rows_hold_keys(keys.skip(columns), columns);
        assert(rows.first() == keys.take(columns));
        assert(rows.drop_first() == rest);
        assert(keys.take(columns) + keys.skip(columns) == keys);
        assert forall|r: int| 0 <= r < rows.len() implies 1 <= (#[trigger] rows[r]).len()
            <= columns by {
            if r > 0 {
                assert(rows[r] == rest[r - 1]);
            }
        }
    }
}

/// Cuts the key tokens of one layer into rows of `columns` keys.
pub fn split_rows(keys: &Vec<String>, columns: usize) -> (rows: Vec<Vec<String>>)
    requires
        columns > 0,
    ensures
        rows.deep_view() == rows_of(keys.deep_view(), columns as int),
{
    let n = keys.len();
    let ghost all = keys.deep_view();
    let mut rows: Vec<Vec<String>> = Vec::new();
    let mut start: usize = 0;
    proof {
        assert(all.skip(0) == all);
        assert(rows.deep_view() + rows_of(all, columns as int) == rows_of(all, columns as int));
    }
    while start < n
        invariant
            start <= n == keys.len(),
            columns > 0,
            all == keys.deep_view(),
            rows.deep_view() + rows_of(all.skip(start as int), columns as int) == rows_of(
                all,
                columns as int,
            ),
        decreases n - start,
    {
        let end = if n - start > columns {
            start + columns
        } else {
            n
        };
        let mut row: Vec<String> = Vec::new();
        let mut i: usize = start;
        while i < end
            invariant
                start <= i <= end <= n == keys.len(),
                all == keys.deep_view(),
                row.deep_view() == all.subrange(start as int, i as int),
            decreases end - i,
        {
            let ghost before = row.deep_view();
            row.push(keys[i].clone());
            assert(row.deep_view() == before.push(all[i as int]));
            i = i + 1;
        }
        proof {
            let left = all.skip(start as int);
            let rest = rows_of(all.skip(end as int), columns as int);
            if n - start > columns {
                assert(left.take(columns as int) == row.deep_view());
                assert(left.skip(columns as int) == all.skip(end as int));
            } else {
                assert(left == row.deep_view());
                assert(all.skip(end as int).len() == 0);
                assert(seq![row.deep_view()] + rest == seq![row.deep_view()]);
            }
            assert(rows_of(left, columns as int) == seq![row.deep_view()] + rest);
            assert(rows.deep_view().push(row.deep_view()) + rest == rows.deep_view() + rows_of(
                left,
                columns as int,
            ));
        }
        let ghost before = rows.deep_view();
        rows.push(row);
        assert(rows.deep_view() == before.push(row.deep_view()));
        start = end;
    }
    proof {
        assert(all.skip(start as int).len() == 0);
        assert(rows.deep_view() + Seq::<Seq<Seq<char>>>::empty() == rows.deep_view());
    }
    rows
}

/// The layers of a source text, each cut into rows of `columns` keys.
pub open spec fn extracted_rows(source: Seq<char>, columns: int) -> Seq<Seq<Seq<Seq<char>>>> {
    extracted_layers(source).map_values(|keys: Seq<Seq<char>>| rows_of(keys, columns))
}

/// Extracts the layers of a keymap source as [`parse_keymap`] does, failing
/// where it fails, and cuts each layer into rows of `columns` keys.
pub fn parse_full_keymap(source: &str, columns: usize) -> (r: Result<
    Vec<Vec<Vec<String>>>,
    ExtractionError,
>)
    requires
        columns > 0,
    ensures
        match r {
            Ok(layers) => {
                &&& has_layers(source@)
                &&& layers.deep_view() == extracted_rows(source@, columns as int)
                &&& layers.len() == layer_texts(block_of(source@)).len()
                &&& layers.len() > 0
            },
            Err(ExtractionError::BlockNotFound) => !has_block(source@),
            Err(ExtractionError::LayerNotFound) => has_block(source@) && layer_texts(
                block_of(source@),
            ).len() == 0,
        },
        r is Ok <==> has_layers(source@),
        r is Err <==> extraction_failure(source@) == Some(r->Err_0),
{
    let keymap = match parse_keymap(source) {
        Ok(keymap) => keymap,
        Err(e) => {
            return Err(e);
        },
    };
    let ghost wanted = extracted_rows(source@, columns as int);
    let mut layers: Vec<Vec<Vec<String>>> = Vec::new();
    let mut i: usize = 0;
    while i < keymap.len()
        invariant
            i <= keymap.len(),
            columns > 0,
            keymap.deep_view() == extracted_layers(source@),
            wanted == extracted_rows(source@, columns as int),
            layers.deep_view() == wanted.take(i as int),
        decreases keymap.len() - i,
    {
        let rows = split_rows(&keymap[i], columns);
        proof {
            assert(keymap.deep_view()[i as int] == keymap[i as int].deep_view());
            assert(rows.deep_view() == wanted[i as int]);
            assert(wanted.take(i + 1) == wanted.take(i as int).push(wanted[i as int]));
        }
        let ghost before = layers.deep_view();
        layers.push(rows);
        assert(layers.deep_view() == before.push(rows.deep_view()));
        i = i + 1;
    }
    assert(wanted.take(keymap.len() as int) == wanted);
    Ok(layers)
}

/// A layer sub-block stands at `[p, end)` where an opening bracket stands at
/// `p`, digits fill `(p, bracket)`, a closing bracket stands at `bracket`,
/// and the first layer close after the bracket is the one that ends at `end`.
pub proof fn lemma_layer_stands_at(s: Seq<char>, p: int, bracket: int, end: int)
    requires
        0 <= p && p + 1 < bracket && bracket + 3 < end <= s.len(),
        s[p] == '[',
        forall|j: int| p < j < bracket ==> is_digit(#[trigger] s[j]),
        s[bracket] == ']',
        layer_close_at(s)(end - 3),
        forall|j: int| bracket < j < end - 3 ==> !#[trigger] layer_close_at(s)(j),
    ensures
        layer_end(s, p) == Some(end),
{
    assert forall|j: int| p + 1 <= j < bracket implies !#[trigger] non_digit_at(s)(j) by {
        assert(is_digit(s[j]));
    }
    assert(non_digit_at(s)(bracket)) by {
        assert(!is_digit(']'));
    }
    lemma_first_index_is(non_digit_at(s), p + 1, s.len() as int, bracket);
    lemma_first_index_is(layer_close_at(s), bracket + 1, s.len() as int, end - 3);
}

/// A key entry that is an identifier stands at `[p, end)` where word
/// characters fill the range and what follows it, if anything does, is
/// neither a word character nor an opening parenthesis.
pub proof fn lemma_identifier_stands_at(s: Seq<char>, p: int, end: int)
    requires
        0 <= p < end <= s.len(),
        forall|j: int| p <= j < end ==> is_word_char(#[trigger] s[j]),
        end < s.len() ==> !is_word_char(s[end]) && s[end] != '(',
    ensures
        word_at(s)(p),
        token_end(s, p) == end,
{
    assert forall|j: int| p <= j < end implies !#[trigger] non_word_at(s)(j) by {
        assert(is_word_char(s[j]));
    }
    lemma_first_index_is(non_word_at(s), p, s.len() as int, end);
}

/// A key entry that is a call stands at `[p, end)` where word characters
/// fill `[p, open)`, an opening parenthesis stands at `open`, and the first
/// closing parenthesis after it is the last character of the range.
pub proof fn lemma_call_stands_at(s: Seq<char>, p: int, open: int, end: int)
    requires
        0 <= p < open && open + 1 < end <= s.len(),
        forall|j: int| p <= j < open ==> is_word_char(#[trigger] s[j]),
        s[open] == '(',
        s[end - 1] == ')',
        forall|j: int| open < j < end - 1 ==> #[trigger] s[j] != ')',
    ensures
        word_at(s)(p),
        token_end(s, p) == end,
{
    assert forall|j: int| p <= j < open implies !#[trigger] non_word_at(s)(j) by {
        assert(is_word_char(s[j]));
    }
    assert(non_word_at(s)(open)) by {
        assert(!is_word_char('('));
    }
    lemma_first_index_is(non_word_at(s), p, s.len() as int, open);
    assert forall|j: int| open + 1 <= j < end - 1 implies !#[trigger] char_at(s, ')')(j) by {
        assert(s[j] != ')');
    }
    lemma_first_index_is(char_at(s, ')'), open + 1, s.len() as int, end - 1);
}

/// Whether `spans` are ranges of indices into a text of `len` characters that
/// follow one another: none is empty, and each ends before the next one
/// starts.
pub open spec fn spans_in_order(spans: Seq<(int, int)>, len: int) -> bool {
    &&& forall|i: int| 0 <= i < spans.len() ==> 0 <= (#[trigger] spans[i]).0 < spans[i].1 <= len
    &&& forall|i: int, j: int|
        0 <= i < j < spans.len() ==> (#[trigger] spans[i]).1 <= (#[trigger] spans[j]).0
}

/// Whether the index `j` lies in none of `spans`.
pub open spec fn outside_spans(spans: Seq<(int, int)>, j: int) -> bool {
    forall|i: int| 0 <= i < spans.len() ==> !((#[trigger] spans[i]).0 <= j < spans[i].1)
}

/// The texts that `s` holds at `spans`.
pub open spec fn texts_at(s: Seq<char>, spans: Seq<(int, int)>) -> Seq<Seq<char>> {
    spans.map_values(|span: (int, int)| s.subrange(span.0, span.1))
}

/// Where the search for the `k`-th of `spans` starts: at the end of the one
/// before it.
pub open spec fn search_start(spans: Seq<(int, int)>, k: int) -> int {
    if k <= 0 {
        0
    } else {
        spans[k - 1].1
    }
}

/// The texts at `spans` from the `k`-th on: the text at the `k`-th, then
/// those after it.
proof fn lemma_texts_at_skip(s: Seq<char>, spans: Seq<(int, int)>, k: int)
    requires
        0 <= k <= spans.len(),
    ensures
        k < spans.len() ==> texts_at(s, spans.skip(k)) == seq![
            s.subrange(spans[k].0, spans[k].1),
        ] + texts_at(s, spans.skip(k + 1)),
        k == spans.len() ==> texts_at(s, spans.skip(k)) == Seq::<Seq<char>>::empty(),
{
    if k < spans.len() {
        let all = texts_at(s, spans.skip(k));
        let split = seq![s.subrange(spans[k].0, spans[k].1)] + texts_at(s, spans.skip(k + 1));
        assert(all.len() == split.len());
        assert forall|i: int| 0 <= i < all.len() implies all[i] == split[i] by {
            if i > 0 {
                assert(spans.skip(k)[i] == spans.skip(k + 1)[i - 1]);
            }
        }
        assert(all =~= split);
    } else {
        assert(texts_at(s, spans.skip(k)) =~= Seq::<Seq<char>>::empty());
    }
}

/// An index between the end of the span before the `k`-th and the start of
/// the `k`-th lies in no span.
proof fn lemma_between_spans(spans: Seq<(int, int)>, len: int, k: int, j: int)
    requires
        spans_in_order(spans, len),
        0 <= k <= spans.len(),
        search_start(spans, k) <= j,
        k < spans.len() ==> j < spans[k].0,
    ensures
        outside_spans(spans, j),
{
    assert forall|i: int| 0 <= i < spans.len() implies !((#[trigger] spans[i]).0 <= j
        < spans[i].1) by {
        if i < k {
            if i < k - 1 {
                assert(spans[i].1 <= spans[k - 1].0);
            }
            assert(spans[k - 1].0 < spans[k - 1].1);
        } else if i > k {
            assert(spans[k].1 <= spans[i].0);
            assert(spans[k].0 < spans[k].1);
        }
    }
}

/// The layers that are found from the end of the span before the `k`-th on
/// are the texts at the spans from the `k`-th on.
proof fn lemma_layers_from_span(s: Seq<char>, spans: Seq<(int, int)>, k: int)
    requires
        spans_in_order(spans, s.len() as int),
        forall|i: int| 0 <= i < spans.len() ==> layer_end(s, (#[trigger] spans[i]).0) == Some(
            spans[i].1,
        ),
        forall|j: int| 0 <= j < s.len() && outside_spans(spans, j) ==> #[trigger] s[j] != '[',
        0 <= k <= spans.len(),
    ensures
        layers_from(s, search_start(spans, k)) == texts_at(s, spans.skip(k)),
    decreases spans.len() - k,
{
    let from = search_start(spans, k);
    let len = s.len() as int;
    let next = if k < spans.len() {
        spans[k].0
    } else {
        len
    };
    if k > 0 {
        assert(spans[k - 1].0 < spans[k - 1].1 <= len);
        if k < spans.len() {
            assert(spans[k - 1].1 <= spans[k].0);
        }
    }
    assert forall|j: int| from <= j < next implies !#[trigger] layer_start_at(s)(j) by {
        lemma_between_spans(spans, len, k, j);
        assert(s[j] != '[');
    }
    lemma_first_index_is(layer_start_at(s), from, len, next);
    lemma_texts_at_skip(s, spans, k);
    if k < spans.len() {
        lemma_layers_from_span(s, spans, k + 1);
    }
}

/// A block that holds a layer sub-block at each of `spans`, and no opening
/// bracket outside them, has exactly these layers, in the order of the text.
pub proof fn lemma_layers_of_block(s: Seq<char>, spans: Seq<(int, int)>)
    requires
        spans_in_order(spans, s.len() as int),
        forall|i: int| 0 <= i < spans.len() ==> layer_end(s, (#[trigger] spans[i]).0) == Some(
            spans[i].1,
        ),
        forall|j: int| 0 <= j < s.len() && outside_spans(spans, j) ==> #[trigger] s[j] != '[',
    ensures
        layer_texts(s) == texts_at(s, spans),
        layer_texts(s).len() == spans.len(),
{
    lemma_layers_from_span(s, spans, 0);
    assert(spans.skip(0) == spans);
}

/// The key tokens that are found from the end of the span before the `k`-th
/// on are the texts at the spans from the `k`-th on.
proof fn lemma_tokens_from_span(s: Seq<char>, spans: Seq<(int, int)>, k: int)
    requires
        spans_in_order(spans, s.len() as int),
        forall|i: int|
            0 <= i < spans.len() ==> word_at(s)((#[trigger] spans[i]).0) && token_end(
                s,
                spans[i].0,
            ) == spans[i].1,
        forall|j: int| 0 <= j < s.len() && outside_spans(spans, j) ==> !#[trigger] word_at(s)(j),
        0 <= k <= spans.len(),
    ensures
        tokens_from(s, search_start(spans, k)) == texts_at(s, spans.skip(k)),
    decreases spans.len() - k,
{
    let from = search_start(spans, k);
    let len = s.len() as int;
    let next = if k < spans.len() {
        spans[k].0
    } else {
        len
    };
    if k > 0 {
        assert(spans[k - 1].0 < spans[k - 1].1 <= len);
        if k < spans.len() {
            assert(spans[k - 1].1 <= spans[k].0);
        }
    }
    assert forall|j: int| from <= j < next implies !#[trigger] word_at(s)(j) by {
        lemma_between_spans(spans, len, k, j);
    }
    lemma_first_index_is(word_at(s), from, len, next);
    lemma_texts_at_skip(s, spans, k);
    if k < spans.len() {
        lemma_tokens_from_span(s, spans, k + 1);
        lemma_token_end_bounds(s, next);
    }
}

/// A text that holds a key entry at each of `spans`, and no word character
/// outside them, has exactly these key tokens, in the order of the text: as
/// many tokens as entries.
pub proof fn lemma_tokens_of_entries(s: Seq<char>, spans: Seq<(int, int)>)
    requires
        spans_in_order(spans, s.len() as int),
        forall|i: int|
            0 <= i < spans.len() ==> word_at(s)((#[trigger] spans[i]).0) && token_end(
                s,
                spans[i].0,
            ) == spans[i].1,
        forall|j: int| 0 <= j < s.len() && outside_spans(spans, j) ==> !#[trigger] word_at(s)(j),
    ensures
        tokens(s) == texts_at(s, spans),
        tokens(s).len() == spans.len(),
{
    lemma_tokens_from_span(s, spans, 0);
    assert(spans.skip(0) == spans);
}

/// A layer sub-block whose text without the noise lines holds a key entry at
/// each of `spans`, and no word character outside them, gives exactly these
/// key tokens, in the order of the text: as many tokens as key entries.
pub proof fn lemma_layer_tokens_of_entries(layer: Seq<char>, spans: Seq<(int, int)>)
    requires
        spans_in_order(spans, without_noise_lines(layer).len() as int),
        forall|i: int|
            0 <= i < spans.len() ==> word_at(without_noise_lines(layer))((#[trigger] spans[i]).0)
                && token_end(without_noise_lines(layer), spans[i].0) == spans[i].1,
        forall|j: int|
            0 <= j < without_noise_lines(layer).len() && outside_spans(spans, j) ==> !#[trigger] word_at(
                without_noise_lines(layer),
            )(j),
    ensures
        layer_tokens(layer) == texts_at(without_noise_lines(layer), spans),
        layer_tokens(layer).len() == spans.len(),
{
    lemma_tokens_of_entries(without_noise_lines(layer), spans);
}

/// A source text whose layer block lies between the braces at `open` and
/// `close`, and holds a layer sub-block at each of `spans` and no opening
/// bracket outside them, gives one layer for each of them, in the order of
/// the text: the key tokens of that sub-block. It has layers to extract
/// where there is at least one such sub-block, and none where there is none.
pub proof fn lemma_layers_of_source(
    source: Seq<char>,
    open: int,
    close: int,
    spans: Seq<(int, int)>,
)
    requires
        encloses_block(source, open, close),
        spans_in_order(spans, close - open - 1),
        forall|i: int|
            0 <= i < spans.len() ==> layer_end(
                source.subrange(open + 1, close),
                (#[trigger] spans[i]).0,
            ) == Some(spans[i].1),
        forall|j: int|
            0 <= j < close - open - 1 && outside_spans(spans, j) ==> #[trigger] source.subrange(
                open + 1,
                close,
            )[j] != '[',
    ensures
        has_block(source),
        has_layers(source) == (spans.len() > 0),
        extracted_layers(source).len() == spans.len(),
        forall|i: int|
            0 <= i < spans.len() ==> #[trigger] extracted_layers(source)[i] == layer_tokens(
                source.subrange(open + 1, close).subrange(spans[i].0, spans[i].1),
            ),
{
    let block = source.subrange(open + 1, close);
    let (o, c) = choose|o: int, c: int| encloses_block(source, o, c);
    lemma_block_unique(source, open, close, o, c);
    assert(block_of(source) == block);
    lemma_layers_of_block(block, spans);
}

} // verus!
