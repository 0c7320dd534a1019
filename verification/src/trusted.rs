//! What this library takes on trust: the contracts of the functions of other
//! crates and of the standard library that the verified code calls. Nothing
//! here is proved.

use vstd::prelude::*;

verus! {

/// Whether `c` belongs to the Unicode word class, the class that the pattern
/// `\w` stands for.
pub uninterp spec fn unicode_word_char(c: char) -> bool;

/// `regex_syntax::is_word_character`: whether `c` belongs to the Unicode word
/// class. The contract claims that the answer depends on the character only,
/// and gives it a name. The function is a search in the table that stands
/// behind `\w` in the parser of `regex`, so that a character costs a search
/// and not the compilation of a pattern. It panics only in a build without
/// the Unicode tables, which are part of the default features.
pub assume_specification[ regex_syntax::is_word_character ](c: char) -> (r: bool)
    ensures
        r == unicode_word_char(c),
;

/// Whether `c` belongs to the Unicode class of decimal digits, the class that
/// the pattern `\d` stands for.
pub uninterp spec fn unicode_digit_char(c: char) -> bool;

/// Compiles the pattern `\d` with `regex::Regex::new` and asks
/// `Regex::is_match` of the text that is `c` alone; were the pattern not to
/// compile, no character would match. The contract claims that the answer
/// depends on the character only, and gives it a name.
#[verifier::external_body]
pub(crate) fn unicode_digit(c: char) -> (r: bool)
    ensures
        r == unicode_digit_char(c),
{
    let mut buffer = [0u8; 4];
    match regex::Regex::new("\\d") {
        Ok(class) => class.is_match(c.encode_utf8(&mut buffer)),
        Err(_) => false,
    }
}

/// `String::push` appends one character.
pub assume_specification[ String::push ](s: &mut String, c: char)
    ensures
        final(s)@ == old(s)@.push(c),
;

} // verus!
