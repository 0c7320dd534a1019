use keymap_visualizer::text::{digit, whitespace, word_char};
use regex::Regex;

fn every_char() -> impl Iterator<Item = char> {
    (0u32..=0x10ffff).filter_map(char::from_u32)
}

#[test]
fn white_space_is_the_unicode_property() {
    for c in every_char() {
        assert_eq!(whitespace(c), c.is_whitespace(), "U+{:04X}", c as u32);
    }
    let class = Regex::new(r"^\s$").unwrap();
    for c in every_char().filter(|c| whitespace(*c) || (*c as u32) < 0x3100) {
        assert_eq!(whitespace(c), class.is_match(c.encode_utf8(&mut [0u8; 4])), "U+{:04X}", c as u32);
    }
    assert_eq!(every_char().filter(|c| whitespace(*c)).count(), 25);
}

#[test]
fn word_characters_are_those_of_the_word_class() {
    let class = Regex::new(r"^\w$").unwrap();
    let mut words = 0;
    for c in every_char().filter(|c| (*c as u32) < 0x3000 || (*c as u32) % 7 == 0) {
        let expected = class.is_match(c.encode_utf8(&mut [0u8; 4]));
        assert_eq!(word_char(c), expected, "U+{:04X}", c as u32);
        words += if expected { 1 } else { 0 };
    }
    assert!(words > 5000);
    let ascii: String = (0u8..128).map(char::from).filter(|c| word_char(*c)).collect();
    assert_eq!(ascii, "0123456789ABCDEFGHIJKLMNOPQRSTUVWXYZ_abcdefghijklmnopqrstuvwxyz");
    assert!(word_char('\u{e9}'));
    assert!(word_char('\u{200d}'));
    assert!(!word_char('\u{2014}'));
    assert!(!word_char('\u{b2}'));
}

#[test]
fn digits_are_those_of_the_decimal_class() {
    let class = Regex::new(r"^\d$").unwrap();
    let ascii: String = (0u8..128).map(char::from).filter(|c| digit(*c)).collect();
    assert_eq!(ascii, "0123456789");
    for c in every_char().filter(|c| (*c as u32) < 0x100 || (0x650..0x680).contains(&(*c as u32))) {
        assert_eq!(digit(c), class.is_match(c.encode_utf8(&mut [0u8; 4])), "U+{:04X}", c as u32);
    }
    assert!(digit('\u{663}'));
    assert!(digit('\u{ff10}'));
    assert!(!digit('\u{b2}'));
    assert!(!digit('\u{2160}'));
    assert!(!digit('x'));
}
