use keymap_visualizer::dictionary::KeymapDictionary;
use keymap_visualizer::keycode_util::{create_key_gui, get_key_code_human_readable, shown_name};
use regex::{Regex, RegexBuilder};

fn dictionary(entries: &[(&str, &str)]) -> KeymapDictionary {
    let mut built = KeymapDictionary::new();
    for (token, name) in entries {
        built.insert(token.to_string(), name.to_string());
    }
    built
}

/// The cleaned text of `keycode` by the wrapper rule written as the regular
/// expression `wrapper`; a token with a parenthesis that the expression does
/// not match is left as it is.
fn cleaned_by_pattern(wrapper: &Regex, keycode: &str) -> String {
    let mut text = keycode.trim().to_string();
    if text.contains("(") {
        if let Some(found) = wrapper.captures(&text) {
            text = found.get(1).unwrap().as_str().to_string();
        }
    }
    text.replace(",", "")
}

#[test]
fn known_token_gets_its_display_name() {
    let names = dictionary(&[("KC_A", "A"), ("KC_B", "B")]);
    assert_eq!(get_key_code_human_readable("KC_A,", &names), "A");
    assert_eq!(get_key_code_human_readable("  KC_B \n", &names), "B");
}

#[test]
fn unknown_token_keeps_its_cleaned_text() {
    let names = dictionary(&[("KC_A", "A"), ("KC_B", "B")]);
    assert_eq!(get_key_code_human_readable("KC_ZZZ,", &names), "KC_ZZZ");
    assert_eq!(get_key_code_human_readable("", &names), "");
    assert_eq!(get_key_code_human_readable(" \t ", &names), "");
    assert_eq!(get_key_code_human_readable(",", &names), "");
}

#[test]
fn wrapped_token_is_formatted_as_its_inner_token() {
    let names = dictionary(&[("KC_A", "A"), ("KC_B", "B")]);
    assert_eq!(
        get_key_code_human_readable("LSFT(KC_A)", &names),
        get_key_code_human_readable("KC_A", &names)
    );
    assert_eq!(get_key_code_human_readable("LSFT(KC_A)", &names), "A");
    assert_eq!(get_key_code_human_readable("LSFT(KC_Q),", &names), "KC_Q");
}

#[test]
fn wrapper_rule_takes_text_up_to_last_closing_parenthesis() {
    let names = dictionary(&[("1 KC_A", "one")]);
    assert_eq!(get_key_code_human_readable("LT(1, KC_A)", &names), "one");
    assert_eq!(get_key_code_human_readable("f(g(a))", &names), "g(a)");
    assert_eq!(get_key_code_human_readable("f(a) g(b)", &names), "a) g(b");
    assert_eq!(get_key_code_human_readable("f()", &names), "");
    assert_eq!(get_key_code_human_readable("x (a) f(b)", &names), "b");
}

#[test]
fn token_with_unmatched_parenthesis_is_left_as_it_is() {
    let names = dictionary(&[("(", "open")]);
    assert_eq!(get_key_code_human_readable("(", &names), "open");
    assert_eq!(get_key_code_human_readable("f(a", &names), "f(a");
    assert_eq!(get_key_code_human_readable("(a)", &names), "(a)");
    assert_eq!(get_key_code_human_readable("f(a,\nb)", &names), "f(a\nb)");
    assert_eq!(get_key_code_human_readable("f(a\n) g(b)", &names), "b");
}

#[test]
fn later_entry_replaces_earlier_name() {
    let mut names = KeymapDictionary::new();
    assert!(!names.contains_key("KC_A"));
    names.insert("KC_A".to_string(), "first".to_string());
    names.insert("KC_A".to_string(), "second".to_string());
    assert!(names.contains_key("KC_A"));
    assert_eq!(names.get("KC_A"), Some(&"second".to_string()));
    assert_eq!(names.get("KC_B"), None);
    assert_eq!(get_key_code_human_readable("KC_A", &names), "second");
}

#[test]
fn scrambled_tokens_agree_with_pattern() {
    let alphabet = [
        "(", ")", ",", " ", "\n", "\t", "a", "KC_B", "_", "1", "\u{e9}", "\u{a0}", "-", "LT", "\r",
        "\u{85}", "\u{2028}", "\u{b}", "\u{200b}", "\u{200d}", "\u{301}", "\u{2160}", "\u{b2}", "\u{ff10}",
    ];
    let names = KeymapDictionary::new();
    let wrapper = RegexBuilder::new(r"\w+\((.*)\)").build().unwrap();
    let mut state = 77u64;
    for round in 0..20000 {
        let mut token = String::new();
        for _ in 0..(1 + round % 12) {
            state = state.wrapping_mul(6364136223846793005).wrapping_add(1442695040888963407);
            token.push_str(alphabet[((state >> 33) as usize) % alphabet.len()]);
        }
        assert_eq!(
            get_key_code_human_readable(&token, &names),
            cleaned_by_pattern(&wrapper, &token),
            "token {:?}",
            token
        );
    }
}

#[test]
fn cell_centres_name_with_spare_space_on_the_right() {
    assert_eq!(create_key_gui("A", 7), "|   A   ");
    assert_eq!(create_key_gui("AB", 7), "|  AB   ");
    assert_eq!(create_key_gui("ABC", 7), "|  ABC  ");
    assert_eq!(create_key_gui("", 7), "|       ");
    assert_eq!(create_key_gui(" ", 7), "|       ");
    assert_eq!(create_key_gui("ABCDEFG", 7), "|ABCDEFG");
    assert_eq!(create_key_gui("A", 4), "| A  ");
    assert_eq!(create_key_gui("A", 1), "|A");
    assert_eq!(create_key_gui("A", 0), "|");
}

#[test]
fn cell_truncates_name_to_cell_width() {
    assert_eq!(create_key_gui("KC_ZZZ_LONG", 7), "|KC_ZZZ_");
    assert_eq!(create_key_gui("ABCDEFGH", 3), "|ABC");
}

#[test]
fn cell_counts_characters_not_bytes() {
    assert_eq!(create_key_gui("\u{e9}", 7), "|   \u{e9}   ");
    assert_eq!(create_key_gui("\u{e9}\u{e9}\u{e9}\u{e9}\u{e9}\u{e9}\u{e9}\u{e9}", 7), "|\u{e9}\u{e9}\u{e9}\u{e9}\u{e9}\u{e9}\u{e9}");
}

#[test]
fn shown_name_holds_the_first_characters_of_the_name() {
    assert_eq!(shown_name("KC_ZZZ", 7), "KC_ZZZ");
    assert_eq!(shown_name("KC_ZZZ", 6), "KC_ZZZ");
    assert_eq!(shown_name("KC_ZZZ", 4), "KC_Z");
    assert_eq!(shown_name("KC_ZZZ", 0), "");
    assert_eq!(shown_name("", 3), "");
    assert_eq!(shown_name("\u{e9}t\u{e9}", 2), "\u{e9}t");
}
