use keymap_visualizer::keymap_parser::{
    drop_noise_lines, locate_block, parse_full_keymap, parse_keymap, split_layers, split_rows,
    tokenize, ExtractionError,
};
use regex::{Regex, RegexBuilder};

const SOURCE: &str = "#include QMK_KEYBOARD_H\n\
\n\
const uint16_t PROGMEM keymaps[][MATRIX_ROWS][MATRIX_COLS] = {\n\
    [0] = LAYOUT_split_3x6_3(\n\
  //,-----------------------.  ,-----------------------.\n\
       KC_TAB,    KC_Q,    KC_W,      KC_O,   KC_P,  KC_BSPC,\n\
      KC_LCTL,    KC_A,    KC_S,      KC_L, KC_SCLN, KC_QUOT,\n\
                        KC_LGUI,   MO(1),  KC_SPC,     KC_ENT,   MO(2), KC_RALT\n\
                    //`--------------'  `--------------'\n\
\n\
  ),\n\
\n\
    [1] = LAYOUT_split_3x6_3(\n\
       KC_TAB,    KC_1,    KC_2,      KC_9,    KC_0, KC_BSPC,\n\
      LSFT(KC_A), LT(2, KC_B), XXXXXXX, _______\n\
  ),\n\
\n\
    [2] = LAYOUT_split_3x6_3(\n\
  ),\n\
};\n";

fn strings(items: &[&str]) -> Vec<String> {
    items.iter().map(|item| item.to_string()).collect()
}

/// The grammar written as regular expressions: the layer block, a layer
/// sub-block and a key token.
struct Patterns {
    block: Regex,
    layer: Regex,
    key: Regex,
}

impl Patterns {
    fn new() -> Patterns {
        let build = |pattern: &str, dot_matches_new_line: bool| {
            RegexBuilder::new(pattern)
                .multi_line(true)
                .dot_matches_new_line(dot_matches_new_line)
                .build()
                .unwrap()
        };
        Patterns {
            block: build(r"keymaps.*MATRIX.*\{(.*)\}", true),
            layer: build(r"\[\d+\](.*?)\s\),", true),
            key: build(r"\w+\([^)]*\)|\w+", false),
        }
    }

    /// The layers of `contents`: those that the patterns find, where they
    /// find the block and a layer in it.
    fn layers(&self, contents: &str) -> Result<Vec<Vec<String>>, ExtractionError> {
        let inner = match self.block.captures(contents) {
            Some(found) => found.get(1).unwrap().as_str(),
            None => return Err(ExtractionError::BlockNotFound),
        };
        let mut layers = Vec::new();
        for found in self.layer.find_iter(inner) {
            let cleaned = found
                .as_str()
                .lines()
                .filter(|line| !line.trim_start().starts_with("//"))
                .filter(|line| {
                    !line.trim_start().starts_with(")") && !line.trim_start().ends_with("(")
                })
                .collect::<Vec<&str>>()
                .join("\n");
            layers.push(self.key.find_iter(&cleaned).map(|m| m.as_str().to_string()).collect());
        }
        if layers.is_empty() {
            return Err(ExtractionError::LayerNotFound);
        }
        Ok(layers)
    }
}

/// A text of `length` characters out of `alphabet`, chosen by the state of a
/// linear congruential generator.
fn scrambled(alphabet: &[&str], length: usize, state: &mut u64) -> String {
    let mut text = String::new();
    for _ in 0..length {
        *state = state.wrapping_mul(6364136223846793005).wrapping_add(1442695040888963407);
        text.push_str(alphabet[((*state >> 33) as usize) % alphabet.len()]);
    }
    text
}

#[test]
fn parses_every_layer_in_source_order() {
    let layers = parse_keymap(SOURCE).unwrap();
    assert_eq!(layers.len(), 3);
    assert_eq!(layers[0][0], "KC_TAB");
    assert_eq!(layers[1][1], "KC_1");
    assert!(layers[2].is_empty());
}

#[test]
fn layer_holds_one_token_for_each_key_entry() {
    let layers = parse_keymap(SOURCE).unwrap();
    assert_eq!(
        layers[0],
        strings(&[
            "KC_TAB", "KC_Q", "KC_W", "KC_O", "KC_P", "KC_BSPC", "KC_LCTL", "KC_A", "KC_S", "KC_L",
            "KC_SCLN", "KC_QUOT", "KC_LGUI", "MO(1)", "KC_SPC", "KC_ENT", "MO(2)", "KC_RALT",
        ])
    );
    assert_eq!(
        layers[1],
        strings(&[
            "KC_TAB", "KC_1", "KC_2", "KC_9", "KC_0", "KC_BSPC", "LSFT(KC_A)", "LT(2, KC_B)",
            "XXXXXXX", "_______",
        ])
    );
}

#[test]
fn empty_layer_block_gives_layer_without_tokens() {
    let layers = parse_keymap("keymaps MATRIX {\n[7] = LAYOUT(\n ),\n}").unwrap();
    assert_eq!(layers, vec![Vec::<String>::new()]);
}

#[test]
fn text_without_declaration_is_rejected() {
    assert_eq!(parse_keymap(""), Err(ExtractionError::BlockNotFound));
    assert_eq!(parse_keymap("int main() { return 0; }"), Err(ExtractionError::BlockNotFound));
    assert_eq!(parse_keymap("keymaps { [0] = L(\n a\n ),\n }"), Err(ExtractionError::BlockNotFound));
    assert_eq!(parse_keymap("MATRIX keymaps { }"), Err(ExtractionError::BlockNotFound));
    assert_eq!(parse_keymap("keymaps MATRIX { "), Err(ExtractionError::BlockNotFound));
    assert_eq!(parse_keymap("keymaps MATRIX } {"), Err(ExtractionError::BlockNotFound));
    assert_eq!(parse_keymap("keymapsMATRI{}"), Err(ExtractionError::BlockNotFound));
    assert_eq!(parse_full_keymap("no block here", 12), Err(ExtractionError::BlockNotFound));
}

#[test]
fn block_without_layers_is_rejected() {
    let missing = Err(ExtractionError::LayerNotFound);
    assert_eq!(parse_keymap("keymaps[][MATRIX_ROWS][MATRIX_COLS] = {\n};"), missing);
    assert_eq!(parse_keymap("keymapsMATRIX{}"), missing);
    assert_eq!(parse_keymap("keymaps MATRIX { [0] = L(\n KC_A\n )\n }"), missing);
    assert_eq!(parse_keymap("keymaps MATRIX { [] a ), [x] b ), }"), missing);
    assert_eq!(
        parse_full_keymap("keymaps[][MATRIX_ROWS][MATRIX_COLS] = {\n};", 12),
        Err(ExtractionError::LayerNotFound)
    );
}

#[test]
fn block_lies_between_last_opening_and_last_closing_brace() {
    assert_eq!(locate_block("keymaps[MATRIX] = { a { b } c }"), Ok(" b } c ".to_string()));
    assert_eq!(locate_block("keymaps MATRIX {x}"), Ok("x".to_string()));
    assert_eq!(locate_block("keymaps MATRIX {x} y { z"), Ok("x".to_string()));
    assert_eq!(locate_block("a keymaps b keymaps MATRIX MATRIX{}{q}"), Ok("q".to_string()));
    assert_eq!(locate_block("keymaps {MATRIX}"), Err(ExtractionError::BlockNotFound));
    assert_eq!(locate_block("keymapMATRIX {}"), Err(ExtractionError::BlockNotFound));
}

#[test]
fn layer_runs_from_index_marker_through_first_close() {
    assert_eq!(
        split_layers("x [0] a\n ), [12]b\t),[c] [3 ] [] [4]\u{a0}),"),
        strings(&["[0] a\n ),", "[12]b\t),", "[4]\u{a0}),"])
    );
    assert_eq!(split_layers("[0] a ) , [1] b\n )"), Vec::<String>::new());
    assert_eq!(split_layers("[0] [1] ),"), strings(&["[0] [1] ),"]));
    assert_eq!(split_layers("[[5] ),"), strings(&["[5] ),"]));
}

#[test]
fn index_marker_accepts_decimal_digits_of_other_scripts() {
    assert_eq!(split_layers("[\u{663}] a ),"), strings(&["[\u{663}] a ),"]));
    assert_eq!(split_layers("[\u{b2}] a ),"), Vec::<String>::new());
    assert_eq!(split_layers("[x] a ),"), Vec::<String>::new());
}

#[test]
fn noise_lines_are_dropped() {
    assert_eq!(drop_noise_lines("[0] = LAYOUT(\n  // keys\n  KC_A, KC_B,\n  ),"), "  KC_A, KC_B,");
    assert_eq!(drop_noise_lines("a\r\nb\n\nc\r"), "a\nb\n\nc\r");
    assert_eq!(drop_noise_lines("a //x\n  ) b\n(\nc ( \n/ /d\n"), "a //x\nc ( \n/ /d");
    assert_eq!(drop_noise_lines(""), "");
    assert_eq!(drop_noise_lines("\n"), "");
    assert_eq!(drop_noise_lines("\n\n"), "\n");
    assert_eq!(drop_noise_lines("x(\r\ny"), "y");
}

#[test]
fn token_is_identifier_or_call() {
    assert_eq!(tokenize("KC_A, MO(1) LT(2, KC_B),x"), strings(&["KC_A", "MO(1)", "LT(2, KC_B)", "x"]));
    assert_eq!(tokenize("f(g(a)) b"), strings(&["f(g(a)", "b"]));
    assert_eq!(tokenize("f (a) g(b"), strings(&["f", "a", "g", "b"]));
    assert_eq!(tokenize("f(\n) g()"), strings(&["f(\n)", "g()"]));
    assert_eq!(tokenize("a-b+c"), strings(&["a", "b", "c"]));
    assert_eq!(tokenize(" ,;( ) "), Vec::<String>::new());
    assert_eq!(tokenize(""), Vec::<String>::new());
}

#[test]
fn token_may_hold_letters_of_other_scripts() {
    assert_eq!(tokenize("t\u{e4}ste \u{3b1}\u{3b2}(x) \u{2014} z"), strings(&["t\u{e4}ste", "\u{3b1}\u{3b2}(x)", "z"]));
}

#[test]
fn rows_hold_columns_keys_each() {
    let keys = strings(&["a", "b", "c", "d", "e"]);
    assert_eq!(split_rows(&keys, 2), vec![strings(&["a", "b"]), strings(&["c", "d"]), strings(&["e"])]);
    assert_eq!(split_rows(&keys, 5), vec![keys.clone()]);
    assert_eq!(split_rows(&keys, 9), vec![keys.clone()]);
    assert_eq!(split_rows(&Vec::new(), 3), Vec::<Vec<String>>::new());
}

#[test]
fn full_keymap_cuts_each_layer_into_rows() {
    let full = parse_full_keymap(SOURCE, 12).unwrap();
    assert_eq!(full.len(), 3);
    assert_eq!(full[0].len(), 2);
    assert_eq!(full[0][0].len(), 12);
    assert_eq!(full[0][1], strings(&["KC_LGUI", "MO(1)", "KC_SPC", "KC_ENT", "MO(2)", "KC_RALT"]));
    assert_eq!(full[1], vec![strings(&[
        "KC_TAB", "KC_1", "KC_2", "KC_9", "KC_0", "KC_BSPC", "LSFT(KC_A)", "LT(2, KC_B)",
        "XXXXXXX", "_______",
    ])]);
    assert!(full[2].is_empty());
}

#[test]
fn sample_source_agrees_with_patterns() {
    assert_eq!(parse_keymap(SOURCE), Patterns::new().layers(SOURCE));
}

#[test]
fn scrambled_sources_agree_with_patterns() {
    let alphabet = [
        "keymaps", "MATRIX", "{", "}", "[", "]", "0", "7", "(", ")", ",", " ", "\n", "\r\n", "\t",
        "//", "a", "KC_B", "_", "\u{e9}", "\u{a0}", "),", " ),", "\n  ),\n", "[1]", "x(", "-",
        "\u{663}", "\u{b2}", "\u{85}", "\u{2028}", "\u{b}", "\u{c}", "\u{200b}", "\u{200d}", "\u{301}",
        "\u{2160}", "\u{ff10}", "\r", "[\u{ff11}]", "\u{3000}),",
    ];
    let patterns = Patterns::new();
    let mut state = 2024u64;
    let mut with_layers = 0;
    let mut with_keys = 0;
    let mut rejected = 0;
    let mut without_layers = 0;
    for round in 0..2400 {
        let body = scrambled(&alphabet, 1 + round % 40, &mut state);
        let source = if round % 3 == 0 {
            body
        } else {
            format!("keymaps[MATRIX] = {{{}}};", body)
        };
        let found = parse_keymap(&source);
        assert_eq!(found, patterns.layers(&source), "source {:?}", source);
        match found {
            Ok(layers) => {
                assert!(!layers.is_empty());
                with_layers += 1;
                with_keys += if layers.iter().any(|layer| layer.len() > 1) { 1 } else { 0 };
            }
            Err(ExtractionError::BlockNotFound) => rejected += 1,
            Err(ExtractionError::LayerNotFound) => without_layers += 1,
        }
    }
    assert!(with_layers >= 150, "{} sources with layers", with_layers);
    assert!(with_keys >= 80, "{} sources with keys", with_keys);
    assert!(rejected >= 150, "{} sources without block", rejected);
    assert!(without_layers >= 150, "{} sources without layers", without_layers);
}

#[test]
fn braces_after_the_layer_array_take_the_block_and_leave_no_layer() {
    let source = format!(
        "{}\nlayer_state_t layer_state_set_user(layer_state_t state) {{\n    return state;\n}}\n",
        SOURCE
    );
    assert_eq!(locate_block(&source), Ok("\n    return state;\n".to_string()));
    assert_eq!(parse_keymap(&source), Err(ExtractionError::LayerNotFound));
    assert_eq!(parse_keymap(&source), Patterns::new().layers(&source));
}

#[test]
fn sources_with_other_line_ends_and_comments_agree_with_patterns() {
    let patterns = Patterns::new();
    let windows = SOURCE.replace("\n", "\r\n");
    assert_eq!(parse_keymap(&windows), patterns.layers(&windows));
    assert_eq!(parse_keymap(&windows).unwrap().len(), 3);
    let commented = SOURCE.replace("KC_TAB,", "KC_TAB, /* tab */ // \u{e9}t\u{e9}\n  // KC_NO,\n");
    assert_eq!(parse_keymap(&commented), patterns.layers(&commented));
    let one_line = "keymaps[MATRIX] = { [0] = LAYOUT(KC_A, MO(1) ), [1] = LAYOUT(KC_B ), };";
    assert_eq!(parse_keymap(one_line), patterns.layers(one_line));
    assert_eq!(
        parse_keymap(one_line),
        Ok(vec![
            strings(&["0", "LAYOUT(KC_A, MO(1)"]),
            strings(&["1", "LAYOUT(KC_B )"]),
        ])
    );
}

#[test]
fn missing_block_is_told_in_words() {
    let error = parse_keymap("nothing").unwrap_err();
    assert_eq!(error, ExtractionError::BlockNotFound);
    assert_eq!(error.message(), "no layer array was found in the keymap source");
    let error = parse_keymap("keymaps MATRIX { }").unwrap_err();
    assert_eq!(error, ExtractionError::LayerNotFound);
    assert_eq!(error.message(), "no layer was found in the layer array");
}
