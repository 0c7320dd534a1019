use keymap_visualizer::ascii::render_all_layers;
use keymap_visualizer::dictionary::KeymapDictionary;
use keymap_visualizer::keymap_parser::parse_keymap;
use keymap_visualizer::layout::LayoutGeometry;

const SOURCE: &str = "// my keymap\n\
const uint16_t PROGMEM keymaps[][MATRIX_ROWS][MATRIX_COLS] = {\n\
\x20   [0] = LAYOUT(\n\
\x20       KC_Q, KC_W,   KC_E, KC_R,\n\
\x20             MO(1),  LSFT(KC_SPC)\n\
\x20   ),\n\
\x20   [1] = LAYOUT(\n\
\x20       KC_1, KC_2,   KC_3, KC_4,\n\
\x20             KC_TRNS, LT(2, KC_ENT)\n\
\x20   ),\n\
};\n";

fn names() -> KeymapDictionary {
    let mut names = KeymapDictionary::new();
    for (token, name) in
        [("KC_Q", "Q"), ("KC_W", "W"), ("KC_SPC", "Spc"), ("KC_TRNS", ""), ("2 KC_ENT", "Ent2")]
    {
        names.insert(token.to_string(), name.to_string());
    }
    names
}

#[test]
fn source_is_drawn_layer_by_layer() {
    let layout = LayoutGeometry { columns: 4, rows: 1, thumb_keys: 2, split: true, cell_width: 5 };
    let layers = parse_keymap(SOURCE).unwrap();
    assert_eq!(layers.len(), 2);
    assert!(layers.iter().all(|layer| layout.is_filled_by(layer.len())));
    assert_eq!(
        render_all_layers(&layers, &names(), &layout),
        "---- LAYER 0 start ----\n\
         \n\
         +-----+-----+-     -----+-----+-+\n\
         |  Q  |  W  |     |KC_E |KC_R |\n\
         +-----+-----+-     -----+-----+-+\n\
         |     |  1  |     | Spc |     |\n\
         +-----+-----+-     -----+-----+-+\n\
         \n\
         ---- LAYER end ----\n\
         \n\
         ---- LAYER 1 start ----\n\
         \n\
         +-----+-----+-     -----+-----+-+\n\
         |KC_1 |KC_2 |     |KC_3 |KC_4 |\n\
         +-----+-----+-     -----+-----+-+\n\
         |     |     |     |Ent2 |     |\n\
         +-----+-----+-     -----+-----+-+\n\
         \n\
         ---- LAYER end ----\n\
         \n"
    );
}

#[test]
fn source_without_layer_block_is_not_drawn() {
    assert!(parse_keymap("void matrix_scan_user(void) { }").is_err());
}
