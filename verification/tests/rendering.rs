use keymap_visualizer::ascii::{
    print_dashes_to_string, render_all_layers, render_keycode_to_string, render_layer,
};
use keymap_visualizer::dictionary::KeymapDictionary;
use keymap_visualizer::layout::LayoutGeometry;
use keymap_visualizer::text::split_lines;

const BORDER: &str = "+-------+-------+-------+-------+-------+-------+       +-------+-------+-------+-------+-------+-------+";

fn dictionary(entries: &[(&str, &str)]) -> KeymapDictionary {
    let mut built = KeymapDictionary::new();
    for (token, name) in entries {
        built.insert(token.to_string(), name.to_string());
    }
    built
}

fn strings(items: &[&str]) -> Vec<String> {
    items.iter().map(|item| item.to_string()).collect()
}

fn small_layout(split: bool) -> LayoutGeometry {
    LayoutGeometry { columns: 4, rows: 1, thumb_keys: 2, split, cell_width: 3 }
}

fn full_layer() -> Vec<String> {
    let mut keys: Vec<String> = (1..43).map(|number| format!("K{},", number)).collect();
    keys[0] = "KC_A,".to_string();
    keys[13] = "LSFT(KC_B),".to_string();
    keys[40] = "KC_LONGNAME_X".to_string();
    keys
}

#[test]
fn two_keys_on_one_row_without_split() {
    let names = dictionary(&[("KC_A", "A"), ("KC_B", "B")]);
    let layout = LayoutGeometry { columns: 2, rows: 1, thumb_keys: 0, split: false, cell_width: 7 };
    let text = render_all_layers(&[strings(&["KC_A,", "KC_B,"])], &names, &layout);
    assert_eq!(
        text,
        "---- LAYER 0 start ----\n\n\
         +-------+-------+-------+\n\
         |   A   |   B   |\n\
         +-------+-------+-------+\n\
         \n---- LAYER end ----\n\n"
    );
    let lines = split_lines(&text);
    assert_eq!(lines[2].chars().count(), (7 + 1) * 2 + 8 + 1);
    assert_eq!(lines[2], lines[4]);
    assert_eq!(lines[3], "|   A   |   B   |");
}

#[test]
fn unknown_token_is_drawn_by_its_cleaned_text() {
    let names = dictionary(&[("KC_A", "A"), ("KC_B", "B")]);
    let wide = LayoutGeometry { columns: 1, rows: 1, thumb_keys: 0, split: false, cell_width: 7 };
    let text = render_layer(&strings(&["KC_ZZZ,"]), &names, &wide, 0);
    assert_eq!(split_lines(&text)[3], "|KC_ZZZ |");
    let narrow = LayoutGeometry { columns: 1, rows: 1, thumb_keys: 0, split: false, cell_width: 4 };
    let text = render_layer(&strings(&["KC_ZZZ,"]), &names, &narrow, 0);
    assert_eq!(split_lines(&text)[3], "|KC_Z|");
}

#[test]
fn full_layer_on_standard_layout_has_four_rows() {
    let names = dictionary(&[("KC_A", "A"), ("KC_B", "B")]);
    let layout = LayoutGeometry::default();
    let keys = full_layer();
    assert!(layout.is_filled_by(keys.len()));
    let text = render_layer(&keys, &names, &layout, 0);
    let expected = [
        "---- LAYER 0 start ----",
        "",
        BORDER,
        "|   A   |  K2   |  K3   |  K4   |  K5   |  K6   |       |  K7   |  K8   |  K9   |  K10  |  K11  |  K12  |",
        BORDER,
        "|  K13  |   B   |  K15  |  K16  |  K17  |  K18  |       |  K19  |  K20  |  K21  |  K22  |  K23  |  K24  |",
        BORDER,
        "|  K25  |  K26  |  K27  |  K28  |  K29  |  K30  |       |  K31  |  K32  |  K33  |  K34  |  K35  |  K36  |",
        BORDER,
        "|       |       |       |  K37  |  K38  |  K39  |       |  K40  |KC_LONG|  K42  |       |       |       |",
        BORDER,
        "",
        "---- LAYER end ----",
        "",
    ];
    assert_eq!(split_lines(&text), strings(&expected));
    assert_eq!(text, expected.join("\n") + "\n");
}

#[test]
fn each_row_of_full_layer_holds_one_gap() {
    let layout = LayoutGeometry::default();
    let text = render_layer(&full_layer(), &KeymapDictionary::new(), &layout, 0);
    let lines = split_lines(&text);
    let rows: Vec<&String> = lines.iter().filter(|line| line.starts_with("|")).collect();
    assert_eq!(rows.len(), 4);
    for (number, row) in rows.iter().enumerate() {
        let cells: Vec<&str> = row.split('|').collect();
        assert_eq!(cells.len(), 15);
        assert_eq!(cells[0], "");
        assert_eq!(cells[14], "");
        let blank = cells[1..14].iter().filter(|cell| cell.trim().is_empty()).count();
        assert_eq!(blank, if number == 3 { 7 } else { 1 });
        assert_eq!(cells[7], "       ");
        assert_eq!(row.chars().count(), 105);
    }
    assert_eq!(lines.iter().filter(|line| line.as_str() == BORDER).count(), 5);
}

#[test]
fn rendering_twice_gives_the_same_text() {
    let names = dictionary(&[("KC_A", "A"), ("K2", "two")]);
    let layout = LayoutGeometry::default();
    let layers = vec![full_layer(), strings(&["KC_A", "MO(1)"]), Vec::new()];
    let first = render_all_layers(&layers, &names, &layout);
    let second = render_all_layers(&layers, &names, &layout);
    assert_eq!(first, second);
    assert_eq!(first.as_bytes(), second.as_bytes());
}

#[test]
fn border_line_is_blank_around_the_middle_of_a_split_keyboard() {
    let mut text = String::from("x");
    print_dashes_to_string(&mut text, &LayoutGeometry::default());
    assert_eq!(text, format!("x{}\n", BORDER));
    let mut text = String::new();
    print_dashes_to_string(&mut text, &small_layout(true));
    assert_eq!(text, "+---+---+--   --+---+---+\n");
    let mut text = String::new();
    print_dashes_to_string(&mut text, &small_layout(false));
    assert_eq!(text, "+---+---+---+---+---+---+\n");
    let mut text = String::new();
    let none = LayoutGeometry { columns: 0, rows: 0, thumb_keys: 0, split: true, cell_width: 0 };
    print_dashes_to_string(&mut text, &none);
    assert_eq!(text, "+++++++++\n");
}

#[test]
fn thumb_cluster_is_centred_under_the_main_grid() {
    let keys = strings(&["a", "b", "c", "d", "e", "f", "g"]);
    let names = KeymapDictionary::new();
    assert_eq!(
        render_layer(&keys, &names, &small_layout(false), 0),
        "---- LAYER 0 start ----\n\n\
         +---+---+---+---+---+---+\n\
         | a | b | c | d |\n\
         +---+---+---+---+---+---+\n\
         |   | e | f |   |\n\
         +---+---+---+---+---+---+\n\
         | g \n---- LAYER end ----\n\n"
    );
    assert_eq!(
        render_layer(&keys, &names, &small_layout(true), 0),
        "---- LAYER 0 start ----\n\n\
         +---+---+--   --+---+---+\n\
         | a | b |   | c | d |\n\
         +---+---+--   --+---+---+\n\
         |   | e |   | f |   |\n\
         +---+---+--   --+---+---+\n\
         | g |   \n---- LAYER end ----\n\n"
    );
}

#[test]
fn layer_with_too_few_keys_is_drawn_as_far_as_it_goes() {
    let names = KeymapDictionary::new();
    assert_eq!(
        render_layer(&strings(&["a", "b", "c"]), &names, &small_layout(true), 3),
        "---- LAYER 3 start ----\n\n\
         +---+---+--   --+---+---+\n\
         | a | b |   | c \n---- LAYER end ----\n\n"
    );
    assert_eq!(
        render_layer(&[], &names, &small_layout(true), 0),
        "---- LAYER 0 start ----\n\n\n---- LAYER end ----\n\n"
    );
}

#[test]
fn key_adds_its_cell_and_reports_the_end_of_its_row() {
    let names = dictionary(&[("KC_A", "A")]);
    let layout = small_layout(true);
    let mut text = String::from(">");
    assert!(!render_keycode_to_string("KC_A,", 1, &names, &layout, &mut text));
    assert_eq!(text, ">+---+---+--   --+---+---+\n| A ");
    assert!(!render_keycode_to_string("KC_A,", 2, &names, &layout, &mut text));
    assert_eq!(text, ">+---+---+--   --+---+---+\n| A | A |   ");
    let mut text = String::new();
    assert!(render_keycode_to_string("x", 4, &names, &layout, &mut text));
    assert_eq!(text, "| x ");
    let mut text = String::new();
    assert!(!render_keycode_to_string("x", 5, &names, &layout, &mut text));
    assert_eq!(text, "|   | x |   ");
    let mut text = String::new();
    assert!(render_keycode_to_string("x", 6, &names, &layout, &mut text));
    assert_eq!(text, "| x |   ");
    let mut text = String::new();
    assert!(!render_keycode_to_string("x", 7, &names, &layout, &mut text));
    assert_eq!(text, "| x |   ");
}

#[test]
fn last_key_of_layout_without_thumb_cluster_gets_no_empty_cells() {
    let layout = LayoutGeometry { columns: 4, rows: 1, thumb_keys: 0, split: false, cell_width: 1 };
    let mut text = String::new();
    assert!(render_keycode_to_string("x", 4, &KeymapDictionary::new(), &layout, &mut text));
    assert_eq!(text, "|x");
}

#[test]
fn layers_are_numbered_from_zero_in_their_order() {
    let layout = LayoutGeometry { columns: 1, rows: 1, thumb_keys: 0, split: false, cell_width: 1 };
    let layers: Vec<Vec<String>> = (0..12).map(|number| vec![format!("{}", number % 10)]).collect();
    let text = render_all_layers(&layers, &KeymapDictionary::new(), &layout);
    let lines = split_lines(&text);
    let headers: Vec<&String> = lines.iter().filter(|line| line.contains("start")).collect();
    assert_eq!(headers.len(), 12);
    assert_eq!(headers[0], "---- LAYER 0 start ----");
    assert_eq!(headers[9], "---- LAYER 9 start ----");
    assert_eq!(headers[10], "---- LAYER 10 start ----");
    assert_eq!(headers[11], "---- LAYER 11 start ----");
    let mut expected = String::new();
    for (number, layer) in layers.iter().enumerate() {
        expected.push_str(&render_layer(layer, &KeymapDictionary::new(), &layout, number));
    }
    assert_eq!(text, expected);
    assert_eq!(render_all_layers(&[], &KeymapDictionary::new(), &layout), "");
}

#[test]
fn layer_number_is_written_in_decimal() {
    let layout = LayoutGeometry::default();
    let text = render_layer(&[], &KeymapDictionary::new(), &layout, 120_034);
    assert_eq!(text, "---- LAYER 120034 start ----\n\n\n---- LAYER end ----\n\n");
}

#[test]
fn text_is_split_at_line_feeds() {
    assert_eq!(split_lines("a\nb\r\n\nc"), strings(&["a", "b", "", "c"]));
    assert_eq!(split_lines("a\n"), strings(&["a"]));
    assert_eq!(split_lines("a\r"), strings(&["a\r"]));
    assert_eq!(split_lines("\r\n\r\n"), strings(&["", ""]));
    assert_eq!(split_lines(""), Vec::<String>::new());
    for text in ["x\r\r\ny\n\n", "\n", "one", "a\rb\n\r"] {
        let expected: Vec<String> = text.lines().map(String::from).collect();
        assert_eq!(split_lines(text), expected);
    }
}

#[test]
fn full_layer_has_four_rows_and_five_border_lines_at_every_cell_width() {
    let keys = full_layer();
    for cell_width in [0u16, 1, 3, 7, 8, 12] {
        let layout = LayoutGeometry { cell_width, ..LayoutGeometry::default() };
        let text = render_layer(&keys, &KeymapDictionary::new(), &layout, 0);
        let lines = split_lines(&text);
        assert_eq!(lines.len(), 14);
        let grid = &lines[2..11];
        let bordered = usize::from(cell_width) + 1;
        for (number, line) in grid.iter().enumerate() {
            if number % 2 == 0 {
                assert!(line.starts_with("+") && line.ends_with("+"));
                assert_eq!(line.chars().count(), 12 * bordered + 8 + 1);
                assert_eq!(line, &grid[0]);
            } else {
                assert!(line.starts_with("|") && line.ends_with("|"));
                assert_eq!(line.chars().count(), 13 * bordered + 1);
            }
        }
        assert_eq!(grid.iter().filter(|line| line.starts_with("|")).count(), 4);
        assert_eq!(grid.iter().filter(|line| line.starts_with("+")).count(), 5);
        let equal = grid.iter().all(|line| line.chars().count() == grid[0].chars().count());
        assert_eq!(equal, cell_width == 7);
    }
}
