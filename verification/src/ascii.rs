//! The text diagram of a keymap: each layer as a bordered grid of cells, in
//! the order of the layers.

use crate::dictionary::KeymapDictionary;
use crate::keycode_util::{
    cell_text, create_key_gui, display_name, get_key_code_human_readable, lemma_cell_text_len,
    push_spaces, shown_part, spaces,
};
use crate::layout::LayoutGeometry;
use crate::text::{
    decimal_text, lemma_decimal_text_digits, lemma_lines_push, lines, push_decimal,
};
use vstd::prelude::*;
use vstd::string::StringExecFns;

verus! {

/// What a border line is longer than the cells of a row of the main grid,
/// not counting the corner at its end.
pub const BORDER_EXTRA: usize = 8;

/// The width of a cell with the pipe in front of it.
pub open spec fn bordered_width(geometry: LayoutGeometry) -> int {
    geometry.cell_width + 1
}

/// The length of a border line without the corner at its end.
pub open spec fn border_width(geometry: LayoutGeometry) -> int {
    bordered_width(geometry) * geometry.columns + BORDER_EXTRA
}

/// The character at the index `i` of a border line: a corner where a cell
/// begins and a dash elsewhere; on a split keyboard a blank around the
/// middle of the line, less than half a bordered cell to each side.
pub open spec fn border_char(geometry: LayoutGeometry, i: int) -> char {
    let cell = bordered_width(geometry);
    let middle = border_width(geometry) / 2;
    if geometry.split && middle - cell / 2 < i < middle + cell / 2 {
        ' '
    } else if i % cell == 0 {
        '+'
    } else {
        '-'
    }
}

/// The first `count` characters of a border line.
pub open spec fn border_start(geometry: LayoutGeometry, count: int) -> Seq<char> {
    Seq::new(count as nat, |i: int| border_char(geometry, i))
}

/// A border line: its characters, a closing corner and a line feed.
pub open spec fn border_line(geometry: LayoutGeometry) -> Seq<char> {
    border_start(geometry, border_width(geometry)) + seq!['+', '\n']
}

/// A border line is as long as the cells of a row of the main grid and
/// [`BORDER_EXTRA`] characters more, with its closing corner and its line
/// feed behind them.
pub proof fn lemma_border_line_len(geometry: LayoutGeometry)
    ensures
        border_line(geometry).len() == (geometry.cell_width + 1) * geometry.columns + BORDER_EXTRA
            + 2,
        border_line(geometry).last() == '\n',
{
    assert(0 <= (geometry.cell_width + 1) * geometry.columns) by (nonlinear_arith)
        requires
            0 <= geometry.cell_width,
            0 <= geometry.columns,
    ;
}

/// `count` times `text`.
pub open spec fn repeated(text: Seq<char>, count: int) -> Seq<char>
    decreases count,
{
    if count <= 0 {
        Seq::empty()
    } else {
        repeated(text, count - 1) + text
    }
}

/// The empty cells on one side of the thumb cluster.
pub open spec fn thumb_pad_text(geometry: LayoutGeometry) -> Seq<char> {
    repeated(cell_text(seq![' '], geometry.cell_width as int), geometry.thumb_padding())
}

/// The gap between the halves of a split keyboard: a pipe and a blank cell.
pub open spec fn gap_text(geometry: LayoutGeometry) -> Seq<char> {
    seq!['|'] + spaces(geometry.cell_width as int)
}

/// What the key with the index `index` and the display name `name` adds to
/// the diagram of its layer: before the first key a border line; before the
/// first key of the thumb cluster the empty cells that centre the cluster;
/// the cell of the key; the gap where it follows the key; and after the last
/// key of the thumb cluster the empty cells again.
pub open spec fn key_text(geometry: LayoutGeometry, index: int, name: Seq<char>) -> Seq<char> {
    let border = if index == 1 {
        border_line(geometry)
    } else {
        Seq::empty()
    };
    let left_pad = if index == geometry.main_keys() + 1 {
        thumb_pad_text(geometry)
    } else {
        Seq::empty()
    };
    let gap = if geometry.gap_follows(index) {
        gap_text(geometry)
    } else {
        Seq::empty()
    };
    let right_pad = if geometry.in_thumb_cluster(index) && index == geometry.total_keys() {
        thumb_pad_text(geometry)
    } else {
        Seq::empty()
    };
    border + left_pad + cell_text(name, geometry.cell_width as int) + gap + right_pad
}

/// What ends a row: a closing pipe, a line feed and a border line.
pub open spec fn row_end_text(geometry: LayoutGeometry) -> Seq<char> {
    seq!['|', '\n'] + border_line(geometry)
}

/// The grid of the first `count` keys of a layer: the text of each key in
/// turn, and the end of a row after each key that ends one.
pub open spec fn grid_text(
    geometry: LayoutGeometry,
    keys: Seq<Seq<char>>,
    dictionary: Map<Seq<char>, Seq<char>>,
    count: int,
) -> Seq<char>
    decreases count,
{
    if count <= 0 {
        Seq::empty()
    } else {
        grid_text(geometry, keys, dictionary, count - 1) + key_text(
            geometry,
            count,
            display_name(keys[count - 1], dictionary),
        ) + if geometry.row_ends_at(count) {
            row_end_text(geometry)
        } else {
            Seq::empty()
        }
    }
}

/// The line that opens the diagram of the layer with the number `number`.
pub open spec fn layer_header(number: nat) -> Seq<char> {
    "---- LAYER "@ + decimal_text(number) + " start ----\n\n"@
}

/// The line that closes the diagram of a layer.
pub open spec fn layer_footer() -> Seq<char> {
    "\n---- LAYER end ----\n\n"@
}

/// The diagram of one layer: its header, the grid of its keys and its
/// footer.
pub open spec fn rendered_layer(
    geometry: LayoutGeometry,
    keys: Seq<Seq<char>>,
    dictionary: Map<Seq<char>, Seq<char>>,
    number: nat,
) -> Seq<char> {
    layer_header(number) + grid_text(geometry, keys, dictionary, keys.len() as int)
        + layer_footer()
}

/// The diagrams of the first `count` layers, numbered from 0, one after the
/// other.
pub open spec fn rendered_layers(
    geometry: LayoutGeometry,
    layers: Seq<Seq<Seq<char>>>,
    dictionary: Map<Seq<char>, Seq<char>>,
    count: int,
) -> Seq<char>
    decreases count,
{
    if count <= 0 {
        Seq::empty()
    } else {
        rendered_layers(geometry, layers, dictionary, count - 1) + rendered_layer(
            geometry,
            layers[count - 1],
            dictionary,
            (count - 1) as nat,
        )
    }
}

/// The diagram of a keymap: those of all its layers, in their order.
pub open spec fn rendered_keymap(
    geometry: LayoutGeometry,
    layers: Seq<Seq<Seq<char>>>,
    dictionary: Map<Seq<char>, Seq<char>>,
) -> Seq<char> {
    rendered_layers(geometry, layers, dictionary, layers.len() as int)
}

/// Appends a border line to `output`.
pub fn print_dashes_to_string(output: &mut String, geometry: &LayoutGeometry)
    ensures
        final(output)@ == old(output)@ + border_line(*geometry),
{
    let cell: usize = geometry.cell_width as usize + 1;
    assert(cell * geometry.columns <= 0x10000 * 0xffff) by (nonlinear_arith)
        requires
            0 <= cell <= 0x10000,
            0 <= geometry.columns <= 0xffff,
    ;
    assert(0 <= cell * geometry.columns) by (nonlinear_arith)
        requires
            0 <= cell,
            0 <= geometry.columns,
    ;
    let width: usize = cell * geometry.columns as usize + BORDER_EXTRA;
    let middle: usize = width / 2;
    let half: usize = cell / 2;
    let mut i: usize = 0;
    while i < width
        invariant
            i <= width,
            cell == bordered_width(*geometry),
            width == border_width(*geometry),
            width <= 0x10000 * 0xffff + 8,
            middle == width / 2,
            half == cell / 2,
            output@ == old(output)@ + border_start(*geometry, i as int),
        decreases width - i,
    {
        let c = if geometry.split && i + half > middle && i < middle + half {
            ' '
        } else if i % cell == 0 {
            '+'
        } else {
            '-'
        };
        assert(c == border_char(*geometry, i as int));
        output.push(c);
        assert(border_start(*geometry, i + 1) == border_start(*geometry, i as int).push(c));
        i = i + 1;
    }
    output.push('+');
    output.push('\n');
    assert(output@ == old(output)@ + border_line(*geometry));
}

/// Appends `count` empty cells to `output`.
fn push_empty_cells(output: &mut String, geometry: &LayoutGeometry, count: usize)
    ensures
        final(output)@ == old(output)@ + repeated(
            cell_text(seq![' '], geometry.cell_width as int),
            count as int,
        ),
{
    proof {
        reveal_strlit(" ");
        assert(" "@ == seq![' ']);
    }
    let empty_key = create_key_gui(" ", geometry.cell_width as usize);
    let mut i: usize = 0;
    while i < count
        invariant
            i <= count,
            empty_key@ == cell_text(seq![' '], geometry.cell_width as int),
            output@ == old(output)@ + repeated(empty_key@, i as int),
        decreases count - i,
    {
        output.append(empty_key.as_str());
        i = i + 1;
        assert(output@ == old(output)@ + repeated(empty_key@, i as int));
    }
}

/// Appends to `output` what the key `keycode`, the `keycode_index`-th of its
/// layer, adds to the diagram, and says whether the key ends a row.
pub fn render_keycode_to_string(
    keycode: &str,
    keycode_index: usize,
    keymap_dict: &KeymapDictionary,
    geometry: &LayoutGeometry,
    output: &mut String,
) -> (is_end_row: bool)
    ensures
        final(output)@ == old(output)@ + key_text(
            *geometry,
            keycode_index as int,
            display_name(keycode@, keymap_dict@),
        ),
        is_end_row == geometry.row_ends_at(keycode_index as int),
{
    let ghost g = *geometry;
    let ghost index = keycode_index as int;
    let ghost name = display_name(keycode@, keymap_dict@);
    let ghost start = output@;
    let ghost border = if index == 1 {
        border_line(g)
    } else {
        Seq::empty()
    };
    let ghost left_pad = if index == g.main_keys() + 1 {
        thumb_pad_text(g)
    } else {
        Seq::empty()
    };
    let ghost cell_part = cell_text(name, g.cell_width as int);
    let ghost gap = if g.gap_follows(index) {
        gap_text(g)
    } else {
        Seq::empty()
    };
    let ghost right_pad = if g.in_thumb_cluster(index) && index == g.total_keys() {
        thumb_pad_text(g)
    } else {
        Seq::empty()
    };
    if keycode_index == 1 {
        print_dashes_to_string(output, geometry);
    }
    assert(output@ == start + border);
    let main_keys = geometry.main_key_count();
    let total_keys = geometry.expected_key_count();
    let is_thumb_row = keycode_index > main_keys;
    if is_thumb_row && keycode_index - 1 == main_keys {
        push_empty_cells(output, geometry, geometry.thumb_pad_count());
    }
    assert(output@ == start + border + left_pad);
    let human_readable = get_key_code_human_readable(keycode, keymap_dict);
    let cell = create_key_gui(human_readable.as_str(), geometry.cell_width as usize);
    output.append(cell.as_str());
    assert(output@ == start + border + left_pad + cell_part);
    if geometry.is_split_gap(keycode_index) {
        let ghost before = output@;
        output.push('|');
        push_spaces(output, geometry.cell_width as usize);
        assert(output@ == before + gap);
    }
    assert(output@ == start + border + left_pad + cell_part + gap);
    if is_thumb_row && keycode_index == total_keys {
        push_empty_cells(output, geometry, geometry.thumb_pad_count());
    }
    assert(output@ == start + border + left_pad + cell_part + gap + right_pad);
    proof {
        lemma_key_parts(start, border, left_pad, cell_part, gap, right_pad);
    }
    geometry.is_row_end(keycode_index)
}

/// Text that grows by five parts has grown by the five parts together.
proof fn lemma_key_parts(
    start: Seq<char>,
    a: Seq<char>,
    b: Seq<char>,
    c: Seq<char>,
    d: Seq<char>,
    e: Seq<char>,
)
    ensures
        start + a + b + c + d + e == start + (a + b + c + d + e),
{
    assert(start + a + b + c + d + e =~= start + (a + b + c + d + e));
}

/// Renders the diagram of the layer `layer`, the `layer_index`-th of its
/// keymap counted from 0. The keys that are there are laid out, whether or
/// not they fill the layout.
pub fn render_layer(
    layer: &[String],
    keymap_dict: &KeymapDictionary,
    geometry: &LayoutGeometry,
    layer_index: usize,
) -> (output: String)
    ensures
        output@ == rendered_layer(
            *geometry,
            layer.deep_view(),
            keymap_dict@,
            layer_index as nat,
        ),
{
    let ghost keys = layer.deep_view();
    let mut output = String::new();
    output.append("---- LAYER ");
    push_decimal(&mut output, layer_index);
    output.append(" start ----\n\n");
    assert(output@ == layer_header(layer_index as nat));
    let mut i: usize = 0;
    while i < layer.len()
        invariant
            i <= layer.len(),
            keys == layer.deep_view(),
            output@ == layer_header(layer_index as nat) + grid_text(
                *geometry,
                keys,
                keymap_dict@,
                i as int,
            ),
        decreases layer.len() - i,
    {
        let ghost header = layer_header(layer_index as nat);
        let ghost grid = grid_text(*geometry, keys, keymap_dict@, i as int);
        let ghost key = key_text(*geometry, i + 1, display_name(keys[i as int], keymap_dict@));
        assert(keys[i as int] == layer[i as int]@);
        let is_end_row = render_keycode_to_string(
            layer[i].as_str(),
            i + 1,
            keymap_dict,
            geometry,
            &mut output,
        );
        assert(output@ == header + grid + key);
        let ghost end = if is_end_row {
            row_end_text(*geometry)
        } else {
            Seq::empty()
        };
        if is_end_row {
            let ghost mid = output@;
            output.append("|\n");
            assert(output@ == mid + seq!['|', '\n']) by {
                reveal_strlit("|\n");
                assert("|\n"@ == seq!['|', '\n']);
            }
            print_dashes_to_string(&mut output, geometry);
            assert(output@ == mid + end);
        } else {
            assert(output@ + end == output@);
        }
        assert(output@ == header + grid + key + end);
        assert(grid_text(*geometry, keys, keymap_dict@, i + 1) == grid + key + end);
        assert(header + grid + key + end == header + (grid + key + end));
        i = i + 1;
    }
    output.append("\n---- LAYER end ----\n\n");
    output
}

/// Renders the diagram of a keymap: the diagram of each layer, in the order
/// of the layers, numbered from 0.
pub fn render_all_layers(
    layers: &[Vec<String>],
    keymap_dict: &KeymapDictionary,
    geometry: &LayoutGeometry,
) -> (output: String)
    ensures
        output@ == rendered_keymap(*geometry, layers.deep_view(), keymap_dict@),
{
    let ghost all = layers.deep_view();
    let mut output = String::new();
    let mut layer_index: usize = 0;
    while layer_index < layers.len()
        invariant
            layer_index <= layers.len(),
            all == layers.deep_view(),
            output@ == rendered_layers(*geometry, all, keymap_dict@, layer_index as int),
        decreases layers.len() - layer_index,
    {
        let layer = layers[layer_index].as_slice();
        assert(layer.deep_view() == all[layer_index as int]);
        let layer_output = render_layer(layer, keymap_dict, geometry, layer_index);
        output.append(layer_output.as_str());
        layer_index = layer_index + 1;
    }
    output
}

/// Drawing is a function of what is drawn: two diagrams of the same layers
/// with the same dictionary and the same geometry are the same text.
pub proof fn lemma_rendering_repeats(
    first: Seq<char>,
    second: Seq<char>,
    geometry: LayoutGeometry,
    layers: Seq<Seq<Seq<char>>>,
    dictionary: Map<Seq<char>, Seq<char>>,
)
    requires
        first == rendered_keymap(geometry, layers, dictionary),
        second == rendered_keymap(geometry, layers, dictionary),
    ensures
        first == second,
{
}

/// The cells of the keys `from + 1` to `to` of a layer, one after the other.
pub open spec fn cells_text(
    geometry: LayoutGeometry,
    keys: Seq<Seq<char>>,
    dictionary: Map<Seq<char>, Seq<char>>,
    from: int,
    to: int,
) -> Seq<char>
    decreases to - from,
{
    if from >= to {
        Seq::empty()
    } else {
        cells_text(geometry, keys, dictionary, from, to - 1) + cell_text(
            display_name(keys[to - 1], dictionary),
            geometry.cell_width as int,
        )
    }
}

/// A row of two halves: the cells of the keys `from + 1` to `middle`, the
/// gap, the cells of the keys `middle + 1` to `to`, and between empty cells
/// on both sides where `padded` says so; then the closing pipe and a line
/// feed.
pub open spec fn split_row_text(
    geometry: LayoutGeometry,
    keys: Seq<Seq<char>>,
    dictionary: Map<Seq<char>, Seq<char>>,
    from: int,
    middle: int,
    to: int,
    padded: bool,
) -> Seq<char> {
    let pad = if padded {
        thumb_pad_text(geometry)
    } else {
        Seq::empty()
    };
    pad + cells_text(geometry, keys, dictionary, from, middle) + gap_text(geometry) + cells_text(
        geometry,
        keys,
        dictionary,
        middle,
        to,
    ) + pad + seq!['|', '\n']
}

/// What the key `index` adds to the grid, with the end of its row where it
/// ends one.
pub open spec fn key_step(
    geometry: LayoutGeometry,
    keys: Seq<Seq<char>>,
    dictionary: Map<Seq<char>, Seq<char>>,
    index: int,
) -> Seq<char> {
    key_text(geometry, index, display_name(keys[index - 1], dictionary)) + if geometry.row_ends_at(
        index,
    ) {
        row_end_text(geometry)
    } else {
        Seq::empty()
    }
}

proof fn lemma_cells_join(
    geometry: LayoutGeometry,
    keys: Seq<Seq<char>>,
    dictionary: Map<Seq<char>, Seq<char>>,
    from: int,
    middle: int,
    to: int,
)
    requires
        from <= middle <= to,
    ensures
        cells_text(geometry, keys, dictionary, from, to) == cells_text(
            geometry,
            keys,
            dictionary,
            from,
            middle,
        ) + cells_text(geometry, keys, dictionary, middle, to),
    decreases to - middle,
{
    let left = cells_text(geometry, keys, dictionary, from, middle);
    if middle == to {
        assert(left + Seq::<char>::empty() == left);
    } else {
        lemma_cells_join(geometry, keys, dictionary, from, middle, to - 1);
        let last = cell_text(display_name(keys[to - 1], dictionary), geometry.cell_width as int);
        let inner = cells_text(geometry, keys, dictionary, middle, to - 1);
        assert((left + inner) + last == left + (inner + last));
    }
}

/// Keys that add their cell and nothing else extend the grid by their cells.
proof fn lemma_plain_keys(
    geometry: LayoutGeometry,
    keys: Seq<Seq<char>>,
    dictionary: Map<Seq<char>, Seq<char>>,
    from: int,
    to: int,
)
    requires
        0 <= from <= to,
        forall|i: int|
            from < i <= to ==> #[trigger] key_step(geometry, keys, dictionary, i) == cell_text(
                display_name(keys[i - 1], dictionary),
                geometry.cell_width as int,
            ),
    ensures
        grid_text(geometry, keys, dictionary, to) == grid_text(geometry, keys, dictionary, from)
            + cells_text(geometry, keys, dictionary, from, to),
    decreases to - from,
{
    let start = grid_text(geometry, keys, dictionary, from);
    if from == to {
        assert(start + Seq::<char>::empty() == start);
    } else {
        lemma_plain_keys(geometry, keys, dictionary, from, to - 1);
        let inner = cells_text(geometry, keys, dictionary, from, to - 1);
        let last = cell_text(display_name(keys[to - 1], dictionary), geometry.cell_width as int);
        assert(grid_text(geometry, keys, dictionary, to) == grid_text(
            geometry,
            keys,
            dictionary,
            to - 1,
        ) + key_step(geometry, keys, dictionary, to));
        assert((start + inner) + last == start + (inner + last));
    }
}

/// On a layout of the standard shape: which keys end a row, and which the gap
/// follows.
proof fn lemma_standard_positions(geometry: LayoutGeometry, index: int)
    requires
        geometry.has_standard_shape(),
        1 <= index <= 42,
    ensures
        geometry.main_keys() == 36,
        geometry.total_keys() == 42,
        geometry.thumb_padding() == 3,
        geometry.row_ends_at(index) == (index == 12 || index == 24 || index == 36 || index
            == 42),
        geometry.gap_follows(index) == (index == 6 || index == 18 || index == 30 || index
            == 39),
{
    let g = geometry;
    assert(g.columns as int == 12 && g.rows as int == 3 && g.thumb_keys as int == 6);
    assert(g.main_keys() == 36);
    if index > 36 {
        assert(g.half_row(index) == 3);
        assert((index % 3 == 0) == (index == 39 || index == 42));
    } else {
        assert(g.half_row(index) == 6);
        assert((index % 12 == 0) == (index == 12 || index == 24 || index == 36));
        assert((index % 6 == 0) == (index == 6 || index == 12 || index == 18 || index == 24
            || index == 30 || index == 36));
    }
}

/// On a layout of the standard shape: what each key of a layer of 42 keys adds to the
/// grid, beside its cell.
proof fn lemma_standard_key_step(
    geometry: LayoutGeometry,
    keys: Seq<Seq<char>>,
    dictionary: Map<Seq<char>, Seq<char>>,
    index: int,
)
    requires
        geometry.has_standard_shape(),
        1 <= index <= 42,
    ensures
        ({
            let g = geometry;
            let cell = cell_text(display_name(keys[index - 1], dictionary), g.cell_width as int);
            key_step(g, keys, dictionary, index) == if index == 1 {
                border_line(g) + cell
            } else if index == 6 || index == 18 || index == 30 || index == 39 {
                cell + gap_text(g)
            } else if index == 12 || index == 24 || index == 36 {
                cell + row_end_text(g)
            } else if index == 37 {
                thumb_pad_text(g) + cell
            } else if index == 42 {
                cell + thumb_pad_text(g) + row_end_text(g)
            } else {
                cell
            }
        }),
{
    let g = geometry;
    let cell = cell_text(display_name(keys[index - 1], dictionary), g.cell_width as int);
    lemma_standard_positions(geometry, index);
    let wanted = if index == 1 {
        border_line(g) + cell
    } else if index == 6 || index == 18 || index == 30 || index == 39 {
        cell + gap_text(g)
    } else if index == 12 || index == 24 || index == 36 {
        cell + row_end_text(g)
    } else if index == 37 {
        thumb_pad_text(g) + cell
    } else if index == 42 {
        cell + thumb_pad_text(g) + row_end_text(g)
    } else {
        cell
    };
    assert(key_step(g, keys, dictionary, index) =~= wanted);
}

/// The grid after one more key.
proof fn lemma_grid_step(
    geometry: LayoutGeometry,
    keys: Seq<Seq<char>>,
    dictionary: Map<Seq<char>, Seq<char>>,
    count: int,
)
    requires
        count >= 1,
    ensures
        grid_text(geometry, keys, dictionary, count) == grid_text(
            geometry,
            keys,
            dictionary,
            count - 1,
        ) + key_step(geometry, keys, dictionary, count),
{
    let before = grid_text(geometry, keys, dictionary, count - 1);
    let key = key_text(geometry, count, display_name(keys[count - 1], dictionary));
    let end = if geometry.row_ends_at(count) {
        row_end_text(geometry)
    } else {
        Seq::empty()
    };
    assert(before + key + end == before + (key + end));
}

/// The grid after one more key of a layout of the standard shape, one of the
/// first 42.
proof fn lemma_standard_grid_step(
    geometry: LayoutGeometry,
    keys: Seq<Seq<char>>,
    dictionary: Map<Seq<char>, Seq<char>>,
    index: int,
    added: Seq<char>,
)
    requires
        geometry.has_standard_shape(),
        1 <= index <= 42,
        ({
            let g = geometry;
            let cell = cell_text(display_name(keys[index - 1], dictionary), g.cell_width as int);
            added == if index == 1 {
                border_line(g) + cell
            } else if index == 6 || index == 18 || index == 30 || index == 39 {
                cell + gap_text(g)
            } else if index == 12 || index == 24 || index == 36 {
                cell + row_end_text(g)
            } else if index == 37 {
                thumb_pad_text(g) + cell
            } else if index == 42 {
                cell + thumb_pad_text(g) + row_end_text(g)
            } else {
                cell
            }
        }),
    ensures
        grid_text(geometry, keys, dictionary, index) == grid_text(
            geometry,
            keys,
            dictionary,
            index - 1,
        ) + added,
{
    lemma_standard_key_step(geometry, keys, dictionary, index);
    lemma_grid_step(geometry, keys, dictionary, index);
}

/// Whether the key `index` of a layout of the standard shape adds its cell and nothing
/// else: it is not the first of all, does not end a row, does not come before
/// the gap and is not the first of the thumb cluster.
spec fn plain_standard_key(index: int) -> bool {
    index % 6 != 0 && index != 1 && index != 37 && index != 39
}

/// The keys `from + 1` to `to` of a layout of the standard shape extend the grid by
/// their cells, where none of them is the first of all, ends a row, comes
/// before the gap or is the first or the last of the thumb cluster.
proof fn lemma_standard_plain_keys(
    geometry: LayoutGeometry,
    keys: Seq<Seq<char>>,
    dictionary: Map<Seq<char>, Seq<char>>,
    from: int,
    to: int,
)
    requires
        geometry.has_standard_shape(),
        1 <= from <= to <= 41,
        forall|i: int| from < i <= to ==> #[trigger] plain_standard_key(i),
    ensures
        grid_text(geometry, keys, dictionary, to) == grid_text(
            geometry,
            keys,
            dictionary,
            from,
        ) + cells_text(geometry, keys, dictionary, from, to),
{
    let g = geometry;
    assert forall|i: int| from < i <= to implies #[trigger] key_step(g, keys, dictionary, i)
        == cell_text(display_name(keys[i - 1], dictionary), g.cell_width as int) by {
        assert(plain_standard_key(i));
        lemma_standard_key_step(geometry, keys, dictionary, i);
    }
    lemma_plain_keys(g, keys, dictionary, from, to);
}

/// Putting a row of two halves together out of the steps that draw it.
proof fn lemma_row_assembly(
    start: Seq<char>,
    pad: Seq<char>,
    first: Seq<char>,
    inner_left: Seq<char>,
    middle: Seq<char>,
    gap: Seq<char>,
    inner_right: Seq<char>,
    last: Seq<char>,
    close: Seq<char>,
    border: Seq<char>,
)
    ensures
        start + (pad + first) + inner_left + (middle + gap) + inner_right + (last + pad + (close
            + border)) == start + (pad + (first + inner_left + middle) + gap + (inner_right + last)
            + pad + close) + border,
{
    let a = start + (pad + first) + inner_left + (middle + gap) + inner_right + (last + pad + (
        close + border));
    let b = start + (pad + (first + inner_left + middle) + gap + (inner_right + last) + pad
        + close) + border;
    assert(a.len() == b.len());
    assert(a =~= b);
}

/// The cells of the keys `from + 1` to `to`: the first, those between, the
/// last.
proof fn lemma_cells_ends(
    geometry: LayoutGeometry,
    keys: Seq<Seq<char>>,
    dictionary: Map<Seq<char>, Seq<char>>,
    from: int,
    to: int,
)
    requires
        from + 2 <= to,
    ensures
        cells_text(geometry, keys, dictionary, from, to) == cell_text(
            display_name(keys[from], dictionary),
            geometry.cell_width as int,
        ) + cells_text(geometry, keys, dictionary, from + 1, to - 1) + cell_text(
            display_name(keys[to - 1], dictionary),
            geometry.cell_width as int,
        ),
{
    let first = cell_text(display_name(keys[from], dictionary), geometry.cell_width as int);
    lemma_cells_join(geometry, keys, dictionary, from, from + 1, to - 1);
    assert(cells_text(geometry, keys, dictionary, from, from) == Seq::<char>::empty());
    assert(Seq::<char>::empty() + first == first);
    assert(cells_text(geometry, keys, dictionary, from, from + 1) == first);
}

/// On a layout of the standard shape the grid grows by one row of the main grid with the
/// keys `from + 1` to `from + 12`, where `from` is 0, 12 or 24: the border
/// line above the first row, six cells, the gap, six cells, and the end of
/// the row.
proof fn lemma_standard_main_row(
    geometry: LayoutGeometry,
    keys: Seq<Seq<char>>,
    dictionary: Map<Seq<char>, Seq<char>>,
    from: int,
)
    requires
        geometry.has_standard_shape(),
        from == 0 || from == 12 || from == 24,
    ensures
        grid_text(geometry, keys, dictionary, from + 12) == grid_text(
            geometry,
            keys,
            dictionary,
            from,
        ) + (if from == 0 {
            border_line(geometry)
        } else {
            Seq::empty()
        }) + split_row_text(geometry, keys, dictionary, from, from + 6, from + 12, false)
            + border_line(geometry),
{
    let g = geometry;
    let width = g.cell_width as int;
    let start = grid_text(g, keys, dictionary, from);
    let border = border_line(g);
    let gap = gap_text(g);
    let close = seq!['|', '\n'];
    let top = if from == 0 {
        border
    } else {
        Seq::empty()
    };
    let none = Seq::<char>::empty();
    let first = cell_text(display_name(keys[from], dictionary), width);
    let sixth = cell_text(display_name(keys[from + 5], dictionary), width);
    let seventh = cell_text(display_name(keys[from + 6], dictionary), width);
    let last = cell_text(display_name(keys[from + 11], dictionary), width);
    let inner_left = cells_text(g, keys, dictionary, from + 1, from + 5);
    let inner_right = cells_text(g, keys, dictionary, from + 6, from + 11);
    let g1 = grid_text(g, keys, dictionary, from + 1);
    let g5 = grid_text(g, keys, dictionary, from + 5);
    let g6 = grid_text(g, keys, dictionary, from + 6);
    let g11 = grid_text(g, keys, dictionary, from + 11);
    let g12 = grid_text(g, keys, dictionary, from + 12);
    assert(g1 == (start + top) + (none + first)) by {
        if from == 0 {
            lemma_standard_grid_step(geometry, keys, dictionary, 1, border + first);
            assert(start == none);
            assert(start + (border + first) =~= (start + top) + (none + first));
        } else {
            lemma_standard_grid_step(geometry, keys, dictionary, from + 1, first);
            assert(start + first =~= (start + top) + (none + first));
        }
    }
    assert forall|i: int| from + 1 < i <= from + 5 implies #[trigger] plain_standard_key(i) by {}
    lemma_standard_plain_keys(geometry, keys, dictionary, from + 1, from + 5);
    lemma_standard_grid_step(geometry, keys, dictionary, from + 6, sixth + gap);
    assert forall|i: int| from + 6 < i <= from + 11 implies #[trigger] plain_standard_key(i) by {}
    lemma_standard_plain_keys(geometry, keys, dictionary, from + 6, from + 11);
    lemma_standard_grid_step(geometry, keys, dictionary, from + 12, last + (close + border));
    assert(g12 == (start + top) + (none + first) + inner_left + (sixth + gap) + inner_right + (last
        + none + (close + border))) by {
        assert(last + none == last);
    }
    lemma_row_assembly(
        start + top,
        none,
        first,
        inner_left,
        sixth,
        gap,
        inner_right,
        last,
        close,
        border,
    );
    lemma_cells_ends(g, keys, dictionary, from, from + 6);
    assert(cells_text(g, keys, dictionary, from + 6, from + 12) == inner_right + last);
}

/// On a layout of the standard shape the grid of a layer of 42 keys ends with the row of
/// the thumb cluster: three empty cells, three cells, the gap, three cells,
/// three empty cells, and the end of the row.
proof fn lemma_standard_thumb_row(
    geometry: LayoutGeometry,
    keys: Seq<Seq<char>>,
    dictionary: Map<Seq<char>, Seq<char>>,
)
    requires
        geometry.has_standard_shape(),
    ensures
        grid_text(geometry, keys, dictionary, 42) == grid_text(
            geometry,
            keys,
            dictionary,
            36,
        ) + split_row_text(geometry, keys, dictionary, 36, 39, 42, true) + border_line(
            geometry,
        ),
{
    let g = geometry;
    let width = g.cell_width as int;
    let start = grid_text(g, keys, dictionary, 36);
    let border = border_line(g);
    let gap = gap_text(g);
    let close = seq!['|', '\n'];
    let pad = thumb_pad_text(g);
    let c37 = cell_text(display_name(keys[36], dictionary), width);
    let c38 = cell_text(display_name(keys[37], dictionary), width);
    let c39 = cell_text(display_name(keys[38], dictionary), width);
    let c42 = cell_text(display_name(keys[41], dictionary), width);
    let inner_right = cells_text(g, keys, dictionary, 39, 41);
    lemma_standard_grid_step(geometry, keys, dictionary, 37, pad + c37);
    lemma_standard_grid_step(geometry, keys, dictionary, 38, c38);
    lemma_standard_grid_step(geometry, keys, dictionary, 39, c39 + gap);
    assert forall|i: int| 39 < i <= 41 implies #[trigger] plain_standard_key(i) by {}
    lemma_standard_plain_keys(geometry, keys, dictionary, 39, 41);
    lemma_standard_grid_step(geometry, keys, dictionary, 42, c42 + pad + (close + border));
    lemma_row_assembly(start, pad, c37, c38, c39, gap, inner_right, c42, close, border);
    lemma_cells_ends(g, keys, dictionary, 36, 39);
    assert(cells_text(g, keys, dictionary, 37, 38) == c38) by {
        assert(cells_text(g, keys, dictionary, 37, 37) == Seq::<char>::empty());
        assert(Seq::<char>::empty() + c38 == c38);
    }
    assert(cells_text(g, keys, dictionary, 39, 42) == inner_right + c42);
}

/// On a split layout of three rows of twelve keys and six thumb keys, whatever
/// the width of its cells, a layer of 42 keys is drawn as four bordered rows:
/// three rows of the main grid with twelve cells each, and the row of the
/// thumb cluster with six cells between three empty cells on each side. Each
/// row holds the gap once, in its middle, and a border line stands above the
/// first row and below each row.
pub proof fn lemma_standard_layer_rows(
    geometry: LayoutGeometry,
    keys: Seq<Seq<char>>,
    dictionary: Map<Seq<char>, Seq<char>>,
)
    requires
        geometry.has_standard_shape(),
        keys.len() == 42,
    ensures
        geometry.filled_by(keys.len() as int),
        grid_text(geometry, keys, dictionary, 42) == border_line(geometry)
            + split_row_text(geometry, keys, dictionary, 0, 6, 12, false) + border_line(
            geometry,
        ) + split_row_text(geometry, keys, dictionary, 12, 18, 24, false) + border_line(
            geometry,
        ) + split_row_text(geometry, keys, dictionary, 24, 30, 36, false) + border_line(
            geometry,
        ) + split_row_text(geometry, keys, dictionary, 36, 39, 42, true) + border_line(
            geometry,
        ),
{
    let g = geometry;
    let border = border_line(g);
    lemma_standard_main_row(geometry, keys, dictionary, 0);
    lemma_standard_main_row(geometry, keys, dictionary, 12);
    lemma_standard_main_row(geometry, keys, dictionary, 24);
    lemma_standard_thumb_row(geometry, keys, dictionary);
    let row1 = split_row_text(g, keys, dictionary, 0, 6, 12, false);
    let row2 = split_row_text(g, keys, dictionary, 12, 18, 24, false);
    let row3 = split_row_text(g, keys, dictionary, 24, 30, 36, false);
    let g0 = grid_text(g, keys, dictionary, 0);
    let g12 = grid_text(g, keys, dictionary, 12);
    let g24 = grid_text(g, keys, dictionary, 24);
    let g36 = grid_text(g, keys, dictionary, 36);
    assert(g0 == Seq::<char>::empty());
    assert(g12 == border + row1 + border) by {
        assert(g0 + border == border);
    }
    assert(g24 == border + row1 + border + row2 + border) by {
        assert(g12 + Seq::<char>::empty() == g12);
    }
    assert(g36 == border + row1 + border + row2 + border + row3 + border) by {
        assert(g24 + Seq::<char>::empty() == g24);
    }
}

/// Whether `s` holds no line feed.
pub open spec fn on_one_line(s: Seq<char>) -> bool {
    forall|i: int| 0 <= i < s.len() ==> s[i] != '\n'
}

/// `count` times a text is `count` times as long, and on one line where the
/// text is.
pub proof fn lemma_repeated(text: Seq<char>, count: int)
    requires
        count >= 0,
    ensures
        repeated(text, count).len() == count * text.len(),
        on_one_line(text) ==> on_one_line(repeated(text, count)),
    decreases count,
{
    if count > 0 {
        lemma_repeated(text, count - 1);
        assert(count * text.len() == (count - 1) * text.len() + text.len()) by (nonlinear_arith);
    } else {
        assert(count * text.len() == 0) by (nonlinear_arith)
            requires
                count == 0,
        ;
    }
}

/// The cells of the keys `from + 1` to `to` take the width of a bordered cell
/// each, and stand on one line where the names of these keys do.
pub proof fn lemma_cells_text(
    geometry: LayoutGeometry,
    keys: Seq<Seq<char>>,
    dictionary: Map<Seq<char>, Seq<char>>,
    from: int,
    to: int,
)
    requires
        0 <= from <= to <= keys.len(),
    ensures
        cells_text(geometry, keys, dictionary, from, to).len() == (to - from) * (
        geometry.cell_width + 1),
        (forall|i: int| from <= i < to ==> on_one_line(#[trigger] display_name(keys[i], dictionary)))
            ==> on_one_line(cells_text(geometry, keys, dictionary, from, to)),
        from < to ==> cells_text(geometry, keys, dictionary, from, to)[0] == '|',
    decreases to - from,
{
    let width = geometry.cell_width + 1;
    if from < to {
        lemma_cells_text(geometry, keys, dictionary, from, to - 1);
        let name = display_name(keys[to - 1], dictionary);
        lemma_cell_text_len(name, geometry.cell_width as int);
        assert((to - from) * width == (to - 1 - from) * width + width) by (nonlinear_arith);
        if forall|i: int| from <= i < to ==> on_one_line(#[trigger] display_name(keys[i], dictionary)) {
            assert(on_one_line(name));
            lemma_cell_on_one_line(name, geometry.cell_width as int);
        }
    } else {
        assert((to - from) * width == 0) by (nonlinear_arith)
            requires
                to - from == 0,
        ;
    }
}

/// The cell of a name that stands on one line stands on one line.
pub proof fn lemma_cell_on_one_line(name: Seq<char>, width: int)
    requires
        width >= 0,
        on_one_line(name),
    ensures
        on_one_line(cell_text(name, width)),
{
    let shown = shown_part(name, width);
    assert forall|i: int| 0 <= i < shown.len() implies shown[i] != '\n' by {
        assert(shown[i] == name[i]);
    }
}

/// The border line of a layout with columns is one line: it begins with a
/// corner, holds no line feed before its end, and ends with a corner and a
/// line feed.
pub proof fn lemma_border_is_one_line(geometry: LayoutGeometry)
    requires
        geometry.columns >= 1,
    ensures
        border_line(geometry)[0] == '+',
        on_one_line(border_line(geometry).drop_last()),
        border_line(geometry).drop_last().last() == '+',
        border_line(geometry).last() == '\n',
{
    lemma_border_line_len(geometry);
    let cell = bordered_width(geometry);
    let width = border_width(geometry);
    assert(0 <= cell * geometry.columns) by (nonlinear_arith)
        requires
            0 <= cell,
            0 <= geometry.columns,
    ;
    assert(cell * geometry.columns >= cell) by (nonlinear_arith)
        requires
            0 <= cell,
            1 <= geometry.columns,
    ;
    assert(width / 2 - cell / 2 >= 0);
    assert(border_char(geometry, 0) == '+');
    assert(border_line(geometry)[0] == border_start(geometry, width)[0]);
}

/// On a split layout of three rows of twelve keys and six thumb keys, each
/// row of a layer of 42 keys is one line, where the names of the keys stand
/// on one line: it begins with a pipe, holds no line feed before its end, and
/// ends with a pipe and a line feed. All four rows are thirteen bordered
/// cells long, with the pipe and the line feed behind them; a border line is
/// as long as the rows where the cells are seven characters wide.
pub proof fn lemma_standard_rows_are_lines(
    geometry: LayoutGeometry,
    keys: Seq<Seq<char>>,
    dictionary: Map<Seq<char>, Seq<char>>,
    from: int,
)
    requires
        geometry.has_standard_shape(),
        keys.len() == 42,
        from == 0 || from == 12 || from == 24 || from == 36,
    ensures
        ({
            let row = if from == 36 {
                split_row_text(geometry, keys, dictionary, 36, 39, 42, true)
            } else {
                split_row_text(geometry, keys, dictionary, from, from + 6, from + 12, false)
            };
            &&& row.len() == 13 * (geometry.cell_width + 1) + 2
            &&& row[0] == '|'
            &&& row.drop_last().last() == '|'
            &&& row.last() == '\n'
            &&& (forall|i: int| 0 <= i < 42 ==> on_one_line(#[trigger] display_name(keys[i], dictionary)))
                ==> on_one_line(row.drop_last())
            &&& geometry.cell_width == 7 ==> row.len() == border_line(geometry).len()
        }),
{
    let g = geometry;
    let width = g.cell_width + 1;
    let one = forall|i: int| 0 <= i < 42 ==> on_one_line(#[trigger] display_name(keys[i], dictionary));
    let padded = from == 36;
    let middle = if padded {
        39
    } else {
        from + 6
    };
    let to = if padded {
        42
    } else {
        from + 12
    };
    let pad = if padded {
        thumb_pad_text(g)
    } else {
        Seq::empty()
    };
    let left = cells_text(g, keys, dictionary, from, middle);
    let right = cells_text(g, keys, dictionary, middle, to);
    let gap = gap_text(g);
    let row = split_row_text(g, keys, dictionary, from, middle, to, padded);
    assert(row == pad + left + gap + right + pad + seq!['|', '\n']);
    lemma_cells_text(g, keys, dictionary, from, middle);
    lemma_cells_text(g, keys, dictionary, middle, to);
    lemma_border_line_len(g);
    let empty_cell = cell_text(seq![' '], g.cell_width as int);
    lemma_cell_text_len(seq![' '], g.cell_width as int);
    assert(on_one_line(seq![' ']));
    lemma_cell_on_one_line(seq![' '], g.cell_width as int);
    assert(g.thumb_padding() == 3);
    lemma_repeated(empty_cell, 3);
    assert(gap.len() == width);
    assert(on_one_line(gap));
    if padded {
        assert(pad.len() == 3 * width);
        assert(left.len() == 3 * width);
        assert(right.len() == 3 * width);
        assert(pad[0] == '|') by {
            reveal_with_fuel(repeated, 4);
            assert(repeated(empty_cell, 3) =~= empty_cell + empty_cell + empty_cell);
        }
    } else {
        assert(left.len() == 6 * width);
        assert(right.len() == 6 * width);
    }
    assert(row.len() == 13 * width + 2);
    assert(row[0] == '|');
    let line = row.drop_last();
    assert(line =~= pad + left + gap + right + pad + seq!['|']);
    if one {
        assert(on_one_line(left));
        assert(on_one_line(right));
        assert(on_one_line(pad));
        assert(on_one_line(line));
    }
    if g.cell_width == 7 {
        assert(bordered_width(g) * g.columns == 96);
    }
}

/// Whether `piece` is one line with its line feed: it holds a character, no
/// line feed before its end, no carriage return before its last character,
/// and a line feed as its last.
pub open spec fn is_line(piece: Seq<char>) -> bool {
    &&& piece.len() >= 2
    &&& piece.last() == '\n'
    &&& on_one_line(piece.drop_last())
    &&& piece.drop_last().last() != '\r'
}

/// One more line of a diagram: a piece that is one line with its line feed,
/// added to a text that is empty or ends in a line feed.
proof fn lemma_diagram_line(text: Seq<char>, piece: Seq<char>)
    requires
        text.len() == 0 || text.last() == '\n',
        is_line(piece),
    ensures
        lines(text + piece) == lines(text).push(piece.drop_last()),
        (text + piece).last() == '\n',
{
    let line = piece.drop_last();
    assert(line + seq!['\n'] == piece);
    assert forall|i: int| 0 <= i < line.len() implies line[i] != '\n' by {}
    lemma_lines_push(text, line);
}

/// Three lines more: a row between two border lines, or the like.
proof fn lemma_diagram_lines(text: Seq<char>, first: Seq<char>, second: Seq<char>)
    requires
        text.len() == 0 || text.last() == '\n',
        is_line(first),
        is_line(second),
    ensures
        lines(text + first + second) == lines(text).push(first.drop_last()).push(
            second.drop_last(),
        ),
        (text + first + second).last() == '\n',
{
    lemma_diagram_line(text, first);
    lemma_diagram_line(text + first, second);
}

/// A border line and four times a row and a border line are nine lines more
/// of a text that is empty or ends in a line feed.
proof fn lemma_nine_lines(
    text: Seq<char>,
    border: Seq<char>,
    row1: Seq<char>,
    row2: Seq<char>,
    row3: Seq<char>,
    row4: Seq<char>,
)
    requires
        text.len() == 0 || text.last() == '\n',
        is_line(border),
        is_line(row1),
        is_line(row2),
        is_line(row3),
        is_line(row4),
    ensures
        lines(text + border + row1 + border + row2 + border + row3 + border + row4 + border)
            == lines(text) + seq![
            border.drop_last(),
            row1.drop_last(),
            border.drop_last(),
            row2.drop_last(),
            border.drop_last(),
            row3.drop_last(),
            border.drop_last(),
            row4.drop_last(),
            border.drop_last(),
        ],
        (text + border + row1 + border + row2 + border + row3 + border + row4 + border).last()
            == '\n',
{
    let b = border.drop_last();
    let l0 = lines(text);
    lemma_diagram_line(text, border);
    let t1 = text + border;
    let l1 = l0.push(b);
    lemma_diagram_lines(t1, row1, border);
    let t3 = t1 + row1 + border;
    let l3 = l1.push(row1.drop_last()).push(b);
    lemma_diagram_lines(t3, row2, border);
    let t5 = t3 + row2 + border;
    let l5 = l3.push(row2.drop_last()).push(b);
    lemma_diagram_lines(t5, row3, border);
    let t7 = t5 + row3 + border;
    let l7 = l5.push(row3.drop_last()).push(b);
    lemma_diagram_lines(t7, row4, border);
    let l9 = l7.push(row4.drop_last()).push(b);
    assert(l9 =~= l0 + seq![
        b,
        row1.drop_last(),
        b,
        row2.drop_last(),
        b,
        row3.drop_last(),
        b,
        row4.drop_last(),
        b,
    ]);
}

/// A border line and four times a row and a border line are nine lines.
proof fn lemma_nine_lines_alone(
    border: Seq<char>,
    row1: Seq<char>,
    row2: Seq<char>,
    row3: Seq<char>,
    row4: Seq<char>,
)
    requires
        is_line(border),
        is_line(row1),
        is_line(row2),
        is_line(row3),
        is_line(row4),
    ensures
        lines(border + row1 + border + row2 + border + row3 + border + row4 + border) == seq![
            border.drop_last(),
            row1.drop_last(),
            border.drop_last(),
            row2.drop_last(),
            border.drop_last(),
            row3.drop_last(),
            border.drop_last(),
            row4.drop_last(),
            border.drop_last(),
        ],
{
    let none = Seq::<char>::empty();
    let nine = seq![
        border.drop_last(),
        row1.drop_last(),
        border.drop_last(),
        row2.drop_last(),
        border.drop_last(),
        row3.drop_last(),
        border.drop_last(),
        row4.drop_last(),
        border.drop_last(),
    ];
    lemma_nine_lines(none, border, row1, row2, row3, row4);
    assert(none + border == border);
    assert(lines(none) == Seq::<Seq<char>>::empty());
    assert(lines(none) + nine == nine);
}

/// Nine pieces behind a text are the nine together behind the text.
proof fn lemma_nine_pieces(
    text: Seq<char>,
    border: Seq<char>,
    row1: Seq<char>,
    row2: Seq<char>,
    row3: Seq<char>,
    row4: Seq<char>,
)
    ensures
        text + (border + row1 + border + row2 + border + row3 + border + row4 + border) == text
            + border + row1 + border + row2 + border + row3 + border + row4 + border,
{
    let grid = border + row1 + border + row2 + border + row3 + border + row4 + border;
    let all = text + border + row1 + border + row2 + border + row3 + border + row4 + border;
    assert(all.len() == (text + grid).len());
    assert(text + grid =~= all);
}

/// On a layout of the standard shape, the border line and the four rows of a
/// layer of 42 keys whose names stand on one line are lines: the border line
/// begins with a corner, the rows begin with a pipe and are equally long, and
/// the border line is as long as they are where the cells are seven
/// characters wide.
proof fn lemma_standard_pieces(
    geometry: LayoutGeometry,
    keys: Seq<Seq<char>>,
    dictionary: Map<Seq<char>, Seq<char>>,
)
    requires
        geometry.has_standard_shape(),
        keys.len() == 42,
        forall|i: int| 0 <= i < 42 ==> on_one_line(#[trigger] display_name(keys[i], dictionary)),
    ensures
        ({
            let border = border_line(geometry);
            let row1 = split_row_text(geometry, keys, dictionary, 0, 6, 12, false);
            let row2 = split_row_text(geometry, keys, dictionary, 12, 18, 24, false);
            let row3 = split_row_text(geometry, keys, dictionary, 24, 30, 36, false);
            let row4 = split_row_text(geometry, keys, dictionary, 36, 39, 42, true);
            &&& is_line(border) && is_line(row1) && is_line(row2) && is_line(row3) && is_line(row4)
            &&& border[0] == '+'
            &&& row1[0] == '|' && row2[0] == '|' && row3[0] == '|' && row4[0] == '|'
            &&& row1.len() == row2.len() == row3.len() == row4.len()
            &&& geometry.cell_width == 7 ==> border.len() == row1.len()
        }),
{
    let g = geometry;
    let b = border_line(g);
    let r1 = split_row_text(g, keys, dictionary, 0, 6, 12, false);
    let r2 = split_row_text(g, keys, dictionary, 12, 18, 24, false);
    let r3 = split_row_text(g, keys, dictionary, 24, 30, 36, false);
    let r4 = split_row_text(g, keys, dictionary, 36, 39, 42, true);
    let long = 13 * (g.cell_width + 1) + 2;
    assert(is_line(b) && b[0] == '+') by {
        lemma_border_is_one_line(g);
        lemma_border_line_len(g);
    }
    assert(is_line(r1) && r1[0] == '|' && r1.len() == long && (g.cell_width == 7 ==> b.len()
        == r1.len())) by {
        lemma_standard_rows_are_lines(g, keys, dictionary, 0);
    }
    assert(is_line(r2) && r2[0] == '|' && r2.len() == long) by {
        lemma_standard_rows_are_lines(g, keys, dictionary, 12);
    }
    assert(is_line(r3) && r3[0] == '|' && r3.len() == long) by {
        lemma_standard_rows_are_lines(g, keys, dictionary, 24);
    }
    assert(is_line(r4) && r4[0] == '|' && r4.len() == long) by {
        lemma_standard_rows_are_lines(g, keys, dictionary, 36);
    }
}

/// On a split layout of three rows of twelve keys and six thumb keys, whatever
/// the width of its cells, the grid of a layer of 42 keys whose names stand on
/// one line has nine lines: a border line, and four times a row of keys and a
/// border line. The rows begin with a pipe and the border lines with a corner,
/// so four lines are rows and five are border lines; where the cells are seven
/// characters wide all nine are equally long.
pub proof fn lemma_standard_layer_lines(
    geometry: LayoutGeometry,
    keys: Seq<Seq<char>>,
    dictionary: Map<Seq<char>, Seq<char>>,
)
    requires
        geometry.has_standard_shape(),
        keys.len() == 42,
        forall|i: int| 0 <= i < 42 ==> on_one_line(#[trigger] display_name(keys[i], dictionary)),
    ensures
        ({
            let border = border_line(geometry).drop_last();
            let row1 = split_row_text(geometry, keys, dictionary, 0, 6, 12, false).drop_last();
            let row2 = split_row_text(geometry, keys, dictionary, 12, 18, 24, false).drop_last();
            let row3 = split_row_text(geometry, keys, dictionary, 24, 30, 36, false).drop_last();
            let row4 = split_row_text(geometry, keys, dictionary, 36, 39, 42, true).drop_last();
            &&& lines(grid_text(geometry, keys, dictionary, 42)) == seq![
                border,
                row1,
                border,
                row2,
                border,
                row3,
                border,
                row4,
                border,
            ]
            &&& border[0] == '+'
            &&& row1[0] == '|' && row2[0] == '|' && row3[0] == '|' && row4[0] == '|'
            &&& row1.len() == row2.len() == row3.len() == row4.len()
            &&& geometry.cell_width == 7 ==> border.len() == row1.len()
        }),
{
    let g = geometry;
    lemma_standard_pieces(g, keys, dictionary);
    lemma_standard_layer_rows(g, keys, dictionary);
    lemma_nine_lines_alone(
        border_line(g),
        split_row_text(g, keys, dictionary, 0, 6, 12, false),
        split_row_text(g, keys, dictionary, 12, 18, 24, false),
        split_row_text(g, keys, dictionary, 24, 30, 36, false),
        split_row_text(g, keys, dictionary, 36, 39, 42, true),
    );
}

/// The first line of the diagram of the layer with the number `number`.
pub open spec fn header_line(number: nat) -> Seq<char> {
    "---- LAYER "@ + decimal_text(number) + " start ----"@
}

/// The last line of the diagram of a layer but for the empty one behind it.
pub open spec fn footer_line() -> Seq<char> {
    "---- LAYER end ----"@
}

/// The header of a layer is its first line and an empty line.
proof fn lemma_header_lines(number: nat)
    ensures
        lines(layer_header(number)) == seq![header_line(number), Seq::<char>::empty()],
        layer_header(number).last() == '\n',
{
    reveal_strlit("---- LAYER ");
    reveal_strlit(" start ----");
    reveal_strlit(" start ----\n\n");
    lemma_decimal_text_digits(number);
    let none = Seq::<char>::empty();
    let first = header_line(number);
    let digits = decimal_text(number);
    assert(first.len() == 11 + digits.len() + 11);
    assert forall|i: int| 0 <= i < first.len() implies first[i] != '\n' by {
        if 11 <= i < 11 + digits.len() {
            assert(first[i] == digits[i - 11]);
        }
    }
    assert(first.last() == '-');
    lemma_lines_push(none, first);
    assert(lines(none) == Seq::<Seq<char>>::empty());
    let one = none + (first + seq!['\n']);
    lemma_lines_push(one, none);
    assert(layer_header(number) =~= one + (none + seq!['\n']));
    assert(Seq::<Seq<char>>::empty().push(first).push(none) =~= seq![first, none]);
}

/// The footer of a layer, behind a text that ends in a line feed, is an empty
/// line, the last line and an empty line.
proof fn lemma_footer_lines(text: Seq<char>)
    requires
        text.len() > 0,
        text.last() == '\n',
    ensures
        lines(text + layer_footer()) == lines(text) + seq![
            Seq::<char>::empty(),
            footer_line(),
            Seq::<char>::empty(),
        ],
{
    reveal_strlit("\n---- LAYER end ----\n\n");
    reveal_strlit("---- LAYER end ----");
    let none = Seq::<char>::empty();
    let last = footer_line();
    let feed = seq!['\n'];
    lemma_lines_push(text, none);
    let one = text + (none + feed);
    lemma_lines_push(one, last);
    let two = one + (last + feed);
    lemma_lines_push(two, none);
    assert(text + layer_footer() =~= two + (none + feed));
    assert(lines(text).push(none).push(last).push(none) =~= lines(text) + seq![none, last, none]);
}

/// A header, nine lines of a grid and the footer of a layer: the lines of the
/// header, the nine lines, and the three lines of the footer.
proof fn lemma_layer_assembly(
    header: Seq<char>,
    border: Seq<char>,
    row1: Seq<char>,
    row2: Seq<char>,
    row3: Seq<char>,
    row4: Seq<char>,
)
    requires
        header.len() > 0,
        header.last() == '\n',
        is_line(border),
        is_line(row1),
        is_line(row2),
        is_line(row3),
        is_line(row4),
    ensures
        lines(
            header + (border + row1 + border + row2 + border + row3 + border + row4 + border)
                + layer_footer(),
        ) == lines(header) + lines(
            border + row1 + border + row2 + border + row3 + border + row4 + border,
        ) + seq![Seq::<char>::empty(), footer_line(), Seq::<char>::empty()],
        lines(border + row1 + border + row2 + border + row3 + border + row4 + border).len() == 9,
{
    let grid = border + row1 + border + row2 + border + row3 + border + row4 + border;
    lemma_nine_lines_alone(border, row1, row2, row3, row4);
    lemma_nine_lines(header, border, row1, row2, row3, row4);
    lemma_nine_pieces(header, border, row1, row2, row3, row4);
    lemma_footer_lines(header + grid);
}

/// On a split layout of three rows of twelve keys and six thumb keys, whatever
/// the width of its cells, the diagram of a layer of 42 keys whose names stand
/// on one line has the first line of the layer, an empty line, the nine lines
/// of the grid, an empty line, the last line of the layer and an empty line.
pub proof fn lemma_standard_layer_diagram(
    geometry: LayoutGeometry,
    keys: Seq<Seq<char>>,
    dictionary: Map<Seq<char>, Seq<char>>,
    number: nat,
)
    requires
        geometry.has_standard_shape(),
        keys.len() == 42,
        forall|i: int| 0 <= i < 42 ==> on_one_line(#[trigger] display_name(keys[i], dictionary)),
    ensures
        lines(rendered_layer(geometry, keys, dictionary, number)) == seq![
            header_line(number),
            Seq::<char>::empty(),
        ] + lines(grid_text(geometry, keys, dictionary, 42)) + seq![
            Seq::<char>::empty(),
            footer_line(),
            Seq::<char>::empty(),
        ],
        lines(rendered_layer(geometry, keys, dictionary, number)).len() == 14,
{
    let g = geometry;
    lemma_standard_pieces(g, keys, dictionary);
    lemma_standard_layer_rows(g, keys, dictionary);
    lemma_standard_layer_lines(g, keys, dictionary);
    lemma_header_lines(number);
    lemma_layer_assembly(
        layer_header(number),
        border_line(g),
        split_row_text(g, keys, dictionary, 0, 6, 12, false),
        split_row_text(g, keys, dictionary, 12, 18, 24, false),
        split_row_text(g, keys, dictionary, 24, 30, 36, false),
        split_row_text(g, keys, dictionary, 36, 39, 42, true),
    );
}

/// The diagram of a keymap of one layer is the diagram of that layer, with the
/// number 0.
pub proof fn lemma_single_layer(
    geometry: LayoutGeometry,
    keys: Seq<Seq<char>>,
    dictionary: Map<Seq<char>, Seq<char>>,
)
    ensures
        rendered_keymap(geometry, seq![keys], dictionary) == rendered_layer(
            geometry,
            keys,
            dictionary,
            0,
        ),
{
    let layers = seq![keys];
    assert(rendered_layers(geometry, layers, dictionary, 0) == Seq::<char>::empty());
    assert(rendered_layers(geometry, layers, dictionary, 1) == Seq::<char>::empty()
        + rendered_layer(geometry, layers[0], dictionary, 0));
    assert(Seq::<char>::empty() + rendered_layer(geometry, keys, dictionary, 0) == rendered_layer(
        geometry,
        keys,
        dictionary,
        0,
    ));
}

} // verus!
