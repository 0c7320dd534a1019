use keymap_visualizer::layout::LayoutGeometry;

#[test]
fn default_layout_is_the_split_three_by_twelve_with_six_thumb_keys() {
    let layout = LayoutGeometry::default();
    assert_eq!(
        layout,
        LayoutGeometry { columns: 12, rows: 3, thumb_keys: 6, split: true, cell_width: 7 }
    );
    assert_eq!(layout.main_key_count(), 36);
    assert_eq!(layout.expected_key_count(), 42);
    assert_eq!(layout.thumb_pad_count(), 3);
    assert!(layout.is_filled_by(42));
    assert!(!layout.is_filled_by(41));
    assert!(!layout.is_filled_by(0));
}

#[test]
fn rows_end_at_multiples_of_the_columns_and_at_the_last_thumb_key() {
    let layout = LayoutGeometry::default();
    let ends: Vec<usize> = (0..50).filter(|index| layout.is_row_end(*index)).collect();
    assert_eq!(ends, vec![0, 12, 24, 36, 42]);
}

#[test]
fn gap_follows_the_middle_key_of_each_row() {
    let layout = LayoutGeometry::default();
    let gaps: Vec<usize> = (1..46).filter(|index| layout.is_split_gap(*index)).collect();
    assert_eq!(gaps, vec![6, 18, 30, 39, 45]);
    let whole = LayoutGeometry { split: false, ..layout };
    assert_eq!((0..50).filter(|index| whole.is_split_gap(*index)).count(), 0);
}

#[test]
fn narrow_layouts_have_no_gap_and_no_padding() {
    let layout = LayoutGeometry { columns: 1, rows: 2, thumb_keys: 1, split: true, cell_width: 7 };
    assert_eq!((0..10).filter(|index| layout.is_split_gap(*index)).count(), 0);
    assert_eq!(layout.thumb_pad_count(), 0);
    let wide_thumbs = LayoutGeometry { columns: 2, rows: 1, thumb_keys: 6, split: true, cell_width: 7 };
    assert_eq!(wide_thumbs.thumb_pad_count(), 0);
    let none = LayoutGeometry { columns: 0, rows: 3, thumb_keys: 0, split: true, cell_width: 7 };
    assert_eq!(none.main_key_count(), 0);
    assert!(!none.is_row_end(1));
    assert!(!none.is_row_end(3));
}

#[test]
fn largest_layout_is_counted_without_overflow() {
    let layout = LayoutGeometry {
        columns: u16::MAX,
        rows: u16::MAX,
        thumb_keys: u16::MAX,
        split: true,
        cell_width: 0,
    };
    assert_eq!(layout.main_key_count(), 65535 * 65535);
    assert_eq!(layout.expected_key_count(), 65535 * 65535 + 65535);
    assert!(layout.is_row_end(65535 * 65535 + 65535));
}
