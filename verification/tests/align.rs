use cellfont::align::{row_index, shift_row, start_row};

#[test]
fn row_index_of_a_tall_glyph_is_the_top_row() {
    assert_eq!(row_index(7, 0), 0);
}

#[test]
fn row_index_of_an_underscore_is_the_bottom_row() {
    assert_eq!(row_index(1, -1), 7);
}

#[test]
fn row_index_of_a_grave_accent_is_the_top_row() {
    assert_eq!(row_index(2, 5), 0);
    assert_eq!(start_row(2, 5), Some(0));
}

#[test]
fn row_index_may_be_negative() {
    assert_eq!(row_index(8, 0), -1);
    assert_eq!(row_index(4, 5), -2);
    assert_eq!(start_row(4, 5), Some(0));
}

#[test]
fn row_index_at_the_limits_of_the_integers() {
    assert_eq!(row_index(i64::MIN, i64::MIN), 7 + (1i128 << 64));
    assert_eq!(row_index(i64::MAX, i64::MAX), 9 - (1i128 << 64));
}

#[test]
fn start_row_clamps_a_negative_index_to_the_top() {
    assert_eq!(start_row(2, 5), Some(0));
    assert_eq!(start_row(8, 0), Some(0));
    assert_eq!(start_row(i64::MAX, i64::MAX), Some(0));
}

#[test]
fn start_row_inside_the_cell_is_the_index() {
    assert_eq!(start_row(7, 0), Some(0));
    assert_eq!(start_row(1, -1), Some(7));
    assert_eq!(start_row(5, 0), Some(2));
    assert_eq!(start_row(3, -1), Some(5));
}

#[test]
fn start_row_below_the_cell_is_refused() {
    assert_eq!(start_row(1, -2), None);
    assert_eq!(start_row(0, -1), None);
    assert_eq!(start_row(-5, 0), None);
    assert_eq!(start_row(i64::MIN, 0), None);
}

#[test]
fn shift_by_zero_keeps_the_row() {
    for v in 0..=255u8 {
        assert_eq!(shift_row(v, 0), Some(v));
    }
}

#[test]
fn shift_by_one_halves_the_row() {
    for v in 0..=255u8 {
        assert_eq!(shift_row(v, 1), Some(v >> 1));
    }
    assert_eq!(shift_row(0xC0, 1), Some(0x60));
}

#[test]
fn shift_by_seven_leaves_the_top_bit() {
    assert_eq!(shift_row(0x80, 7), Some(1));
    assert_eq!(shift_row(0x7F, 7), Some(0));
}

#[test]
fn shift_by_an_unsupported_offset_is_refused() {
    assert_eq!(shift_row(0xFF, -1), None);
    assert_eq!(shift_row(0xFF, 8), None);
    assert_eq!(shift_row(0xFF, i64::MIN), None);
    assert_eq!(shift_row(0xFF, i64::MAX), None);
}
