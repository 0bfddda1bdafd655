use plotui_core::legend::LegendBox;

fn three_rows() -> LegendBox {
    // Box from (100, 10) to (180, 60); rows 14 px apart after 4 px of padding.
    LegendBox { bx0: 100, by0: 10, bx1: 180, by1: 60, pad_y: 4, row_h: 14, rows: vec![7, 2, 5] }
}

#[test]
fn legend_rows_cover_their_whole_pitch() {
    let b = three_rows();
    assert_eq!(b.row_at(120, 10), Some(7), "the top padding belongs to the first row");
    assert_eq!(b.row_at(120, 27), Some(7));
    assert_eq!(b.row_at(120, 28), Some(2), "the next pitch starts the next row");
    assert_eq!(b.row_at(120, 42), Some(5));
    assert_eq!(b.row_at(180, 60), Some(5), "past the last row is still the last row");
}

#[test]
fn legend_misses_outside_its_box() {
    let b = three_rows();
    assert_eq!(b.row_at(99, 20), None);
    assert_eq!(b.row_at(181, 20), None);
    assert_eq!(b.row_at(120, 9), None);
    assert_eq!(b.row_at(120, 61), None);
}
