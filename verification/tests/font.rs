use plotui_core::font::glyph_index;
use plotui_core::font::text_width;
use plotui_core::font::CHAR_W;

#[test]
fn text_width_counts_characters_not_bytes() {
    assert_eq!(text_width("", 1), 0);
    assert_eq!(text_width("abc", 1), 3 * CHAR_W);
    assert_eq!(text_width("abc", 2), 6 * CHAR_W);
    assert_eq!(text_width("µs", 1), 2 * CHAR_W);
    // Scales below one draw at one.
    assert_eq!(text_width("abc", 0), 3 * CHAR_W);
    assert_eq!(text_width("abc", -3), 3 * CHAR_W);
}

#[test]
fn printable_ascii_maps_to_its_cell() {
    assert_eq!(glyph_index(' ', &[]), Some(0));
    assert_eq!(glyph_index('A', &[]), Some(33));
    assert_eq!(glyph_index('~', &[]), Some(94));
}

#[test]
fn extra_glyphs_follow_the_ascii_block() {
    let extras = ['µ', '°', 'µ'];
    assert_eq!(glyph_index('µ', &extras), Some(95));
    assert_eq!(glyph_index('°', &extras), Some(96));
    assert_eq!(glyph_index('€', &extras), None);
    assert_eq!(glyph_index('\n', &extras), None);
    assert_eq!(glyph_index('\u{7f}', &[]), None);
}
