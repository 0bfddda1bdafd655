use plotui_core::frame::frame_chrome;
use plotui_core::frame::plot_rect;
use plotui_core::frame::right_margin;

#[test]
fn frame_scale_matches_the_float_rounding() {
    for h in 0..5000usize {
        let want = ((h.max(1) as f32) / 240.0).round().clamp(1.0, 4.0) as i32;
        assert_eq!(frame_chrome(400, h, false, false, false, false, false, false).s, want, "h = {h}");
    }
}

#[test]
fn titles_and_the_strip_take_their_margins() {
    let c = frame_chrome(400, 240, false, true, true, true, false, false);
    assert_eq!((c.s, c.title_on, c.xtitle_on, c.ytitle_on), (1, true, true, true));
    assert_eq!((c.top, c.bottom, c.ytitle_reserve, c.left), (16, 25, 10, 58));
    assert!(!c.strip_on);
    // A caption adds a line on top; a tall enough frame takes the strip.
    let c = frame_chrome(400, 480, false, false, false, false, true, true);
    assert_eq!((c.s, c.top, c.strip_on, c.strip_reserve), (2, 12 + 20, true, 54));
    // Without chrome only air is left, and a title that cannot fit is dropped.
    let c = frame_chrome(60, 40, true, true, false, true, false, true);
    assert_eq!((c.title_on, c.ytitle_on, c.strip_on), (false, false, false));
    assert_eq!((c.bottom, c.left), (6, 6));
}

#[test]
fn the_plot_rect_keeps_four_pixels() {
    assert_eq!(plot_rect(400, 240, 58, 6, 16, 25, 0), (58, 16, 393, 214));
    assert_eq!(plot_rect(10, 10, 8, 6, 16, 25, 0), (8, 16, 12, 20));
    assert_eq!(plot_rect(400, 480, 58, 6, 32, 50, 54), (58, 32, 393, 479 - 50 - 54));
}

#[test]
fn right_axes_stack_outward_and_compact() {
    assert_eq!(right_margin(400, 1, false, [true, false], [30, 0], 0), ([5, 0], 41, 38));
    assert_eq!(right_margin(400, 1, false, [false, true], [0, 20], 0), ([0, 5], 31, 28));
    assert_eq!(right_margin(400, 1, false, [true, true], [30, 20], 0), ([5, 41], 67, 64));
    assert_eq!(right_margin(300, 1, false, [false, false], [0, 0], 200), ([0, 0], 9, 100));
    assert_eq!(right_margin(400, 1, true, [true, false], [30, 0], 0), ([5, 0], 9, 6));
}
