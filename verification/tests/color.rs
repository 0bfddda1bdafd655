use plotui_core::color::colorway_by_name;
use plotui_core::color::desaturate;
use plotui_core::color::fade;
use plotui_core::color::lighten;
use plotui_core::color::rgba;
use plotui_core::color::Chrome;
use plotui_core::color::COLORWAY_MUTED;
use plotui_core::color::COLORWAY_PLOTUI;
use plotui_core::color::COLORWAY_VIVID;
use plotui_core::color::PALETTE;

/// The blend the renderer has always used, in single precision.
fn fade_reference(a: u8, b: u8) -> u8 {
    (a as f32 + (b as f32 - a as f32) * 0.62).round() as u8
}

#[test]
fn fade_matches_the_float_blend_on_every_pair() {
    for a in 0..=255u8 {
        for b in 0..=255u8 {
            let got = fade([a, a, a], [b, b, b]);
            assert_eq!(got[0], fade_reference(a, b), "fade({a}, {b})");
        }
    }
}

#[test]
fn fade_moves_most_of_the_way_to_the_background() {
    assert_eq!(fade([255, 0, 100], [0, 0, 0]), [97, 0, 38]);
    assert_eq!(fade([10, 20, 30], [10, 20, 30]), [10, 20, 30]);
}

#[test]
fn lighten_saturates_at_white() {
    assert_eq!(lighten([10, 250, 128], 10), [20, 255, 138]);
    assert_eq!(lighten([0, 0, 0], 0), [0, 0, 0]);
    assert_eq!(lighten([200, 200, 200], 255), [255, 255, 255]);
}

#[test]
fn colorways_by_name() {
    assert_eq!(colorway_by_name("plotui"), Some(&COLORWAY_PLOTUI));
    assert_eq!(colorway_by_name("muted"), Some(&COLORWAY_MUTED));
    assert_eq!(colorway_by_name("vivid"), Some(&COLORWAY_VIVID));
    assert_eq!(colorway_by_name("Plotui"), None);
    assert_eq!(PALETTE, COLORWAY_PLOTUI);
}

#[test]
fn default_chrome_colors() {
    let c = Chrome::default();
    assert_eq!(c.bg, [26, 30, 44]);
    assert_eq!(c.frame, [70, 78, 96]);
    assert_eq!(c.grid, [45, 50, 66]);
    assert_eq!(c.ink, [150, 156, 170]);
    assert_eq!(c.ink_bright, [205, 210, 220]);
}

#[test]
fn undrawn_pixels_are_transparent() {
    // An 8x8 grid with one pixel drawn.
    let mut color = vec![[0u8, 0, 0]; 64];
    let mut drawn = vec![false; 64];
    color[18] = [200, 100, 50];
    drawn[18] = true;
    let out = rgba(&color, &drawn);
    assert_eq!(out.len(), 8 * 8 * 4);
    let opaque = out.chunks(4).filter(|p| p[3] == 255).count();
    let transparent = out.chunks(4).filter(|p| p[3] == 0).count();
    assert_eq!(opaque + transparent, 64, "alpha must be fully on or off");
    assert_eq!(opaque, 1);
    assert_eq!(&out[72..76], &[200, 100, 50, 255]);
}

/// The luma the renderer has always drained to, in single precision.
fn luma_reference(c: [u8; 3]) -> u8 {
    (0.2126 * c[0] as f32 + 0.7152 * c[1] as f32 + 0.0722 * c[2] as f32).round() as u8
}

#[test]
fn desaturate_matches_the_single_precision_luma() {
    for r in (0..=255u8).step_by(3) {
        for g in (0..=255u8).step_by(5) {
            for b in 0..=255u8 {
                let c = [r, g, b];
                let y = luma_reference(c);
                assert_eq!(desaturate(c), [y, y, y], "desaturate({c:?})");
            }
        }
    }
}

#[test]
fn desaturate_rounds_where_double_precision_would_not() {
    // Just under a half in exact arithmetic, a half after single-precision
    // rounding: the grey goes up.
    assert_eq!(desaturate([2, 70, 14]), [52, 52, 52]);
    assert_eq!(desaturate([4, 100, 168]), [85, 85, 85]);
    assert_eq!(desaturate([20, 115, 0]), [87, 87, 87]);
}

#[test]
fn desaturate_weights_green_most() {
    assert_eq!(desaturate([255, 0, 0]), [54, 54, 54]);
    assert_eq!(desaturate([0, 255, 0]), [182, 182, 182]);
    assert_eq!(desaturate([0, 0, 255]), [18, 18, 18]);
    assert_eq!(desaturate([230, 60, 120]), [100, 100, 100]);
}

#[test]
fn greys_drain_to_themselves() {
    for v in 0..=255u8 {
        assert_eq!(desaturate([v, v, v]), [v, v, v]);
    }
}
