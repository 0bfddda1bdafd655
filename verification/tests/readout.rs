use plotui_core::readout::readout_slot;

/// The plot rect, panel inset and panel size the `readout_slot` tests
/// share, so each one only states the thing it is about.
const SLOT_RECT: (i32, i32, i32, i32) = (20, 10, 280, 190);
const SLOT_GAP: i32 = 6;
const SLOT_W: i32 = 80;
const SLOT_H: i32 = 50;

fn slot(px: i32, markers: &[i32], legend: Option<(i32, i32, i32, i32)>) -> (i32, i32) {
    readout_slot(px, SLOT_W, SLOT_H, SLOT_RECT, SLOT_GAP, markers, legend)
}

#[test]
fn readout_sits_opposite_the_data() {
    let (_, y0, _, y1) = SLOT_RECT;
    let mid = (y0 + y1) / 2;
    let (_, high_data) = slot(150, &[30, 40], None);
    assert!(high_data > mid, "markers up top, panel should go low");
    let (_, low_data) = slot(150, &[160, 170], None);
    assert!(low_data + SLOT_H < mid, "markers down low, panel should go high");
}

#[test]
fn readout_without_markers_keeps_the_top_corner() {
    assert_eq!(slot(150, &[], None), (150 + SLOT_GAP, SLOT_RECT.1 + SLOT_GAP));
}

#[test]
fn readout_dodges_the_legend() {
    let legend = (200, 16, 270, 56);
    let (with_x, with_y) = slot(180, &[160, 170], Some(legend));
    let b = (with_x, with_y, with_x + SLOT_W, with_y + SLOT_H);
    let overlaps = b.0 <= legend.2 && b.2 >= legend.0 && b.1 <= legend.3 && b.3 >= legend.1;
    assert!(!overlaps, "readout {b:?} still covers the legend {legend:?}");
    assert_eq!(slot(180, &[160, 170], None).0, 180 + SLOT_GAP);
}

#[test]
fn readout_stays_in_frame() {
    let (x0, y0, x1, y1) = SLOT_RECT;
    for px in x0..=x1 {
        for markers in [&[30, 40][..], &[160, 170][..], &[][..]] {
            let (bx, by) = slot(px, markers, Some((200, 16, 270, 56)));
            assert!(
                bx >= x0 && bx + SLOT_W <= x1 && by >= y0 && by + SLOT_H <= y1,
                "panel at ({bx}, {by}) left the frame for px {px}"
            );
        }
    }
}

#[test]
fn readout_survives_an_oversized_box() {
    let (x0, y0, ..) = SLOT_RECT;
    let (bx, by) = readout_slot(150, 400, 400, SLOT_RECT, SLOT_GAP, &[30], None);
    assert!(bx >= x0 && by >= y0, "oversized panel placed off-frame at ({bx}, {by})");
}

#[test]
fn readout_prefers_the_right_of_the_guide_when_it_fits() {
    // Nothing to dodge and room on the right: the right-hand top slot.
    assert_eq!(slot(40, &[], None), (40 + SLOT_GAP, SLOT_RECT.1 + SLOT_GAP));
}

#[test]
fn readout_flips_left_near_the_right_edge() {
    // Too close to the right edge for the panel: it goes left of the guide.
    let (bx, _) = slot(270, &[], None);
    assert_eq!(bx, 270 - SLOT_GAP - SLOT_W);
}

#[test]
fn readout_without_markers_never_takes_the_frame_middle() {
    // y0 + y1 would not fit an i32; with no markers the middle is not needed.
    let rect = (0, 2_000_000_000, 400, 2_100_000_000);
    assert_eq!(readout_slot(100, 50, 20, rect, 5, &[], None), (105, 2_000_000_005));
}
