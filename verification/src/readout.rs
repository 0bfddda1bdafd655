use vstd::prelude::*;

verus! {

/// An inclusive pixel rectangle `(x0, y0, x1, y1)`.
pub type PixRect = (i32, i32, i32, i32);

/// Integer division rounding toward zero, as machine division does.
pub open spec fn trunc_div(a: int, b: int) -> int {
    if a >= 0 {
        a / b
    } else {
        -((-a) / b)
    }
}

/// The sum of a sequence of 32-bit integers.
pub open spec fn sum_i32(s: Seq<i32>) -> int
    decreases s.len(),
{
    if s.len() == 0 {
        0
    } else {
        sum_i32(s.drop_last()) + s.last()
    }
}

pub open spec fn imin(a: int, b: int) -> int {
    if a <= b {
        a
    } else {
        b
    }
}

pub open spec fn imax(a: int, b: int) -> int {
    if a >= b {
        a
    } else {
        b
    }
}

/// How many pixels two inclusive rectangles share.
pub open spec fn overlap_area(a: (int, int, int, int), b: (int, int, int, int)) -> int {
    imax(imin(a.2, b.2) - imax(a.0, b.0) + 1, 0) * imax(imin(a.3, b.3) - imax(a.1, b.1) + 1, 0)
}

pub open spec fn rect_int(r: PixRect) -> (int, int, int, int) {
    (r.0 as int, r.1 as int, r.2 as int, r.3 as int)
}

/// Whether the markers sit in the upper half of the frame on average (so the
/// panel should go low). No markers means nothing to dodge.
pub open spec fn panel_low(markers: Seq<i32>, rect: PixRect) -> bool {
    markers.len() > 0 && trunc_div(sum_i32(markers), markers.len() as int) <= trunc_div(
        rect.1 + rect.3,
        2,
    )
}

/// The four candidate corners, preferred first: beside the guide on the
/// right then the left, in the preferred half then the other.
pub open spec fn slot_candidates(
    px: int,
    box_w: int,
    box_h: int,
    rect: PixRect,
    gap: int,
    markers: Seq<i32>,
) -> Seq<(int, int)> {
    let top = rect.1 + gap;
    let bottom = rect.3 - gap - box_h;
    let (near, far) = if panel_low(markers, rect) {
        (bottom, top)
    } else {
        (top, bottom)
    };
    let right = px + gap;
    let left = px - gap - box_w;
    seq![(right, near), (left, near), (right, far), (left, far)]
}

/// A candidate's score: how much of the panel falls outside the plot rect,
/// then how much of the legend it covers.
pub open spec fn slot_key(
    c: (int, int),
    box_w: int,
    box_h: int,
    rect: PixRect,
    legend: Option<PixRect>,
) -> (int, int) {
    let b = (c.0, c.1, c.0 + box_w, c.1 + box_h);
    let full = (box_w + 1) * (box_h + 1);
    (
        full - overlap_area(b, rect_int(rect)),
        match legend {
            Some(l) => overlap_area(b, rect_int(l)),
            None => 0,
        },
    )
}

pub open spec fn key_lt(a: (int, int), b: (int, int)) -> bool {
    a.0 < b.0 || (a.0 == b.0 && a.1 < b.1)
}

/// The first candidate with the smallest score.
pub open spec fn best_slot(
    cands: Seq<(int, int)>,
    box_w: int,
    box_h: int,
    rect: PixRect,
    legend: Option<PixRect>,
) -> (int, int)
    decreases cands.len(),
{
    if cands.len() <= 1 {
        cands[0]
    } else {
        let rest = best_slot(cands.drop_last(), box_w, box_h, rect, legend);
        if key_lt(
            slot_key(cands.last(), box_w, box_h, rect, legend),
            slot_key(rest, box_w, box_h, rect, legend),
        ) {
            cands.last()
        } else {
            rest
        }
    }
}

/// Where the crosshair readout panel goes: the best candidate corner,
/// pushed back inside the frame when it does not fit.
pub open spec fn readout_slot_spec(
    px: int,
    box_w: int,
    box_h: int,
    rect: PixRect,
    gap: int,
    markers: Seq<i32>,
    legend: Option<PixRect>,
) -> (int, int) {
    let c = best_slot(slot_candidates(px, box_w, box_h, rect, gap, markers), box_w, box_h, rect, legend);
    (
        imax(imin(c.0, rect.2 - box_w), rect.0 + 1),
        imin(imax(c.1, rect.1 as int), imax(rect.3 - box_h, rect.1 as int)),
    )
}

pub open spec fn fits_i32(v: int) -> bool {
    i32::MIN <= v <= i32::MAX
}

/// Every 32-bit intermediate the overlap of two boxes computes stays in range.
pub open spec fn overlap_fits(a: (int, int, int, int), b: (int, int, int, int)) -> bool {
    &&& fits_i32(imin(a.2, b.2) - imax(a.0, b.0))
    &&& fits_i32(imin(a.2, b.2) - imax(a.0, b.0) + 1)
    &&& fits_i32(imin(a.3, b.3) - imax(a.1, b.1))
    &&& fits_i32(imin(a.3, b.3) - imax(a.1, b.1) + 1)
}

/// Every 32-bit intermediate the placement computes stays in range: the
/// arithmetic that would overflow a 32-bit integer is not defined here. The
/// frame's middle row is only taken when there are markers to compare with
/// it.
pub open spec fn readout_in_range(
    px: int,
    box_w: int,
    box_h: int,
    rect: PixRect,
    gap: int,
    has_markers: bool,
    legend: Option<PixRect>,
) -> bool {
    &&& has_markers ==> fits_i32(rect.1 + rect.3)
    &&& fits_i32(rect.1 + gap)
    &&& fits_i32(rect.3 - gap)
    &&& fits_i32(rect.3 - gap - box_h)
    &&& fits_i32(px + gap)
    &&& fits_i32(px - gap)
    &&& fits_i32(px - gap - box_w)
    &&& fits_i32(box_w + 1)
    &&& fits_i32(box_h + 1)
    &&& fits_i32(rect.2 - box_w)
    &&& fits_i32(rect.0 + 1)
    &&& fits_i32(rect.3 - box_h)
    &&& cand_fits((px + gap, rect.1 + gap), box_w, box_h, rect, legend)
    &&& cand_fits((px - gap - box_w, rect.1 + gap), box_w, box_h, rect, legend)
    &&& cand_fits((px + gap, rect.3 - gap - box_h), box_w, box_h, rect, legend)
    &&& cand_fits((px - gap - box_w, rect.3 - gap - box_h), box_w, box_h, rect, legend)
}

/// A candidate corner's box, and its overlaps with the frame and the legend,
/// stay within 32-bit range.
pub open spec fn cand_fits(
    c: (int, int),
    box_w: int,
    box_h: int,
    rect: PixRect,
    legend: Option<PixRect>,
) -> bool {
    let b = (c.0, c.1, c.0 + box_w, c.1 + box_h);
    &&& fits_i32(b.2)
    &&& fits_i32(b.3)
    &&& overlap_fits(b, rect_int(rect))
    &&& (legend matches Some(l) ==> overlap_fits(b, rect_int(l)))
}

fn overlap(a: (i64, i64, i64, i64), b: (i64, i64, i64, i64)) -> (r: i64)
    requires
        -0x1_0000_0000 <= a.0 <= 0x1_0000_0000,
        -0x1_0000_0000 <= a.1 <= 0x1_0000_0000,
        -0x1_0000_0000 <= a.2 <= 0x1_0000_0000,
        -0x1_0000_0000 <= a.3 <= 0x1_0000_0000,
        -0x1_0000_0000 <= b.0 <= 0x1_0000_0000,
        -0x1_0000_0000 <= b.1 <= 0x1_0000_0000,
        -0x1_0000_0000 <= b.2 <= 0x1_0000_0000,
        -0x1_0000_0000 <= b.3 <= 0x1_0000_0000,
        overlap_fits(
            (a.0 as int, a.1 as int, a.2 as int, a.3 as int),
            (b.0 as int, b.1 as int, b.2 as int, b.3 as int),
        ),
    ensures
        r == overlap_area(
            (a.0 as int, a.1 as int, a.2 as int, a.3 as int),
            (b.0 as int, b.1 as int, b.2 as int, b.3 as int),
        ),
        0 <= r <= 0x7fff_ffff * 0x7fff_ffff,
{
    let w0 = (if a.2 <= b.2 { a.2 } else { b.2 }) - (if a.0 >= b.0 { a.0 } else { b.0 }) + 1;
    let h0 = (if a.3 <= b.3 { a.3 } else { b.3 }) - (if a.1 >= b.1 { a.1 } else { b.1 }) + 1;
    let w = if w0 >= 0 { w0 } else { 0 };
    let h = if h0 >= 0 { h0 } else { 0 };
    assert(0 <= w <= 0x7fff_ffff && 0 <= h <= 0x7fff_ffff);
    assert(0 <= w * h <= 0x7fff_ffff * 0x7fff_ffff) by (nonlinear_arith)
        requires
            0 <= w <= 0x7fff_ffff,
            0 <= h <= 0x7fff_ffff,
    ;
    w * h
}

fn key_of(c: (i32, i32), box_w: i32, box_h: i32, rect: PixRect, legend: Option<PixRect>) -> (r: (
    i64,
    i64,
))
    requires
        fits_i32(box_w + 1),
        fits_i32(box_h + 1),
        cand_fits((c.0 as int, c.1 as int), box_w as int, box_h as int, rect, legend),
    ensures
        (r.0 as int, r.1 as int) == slot_key((c.0 as int, c.1 as int), box_w as int, box_h as int, rect, legend),
{
    let box_w = box_w as i64;
    let box_h = box_h as i64;
    let b = (c.0 as i64, c.1 as i64, c.0 as i64 + box_w, c.1 as i64 + box_h);
    let r64 = (rect.0 as i64, rect.1 as i64, rect.2 as i64, rect.3 as i64);
    assert((box_w + 1) * (box_h + 1) <= 0x8000_0000 * 0x8000_0000) by (nonlinear_arith)
        requires
            -0x8000_0000 <= box_w + 1 <= 0x7fff_ffff,
            -0x8000_0000 <= box_h + 1 <= 0x7fff_ffff,
    ;
    assert((box_w + 1) * (box_h + 1) >= -0x8000_0000 * 0x7fff_ffff) by (nonlinear_arith)
        requires
            -0x8000_0000 <= box_w + 1 <= 0x7fff_ffff,
            -0x8000_0000 <= box_h + 1 <= 0x7fff_ffff,
    ;
    let full = (box_w + 1) * (box_h + 1);
    let o = overlap(b, r64);
    let l = match legend {
        Some(l) => overlap(b, (l.0 as i64, l.1 as i64, l.2 as i64, l.3 as i64)),
        None => 0,
    };
    (full - o, l)
}

/// The top-left corner for the crosshair readout panel: of four slots beside
/// the guide at `px`, the one least outside the plot rect and then covering
/// least of the legend, preferring the half of the frame the markers are not
/// in; a panel that cannot fit is pushed back inside the frame.
pub fn readout_slot(
    px: i32,
    box_w: i32,
    box_h: i32,
    rect: PixRect,
    gap: i32,
    markers: &[i32],
    legend: Option<PixRect>,
) -> (r: (i32, i32))
    requires
        readout_in_range(px as int, box_w as int, box_h as int, rect, gap as int, markers@.len() > 0, legend),
    ensures
        (r.0 as int, r.1 as int) == readout_slot_spec(
            px as int,
            box_w as int,
            box_h as int,
            rect,
            gap as int,
            markers@,
            legend,
        ),
        r.0 >= rect.0 + 1,
        r.1 >= rect.1,
        box_w + 1 <= rect.2 - rect.0 ==> r.0 + box_w <= rect.2,
        box_h <= rect.3 - rect.1 ==> r.1 + box_h <= rect.3,
{
    let (x0, y0, x1, y1) = rect;
    let top: i32 = y0 + gap;
    let bottom: i32 = y1 - gap - box_h;
    let mut low = false;
    if markers.len() > 0 {
        let mut sum: i128 = 0;
        let mut i: usize = 0;
        while i < markers.len()
            invariant
                i <= markers.len(),
                sum == sum_i32(markers@.subrange(0, i as int)),
                -0x8000_0000 * i <= sum <= 0x7fff_ffff * i,
            decreases markers.len() - i,
        {
            assert(markers@.subrange(0, i + 1).drop_last() =~= markers@.subrange(0, i as int));
            sum = sum + markers[i] as i128;
            i = i + 1;
        }
        assert(markers@.subrange(0, markers.len() as int) =~= markers@);
        let len = markers.len() as i128;
        let avg: i128 = if sum >= 0 { sum / len } else { -((-sum) / len) };
        let mid: i32 = (y0 + y1) / 2;
        assert(mid == trunc_div(y0 + y1, 2));
        low = avg <= mid as i128;
    }
    let (near, far) = if low { (bottom, top) } else { (top, bottom) };
    let right: i32 = px + gap;
    let left: i32 = px - gap - box_w;
    let cands: [(i32, i32); 4] = [(right, near), (left, near), (right, far), (left, far)];
    let ghost cs = slot_candidates(px as int, box_w as int, box_h as int, rect, gap as int, markers@);
    proof {
        assert forall|j: int| 0 <= j < 4 implies cand_fits(#[trigger] cs[j], box_w as int, box_h as int, rect, legend) by {}
    }
    let mut best: (i32, i32) = cands[0];
    let mut best_key = key_of(best, box_w, box_h, rect, legend);
    let mut k: usize = 1;
    while k < 4
        invariant
            1 <= k <= 4,
            cands@ == seq![(right, near), (left, near), (right, far), (left, far)],
            forall|j: int| 0 <= j < 4 ==> cs[j] == (cands@[j].0 as int, cands@[j].1 as int),
            cs.len() == 4,
            (best.0 as int, best.1 as int) == best_slot(cs.subrange(0, k as int), box_w as int, box_h as int, rect, legend),
            (best_key.0 as int, best_key.1 as int) == slot_key((best.0 as int, best.1 as int), box_w as int, box_h as int, rect, legend),
            rect == (x0, y0, x1, y1),
            fits_i32(box_w + 1),
            fits_i32(box_h + 1),
            forall|j: int| 0 <= j < 4 ==> cand_fits(#[trigger] cs[j], box_w as int, box_h as int, rect, legend),
        decreases 4 - k,
    {
        let c = cands[k];
        assert(cand_fits(cs[k as int], box_w as int, box_h as int, rect, legend));
        let key = key_of(c, box_w, box_h, rect, legend);
        assert(cs.subrange(0, k + 1).drop_last() =~= cs.subrange(0, k as int));
        if key.0 < best_key.0 || (key.0 == best_key.0 && key.1 < best_key.1) {
            best = c;
            best_key = key;
        }
        k = k + 1;
    }
    assert(cs.subrange(0, 4) =~= cs);
    let (bx, by) = best;
    let xr = x1 - box_w;
    let bx1 = if bx <= xr { bx } else { xr };
    let bx2 = if bx1 >= x0 + 1 { bx1 } else { x0 + 1 };
    let yhi = if y1 - box_h >= y0 { y1 - box_h } else { y0 };
    let by1 = if by >= y0 { by } else { y0 };
    let by2 = if by1 <= yhi { by1 } else { yhi };
    (bx2, by2)
}

} // verus!
