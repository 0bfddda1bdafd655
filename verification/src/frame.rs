use vstd::prelude::*;
use crate::font::CHAR_W;
use crate::font::CHAR_H;

verus! {

/// The range slider's strip height per unit of scale.
pub const STRIP_H_S: i32 = 24;

/// The shortest frame, per unit of scale, that still takes a range slider.
pub const STRIP_MIN_H: i32 = 160;

/// The text scale of a 2D frame `h` pixels tall: one step per 240 pixels,
/// rounded to nearest with halves up, between 1 and 4.
pub open spec fn frame_scale(h: int) -> int {
    let s = (h + 120) / 240;
    if s < 1 {
        1
    } else if s > 4 {
        4
    } else {
        s
    }
}

/// The bottom margin before an x-axis title: air only without chrome, else a
/// text line, a tick and air on both sides.
pub open spec fn base_bottom(s: int, hidden: bool) -> int {
    if hidden {
        6 * s
    } else {
        7 * s + 2 * s + 6 * s
    }
}

/// The margins and decisions of a 2D frame that come before its tick labels
/// are known.
pub struct FrameChrome {
    pub s: i32,
    pub title_on: bool,
    pub xtitle_on: bool,
    pub ytitle_on: bool,
    pub top: i32,
    pub bottom: i32,
    pub strip_on: bool,
    pub strip_reserve: i32,
    pub ytitle_reserve: i32,
    pub left: i32,
}

/// The chrome of a `px_w` × `px_h` 2D frame (at least one pixel each way).
/// Each title is taken only where the margin it asks for stays inside the
/// third of the frame the chrome may use; the range slider only where the
/// frame is at least `STRIP_MIN_H` scaled pixels tall. `hidden` is a frame
/// without chrome, which keeps only air; `caption` a colorbar caption, which
/// takes a line above the frame; `left` is the first guess of the left
/// margin, before the tick labels are measured.
pub fn frame_chrome(
    px_w: usize,
    px_h: usize,
    hidden: bool,
    title: bool,
    x_title: bool,
    y_title: bool,
    caption: bool,
    range_slider: bool,
) -> (r: FrameChrome)
    requires
        px_w <= i32::MAX,
        px_h <= i32::MAX,
    ensures
        ({
            let w = if px_w < 1 { 1int } else { px_w as int };
            let h = if px_h < 1 { 1int } else { px_h as int };
            let s = frame_scale(h);
            let (ch, cw, tick, pad) = (7 * s, 6 * s, 2 * s, 3 * s);
            let line = ch + pad;
            &&& r.s == s
            &&& r.title_on == (title && 3 * (2 * pad + line) <= h)
            &&& r.xtitle_on == (x_title && 3 * (base_bottom(s, hidden) + line) <= h)
            &&& r.ytitle_on == (y_title && 3 * (4 * cw + tick + 2 * pad + line) <= w)
            &&& r.top == 2 * pad + (if r.title_on { line } else { 0 }) + (if caption { ch + pad } else { 0 })
            &&& r.bottom == base_bottom(s, hidden) + (if r.xtitle_on { line } else { 0 })
            &&& r.strip_on == (range_slider && h >= STRIP_MIN_H * s)
            &&& r.strip_reserve == (if r.strip_on { STRIP_H_S * s + pad } else { 0 })
            &&& r.ytitle_reserve == (if r.ytitle_on { line } else { 0 })
            &&& r.left == (if hidden {
                2 * pad + r.ytitle_reserve
            } else if 8 * cw + r.ytitle_reserve <= w / 3 {
                8 * cw + r.ytitle_reserve
            } else {
                w / 3
            })
        }),
{
    let w: i32 = if px_w < 1 { 1 } else { px_w as i32 };
    let h: i32 = if px_h < 1 { 1 } else { px_h as i32 };
    let q: i32 = h / 240 + (if h % 240 >= 120 { 1i32 } else { 0i32 });
    let s: i32 = if q < 1 { 1 } else if q > 4 { 4 } else { q };
    assert(q == (h + 120) / 240);
    let (cw, ch) = (CHAR_W * s, CHAR_H * s);
    let tick = 2 * s;
    let pad = 3 * s;
    let line = ch + pad;
    let base = if hidden { 2 * pad } else { ch + tick + 2 * pad };
    let title_on = title && 3 * (2 * pad + line) <= h;
    let xtitle_on = x_title && 3 * (base + line) <= h;
    let ytitle_on = y_title && 3 * (4 * cw + tick + 2 * pad + line) <= w;
    let top = 2 * pad + (if title_on { line } else { 0 }) + (if caption { ch + pad } else { 0 });
    let bottom = base + if xtitle_on { line } else { 0 };
    let strip_on = range_slider && h >= STRIP_MIN_H * s;
    let strip_reserve = if strip_on { STRIP_H_S * s + pad } else { 0 };
    let ytitle_reserve = if ytitle_on { line } else { 0 };
    let left = if hidden {
        2 * pad + ytitle_reserve
    } else if 8 * cw + ytitle_reserve <= w / 3 {
        8 * cw + ytitle_reserve
    } else {
        w / 3
    };
    FrameChrome { s, title_on, xtitle_on, ytitle_on, top, bottom, strip_on, strip_reserve, ytitle_reserve, left }
}

/// The plot rect inside a `w` × `h` frame with the given margins: the
/// bottom margin is capped at a third of the frame, the slider's strip sits
/// below it, and the rect is never narrower or shorter than four pixels.
pub fn plot_rect(w: i32, h: i32, left: i32, right: i32, top: i32, bottom: i32, strip_reserve: i32) -> (r: (i32, i32, i32, i32))
    requires
        w >= 1,
        h >= 1,
        0 <= left <= i32::MAX - 4,
        0 <= top <= i32::MAX - 4,
        right >= 0,
        bottom >= 0,
        strip_reserve >= 0,
    ensures
        r.0 == left,
        r.1 == top,
        r.2 == (if w - 1 - right >= left + 4 { w - 1 - right } else { left + 4 }),
        r.3 == ({
            let b = if bottom <= h / 3 { bottom as int } else { h / 3 };
            if h - 1 - (b + strip_reserve) >= top + 4 {
                h - 1 - (b + strip_reserve)
            } else {
                top + 4
            }
        }),
{
    let x1: i32 = if w - 1 - right >= left + 4 { w - 1 - right } else { left + 4 };
    let b: i64 = if bottom <= h / 3 { bottom as i64 } else { (h / 3) as i64 };
    let yb: i64 = (h as i64) - 1 - (b + strip_reserve as i64);
    let y1: i32 = if yb >= (top as i64) + 4 { yb as i32 } else { top + 4 };
    (left, top, x1, y1)
}

/// The width of everything the right margin stacks outward from the plot
/// rect: the tick-label columns of the right axes that exist, then the
/// colorbar.
pub open spec fn right_need(s: int, widths: [i32; 2], cbar_reserve: int) -> int {
    2 * s + 3 * s + widths[0] + 2 * 3 * s + widths[1] + 2 * 3 * s + cbar_reserve
}

/// The right margin of a `w`-wide frame at scale `s`: each right axis that
/// exists gets a label column `widths[k]` wide (the innermost nearest the
/// rect), then the colorbar's `cbar_reserve`. Returns each column's offset
/// from the rect's right edge (0 for an axis that is not there), the
/// colorbar's offset, and the margin, capped at a third of the frame.
pub fn right_margin(
    w: i32,
    s: i32,
    hidden: bool,
    has_right: [bool; 2],
    widths: [i32; 2],
    cbar_reserve: i32,
) -> (r: ([i32; 2], i32, i32))
    requires
        w >= 1,
        1 <= s <= 4,
        widths[0] >= 0,
        widths[1] >= 0,
        cbar_reserve >= 0,
        right_need(s as int, widths, cbar_reserve as int) <= i32::MAX,
    ensures
        ({
            let pad = 3 * s;
            let off0 = 2 * s + pad;
            let c0 = if has_right[0] { off0 } else { 0 };
            let off1 = if has_right[0] { off0 + widths[0] + 2 * pad } else { off0 };
            let c1 = if has_right[1] { off1 } else { 0 };
            let off2 = if has_right[1] { off1 + widths[1] + 2 * pad } else { off1 };
            let used = if (has_right[0] || has_right[1]) && !hidden { off2 - pad } else { 2 * pad };
            &&& r.0[0] == c0
            &&& r.0[1] == c1
            &&& r.1 == used + pad
            &&& r.2 == (if used + cbar_reserve <= w / 3 { used + cbar_reserve } else { w / 3 })
        }),
{
    let pad = 3 * s;
    let w0 = widths[0];
    let w1 = widths[1];
    assert(w0 == widths[0] && w1 == widths[1]);
    assert(right_need(s as int, widths, cbar_reserve as int) == 2 * s + 3 * s + w0 + 6 * s + w1 + 6 * s + cbar_reserve);
    assert(2 * s + pad + w0 + 2 * pad + w1 + 2 * pad + cbar_reserve <= i32::MAX);
    let mut cols: [i32; 2] = [0, 0];
    let mut off = 2 * s + pad;
    if has_right[0] {
        cols[0] = off;
        off = off + w0 + 2 * pad;
    }
    if has_right[1] {
        cols[1] = off;
        off = off + w1 + 2 * pad;
    }
    let used = if (has_right[0] || has_right[1]) && !hidden { off - pad } else { 2 * pad };
    let right = if used + cbar_reserve <= w / 3 { used + cbar_reserve } else { w / 3 };
    (cols, used + pad, right)
}

} // verus!
