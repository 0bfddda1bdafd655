use vstd::prelude::*;

verus! {

/// The legend's inclusive pixel box, its padding above the first row, its
/// row pitch, and the trace of each row, top to bottom.
pub struct LegendBox {
    pub bx0: i32,
    pub by0: i32,
    pub bx1: i32,
    pub by1: i32,
    pub pad_y: i32,
    pub row_h: i32,
    pub rows: Vec<usize>,
}

/// The row under pixel row `y`: whole pitches below the top padding, the
/// padding itself counting as the first row and anything past the last
/// row as the last.
pub open spec fn row_index(by0: int, pad_y: int, row_h: int, n: int, y: int) -> int {
    let from = y - (by0 + pad_y);
    let i = if from > 0 {
        from / row_h
    } else {
        0
    };
    if i < n - 1 {
        i
    } else {
        n - 1
    }
}

/// Pixel `(x, y)` lies in the legend's box.
pub open spec fn in_box(b: &LegendBox, x: int, y: int) -> bool {
    b.bx0 <= x <= b.bx1 && b.by0 <= y <= b.by1
}

impl LegendBox {
    /// The trace whose row covers pixel `(x, y)`, if the pixel is in the
    /// box. The whole row pitch counts, leading included, so the gaps
    /// between rows are not dead zones for a mouse.
    pub fn row_at(&self, x: i32, y: i32) -> (r: Option<usize>)
        requires
            self.row_h > 0,
            self.rows@.len() > 0,
            i32::MIN <= self.by0 + self.pad_y <= i32::MAX,
            self.by1 - (self.by0 + self.pad_y) <= i32::MAX,
            self.by0 - (self.by0 + self.pad_y) >= i32::MIN,
        ensures
            !in_box(self, x as int, y as int) ==> r is None,
            in_box(self, x as int, y as int) ==> r == Some(
                self.rows@[row_index(self.by0 as int, self.pad_y as int, self.row_h as int, self.rows@.len() as int, y as int)],
            ),
    {
        if x < self.bx0 || x > self.bx1 || y < self.by0 || y > self.by1 {
            return None;
        }
        let from_first_row = y - (self.by0 + self.pad_y);
        let from = if from_first_row > 0 {
            from_first_row
        } else {
            0
        };
        let i = (from / self.row_h) as usize;
        let last = self.rows.len() - 1;
        let k = if i < last {
            i
        } else {
            last
        };
        Some(self.rows[k])
    }
}

/// Law: a click lands on the row the eye is pointing at. Every pixel of row
/// `i`'s pitch — from `i` pitches below the top padding up to the next row
/// — that lies in the box resolves to row `i`.
pub proof fn clicks_land_on_the_row_under_them(by0: int, pad_y: int, row_h: int, n: int, i: int, y: int)
    requires
        row_h > 0,
        0 <= i < n,
        by0 + pad_y + i * row_h <= y < by0 + pad_y + (i + 1) * row_h,
    ensures
        row_index(by0, pad_y, row_h, n, y) == i,
{
    let from = y - (by0 + pad_y);
    assert(i * row_h <= from < (i + 1) * row_h) by (nonlinear_arith)
        requires
            by0 + pad_y + i * row_h <= y < by0 + pad_y + (i + 1) * row_h,
            from == y - (by0 + pad_y),
    ;
    if from > 0 {
        assert(from / row_h == i) by (nonlinear_arith)
            requires
                row_h > 0,
                i * row_h <= from < (i + 1) * row_h,
        ;
    } else {
        assert(i == 0) by (nonlinear_arith)
            requires
                row_h > 0,
                0 <= i,
                i * row_h <= from,
                from <= 0,
        ;
    }
}

} // verus!
