use vstd::prelude::*;
use vstd::string::*;

verus! {

/// Horizontal advance per character in pixels, at scale 1.
pub const CHAR_W: i32 = 6;

/// Line height in pixels, at scale 1.
pub const CHAR_H: i32 = 7;

/// The advance of a `count`-character line at integer `scale`; scales below
/// one draw at one.
pub open spec fn advance_width(count: int, scale: int) -> int {
    count * 6 * (if scale >= 1 {
        scale
    } else {
        1
    })
}

/// Total advance of `text` at integer `scale`: one fixed cell per character.
pub fn text_width(text: &str, scale: i32) -> (r: i32)
    requires
        advance_width(text@.len() as int, scale as int) <= i32::MAX,
    ensures
        r == advance_width(text@.len() as int, scale as int),
{
    let count = text.unicode_len();
    let s: i32 = if scale >= 1 {
        scale
    } else {
        1
    };
    assert(count * 6 * s <= i32::MAX);
    assert(count <= count * 6 * s) by (nonlinear_arith)
        requires
            s >= 1,
            count >= 0,
    ;
    assert(count * 6 <= count * 6 * s) by (nonlinear_arith)
        requires
            s >= 1,
            count >= 0,
    ;
    (count as i32) * CHAR_W * s
}

/// The printable-ASCII glyph slot of a character: `' '` is slot 0, `'~'`
/// slot 94.
pub open spec fn is_printable_ascii(c: char) -> bool {
    ' ' <= c && c <= '~'
}

/// Where `ch` lives in a face of printable ASCII followed by `extras`, or
/// `None` if there is no glyph for it: unknown characters advance without
/// drawing.
pub fn glyph_index(ch: char, extras: &[char]) -> (r: Option<usize>)
    requires
        extras@.len() <= usize::MAX - 95,
    ensures
        is_printable_ascii(ch) ==> r == Some((ch as int - 0x20) as usize),
        !is_printable_ascii(ch) ==> match r {
            Some(k) => 95 <= k < 95 + extras@.len() && extras@[k - 95] == ch && forall|j: int|
                0 <= j < k - 95 ==> extras@[j] != ch,
            None => forall|j: int| 0 <= j < extras@.len() ==> extras@[j] != ch,
        },
{
    if ' ' <= ch && ch <= '~' {
        return Some((ch as u32 - 0x20) as usize);
    }
    let mut i: usize = 0;
    while i < extras.len()
        invariant
            i <= extras.len(),
            extras@.len() <= usize::MAX - 95,
            !is_printable_ascii(ch),
            forall|j: int| 0 <= j < i ==> extras@[j] != ch,
        decreases extras.len() - i,
    {
        if extras[i] == ch {
            return Some(95 + i);
        }
        i = i + 1;
    }
    None
}

/// Law: one character is one cell, `CHAR_W` pixels wide, at scale 1.
pub proof fn a_character_is_one_cell_wide()
    ensures
        advance_width(1, 1) == CHAR_W,
{
    assert(1int * 6 * 1 == 6) by (nonlinear_arith);
    assert(advance_width(1, 1) == 1int * 6 * 1);
}

/// Law: the width of a line is linear in the scale from 1 up — `s` times
/// the width at scale 1, that is `count · CHAR_W · s` — and every scale
/// below 1 draws like scale 1.
pub proof fn width_is_linear_in_the_scale(count: int, s: int)
    requires
        count >= 0,
    ensures
        s >= 1 ==> advance_width(count, s) == s * advance_width(count, 1),
        s >= 1 ==> advance_width(count, s) == count * CHAR_W * s,
        s >= 1 ==> advance_width(count, s + 1) == advance_width(count, s) + advance_width(count, 1),
        s < 1 ==> advance_width(count, s) == advance_width(count, 1),
{
    assert(count * 6 * s == s * (count * 6 * 1)) by (nonlinear_arith);
    assert(count * 6 * (s + 1) == count * 6 * s + count * 6 * 1) by (nonlinear_arith);
}

/// Law: widths add up — two pieces of text set side by side are as wide as
/// their concatenation, at every scale.
pub proof fn widths_add_up(a: Seq<char>, b: Seq<char>, s: int)
    ensures
        advance_width((a + b).len() as int, s) == advance_width(a.len() as int, s) + advance_width(b.len() as int, s),
{
    let k = if s >= 1 { s } else { 1 };
    assert((a.len() + b.len()) * 6 * k == a.len() * 6 * k + b.len() * 6 * k) by (nonlinear_arith);
}

} // verus!
