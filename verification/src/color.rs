use vstd::prelude::*;
use crate::text::str_eq;
use crate::single::single_round;
use crate::single::two_to;
use crate::single::bit_len;
use crate::single::lemma_bit_len;
use crate::single::lemma_bit_len_below;
use crate::single::lemma_two_to_mono;
use crate::single::lemma_round_error;

verus! {

/// An 8-bit RGB colour.
pub type Rgb = [u8; 3];

/// "plotui" — the default colorway, leading with the brand trio.
pub const COLORWAY_PLOTUI: [Rgb; 8] = [
    [230, 60, 120],
    [69, 200, 209],
    [240, 161, 60],
    [144, 133, 233],
    [25, 158, 112],
    [201, 133, 0],
    [57, 135, 229],
    [230, 103, 103],
];

/// "muted" — desaturated, for plots that sit behind busy chrome.
pub const COLORWAY_MUTED: [Rgb; 8] = [
    [196, 110, 140],
    [110, 175, 180],
    [206, 162, 110],
    [150, 143, 202],
    [110, 160, 125],
    [172, 150, 90],
    [105, 140, 190],
    [150, 150, 160],
];

/// "vivid" — saturated, for plots that must carry the screen.
pub const COLORWAY_VIVID: [Rgb; 8] = [
    [255, 30, 120],
    [0, 220, 230],
    [255, 170, 0],
    [165, 100, 255],
    [30, 210, 90],
    [240, 220, 0],
    [0, 140, 255],
    [255, 70, 60],
];

/// Default per-trace colours — the "plotui" colorway.
pub const PALETTE: [Rgb; 8] = COLORWAY_PLOTUI;

/// Which built-in colorway a name selects: 0 for "plotui", 1 for "muted",
/// 2 for "vivid", and nothing for any other name.
pub open spec fn colorway_index(s: Seq<char>) -> Option<int> {
    if s == "plotui"@ {
        Some(0)
    } else if s == "muted"@ {
        Some(1)
    } else if s == "vivid"@ {
        Some(2)
    } else {
        None
    }
}

/// A built-in colorway by name, or `None` for an unknown one. The valid
/// names are "plotui", "muted", and "vivid".
pub fn colorway_by_name(name: &str) -> (r: Option<&'static [Rgb; 8]>)
    ensures
        colorway_index(name@) == Some(0int) ==> r == Some(&COLORWAY_PLOTUI),
        colorway_index(name@) == Some(1int) ==> r == Some(&COLORWAY_MUTED),
        colorway_index(name@) == Some(2int) ==> r == Some(&COLORWAY_VIVID),
        colorway_index(name@) is None <==> r is None,
{
    if str_eq(name, "plotui") {
        Some(&COLORWAY_PLOTUI)
    } else if str_eq(name, "muted") {
        Some(&COLORWAY_MUTED)
    } else if str_eq(name, "vivid") {
        Some(&COLORWAY_VIVID)
    } else {
        None
    }
}

/// One channel pulled toward white by `by`, saturating at 255.
pub open spec fn lighten_channel(c: u8, by: u8) -> u8 {
    if c + by > 255 {
        255
    } else {
        (c + by) as u8
    }
}

/// Pull a colour toward white — how a node's card fill is derived from the
/// chrome background.
pub fn lighten(c: Rgb, by: u8) -> (r: Rgb)
    ensures
        r@ == seq![lighten_channel(c[0], by), lighten_channel(c[1], by), lighten_channel(c[2], by)],
{
    [c[0].saturating_add(by), c[1].saturating_add(by), c[2].saturating_add(by)]
}

/// One channel moved 62% of the way from `a` to `b`, rounded to nearest with
/// halves going up.
pub open spec fn fade_channel(a: u8, b: u8) -> int {
    (38 * a + 62 * b + 50) / 100
}

fn fade_mix(a: u8, b: u8) -> (r: u8)
    ensures
        r == fade_channel(a, b),
{
    let n: u32 = 38 * (a as u32) + 62 * (b as u32) + 50;
    let q: u32 = n / 100;
    assert(q <= 255) by (nonlinear_arith)
        requires
            q == n / 100,
            n == 38 * (a as u32) + 62 * (b as u32) + 50,
            a <= 255,
            b <= 255,
    ;
    q as u8
}

/// Pull a colour most of the way to `bg` — how a toggled-off legend row
/// reads as off without leaving a hole where the row was.
pub fn fade(c: Rgb, bg: Rgb) -> (r: Rgb)
    ensures
        r[0] == fade_channel(c[0], bg[0]),
        r[1] == fade_channel(c[1], bg[1]),
        r[2] == fade_channel(c[2], bg[2]),
{
    [fade_mix(c[0], bg[0]), fade_mix(c[1], bg[1]), fade_mix(c[2], bg[2])]
}

/// The luma weights 0.2126, 0.7152 and 0.0722 as single-precision floats,
/// each an exact multiple of 2^-24.
pub const LUMA_R: u64 = 3566836;
pub const LUMA_G: u64 = 11999065;
pub const LUMA_B: u64 = 1211315;

/// The grey level a colour drains to: its luma, summed in single precision
/// as `0.2126·r + 0.7152·g + 0.0722·b` with every product and sum rounded,
/// then rounded to the nearest integer (halves up) and capped at 255.
pub open spec fn luma(c: Rgb) -> int {
    let pr = single_round((LUMA_R * c[0]) as nat);
    let pg = single_round((LUMA_G * c[1]) as nat);
    let pb = single_round((LUMA_B * c[2]) as nat);
    let s = single_round(single_round(pr + pg) + pb);
    let y = (s + 0x80_0000) / 0x100_0000;
    if y > 255 {
        255
    } else {
        y as int
    }
}

/// Round to single precision in units of 2^-24.
fn round_single(n: u64) -> (r: u64)
    requires
        n < 0x100_0000_0000,
    ensures
        r == single_round(n as nat),
        r <= 2 * n,
{
    let mut x: u64 = n;
    let mut b: u64 = 0;
    proof {
        assert(two_to(40) == 0x100_0000_0000) by {
            reveal_with_fuel(two_to, 41);
        }
        lemma_bit_len_below(n as nat, 40);
    }
    while x > 0
        invariant
            bit_len(n as nat) == b + bit_len(x as nat),
            bit_len(n as nat) <= 40,
        decreases x,
    {
        x = x / 2;
        b = b + 1;
    }
    if b <= 24 {
        return n;
    }
    let k: u64 = b - 24;
    let mut p: u64 = 1;
    let mut i: u64 = 0;
    while i < k
        invariant
            i <= k,
            k <= 16,
            p == two_to(i as nat),
        decreases k - i,
    {
        proof {
            lemma_two_to_mono(i as nat, 15);
            assert(two_to(15) == 0x8000) by {
                reveal_with_fuel(two_to, 16);
            }
        }
        p = p * 2;
        i = i + 1;
    }
    proof {
        lemma_bit_len(n as nat);
        lemma_two_to_mono(k as nat, (b - 1) as nat);
        lemma_two_to_mono(0, k as nat);
    }
    let q: u64 = n / p;
    let rem: u64 = n % p;
    let up: bool = rem > p / 2 || (rem == p / 2 && q % 2 == 1);
    let qq: u64 = if up {
        q + 1
    } else {
        q
    };
    assert(qq * p <= n + p) by (nonlinear_arith)
        requires
            p > 0,
            q == n / p,
            qq <= q + 1,
    ;
    qq * p
}

/// Law: a grey drains to itself — the single-precision weights sum to one,
/// and the roundings on the way stay far below half a level.
pub proof fn greys_keep_their_level(v: u8)
    ensures
        luma([v, v, v]) == v,
{
    let x = v as nat;
    let pr0 = (LUMA_R * x) as nat;
    let pg0 = (LUMA_G * x) as nat;
    let pb0 = (LUMA_B * x) as nat;
    lemma_round_error(pr0);
    lemma_round_error(pg0);
    lemma_round_error(pb0);
    let pr = single_round(pr0);
    let pg = single_round(pg0);
    let pb = single_round(pb0);
    lemma_round_error(pr + pg);
    let ab = single_round(pr + pg);
    lemma_round_error(ab + pb);
    let s = single_round(ab + pb);
    assert(pr0 + pg0 + pb0 == 0x100_0000 * x);
    assert(0x100_0000 * x - 0x80_0000 < s < 0x100_0000 * x + 0x80_0000);
    assert((s + 0x80_0000) / 0x100_0000 == x);
}

/// Drain a colour to its own luma — series identity off, shape kept.
pub fn desaturate(c: Rgb) -> (r: Rgb)
    ensures
        r[0] == luma(c),
        r[1] == luma(c),
        r[2] == luma(c),
{
    let a = round_single(LUMA_R * (c[0] as u64));
    let b = round_single(LUMA_G * (c[1] as u64));
    let ab = round_single(a + b);
    let cc = round_single(LUMA_B * (c[2] as u64));
    let s = round_single(ab + cc);
    let y: u64 = (s + 0x80_0000) / 0x100_0000;
    let g: u8 = if y > 255 {
        255
    } else {
        y as u8
    };
    [g, g, g]
}

} // verus!

verus! {

/// The chrome palette: everything that is not data. Hosts with a theme of
/// their own override it so the axes recede into their background.
#[derive(Clone, Copy, Debug, PartialEq)]
pub struct Chrome {
    /// Legend box fill.
    pub bg: Rgb,
    /// Frame, tick marks, legend border.
    pub frame: Rgb,
    /// Grid lines.
    pub grid: Rgb,
    /// Tick labels.
    pub ink: Rgb,
    /// Legend text.
    pub ink_bright: Rgb,
}

impl Default for Chrome {
    fn default() -> (r: Chrome)
        ensures
            r.bg@ == seq![26u8, 30, 44],
            r.frame@ == seq![70u8, 78, 96],
            r.grid@ == seq![45u8, 50, 66],
            r.ink@ == seq![150u8, 156, 170],
            r.ink_bright@ == seq![205u8, 210, 220],
    {
        let r = Chrome {
            bg: [26, 30, 44],
            frame: [70, 78, 96],
            grid: [45, 50, 66],
            ink: [150, 156, 170],
            ink_bright: [205, 210, 220],
        };
        assert(r.bg@ =~= seq![26u8, 30, 44]);
        assert(r.frame@ =~= seq![70u8, 78, 96]);
        assert(r.grid@ =~= seq![45u8, 50, 66]);
        assert(r.ink@ =~= seq![150u8, 156, 170]);
        assert(r.ink_bright@ =~= seq![205u8, 210, 220]);
        r
    }
}

/// RGBA8 bytes of a pixel grid: each pixel's colour, opaque where
/// something was drawn and fully transparent elsewhere, so the picture
/// floats over the terminal's own background.
pub open spec fn rgba_bytes(color: Seq<Rgb>, drawn: Seq<bool>) -> Seq<u8> {
    Seq::new(
        color.len() * 4,
        |k: int|
            if k % 4 == 3 {
                if drawn[k / 4] {
                    255u8
                } else {
                    0u8
                }
            } else {
                color[k / 4][k % 4]
            },
    )
}

/// Flatten a pixel grid to RGBA8 (see [`rgba_bytes`]).
pub fn rgba(color: &[Rgb], drawn: &[bool]) -> (r: Vec<u8>)
    requires
        drawn@.len() == color@.len(),
        color@.len() * 4 <= usize::MAX,
    ensures
        r@ == rgba_bytes(color@, drawn@),
{
    let mut out: Vec<u8> = Vec::new();
    let mut i: usize = 0;
    while i < color.len()
        invariant
            i <= color@.len(),
            drawn@.len() == color@.len(),
            color@.len() * 4 <= usize::MAX,
            out@.len() == i * 4,
            forall|k: int| 0 <= k < i * 4 ==> #[trigger] out@[k] == rgba_bytes(color@, drawn@)[k],
        decreases color.len() - i,
    {
        let c = color[i];
        let a: u8 = if drawn[i] {
            255
        } else {
            0
        };
        let ghost o0 = out@;
        out.push(c[0]);
        out.push(c[1]);
        out.push(c[2]);
        out.push(a);
        proof {
            assert forall|k: int| 0 <= k < (i + 1) * 4 implies #[trigger] out@[k] == rgba_bytes(color@, drawn@)[k] by {
                if k >= i * 4 {
                    assert(k / 4 == i && k % 4 == k - i * 4) by (nonlinear_arith)
                        requires
                            i * 4 <= k < (i + 1) * 4,
                    ;
                } else {
                    assert(out@[k] == o0[k]);
                }
            }
        }
        i = i + 1;
    }
    proof {
        assert(out@ =~= rgba_bytes(color@, drawn@));
    }
    out
}

} // verus!
