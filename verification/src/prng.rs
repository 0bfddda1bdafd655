use vstd::prelude::*;

verus! {

/// The increment the generator adds to its state at every draw.
pub const GOLDEN_STEP: u32 = 0x6D2B79F5;

/// The state after one draw: the old state plus the step, modulo 2^32.
pub open spec fn advanced(state: u32) -> u32 {
    ((state + GOLDEN_STEP) % 0x1_0000_0000) as u32
}

/// The 32-bit draw the mixing rounds make of an advanced state.
pub open spec fn mixed(s: u32) -> u32 {
    let t: u64 = s as u64;
    let t1: u64 = (((t ^ (t >> 15u64)) * (t | 1u64)) % 0x1_0000_0000) as u64;
    let m: u64 = (((t1 ^ (t1 >> 7u64)) * (t1 | 61u64)) % 0x1_0000_0000) as u64;
    let t2: u64 = t1 ^ ((t1 + m) as u64);
    ((t2 ^ (t2 >> 14u64)) % 0x1_0000_0000) as u32
}

/// One draw of the seeded generator: the advanced state and the 32-bit draw
/// mixed from it. Dividing the draw by 2^32 gives a float in `[0, 1)`.
pub fn next_draw(state: u32) -> (r: (u32, u32))
    ensures
        r.0 == advanced(state),
        r.1 == mixed(r.0),
{
    let s = state.wrapping_add(GOLDEN_STEP);
    let t: u64 = s as u64;
    assert(t ^ (t >> 15u64) < 0x1_0000_0000 && t | 1u64 < 0x1_0000_0000) by (bit_vector)
        requires
            t < 0x1_0000_0000,
    ;
    let a: u64 = t ^ (t >> 15);
    let b: u64 = t | 1;
    assert(a * b < 0x1_0000_0000 * 0x1_0000_0000) by (nonlinear_arith)
        requires
            a < 0x1_0000_0000,
            b < 0x1_0000_0000,
    ;
    let p: u64 = a.wrapping_mul(b);
    assert(p == a * b);
    assert(p & 0xFFFF_FFFFu64 == p % 0x1_0000_0000) by (bit_vector);
    let t1: u64 = p & 0xFFFF_FFFF;
    assert(t1 ^ (t1 >> 7u64) < 0x1_0000_0000 && t1 | 61u64 < 0x1_0000_0000) by (bit_vector)
        requires
            t1 < 0x1_0000_0000,
    ;
    let c: u64 = t1 ^ (t1 >> 7);
    let d: u64 = t1 | 61;
    assert(c * d < 0x1_0000_0000 * 0x1_0000_0000) by (nonlinear_arith)
        requires
            c < 0x1_0000_0000,
            d < 0x1_0000_0000,
    ;
    let q: u64 = c.wrapping_mul(d);
    assert(q == c * d);
    assert(q & 0xFFFF_FFFFu64 == q % 0x1_0000_0000) by (bit_vector);
    let m: u64 = q & 0xFFFF_FFFF;
    let sum: u64 = t1.wrapping_add(m);
    assert(sum == t1 + m);
    let t2: u64 = t1 ^ sum;
    let w: u64 = t2 ^ (t2 >> 14);
    assert(w & 0xFFFF_FFFFu64 == w % 0x1_0000_0000) by (bit_vector);
    let out: u64 = w & 0xFFFF_FFFF;
    (s, out as u32)
}

} // verus!
