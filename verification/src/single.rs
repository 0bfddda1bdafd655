use vstd::prelude::*;

verus! {

/// The number of binary digits of `n`.
pub open spec fn bit_len(n: nat) -> nat
    decreases n,
{
    if n == 0 {
        0
    } else {
        1 + bit_len(n / 2)
    }
}

/// `2^k`.
pub open spec fn two_to(k: nat) -> nat
    decreases k,
{
    if k == 0 {
        1
    } else {
        2 * two_to((k - 1) as nat)
    }
}

/// `n / 2^k` rounded to the nearest integer, a tie going to the even one.
pub open spec fn round_quot(n: nat, k: nat) -> nat {
    let p = two_to(k);
    let q = n / p;
    let r = n % p;
    if r > p / 2 || (r == p / 2 && q % 2 == 1) {
        q + 1
    } else {
        q
    }
}

/// `n` rounded to a multiple of `2^k`: to the nearest one, a tie going to
/// the even multiple.
pub open spec fn round_even(n: nat, k: nat) -> nat {
    round_quot(n, k) * two_to(k)
}

/// A non-negative value counted in units of 2^-24, rounded to the nearest
/// single-precision float (24 significant bits, ties to even).
pub open spec fn single_round(n: nat) -> nat {
    if bit_len(n) <= 24 {
        n
    } else {
        round_even(n, (bit_len(n) - 24) as nat)
    }
}

pub proof fn lemma_bit_len(n: nat)
    requires
        n > 0,
    ensures
        bit_len(n) >= 1,
        two_to((bit_len(n) - 1) as nat) <= n < two_to(bit_len(n)),
    decreases n,
{
    let b = bit_len(n);
    assert(b == 1 + bit_len(n / 2));
    if n >= 2 {
        lemma_bit_len(n / 2);
        let c = bit_len(n / 2);
        assert(two_to(b) == 2 * two_to(c));
        assert(two_to((b - 1) as nat) == two_to(c));
        assert(two_to(c) == 2 * two_to((c - 1) as nat));
    } else {
        assert(bit_len(0) == 0);
        assert(two_to(1) == 2 * two_to(0));
    }
}

pub proof fn lemma_bit_len_below(n: nat, m: nat)
    requires
        n < two_to(m),
    ensures
        bit_len(n) <= m,
    decreases m,
{
    if n > 0 && m > 0 {
        lemma_bit_len_below(n / 2, (m - 1) as nat);
    }
}

pub proof fn lemma_two_to_mono(a: nat, b: nat)
    requires
        a <= b,
    ensures
        two_to(a) <= two_to(b),
    decreases b,
{
    if a < b {
        lemma_two_to_mono(a, (b - 1) as nat);
    }
}

pub proof fn lemma_two_to_add(a: nat, b: nat)
    ensures
        two_to(a + b) == two_to(a) * two_to(b),
    decreases b,
{
    if b > 0 {
        lemma_two_to_add(a, (b - 1) as nat);
        assert(two_to(a + b) == 2 * two_to((a + b - 1) as nat));
        assert((a + b - 1) as nat == a + ((b - 1) as nat));
        let x = two_to(a);
        let y = two_to((b - 1) as nat);
        assert(two_to(b) == 2 * y);
        assert(x * (2 * y) == 2 * (x * y)) by (nonlinear_arith);
        assert(two_to(a + ((b - 1) as nat)) == x * y);
        assert(two_to(a + b) == 2 * (x * y));
        assert(two_to(a) * two_to(b) == x * (2 * y));
    } else {
        assert(a + b == a);
        assert(two_to(b) == 1);
        assert(two_to(a) * 1 == two_to(a));
    }
}

/// Rounding to single precision moves a value by at most 2^-24 of itself.
pub proof fn lemma_round_error(n: nat)
    ensures
        0x100_0000 * (single_round(n) - n) <= n,
        0x100_0000 * (n - single_round(n)) <= n,
{
    if bit_len(n) > 24 {
        let b = bit_len(n);
        let k = (b - 24) as nat;
        let p = two_to(k);
        lemma_bit_len(n);
        lemma_two_to_add(k, 23);
        assert(two_to(23) == 0x80_0000) by {
            reveal_with_fuel(two_to, 24);
        }
        assert(k + 23 == b - 1);
        assert(p * 0x80_0000 <= n);
        lemma_two_to_mono(0, k);
        let q = n / p;
        let r = n % p;
        assert(q * p + r == n) by (nonlinear_arith)
            requires
                p > 0,
                q == n / p,
                r == n % p,
        ;
        assert((q + 1) * p == q * p + p) by (nonlinear_arith);
        let h = two_to((k - 1) as nat);
        assert(p == 2 * h);
        assert(p / 2 == h);
        assert(0x100_0000 * h <= n);
        let res = single_round(n);
        let m = round_quot(n, k);
        assert(res == m * p);
        if r > p / 2 || (r == p / 2 && q % 2 == 1) {
            assert(m == q + 1);
            assert(res == q * p + p);
            assert(res - n <= h);
        } else {
            assert(m == q);
            assert(res == q * p);
            assert(n - res <= h);
        }
    }
}

/// The largest value a single-precision float can stand for here: 2^128,
/// which is where a float that rounds past the largest finite one becomes
/// infinity.
pub open spec fn single_top() -> nat {
    two_to(128)
}

pub(crate) proof fn lemma_top_values()
    ensures
        two_to(24) == 0x100_0000,
        two_to(64) == 0x1_0000_0000_0000_0000,
        two_to(127) == 0x8000_0000_0000_0000_0000_0000_0000_0000,
        single_top() == 0x1_0000_0000_0000_0000_0000_0000_0000_0000,
{
    assert(two_to(7) == 0x80) by {
        reveal_with_fuel(two_to, 8);
    }
    assert(two_to(24) == 0x100_0000) by {
        reveal_with_fuel(two_to, 25);
    }
    lemma_two_to_add(24, 24);
    let a = two_to(24);
    assert(a * a == 0x1_0000_0000_0000) by (nonlinear_arith)
        requires
            a == 0x100_0000,
    ;
    lemma_two_to_add(48, 48);
    let b = two_to(48);
    assert(b * b == 0x1_0000_0000_0000_0000_0000_0000) by (nonlinear_arith)
        requires
            b == 0x1_0000_0000_0000,
    ;
    lemma_two_to_add(96, 24);
    let c = two_to(96);
    assert(c * a == 0x100_0000_0000_0000_0000_0000_0000_0000) by (nonlinear_arith)
        requires
            c == 0x1_0000_0000_0000_0000_0000_0000,
            a == 0x100_0000,
    ;
    lemma_two_to_add(48, 16);
    assert(two_to(16) == 0x1_0000) by {
        reveal_with_fuel(two_to, 17);
    }
    let f = two_to(16);
    assert(b * f == 0x1_0000_0000_0000_0000) by (nonlinear_arith)
        requires
            b == 0x1_0000_0000_0000,
            f == 0x1_0000,
    ;
    lemma_two_to_add(120, 7);
    let d = two_to(120);
    let e = two_to(7);
    assert(d * e == 0x8000_0000_0000_0000_0000_0000_0000_0000) by (nonlinear_arith)
        requires
            d == 0x100_0000_0000_0000_0000_0000_0000_0000,
            e == 0x80,
    ;
    assert(two_to(128) == 2 * two_to(127));
}

/// The number of binary digits of `n`.
pub fn bits_of(n: u128) -> (b: u64)
    ensures
        b == bit_len(n as nat),
        b <= 128,
{
    proof {
        lemma_top_values();
        lemma_bit_len_below(n as nat, 128);
    }
    let mut x: u128 = n;
    let mut b: u64 = 0;
    while x > 0
        invariant
            bit_len(n as nat) == b + bit_len(x as nat),
            bit_len(n as nat) <= 128,
        decreases x,
    {
        x = x / 2;
        b = b + 1;
    }
    b
}

/// `2^k`.
pub fn pow_two(k: u64) -> (p: u128)
    requires
        k <= 127,
    ensures
        p == two_to(k as nat),
{
    let mut p: u128 = 1;
    let mut i: u64 = 0;
    while i < k
        invariant
            i <= k,
            k <= 127,
            p == two_to(i as nat),
        decreases k - i,
    {
        proof {
            lemma_top_values();
            lemma_two_to_mono((i + 1) as nat, 127);
        }
        p = p * 2;
        i = i + 1;
    }
    p
}

/// Facts about `n / 2^k` when `n` has exactly `k + 24` binary digits.
proof fn lemma_top_digits(n: nat, k: nat)
    requires
        bit_len(n) == k + 24,
    ensures
        two_to(k) > 0,
        0x80_0000 <= n / two_to(k) < 0x100_0000,
        n / two_to(k) * two_to(k) + n % two_to(k) == n,
        n % two_to(k) < two_to(k),
        two_to(k + 24) == 0x100_0000 * two_to(k),
        two_to(k + 23) == 0x80_0000 * two_to(k),
{
    let p = two_to(k);
    lemma_two_to_mono(0, k);
    lemma_bit_len(n);
    lemma_two_to_add(k, 24);
    lemma_two_to_add(k, 23);
    assert(two_to(23) == 0x80_0000) by {
        reveal_with_fuel(two_to, 24);
    }
    assert(two_to(24) == 0x100_0000) by {
        reveal_with_fuel(two_to, 25);
    }
    let q = n / p;
    let r = n % p;
    assert(q * p + r == n && r < p) by (nonlinear_arith)
        requires
            p > 0,
            q == n / p,
            r == n % p,
    ;
    assert(q < 0x100_0000) by (nonlinear_arith)
        requires
            q * p + r == n,
            n < 0x100_0000 * p,
            r >= 0,
            p > 0,
    ;
    assert(q >= 0x80_0000) by (nonlinear_arith)
        requires
            q * p + r == n,
            n >= 0x80_0000 * p,
            r < p,
            p > 0,
    ;
}

/// An integer rounded to single precision: `(true, _)` when it rounds to
/// infinity, else `(false, v)` with `v` the float's value.
pub fn round_int(n: u128) -> (r: (bool, u128))
    ensures
        r.0 == (single_round(n as nat) == single_top()),
        !r.0 ==> r.1 == single_round(n as nat),
{
    proof {
        lemma_top_values();
    }
    let b = bits_of(n);
    if b <= 24 {
        proof {
            if n > 0 {
                lemma_bit_len(n as nat);
                lemma_two_to_mono(b as nat, 24);
            }
        }
        return (false, n);
    }
    let k: u64 = b - 24;
    let p = pow_two(k);
    proof {
        lemma_top_digits(n as nat, k as nat);
    }
    let q = n / p;
    let rem = n % p;
    let up = rem > p / 2 || (rem == p / 2 && q % 2 == 1);
    let qq: u128 = if up {
        q + 1
    } else {
        q
    };
    assert(qq == round_quot(n as nat, k as nat));
    if qq == 0x100_0000 && k == 104 {
        proof {
            lemma_two_to_add(104, 24);
        }
        return (true, 0);
    }
    proof {
        lemma_two_to_mono((k + 24) as nat, 128);
        if qq == 0x100_0000 {
            lemma_two_to_mono((k + 24) as nat, 127);
        }
        assert(qq * p <= 0x100_0000 * p) by (nonlinear_arith)
            requires
                qq <= 0x100_0000,
        ;
        if qq < 0x100_0000 {
            assert(qq * p + p <= 0x100_0000 * p) by (nonlinear_arith)
                requires
                    qq < 0x100_0000,
                    p > 0,
            ;
        }
    }
    (false, qq * p)
}

/// A single-precision value as its parts `(m, e)`, meaning `m·2^e`: zero is
/// `(0, 0)`, any other finite value has `2^23 <= m < 2^24`, and infinity is
/// `(2^23, 105)`, that is 2^128.
pub open spec fn single_ok(k: (int, int)) -> bool {
    (k.0 == 0 && k.1 == 0) || (0x80_0000 <= k.0 < 0x100_0000 && -200 <= k.1 <= 105)
}

/// The value of single-precision parts as a fraction with a positive
/// denominator.
pub open spec fn single_frac(k: (int, int)) -> (int, int) {
    if k.1 >= 0 {
        (k.0 * two_to(k.1 as nat), 1)
    } else {
        (k.0, two_to((-k.1) as nat) as int)
    }
}

/// The parts of a non-negative integer below 2^128 rounded to single
/// precision.
pub open spec fn int_single(n: nat) -> (int, int) {
    if n == 0 {
        (0, 0)
    } else if bit_len(n) <= 24 {
        ((n * two_to((24 - bit_len(n)) as nat)) as int, bit_len(n) - 24)
    } else {
        let k = (bit_len(n) - 24) as nat;
        let m = round_quot(n, k);
        if m == 0x100_0000 {
            (0x80_0000, k + 1 as int)
        } else {
            (m as int, k as int)
        }
    }
}

/// `a` and `c` scaled by `2^t` on the side that keeps both integers:
/// `x / y == a·2^t / c`.
pub open spec fn scaled(a: nat, c: nat, t: int) -> (nat, nat) {
    if t >= 0 {
        (a * two_to(t as nat), c)
    } else {
        (a, c * two_to((-t) as nat))
    }
}

/// The shift `t` that puts `a·2^t / c` in `[2^23, 2^24)`.
pub open spec fn quot_shift(a: nat, c: nat) -> int {
    let t0 = 23 - bit_len(a) + bit_len(c);
    let (x, y) = scaled(a, c, t0);
    if x < 0x80_0000 * y {
        t0 + 1
    } else {
        t0
    }
}

/// The parts of `a / c` rounded to single precision (to nearest, ties to
/// even), for `a` a single-precision value (2^128 being infinity) and `c`
/// positive.
pub open spec fn single_quot(a: nat, c: nat) -> (int, int) {
    if a >= single_top() {
        (0x80_0000, 105)
    } else if a == 0 {
        (0, 0)
    } else {
        let t = quot_shift(a, c);
        let (x, y) = scaled(a, c, t);
        let q = x / y;
        let r = x % y;
        let m = if 2 * r > y || (2 * r == y && q % 2 == 1) {
            q + 1
        } else {
            q
        };
        if m == 0x100_0000 {
            (0x80_0000, 1 - t)
        } else {
            (m as int, -t)
        }
    }
}

/// The single-precision parts of an integer below 2^128.
pub fn single_of_int(n: u128) -> (r: (u64, i64))
    ensures
        (r.0 as int, r.1 as int) == int_single(n as nat),
        single_ok((r.0 as int, r.1 as int)),
{
    proof {
        lemma_top_values();
    }
    if n == 0 {
        return (0, 0);
    }
    let b = bits_of(n);
    proof {
        lemma_bit_len(n as nat);
    }
    if b <= 24 {
        let sh: u64 = 24 - b;
        let p = pow_two(sh);
        proof {
            lemma_two_to_mono(0, sh as nat);
            lemma_two_to_add((b - 1) as nat, sh as nat);
            lemma_two_to_add(b as nat, sh as nat);
            assert(two_to(23) == 0x80_0000) by {
                reveal_with_fuel(two_to, 24);
            }
            assert((b - 1) + sh == 23);
            assert(n * p < two_to(b as nat) * p) by (nonlinear_arith)
                requires
                    n < two_to(b as nat),
                    p > 0,
            ;
            assert(n * p >= two_to((b - 1) as nat) * p) by (nonlinear_arith)
                requires
                    n >= two_to((b - 1) as nat),
                    p > 0,
            ;
            lemma_two_to_mono(0, sh as nat);
        }
        let m: u128 = n * p;
        return (m as u64, (b as i64) - 24);
    }
    let k: u64 = b - 24;
    let p = pow_two(k);
    proof {
        lemma_top_digits(n as nat, k as nat);
    }
    let q = n / p;
    let rem = n % p;
    let up = rem > p / 2 || (rem == p / 2 && q % 2 == 1);
    let qq: u128 = if up {
        q + 1
    } else {
        q
    };
    assert(qq == round_quot(n as nat, k as nat));
    if qq == 0x100_0000 {
        (0x80_0000, (k + 1) as i64)
    } else {
        (qq as u64, k as i64)
    }
}

/// `a·2^t / c` lies strictly between 2^22 and 2^24 at the first guess of the
/// shift.
proof fn lemma_quot_range(a: nat, c: nat)
    requires
        a >= 1,
        c >= 1,
    ensures
        ({
            let t0 = 23 - bit_len(a) + bit_len(c);
            let (x, y) = scaled(a, c, t0);
            0x40_0000 * y < x < 0x100_0000 * y && y > 0
        }),
{
    let la = bit_len(a);
    let lc = bit_len(c);
    lemma_bit_len(a);
    lemma_bit_len(c);
    let t0 = 23 - la + lc;
    assert(two_to(22) == 0x40_0000 && two_to(24) == 0x100_0000) by {
        reveal_with_fuel(two_to, 25);
    }
    if t0 >= 0 {
        let t = t0 as nat;
        let p = two_to(t);
        lemma_two_to_mono(0, t);
        lemma_two_to_add(la, t);
        lemma_two_to_add((la - 1) as nat, t);
        lemma_two_to_add(24, (lc - 1) as nat);
        lemma_two_to_add(22, lc);
        assert(la + t == 24 + (lc - 1));
        assert((la - 1) + t == 22 + lc);
        assert(a * p < two_to(la) * p) by (nonlinear_arith)
            requires
                a < two_to(la),
                p > 0,
        ;
        assert(a * p >= two_to((la - 1) as nat) * p) by (nonlinear_arith)
            requires
                a >= two_to((la - 1) as nat),
                p > 0,
        ;
        assert(0x100_0000 * two_to((lc - 1) as nat) <= 0x100_0000 * c);
        assert(0x40_0000 * c < 0x40_0000 * two_to(lc));
    } else {
        let s = (-t0) as nat;
        let p = two_to(s);
        lemma_two_to_mono(0, s);
        lemma_two_to_add((lc - 1) as nat, s);
        lemma_two_to_add(lc, s);
        lemma_two_to_add(24, (la - 24) as nat);
        lemma_two_to_add(22, (la - 23) as nat);
        assert((lc - 1) + s == la - 24);
        assert(lc + s == la - 23);
        assert(c * p < two_to(lc) * p) by (nonlinear_arith)
            requires
                c < two_to(lc),
                p > 0,
        ;
        assert(c * p >= two_to((lc - 1) as nat) * p) by (nonlinear_arith)
            requires
                c >= two_to((lc - 1) as nat),
                p > 0,
        ;
        assert(two_to(la) == 0x100_0000 * two_to((la - 24) as nat));
        assert(two_to((la - 1) as nat) == 0x40_0000 * two_to((la - 23) as nat));
        assert(c * p >= 1) by (nonlinear_arith)
            requires
                c >= 1,
                p >= 1,
        ;
    }
}

/// `x·2^t < 2^m` when `x < 2^l` and `l + t <= m`.
proof fn lemma_scaled_below(x: nat, l: nat, t: nat, m: nat)
    requires
        x < two_to(l),
        l + t <= m,
    ensures
        x * two_to(t) < two_to(m),
{
    lemma_two_to_add(l, t);
    lemma_two_to_mono(l + t, m);
    lemma_two_to_mono(0, t);
    let p = two_to(t);
    assert(x * p < two_to(l) * p) by (nonlinear_arith)
        requires
            x < two_to(l),
            p > 0,
    ;
}

/// `scaled` on machine integers.
fn scale(a: u128, c: u128, t: i64) -> (r: (u128, u128))
    requires
        t >= 0 ==> t <= 127 && a * two_to(t as nat) <= u128::MAX,
        t < 0 ==> -t <= 127 && c * two_to((-t) as nat) <= u128::MAX,
    ensures
        (r.0 as nat, r.1 as nat) == scaled(a as nat, c as nat, t as int),
{
    if t >= 0 {
        let p = pow_two(t as u64);
        (a * p, c)
    } else {
        let p = pow_two((-t) as u64);
        (a, c * p)
    }
}

/// The single-precision parts of `a / c`.
pub fn quot_single(a: u128, c: u128) -> (r: (u64, i64))
    requires
        a >= 1,
        1 <= c < 0x2_0000_0000_0000_0000,
    ensures
        (r.0 as int, r.1 as int) == single_quot(a as nat, c as nat),
        single_ok((r.0 as int, r.1 as int)),
{
    proof {
        lemma_top_values();
        lemma_bit_len(a as nat);
        lemma_bit_len(c as nat);
        assert(two_to(65) == 2 * two_to(64));
        lemma_bit_len_below(c as nat, 65);
    }
    let la = bits_of(a);
    let lc = bits_of(c);
    let t0: i64 = 23 - (la as i64) + (lc as i64);
    proof {
        lemma_quot_range(a as nat, c as nat);
        lemma_two_to_mono(89, 127);
        if t0 >= 0 {
            lemma_scaled_below(a as nat, la as nat, t0 as nat, 88);
            lemma_scaled_below(a as nat, la as nat, (t0 + 1) as nat, 89);
        } else {
            lemma_scaled_below(c as nat, lc as nat, (-t0) as nat, 105);
            lemma_two_to_mono(105, 127);
            if t0 < -1 {
                lemma_scaled_below(c as nat, lc as nat, (-t0 - 1) as nat, 104);
                lemma_two_to_mono(104, 127);
            } else {
                assert(two_to(0) == 1);
                assert(a * two_to(0) == a);
            }
        }
    }
    let (x0, y0) = scale(a, c, t0);
    proof {
        if t0 < 0 {
            lemma_two_to_mono(105, 127);
            assert(0x80_0000 * y0 < 0x80_0000 * two_to(105)) by (nonlinear_arith)
                requires
                    y0 < two_to(105),
            ;
            lemma_two_to_add(105, 23);
            assert(two_to(23) == 0x80_0000) by {
                reveal_with_fuel(two_to, 24);
            }
            assert(0x80_0000 * two_to(105) == two_to(128)) by (nonlinear_arith)
                requires
                    two_to(128) == two_to(105) * two_to(23),
                    two_to(23) == 0x80_0000,
            ;
        }
    }
    let (t, x, y) = if x0 < 0x80_0000 * y0 {
        let t1 = t0 + 1;
        let (x1, y1) = scale(a, c, t1);
        proof {
            if t0 >= 0 {
                assert(two_to((t0 + 1) as nat) == 2 * two_to(t0 as nat));
                assert(x1 == 2 * x0) by (nonlinear_arith)
                    requires
                        x1 == a * two_to((t0 + 1) as nat),
                        x0 == a * two_to(t0 as nat),
                        two_to((t0 + 1) as nat) == 2 * two_to(t0 as nat),
                ;
            } else if t0 == -1 {
                assert(two_to(0) == 1 && two_to(1) == 2);
                assert(x1 == x0);
                assert(y0 == c * two_to(1));
                assert(y0 == 2 * y1) by (nonlinear_arith)
                    requires
                        y0 == c * two_to(1),
                        two_to(1) == 2,
                        y1 == c,
                ;
            } else {
                let sp = (-t0 - 1) as nat;
                assert(two_to((-t0) as nat) == 2 * two_to(sp));
                assert(y0 == 2 * y1) by (nonlinear_arith)
                    requires
                        y0 == c * two_to((-t0) as nat),
                        y1 == c * two_to(sp),
                        two_to((-t0) as nat) == 2 * two_to(sp),
                ;
            }
        }
        (t1, x1, y1)
    } else {
        (t0, x0, y0)
    };
    assert(0x80_0000 * y <= x < 0x100_0000 * y);
    let q = x / y;
    let rem = x % y;
    proof {
        assert(q * y + rem == x && rem < y) by (nonlinear_arith)
            requires
                y > 0,
                q == x / y,
                rem == x % y,
        ;
        assert(0x80_0000 <= q < 0x100_0000) by (nonlinear_arith)
            requires
                q * y + rem == x,
                rem < y,
                rem >= 0,
                y > 0,
                0x80_0000 * y <= x < 0x100_0000 * y,
        ;
    }
    let up = 2 * rem > y || (2 * rem == y && q % 2 == 1);
    let m: u128 = if up {
        q + 1
    } else {
        q
    };
    if m == 0x100_0000 {
        (0x80_0000, 1 - t)
    } else {
        (m as u64, -t)
    }
}

/// `m1·2^x1` against `m2·2^x2` for significands in `[2^23, 2^24)`: the
/// exponents decide unless they are equal.
proof fn lemma_mant_order(m1: nat, x1: nat, m2: nat, x2: nat)
    requires
        0x80_0000 <= m1 < 0x100_0000,
        0x80_0000 <= m2 < 0x100_0000,
    ensures
        x1 < x2 ==> m1 * two_to(x1) < m2 * two_to(x2),
        x1 == x2 ==> (m1 * two_to(x1) < m2 * two_to(x2) <==> m1 < m2),
        x1 == x2 ==> (m1 * two_to(x1) == m2 * two_to(x2) <==> m1 == m2),
{
    lemma_two_to_mono(0, x1);
    let p1 = two_to(x1);
    if x1 < x2 {
        lemma_two_to_add(x1 + 1, (x2 - x1 - 1) as nat);
        lemma_two_to_mono(0, (x2 - x1 - 1) as nat);
        assert(two_to(x1 + 1) == 2 * p1);
        let p2 = two_to(x2);
        assert(p2 >= 2 * p1) by (nonlinear_arith)
            requires
                p2 == two_to(x1 + 1) * two_to((x2 - x1 - 1) as nat),
                two_to(x1 + 1) == 2 * p1,
                two_to((x2 - x1 - 1) as nat) >= 1,
                p1 > 0,
        ;
        assert(m1 * p1 < m2 * p2) by (nonlinear_arith)
            requires
                m1 < 0x100_0000,
                m2 >= 0x80_0000,
                p2 >= 2 * p1,
                p1 > 0,
        ;
    }
    if x1 == x2 {
        assert(m1 * p1 < m2 * p1 <==> m1 < m2) by (nonlinear_arith)
            requires
                p1 > 0,
        ;
        assert(m1 * p1 == m2 * p1 <==> m1 == m2) by (nonlinear_arith)
            requires
                p1 > 0,
        ;
    }
}

/// The cross products of two fractions from single-precision parts.
proof fn lemma_cross(x: (int, int), y: (int, int))
    requires
        single_ok(x),
        single_ok(y),
        x.0 > 0,
        y.0 > 0,
    ensures
        ({
            let fx = single_frac(x);
            let fy = single_frac(y);
            let ex = (if x.1 >= 0 { x.1 } else { 0 }) + (if y.1 < 0 { -y.1 } else { 0 });
            let ey = (if y.1 >= 0 { y.1 } else { 0 }) + (if x.1 < 0 { -x.1 } else { 0 });
            &&& fx.0 * fy.1 == x.0 * two_to(ex as nat)
            &&& fy.0 * fx.1 == y.0 * two_to(ey as nat)
            &&& ex - ey == x.1 - y.1
        }),
{
    let px = if x.1 >= 0 { x.1 } else { 0 };
    let nx = if x.1 < 0 { -x.1 } else { 0 };
    let py = if y.1 >= 0 { y.1 } else { 0 };
    let ny = if y.1 < 0 { -y.1 } else { 0 };
    lemma_two_to_add(px as nat, ny as nat);
    lemma_two_to_add(py as nat, nx as nat);
    assert(two_to(0) == 1);
    let fx = single_frac(x);
    let fy = single_frac(y);
    assert(fx.0 == x.0 * two_to(px as nat) && fx.1 == two_to(nx as nat));
    assert(fy.0 == y.0 * two_to(py as nat) && fy.1 == two_to(ny as nat));
    let a = two_to(px as nat);
    let b = two_to(ny as nat);
    let c = two_to(py as nat);
    let d = two_to(nx as nat);
    assert((x.0 * a) * b == x.0 * (a * b)) by (nonlinear_arith);
    assert((y.0 * c) * d == y.0 * (c * d)) by (nonlinear_arith);
}

/// Compare two single-precision values: `(less, equal)`.
pub fn single_order(x: (u64, i64), y: (u64, i64)) -> (r: (bool, bool))
    requires
        single_ok((x.0 as int, x.1 as int)),
        single_ok((y.0 as int, y.1 as int)),
    ensures
        ({
            let fx = single_frac((x.0 as int, x.1 as int));
            let fy = single_frac((y.0 as int, y.1 as int));
            &&& r.0 == (fx.0 * fy.1 < fy.0 * fx.1)
            &&& r.1 == (fx.0 * fy.1 == fy.0 * fx.1)
        }),
{
    let ghost xi = (x.0 as int, x.1 as int);
    let ghost yi = (y.0 as int, y.1 as int);
    proof {
        lemma_two_to_mono(0, if y.1 < 0 { (-y.1) as nat } else { 0 });
        lemma_two_to_mono(0, if x.1 < 0 { (-x.1) as nat } else { 0 });
        lemma_two_to_mono(0, if y.1 >= 0 { y.1 as nat } else { 0 });
        lemma_two_to_mono(0, if x.1 >= 0 { x.1 as nat } else { 0 });
    }
    if x.0 == 0 || y.0 == 0 {
        proof {
            let fx = single_frac(xi);
            let fy = single_frac(yi);
            assert(two_to(0) == 1);
            if x.0 == 0 {
                assert(fx == (0int, 1int));
            }
            if y.0 == 0 {
                assert(fy == (0int, 1int));
            }
            if x.0 != 0 {
                assert(fx.0 > 0) by (nonlinear_arith)
                    requires
                        x.1 >= 0 ==> fx.0 == x.0 * two_to(x.1 as nat),
                        x.1 < 0 ==> fx.0 == x.0,
                        x.0 > 0,
                        x.1 >= 0 ==> two_to(x.1 as nat) >= 1,
                ;
            }
            if y.0 != 0 {
                assert(fy.0 > 0) by (nonlinear_arith)
                    requires
                        y.1 >= 0 ==> fy.0 == y.0 * two_to(y.1 as nat),
                        y.1 < 0 ==> fy.0 == y.0,
                        y.0 > 0,
                        y.1 >= 0 ==> two_to(y.1 as nat) >= 1,
                ;
            }
        }
        return (x.0 == 0 && y.0 != 0, x.0 == 0 && y.0 == 0);
    }
    proof {
        lemma_cross(xi, yi);
        let ex = (if xi.1 >= 0 { xi.1 } else { 0 }) + (if yi.1 < 0 { -yi.1 } else { 0 });
        let ey = (if yi.1 >= 0 { yi.1 } else { 0 }) + (if xi.1 < 0 { -xi.1 } else { 0 });
        lemma_mant_order(x.0 as nat, ex as nat, y.0 as nat, ey as nat);
        lemma_mant_order(y.0 as nat, ey as nat, x.0 as nat, ex as nat);
    }
    if x.1 != y.1 {
        (x.1 < y.1, false)
    } else {
        (x.0 < y.0, x.0 == y.0)
    }
}

/// A non-negative integer as a single-precision value; from 2^128 on, and
/// for whatever rounds up to it, that is infinity, 2^128.
pub open spec fn to_single(n: nat) -> nat {
    if n >= single_top() {
        single_top()
    } else {
        single_round(n)
    }
}

/// The fraction of single-precision parts has a positive denominator.
pub proof fn lemma_frac_den(k: (int, int))
    ensures
        single_frac(k).1 > 0,
{
    if k.1 < 0 {
        lemma_two_to_mono(0, (-k.1) as nat);
    }
}

/// Rounding a positive integer below 2^64 gives a positive value below
/// 2^65, never infinity.
pub proof fn lemma_round_small(n: nat)
    requires
        n < 0x1_0000_0000_0000_0000,
    ensures
        single_round(n) <= n + n / 0x100_0000,
        n > 0 ==> single_round(n) >= 1,
        single_round(n) < 0x2_0000_0000_0000_0000,
        single_round(n) != single_top(),
{
    lemma_round_error(n);
    lemma_top_values();
}

} // verus!
