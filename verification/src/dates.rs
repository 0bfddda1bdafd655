use vstd::prelude::*;
use crate::calendar::civil_parts;
use crate::calendar::civil_of_seconds;
use crate::calendar::march_day_number;
use crate::calendar::march_year_start;
use crate::calendar::lemma_march_year_step;
use crate::calendar::days_from_civil;
use vstd::arithmetic::div_mod::lemma_fundamental_div_mod;
use vstd::arithmetic::div_mod::lemma_fundamental_div_mod_converse;

verus! {

/// The character of decimal digit `d`.
pub open spec fn digit_char(d: int) -> char {
    if d == 0 {
        '0'
    } else if d == 1 {
        '1'
    } else if d == 2 {
        '2'
    } else if d == 3 {
        '3'
    } else if d == 4 {
        '4'
    } else if d == 5 {
        '5'
    } else if d == 6 {
        '6'
    } else if d == 7 {
        '7'
    } else if d == 8 {
        '8'
    } else {
        '9'
    }
}

/// The decimal digits of `n`, most significant first, without leading
/// zeros.
pub open spec fn digits_of(n: nat) -> Seq<char>
    decreases n,
{
    if n < 10 {
        seq![digit_char(n as int)]
    } else {
        digits_of(n / 10).push(digit_char((n % 10) as int))
    }
}

/// `k` zeros, none when `k` is not positive.
pub open spec fn zeros(k: int) -> Seq<char> {
    Seq::new(
        if k > 0 {
            k as nat
        } else {
            0
        },
        |i: int| '0',
    )
}

/// `n` in decimal, zero-padded to at least `width` characters with a minus
/// sign counted in the width — how `{:0width$}` prints an integer.
pub open spec fn padded(n: int, width: int) -> Seq<char> {
    if n < 0 {
        seq!['-'] + zeros(width - 1 - digits_of((-n) as nat).len()) + digits_of((-n) as nat)
    } else {
        zeros(width - digits_of(n as nat).len()) + digits_of(n as nat)
    }
}

/// The one-character string of digit `d`.
fn digit_str(d: u64) -> (r: &'static str)
    requires
        d < 10,
    ensures
        r@ == seq![digit_char(d as int)],
{
    if d == 0 {
        proof {
            reveal_strlit("0");
        }
        "0"
    } else if d == 1 {
        proof {
            reveal_strlit("1");
        }
        "1"
    } else if d == 2 {
        proof {
            reveal_strlit("2");
        }
        "2"
    } else if d == 3 {
        proof {
            reveal_strlit("3");
        }
        "3"
    } else if d == 4 {
        proof {
            reveal_strlit("4");
        }
        "4"
    } else if d == 5 {
        proof {
            reveal_strlit("5");
        }
        "5"
    } else if d == 6 {
        proof {
            reveal_strlit("6");
        }
        "6"
    } else if d == 7 {
        proof {
            reveal_strlit("7");
        }
        "7"
    } else if d == 8 {
        proof {
            reveal_strlit("8");
        }
        "8"
    } else {
        proof {
            reveal_strlit("9");
        }
        "9"
    }
}

/// Append the decimal digits of `v`.
fn push_digits(out: &mut String, v: u64)
    ensures
        final(out)@ == old(out)@ + digits_of(v as nat),
    decreases v,
{
    if v >= 10 {
        push_digits(out, v / 10);
    }
    let d = digit_str(v % 10);
    out.append(d);
    proof {
        if v >= 10 {
            assert(old(out)@ + digits_of(v as nat) =~= old(out)@ + digits_of((v / 10) as nat) + seq![digit_char((v % 10) as int)]);
        } else {
            assert(digits_of(v as nat) =~= seq![digit_char((v % 10) as int)]);
            assert(old(out)@ + digits_of(v as nat) =~= old(out)@ + seq![digit_char((v % 10) as int)]);
        }
    }
}

/// `10` to the power `k`.
pub open spec fn pow10(k: nat) -> nat
    decreases k,
{
    if k == 0 {
        1
    } else {
        10 * pow10((k - 1) as nat)
    }
}

/// A number below `10^k` has at most `k` digits.
proof fn lemma_digits_len(n: nat, k: nat)
    requires
        k >= 1,
        n < pow10(k),
    ensures
        1 <= digits_of(n).len() <= k,
    decreases k,
{
    if n >= 10 {
        if k == 1 {
            assert(pow10(1) == 10 * pow10(0));
        }
        let k1 = (k - 1) as nat;
        assert(pow10(k) == 10 * pow10(k1));
        assert(n / 10 < pow10(k1)) by (nonlinear_arith)
            requires
                n < 10 * pow10(k1),
        ;
        lemma_digits_len(n / 10, k1);
    }
}

/// How many decimal digits `v` has.
fn digit_count(v: u64) -> (r: usize)
    ensures
        r == digits_of(v as nat).len(),
        1 <= r <= 20,
    decreases v,
{
    proof {
        assert(pow10(20) == 100000000000000000000nat) by {
            reveal_with_fuel(pow10, 21);
        }
        lemma_digits_len(v as nat, 20);
        if v >= 10 {
            lemma_digits_len((v / 10) as nat, 20);
        }
    }
    if v >= 10 {
        digit_count(v / 10) + 1
    } else {
        1
    }
}

/// Append `k` zeros.
fn push_zeros(out: &mut String, k: usize)
    ensures
        final(out)@ == old(out)@ + zeros(k as int),
{
    let mut i: usize = 0;
    while i < k
        invariant
            i <= k,
            out@ == old(out)@ + zeros(i as int),
        decreases k - i,
    {
        proof {
            reveal_strlit("0");
        }
        out.append("0");
        proof {
            assert(old(out)@ + zeros(i as int) + seq!['0'] =~= old(out)@ + zeros(i + 1));
        }
        i = i + 1;
    }
}

/// Append `n` zero-padded to `width` characters (see [`padded`]).
pub fn push_padded(out: &mut String, n: i64, width: usize)
    ensures
        final(out)@ == old(out)@ + padded(n as int, width as int),
{
    let (neg, v): (bool, u64) = if n < 0 {
        (true, ((-(n + 1)) as u64) + 1)
    } else {
        (false, n as u64)
    };
    let len = digit_count(v);
    if neg {
        proof {
            reveal_strlit("-");
        }
        out.append("-");
        let pad = if width > len + 1 {
            width - len - 1
        } else {
            0
        };
        push_zeros(out, pad);
        push_digits(out, v);
        proof {
            assert(zeros(pad as int) =~= zeros(width - 1 - digits_of(v as nat).len()));
            assert(old(out)@ + padded(n as int, width as int) =~= old(out)@ + seq!['-'] + zeros(pad as int) + digits_of(v as nat));
        }
    } else {
        let pad = if width > len {
            width - len
        } else {
            0
        };
        push_zeros(out, pad);
        push_digits(out, v);
        proof {
            assert(zeros(pad as int) =~= zeros(width - digits_of(v as nat).len()));
            assert(old(out)@ + padded(n as int, width as int) =~= old(out)@ + zeros(pad as int) + digits_of(v as nat));
        }
    }
}

/// Append one literal separator character.
fn push_sep(out: &mut String, c: char)
    requires
        c == '-' || c == ':' || c == ' ',
    ensures
        final(out)@ == old(out)@ + seq![c],
{
    if c == '-' {
        proof {
            reveal_strlit("-");
        }
        out.append("-");
    } else if c == ':' {
        proof {
            reveal_strlit(":");
        }
        out.append(":");
    } else {
        proof {
            reveal_strlit(" ");
        }
        out.append(" ");
    }
}

/// `YYYY-MM`.
pub open spec fn ym_text(y: int, m: int) -> Seq<char> {
    padded(y, 4) + seq!['-'] + padded(m, 2)
}

/// `YYYY-MM-DD`.
pub open spec fn ymd_text(y: int, m: int, d: int) -> Seq<char> {
    ym_text(y, m) + seq!['-'] + padded(d, 2)
}

/// `MM-DD`.
pub open spec fn md_text(m: int, d: int) -> Seq<char> {
    padded(m, 2) + seq!['-'] + padded(d, 2)
}

/// `HH:MM` of a second of the day.
pub open spec fn hm_text(sod: int) -> Seq<char> {
    padded(sod / 3600, 2) + seq![':'] + padded((sod / 60) % 60, 2)
}

/// `HH:MM:SS` of a second of the day.
pub open spec fn hms_text(sod: int) -> Seq<char> {
    hm_text(sod) + seq![':'] + padded(sod % 60, 2)
}

fn ym_string(y: i64, m: i64) -> (r: String)
    ensures
        r@ == ym_text(y as int, m as int),
{
    let mut s = String::new();
    push_padded(&mut s, y, 4);
    push_sep(&mut s, '-');
    push_padded(&mut s, m, 2);
    proof {
        assert(s@ =~= ym_text(y as int, m as int));
    }
    s
}

fn ymd_string(y: i64, m: i64, d: i64) -> (r: String)
    ensures
        r@ == ymd_text(y as int, m as int, d as int),
{
    let mut s = ym_string(y, m);
    push_sep(&mut s, '-');
    push_padded(&mut s, d, 2);
    proof {
        assert(s@ =~= ymd_text(y as int, m as int, d as int));
    }
    s
}

fn md_string(m: i64, d: i64) -> (r: String)
    ensures
        r@ == md_text(m as int, d as int),
{
    let mut s = String::new();
    push_padded(&mut s, m, 2);
    push_sep(&mut s, '-');
    push_padded(&mut s, d, 2);
    proof {
        assert(s@ =~= md_text(m as int, d as int));
    }
    s
}

fn push_hm(s: &mut String, sod: i64)
    requires
        0 <= sod < 86400,
    ensures
        final(s)@ == old(s)@ + hm_text(sod as int),
{
    push_padded(s, sod / 3600, 2);
    push_sep(s, ':');
    push_padded(s, (sod / 60) % 60, 2);
    proof {
        assert(final(s)@ =~= old(s)@ + hm_text(sod as int));
    }
}

fn hm_string(sod: i64) -> (r: String)
    requires
        0 <= sod < 86400,
    ensures
        r@ == hm_text(sod as int),
{
    let mut s = String::new();
    push_hm(&mut s, sod);
    proof {
        assert(s@ =~= hm_text(sod as int));
    }
    s
}

fn hms_string(sod: i64) -> (r: String)
    requires
        0 <= sod < 86400,
    ensures
        r@ == hms_text(sod as int),
{
    let mut s = String::new();
    push_hm(&mut s, sod);
    push_sep(&mut s, ':');
    push_padded(&mut s, sod % 60, 2);
    proof {
        assert(s@ =~= hms_text(sod as int));
    }
    s
}

/// The civil date and second of the day of an epoch-seconds instant (UTC),
/// the year as the `i32` the calendar functions hand back.
pub open spec fn secs_civil(t: int) -> (int, int, int, int) {
    let p = civil_parts(t / 86400);
    ((p.0 as i32) as int, p.1, p.2, t % 86400)
}

/// `YYYY-MM-DD HH:MM:SS` for an instant, the time dropped at exact
/// midnight.
pub open spec fn datetime_text(t: int) -> Seq<char> {
    let (y, m, d, sod) = secs_civil(t);
    if sod == 0 {
        ymd_text(y, m, d)
    } else {
        ymd_text(y, m, d) + seq![' '] + hms_text(sod)
    }
}

/// `YYYY-MM-DD` for epoch second `t` (UTC).
pub fn format_date(t: i64) -> (r: String)
    ensures
        r@ == ymd_text(secs_civil(t as int).0, secs_civil(t as int).1, secs_civil(t as int).2),
{
    let (y, m, d, _sod) = civil_of_seconds(t);
    ymd_string(y as i64, m as i64, d as i64)
}

/// `YYYY-MM-DD HH:MM:SS` for epoch second `t` (UTC), the time part dropped at
/// exact midnight — the crosshair readout's x header on time axes.
pub fn format_datetime(t: i64) -> (r: String)
    ensures
        r@ == datetime_text(t as int),
{
    let (y, m, d, sod) = civil_of_seconds(t);
    let mut s = ymd_string(y as i64, m as i64, d as i64);
    if sod != 0 {
        push_sep(&mut s, ' ');
        let t2 = hms_string(sod);
        s.append(t2.as_str());
    }
    proof {
        assert(s@ =~= datetime_text(t as int));
    }
    s
}

/// Midnight at the start of month index `mi` (`12 * year + month - 1`,
/// January of year 0 being index 0), in epoch seconds.
pub open spec fn month_secs(mi: int) -> int {
    march_day_number(mi / 12, mi % 12 + 1, 1) * 86400
}

/// The start of month index `mi`, counted on March-based years.
proof fn lemma_month_secs_march(mi: int)
    ensures
        month_secs(mi) == (march_year_start((mi - 2) / 12) + (153 * ((mi - 2) % 12) + 2) / 5 - 719468) * 86400,
{
    let y = mi / 12;
    let m = mi % 12 + 1;
    lemma_fundamental_div_mod(mi, 12);
    if m >= 3 {
        lemma_fundamental_div_mod_converse(mi - 2, 12, y, m - 3);
        assert((m + 9) % 12 == m - 3);
    } else {
        lemma_fundamental_div_mod_converse(mi - 2, 12, y - 1, m + 9);
        assert((m + 9) % 12 == m + 9);
    }
}

/// Each month starts at least 28 days after the one before.
proof fn lemma_month_secs_step(mi: int)
    ensures
        month_secs(mi + 1) >= month_secs(mi) + 28 * 86400,
{
    lemma_month_secs_march(mi);
    lemma_month_secs_march(mi + 1);
    let q = mi - 2;
    let yy = q / 12;
    let mp = q % 12;
    lemma_fundamental_div_mod(q, 12);
    if mp < 11 {
        lemma_fundamental_div_mod_converse(q + 1, 12, yy, mp + 1);
        assert((153 * (mp + 1) + 2) / 5 >= (153 * mp + 2) / 5 + 30) by (nonlinear_arith)
            requires
                0 <= mp < 11,
        ;
    } else {
        lemma_fundamental_div_mod_converse(q + 1, 12, yy + 1, 0);
        lemma_march_year_step(yy);
        assert((153 * 11 + 2) / 5 == 337);
    }
}

/// Month starts grow by at least 28 days (2419200 seconds) a month.
proof fn lemma_month_secs_grow(a: int, b: int)
    requires
        a <= b,
    ensures
        month_secs(b) >= month_secs(a) + 2419200 * (b - a),
    decreases b - a,
{
    if a < b {
        lemma_month_secs_grow(a, b - 1);
        lemma_month_secs_step(b - 1);
        assert(2419200 * (b - a) == 2419200 * (b - 1 - a) + 2419200) by (nonlinear_arith);
    }
}

/// The first month index of a year that fits `i32`: January of
/// `i32::MIN`.
pub const MONTH_MIN: i64 = -25_769_803_776;

/// The last month index of a year that fits `i32`: December of `i32::MAX`.
pub const MONTH_MAX: i64 = 25_769_803_775;

/// Year and zero-based month of month index `mi`.
fn month_parts(mi: i64) -> (r: (i64, i64))
    requires
        MONTH_MIN <= mi <= MONTH_MAX,
    ensures
        r.0 == mi as int / 12,
        r.1 == mi as int % 12,
{
    let y: i64 = if mi >= 0 {
        mi / 12
    } else {
        -((-(mi + 1)) / 12) - 1
    };
    proof {
        let mii = mi as int;
        if mi < 0 {
            let u = -(mii + 1);
            lemma_fundamental_div_mod(u, 12);
            lemma_fundamental_div_mod_converse(mii, 12, -(u / 12) - 1, 11 - u % 12);
        }
        lemma_fundamental_div_mod(mi as int, 12);
    }
    (y, mi - 12 * y)
}

/// Midnight at the start of month index `mi`, in epoch seconds (see
/// [`month_secs`]).
pub fn month_start(mi: i64) -> (r: i64)
    requires
        MONTH_MIN <= mi <= MONTH_MAX,
    ensures
        r == month_secs(mi as int),
{
    let (y, m) = month_parts(mi);
    let days = days_from_civil(y as i32, (m + 1) as u32, 1);
    proof {
        let yy = y as int - (if m + 1 <= 2 {
            1int
        } else {
            0int
        });
        assert(-0x8000_0001 <= yy <= 0x7fff_ffff);
        assert(-0x2000_0001 <= yy / 4 <= 0x2000_0000);
        assert(-0x2000_0001 <= yy / 100 <= 0x2000_0000);
        assert(-0x2000_0001 <= yy / 400 <= 0x2000_0000);
        assert(0 <= (153 * ((m + 1 + 9) % 12) + 2) / 5 <= 400);
        assert(days == march_day_number(y as int, m + 1, 1));
    }
    days * 86400
}

/// Month index `mi0 + j * k`'s start, the `j`-th stop of a walk from `mi0`
/// in steps of `k` months.
pub open spec fn walk_secs(mi0: int, k: int, j: int) -> int {
    month_secs(mi0 + j * k)
}

/// The label of a walk stop: `YYYY` on a walk by whole years, `YYYY-MM`
/// otherwise.
pub open spec fn walk_label(mi: int, yearly: bool) -> Seq<char> {
    if yearly {
        padded(mi / 12, 4)
    } else {
        ym_text(mi / 12, mi % 12 + 1)
    }
}

/// Calendar ticks: the starts of every `k`-th month from month index `mi0`
/// that fall in `[lo, hi]` epoch seconds, in time order, each labelled
/// `YYYY-MM` (or `YYYY` when `yearly`). The walk stops at the first start
/// past `hi`. Every month it visits, that first one past `hi` included, is
/// in a year that fits `i32`.
pub fn month_walk(mi0: i64, k: i64, lo: i64, hi: i64, yearly: bool) -> (r: (Vec<i64>, Vec<String>))
    requires
        1 <= k <= 0x10_0000_0000,
        MONTH_MIN <= mi0 <= MONTH_MAX,
        hi < month_secs(MONTH_MAX + 1 - k),
    ensures
        r.0.len() == r.1.len(),
        forall|t: int|
            #![trigger r.0@[t]]
            0 <= t < r.0.len() ==> exists|j: int|
                j >= 0 && r.0@[t] == #[trigger] walk_secs(mi0 as int, k as int, j) && lo <= r.0@[t] <= hi && r.1@[t]@
                    == walk_label(mi0 + j * k, yearly),
        forall|j: int| j >= 0 && lo <= #[trigger] walk_secs(mi0 as int, k as int, j) <= hi ==> r.0@.contains(
            walk_secs(mi0 as int, k as int, j) as i64,
        ),
        forall|a: int, b: int| 0 <= a < b < r.0.len() ==> r.0@[a] < r.0@[b],
{
    let mut ticks: Vec<i64> = Vec::new();
    let mut labels: Vec<String> = Vec::new();
    let mut mi = mi0;
    let ghost mut j: int = 0;
    let mut ts = month_start(mi);
    while ts <= hi
        invariant
            1 <= k <= 0x10_0000_0000,
            MONTH_MIN <= mi0 <= MONTH_MAX,
            hi < month_secs(MONTH_MAX + 1 - k),
            j >= 0,
            mi == mi0 + j * k,
            MONTH_MIN <= mi <= MONTH_MAX,
            ts == walk_secs(mi0 as int, k as int, j),
            ticks.len() == labels.len(),
            forall|t: int|
                #![trigger ticks@[t]]
                0 <= t < ticks.len() ==> exists|jj: int|
                    0 <= jj < j && ticks@[t] == #[trigger] walk_secs(mi0 as int, k as int, jj) && lo <= ticks@[t] <= hi
                        && labels@[t]@ == walk_label(mi0 + jj * k, yearly),
            forall|jj: int|
                0 <= jj < j && lo <= #[trigger] walk_secs(mi0 as int, k as int, jj) <= hi ==> ticks@.contains(
                    walk_secs(mi0 as int, k as int, jj) as i64,
                ),
            forall|a: int, b: int| 0 <= a < b < ticks.len() ==> ticks@[a] < ticks@[b],
            forall|t: int| 0 <= t < ticks.len() ==> ticks@[t] < ts,
        decreases (if ts <= hi {
            hi - ts + 1
        } else {
            0
        }),
    {
        proof {
            lemma_month_secs_grow(mi as int, mi + k);
            if mi + k > MONTH_MAX {
                lemma_month_secs_grow(MONTH_MAX + 1 - k, mi as int);
            }
            assert(mi + k == mi0 + (j + 1) * k) by (nonlinear_arith)
                requires
                    mi == mi0 + j * k,
            ;
            assert(2419200 * k >= 1) by (nonlinear_arith)
                requires
                    k >= 1,
            ;
        }
        let ghost t0 = ticks@;
        let ghost l0 = labels@;
        if ts >= lo {
            let (y, m) = month_parts(mi);
            let label = if yearly {
                let mut s = String::new();
                push_padded(&mut s, y, 4);
                proof {
                    assert(s@ =~= padded(y as int, 4));
                }
                s
            } else {
                ym_string(y, m + 1)
            };
            ticks.push(ts);
            labels.push(label);
        }
        proof {
            let tsi = ts as int;
            assert forall|t: int|
                #![trigger ticks@[t]]
                0 <= t < ticks.len() implies exists|jj: int|
                    0 <= jj < j + 1 && ticks@[t] == #[trigger] walk_secs(mi0 as int, k as int, jj) && lo <= ticks@[t] <= hi
                        && labels@[t]@ == walk_label(mi0 + jj * k, yearly) by {
                if t < t0.len() {
                    assert(ticks@[t] == t0[t] && labels@[t] == l0[t]);
                    let jj = choose|jj: int|
                        0 <= jj < j && t0[t] == #[trigger] walk_secs(mi0 as int, k as int, jj) && lo <= t0[t] <= hi
                            && l0[t]@ == walk_label(mi0 + jj * k, yearly);
                } else {
                    assert(ticks@[t] == walk_secs(mi0 as int, k as int, j));
                }
            }
            assert forall|jj: int|
                0 <= jj < j + 1 && lo <= #[trigger] walk_secs(mi0 as int, k as int, jj) <= hi implies ticks@.contains(
                    walk_secs(mi0 as int, k as int, jj) as i64,
                ) by {
                if jj < j {
                    let t = choose|t: int| 0 <= t < t0.len() && t0[t] == walk_secs(mi0 as int, k as int, jj) as i64;
                    assert(ticks@[t] == t0[t]);
                } else {
                    assert(ticks@[ticks.len() - 1] == ts);
                }
            }
        }
        mi = mi + k;
        proof {
            j = j + 1;
        }
        ts = month_start(mi);
    }
    proof {
        assert forall|jj: int| jj >= 0 && lo <= #[trigger] walk_secs(mi0 as int, k as int, jj) <= hi implies ticks@.contains(
            walk_secs(mi0 as int, k as int, jj) as i64,
        ) by {
            if jj >= j {
                assert(mi0 + j * k <= mi0 + jj * k) by (nonlinear_arith)
                    requires
                        jj >= j,
                        k >= 1,
                ;
                lemma_month_secs_grow(mi0 + j * k, mi0 + jj * k);
            }
        }
    }
    (ticks, labels)
}

/// The label of a tick at `ts` on a fixed step of `step` seconds, `prev`
/// the year of the tick before it (none for the first). A day-grain step
/// shows `YYYY-MM-DD` on the first tick and wherever the year changes,
/// `MM-DD` elsewhere; a finer step shows `MM-DD` at midnight, and otherwise
/// `HH:MM:SS` under a minute's step and `HH:MM` from a minute up.
pub open spec fn step_label(ts: int, step: int, prev: Option<int>) -> Seq<char> {
    let (y, m, d, sod) = secs_civil(ts);
    if step >= 86400 {
        if prev == Some(y) {
            md_text(m, d)
        } else {
            ymd_text(y, m, d)
        }
    } else if sod == 0 {
        md_text(m, d)
    } else if step < 60 {
        hms_text(sod)
    } else {
        hm_text(sod)
    }
}

/// The year of the tick before tick `j` of a walk from index `i0` in steps
/// of `step` seconds; none before the first.
pub open spec fn prev_year(i0: int, step: int, j: int) -> Option<int> {
    if j <= 0 {
        None
    } else {
        Some(secs_civil((i0 + j - 1) * step).0)
    }
}

/// The label of the tick at `ts` (see [`step_label`]), and its year.
fn tick_label(ts: i64, step: i64, prev: Option<i32>) -> (r: (String, i32))
    ensures
        r.0@ == step_label(
            ts as int,
            step as int,
            match prev {
                Some(p) => Some(p as int),
                None => None,
            },
        ),
        r.1 as int == secs_civil(ts as int).0,
{
    let (y, m, d, sod) = civil_of_seconds(ts);
    let label = if step >= 86400 {
        let same = match prev {
            Some(p) => p == y,
            None => false,
        };
        if same {
            md_string(m as i64, d as i64)
        } else {
            ymd_string(y as i64, m as i64, d as i64)
        }
    } else if sod == 0 {
        md_string(m as i64, d as i64)
    } else if step < 60 {
        hms_string(sod)
    } else {
        hm_string(sod)
    };
    (label, y)
}

/// Fixed-step time ticks: one at every multiple `i * step` seconds for `i`
/// from `i0` to `i1`, labelled by [`step_label`].
pub fn step_ticks(i0: i64, i1: i64, step: i64) -> (r: (Vec<i64>, Vec<String>))
    requires
        step >= 1,
        i0 <= i1 ==> i64::MIN <= i0 * step && i1 * step <= i64::MAX,
        i1 < i64::MAX,
    ensures
        r.0.len() == r.1.len(),
        r.0.len() == (if i0 <= i1 {
            i1 - i0 + 1
        } else {
            0
        }),
        forall|j: int| 0 <= j < r.0.len() ==> #[trigger] r.0@[j] == (i0 + j) * step,
        forall|j: int|
            0 <= j < r.1.len() ==> #[trigger] r.1@[j]@ == step_label((i0 + j) * step, step as int, prev_year(i0 as int, step as int, j)),
{
    let mut ticks: Vec<i64> = Vec::new();
    let mut labels: Vec<String> = Vec::new();
    let mut prev: Option<i32> = None;
    let mut i = i0;
    while i <= i1
        invariant
            step >= 1,
            i0 <= i1 ==> i64::MIN <= i0 * step && i1 * step <= i64::MAX,
            i1 < i64::MAX,
            i0 <= i,
            i0 <= i1 ==> i <= i1 + 1,
            ticks.len() == i - i0,
            labels.len() == i - i0,
            forall|j: int| 0 <= j < ticks.len() ==> #[trigger] ticks@[j] == (i0 + j) * step,
            forall|j: int|
                0 <= j < labels.len() ==> #[trigger] labels@[j]@ == step_label(
                    (i0 + j) * step,
                    step as int,
                    prev_year(i0 as int, step as int, j),
                ),
            prev matches Some(p) ==> prev_year(i0 as int, step as int, i - i0) == Some(p as int),
            prev is None ==> i == i0,
            i0 > i1 ==> i == i0,
        decreases i1 + 1 - i,
    {
        proof {
            assert(i0 * step <= i * step <= i1 * step) by (nonlinear_arith)
                requires
                    i0 <= i <= i1,
                    step >= 1,
            ;
        }
        let ts = i * step;
        let (label, y) = tick_label(ts, step, prev);
        proof {
            let j = i - i0;
            assert(i == i0 + j);
            assert(prev_year(i0 as int, step as int, j) == (match prev {
                Some(p) => Some(p as int),
                None => None,
            }));
        }
        prev = Some(y);
        let ghost t0 = ticks@;
        let ghost l0 = labels@;
        ticks.push(ts);
        labels.push(label);
        proof {
            assert forall|j: int|
                0 <= j < ticks.len() implies #[trigger] ticks@[j] == (i0 + j) * step && labels@[j]@ == step_label(
                    (i0 + j) * step,
                    step as int,
                    prev_year(i0 as int, step as int, j),
                ) by {
                if j < t0.len() {
                    assert(ticks@[j] == t0[j] && labels@[j] == l0[j]);
                    assert(l0[j]@ == step_label((i0 + j) * step, step as int, prev_year(i0 as int, step as int, j)));
                    assert(t0[j] == (i0 + j) * step);
                } else {
                    assert(j == i - i0);
                    assert(ticks@[j] == ts && labels@[j] == label);
                    assert((i0 + j) * step == ts) by (nonlinear_arith)
                        requires
                            j == i - i0,
                            ts == i * step,
                    ;
                }
            }
            assert(prev_year(i0 as int, step as int, i + 1 - i0) == Some(secs_civil((i0 + (i - i0)) * step).0));
        }
        i = i + 1;
    }
    (ticks, labels)
}

} // verus!
