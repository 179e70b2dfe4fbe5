//! UTC calendar conversions for the Winlink `Date:` header
//! (`YYYY/MM/DD HH:MM`), without pulling in a date library.

use vstd::arithmetic::div_mod::{lemma_hoist_over_denominator, lemma_mod_multiples_vanish};
use vstd::prelude::*;

use crate::text;
use crate::text::Class;

pub mod laws;

verus! {

pub open spec fn is_leap(y: int) -> bool {
    y % 4 == 0 && (y % 100 != 0 || y % 400 == 0)
}

pub open spec fn month_days(y: int, m: int) -> int {
    if m == 2 {
        if is_leap(y) {
            29
        } else {
            28
        }
    } else if m == 4 || m == 6 || m == 9 || m == 11 {
        30
    } else {
        31
    }
}

/// Days in the months before month `m` of year `y`.
pub open spec fn days_before_month(y: int, m: int) -> int
    decreases m,
{
    if m <= 1 {
        0
    } else {
        days_before_month(y, m - 1) + month_days(y, m - 1)
    }
}

/// Days from the start of year 0 to the start of year `y`, in the proleptic
/// Gregorian calendar: 365 a year, and one for each leap year in between.
pub open spec fn days_before_year(y: int) -> int {
    365 * y + (y + 3) / 4 - (y + 99) / 100 + (y + 399) / 400
}

/// Days since 1970-01-01.
pub open spec fn day_number(y: int, m: int, d: int) -> int {
    days_before_year(y) + days_before_month(y, m) + d - 1 - 719_528
}

/// A date: year, month, day.
pub struct Civil {
    pub y: int,
    pub m: int,
    pub d: int,
}

pub open spec fn is_date(c: Civil) -> bool {
    1 <= c.m <= 12 && 1 <= c.d <= month_days(c.y, c.m)
}

/// The date of day `z` since 1970-01-01.
pub open spec fn civil(z: int) -> Civil {
    choose|c: Civil| is_date(c) && #[trigger] day_number(c.y, c.m, c.d) == z
}

proof fn lemma_months(y: int, m: int)
    requires
        1 <= m <= 13,
    ensures
        days_before_month(y, m) == (if m <= 2 {
            (m - 1) * 31
        } else {
            (153 * (m - 3) + 2) / 5 + 59 + (if is_leap(y) {
                1int
            } else {
                0
            })
        }),
{
    reveal_with_fuel(days_before_month, 14);
}

/// A year is 365 days, or 366.
proof fn lemma_year(y: int)
    ensures
        days_before_year(y + 1) == days_before_year(y) + 365 + (if is_leap(y) {
            1int
        } else {
            0
        }),
        days_before_year(y + 1) == days_before_year(y) + days_before_month(y, 13),
{
    lemma_months(y, 13);
    assert((y + 1 + 3) / 4 == (y + 3) / 4 + (if y % 4 == 0 {
        1int
    } else {
        0
    }));
    assert((y + 1 + 99) / 100 == (y + 99) / 100 + (if y % 100 == 0 {
        1int
    } else {
        0
    }));
    assert((y + 1 + 399) / 400 == (y + 399) / 400 + (if y % 400 == 0 {
        1int
    } else {
        0
    }));
    assert(y % 400 == 0 ==> y % 100 == 0);
    assert(y % 100 == 0 ==> y % 4 == 0);
}

proof fn lemma_years(a: int, b: int)
    requires
        a < b,
    ensures
        days_before_year(a + 1) <= days_before_year(b),
    decreases b - a,
{
    if a + 1 < b {
        lemma_years(a, b - 1);
        lemma_year(b - 1);
    }
}

proof fn lemma_month_order(y: int, a: int, b: int)
    requires
        1 <= a < b,
    ensures
        days_before_month(y, a + 1) <= days_before_month(y, b),
    decreases b - a,
{
    if a + 1 < b {
        lemma_month_order(y, a, b - 1);
    }
}

/// Later dates have higher numbers.
proof fn lemma_date_order(a: Civil, b: Civil)
    requires
        is_date(a),
        is_date(b),
        a.y < b.y || a.y == b.y && (a.m < b.m || a.m == b.m && a.d < b.d),
    ensures
        day_number(a.y, a.m, a.d) < day_number(b.y, b.m, b.d),
{
    if a.y < b.y {
        lemma_years(a.y, b.y);
        lemma_year(a.y);
        lemma_months(a.y, 13);
        if a.m < 12 {
            lemma_month_order(a.y, a.m, 13);
        }
        lemma_months(a.y, a.m);
        lemma_months(b.y, b.m);
    } else if a.m < b.m {
        lemma_month_order(a.y, a.m, b.m);
    }
}

/// No two dates have the same number.
pub proof fn lemma_civil_unique(c: Civil)
    requires
        is_date(c),
    ensures
        civil(day_number(c.y, c.m, c.d)) == c,
{
    let o = civil(day_number(c.y, c.m, c.d));
    assert(is_date(c) && day_number(c.y, c.m, c.d) == day_number(c.y, c.m, c.d));
    assert(is_date(o) && day_number(o.y, o.m, o.d) == day_number(c.y, c.m, c.d));
    if o.y < c.y || o.y == c.y && (o.m < c.m || o.m == c.m && o.d < c.d) {
        lemma_date_order(o, c);
    } else if o != c {
        lemma_date_order(c, o);
    }
}

// A quotient rounded up is one more than that rounded down, unless it is
// exact.

#[verifier::spinoff_prover]
proof fn lemma_up_4(y: int)
    ensures
        (y + 3) / 4 == (y - 1) / 4 + 1,
        (y + 3) / 4 == y / 4 + (if y % 4 == 0 {
            0int
        } else {
            1
        }),
{
}

#[verifier::spinoff_prover]
proof fn lemma_up_100(y: int)
    ensures
        (y + 99) / 100 == (y - 1) / 100 + 1,
        (y + 99) / 100 == y / 100 + (if y % 100 == 0 {
            0int
        } else {
            1
        }),
{
}

#[verifier::spinoff_prover]
proof fn lemma_up_400(y: int)
    ensures
        (y + 399) / 400 == (y - 1) / 400 + 1,
        (y + 399) / 400 == y / 400 + (if y % 400 == 0 {
            0int
        } else {
            1
        }),
{
}

#[verifier::spinoff_prover]
proof fn lemma_multiples(y: int)
    ensures
        y % 400 == 0 ==> y % 100 == 0,
        y % 100 == 0 ==> y % 4 == 0,
{
}

/// The leap years before a year, counted up to it and up to the one before.
#[verifier::spinoff_prover]
proof fn lemma_leap_count(y: int)
    ensures
        days_before_year(y) == 365 * y + (y - 1) / 4 - (y - 1) / 100 + (y - 1) / 400 + 1,
        days_before_year(y) == 365 * y + y / 4 - y / 100 + y / 400 + (if is_leap(y) {
            0int
        } else {
            1
        }),
{
    let (a, b, c) = ((y + 3) / 4, (y + 99) / 100, (y + 399) / 400);
    assert(a == (y - 1) / 4 + 1 && (y % 4 == 0 ==> a == y / 4) && (y % 4 != 0 ==> a == y / 4 + 1))
        by {
        lemma_up_4(y);
    }
    assert(b == (y - 1) / 100 + 1 && (y % 100 == 0 ==> b == y / 100) && (y % 100 != 0 ==> b == y
        / 100 + 1)) by {
        lemma_up_100(y);
    }
    assert(c == (y - 1) / 400 + 1 && (y % 400 == 0 ==> c == y / 400) && (y % 400 != 0 ==> c == y
        / 400 + 1)) by {
        lemma_up_400(y);
    }
    lemma_multiples(y);
}

/// Counting years from March, the leap day comes last.
#[verifier::spinoff_prover]
proof fn lemma_march(y: int, m: int, d: int)
    requires
        1 <= m <= 12,
    ensures
        ({
            let y1 = if m <= 2 {
                y - 1
            } else {
                y
            };
            let mp = (m + 9) % 12;
            day_number(y, m, d) == 365 * y1 + y1 / 4 - y1 / 100 + y1 / 400 + (153 * mp + 2) / 5 + d
                - 1 - 719_468
        }),
{
    lemma_months(y, m);
    lemma_leap_count(y);
}

/// The years of an era of 400.
proof fn lemma_era(y: int)
    ensures
        ({
            let era = y / 400;
            let yoe = y - era * 400;
            365 * y + y / 4 - y / 100 + y / 400 == era * 146_097 + yoe * 365 + yoe / 4 - yoe / 100
        }),
{
    let era = y / 400;
    let yoe = y - era * 400;
    assert(y / 4 == era * 100 + yoe / 4);
    assert(y / 100 == era * 4 + yoe / 100);
}

/// Quotient rounded down, and remainder.
fn floor_div(a: i64, b: i64) -> (r: (i64, i64))
    requires
        1 < b <= 1_000_000,
    ensures
        r.0 == a as int / b as int,
        r.1 == a as int % b as int,
        a == r.0 * b + r.1,
        0 <= r.1 < b,
        -0x8000_0000_0000_0000 <= r.0 * 2 + 1 <= 0x8000_0000_0000_0000,
{
    let r: (i64, i64) = if a >= 0 {
        (a / b, a % b)
    } else {
        let n: i64 = -(a + 1);
        (-(n / b) - 1, b - 1 - n % b)
    };
    proof {
        let (q, m) = (r.0 as int, r.1 as int);
        let bb = b as int;
        if a < 0 {
            let n = -(a + 1) as int;
            vstd::arithmetic::div_mod::lemma_fundamental_div_mod(n, bb);
            assert(a == q * bb + m) by (nonlinear_arith)
                requires
                    n == -(a + 1),
                    n == bb * (n / bb) + n % bb,
                    q == -(n / bb) - 1,
                    m == bb - 1 - n % bb,
            ;
            vstd::arithmetic::div_mod::lemma_fundamental_div_mod_converse(a as int, bb, q, m);
        } else {
            vstd::arithmetic::div_mod::lemma_fundamental_div_mod(a as int, bb);
            assert(bb * q == q * bb) by (nonlinear_arith);
        }
        assert(-0x8000_0000_0000_0000 <= q * 2 + 1 <= 0x8000_0000_0000_0000) by (nonlinear_arith)
            requires
                a == q * bb + m,
                0 <= m < bb,
                bb >= 2,
                -0x8000_0000_0000_0000 <= a <= 0x7fff_ffff_ffff_ffff,
        ;
    }
    r
}

/// Days since 1970-01-01 for a proleptic Gregorian date.
pub fn days_from_civil(y: i64, m: i64, d: i64) -> (r: i64)
    requires
        1 <= m <= 12,
        1 <= d <= 31,
        -300_000_000_000 <= y <= 300_000_000_000,
    ensures
        r == day_number(y as int, m as int, d as int),
        -110_000_000_000_000 <= r <= 110_000_000_000_000,
{
    let y1: i64 = if m <= 2 {
        y - 1
    } else {
        y
    };
    let (era, yoe) = floor_div(y1, 400);
    let mp: i64 = (m + 9) % 12;
    let doy: i64 = (153 * mp + 2) / 5 + d - 1;
    let doe: i64 = yoe * 365 + yoe / 4 - yoe / 100 + doy;
    proof {
        lemma_march(y as int, m as int, d as int);
        lemma_era(y1 as int);
    }
    era * 146_097 + doe - 719_468
}

/// The year of the era that day `doe` of it lies in, counted from March.
proof fn lemma_year_of_era(doe: int)
    requires
        0 <= doe < 146_097,
    ensures
        ({
            let yoe = (doe - doe / 1460 + doe / 36_524 - doe / 146_096) / 365;
            &&& 0 <= yoe < 400
            &&& 365 * yoe + yoe / 4 - yoe / 100 <= doe
            &&& doe <= 365 * yoe + yoe / 4 - yoe / 100 + 365
            &&& doe == 365 * yoe + yoe / 4 - yoe / 100 + 365 ==> is_leap(yoe + 1)
        }),
{
}

/// Month and day of day `doy` of a year counted from March.
proof fn lemma_month_of_year(doy: int)
    requires
        0 <= doy <= 365,
    ensures
        ({
            let mp = (5 * doy + 2) / 153;
            let d = doy - (153 * mp + 2) / 5 + 1;
            &&& 0 <= mp <= 11
            &&& 1 <= d
            &&& mp == 0 || mp == 2 || mp == 4 || mp == 5 || mp == 7 || mp == 9 || mp == 10 ==> d <= 31
            &&& mp == 1 || mp == 3 || mp == 6 || mp == 8 ==> d <= 30
            &&& mp == 11 ==> d <= 29 && (d == 29 ==> doy == 365)
        }),
{
}

/// From era, year of the era, month and day counted from March to a date.
proof fn lemma_from_march(era: int, yoe: int, mp: int, d: int)
    requires
        0 <= yoe < 400,
        0 <= mp <= 11,
    ensures
        ({
            let m = if mp < 10 {
                mp + 3
            } else {
                mp - 9
            };
            let y = yoe + era * 400 + (if m <= 2 {
                1int
            } else {
                0
            });
            day_number(y, m, d) == era * 146_097 + 365 * yoe + yoe / 4 - yoe / 100 + (153 * mp + 2)
                / 5 + d - 1 - 719_468
        }),
{
    let y1 = yoe + era * 400;
    let m = if mp < 10 {
        mp + 3
    } else {
        mp - 9
    };
    let y = y1 + (if m <= 2 {
        1int
    } else {
        0
    });
    assert((m + 9) % 12 == mp);
    assert(y1 / 400 == era);
    lemma_era(y1);
    lemma_march(y, m, d);
}

proof fn lemma_is_leap_era(era: int, yoe: int)
    ensures
        is_leap(yoe + era * 400 + 1) == is_leap(yoe + 1),
{
    lemma_mod_multiples_vanish(era * 100, yoe + 1, 4);
    lemma_mod_multiples_vanish(era * 4, yoe + 1, 100);
    lemma_mod_multiples_vanish(era, yoe + 1, 400);
}

pub fn civil_from_days(z: i64) -> (r: (i64, i64, i64))
    requires
        -110_000_000_000_000 <= z <= 110_000_000_000_000,
    ensures
        civil(z as int) == (Civil { y: r.0 as int, m: r.1 as int, d: r.2 as int }),
        is_date(Civil { y: r.0 as int, m: r.1 as int, d: r.2 as int }),
        -400_000_000_000 <= r.0 <= 400_000_000_000,
        day_number(r.0 as int, r.1 as int, r.2 as int) == z,
{
    let z1: i64 = z + 719_468;
    let (era, doe) = floor_div(z1, 146_097);
    let yoe: i64 = (doe - doe / 1460 + doe / 36_524 - doe / 146_096) / 365;
    proof {
        lemma_year_of_era(doe as int);
    }
    let doy: i64 = doe - (365 * yoe + yoe / 4 - yoe / 100);
    proof {
        lemma_month_of_year(doy as int);
    }
    let mp: i64 = (5 * doy + 2) / 153;
    let d: i64 = doy - (153 * mp + 2) / 5 + 1;
    let m: i64 = if mp < 10 {
        mp + 3
    } else {
        mp - 9
    };
    let y: i64 = yoe + era * 400 + if m <= 2 {
        1
    } else {
        0
    };
    proof {
        lemma_from_march(era as int, yoe as int, mp as int, d as int);
        lemma_is_leap_era(era as int, yoe as int);
        assert(day_number(y as int, m as int, d as int) == z);
        assert(is_date(Civil { y: y as int, m: m as int, d: d as int }));
        lemma_civil_unique(Civil { y: y as int, m: m as int, d: d as int });
    }
    (y, m, d)
}

// ---------------------------------------------------------------------
// Text

/// A number with its sign, filled up with zeros to `width`.
pub open spec fn signed_fill(n: int, width: nat) -> Seq<char> {
    if n < 0 {
        "-"@ + text::zero_fill(text::decimal((-n) as nat), (width - 1) as nat)
    } else {
        text::zero_fill(text::decimal(n as nat), width)
    }
}

fn push_signed(out: &mut String, n: i64, width: usize)
    requires
        n > i64::MIN,
        width >= 1,
    ensures
        final(out)@ == old(out)@ + signed_fill(n as int, width as nat),
{
    if n < 0 {
        let digits = text::decimal_chars((-n) as u64);
        out.append("-");
        out.append(&text::string(&text::zero_filled(&digits, width - 1)));
        assert(out@ =~= old(out)@ + signed_fill(n as int, width as nat));
    } else {
        let digits = text::decimal_chars(n as u64);
        out.append(&text::string(&text::zero_filled(&digits, width)));
    }
}

/// `YYYY/MM/DD HH:MM`.
pub open spec fn date_text(c: Civil, hour: int, minute: int) -> Seq<char> {
    signed_fill(c.y, 4) + "/"@ + signed_fill(c.m, 2) + "/"@ + signed_fill(c.d, 2) + " "@
        + signed_fill(hour, 2) + ":"@ + signed_fill(minute, 2)
}

/// The text of a time in Unix seconds, in UTC, seconds left off.
pub open spec fn formatted(unix_secs: int) -> Seq<char> {
    let secs = unix_secs % 86_400;
    date_text(civil(unix_secs / 86_400), secs / 3600, secs / 60 % 60)
}

/// `YYYY/MM/DD HH:MM` in UTC.
pub fn format(unix_secs: i64) -> (r: String)
    ensures
        r@ == formatted(unix_secs as int),
{
    let (day, secs) = floor_div(unix_secs, 86_400);
    let (y, m, d) = civil_from_days(day);
    let mut out = String::new();
    push_signed(&mut out, y, 4);
    assert(out@ =~= signed_fill(y as int, 4));
    out.append("/");
    push_signed(&mut out, m, 2);
    out.append("/");
    push_signed(&mut out, d, 2);
    out.append(" ");
    push_signed(&mut out, secs / 3600, 2);
    out.append(":");
    push_signed(&mut out, secs / 60 % 60, 2);
    out
}

/// The first two characters, if there are more.
pub open spec fn first_two(s: Seq<char>) -> Seq<char> {
    if s.len() > 2 {
        s.take(2)
    } else {
        s
    }
}

/// The parts of a date: year, month and day between separators (what follows
/// them is left out), hour, and minute (what follows its two digits is left
/// out).
pub open spec fn date_parts(s: Seq<char>) -> Option<(Seq<char>, Seq<char>, Seq<char>, Seq<char>, Seq<char>)> {
    match text::split_once(text::trim(s), Class::One(' ')) {
        Some((date, time)) => {
            let parts = text::split(date, Class::Three('/', '.', '-'));
            match text::split_once(text::trim(time), Class::One(':')) {
                Some((hh, mm)) => if parts.len() >= 3 {
                    Some((parts[0], parts[1], parts[2], hh, first_two(mm)))
                } else {
                    None
                },
                None => None,
            }
        },
        None => None,
    }
}

/// The Unix seconds that a date text means, if it is one and they fit.
pub open spec fn parsed(s: Seq<char>) -> Option<int> {
    match date_parts(s) {
        Some((y, m, d, hh, mm)) => match (
            text::parse_signed(y),
            text::parse_signed(m),
            text::parse_signed(d),
            text::parse_signed(hh),
            text::parse_signed(mm),
        ) {
            (Some(y), Some(m), Some(d), Some(hh), Some(mm)) => {
                let t = day_number(y, m, d) * 86_400 + hh * 3600 + mm * 60;
                if 1 <= m <= 12 && 1 <= d <= 31 && 0 <= hh <= 23 && 0 <= mm <= 59 && i64::MIN <= t
                    <= i64::MAX {
                    Some(t)
                } else {
                    None
                }
            },
            _ => None,
        },
        None => None,
    }
}

/// Parses `YYYY/MM/DD HH:MM` (also `.` or `-` as date separators, as some
/// gateways send) into Unix seconds. A time that does not fit is no time.
pub fn parse(s: &str) -> (r: Option<i64>)
    ensures
        r is Some <==> parsed(s@) is Some,
        r matches Some(t) ==> parsed(s@) == Some(t as int),
{
    let all = text::chars(s);
    let (date, time) = match text::split_in_two(text::trimmed(&all), Class::One(' ')) {
        Some(p) => p,
        None => {
            return None;
        },
    };
    let parts = text::pieces(date, Class::Three('/', '.', '-'));
    let (hh, mm) = match text::split_in_two(text::trimmed(time), Class::One(':')) {
        Some(p) => p,
        None => {
            return None;
        },
    };
    if parts.len() < 3 {
        return None;
    }
    let mm2 = if mm.len() > 2 {
        &mm[0..2]
    } else {
        mm
    };
    proof {
        assert(text::views(parts@)[0] == parts@[0]@);
        assert(text::views(parts@)[1] == parts@[1]@);
        assert(text::views(parts@)[2] == parts@[2]@);
        assert(mm2@ =~= first_two(mm@));
    }
    let y: i64 = match text::signed(&parts[0]) {
        Some(v) => v,
        None => {
            return None;
        },
    };
    let m: i64 = match text::signed(&parts[1]) {
        Some(v) => v,
        None => {
            return None;
        },
    };
    let d: i64 = match text::signed(&parts[2]) {
        Some(v) => v,
        None => {
            return None;
        },
    };
    let hour: i64 = match text::signed(hh) {
        Some(v) => v,
        None => {
            return None;
        },
    };
    let minute: i64 = match text::signed(mm2) {
        Some(v) => v,
        None => {
            return None;
        },
    };
    if m < 1 || m > 12 || d < 1 || d > 31 || hour < 0 || hour > 23 || minute < 0 || minute > 59 {
        return None;
    }
    let t: i128 = days_wide(y, m, d) * 86_400 + (hour as i128) * 3600 + (minute as i128) * 60;
    if t < i64::MIN as i128 || t > i64::MAX as i128 {
        None
    } else {
        Some(t as i64)
    }
}

/// The calendar repeats every 400 years.
#[verifier::spinoff_prover]
proof fn lemma_eras(b: int, e: int, m: int)
    requires
        1 <= m <= 12,
    ensures
        days_before_year(b + 400 * e) == days_before_year(b) + 146_097 * e,
        days_before_month(b + 400 * e, m) == days_before_month(b, m),
{
    let y = b + 400 * e;
    lemma_hoist_over_denominator(b + 3, 100 * e, 4);
    lemma_hoist_over_denominator(b + 99, 4 * e, 100);
    lemma_hoist_over_denominator(b + 399, e, 400);
    lemma_is_leap_era(e, b - 1);
    lemma_months(y, m);
    lemma_months(b, m);
}

/// Days since 1970-01-01, for any year.
#[verifier::spinoff_prover]
fn days_wide(y: i64, m: i64, d: i64) -> (r: i128)
    requires
        1 <= m <= 12,
        1 <= d <= 31,
    ensures
        r == day_number(y as int, m as int, d as int),
        -4_000_000_000_000_000_000_000 <= r <= 4_000_000_000_000_000_000_000,
{
    let back: i64 = y % 400;
    let eras: i64 = y / 400;
    let r: i128 = days_from_civil(back, m, d) as i128 + (eras as i128) * 146_097;
    proof {
        lemma_eras(back as int, eras as int, m as int);
        lemma_months(y as int, m as int);
        lemma_months(back as int, m as int);
    }
    r
}

/// The text of a date with another character in place of every slash.
pub open spec fn separated(s: Seq<char>, sep: char) -> Seq<char> {
    Seq::new(
        s.len(),
        |i: int|
            if s[i] == '/' {
                sep
            } else {
                s[i]
            },
    )
}

/// A date text is read back part by part.
#[verifier::spinoff_prover]
#[verifier::rlimit(40)]
proof fn lemma_date_text_parts(c: Civil, hour: int, minute: int, sep: char)
    requires
        sep == '/' || sep == '.' || sep == '-',
        is_date(c),
        c.y >= 0,
        0 <= hour < 24,
        0 <= minute < 60,
    ensures
        date_parts(separated(date_text(c, hour, minute), sep)) == Some(
            (
                signed_fill(c.y, 4),
                signed_fill(c.m, 2),
                signed_fill(c.d, 2),
                signed_fill(hour, 2),
                signed_fill(minute, 2),
            ),
        ),
{
    reveal_strlit("/");
    reveal_strlit(" ");
    reveal_strlit(":");
    let (y, m, d, h, n) = (
        signed_fill(c.y, 4),
        signed_fill(c.m, 2),
        signed_fill(c.d, 2),
        signed_fill(hour, 2),
        signed_fill(minute, 2),
    );
    text::lemma_zero_fill(c.y as nat, 4);
    text::lemma_zero_fill(c.m as nat, 2);
    text::lemma_zero_fill(c.d as nat, 2);
    text::lemma_zero_fill(hour as nat, 2);
    text::lemma_zero_fill(minute as nat, 2);
    text::lemma_two_digits(minute as nat);
    let k = Class::Three('/', '.', '-');
    let all = separated(date_text(c, hour, minute), sep);
    let date = y + seq![sep] + (m + seq![sep] + d);
    let time = h + seq![':'] + n;
    assert(all =~= date + seq![' '] + time);
    text::lemma_trim_id(all, Class::Space);
    text::lemma_trim_id(time, Class::Space);
    assert(text::free_of(date, Class::One(' ')));
    text::lemma_split_at(date, ' ', time, Class::One(' '));
    text::lemma_split_at(y, sep, m + seq![sep] + d, k);
    text::lemma_split_at(m, sep, d, k);
    text::lemma_free_of_first(d, k);
    assert(text::split(date, k) =~= seq![y, m, d]);
    text::lemma_split_at(h, ':', n, Class::One(':'));
}

/// There is a date for every day.
pub proof fn lemma_civil(z: int)
    ensures
        is_date(civil(z)),
        day_number(civil(z).y, civil(z).m, civil(z).d) == z,
{
    let era = (z + 719_468) / 146_097;
    let doe = (z + 719_468) % 146_097;
    lemma_year_of_era(doe);
    let yoe = (doe - doe / 1460 + doe / 36_524 - doe / 146_096) / 365;
    let doy = doe - (365 * yoe + yoe / 4 - yoe / 100);
    lemma_month_of_year(doy);
    let mp = (5 * doy + 2) / 153;
    let d = doy - (153 * mp + 2) / 5 + 1;
    let m = if mp < 10 {
        mp + 3
    } else {
        mp - 9
    };
    let y = yoe + era * 400 + (if m <= 2 {
        1int
    } else {
        0
    });
    lemma_from_march(era, yoe, mp, d);
    lemma_is_leap_era(era, yoe);
    let c = Civil { y, m, d };
    assert(is_date(c));
    assert(day_number(c.y, c.m, c.d) == z);
    lemma_civil_unique(c);
}

/// A number is read back from its digits.
proof fn lemma_fill_read(n: int, width: nat)
    requires
        0 <= n <= i64::MAX,
        width >= 1,
    ensures
        text::parse_signed(signed_fill(n, width)) == Some(n),
{
    text::lemma_zero_fill(n as nat, width);
}

/// Days, hours and minutes are the time to the minute.
#[verifier::spinoff_prover]
proof fn lemma_to_the_minute(t: int)
    ensures
        ({
            let secs = t % 86_400;
            t / 86_400 * 86_400 + secs / 3600 * 3600 + secs / 60 % 60 * 60 == t - t % 60
        }),
{
    let z = t / 86_400;
    let secs = t % 86_400;
    let hour = secs / 3600;
    let minute = secs / 60 % 60;
    assert(t == z * 86_400 + secs);
    assert(secs - secs % 60 == hour * 3600 + minute * 60);
    assert(t % 60 == secs % 60);
}

/// The dates of representable times have representable years; those from
/// year 0 on are not far before the epoch.
#[verifier::spinoff_prover]
proof fn lemma_year_range(z: int)
    requires
        -0x8000_0000_0000_0000 <= z * 86_400 + 86_399,
        z * 86_400 <= 0x7fff_ffff_ffff_ffff,
    ensures
        civil(z).y <= 0x7fff_ffff_ffff_ffff,
        civil(z).y >= 0 ==> z >= -719_528,
{
    lemma_civil(z);
    lemma_months(civil(z).y, civil(z).m);
}

/// A time is read back from its text, to the minute, from year 0 on.
pub proof fn law_date_roundtrip(t: int)
    requires
        i64::MIN <= t <= i64::MAX,
        civil(t / 86_400).y >= 0,
    ensures
        parsed(formatted(t)) == Some(t - t % 60),
{
    law_date_separators(t, '/');
    assert(separated(formatted(t), '/') =~= formatted(t));
}

/// The same time is read where the date has full stops or dashes for its
/// slashes.
pub proof fn law_date_separators(t: int, sep: char)
    requires
        i64::MIN <= t <= i64::MAX,
        civil(t / 86_400).y >= 0,
        sep == '/' || sep == '.' || sep == '-',
    ensures
        parsed(separated(formatted(t), sep)) == Some(t - t % 60),
{
    let z = t / 86_400;
    let secs = t % 86_400;
    let c = civil(z);
    let hour = secs / 3600;
    let minute = secs / 60 % 60;
    lemma_civil(z);
    lemma_date_text_parts(c, hour, minute, sep);
    lemma_year_range(z);
    lemma_to_the_minute(t);
    lemma_fill_read(c.y, 4);
    lemma_fill_read(c.m, 2);
    lemma_fill_read(c.d, 2);
    lemma_fill_read(hour, 2);
    lemma_fill_read(minute, 2);
}

/// The text of a time takes one line.
pub proof fn lemma_formatted_plain(t: int)
    ensures
        text::free_of(formatted(t), Class::One('\n')),
{
    reveal_strlit("/");
    reveal_strlit(" ");
    reveal_strlit(":");
    let c = civil(t / 86_400);
    let secs = t % 86_400;
    lemma_signed_fill(c.y, 4);
    lemma_signed_fill(c.m, 2);
    lemma_signed_fill(c.d, 2);
    lemma_signed_fill(secs / 3600, 2);
    lemma_signed_fill(secs / 60 % 60, 2);
}

proof fn lemma_signed_fill(n: int, width: nat)
    requires
        width >= 1,
    ensures
        text::free_of(signed_fill(n, width), Class::One('\n')),
{
    reveal_strlit("-");
    if n < 0 {
        text::lemma_zero_fill((-n) as nat, (width - 1) as nat);
    } else {
        text::lemma_zero_fill(n as nat, width);
    }
}

} // verus!
