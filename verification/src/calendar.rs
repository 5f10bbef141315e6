//! Days and dates of the Gregorian calendar.

use crate::text::{chars_of, decimal, digits, law_digits, number_shown};
use vstd::arithmetic::div_mod::lemma_mod_multiples_vanish;
use vstd::prelude::*;

verus! {

/// Whether a year has a 29 February.
pub open spec fn leap(y: int) -> bool {
    y % 4 == 0 && (y % 100 != 0 || y % 400 == 0)
}

/// How many days a month has.
pub open spec fn month_length(y: int, m: int) -> int {
    if m == 2 {
        if leap(y) {
            29
        } else {
            28
        }
    } else if m == 4 || m == 6 || m == 9 || m == 11 {
        30
    } else {
        31
    }
}

/// How many days of a year come before its month `m`.
pub open spec fn days_before_month(y: int, m: int) -> int
    decreases m,
{
    if m <= 1 {
        0
    } else {
        days_before_month(y, m - 1) + month_length(y, m - 1)
    }
}

/// How many days come before the year `y`, from the start of the year 1.
pub open spec fn days_before_year(y: int) -> int {
    365 * (y - 1) + (y - 1) / 4 - (y - 1) / 100 + (y - 1) / 400
}

/// Whether there is such a date.
pub open spec fn is_date(y: int, m: int, d: int) -> bool {
    1 <= m <= 12 && 1 <= d <= month_length(y, m)
}

/// How many days a date lies after 1 January 1970.
pub open spec fn day_number(y: int, m: int, d: int) -> int {
    days_before_year(y) - days_before_year(1970) + days_before_month(y, m) + d - 1
}

proof fn lemma_months_of_year(y: int)
    ensures
        days_before_month(y, 13) == (if leap(y) {
            366int
        } else {
            365
        }),
{
    reveal_with_fuel(days_before_month, 14);
}

proof fn lemma_step(y: int, n: int)
    requires
        n > 1,
    ensures
        y / n - (y - 1) / n == (if y % n == 0 {
            1int
        } else {
            0
        }),
{
    assert(y / n - (y - 1) / n == (if y % n == 0 {
        1int
    } else {
        0
    })) by (nonlinear_arith)
        requires
            n > 1,
    ;
}

/// Whether a date is the day that lies `days` after 1 January 1970.
pub open spec fn falls_on(y: i64, m: u32, d: u32, days: int) -> bool {
    is_date(y as int, m as int, d as int) && day_number(y as int, m as int, d as int) == days
}

/// As `falls_on`, for a year of which only the low 32 bits are known.
pub open spec fn ends_on(low: i32, m: u32, d: u32, days: int) -> bool {
    exists|y: i64| #[trigger] falls_on(y, m, d, days) && low == y as i32
}

proof fn lemma_multiples(y: int)
    ensures
        y % 100 == 0 ==> y % 4 == 0,
        y % 400 == 0 ==> y % 100 == 0,
{
    lemma_mod_multiples_vanish(25 * (y / 100), 0, 4);
    lemma_mod_multiples_vanish(4 * (y / 400), 0, 100);
    assert(4 * (25 * (y / 100)) + 0 == y - y % 100);
    assert(100 * (4 * (y / 400)) + 0 == y - y % 400);
}

/// A year is as long as its months together.
pub proof fn law_year_length(y: int)
    ensures
        days_before_year(y + 1) - days_before_year(y) == days_before_month(y, 13),
        days_before_month(y, 13) == (if leap(y) {
            366int
        } else {
            365
        }),
{
    lemma_months_of_year(y);
    lemma_step(y, 4);
    lemma_step(y, 100);
    lemma_step(y, 400);
    lemma_multiples(y);
}

proof fn lemma_years_ordered(a: int, b: int)
    requires
        a <= b,
    ensures
        days_before_year(a) + 365 * (b - a) <= days_before_year(b),
    decreases b - a,
{
    if a < b {
        lemma_years_ordered(a, b - 1);
        law_year_length(b - 1);
    }
}

proof fn lemma_month_table(y: int, m: int)
    requires
        1 <= m <= 12,
    ensures
        days_before_month(y, m) == (if m <= 2 {
            31 * (m - 1)
        } else {
            (153 * (m - 3) + 2) / 5 + 59 + (if leap(y) {
                1int
            } else {
                0
            })
        }),
        days_before_month(y, m) + month_length(y, m) <= days_before_month(y, 13),
{
    reveal_with_fuel(days_before_month, 14);
}

proof fn lemma_months_ordered(y: int, m: int, n: int)
    requires
        1 <= m < n <= 12,
    ensures
        days_before_month(y, m) + month_length(y, m) <= days_before_month(y, n),
{
    reveal_with_fuel(days_before_month, 14);
}

/// No two dates are the same day.
pub proof fn law_date_unique(y: int, m: int, d: int, y2: int, m2: int, d2: int)
    requires
        is_date(y, m, d),
        is_date(y2, m2, d2),
        day_number(y, m, d) == day_number(y2, m2, d2),
    ensures
        y == y2 && m == m2 && d == d2,
{
    lemma_month_table(y, m);
    lemma_month_table(y2, m2);
    law_year_length(y);
    law_year_length(y2);
    reveal_with_fuel(days_before_month, 14);
    if y < y2 {
        lemma_years_ordered(y + 1, y2);
    } else if y2 < y {
        lemma_years_ordered(y2 + 1, y);
    } else if m < m2 {
        lemma_months_ordered(y, m, m2);
    } else if m2 < m {
        lemma_months_ordered(y, m2, m);
    }
}

/// The days of a period of 400 years that starts in March: which year of it
/// the day falls into.
proof fn lemma_year_of_era(doe: int, yoe: int)
    requires
        0 <= doe < 146097,
        yoe == (doe - doe / 1460 + doe / 36524 - doe / 146096) / 365,
    ensures
        0 <= yoe < 400,
        ({
            let doy = doe - (365 * yoe + yoe / 4 - yoe / 100);
            0 <= doy <= 365 && (doy == 365 ==> leap(yoe + 1))
        }),
{
    let a = doe / 1460;
    let b = doe / 36524;
    let c = doe / 146096;
    assert(0 <= b <= 4);
    assert(0 <= c <= 1);
}

/// The quotient rounded down.
fn floor_div(z: i64, d: i64) -> (r: i64)
    requires
        d > 1,
    ensures
        r == z as int / d as int,
{
    if z >= 0 {
        z / d
    } else {
        let q: i64 = -(z + 1) / d;
        proof {
            let n = -(z as int + 1);
            let dd = d as int;
            assert(q == n / dd);
            assert(z as int / dd == -1 - n / dd) by (nonlinear_arith)
                requires
                    n == -(z as int + 1),
                    n >= 0,
                    dd == d as int,
                    dd > 1,
            ;
            assert(n / dd <= n) by (nonlinear_arith)
                requires
                    n >= 0,
                    dd > 1,
            ;
        }
        -1 - q
    }
}

/// The parts of a year in terms of its era and its year in the era.
proof fn lemma_era_parts(era: int, yoe: int)
    requires
        0 <= yoe < 400,
    ensures
        (yoe + 400 * era) / 4 == yoe / 4 + 100 * era,
        (yoe + 400 * era) / 100 == yoe / 100 + 4 * era,
        (yoe + 400 * era) / 400 == era,
        (yoe + 400 * era) % 4 == yoe % 4,
        (yoe + 400 * era) % 100 == yoe % 100,
        (yoe + 400 * era) % 400 == yoe,
{
}

/// The first of March of a year, in terms of its era.
proof fn lemma_march(era: int, yoe: int)
    requires
        0 <= yoe < 400,
    ensures
        ({
            let y = yoe + 400 * era;
            &&& days_before_year(y) + 59 + (if leap(y) {
                1int
            } else {
                0
            }) == 146097 * era + 365 * yoe + yoe / 4 - yoe / 100 - 306
            &&& days_before_year(y + 1) == 146097 * era + 365 * yoe + yoe / 4 - yoe / 100
            &&& leap(y + 1) == leap(yoe + 1)
        }),
{
    let y = yoe + 400 * era;
    lemma_era_parts(era, yoe);
    if yoe < 399 {
        lemma_era_parts(era, yoe + 1);
    } else {
        lemma_era_parts(era + 1, 0);
    }
    law_year_length(y);
    assert(days_before_year(y + 1) == 365 * y + y / 4 - y / 100 + y / 400);
}

/// The month and day of a day of a year that starts in March.
proof fn lemma_month_of_day(doy: int, mp: int, d: int)
    requires
        0 <= doy <= 365,
        mp == (5 * doy + 2) / 153,
        d == doy - (153 * mp + 2) / 5 + 1,
    ensures
        0 <= mp <= 11,
        1 <= d <= 31,
        mp < 10 ==> forall|y: int| #[trigger] month_length(y, mp + 3) >= d,
        mp == 10 ==> forall|y: int| #[trigger] month_length(y, 1) >= d,
        mp == 11 ==> d <= 29 && (d == 29 ==> doy == 365),
        mp == 10 ==> d == doy - 305,
        mp == 11 ==> d == doy - 336,
{
    if mp == 0 {
    } else if mp == 1 {
    } else if mp == 2 {
    } else if mp == 3 {
    } else if mp == 4 {
    } else if mp == 5 {
    } else if mp == 6 {
    } else if mp == 7 {
    } else if mp == 8 {
    } else if mp == 9 {
    } else if mp == 10 {
    } else {
    }
}

proof fn lemma_civil(days: int, era: int, doe: int, yoe: int, doy: int, mp: int, d: int, mo: int, y: int)
    requires
        days + 719468 == era * 146097 + doe,
        0 <= doe < 146097,
        yoe == (doe - doe / 1460 + doe / 36524 - doe / 146096) / 365,
        doy == doe - (365 * yoe + yoe / 4 - yoe / 100),
        mp == (5 * doy + 2) / 153,
        d == doy - (153 * mp + 2) / 5 + 1,
        mo == (if mp < 10 {
            mp + 3
        } else {
            mp - 9
        }),
        y == yoe + era * 400 + (if mo <= 2 {
            1int
        } else {
            0
        }),
    ensures
        is_date(y, mo, d),
        day_number(y, mo, d) == days,
{
    lemma_year_of_era(doe, yoe);
    lemma_month_of_day(doy, mp, d);
    lemma_march(era, yoe);
    lemma_month_table(y, mo);
    assert(days_before_year(1970) == 719162);
    if mp == 11 {
        assert(d == 29 ==> leap(y));
    }
    if mp < 10 {
        assert(month_length(y, mp + 3) >= d);
    } else if mp == 10 {
        assert(month_length(y, 1) >= d);
    }
}

/// The year that a day of an era falls into, and the day in that year.
fn year_of_era(doe: i64) -> (r: (i64, i64))
    requires
        0 <= doe < 146097,
    ensures
        r.0 == (doe as int - doe as int / 1460 + doe as int / 36524 - doe as int / 146096) / 365,
        r.1 == doe - (365 * r.0 + r.0 as int / 4 - r.0 as int / 100),
        0 <= r.0 < 400,
        0 <= r.1 <= 365,
{
    let yoe: i64 = (doe - doe / 1_460 + doe / 36_524 - doe / 146_096) / 365;
    proof {
        lemma_year_of_era(doe as int, yoe as int);
    }
    (yoe, doe - (365 * yoe + yoe / 4 - yoe / 100))
}

/// The month, counted from March, and the day of the month of a day of a year
/// that starts in March.
fn month_of_day(doy: i64) -> (r: (i64, i64))
    requires
        0 <= doy <= 365,
    ensures
        r.0 == (5 * doy + 2) / 153,
        r.1 == doy - (153 * r.0 + 2) / 5 + 1,
        0 <= r.0 <= 11,
        1 <= r.1 <= 31,
{
    let mp: i64 = (5 * doy + 2) / 153;
    let d: i64 = doy - (153 * mp + 2) / 5 + 1;
    proof {
        lemma_month_of_day(doy as int, mp as int, d as int);
    }
    (mp, d)
}

/// The date that lies `days` after 1 January 1970.
fn date_of_day(days: i64) -> (r: (i64, u32, u32))
    requires
        -200_000_000_000_000 <= days <= 200_000_000_000_000,
    ensures
        is_date(r.0 as int, r.1 as int, r.2 as int),
        day_number(r.0 as int, r.1 as int, r.2 as int) == days,
{
    let shifted: i64 = days + 719_468;
    let era: i64 = floor_div(shifted, 146_097);
    assert(-2_000_000_000 <= era <= 2_000_000_000);
    let doe: i64 = shifted - era * 146_097;
    let (yoe, doy) = year_of_era(doe);
    let (mp, d) = month_of_day(doy);
    let mo: i64 = if mp < 10 {
        mp + 3
    } else {
        mp - 9
    };
    let y: i64 = if mo <= 2 {
        yoe + era * 400 + 1
    } else {
        yoe + era * 400
    };
    proof {
        lemma_civil(
            days as int,
            era as int,
            doe as int,
            yoe as int,
            doy as int,
            mp as int,
            d as int,
            mo as int,
            y as int,
        );
    }
    (y, mo as u32, d as u32)
}

/// A day that is not too far away lies in a year that is not too far away.
proof fn lemma_near_year(y: int, m: int, d: int, days: int)
    requires
        is_date(y, m, d),
        day_number(y, m, d) == days,
        -700_000_000_000 <= days <= 700_000_000_000,
    ensures
        -2_000_000_000 <= y <= 2_000_000_000,
{
    lemma_month_table(y, m);
    if y >= 1970 {
        lemma_years_ordered(1970, y);
    } else {
        lemma_years_ordered(y, 1970);
    }
}

/// The date and time of day `z` seconds after 1 January 1970: year, month,
/// day, hour, minute, second. The year is cut to its low 32 bits, which is the
/// whole year for close to two thousand million years to either side.
pub fn epoch_to_ymdhms(z: i64) -> (r: (i32, u32, u32, u32, u32, u32))
    ensures
        -60_000_000_000_000_000 <= z <= 60_000_000_000_000_000 ==> falls_on(r.0 as i64, r.1, r.2, z as int / 86400),
        ends_on(r.0, r.1, r.2, z as int / 86400),
        r.3 == z as int % 86400 / 3600,
        r.4 == z as int % 3600 / 60,
        r.5 == z as int % 60,
{
    let days: i64 = floor_div(z, 86_400);
    let secs_of_day: u32 = (z as i128 - days as i128 * 86_400) as u32;
    proof {
        lemma_time(z as int, secs_of_day as int);
    }
    let h: u32 = secs_of_day / 3600;
    let mi: u32 = (secs_of_day % 3600) / 60;
    let s: u32 = secs_of_day % 60;
    let (y, mo, d) = date_of_day(days);
    let year: i32 = #[verifier::truncate]
    (y as i32);
    assert(falls_on(y, mo, d, days as int));
    assert(year == y as i32);
    proof {
        if -60_000_000_000_000_000 <= z <= 60_000_000_000_000_000 {
            lemma_near_year(y as int, mo as int, d as int, days as int);
        }
    }
    (year, mo, d, h, mi, s)
}

proof fn lemma_time(z: int, secs: int)
    requires
        secs == z - z / 86400 * 86400,
    ensures
        secs == z % 86400,
        0 <= secs < 86400,
        secs % 3600 == z % 3600,
        secs % 60 == z % 60,
{
    let q = z / 86400;
    lemma_mod_multiples_vanish(24 * q, secs, 3600);
    lemma_mod_multiples_vanish(1440 * q, secs, 60);
    assert(3600 * (24 * q) + secs == z);
    assert(60 * (1440 * q) + secs == z);
}

/// A number of zeros.
pub open spec fn zeros(n: int) -> Seq<char> {
    Seq::new(
        if n > 0 {
            n as nat
        } else {
            0
        },
        |i: int| '0',
    )
}

/// The digits of a number, with zeros before them up to the width.
pub open spec fn padded(n: nat, width: int) -> Seq<char> {
    zeros(width - digits(n).len()) + digits(n)
}

/// As `padded`, with a sign, which counts to the width, before what is below
/// zero.
pub open spec fn padded_signed(n: int, width: int) -> Seq<char> {
    if n < 0 {
        "-"@ + padded((-n) as nat, width - 1)
    } else {
        padded(n as nat, width)
    }
}

fn push_padded(out: &mut String, n: u64, width: usize)
    ensures
        final(out)@ == old(out)@ + padded(n as nat, width as int),
{
    let ds = decimal(n);
    let len: usize = chars_of(ds.as_str()).len();
    let ghost start = out@;
    let mut k: usize = len;
    assert(out@ =~= start + zeros(0));
    while k < width
        invariant
            len <= k,
            k <= width || k == len,
            len == ds@.len(),
            out@ == start + zeros(k - len),
        decreases width - k,
    {
        out.push('0');
        k = k + 1;
        assert(out@ =~= start + zeros(k - len));
    }
    out.append(ds.as_str());
    assert(out@ =~= start + padded(n as nat, width as int));
}

/// The text of a date and time.
pub open spec fn iso_text(y: i32, mo: u32, d: u32, h: u32, mi: u32, s: u32) -> Seq<char> {
    padded_signed(y as int, 4) + "-"@ + padded(mo as nat, 2) + "-"@ + padded(d as nat, 2) + "T"@ + padded(h as nat, 2)
        + ":"@ + padded(mi as nat, 2) + ":"@ + padded(s as nat, 2) + "+00:00"@
}

/// Whether a text is the date and time `secs` seconds after 1 January 1970.
pub open spec fn is_iso8601(t: Seq<char>, secs: int) -> bool {
    exists|y: i32, mo: u32, d: u32|
        #[trigger] ends_on(y, mo, d, secs / 86400) && t == iso_text(
            y,
            mo,
            d,
            (secs % 86400 / 3600) as u32,
            (secs % 3600 / 60) as u32,
            (secs % 60) as u32,
        )
}

/// The date and time `secs` seconds after 1 January 1970, as text.
pub fn iso8601(secs: i64) -> (r: String)
    ensures
        is_iso8601(r@, secs as int),
{
    let (y, mo, d, h, mi, s) = epoch_to_ymdhms(secs);
    let mut out = String::new();
    assert(out@ =~= Seq::<char>::empty());
    if y < 0 {
        out.append("-");
        push_padded(&mut out, (-(y as i64)) as u64, 3);
    } else {
        push_padded(&mut out, y as u64, 4);
    }
    assert(out@ =~= padded_signed(y as int, 4));
    out.append("-");
    push_padded(&mut out, mo as u64, 2);
    out.append("-");
    push_padded(&mut out, d as u64, 2);
    out.append("T");
    push_padded(&mut out, h as u64, 2);
    out.append(":");
    push_padded(&mut out, mi as u64, 2);
    out.append(":");
    push_padded(&mut out, s as u64, 2);
    out.append("+00:00");
    assert(out@ =~= iso_text(y, mo, d, h, mi, s));
    assert(ends_on(y, mo, d, secs as int / 86400));
    out
}

/// The days of each month; a year has a leap day every four years, but for the
/// hundreds that are no multiples of four hundred.
pub proof fn law_months(y: int, k: int)
    ensures
        month_length(y, 1) == 31 && month_length(y, 3) == 31 && month_length(y, 5) == 31 && month_length(y, 7) == 31,
        month_length(y, 8) == 31 && month_length(y, 10) == 31 && month_length(y, 12) == 31,
        month_length(y, 4) == 30 && month_length(y, 6) == 30 && month_length(y, 9) == 30 && month_length(y, 11) == 30,
        month_length(y, 2) == (if leap(y) {
            29int
        } else {
            28
        }),
        leap(400 * k),
        !leap(400 * k + 100) && !leap(400 * k + 200) && !leap(400 * k + 300),
        !leap(4 * k + 1) && !leap(4 * k + 2) && !leap(4 * k + 3),
        (4 * k) % 100 != 0 ==> leap(4 * k),
{
}

/// The day after a day has the next number, at the end of a month and of a year
/// too; the first is the one that the count starts with.
pub proof fn law_next_day(y: int, m: int, d: int)
    requires
        is_date(y, m, d),
    ensures
        day_number(1970, 1, 1) == 0,
        d < month_length(y, m) ==> is_date(y, m, d + 1) && day_number(y, m, d + 1) == day_number(y, m, d) + 1,
        d == month_length(y, m) && m < 12 ==> is_date(y, m + 1, 1) && day_number(y, m + 1, 1) == day_number(y, m, d) + 1,
        d == month_length(y, m) && m == 12 ==> is_date(y + 1, 1, 1) && day_number(y + 1, 1, 1) == day_number(y, m, d) + 1,
{
    if m == 12 {
        law_year_length(y);
        assert(days_before_month(y, 13) == days_before_month(y, 12) + month_length(y, 12));
    }
    assert(days_before_month(y, m + 1) == days_before_month(y, m) + month_length(y, m));
    assert(days_before_month(y + 1, 1) == 0);
    assert(days_before_month(1970, 1) == 0);
}

proof fn lemma_zeros_shown(n: int, t: Seq<char>)
    ensures
        number_shown(zeros(n) + t) == number_shown(t),
    decreases t.len(), n,
{
    let z = zeros(n);
    if t.len() > 0 {
        assert((z + t).drop_last() =~= z + t.drop_last());
        lemma_zeros_shown(n, t.drop_last());
    } else if n > 0 {
        assert(z + t =~= z);
        assert(z.drop_last() =~= zeros(n - 1));
        assert(zeros(n - 1) + t =~= zeros(n - 1));
        lemma_zeros_shown(n - 1, t);
    } else {
        assert(z + t =~= t);
    }
}

/// A number is padded with zeros to its width, and still shows the same number.
pub proof fn law_padded(n: nat, width: int)
    ensures
        number_shown(padded(n, width)) == n,
        n < 100 ==> padded(n, 2).len() == 2,
        n < 10000 ==> padded(n, 4).len() == 4,
        forall|i: int| 0 <= i < padded(n, width).len() ==> '0' <= #[trigger] padded(n, width)[i] <= '9',
{
    law_digits(n);
    lemma_zeros_shown(width - digits(n).len(), digits(n));
    reveal_with_fuel(digits, 5);
    assert forall|i: int| 0 <= i < padded(n, width).len() implies '0' <= #[trigger] padded(n, width)[i] <= '9' by {
        let z = zeros(width - digits(n).len());
        if i >= z.len() {
            assert(padded(n, width)[i] == digits(n)[i - z.len()]);
        }
    }
}

/// A time from 1970 up to the year 9999 is shown by its date and its time of day:
/// read back, they give the same second.
pub proof fn law_time_shown(t: Seq<char>, secs: int)
    requires
        is_iso8601(t, secs),
        0 <= secs < 253_402_300_800,
    ensures
        ({
            let y = number_shown(t.subrange(0, 4));
            let mo = number_shown(t.subrange(5, 7));
            let d = number_shown(t.subrange(8, 10));
            let h = number_shown(t.subrange(11, 13));
            let mi = number_shown(t.subrange(14, 16));
            let s = number_shown(t.subrange(17, 19));
            &&& t.len() == 25
            &&& t[4] == '-' && t[7] == '-' && t[10] == 'T' && t[13] == ':' && t[16] == ':'
            &&& t.skip(19) == "+00:00"@
            &&& is_date(y, mo, d)
            &&& 0 <= h < 24 && 0 <= mi < 60 && 0 <= s < 60
            &&& secs == 86400 * day_number(y, mo, d) + 3600 * h + 60 * mi + s
        }),
{
    let (low, mo, d) = choose|y: i32, mo: u32, d: u32|
        #[trigger] ends_on(y, mo, d, secs / 86400) && t == iso_text(
            y,
            mo,
            d,
            (secs % 86400 / 3600) as u32,
            (secs % 3600 / 60) as u32,
            (secs % 60) as u32,
        );
    let days = secs / 86400;
    let y = choose|y: i64| #[trigger] falls_on(y, mo, d, days) && low == y as i32;
    assert(0 <= days < 2_932_897);
    lemma_year_in_range(y as int, mo as int, d as int, days);
    assert(low == y);
    lemma_month_table(y as int, mo as int);
    let h = secs % 86400 / 3600;
    let mi = secs % 3600 / 60;
    let s = secs % 60;
    assert(0 <= h < 24 && 0 <= mi < 60 && 0 <= s < 60);
    lemma_iso_parts(low, mo, d, h as u32, mi as u32, s as u32);
    lemma_seconds(secs);
}

proof fn lemma_seconds(secs: int)
    requires
        secs >= 0,
    ensures
        secs == 86400 * (secs / 86400) + 3600 * (secs % 86400 / 3600) + 60 * (secs % 3600 / 60) + secs % 60,
{
    lemma_time(secs, secs % 86400);
    let r = secs % 86400;
    assert(r == 3600 * (r / 3600) + r % 3600);
    let q = r % 3600;
    assert(q == 60 * (q / 60) + q % 60);
    assert(q % 60 == r % 60);
}

proof fn lemma_iso_parts(y: i32, mo: u32, d: u32, h: u32, mi: u32, s: u32)
    requires
        0 <= y <= 9999,
        mo < 100 && d < 100 && h < 100 && mi < 100 && s < 100,
    ensures
        ({
            let t = iso_text(y, mo, d, h, mi, s);
            &&& t.len() == 25
            &&& t[4] == '-' && t[7] == '-' && t[10] == 'T' && t[13] == ':' && t[16] == ':'
            &&& t.skip(19) == "+00:00"@
            &&& number_shown(t.subrange(0, 4)) == y
            &&& number_shown(t.subrange(5, 7)) == mo
            &&& number_shown(t.subrange(8, 10)) == d
            &&& number_shown(t.subrange(11, 13)) == h
            &&& number_shown(t.subrange(14, 16)) == mi
            &&& number_shown(t.subrange(17, 19)) == s
        }),
{
    law_padded(y as nat, 4);
    law_padded(mo as nat, 2);
    law_padded(d as nat, 2);
    law_padded(h as nat, 2);
    law_padded(mi as nat, 2);
    law_padded(s as nat, 2);
    reveal_strlit("-");
    reveal_strlit("T");
    reveal_strlit(":");
    reveal_strlit("+00:00");
    let t = iso_text(y, mo, d, h, mi, s);
    assert(t.subrange(0, 4) =~= padded(y as nat, 4));
    assert(t.subrange(5, 7) =~= padded(mo as nat, 2));
    assert(t.subrange(8, 10) =~= padded(d as nat, 2));
    assert(t.subrange(11, 13) =~= padded(h as nat, 2));
    assert(t.subrange(14, 16) =~= padded(mi as nat, 2));
    assert(t.subrange(17, 19) =~= padded(s as nat, 2));
    assert(t.skip(19) =~= "+00:00"@);
}

proof fn lemma_year_in_range(y: int, m: int, d: int, days: int)
    requires
        is_date(y, m, d),
        day_number(y, m, d) == days,
        0 <= days < 2_932_897,
    ensures
        1970 <= y <= 9999,
{
    lemma_month_table(y, m);
    if y >= 10000 {
        lemma_years_ordered(10000, y);
        assert(days_before_year(10000) - days_before_year(1970) == 2_932_897);
    }
    if y < 1970 {
        law_year_length(y);
        lemma_years_ordered(y + 1, 1970);
    }
}

} // verus!
