//! Build time stamps: seconds since the Unix epoch as ISO-8601 UTC text
//! (`YYYY-MM-DDTHH:MM:SSZ`, proleptic Gregorian calendar).

use vstd::prelude::*;
use crate::strs::{decimal, decimal_chars_u64, string_of};

verus! {

/// Leap years of the Gregorian calendar.
pub open spec fn is_leap(y: int) -> bool {
    (y % 4 == 0 && y % 100 != 0) || y % 400 == 0
}

/// Days in year `y`.
pub open spec fn year_len(y: int) -> int {
    if is_leap(y) {
        366
    } else {
        365
    }
}

/// Days in month `m` (1 to 12) of year `y`.
pub open spec fn month_len(y: int, m: int) -> int {
    if m == 2 {
        if is_leap(y) {
            29
        } else {
            28
        }
    } else if m == 4 || m == 6 || m == 9 || m == 11 {
        30
    } else {
        31
    }
}

/// Days from 1970-01-01 to January 1st of `y`.
pub open spec fn days_before_year(y: int) -> int
    decreases y - 1970,
{
    if y <= 1970 {
        0
    } else {
        days_before_year(y - 1) + year_len(y - 1)
    }
}

/// Days from January 1st of `y` to the first of month `m`.
pub open spec fn days_before_month(y: int, m: int) -> int
    decreases m,
{
    if m <= 1 {
        0
    } else {
        days_before_month(y, m - 1) + month_len(y, m - 1)
    }
}

/// `y-m-d` is the day `days` days after 1970-01-01.
pub open spec fn is_date_of(days: int, y: int, m: int, d: int) -> bool {
    &&& y >= 1970
    &&& 1 <= m <= 12
    &&& 1 <= d <= month_len(y, m)
    &&& days_before_year(y) + days_before_month(y, m) + (d - 1) == days
}

/// `n` in decimal, padded with zeros on the left to `w` digits.
pub open spec fn padded(n: nat, w: nat) -> Seq<char> {
    let s = decimal(n);
    if s.len() < w {
        Seq::new((w - s.len()) as nat, |i: int| '0') + s
    } else {
        s
    }
}

/// `YYYY-MM-DDTHH:MM:SSZ`.
pub open spec fn iso_text(y: nat, m: nat, d: nat, h: nat, mi: nat, s: nat) -> Seq<char> {
    padded(y, 4) + seq!['-'] + padded(m, 2) + seq!['-'] + padded(d, 2) + seq!['T'] + padded(h, 2)
        + seq![':'] + padded(mi, 2) + seq![':'] + padded(s, 2) + seq!['Z']
}

/// Leap years up to and including `x`, counted from year 0.
spec fn leaps_upto(x: int) -> int {
    x / 4 - x / 100 + x / 400
}

proof fn lemma_leap_count_step(y: int)
    requires
        y >= 1,
    ensures
        leaps_upto(y) - leaps_upto(y - 1) == if is_leap(y) {
            1int
        } else {
            0int
        },
{
    assert(y / 4 - (y - 1) / 4 == if y % 4 == 0 {
        1int
    } else {
        0int
    });
    assert(y / 100 - (y - 1) / 100 == if y % 100 == 0 {
        1int
    } else {
        0int
    });
    assert(y / 400 - (y - 1) / 400 == if y % 400 == 0 {
        1int
    } else {
        0int
    });
    if y % 100 == 0 {
        assert(y % 4 == 0);
    }
    if y % 400 == 0 {
        assert(y % 100 == 0);
    }
}

/// Days before a year, counted in closed form.
proof fn lemma_days_closed(y: int)
    requires
        y >= 1970,
    ensures
        days_before_year(y) == 365 * (y - 1970) + leaps_upto(y - 1) - leaps_upto(1969),
    decreases y - 1970,
{
    if y > 1970 {
        lemma_days_closed(y - 1);
        lemma_leap_count_step(y - 1);
    }
}

/// Any 400 consecutive years from 1970 on hold 146097 days.
proof fn lemma_four_centuries(y: int)
    requires
        y >= 1970,
    ensures
        days_before_year(y + 400) == days_before_year(y) + 146097,
{
    lemma_days_closed(y);
    lemma_days_closed(y + 400);
    assert((y + 399) / 4 == (y - 1) / 4 + 100);
    assert((y + 399) / 100 == (y - 1) / 100 + 4);
    assert((y + 399) / 400 == (y - 1) / 400 + 1);
}

proof fn lemma_cycles(q: nat)
    ensures
        days_before_year(1970 + 400 * q as int) == 146097 * q,
    decreases q,
{
    if q > 0 {
        lemma_cycles((q - 1) as nat);
        lemma_four_centuries(1970 + 400 * (q - 1));
    }
}

proof fn lemma_year_of_months(y: int)
    ensures
        days_before_month(y, 13) == year_len(y),
{
    reveal_with_fuel(days_before_month, 13);
}

fn leap(y: u64) -> (r: bool)
    ensures
        r == is_leap(y as int),
{
    (y % 4 == 0 && y % 100 != 0) || y % 400 == 0
}

fn days_in_year(y: u64) -> (r: u64)
    ensures
        r == year_len(y as int),
{
    if leap(y) {
        366
    } else {
        365
    }
}

fn days_in_month(y: u64, m: u64) -> (r: u64)
    ensures
        r == month_len(y as int, m as int),
{
    if m == 2 {
        if leap(y) {
            29
        } else {
            28
        }
    } else if m == 4 || m == 6 || m == 9 || m == 11 {
        30
    } else {
        31
    }
}

/// The calendar date `days` days after 1970-01-01.
fn date_of(days: u64) -> (r: (u64, u64, u64))
    requires
        days <= 0xffff_ffff_ffff,
    ensures
        is_date_of(days as int, r.0 as int, r.1 as int, r.2 as int),
{
    let q = days / 146097;
    proof {
        assert(q * 146097 <= days && days < q * 146097 + 146097) by (nonlinear_arith)
            requires
                q == days / 146097,
        ;
        lemma_cycles(q as nat);
    }
    let base: u64 = 1970 + 400 * q;
    let mut y: u64 = base;
    let mut d: u64 = days - 146097 * q;
    while d >= days_in_year(y)
        invariant
            base == 1970 + 400 * q,
            base <= y,
            400 * q <= days <= 0xffff_ffff_ffff,
            365 * (y - base) + d <= 146096,
            days_before_year(y as int) + d == days,
        decreases d,
    {
        let n = days_in_year(y);
        proof {
            assert(days_before_year(y + 1) == days_before_year(y as int) + year_len(y as int));
        }
        d = d - n;
        y = y + 1;
    }
    let ghost dy = d;
    let mut m: u64 = 1;
    proof {
        lemma_year_of_months(y as int);
    }
    while d >= days_in_month(y, m)
        invariant
            1 <= m <= 12,
            days_before_month(y as int, m as int) + d == dy,
            dy < year_len(y as int),
            days_before_month(y as int, 13) == year_len(y as int),
        decreases d,
    {
        let n = days_in_month(y, m);
        proof {
            assert(days_before_month(y as int, m + 1) == days_before_month(y as int, m as int)
                + month_len(y as int, m as int));
        }
        d = d - n;
        m = m + 1;
    }
    (y, m, d + 1)
}

/// Appends `n` in decimal, padded with zeros on the left to `w` digits.
fn push_padded(out: &mut Vec<char>, n: u64, w: usize)
    ensures
        final(out)@ == old(out)@ + padded(n as nat, w as nat),
{
    let digits = decimal_chars_u64(n);
    let ghost start = out@;
    if digits.len() < w {
        let pad = w - digits.len();
        let mut k: usize = 0;
        while k < pad
            invariant
                k <= pad,
                out@ == start + Seq::new(k as nat, |i: int| '0'),
            decreases pad - k,
        {
            out.push('0');
            k += 1;
            assert(out@ =~= start + Seq::new(k as nat, |i: int| '0'));
        }
    }
    let ghost mid = out@;
    let mut j: usize = 0;
    while j < digits.len()
        invariant
            j <= digits@.len(),
            out@ == mid + digits@.take(j as int),
        decreases digits.len() - j,
    {
        out.push(digits[j]);
        j += 1;
        assert(out@ =~= mid + digits@.take(j as int));
    }
    assert(digits@.take(digits@.len() as int) =~= digits@);
    assert(out@ =~= old(out)@ + padded(n as nat, w as nat));
}

/// `secs` seconds after 1970-01-01T00:00:00Z as `YYYY-MM-DDTHH:MM:SSZ`
/// (the year padded to four digits, wider when it needs more).
pub fn iso8601_utc(secs: u64) -> (r: String)
    ensures
        exists|y: int, m: int, d: int|
            #[trigger] is_date_of((secs / 86400) as int, y, m, d) && r@ == iso_text(
                y as nat,
                m as nat,
                d as nat,
                ((secs % 86400) / 3600) as nat,
                ((secs % 3600) / 60) as nat,
                (secs % 60) as nat,
            ),
{
    let days = secs / 86400;
    let rem = secs % 86400;
    proof {
        assert(days <= 0xffff_ffff_ffff) by (nonlinear_arith)
            requires
                days == secs / 86400,
                secs <= 0xffff_ffff_ffff_ffff,
        ;
        assert(rem % 3600 == secs % 3600) by (nonlinear_arith)
            requires
                rem == secs % 86400,
        ;
    }
    let (y, m, d) = date_of(days);
    let mut out: Vec<char> = Vec::new();
    push_padded(&mut out, y, 4);
    out.push('-');
    push_padded(&mut out, m, 2);
    out.push('-');
    push_padded(&mut out, d, 2);
    out.push('T');
    push_padded(&mut out, rem / 3600, 2);
    out.push(':');
    push_padded(&mut out, (rem % 3600) / 60, 2);
    out.push(':');
    push_padded(&mut out, rem % 60, 2);
    out.push('Z');
    let r = string_of(&out);
    proof {
        assert(r@ =~= iso_text(
            y as nat,
            m as nat,
            d as nat,
            ((secs % 86400) / 3600) as nat,
            ((secs % 3600) / 60) as nat,
            (secs % 60) as nat,
        ));
    }
    r
}

/// The date in a time stamp is unique: two dates that fall on the same day
/// are the same date.
pub proof fn law_date_unique(days: int, y1: int, m1: int, d1: int, y2: int, m2: int, d2: int)
    requires
        is_date_of(days, y1, m1, d1),
        is_date_of(days, y2, m2, d2),
    ensures
        y1 == y2 && m1 == m2 && d1 == d2,
{
    lemma_within_year(y1, m1, d1);
    lemma_within_year(y2, m2, d2);
    lemma_months_increase(y1, 1, m1);
    lemma_months_increase(y2, 1, m2);
    if y1 < y2 {
        lemma_years_increase(y1 + 1, y2);
        assert(days_before_year(y1 + 1) == days_before_year(y1) + year_len(y1));
    } else if y2 < y1 {
        lemma_years_increase(y2 + 1, y1);
        assert(days_before_year(y2 + 1) == days_before_year(y2) + year_len(y2));
    }
    assert(y1 == y2);
    if m1 < m2 {
        lemma_months_increase(y1, m1 + 1, m2);
        assert(days_before_month(y1, m1 + 1) == days_before_month(y1, m1) + month_len(y1, m1));
    } else if m2 < m1 {
        lemma_months_increase(y1, m2 + 1, m1);
        assert(days_before_month(y1, m2 + 1) == days_before_month(y1, m2) + month_len(y1, m2));
    }
}

proof fn lemma_years_increase(a: int, b: int)
    requires
        1970 <= a <= b,
    ensures
        days_before_year(b) >= days_before_year(a),
    decreases b - a,
{
    if a < b {
        lemma_years_increase(a, b - 1);
    }
}

proof fn lemma_months_increase(y: int, a: int, b: int)
    requires
        1 <= a <= b,
    ensures
        days_before_month(y, b) >= days_before_month(y, a),
    decreases b - a,
{
    if a < b {
        lemma_months_increase(y, a, b - 1);
    }
}

/// A date lies inside its year.
proof fn lemma_within_year(y: int, m: int, d: int)
    requires
        1 <= m <= 12,
        1 <= d <= month_len(y, m),
    ensures
        days_before_month(y, m) + d - 1 < year_len(y),
{
    lemma_year_of_months(y);
    lemma_months_increase(y, m + 1, 13);
}

} // verus!
