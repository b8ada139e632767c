//! Showing a modification time as `YYYY-MM-DD HH:MM:SS` (UTC, proleptic
//! Gregorian calendar).
use vstd::prelude::*;
use vstd::arithmetic::div_mod::{lemma_div_multiples_vanish_fancy, lemma_fundamental_div_mod};
use crate::text::{dec, dec_u64};

verus! {

// ---------------------------------------------------------------------------
// The calendar, as a specification
// ---------------------------------------------------------------------------

/// Days in the years of an era before year `y` of the era; eras start on
/// March 1st of a year divisible by 400, and a leap day closes every fourth
/// year except every hundredth.
pub open spec fn days_before_year(y: int) -> int {
    365 * y + y / 4 - y / 100
}

/// The year of an era (0 to 399) holding its day `doe`: the last one that
/// starts on or before it.
pub open spec fn year_of_era(doe: int, y: int) -> int
    decreases y,
{
    if y <= 0 {
        0
    } else if days_before_year(y) <= doe {
        y
    } else {
        year_of_era(doe, y - 1)
    }
}

/// Days in the months of a year (counted from March) before its month `mp`.
pub open spec fn days_before_month(mp: int) -> int {
    seq![0int, 31, 61, 92, 122, 153, 184, 214, 245, 275, 306, 337][mp]
}

/// The month of a year (0 for March to 11 for February) holding its day
/// `doy`: the last one that starts on or before it.
pub open spec fn month_of_year(doy: int, mp: int) -> int
    decreases mp,
{
    if mp <= 0 {
        0
    } else if days_before_month(mp) <= doy {
        mp
    } else {
        month_of_year(doy, mp - 1)
    }
}

/// The civil date `(year, month, day)` of a day counted from 1970-01-01
/// (day 0) in the proleptic Gregorian calendar: whole eras of 400 years
/// (146097 days) counted from 0000-03-01, then the year of the era, the
/// month and the day.
pub open spec fn civil(days: int) -> (int, int, int) {
    let z = days + 719468;
    let era = z / 146097;
    let doe = z % 146097;
    let yoe = year_of_era(doe, 399);
    let doy = doe - days_before_year(yoe);
    let mp = month_of_year(doy, 11);
    let d = doy - days_before_month(mp) + 1;
    let m = if mp < 10 { mp + 3 } else { mp - 9 };
    let y = yoe + era * 400 + (if m <= 2 { 1int } else { 0int });
    (y, m, d)
}

/// The ASCII digit for `d`.
pub open spec fn digit(d: int) -> char {
    ((d + 48) as u32) as char
}

/// Two decimal digits.
pub open spec fn two_digits(n: int) -> Seq<char> {
    seq![digit(n / 10), digit(n % 10)]
}

/// Decimal digits padded with zeros on the left to `width` characters.
pub open spec fn zero_pad(s: Seq<char>, width: nat) -> Seq<char> {
    if s.len() < width {
        Seq::new((width - s.len()) as nat, |i: int| '0') + s
    } else {
        s
    }
}

/// A year in four digits at least; before year 0 with a minus sign.
pub open spec fn year_text(y: int) -> Seq<char> {
    if y >= 0 {
        zero_pad(dec(y as nat), 4)
    } else {
        seq!['-'] + zero_pad(dec((-y) as nat), 3)
    }
}

/// A time in nanoseconds since the Unix epoch as `YYYY-MM-DD HH:MM:SS`, UTC.
pub open spec fn display_time(t: i128) -> Seq<char> {
    let secs = t as int / 1_000_000_000;
    let days = secs / 86400;
    let sod = secs % 86400;
    let ymd = civil(days);
    year_text(ymd.0) + seq!['-'] + two_digits(ymd.1) + seq!['-'] + two_digits(ymd.2) + seq![' ']
        + two_digits(sod / 3600) + seq![':'] + two_digits((sod % 3600) / 60) + seq![':'] + two_digits(sod % 60)
}

/// The times a system clock holds: whole seconds within `i64`.
pub open spec fn clock_time(t: i128) -> bool {
    i64::MIN as int * 1_000_000_000 <= t < (i64::MAX as int + 1) * 1_000_000_000
}

// ---------------------------------------------------------------------------
// Arithmetic
// ---------------------------------------------------------------------------

proof fn lemma_div_offset(x: int, k: int, d: int)
    requires
        d > 0,
    ensures
        (x + k * d) / d == x / d + k,
        (x + k * d) % d == x % d,
{
    lemma_fundamental_div_mod(x, d);
    let q = x / d;
    let r = x % d;
    assert(0 <= r < d) by {
        vstd::arithmetic::div_mod::lemma_mod_bound(x, d);
    }
    assert(x + k * d == d * (q + k) + r) by (nonlinear_arith)
        requires
            x == d * q + r,
    ;
    lemma_div_multiples_vanish_fancy(q + k, r, d);
    lemma_fundamental_div_mod(x + k * d, d);
    vstd::arithmetic::div_mod::lemma_mod_bound(x + k * d, d);
    assert((x + k * d) % d == r) by (nonlinear_arith)
        requires
            x + k * d == d * (q + k) + r,
            x + k * d == d * ((x + k * d) / d) + (x + k * d) % d,
            (x + k * d) / d == q + k,
    ;
}

/// Floor division of a value of moderate size by a positive divisor: the
/// quotient and the remainder.
fn floor_div(x: i64, d: u64) -> (r: (i64, u64))
    requires
        0 < d <= 0x1_0000_0000,
        -0x4000_0000_0000_0000 < x < 0x4000_0000_0000_0000,
    ensures
        r.0 as int == (x as int) / (d as int),
        r.1 as int == (x as int) % (d as int),
{
    let ghost xi = x as int;
    let ghost di = d as int;
    let k: u64 = 0x4000_0000_0000_0000 / d + 1;
    proof {
        assert(k * di >= 0x4000_0000_0000_0000int) by (nonlinear_arith)
            requires
                k as int == 0x4000_0000_0000_0000int / di + 1,
                di > 0,
        ;
        assert(k * di <= 0x4000_0000_0000_0000int + di) by (nonlinear_arith)
            requires
                k as int == 0x4000_0000_0000_0000int / di + 1,
                di > 0,
        ;
    }
    let shifted: u64 = ((x as i128) + (k as i128) * (d as i128)) as u64;
    let q = shifted / d;
    let rem = shifted % d;
    proof {
        lemma_div_offset(xi, k as int, di);
    }
    ((q as i128 - k as i128) as i64, rem)
}

fn digit_char(d: u64) -> (c: char)
    requires
        d < 10,
    ensures
        c == digit(d as int),
{
    let c = ((d + 48) as u8) as char;
    assert(c == ((d + 48) as u32) as char) by {
        assert(((d + 48) as u8) as char == ((d + 48) as u32) as char);
    }
    c
}

fn push_two(out: &mut Vec<char>, n: u64)
    requires
        n < 100,
    ensures
        final(out)@ == old(out)@ + two_digits(n as int),
{
    out.push(digit_char(n / 10));
    out.push(digit_char(n % 10));
    assert(out@ =~= old(out)@ + two_digits(n as int));
}

fn push_padded(out: &mut Vec<char>, n: u64, width: usize)
    requires
        width <= 4,
    ensures
        final(out)@ == old(out)@ + zero_pad(dec(n as nat), width as nat),
{
    let digits = dec_u64(n);
    let mut k: usize = digits.len();
    let ghost start = out@;
    while k < width
        invariant
            digits.len() <= k <= width || (digits.len() > width && k == digits.len()),
            out@ == start + Seq::new((k - digits.len()) as nat, |i: int| '0'),
        decreases width - k,
    {
        out.push('0');
        k = k + 1;
        assert(out@ =~= start + Seq::new((k - digits.len()) as nat, |i: int| '0'));
    }
    let ghost mid = out@;
    let mut j: usize = 0;
    while j < digits.len()
        invariant
            j <= digits@.len(),
            out@ == mid + digits@.take(j as int),
        decreases digits@.len() - j,
    {
        out.push(digits[j]);
        j = j + 1;
        assert(out@ =~= mid + digits@.take(j as int));
    }
    assert(digits@.take(digits@.len() as int) =~= digits@);
    assert(out@ =~= start + zero_pad(dec(n as nat), width as nat));
}

// ---------------------------------------------------------------------------
// Formatting
// ---------------------------------------------------------------------------

proof fn lemma_year_of_era(doe: int, y: int)
    requires
        0 <= doe,
        0 <= y <= 399,
    ensures
        0 <= year_of_era(doe, y) <= y,
        days_before_year(year_of_era(doe, y)) <= doe,
        year_of_era(doe, y) < y ==> doe < days_before_year(year_of_era(doe, y) + 1),
    decreases y,
{
    if y > 0 && days_before_year(y) > doe {
        lemma_year_of_era(doe, y - 1);
    }
}

proof fn lemma_month_of_year(doy: int, mp: int)
    requires
        0 <= doy,
        0 <= mp <= 11,
    ensures
        0 <= month_of_year(doy, mp) <= mp,
        days_before_month(month_of_year(doy, mp)) <= doy,
        month_of_year(doy, mp) < mp ==> doy < days_before_month(month_of_year(doy, mp) + 1),
    decreases mp,
{
    if mp > 0 && days_before_month(mp) > doy {
        lemma_month_of_year(doy, mp - 1);
    }
}

fn year_of_era_exec(doe: u64) -> (y: u64)
    requires
        doe < 146097,
    ensures
        y == year_of_era(doe as int, 399),
        y <= 399,
{
    let mut y: u64 = 399;
    while y > 0 && 365 * y + y / 4 - y / 100 > doe
        invariant
            y <= 399,
            year_of_era(doe as int, 399) == year_of_era(doe as int, y as int),
        decreases y,
    {
        y = y - 1;
    }
    y
}

fn month_of_year_exec(doy: u64) -> (mp: u64)
    requires
        doy <= 365,
    ensures
        mp == month_of_year(doy as int, 11),
        mp <= 11,
{
    let table: [u64; 12] = [0, 31, 61, 92, 122, 153, 184, 214, 245, 275, 306, 337];
    let mut mp: usize = 11;
    proof {
        assert(forall|k: int| 0 <= k < 12 ==> table@[k] as int == days_before_month(k));
    }
    while mp > 0 && table[mp] > doy
        invariant
            mp <= 11,
            forall|k: int| 0 <= k < 12 ==> table@[k] as int == days_before_month(k),
            month_of_year(doy as int, 11) == month_of_year(doy as int, mp as int),
        decreases mp,
    {
        mp = mp - 1;
    }
    mp as u64
}

/// The day (from 1970-01-01) and the second of the day of a time.
fn day_and_second(t: i128) -> (r: (i64, u64))
    requires
        clock_time(t),
    ensures
        r.0 as int == (t as int / 1_000_000_000) / 86400,
        r.1 as int == (t as int / 1_000_000_000) % 86400,
{
    // whole seconds: shift to a non-negative value by a multiple of a second
    let big: i128 = 0x8000_0000_0000_0000;
    let shifted: u128 = (t + big * 1_000_000_000) as u128;
    let secs: i128 = (shifted / 1_000_000_000) as i128 - big;
    proof {
        lemma_div_offset(t as int, big as int, 1_000_000_000);
    }
    assert(secs as int == t as int / 1_000_000_000);
    // whole days and the second of the day, shifted the same way
    let day_shift: i128 = 0x8000_0000_0000_0000 / 86400 + 1;
    let shifted_secs: u128 = (secs + day_shift * 86400) as u128;
    let days: i128 = (shifted_secs / 86400) as i128 - day_shift;
    let sod: u64 = (shifted_secs % 86400) as u64;
    proof {
        lemma_div_offset(secs as int, day_shift as int, 86400);
    }
    (days as i64, sod)
}

/// The civil date of a day counted from 1970-01-01.
fn civil_exec(days: i64) -> (r: (i64, u64, u64))
    requires
        -0x1_0000_0000_0000 <= days <= 0x1_0000_0000_0000,
    ensures
        (r.0 as int, r.1 as int, r.2 as int) == civil(days as int),
        1 <= r.1 <= 12,
        1 <= r.2 <= 31,
{
    let (era, doe) = floor_div(days + 719468, 146097);
    let yoe = year_of_era_exec(doe);
    proof {
        lemma_year_of_era(doe as int, 399);
        let y = yoe as int;
        assert(days_before_year(y + 1) - days_before_year(y) <= 366);
        assert(y == 399 ==> days_before_year(y) == 145731);
    }
    let doy: u64 = doe - (365 * yoe + yoe / 4 - yoe / 100);
    assert(doy <= 365);
    let mp = month_of_year_exec(doy);
    proof {
        lemma_month_of_year(doy as int, 11);
    }
    let before: [u64; 12] = [0, 31, 61, 92, 122, 153, 184, 214, 245, 275, 306, 337];
    assert(before@[mp as int] as int == days_before_month(mp as int));
    let d: u64 = doy - before[mp as usize] + 1;
    proof {
        if mp < 11 {
            assert(days_before_month(mp + 1) - days_before_month(mp as int) <= 31);
        }
    }
    let m: u64 = if mp < 10 { mp + 3 } else { mp - 9 };
    let y: i64 = yoe as i64 + era * 400 + if m <= 2 { 1i64 } else { 0i64 };
    (y, m, d)
}

/// `t` (nanoseconds since the Unix epoch) as `YYYY-MM-DD HH:MM:SS`, UTC.
pub fn format_for_display(t: i128) -> (out: String)
    requires
        clock_time(t),
    ensures
        out@ == display_time(t),
{
    let (days, sod) = day_and_second(t);
    let (y, m, d) = civil_exec(days);
    let mut v: Vec<char> = Vec::new();
    if y >= 0 {
        push_padded(&mut v, y as u64, 4);
    } else {
        v.push('-');
        push_padded(&mut v, (-y) as u64, 3);
    }
    v.push('-');
    push_two(&mut v, m);
    v.push('-');
    push_two(&mut v, d);
    v.push(' ');
    push_two(&mut v, sod / 3600);
    v.push(':');
    push_two(&mut v, (sod % 3600) / 60);
    v.push(':');
    push_two(&mut v, sod % 60);
    let out = crate::text::string_of(v.as_slice());
    assert(out@ =~= display_time(t));
    out
}

/// Every day has a civil date with a month from 1 to 12 and a day of the
/// month from 1 to 31.
pub proof fn lemma_civil_in_range(days: int)
    ensures
        1 <= civil(days).1 <= 12,
        1 <= civil(days).2 <= 31,
{
    let z = days + 719468;
    let doe = z % 146097;
    vstd::arithmetic::div_mod::lemma_mod_bound(z, 146097);
    lemma_year_of_era(doe, 399);
    let yoe = year_of_era(doe, 399);
    assert(days_before_year(yoe + 1) - days_before_year(yoe) <= 366);
    assert(yoe == 399 ==> days_before_year(yoe) == 145731);
    let doy = doe - days_before_year(yoe);
    assert(0 <= doy <= 365);
    lemma_month_of_year(doy, 11);
    let mp = month_of_year(doy, 11);
    if mp < 11 {
        assert(days_before_month(mp + 1) - days_before_month(mp) <= 31);
    }
}

} // verus!
