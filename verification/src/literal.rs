//! Temporal values spelled as L literals (`2000.01.01`, `00:00:00.000`,
//! `2000.01.01D00:00:00.000000000`, ...), so a printed K reads back through
//! L's own parser.

use vstd::prelude::*;

use crate::calendar::{ymd_from_days, ymd_of};
use crate::text::{dec_nat, dec_pad, push_char, push_nat, push_pad};

verus! {

pub const NANOS_PER_DAY: i64 = 86_400_000_000_000;

pub const MS_PER_DAY: i64 = 86_400_000;

/// Rust's `/` on integers: rounds toward zero.
pub open spec fn tdiv(a: int, b: int) -> int {
    if a >= 0 {
        a / b
    } else {
        -((-a) / b)
    }
}

/// Rust's `%` on integers: takes the sign of `a`.
pub open spec fn trem(a: int, b: int) -> int {
    a - b * tdiv(a, b)
}

/// `2000.01.01`.
pub open spec fn date_text(d: int) -> Seq<char> {
    let (y, m, dd) = ymd_of(d);
    dec_pad(y, 4) + seq!['.'] + dec_pad(m, 2) + seq!['.'] + dec_pad(dd, 2)
}

/// `2000.01m`.
pub open spec fn month_text(m: int) -> Seq<char> {
    dec_pad(2000 + m / 12, 4) + seq!['.'] + dec_pad(1 + m % 12, 2) + seq!['m']
}

/// `hh:mm:ss.mmm` from milliseconds past midnight (each field keeps the
/// sign of the count).
pub open spec fn time_text(ms: int) -> Seq<char> {
    dec_pad(tdiv(ms, 3_600_000), 2) + seq![':'] + dec_pad(trem(tdiv(ms, 60_000), 60), 2) + seq![
        ':',
    ] + dec_pad(trem(tdiv(ms, 1000), 60), 2) + seq!['.'] + dec_pad(trem(ms, 1000), 3)
}

/// (hour, minute, second, nanosecond) of a nanosecond count.
pub open spec fn hmsn_of(nod: int) -> (int, int, int, int) {
    (
        tdiv(nod, 3_600_000_000_000),
        trem(tdiv(nod, 60_000_000_000), 60),
        trem(tdiv(nod, 1_000_000_000), 60),
        trem(nod, 1_000_000_000),
    )
}

/// `hh:mm:ss.nnnnnnnnn`.
pub open spec fn clock_ns_text(nod: int) -> Seq<char> {
    let (h, m, s, n) = hmsn_of(nod);
    dec_pad(h, 2) + seq![':'] + dec_pad(m, 2) + seq![':'] + dec_pad(s, 2) + seq!['.'] + dec_pad(
        n,
        9,
    )
}

/// `hh:mm`.
pub open spec fn minute_text(m: int) -> Seq<char> {
    dec_pad(tdiv(m, 60), 2) + seq![':'] + dec_pad(trem(m, 60), 2)
}

/// `hh:mm:ss`.
pub open spec fn second_text(s: int) -> Seq<char> {
    dec_pad(tdiv(s, 3600), 2) + seq![':'] + dec_pad(trem(tdiv(s, 60), 60), 2) + seq![':']
        + dec_pad(trem(s, 60), 2)
}

/// `2000.01.01D00:00:00.000000000`.
pub open spec fn timestamp_text(ns: int) -> Seq<char> {
    date_text(ns / NANOS_PER_DAY as int) + seq!['D'] + clock_ns_text(ns % NANOS_PER_DAY as int)
}

/// `[-]0D00:00:00.000000000`.
pub open spec fn timespan_text(ns: int) -> Seq<char> {
    let a = if ns < 0 {
        -ns
    } else {
        ns
    };
    (if ns < 0 {
        seq!['-']
    } else {
        Seq::empty()
    }) + dec_nat((a / NANOS_PER_DAY as int) as nat) + seq!['D'] + clock_ns_text(
        a % NANOS_PER_DAY as int,
    )
}

/// days-since-2000.01.01 as `2000.01.01`.
pub fn fmt_date(d: i32) -> (s: String)
    ensures
        s@ == date_text(d as int),
{
    let (y, m, dd) = ymd_from_days(d);
    let mut s = String::new();
    push_pad(&mut s, y as i64, 4);
    push_char(&mut s, '.');
    push_pad(&mut s, m as i64, 2);
    push_char(&mut s, '.');
    push_pad(&mut s, dd as i64, 2);
    assert(s@ =~= date_text(d as int));
    s
}

/// Euclidean quotient and remainder by a positive divisor.
pub(crate) fn div_rem_euclid(a: i64, b: i64) -> (r: (i64, i64))
    requires
        b == 12 || b == NANOS_PER_DAY,
    ensures
        r.0 == a as int / b as int,
        r.1 == a as int % b as int,
{
    let q = a / b;
    let m = a % b;
    proof {
        assert(q == tdiv(a as int, b as int));
        if b == 12 {
            assert(m == trem(a as int, 12));
        } else {
            assert(m == trem(a as int, NANOS_PER_DAY as int));
        }
        if a >= 0 {
            vstd::arithmetic::div_mod::lemma_fundamental_div_mod(a as int, b as int);
            vstd::arithmetic::div_mod::lemma_mod_pos_bound(a as int, b as int);
        } else {
            vstd::arithmetic::div_mod::lemma_fundamental_div_mod(-a, b as int);
            vstd::arithmetic::div_mod::lemma_mod_pos_bound(-a, b as int);
        }
        assert(a == q * b + m) by (nonlinear_arith)
            requires
                m == a - b * q,
        ;
        assert(-b < m < b);
    }
    if m < 0 {
        proof {
            vstd::arithmetic::div_mod::lemma_fundamental_div_mod_converse(
                a as int,
                b as int,
                q - 1,
                m + b,
            );
        }
        (q - 1, m + b)
    } else {
        proof {
            vstd::arithmetic::div_mod::lemma_fundamental_div_mod_converse(
                a as int,
                b as int,
                q as int,
                m as int,
            );
        }
        (q, m)
    }
}

/// months-since-2000.01 as `2000.01m`.
pub fn fmt_month(m: i32) -> (s: String)
    ensures
        s@ == month_text(m as int),
{
    let (q, r) = div_rem_euclid(m as i64, 12);
    let mut s = String::new();
    push_pad(&mut s, 2000 + q, 4);
    push_char(&mut s, '.');
    push_pad(&mut s, 1 + r, 2);
    push_char(&mut s, 'm');
    assert(s@ =~= month_text(m as int));
    s
}

/// milliseconds past midnight as `00:00:00.000`.
pub fn fmt_time(ms: i32) -> (s: String)
    ensures
        s@ == time_text(ms as int),
{
    let ms = ms as i64;
    let mut s = String::new();
    push_pad(&mut s, ms / 3_600_000, 2);
    push_char(&mut s, ':');
    push_pad(&mut s, (ms / 60_000) % 60, 2);
    push_char(&mut s, ':');
    push_pad(&mut s, (ms / 1000) % 60, 2);
    push_char(&mut s, '.');
    push_pad(&mut s, ms % 1000, 3);
    assert(s@ =~= time_text(ms as int));
    s
}

/// Split nanoseconds-of-day into (hour, minute, second, nanosecond).
pub fn hmsn(nod: i64) -> (r: (i64, i64, i64, i64))
    ensures
        (r.0 as int, r.1 as int, r.2 as int, r.3 as int) == hmsn_of(nod as int),
{
    (
        nod / 3_600_000_000_000,
        (nod / 60_000_000_000) % 60,
        (nod / 1_000_000_000) % 60,
        nod % 1_000_000_000,
    )
}

pub(crate) fn push_clock_ns(s: &mut String, nod: i64)
    ensures
        final(s)@ == old(s)@ + clock_ns_text(nod as int),
{
    let ghost s0 = s@;
    let (h, m, sec, n) = hmsn(nod);
    push_pad(s, h, 2);
    push_char(s, ':');
    push_pad(s, m, 2);
    push_char(s, ':');
    push_pad(s, sec, 2);
    push_char(s, '.');
    push_pad(s, n, 9);
    assert(s@ =~= s0 + clock_ns_text(nod as int));
}

/// minutes past midnight as `00:00`.
pub fn fmt_minute(m: i32) -> (s: String)
    ensures
        s@ == minute_text(m as int),
{
    let mut s = String::new();
    push_pad(&mut s, (m / 60) as i64, 2);
    push_char(&mut s, ':');
    push_pad(&mut s, (m % 60) as i64, 2);
    assert(s@ =~= minute_text(m as int));
    s
}

/// seconds past midnight as `00:00:00`.
pub fn fmt_second(sec: i32) -> (s: String)
    ensures
        s@ == second_text(sec as int),
{
    let mut s = String::new();
    push_pad(&mut s, (sec / 3600) as i64, 2);
    push_char(&mut s, ':');
    push_pad(&mut s, ((sec / 60) % 60) as i64, 2);
    push_char(&mut s, ':');
    push_pad(&mut s, (sec % 60) as i64, 2);
    assert(s@ =~= second_text(sec as int));
    s
}

/// nanoseconds since 2000.01.01 as `2000.01.01D00:00:00.000000000`.
pub fn fmt_timestamp(ns: i64) -> (s: String)
    ensures
        s@ == timestamp_text(ns as int),
{
    let (days, nod) = div_rem_euclid(ns, NANOS_PER_DAY);
    let mut s = fmt_date(days as i32);
    push_char(&mut s, 'D');
    push_clock_ns(&mut s, nod);
    assert(s@ =~= timestamp_text(ns as int));
    s
}

/// a nanosecond duration as `[-]0D00:00:00.000000000` (the minimum i64
/// has no magnitude in i64).
pub fn fmt_timespan(ns: i64) -> (s: String)
    requires
        ns > i64::MIN,
    ensures
        s@ == timespan_text(ns as int),
{
    let mut s = String::new();
    let a = if ns < 0 {
        push_char(&mut s, '-');
        -ns
    } else {
        ns
    };
    push_nat(&mut s, (a / NANOS_PER_DAY) as u64);
    push_char(&mut s, 'D');
    push_clock_ns(&mut s, a % NANOS_PER_DAY);
    assert(s@ =~= timespan_text(ns as int));
    s
}


/// A field padded to `w` digits: `w` ASCII digits that read back as `v`.
proof fn lemma_pad_field(v: int, w: nat)
    requires
        w >= 1,
        0 <= v < crate::text::pow10(w),
        v <= i32::MAX,
    ensures
        crate::num::ascii_bytes(dec_pad(v, w as int)).len() == w,
        crate::num::all_digits(crate::num::ascii_bytes(dec_pad(v, w as int))),
        crate::num::parse_i32_spec(crate::num::ascii_bytes(dec_pad(v, w as int))) == Some(v),
{
    crate::text::lemma_dec_nat_len_bound(v as nat, w);
    crate::num::lemma_pad_digits(v as nat, w as int);
    crate::num::lemma_parse_pad(v, w as int, i32::MIN as int, i32::MAX as int);
}

/// Law: a minute literal `hh:mm` holds the hours before the colon and the
/// minutes (below 60) after it, and they add back up to the minutes it
/// was printed from.
pub proof fn lemma_minute_text_fields(m: int)
    requires
        0 <= m < 6000,
    ensures
        ({
            let t = crate::num::ascii_bytes(minute_text(m));
            &&& t.len() == 5 && t[2] == 58
            &&& crate::num::parse_i32_spec(t.subrange(0, 2)) matches Some(h)
                && crate::num::parse_i32_spec(t.subrange(3, 5)) matches Some(mm) && 0 <= mm < 60
                && h * 60 + mm == m
        }),
{
    reveal_with_fuel(crate::text::pow10, 3);
    let h = m / 60;
    let mm = m % 60;
    lemma_pad_field(h, 2);
    lemma_pad_field(mm, 2);
    let ph = dec_pad(h, 2);
    let pm = dec_pad(mm, 2);
    let text = ph + seq![':'] + pm;
    assert(minute_text(m) =~= text);
    let t = crate::num::ascii_bytes(text);
    assert(t.subrange(0, 2) =~= crate::num::ascii_bytes(ph));
    assert(t.subrange(3, 5) =~= crate::num::ascii_bytes(pm));
}

/// Law: a month literal `YYYY.MMm` holds the year, then the month of the
/// year (1 to 12), and they count back to the months since 2000.01 it
/// was printed from.
pub proof fn lemma_month_text_fields(m: int)
    requires
        -24000 <= m < 96000,
    ensures
        ({
            let t = crate::num::ascii_bytes(month_text(m));
            &&& t.len() == 8 && t[4] == 46 && t[7] == 109
            &&& crate::num::parse_i32_spec(t.subrange(0, 4)) matches Some(y)
                && crate::num::parse_i32_spec(t.subrange(5, 7)) matches Some(mo) && 1 <= mo <= 12
                && (y - 2000) * 12 + (mo - 1) == m
        }),
{
    reveal_with_fuel(crate::text::pow10, 5);
    let y = 2000 + m / 12;
    let mo = 1 + m % 12;
    lemma_pad_field(y, 4);
    lemma_pad_field(mo, 2);
    let py = dec_pad(y, 4);
    let pm = dec_pad(mo, 2);
    let text = py + seq!['.'] + pm + seq!['m'];
    assert(month_text(m) =~= text);
    let t = crate::num::ascii_bytes(text);
    assert(t.subrange(0, 4) =~= crate::num::ascii_bytes(py));
    assert(t.subrange(5, 7) =~= crate::num::ascii_bytes(pm));
}

/// Law: a date literal is the ISO date with `.` in place of the two `-`
/// (year, then month, then day), for every date in years 0 to 9999.
pub proof fn lemma_date_text_is_iso(d: int)
    requires
        0 <= ymd_of(d).0 <= 9999,
    ensures
        date_text(d) == crate::io::temporal::date_iso_text(d).update(4, '.').update(7, '.'),
{
    reveal_with_fuel(crate::text::pow10, 5);
    let (y, m, dd) = ymd_of(d);
    crate::calendar::lemma_ymd_of(d);
    assert(dd <= 31) by {
        reveal(crate::calendar::month_len);
    }
    lemma_pad_field(y, 4);
    lemma_pad_field(m, 2);
    lemma_pad_field(dd, 2);
    assert(date_text(d) =~= crate::io::temporal::date_iso_text(d).update(4, '.').update(7, '.'));
}

/// Law: the clock part `hh:mm:ss.nnnnnnnnn` of a timestamp holds hours,
/// minutes (below 60), seconds (below 60) and nanoseconds (nine digits)
/// in that order, and they add back up to the nanoseconds of the day it
/// was printed from.
pub proof fn lemma_clock_ns_fields(nod: int)
    requires
        0 <= nod < NANOS_PER_DAY,
    ensures
        ({
            let t = crate::num::ascii_bytes(clock_ns_text(nod));
            &&& t.len() == 18 && t[2] == 58 && t[5] == 58 && t[8] == 46
            &&& crate::num::parse_i32_spec(t.subrange(0, 2)) matches Some(h)
                && crate::num::parse_i32_spec(t.subrange(3, 5)) matches Some(mi)
                && crate::num::parse_i32_spec(t.subrange(6, 8)) matches Some(sc)
                && crate::num::parse_i32_spec(t.subrange(9, 18)) matches Some(n)
                && 0 <= mi < 60 && 0 <= sc < 60 && 0 <= n < 1_000_000_000
                && ((h * 60 + mi) * 60 + sc) * 1_000_000_000 + n == nod
        }),
{
    reveal_with_fuel(crate::text::pow10, 10);
    let a = nod / 1_000_000_000;
    let b = a / 60;
    let n = nod % 1_000_000_000;
    let sc = a % 60;
    let mi = b % 60;
    let h = b / 60;
    vstd::arithmetic::div_mod::lemma_div_denominator(nod, 1_000_000_000, 60);
    vstd::arithmetic::div_mod::lemma_div_denominator(nod, 60_000_000_000, 60);
    assert(nod / 60_000_000_000 == b);
    assert(nod / 3_600_000_000_000 == h);
    assert(nod == a * 1_000_000_000 + n);
    assert(a == b * 60 + sc);
    assert(b == h * 60 + mi);
    assert(h < 24);
    assert(hmsn_of(nod) == (h, mi, sc, n));
    lemma_pad_field(h, 2);
    lemma_pad_field(mi, 2);
    lemma_pad_field(sc, 2);
    lemma_pad_field(n, 9);
    let ph = dec_pad(h, 2);
    let pm = dec_pad(mi, 2);
    let ps = dec_pad(sc, 2);
    let pn = dec_pad(n, 9);
    let text = ph + seq![':'] + pm + seq![':'] + ps + seq!['.'] + pn;
    assert(clock_ns_text(nod) =~= text);
    let t = crate::num::ascii_bytes(text);
    assert(t.subrange(0, 2) =~= crate::num::ascii_bytes(ph));
    assert(t.subrange(3, 5) =~= crate::num::ascii_bytes(pm));
    assert(t.subrange(6, 8) =~= crate::num::ascii_bytes(ps));
    assert(t.subrange(9, 18) =~= crate::num::ascii_bytes(pn));
    assert(((h * 60 + mi) * 60 + sc) * 1_000_000_000 + n == nod);
}


/// Law: a negative timespan prints as `-` and the timespan of its
/// magnitude.
pub proof fn lemma_timespan_sign(ns: int)
    requires
        ns > 0,
    ensures
        timespan_text(-ns) == seq!['-'] + timespan_text(ns),
{
    assert(timespan_text(-ns) =~= seq!['-'] + timespan_text(ns));
}

} // verus!
