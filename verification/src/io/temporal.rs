//! ISO-8601 spellings of the temporal types for CSV / JSON cells, and
//! their inverse parsers.

use vstd::prelude::*;
use vstd::utf8::*;

use crate::calendar::{days_from_ymd, days_of_ymd, wrap_i32, ymd_from_days, ymd_of};
use crate::literal::{
    NANOS_PER_DAY, clock_ns_text, div_rem_euclid, push_clock_ns, second_text, tdiv, time_text, trem,
};
use crate::num::{parse_i32, parse_i32_spec, parse_u32, parse_u32_spec};
use crate::text::{dec_pad, push_char, push_pad, push_str};

verus! {

/// `char::is_whitespace`: the Unicode `White_Space` property.
pub open spec fn is_ws(c: char) -> bool {
    let u = c as u32;
    (0x9 <= u <= 0xd) || u == 0x20 || u == 0x85 || u == 0xa0 || u == 0x1680 || (0x2000 <= u
        <= 0x200a) || u == 0x2028 || u == 0x2029 || u == 0x202f || u == 0x205f || u == 0x3000
}

pub open spec fn trim_start_ws(cs: Seq<char>) -> Seq<char>
    decreases cs.len(),
{
    if cs.len() > 0 && is_ws(cs[0]) {
        trim_start_ws(cs.drop_first())
    } else {
        cs
    }
}

pub open spec fn trim_end_ws(cs: Seq<char>) -> Seq<char>
    decreases cs.len(),
{
    if cs.len() > 0 && is_ws(cs.last()) {
        trim_end_ws(cs.drop_last())
    } else {
        cs
    }
}

/// Leading and trailing whitespace removed.
pub open spec fn trim_ws(cs: Seq<char>) -> Seq<char> {
    trim_end_ws(trim_start_ws(cs))
}

/// Nothing is left of the empty text.
pub proof fn lemma_trim_empty()
    ensures
        trim_ws(Seq::<char>::empty()) == Seq::<char>::empty(),
        encode_utf8(Seq::<char>::empty()) == Seq::<u8>::empty(),
{
    assert(encode_utf8(Seq::<char>::empty()) =~= Seq::<u8>::empty());
}

/// `str::trim`: leading and trailing whitespace (Unicode `White_Space`)
/// removed.
#[verifier::external_body]
pub(crate) fn trim(s: &str) -> (r: &str)
    ensures
        r@ == trim_ws(s@),
{
    s.trim()
}

/// `YYYY-MM-DD`.
pub open spec fn date_iso_text(d: int) -> Seq<char> {
    let (y, m, dd) = ymd_of(d);
    dec_pad(y, 4) + seq!['-'] + dec_pad(m, 2) + seq!['-'] + dec_pad(dd, 2)
}

/// `YYYY-MM-DDThh:mm:ss.nnnnnnnnn`.
pub open spec fn timestamp_iso_text(ns: int) -> Seq<char> {
    date_iso_text(ns / NANOS_PER_DAY as int) + seq!['T'] + clock_ns_text(
        ns % NANOS_PER_DAY as int,
    )
}

/// days-since-2000.01.01 as `YYYY-MM-DD`.
pub fn fmt_date(d: i32) -> (s: String)
    ensures
        s@ == date_iso_text(d as int),
{
    let (y, m, dd) = ymd_from_days(d);
    let mut s = String::new();
    push_pad(&mut s, y as i64, 4);
    push_char(&mut s, '-');
    push_pad(&mut s, m as i64, 2);
    push_char(&mut s, '-');
    push_pad(&mut s, dd as i64, 2);
    assert(s@ =~= date_iso_text(d as int));
    s
}

/// ns-since-2000.01.01 as `YYYY-MM-DDThh:mm:ss.nnnnnnnnn`.
pub fn fmt_timestamp(ns: i64) -> (s: String)
    ensures
        s@ == timestamp_iso_text(ns as int),
{
    let (days, nod) = div_rem_euclid(ns, NANOS_PER_DAY);
    let mut s = fmt_date(days as i32);
    push_char(&mut s, 'T');
    push_clock_ns(&mut s, nod);
    assert(s@ =~= timestamp_iso_text(ns as int));
    s
}

/// A date separator: `-` or `.`.
pub open spec fn iso_sep(b: u8) -> bool {
    b == 45 || b == 46
}

/// What `parse_date_iso` makes of a text: `YYYY-MM-DD` (or with `.`),
/// month 1..12 and day 1..31, as days since 2000.01.01.
pub open spec fn date_iso_spec(s: Seq<char>) -> Option<int> {
    let t = encode_utf8(trim_ws(s));
    if t.len() != 10 || !iso_sep(t[4]) || !iso_sep(t[7]) {
        None
    } else {
        let y = parse_i32_spec(t.subrange(0, 4));
        let m = parse_u32_spec(t.subrange(5, 7));
        let d = parse_u32_spec(t.subrange(8, 10));
        if y is Some && m is Some && d is Some && 1 <= m->0 <= 12 && 1 <= d->0 <= 31 {
            Some(wrap_i32(days_of_ymd(y->0, m->0, d->0)))
        } else {
            None
        }
    }
}

/// `YYYY-MM-DD` or `YYYY.MM.DD` (surrounding whitespace ignored) as days
/// since 2000.01.01.
pub fn parse_date_iso(s: &str) -> (r: Option<i32>)
    ensures
        match r {
            Some(v) => date_iso_spec(s@) == Some(v as int),
            None => date_iso_spec(s@) is None,
        },
{
    let t = trim(s);
    let b = t.as_bytes();
    if b.len() != 10 {
        return None;
    }
    if (b[4] != 45 && b[4] != 46) || (b[7] != 45 && b[7] != 46) {
        return None;
    }
    let y = match parse_i32(b, 0, 4) {
        Some(v) => v,
        None => return None,
    };
    let m = match parse_u32(b, 5, 7) {
        Some(v) => v,
        None => return None,
    };
    let d = match parse_u32(b, 8, 10) {
        Some(v) => v,
        None => return None,
    };
    if !(1 <= m && m <= 12) || !(1 <= d && d <= 31) {
        return None;
    }
    Some(days_from_ymd(y, m, d))
}

/// First index at or after `from` holding the byte `x`.
pub open spec fn find_byte(bs: Seq<u8>, x: u8, from: int) -> Option<int>
    decreases bs.len() - from,
{
    if from < 0 || from >= bs.len() {
        None
    } else if bs[from] == x {
        Some(from)
    } else {
        find_byte(bs, x, from + 1)
    }
}

proof fn lemma_find_byte(bs: Seq<u8>, x: u8, from: int)
    ensures
        find_byte(bs, x, from) matches Some(i) ==> from <= i < bs.len() && bs[i] == x,
    decreases bs.len() - from,
{
    if 0 <= from < bs.len() && bs[from] != x {
        lemma_find_byte(bs, x, from + 1);
    }
}

fn find(b: &[u8], x: u8, from: usize) -> (r: Option<usize>)
    requires
        from <= b@.len(),
    ensures
        match r {
            Some(i) => find_byte(b@, x, from as int) == Some(i as int) && from <= i < b@.len(),
            None => find_byte(b@, x, from as int) is None,
        },
{
    proof {
        lemma_find_byte(b@, x, from as int);
    }
    let mut i = from;
    while i < b.len()
        invariant
            from <= i <= b@.len(),
            find_byte(b@, x, from as int) == find_byte(b@, x, i as int),
        decreases b@.len() - i,
    {
        if b[i] == x {
            return Some(i);
        }
        i = i + 1;
    }
    None
}

/// The two `:` of `h:m:s` when there are exactly two.
pub open spec fn time_colons(t: Seq<u8>) -> Option<(int, int)> {
    match find_byte(t, 58, 0) {
        None => None,
        Some(c1) => match find_byte(t, 58, c1 + 1) {
            None => None,
            Some(c2) => if find_byte(t, 58, c2 + 1) is Some {
                None
            } else {
                Some((c1, c2))
            },
        },
    }
}

/// Fraction digits kept after the `.` at `k`: at most three.
pub open spec fn frac_take(t: Seq<u8>, k: int) -> int {
    if t.len() - (k + 1) < 3 {
        t.len() - (k + 1)
    } else {
        3
    }
}

/// `str` slicing at `i` is allowed: the end, or not inside a character.
pub open spec fn slice_ok(t: Seq<u8>, i: int) -> bool {
    i == t.len() || !is_continuation_byte(t[i])
}

/// Inputs on which `parse_time_iso` stops in a panic: the fraction is cut
/// inside a multi-byte character.
pub open spec fn time_iso_panics(s: Seq<char>) -> bool {
    let t = encode_utf8(trim_ws(s));
    match time_colons(t) {
        None => false,
        Some((c1, c2)) => parse_i32_spec(t.subrange(0, c1)) is Some && parse_i32_spec(
            t.subrange(c1 + 1, c2),
        ) is Some && match find_byte(t, 46, c2 + 1) {
            None => false,
            Some(k) => parse_i32_spec(t.subrange(c2 + 1, k)) is Some && !slice_ok(
                t,
                k + 1 + frac_take(t, k),
            ),
        },
    }
}

/// Milliseconds written by the fraction after the `.` at `k`.
pub open spec fn frac_ms(t: Seq<u8>, k: int) -> Option<int> {
    let tk = frac_take(t, k);
    match parse_i32_spec(t.subrange(k + 1, k + 1 + tk)) {
        None => None,
        Some(v) => Some(
            if tk == 1 {
                v * 100
            } else if tk == 2 {
                v * 10
            } else {
                v
            },
        ),
    }
}

/// What `parse_time_iso` makes of a text: `hh:mm:ss[.fff]` with hour
/// 0..23, minute and second 0..59, as milliseconds past midnight.
pub open spec fn time_iso_spec(s: Seq<char>) -> Option<int> {
    let t = encode_utf8(trim_ws(s));
    match time_colons(t) {
        None => None,
        Some((c1, c2)) => {
            let h = parse_i32_spec(t.subrange(0, c1));
            let m = parse_i32_spec(t.subrange(c1 + 1, c2));
            let (sec, ms) = match find_byte(t, 46, c2 + 1) {
                None => (parse_i32_spec(t.subrange(c2 + 1, t.len() as int)), Some(0int)),
                Some(k) => (parse_i32_spec(t.subrange(c2 + 1, k)), frac_ms(t, k)),
            };
            if h is Some && m is Some && sec is Some && ms is Some && 0 <= h->0 < 24 && 0
                <= m->0 < 60 && 0 <= sec->0 < 60 {
                Some((h->0 * 3600 + m->0 * 60 + sec->0) * 1000 + ms->0)
            } else {
                None
            }
        },
    }
}

/// `hh:mm:ss[.fff]` (surrounding whitespace ignored) as milliseconds past
/// midnight; fraction digits past the third are ignored.
pub fn parse_time_iso(s: &str) -> (r: Option<i32>)
    requires
        !time_iso_panics(s@),
    ensures
        match r {
            Some(v) => time_iso_spec(s@) == Some(v as int),
            None => time_iso_spec(s@) is None,
        },
{
    let t = trim(s);
    let b = t.as_bytes();
    let n = b.len();
    let c1 = match find(b, 58, 0) {
        Some(i) => i,
        None => return None,
    };
    let h = match parse_i32(b, 0, c1) {
        Some(v) => v,
        None => return None,
    };
    let c2 = match find(b, 58, c1 + 1) {
        Some(i) => i,
        None => return None,
    };
    let m = match parse_i32(b, c1 + 1, c2) {
        Some(v) => v,
        None => return None,
    };
    if find(b, 58, c2 + 1).is_some() {
        return None;
    }
    let (sec, ms) = match find(b, 46, c2 + 1) {
        Some(k) => {
            let sec = match parse_i32(b, c2 + 1, k) {
                Some(v) => v,
                None => return None,
            };
            let tk = if n - (k + 1) < 3 {
                n - (k + 1)
            } else {
                3
            };
            let f = match parse_i32(b, k + 1, k + 1 + tk) {
                Some(v) => v,
                None => return None,
            };
            proof {
                assert(-99 <= f <= 999) by {
                    assert(tk <= 3);
                    crate::num::lemma_parse_small(b@.subrange(k + 1, k + 1 + tk));
                }
            }
            let ms = if tk == 1 {
                f * 100
            } else if tk == 2 {
                f * 10
            } else {
                f
            };
            (sec, ms)
        },
        None => {
            let sec = match parse_i32(b, c2 + 1, n) {
                Some(v) => v,
                None => return None,
            };
            (sec, 0)
        },
    };
    if !(0 <= h && h < 24) || !(0 <= m && m < 60) || !(0 <= sec && sec < 60) {
        return None;
    }
    Some((h * 3600 + m * 60 + sec) * 1000 + ms)
}

/// Whether reading `s` as a time of day would cut its fraction inside a
/// multi-byte character (where `parse_time_iso` may not be called).
pub fn time_iso_cuts_char(s: &str) -> (b: bool)
    ensures
        b == time_iso_panics(s@),
{
    let t = trim(s);
    let b = t.as_bytes();
    let n = b.len();
    let c1 = match find(b, 58, 0) {
        Some(i) => i,
        None => return false,
    };
    let c2 = match find(b, 58, c1 + 1) {
        Some(i) => i,
        None => return false,
    };
    if find(b, 58, c2 + 1).is_some() {
        return false;
    }
    if parse_i32(b, 0, c1).is_none() || parse_i32(b, c1 + 1, c2).is_none() {
        return false;
    }
    match find(b, 46, c2 + 1) {
        None => false,
        Some(k) => {
            if parse_i32(b, c2 + 1, k).is_none() {
                return false;
            }
            let tk = if n - (k + 1) < 3 {
                n - (k + 1)
            } else {
                3
            };
            let e = k + 1 + tk;
            e < n && 0x80 <= b[e] && b[e] <= 0xbf
        },
    }
}

/// A text of digits and punctuation is its own trimmed form and its own
/// bytes.
proof fn lemma_plain_text(text: Seq<char>)
    requires
        text.len() > 0,
        forall|i: int|
            0 <= i < text.len() ==> ('0' <= #[trigger] text[i] <= '9') || text[i] == '-' || text[i]
                == ':' || text[i] == '.',
    ensures
        trim_ws(text) == text,
        encode_utf8(text) == crate::num::ascii_bytes(text),
{
    assert(!is_ws(text[0]));
    assert(trim_start_ws(text) == text);
    assert(!is_ws(text.last()));
    assert(trim_end_ws(text) == text);
    assert(is_ascii_chars(text));
    is_ascii_chars_encode_utf8(text);
    assert(encode_utf8(text) =~= crate::num::ascii_bytes(text));
}

proof fn lemma_dec_nat_chars(n: nat)
    ensures
        forall|j: int|
            0 <= j < crate::text::dec_nat(n).len() ==> '0' <= #[trigger] crate::text::dec_nat(n)[j]
                <= '9',
    decreases n,
{
    if n >= 10 {
        lemma_dec_nat_chars(n / 10);
        let p = crate::text::dec_nat(n / 10);
        assert forall|j: int| 0 <= j < crate::text::dec_nat(n).len() implies '0'
            <= #[trigger] crate::text::dec_nat(n)[j] <= '9' by {
            if j < p.len() {
                assert(crate::text::dec_nat(n)[j] == p[j]);
            }
        }
    }
}

/// A decimal's text is its own bytes.
pub proof fn lemma_digit_text(v: int)
    ensures
        encode_utf8(crate::text::dec_int(v)) == crate::num::ascii_bytes(crate::text::dec_int(v)),
{
    let text = crate::text::dec_int(v);
    let n: nat = if v < 0 {
        (-v) as nat
    } else {
        v as nat
    };
    lemma_dec_nat_chars(n);
    assert forall|i: int| 0 <= i < text.len() implies '\0' <= #[trigger] text[i] <= '\u{7f}' by {
        if v < 0 && i > 0 {
            assert(text[i] == crate::text::dec_nat(n)[i - 1]);
        }
    }
    assert(is_ascii_chars(text));
    is_ascii_chars_encode_utf8(text);
    assert(encode_utf8(text) =~= crate::num::ascii_bytes(text));
}

/// Digits of a zero-padded decimal, and its width.
proof fn lemma_pad_shape(i: int, w: int)
    requires
        1 <= w <= 4,
        (0 <= i < crate::text::pow10(w as nat)) || (i < 0 && w >= 2 && -i < crate::text::pow10(
            (w - 1) as nat,
        )),
    ensures
        dec_pad(i, w).len() == w,
        forall|j: int|
            0 <= j < w ==> ('0' <= #[trigger] dec_pad(i, w)[j] <= '9') || (j == 0 && dec_pad(
                i,
                w,
            )[j] == '-'),
{
    let v: nat = if i < 0 {
        (-i) as nat
    } else {
        i as nat
    };
    let k: nat = if i < 0 {
        (w - 1) as nat
    } else {
        w as nat
    };
    crate::text::lemma_dec_nat_len_bound(v, k);
    crate::num::lemma_pad_digits(v, k as int);
    let body = dec_pad(v as int, k as int);
    let z = crate::text::zeros(k - crate::text::dec_nat(v).len());
    lemma_dec_nat_chars(v);
    assert(body =~= z + crate::text::dec_nat(v));
    assert forall|j: int| 0 <= j < body.len() implies '0' <= #[trigger] body[j] <= '9' by {
        if j >= z.len() {
            assert(body[j] == crate::text::dec_nat(v)[j - z.len()]);
        }
    }
    if i < 0 {
        assert(dec_pad(i, w) =~= seq!['-'] + body);
    }
}

/// `YYYY-MM-DD` reads back as the day it spells, for every day whose
/// year has at most four characters (-999 to 9999).
pub proof fn lemma_date_iso_roundtrip(d: int)
    requires
        i32::MIN <= d <= i32::MAX,
        -999 <= ymd_of(d).0 <= 9999,
    ensures
        date_iso_spec(date_iso_text(d)) == Some(d),
{
    lemma_date_text(d);
}

/// The bytes of `YYYY-MM-DD`: ten of them, `-` at 4 and 7, each field
/// reading back as its number.
#[verifier::rlimit(50)]
#[verifier::spinoff_prover]
pub proof fn lemma_date_text(d: int)
    requires
        i32::MIN <= d <= i32::MAX,
        -999 <= ymd_of(d).0 <= 9999,
    ensures
        date_iso_spec(date_iso_text(d)) == Some(d),
        encode_utf8(date_iso_text(d)).len() == 10,
        encode_utf8(date_iso_text(d))[4] == 45,
        crate::num::is_digit(encode_utf8(date_iso_text(d))[0]) || encode_utf8(date_iso_text(d))[0]
            == 45,
{
    let (y, m, dd) = ymd_of(d);
    crate::calendar::lemma_ymd_of(d);
    crate::calendar::lemma_days_of_ymd(y, m, dd);
    reveal_with_fuel(crate::text::pow10, 5);
    lemma_pad_shape(y, 4);
    lemma_pad_shape(m, 2);
    lemma_pad_shape(dd, 2);
    let py = dec_pad(y, 4);
    let pm = dec_pad(m, 2);
    let pd = dec_pad(dd, 2);
    let text = date_iso_text(d);
    assert(text =~= py + seq!['-'] + pm + seq!['-'] + pd);
    assert forall|j: int| 0 <= j < text.len() implies ('0' <= #[trigger] text[j] <= '9') || text[j]
        == '-' || text[j] == ':' || text[j] == '.' by {
        if j < 4 {
            assert(text[j] == py[j]);
        } else if 5 <= j < 7 {
            assert(text[j] == pm[j - 5]);
        } else if 8 <= j {
            assert(text[j] == pd[j - 8]);
        }
    }
    lemma_plain_text(text);
    let t = crate::num::ascii_bytes(text);
    assert(text[0] == py[0]);
    assert(t.subrange(0, 4) =~= crate::num::ascii_bytes(py));
    assert(t.subrange(5, 7) =~= crate::num::ascii_bytes(pm));
    assert(t.subrange(8, 10) =~= crate::num::ascii_bytes(pd));
    assert(t[4] == 45 && t[7] == 45);
    crate::num::lemma_parse_pad(y, 4, i32::MIN as int, i32::MAX as int);
    crate::num::lemma_parse_pad(m, 2, i32::MIN as int, u32::MAX as int);
    crate::num::lemma_parse_pad(dd, 2, i32::MIN as int, u32::MAX as int);
    assert(wrap_i32(d) == d);
}

/// The clock fields of a time of day from -99 ms to the end of the day:
/// hour, minute, second, millisecond.
proof fn lemma_time_fields(ms: int)
    requires
        -99 <= ms < 86_400_000,
    ensures
        0 <= tdiv(ms, 3_600_000) < 24,
        0 <= trem(tdiv(ms, 60_000), 60) < 60,
        0 <= trem(tdiv(ms, 1000), 60) < 60,
        -99 <= trem(ms, 1000) < 1000,
        (tdiv(ms, 3_600_000) * 3600 + trem(tdiv(ms, 60_000), 60) * 60 + trem(tdiv(ms, 1000), 60))
            * 1000 + trem(ms, 1000) == ms,
{
    if ms >= 0 {
        let a = ms / 1000;
        let b = a / 60;
        vstd::arithmetic::div_mod::lemma_div_denominator(ms, 1000, 60);
        vstd::arithmetic::div_mod::lemma_div_denominator(ms, 60000, 60);
        assert(ms / 60000 == b);
        assert(ms / 3_600_000 == b / 60);
        assert(ms == a * 1000 + ms % 1000);
        assert(a == b * 60 + a % 60);
        assert(b == (b / 60) * 60 + b % 60);
    }
}

/// `hh:mm:ss.mmm` reads back as the milliseconds it spells, for every
/// time from -99 ms to the end of the day.
pub proof fn lemma_time_iso_roundtrip(ms: int)
    requires
        -99 <= ms < 86_400_000,
    ensures
        !time_iso_panics(time_text(ms)),
        time_iso_spec(time_text(ms)) == Some(ms),
{
    let h = tdiv(ms, 3_600_000);
    let m = trem(tdiv(ms, 60_000), 60);
    let sec = trem(tdiv(ms, 1000), 60);
    let r = trem(ms, 1000);
    lemma_time_fields(ms);
    reveal_with_fuel(crate::text::pow10, 5);
    lemma_pad_shape(h, 2);
    lemma_pad_shape(m, 2);
    lemma_pad_shape(sec, 2);
    lemma_pad_shape(r, 3);
    let ph = dec_pad(h, 2);
    let pm = dec_pad(m, 2);
    let ps = dec_pad(sec, 2);
    let pr = dec_pad(r, 3);
    let text = time_text(ms);
    assert(text =~= ph + seq![':'] + pm + seq![':'] + ps + seq!['.'] + pr);
    assert forall|j: int| 0 <= j < text.len() implies ('0' <= #[trigger] text[j] <= '9') || text[j]
        == '-' || text[j] == ':' || text[j] == '.' by {
        if j < 2 {
            assert(text[j] == ph[j]);
        } else if 3 <= j < 5 {
            assert(text[j] == pm[j - 3]);
        } else if 6 <= j < 8 {
            assert(text[j] == ps[j - 6]);
        } else if 9 <= j {
            assert(text[j] == pr[j - 9]);
        }
    }
    lemma_plain_text(text);
    let t = crate::num::ascii_bytes(text);
    assert(t.len() == 12);
    assert(t[2] == 58 && t[5] == 58 && t[8] == 46);
    assert(t[0] != 58 && t[1] != 58 && t[3] != 58 && t[4] != 58);
    assert(t[6] != 58 && t[7] != 58 && t[9] != 58 && t[10] != 58 && t[11] != 58);
    assert(t[6] != 46 && t[7] != 46);
    assert(find_byte(t, 58, 12) is None);
    assert(find_byte(t, 58, 11) is None);
    assert(find_byte(t, 58, 10) is None);
    assert(find_byte(t, 58, 9) is None);
    assert(find_byte(t, 58, 8) is None);
    assert(find_byte(t, 58, 7) is None);
    assert(find_byte(t, 58, 6) is None);
    assert(find_byte(t, 58, 5) == Some(5int));
    assert(find_byte(t, 58, 4) == Some(5int));
    assert(find_byte(t, 58, 3) == Some(5int));
    assert(find_byte(t, 58, 2) == Some(2int));
    assert(find_byte(t, 58, 1) == Some(2int));
    assert(find_byte(t, 58, 0) == Some(2int));
    assert(find_byte(t, 46, 8) == Some(8int));
    assert(find_byte(t, 46, 7) == Some(8int));
    assert(find_byte(t, 46, 6) == Some(8int));
    assert(time_colons(t) == Some((2int, 5int)));
    assert(t.subrange(0, 2) =~= crate::num::ascii_bytes(ph));
    assert(t.subrange(3, 5) =~= crate::num::ascii_bytes(pm));
    assert(t.subrange(6, 8) =~= crate::num::ascii_bytes(ps));
    assert(frac_take(t, 8) == 3);
    assert(t.subrange(9, 12) =~= crate::num::ascii_bytes(pr));
    crate::num::lemma_parse_pad(h, 2, i32::MIN as int, i32::MAX as int);
    crate::num::lemma_parse_pad(m, 2, i32::MIN as int, i32::MAX as int);
    crate::num::lemma_parse_pad(sec, 2, i32::MIN as int, i32::MAX as int);
    crate::num::lemma_parse_pad(r, 3, i32::MIN as int, i32::MAX as int);
    assert(slice_ok(t, 12));
}


proof fn lemma_find_none(t: Seq<u8>, x: u8, from: int)
    requires
        0 <= from,
        forall|i: int| from <= i < t.len() ==> #[trigger] t[i] != x,
    ensures
        find_byte(t, x, from) is None,
    decreases t.len() - from,
{
    if from < t.len() {
        lemma_find_none(t, x, from + 1);
    }
}

proof fn lemma_find_at(t: Seq<u8>, x: u8, from: int, i: int)
    requires
        0 <= from <= i < t.len(),
        t[i] == x,
        forall|j: int| from <= j < i ==> #[trigger] t[j] != x,
    ensures
        find_byte(t, x, from) == Some(i),
    decreases i - from,
{
    if from < i {
        lemma_find_at(t, x, from + 1, i);
    }
}

/// The bytes of `hh:mm:ss` followed by `tail`: digits everywhere but the
/// two colons at 2 and 5, each field reading back as its number.
proof fn lemma_clock_fields(h: int, m: int, sec: int, tail: Seq<char>)
    requires
        0 <= h < 100,
        0 <= m < 100,
        0 <= sec < 100,
        forall|i: int| 0 <= i < tail.len() ==> ('0' <= #[trigger] tail[i] <= '9') || tail[i] == '.',
    ensures
        ({
            let text = dec_pad(h, 2) + seq![':'] + dec_pad(m, 2) + seq![':'] + dec_pad(sec, 2)
                + tail;
            let t = crate::num::ascii_bytes(text);
            &&& trim_ws(text) == text
            &&& encode_utf8(text) == t
            &&& t.len() == 8 + tail.len()
            &&& t[2] == 58 && t[5] == 58
            &&& forall|j: int| 0 <= j < 8 && j != 2 && j != 5 ==> 48 <= #[trigger] t[j] <= 57
            &&& forall|j: int| 0 <= j < tail.len() ==> #[trigger] t[8 + j] == tail[j] as u8
            &&& t.subrange(8, t.len() as int) == crate::num::ascii_bytes(tail)
            &&& time_colons(t) == Some((2int, 5int))
            &&& parse_i32_spec(t.subrange(0, 2)) == Some(h)
            &&& parse_i32_spec(t.subrange(3, 5)) == Some(m)
        }),
{
    reveal_with_fuel(crate::text::pow10, 5);
    lemma_pad_shape(h, 2);
    lemma_pad_shape(m, 2);
    lemma_pad_shape(sec, 2);
    let ph = dec_pad(h, 2);
    let pm = dec_pad(m, 2);
    let ps = dec_pad(sec, 2);
    let text = ph + seq![':'] + pm + seq![':'] + ps + tail;
    assert forall|j: int| 0 <= j < text.len() implies ('0' <= #[trigger] text[j] <= '9') || text[j]
        == '-' || text[j] == ':' || text[j] == '.' by {
        if j < 2 {
            assert(text[j] == ph[j]);
        } else if 3 <= j < 5 {
            assert(text[j] == pm[j - 3]);
        } else if 6 <= j < 8 {
            assert(text[j] == ps[j - 6]);
        } else if 8 <= j {
            assert(text[j] == tail[j - 8]);
        }
    }
    lemma_plain_text(text);
    let t = crate::num::ascii_bytes(text);
    crate::num::lemma_pad_digits(h as nat, 2);
    crate::num::lemma_pad_digits(m as nat, 2);
    crate::num::lemma_pad_digits(sec as nat, 2);
    assert(t.subrange(0, 2) =~= crate::num::ascii_bytes(ph));
    assert(t.subrange(3, 5) =~= crate::num::ascii_bytes(pm));
    assert(t.subrange(6, 8) =~= crate::num::ascii_bytes(ps));
    assert forall|j: int| 0 <= j < 8 && j != 2 && j != 5 implies 48 <= #[trigger] t[j] <= 57 by {
        if j < 2 {
            assert(t[j] == t.subrange(0, 2)[j]);
            assert(crate::num::is_digit(crate::num::ascii_bytes(ph)[j]));
        } else if 3 <= j < 5 {
            assert(t[j] == t.subrange(3, 5)[j - 3]);
            assert(crate::num::is_digit(crate::num::ascii_bytes(pm)[j - 3]));
        } else {
            assert(t[j] == t.subrange(6, 8)[j - 6]);
            assert(crate::num::is_digit(crate::num::ascii_bytes(ps)[j - 6]));
        }
    }
    assert forall|j: int| 0 <= j < tail.len() implies #[trigger] t[8 + j] == tail[j] as u8 by {
        assert(text[8 + j] == tail[j]);
    }
    assert(t.subrange(8, t.len() as int) =~= crate::num::ascii_bytes(tail));
    assert forall|j: int| 6 <= j < t.len() implies #[trigger] t[j] != 58 by {
        if j >= 8 {
            assert(t[8 + (j - 8)] == tail[j - 8] as u8);
        }
    }
    lemma_find_at(t, 58, 0, 2);
    lemma_find_at(t, 58, 3, 5);
    lemma_find_none(t, 58, 6);
    assert(t.subrange(0, 2) =~= crate::num::ascii_bytes(ph));
    assert(t.subrange(3, 5) =~= crate::num::ascii_bytes(pm));
    crate::num::lemma_parse_pad(h, 2, i32::MIN as int, i32::MAX as int);
    crate::num::lemma_parse_pad(m, 2, i32::MIN as int, i32::MAX as int);
}

/// Law: the fraction of `hh:mm:ss.f` is a decimal fraction of a second:
/// one to three digits spelling `f` add `f / 10^k` seconds, that is
/// `f * 10^(3 - k)` milliseconds, to the clock fields.
pub proof fn lemma_time_fraction(h: int, m: int, sec: int, f: int, k: int)
    requires
        0 <= h < 24,
        0 <= m < 60,
        0 <= sec < 60,
        1 <= k <= 3,
        0 <= f < crate::text::pow10(k as nat),
    ensures
        time_iso_spec(
            dec_pad(h, 2) + seq![':'] + dec_pad(m, 2) + seq![':'] + dec_pad(sec, 2) + seq!['.']
                + dec_pad(f, k),
        ) == Some((h * 3600 + m * 60 + sec) * 1000 + f * crate::text::pow10((3 - k) as nat)),
{
    reveal_with_fuel(crate::text::pow10, 5);
    lemma_pad_shape(f, k);
    let pf = dec_pad(f, k);
    let tail = seq!['.'] + pf;
    crate::num::lemma_pad_digits(f as nat, k);
    assert forall|i: int| 0 <= i < tail.len() implies ('0' <= #[trigger] tail[i] <= '9') || tail[i]
        == '.' by {
        if i > 0 {
            assert(tail[i] == pf[i - 1]);
            assert(crate::num::ascii_bytes(pf)[i - 1] == pf[i - 1] as u8);
            assert(crate::num::is_digit(crate::num::ascii_bytes(pf)[i - 1]));
        }
    }
    lemma_clock_fields(h, m, sec, tail);
    let ps = dec_pad(sec, 2);
    lemma_pad_shape(sec, 2);
    let text = dec_pad(h, 2) + seq![':'] + dec_pad(m, 2) + seq![':'] + ps + tail;
    let t = crate::num::ascii_bytes(text);
    assert(t[8 + 0int] == tail[0] as u8);
    assert(t[8] == 46);
    assert(t[6] != 46 && t[7] != 46);
    lemma_find_at(t, 46, 6, 8);
    assert(t.subrange(6, 8) =~= crate::num::ascii_bytes(ps)) by {
        assert(text.subrange(6, 8) =~= ps);
    }
    assert(frac_take(t, 8) == k);
    assert(t.subrange(9, 9 + k) =~= crate::num::ascii_bytes(pf)) by {
        assert forall|j: int| 0 <= j < k implies t.subrange(9, 9 + k)[j] == crate::num::ascii_bytes(
            pf,
        )[j] by {
            assert(t[8 + (1 + j)] == tail[1 + j] as u8);
            assert(tail[1 + j] == pf[j]);
        }
    }
    crate::num::lemma_parse_pad(sec, 2, i32::MIN as int, i32::MAX as int);
    crate::num::lemma_parse_pad(f, k, i32::MIN as int, i32::MAX as int);
    assert(text =~= dec_pad(h, 2) + seq![':'] + dec_pad(m, 2) + seq![':'] + dec_pad(sec, 2) + seq![
        '.',
    ] + dec_pad(f, k));
    assert(parse_i32_spec(t.subrange(6, 8)) == Some(sec));
    assert(parse_i32_spec(t.subrange(9, 9 + k)) == Some(f));
    assert(frac_take(t, 8) == k);
    assert(t.subrange(8int + 1, 8int + 1 + frac_take(t, 8)) == t.subrange(9, 9 + k));
    let e: nat = (3 - k) as nat;
    if k == 1 {
        assert(e == 2);
        assert(crate::text::pow10(e) == 100);
        assert(frac_ms(t, 8) == Some(f * 100));
    } else if k == 2 {
        assert(e == 1);
        assert(crate::text::pow10(e) == 10);
        assert(frac_ms(t, 8) == Some(f * 10));
    } else {
        assert(e == 0);
        assert(crate::text::pow10(e) == 1);
        assert(frac_ms(t, 8) == Some(f));
    }
    assert(frac_ms(t, 8) == Some(f * crate::text::pow10((3 - k) as nat)));
}

/// Law: a seconds literal `hh:mm:ss` reads back, as a time of day, as
/// the seconds it was printed from: hours first, then minutes, then
/// seconds.
pub proof fn lemma_second_text_reads_back(s: int)
    requires
        0 <= s < 86_400,
    ensures
        time_iso_spec(second_text(s)) == Some(s * 1000),
{
    let h = s / 3600;
    let m = (s / 60) % 60;
    let sec = s % 60;
    vstd::arithmetic::div_mod::lemma_div_denominator(s, 60, 60);
    assert(s / 3600 == (s / 60) / 60);
    assert(s == (s / 60) * 60 + sec);
    assert(s / 60 == h * 60 + m);
    assert(tdiv(s, 3600) == h && trem(tdiv(s, 60), 60) == m && trem(s, 60) == sec);
    let tail = Seq::<char>::empty();
    lemma_clock_fields(h, m, sec, tail);
    let ps = dec_pad(sec, 2);
    let text = dec_pad(h, 2) + seq![':'] + dec_pad(m, 2) + seq![':'] + ps + tail;
    assert(second_text(s) =~= text);
    let t = crate::num::ascii_bytes(text);
    assert(t[6] != 46 && t[7] != 46);
    lemma_find_none(t, 46, 6);
    assert(t.subrange(6, 8) =~= crate::num::ascii_bytes(ps)) by {
        assert(text.subrange(6, 8) =~= ps);
    }
    crate::num::lemma_parse_pad(sec, 2, i32::MIN as int, i32::MAX as int);
}


/// Law: a clock `hh:mm:ss` is refused when its hour is 24 or more, or
/// its minute or second 60 or more.
pub proof fn lemma_time_out_of_range(h: int, m: int, sec: int)
    requires
        0 <= h < 100,
        0 <= m < 100,
        0 <= sec < 100,
        h >= 24 || m >= 60 || sec >= 60,
    ensures
        time_iso_spec(dec_pad(h, 2) + seq![':'] + dec_pad(m, 2) + seq![':'] + dec_pad(sec, 2))
            is None,
{
    let tail = Seq::<char>::empty();
    lemma_clock_fields(h, m, sec, tail);
    reveal_with_fuel(crate::text::pow10, 5);
    lemma_pad_shape(sec, 2);
    let ps = dec_pad(sec, 2);
    let text = dec_pad(h, 2) + seq![':'] + dec_pad(m, 2) + seq![':'] + ps + tail;
    assert(text =~= dec_pad(h, 2) + seq![':'] + dec_pad(m, 2) + seq![':'] + dec_pad(sec, 2));
    let t = crate::num::ascii_bytes(text);
    assert(t[6] != 46 && t[7] != 46);
    lemma_find_none(t, 46, 6);
    assert(t.subrange(6, 8) =~= crate::num::ascii_bytes(ps)) by {
        assert(text.subrange(6, 8) =~= ps);
    }
    crate::num::lemma_parse_pad(sec, 2, i32::MIN as int, i32::MAX as int);
}


/// Law: `YYYY-MM-DD` (year 0 to 9999, two-digit month and day) is read as
/// the Gregorian day count from 2000-01-01 of that date when the month is
/// 1 to 12 and the day 1 to 31 (a day past the month's end runs on into
/// the next), and is refused otherwise.
pub proof fn lemma_date_fields(y: int, m: int, dd: int)
    requires
        0 <= y <= 9999,
        0 <= m < 100,
        0 <= dd < 100,
    ensures
        date_iso_spec(dec_pad(y, 4) + seq!['-'] + dec_pad(m, 2) + seq!['-'] + dec_pad(dd, 2)) == if 1
            <= m <= 12 && 1 <= dd <= 31 {
            Some(wrap_i32(crate::calendar::civil_days(y, m, dd)))
        } else {
            None
        },
{
    reveal_with_fuel(crate::text::pow10, 5);
    lemma_pad_shape(y, 4);
    lemma_pad_shape(m, 2);
    lemma_pad_shape(dd, 2);
    let py = dec_pad(y, 4);
    let pm = dec_pad(m, 2);
    let pd = dec_pad(dd, 2);
    let text = py + seq!['-'] + pm + seq!['-'] + pd;
    assert forall|j: int| 0 <= j < text.len() implies ('0' <= #[trigger] text[j] <= '9') || text[j]
        == '-' || text[j] == ':' || text[j] == '.' by {
        if j < 4 {
            assert(text[j] == py[j]);
        } else if 5 <= j < 7 {
            assert(text[j] == pm[j - 5]);
        } else if 8 <= j {
            assert(text[j] == pd[j - 8]);
        }
    }
    lemma_plain_text(text);
    let t = crate::num::ascii_bytes(text);
    assert(t.subrange(0, 4) =~= crate::num::ascii_bytes(py));
    assert(t.subrange(5, 7) =~= crate::num::ascii_bytes(pm));
    assert(t.subrange(8, 10) =~= crate::num::ascii_bytes(pd));
    assert(t[4] == 45 && t[7] == 45);
    crate::num::lemma_parse_pad(y, 4, i32::MIN as int, i32::MAX as int);
    crate::num::lemma_parse_pad(m, 2, i32::MIN as int, u32::MAX as int);
    crate::num::lemma_parse_pad(dd, 2, i32::MIN as int, u32::MAX as int);
    if 1 <= m <= 12 {
        crate::calendar::lemma_days_of_ymd(y, m, dd);
    }
}

} // verus!
