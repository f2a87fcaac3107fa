//! Text helpers: UTF-8 decoding of wire bytes and decimal spelling of
//! integers.

use vstd::prelude::*;
use vstd::utf8::*;

verus! {

/// What `String::from_utf8_lossy` gives for bytes that are *not* valid
/// UTF-8 (each maximal invalid run replaced by U+FFFD).
pub uninterp spec fn lossy_invalid_text(bytes: Seq<u8>) -> Seq<char>;

/// Lossy UTF-8 decoding: valid input decodes exactly.
pub open spec fn lossy_text(bytes: Seq<u8>) -> Seq<char> {
    if valid_utf8(bytes) {
        decode_utf8(bytes)
    } else {
        lossy_invalid_text(bytes)
    }
}

/// `std::str::from_utf8(b).ok()`: the text when `b` is valid UTF-8.
#[verifier::external_body]
pub(crate) fn str_from_utf8<'a>(b: &'a [u8]) -> (r: Option<&'a str>)
    ensures
        r is Some <==> valid_utf8(b@),
        r matches Some(s) ==> s@ == decode_utf8(b@),
{
    std::str::from_utf8(b).ok()
}

/// `String::from_utf8_lossy(b).into_owned()`: valid UTF-8 decodes
/// unchanged; otherwise the result is the name `lossy_invalid_text`.
#[verifier::external_body]
pub(crate) fn utf8_lossy(b: &[u8]) -> (s: String)
    ensures
        valid_utf8(b@) ==> s@ == decode_utf8(b@),
        !valid_utf8(b@) ==> s@ == lossy_invalid_text(b@),
        s@ == lossy_text(b@),
{
    String::from_utf8_lossy(b).into_owned()
}

} // verus!

verus! {

/// The ASCII digit for `d < 10`.
pub open spec fn digit(d: nat) -> char {
    (48 + d) as char
}

/// Decimal spelling of a natural number, no leading zeros.
pub open spec fn dec_nat(n: nat) -> Seq<char>
    decreases n,
{
    if n < 10 {
        seq![digit(n)]
    } else {
        dec_nat(n / 10).push(digit(n % 10))
    }
}

/// Decimal spelling of an integer, `-` before a negative one.
pub open spec fn dec_int(i: int) -> Seq<char> {
    if i < 0 {
        seq!['-'] + dec_nat((-i) as nat)
    } else {
        dec_nat(i as nat)
    }
}

/// `k` copies of `'0'`.
pub open spec fn zeros(k: int) -> Seq<char> {
    Seq::new(if k > 0 { k as nat } else { 0 }, |_i: int| '0')
}

/// `format!("{i:0w}")`: zero-padded to width `w`, the sign counted in it.
pub open spec fn dec_pad(i: int, w: int) -> Seq<char> {
    if i < 0 {
        seq!['-'] + zeros(w - 1 - dec_nat((-i) as nat).len()) + dec_nat((-i) as nat)
    } else {
        zeros(w - dec_nat(i as nat).len()) + dec_nat(i as nat)
    }
}

/// `10^k`.
pub open spec fn pow10(k: nat) -> nat
    decreases k,
{
    if k == 0 {
        1
    } else {
        10 * pow10((k - 1) as nat)
    }
}

pub proof fn lemma_dec_nat_len_bound(n: nat, k: nat)
    requires
        k >= 1,
        n < pow10(k),
    ensures
        1 <= dec_nat(n).len() <= k,
    decreases n,
{
    if n >= 10 {
        assert(k >= 2) by {
            if k == 1 {
                assert(pow10(1) == 10) by {
                    reveal_with_fuel(pow10, 2);
                }
            }
        }
        lemma_dec_nat_len_bound(n / 10, (k - 1) as nat);
    }
}

pub proof fn lemma_dec_nat_len(n: nat)
    ensures
        n <= 0xffff_ffff_ffff_ffff ==> 1 <= dec_nat(n).len() <= 20,
        n < 10 ==> dec_nat(n).len() == 1,
        10 <= n < 100 ==> dec_nat(n).len() == 2,
{
    if n <= 0xffff_ffff_ffff_ffff {
        assert(pow10(20) == 100_000_000_000_000_000_000) by {
            reveal_with_fuel(pow10, 21);
        }
        lemma_dec_nat_len_bound(n, 20);
    }
    if 10 <= n < 100 {
        assert(dec_nat(n / 10).len() == 1);
    }
}

/// `s.push(c)`.
#[verifier::external_body]
pub(crate) fn push_char(s: &mut String, c: char)
    ensures
        final(s)@ == old(s)@.push(c),
{
    s.push(c);
}

/// Appends `t` to `s`.
pub(crate) fn push_str(s: &mut String, t: &str)
    ensures
        final(s)@ == old(s)@ + t@,
{
    s.append(t);
}


fn digit_char(d: u64) -> (c: char)
    requires
        d < 10,
    ensures
        c == digit(d as nat),
{
    let b = (48 + d) as u8;
    b as char
}

/// Appends the decimal spelling of `n`.
pub fn push_nat(s: &mut String, n: u64)
    ensures
        final(s)@ == old(s)@ + dec_nat(n as nat),
    decreases n,
{
    if n < 10 {
        push_char(s, digit_char(n));
        assert(dec_nat(n as nat) =~= seq![digit(n as nat)]);
    } else {
        let ghost s0 = s@;
        push_nat(s, n / 10);
        push_char(s, digit_char(n % 10));
        assert(s@ =~= s0 + dec_nat(n as nat));
    }
}

/// Appends the decimal spelling of `i`.
pub fn push_int(s: &mut String, i: i64)
    ensures
        final(s)@ == old(s)@ + dec_int(i as int),
{
    let ghost s0 = s@;
    if i < 0 {
        push_char(s, '-');
        let m: u64 = ((-(i + 1)) as u64) + 1;
        push_nat(s, m);
        assert(s@ =~= s0 + dec_int(i as int));
    } else {
        push_nat(s, i as u64);
    }
}

/// Appends `k` zeros.
pub fn push_zeros(s: &mut String, k: i64)
    ensures
        final(s)@ == old(s)@ + zeros(k as int),
{
    let ghost s0 = s@;
    let mut j: i64 = 0;
    while j < k
        invariant
            k > 0 ==> 0 <= j <= k,
            k <= 0 ==> j == 0,
            s@ == s0 + zeros(j as int),
        decreases k - j,
    {
        push_char(s, '0');
        assert(s0 + zeros(j + 1) =~= (s0 + zeros(j as int)).push('0'));
        j = j + 1;
    }
    assert(zeros(j as int) =~= zeros(k as int));
}

/// Number of decimal digits of `n`.
pub fn dec_len(n: u64) -> (r: u64)
    ensures
        r as nat == dec_nat(n as nat).len(),
        r <= 20,
    decreases n,
{
    proof {
        lemma_dec_nat_len(n as nat);
    }
    if n < 10 {
        1
    } else {
        dec_len(n / 10) + 1
    }
}

/// Appends `format!("{i:0w}")`.
pub fn push_pad(s: &mut String, i: i64, w: i64)
    requires
        0 <= w <= 64,
    ensures
        final(s)@ == old(s)@ + dec_pad(i as int, w as int),
{
    let ghost s0 = s@;
    if i < 0 {
        let m: u64 = ((-(i + 1)) as u64) + 1;
        push_char(s, '-');
        let l = dec_len(m) as i64;
        push_zeros(s, w - 1 - l);
        push_nat(s, m);
        assert(s@ =~= s0 + dec_pad(i as int, w as int));
    } else {
        let l = dec_len(i as u64) as i64;
        push_zeros(s, w - l);
        push_nat(s, i as u64);
        assert(s@ =~= s0 + dec_pad(i as int, w as int));
    }
}

} // verus!
