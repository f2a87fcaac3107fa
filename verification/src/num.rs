//! Decimal integers read from text: an optional sign then ASCII digits,
//! refused when empty, with a stray character, or out of range (the rules
//! of `str::parse` for the integer types).

use vstd::prelude::*;

verus! {

pub open spec fn is_digit(b: u8) -> bool {
    48 <= b <= 57
}

pub open spec fn all_digits(bs: Seq<u8>) -> bool {
    forall|i: int| 0 <= i < bs.len() ==> is_digit(#[trigger] bs[i])
}

/// The value of a run of decimal digits.
pub open spec fn digits_value(bs: Seq<u8>) -> nat
    decreases bs.len(),
{
    if bs.len() == 0 {
        0
    } else {
        digits_value(bs.drop_last()) * 10 + (bs.last() - 48) as nat
    }
}

/// Unsigned digits (after an optional `+`) within `0..=hi`.
pub open spec fn parse_unsigned(bs: Seq<u8>, hi: int) -> Option<int> {
    let body = if bs.len() > 0 && bs[0] == 43 {
        bs.drop_first()
    } else {
        bs
    };
    if body.len() > 0 && all_digits(body) && digits_value(body) <= hi {
        Some(digits_value(body) as int)
    } else {
        None
    }
}

/// A signed decimal within `lo..=hi`.
pub open spec fn parse_signed(bs: Seq<u8>, lo: int, hi: int) -> Option<int> {
    if bs.len() > 0 && bs[0] == 45 {
        let body = bs.drop_first();
        if body.len() > 0 && all_digits(body) && lo <= -digits_value(body) {
            Some(-digits_value(body))
        } else {
            None
        }
    } else {
        parse_unsigned(bs, hi)
    }
}

/// `str::parse::<i32>` on these bytes.
pub open spec fn parse_i32_spec(bs: Seq<u8>) -> Option<int> {
    parse_signed(bs, i32::MIN as int, i32::MAX as int)
}

/// `str::parse::<i64>` on these bytes.
pub open spec fn parse_i64_spec(bs: Seq<u8>) -> Option<int> {
    parse_signed(bs, i64::MIN as int, i64::MAX as int)
}

/// `str::parse::<u16>` on these bytes.
pub open spec fn parse_u16_spec(bs: Seq<u8>) -> Option<int> {
    parse_unsigned(bs, u16::MAX as int)
}

/// `str::parse::<u32>` on these bytes.
pub open spec fn parse_u32_spec(bs: Seq<u8>) -> Option<int> {
    parse_unsigned(bs, u32::MAX as int)
}

proof fn lemma_digits_grow(bs: Seq<u8>, b: u8)
    requires
        is_digit(b),
    ensures
        digits_value(bs.push(b)) == digits_value(bs) * 10 + (b - 48),
        digits_value(bs.push(b)) >= digits_value(bs),
{
    assert(bs.push(b).drop_last() =~= bs);
}

/// Up to three digits stay below a thousand.
proof fn lemma_digits_short(bs: Seq<u8>)
    requires
        bs.len() <= 3,
        all_digits(bs),
    ensures
        digits_value(bs) < (if bs.len() == 0 {
            1int
        } else if bs.len() == 1 {
            10int
        } else if bs.len() == 2 {
            100int
        } else {
            1000int
        }),
    decreases bs.len(),
{
    if bs.len() > 0 {
        let p = bs.drop_last();
        assert forall|i: int| 0 <= i < p.len() implies is_digit(#[trigger] p[i]) by {
            assert(p[i] == bs[i]);
        }
        lemma_digits_short(p);
        assert(is_digit(bs[bs.len() - 1]));
    }
}

/// A decimal of at most three characters lies in `-99..=999`.
pub proof fn lemma_parse_small(bs: Seq<u8>)
    requires
        bs.len() <= 3,
    ensures
        parse_i32_spec(bs) matches Some(v) ==> -99 <= v <= 999,
{
    if bs.len() > 0 && all_digits(bs) {
        lemma_digits_short(bs);
    }
    if bs.len() > 0 && all_digits(bs.drop_first()) {
        lemma_digits_short(bs.drop_first());
    }
}

/// Value of the digits `d[a..b]` if all are digits, capped above at
/// `2^64`.
fn digits_capped(d: &[u8], a: usize, b: usize) -> (r: Option<u128>)
    requires
        a <= b <= d@.len(),
    ensures
        match r {
            Some(v) => all_digits(d@.subrange(a as int, b as int)) && (if digits_value(
                d@.subrange(a as int, b as int),
            ) < 0x1_0000_0000_0000_0000 {
                v == digits_value(d@.subrange(a as int, b as int))
            } else {
                v == 0x1_0000_0000_0000_0000
            }),
            None => !all_digits(d@.subrange(a as int, b as int)),
        },
{
    let mut acc: u128 = 0;
    let mut i: usize = a;
    assert(d@.subrange(a as int, a as int) =~= Seq::<u8>::empty());
    while i < b
        invariant
            a <= i <= b <= d@.len(),
            all_digits(d@.subrange(a as int, i as int)),
            digits_value(d@.subrange(a as int, i as int)) < 0x1_0000_0000_0000_0000 ==> acc
                == digits_value(d@.subrange(a as int, i as int)),
            digits_value(d@.subrange(a as int, i as int)) >= 0x1_0000_0000_0000_0000 ==> acc
                == 0x1_0000_0000_0000_0000,
        decreases b - i,
    {
        let c = d[i];
        let ghost pre = d@.subrange(a as int, i as int);
        assert(d@.subrange(a as int, i + 1) =~= pre.push(c));
        if c < 48 || c > 57 {
            assert(!is_digit(d@.subrange(a as int, i + 1)[i - a]));
            assert forall|j: int| 0 <= j < b - a implies d@.subrange(a as int, b as int)[j]
                == d@[a + j] by {}
            assert(!is_digit(d@.subrange(a as int, b as int)[i - a]));
            return None;
        }
        proof {
            lemma_digits_grow(pre, c);
        }
        if acc < 0x1_0000_0000_0000_0000 {
            let next = acc * 10 + (c - 48) as u128;
            acc = if next < 0x1_0000_0000_0000_0000 {
                next
            } else {
                0x1_0000_0000_0000_0000
            };
        }
        i = i + 1;
    }
    Some(acc)
}

/// `str::parse::<i32>` of the bytes `d[a..b]`.
pub fn parse_i32(d: &[u8], a: usize, b: usize) -> (r: Option<i32>)
    requires
        a <= b <= d@.len(),
    ensures
        match r {
            Some(v) => parse_i32_spec(d@.subrange(a as int, b as int)) == Some(v as int),
            None => parse_i32_spec(d@.subrange(a as int, b as int)) is None,
        },
{
    let ghost bs = d@.subrange(a as int, b as int);
    if a < b && d[a] == 45 {
        assert(bs.drop_first() =~= d@.subrange(a + 1, b as int));
        if a + 1 == b {
            return None;
        }
        match digits_capped(d, a + 1, b) {
            Some(v) => if v <= 0x8000_0000 {
                if v == 0x8000_0000 {
                    Some(-2147483648)
                } else {
                    Some(-(v as i32))
                }
            } else {
                None
            },
            None => None,
        }
    } else {
        let start = if a < b && d[a] == 43 {
            a + 1
        } else {
            a
        };
        assert(start == a + 1 ==> bs.drop_first() =~= d@.subrange(start as int, b as int));
        assert(start == a ==> bs =~= d@.subrange(start as int, b as int));
        if start == b {
            return None;
        }
        match digits_capped(d, start, b) {
            Some(v) => if v <= 0x7fff_ffff {
                Some(v as i32)
            } else {
                None
            },
            None => None,
        }
    }
}

/// `str::parse::<i64>` of the bytes `d[a..b]`.
pub fn parse_i64(d: &[u8], a: usize, b: usize) -> (r: Option<i64>)
    requires
        a <= b <= d@.len(),
    ensures
        match r {
            Some(v) => parse_i64_spec(d@.subrange(a as int, b as int)) == Some(v as int),
            None => parse_i64_spec(d@.subrange(a as int, b as int)) is None,
        },
{
    let ghost bs = d@.subrange(a as int, b as int);
    if a < b && d[a] == 45 {
        assert(bs.drop_first() =~= d@.subrange(a + 1, b as int));
        if a + 1 == b {
            return None;
        }
        match digits_capped(d, a + 1, b) {
            Some(v) => if v <= 0x8000_0000_0000_0000 {
                if v == 0x8000_0000_0000_0000 {
                    Some(-9223372036854775808i64)
                } else {
                    Some(-(v as i64))
                }
            } else {
                None
            },
            None => None,
        }
    } else {
        let start = if a < b && d[a] == 43 {
            a + 1
        } else {
            a
        };
        assert(start == a + 1 ==> bs.drop_first() =~= d@.subrange(start as int, b as int));
        assert(start == a ==> bs =~= d@.subrange(start as int, b as int));
        if start == b {
            return None;
        }
        match digits_capped(d, start, b) {
            Some(v) => if v <= 0x7fff_ffff_ffff_ffff {
                Some(v as i64)
            } else {
                None
            },
            None => None,
        }
    }
}

/// `str::parse::<u16>` of the bytes `d[a..b]`.
pub fn parse_u16(d: &[u8], a: usize, b: usize) -> (r: Option<u16>)
    requires
        a <= b <= d@.len(),
    ensures
        match r {
            Some(v) => parse_u16_spec(d@.subrange(a as int, b as int)) == Some(v as int),
            None => parse_u16_spec(d@.subrange(a as int, b as int)) is None,
        },
{
    let ghost bs = d@.subrange(a as int, b as int);
    let start = if a < b && d[a] == 43 {
        a + 1
    } else {
        a
    };
    assert(start == a + 1 ==> bs.drop_first() =~= d@.subrange(start as int, b as int));
    assert(start == a ==> bs =~= d@.subrange(start as int, b as int));
    if start == b {
        return None;
    }
    match digits_capped(d, start, b) {
        Some(v) => if v <= 0xffff {
            Some(v as u16)
        } else {
            None
        },
        None => None,
    }
}

/// `str::parse::<u32>` of the bytes `d[a..b]`.
pub fn parse_u32(d: &[u8], a: usize, b: usize) -> (r: Option<u32>)
    requires
        a <= b <= d@.len(),
    ensures
        match r {
            Some(v) => parse_u32_spec(d@.subrange(a as int, b as int)) == Some(v as int),
            None => parse_u32_spec(d@.subrange(a as int, b as int)) is None,
        },
{
    let ghost bs = d@.subrange(a as int, b as int);
    let start = if a < b && d[a] == 43 {
        a + 1
    } else {
        a
    };
    assert(start == a + 1 ==> bs.drop_first() =~= d@.subrange(start as int, b as int));
    assert(start == a ==> bs =~= d@.subrange(start as int, b as int));
    if start == b {
        return None;
    }
    match digits_capped(d, start, b) {
        Some(v) => if v <= 0xffff_ffff {
            Some(v as u32)
        } else {
            None
        },
        None => None,
    }
}

/// The bytes of an ASCII text.
pub open spec fn ascii_bytes(s: Seq<char>) -> Seq<u8> {
    Seq::new(s.len(), |i: int| s[i] as u8)
}

proof fn lemma_digits_concat(a: Seq<u8>, b: Seq<u8>)
    ensures
        digits_value(a + b) == digits_value(a) * crate::text::pow10(b.len()) + digits_value(b),
    decreases b.len(),
{
    if b.len() == 0 {
        assert(a + b =~= a);
        assert(crate::text::pow10(0) == 1);
        assert(digits_value(b) == 0);
        assert(digits_value(a) * 1 == digits_value(a));
    } else {
        let b0 = b.drop_last();
        lemma_digits_concat(a, b0);
        assert((a + b).drop_last() =~= a + b0);
        assert((a + b).last() == b.last());
        let p = crate::text::pow10(b0.len());
        assert(crate::text::pow10(b.len()) == 10 * p);
        let x = digits_value(a);
        let y = digits_value(b0);
        let l = (b.last() - 48) as nat;
        assert(digits_value(b) == y * 10 + l);
        assert(digits_value(a + b) == (x * p + y) * 10 + l);
        assert((x * p + y) * 10 + l == x * (10 * p) + (y * 10 + l)) by (nonlinear_arith);
        assert(x * crate::text::pow10(b.len()) == x * (10 * p));
    }
}

proof fn lemma_zeros_value(k: int)
    ensures
        digits_value(ascii_bytes(crate::text::zeros(k))) == 0,
        all_digits(ascii_bytes(crate::text::zeros(k))),
    decreases k,
{
    let z = ascii_bytes(crate::text::zeros(k));
    if k > 0 {
        lemma_zeros_value(k - 1);
        assert(z.drop_last() =~= ascii_bytes(crate::text::zeros(k - 1)));
        assert(z.last() == 48);
    } else {
        assert(z.len() == 0);
    }
}

proof fn lemma_dec_nat_value(n: nat)
    ensures
        digits_value(ascii_bytes(crate::text::dec_nat(n))) == n,
        all_digits(ascii_bytes(crate::text::dec_nat(n))),
        ascii_bytes(crate::text::dec_nat(n)).len() >= 1,
    decreases n,
{
    let b = ascii_bytes(crate::text::dec_nat(n));
    if n < 10 {
        assert(b.len() == 1);
        assert(b[0] == 48 + n);
        assert(b.drop_last().len() == 0);
        assert(digits_value(b.drop_last()) == 0);
        assert(b.last() == b[0]);
    } else {
        lemma_dec_nat_value(n / 10);
        let p = ascii_bytes(crate::text::dec_nat(n / 10));
        assert(b.drop_last() =~= p);
        assert(b.last() == 48 + n % 10);
        assert forall|i: int| 0 <= i < b.len() implies is_digit(#[trigger] b[i]) by {
            if i < p.len() {
                assert(b[i] == p[i]);
            }
        }
    }
}

/// A zero-padded decimal: its bytes are digits (after a `-` when
/// negative) and read back as the number.
pub proof fn lemma_pad_digits(v: nat, w: int)
    ensures
        all_digits(ascii_bytes(crate::text::dec_pad(v as int, w))),
        digits_value(ascii_bytes(crate::text::dec_pad(v as int, w))) == v,
        ascii_bytes(crate::text::dec_pad(v as int, w)).len() >= 1,
{
    let z = crate::text::zeros(w - crate::text::dec_nat(v).len());
    let d = crate::text::dec_nat(v);
    assert(ascii_bytes(z + d) =~= ascii_bytes(z) + ascii_bytes(d));
    lemma_zeros_value(w - crate::text::dec_nat(v).len());
    lemma_dec_nat_value(v);
    lemma_digits_concat(ascii_bytes(z), ascii_bytes(d));
    assert forall|i: int| 0 <= i < ascii_bytes(z + d).len() implies is_digit(
        #[trigger] ascii_bytes(z + d)[i],
    ) by {
        if i < z.len() {
            assert(ascii_bytes(z + d)[i] == ascii_bytes(z)[i]);
        } else {
            assert(ascii_bytes(z + d)[i] == ascii_bytes(d)[i - z.len()]);
        }
    }
}

/// A zero-padded decimal reads back as itself: `str::parse` of
/// `format!("{i:0w}")`.
pub proof fn lemma_parse_pad(i: int, w: int, lo: int, hi: int)
    requires
        lo <= i <= hi,
        lo < 0,
    ensures
        parse_signed(ascii_bytes(crate::text::dec_pad(i, w)), lo, hi) == Some(i),
        i >= 0 ==> parse_unsigned(ascii_bytes(crate::text::dec_pad(i, w)), hi) == Some(i),
{
    if i >= 0 {
        lemma_pad_digits(i as nat, w);
        let b = ascii_bytes(crate::text::dec_pad(i, w));
        assert(is_digit(b[0]));
    } else {
        let v = (-i) as nat;
        let z = crate::text::zeros(w - 1 - crate::text::dec_nat(v).len());
        let d = crate::text::dec_nat(v);
        let full = crate::text::dec_pad(i, w);
        assert(full =~= seq!['-'] + (z + d));
        assert(crate::text::dec_pad(v as int, w - 1) =~= z + d);
        lemma_pad_digits(v, w - 1);
        let b = ascii_bytes(full);
        assert(b[0] == 45);
        assert(b.drop_first() =~= ascii_bytes(crate::text::dec_pad(v as int, w - 1)));
    }
}

} // verus!
