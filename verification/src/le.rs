//! Little-endian fixed-width integers, the only byte order the wire uses.
//!
//! A value of width `n` bytes is modelled as a natural number below
//! `256^n`; signed values travel in two's complement.

use vstd::prelude::*;

verus! {

/// `256^n`.
pub open spec fn pow256(n: nat) -> nat
    decreases n,
{
    if n == 0 {
        1
    } else {
        256 * pow256((n - 1) as nat)
    }
}

/// The `n` low-order bytes of `v`, least significant first.
pub open spec fn le_bytes(v: nat, n: nat) -> Seq<u8>
    decreases n,
{
    if n == 0 {
        Seq::empty()
    } else {
        seq![(v % 256) as u8] + le_bytes(v / 256, (n - 1) as nat)
    }
}

/// The number whose little-endian digits (base 256) are `bs`.
pub open spec fn le_value(bs: Seq<u8>) -> nat
    decreases bs.len(),
{
    if bs.len() == 0 {
        0
    } else {
        bs[0] as nat + 256 * le_value(bs.drop_first())
    }
}

/// Two's complement representation of `v` in `n` bytes.
pub open spec fn twos(v: int, n: nat) -> nat {
    if v < 0 {
        (v + pow256(n)) as nat
    } else {
        v as nat
    }
}

/// The signed value whose `n`-byte two's complement representation is `u`.
pub open spec fn untwos(u: nat, n: nat) -> int {
    if u >= pow256(n) / 2 {
        u - pow256(n)
    } else {
        u as int
    }
}

pub proof fn lemma_pow256_values()
    ensures
        pow256(0) == 1,
        pow256(1) == 256,
        pow256(2) == 0x1_0000,
        pow256(3) == 0x100_0000,
        pow256(4) == 0x1_0000_0000,
        pow256(5) == 0x100_0000_0000,
        pow256(6) == 0x1_0000_0000_0000,
        pow256(7) == 0x100_0000_0000_0000,
        pow256(8) == 0x1_0000_0000_0000_0000,
{
    reveal_with_fuel(pow256, 9);
}

pub proof fn lemma_pow256_mono(a: nat, b: nat)
    requires
        a <= b,
    ensures
        pow256(a) <= pow256(b),
        pow256(a) >= 1,
    decreases b,
{
    if a < b {
        lemma_pow256_mono(a, (b - 1) as nat);
    } else if b > 0 {
        lemma_pow256_mono((b - 1) as nat, (b - 1) as nat);
    }
}

pub proof fn lemma_le_bytes_len(v: nat, n: nat)
    ensures
        le_bytes(v, n).len() == n,
    decreases n,
{
    if n > 0 {
        lemma_le_bytes_len(v / 256, (n - 1) as nat);
    }
}

pub proof fn lemma_le_value_bound(bs: Seq<u8>)
    ensures
        le_value(bs) < pow256(bs.len()),
    decreases bs.len(),
{
    if bs.len() > 0 {
        lemma_le_value_bound(bs.drop_first());
    }
}

/// Reading back the `n` bytes written for `v < 256^n` gives `v`.
pub proof fn lemma_le_roundtrip(v: nat, n: nat)
    requires
        v < pow256(n),
    ensures
        le_value(le_bytes(v, n)) == v,
        le_bytes(v, n).len() == n,
    decreases n,
{
    lemma_le_bytes_len(v, n);
    if n > 0 {
        let rest = le_bytes(v / 256, (n - 1) as nat);
        assert(le_bytes(v, n).drop_first() =~= rest);
        lemma_le_roundtrip(v / 256, (n - 1) as nat);
    }
}

/// Writing the value read from `bs` reproduces `bs`.
pub proof fn lemma_le_value_bytes(bs: Seq<u8>)
    ensures
        le_bytes(le_value(bs), bs.len()) == bs,
    decreases bs.len(),
{
    if bs.len() > 0 {
        lemma_le_value_bytes(bs.drop_first());
        let v = le_value(bs);
        assert(v % 256 == bs[0] as nat);
        assert(v / 256 == le_value(bs.drop_first()));
        assert(le_bytes(v, bs.len()) =~= bs);
    }
}

pub proof fn lemma_twos_roundtrip(v: int, n: nat)
    requires
        n >= 1,
        -(pow256(n) / 2) <= v < pow256(n) / 2,
    ensures
        twos(v, n) < pow256(n),
        untwos(twos(v, n), n) == v,
{
    assert(pow256(n) == 256 * pow256((n - 1) as nat));
}

/// Only `v` modulo `256^n` shows in its `n` low-order bytes.
pub proof fn lemma_le_bytes_mod(v: nat, n: nat)
    ensures
        le_bytes(v, n) == le_bytes(v % pow256(n), n),
    decreases n,
{
    if n > 0 {
        let q = pow256((n - 1) as nat);
        lemma_pow256_mono(0, (n - 1) as nat);
        vstd::arithmetic::div_mod::lemma_mod_breakdown(v as int, 256, q as int);
        vstd::arithmetic::div_mod::lemma_mod_mod(v as int, 256, q as int);
        let m = v % pow256(n);
        assert(m == 256 * ((v / 256) % q) + v % 256);
        assert(m % 256 == v % 256);
        assert(m / 256 == (v / 256) % q);
        lemma_le_bytes_mod(v / 256, (n - 1) as nat);
    }
}

/// Appends the `n` little-endian bytes of `v`.
pub fn push_le(buf: &mut Vec<u8>, v: u64, n: usize)
    requires
        n <= 8,
    ensures
        final(buf)@ == old(buf)@ + le_bytes(v as nat, n as nat),
{
    let ghost start = buf@;
    let mut cur: u64 = v;
    let mut i: usize = 0;
    assert(start + le_bytes(v as nat, n as nat) == buf@ + le_bytes(cur as nat, (n - i) as nat));
    while i < n
        invariant
            i <= n,
            start + le_bytes(v as nat, n as nat) == buf@ + le_bytes(cur as nat, (n - i) as nat),
        decreases n - i,
    {
        let ghost before = buf@;
        let ghost m = (n - i) as nat;
        buf.push((cur % 256) as u8);
        assert(le_bytes(cur as nat, m) == seq![(cur % 256) as u8] + le_bytes(
            (cur / 256) as nat,
            (m - 1) as nat,
        ));
        assert(before + le_bytes(cur as nat, m) =~= buf@ + le_bytes(
            (cur / 256) as nat,
            (m - 1) as nat,
        ));
        cur = cur / 256;
        i = i + 1;
    }
    assert(le_bytes(cur as nat, 0) =~= Seq::<u8>::empty());
    assert(buf@ =~= start + le_bytes(v as nat, n as nat));
}

/// The little-endian value of the `n` bytes at `p`.
pub fn read_le(d: &[u8], p: usize, n: usize) -> (r: u64)
    requires
        n <= 8,
        p + n <= d@.len(),
    ensures
        r as nat == le_value(d@.subrange(p as int, p + n)),
{
    let len = d.len();
    let mut acc: u64 = 0;
    let mut i: usize = n;
    proof {
        lemma_pow256_values();
        assert(d@.subrange(p + n, p + n) =~= Seq::<u8>::empty());
    }
    while i > 0
        invariant
            i <= n <= 8,
            p + n <= d@.len() == len,
            acc as nat == le_value(d@.subrange(p + i, p + n)),
            acc < pow256((n - i) as nat),
        decreases i,
    {
        proof {
            lemma_pow256_mono((n - i) as nat, 7);
            lemma_pow256_values();
        }
        i = i - 1;
        let b = d[p + i];
        let ghost sub = d@.subrange(p + i, p + n);
        assert(sub.drop_first() =~= d@.subrange(p + i + 1, p + n));
        acc = (b as u64) + acc * 256;
    }
    acc
}

/// Two's complement of a short, as an unsigned 2-byte value.
pub fn twos_i16(x: i16) -> (r: u64)
    ensures
        r as nat == twos(x as int, 2),
        r < 0x1_0000,
{
    proof {
        lemma_pow256_values();
    }
    if x < 0 {
        (x as i64 + 0x1_0000) as u64
    } else {
        x as u64
    }
}

/// Two's complement of an int, as an unsigned 4-byte value.
pub fn twos_i32(x: i32) -> (r: u64)
    ensures
        r as nat == twos(x as int, 4),
        r < 0x1_0000_0000,
{
    proof {
        lemma_pow256_values();
    }
    if x < 0 {
        (x as i64 + 0x1_0000_0000) as u64
    } else {
        x as u64
    }
}

/// Two's complement of a long, as an unsigned 8-byte value.
pub fn twos_i64(x: i64) -> (r: u64)
    ensures
        r as nat == twos(x as int, 8),
{
    proof {
        lemma_pow256_values();
    }
    if x < 0 {
        ((x + 0x7fff_ffff_ffff_ffff + 1) as u64) + 0x8000_0000_0000_0000
    } else {
        x as u64
    }
}

/// The short whose two's complement is `u`.
pub fn untwos_i16(u: u64) -> (r: i16)
    requires
        u < 0x1_0000,
    ensures
        r as int == untwos(u as nat, 2),
{
    proof {
        lemma_pow256_values();
    }
    if u >= 0x8000 {
        (u as i64 - 0x1_0000) as i16
    } else {
        u as i16
    }
}

/// The int whose two's complement is `u`.
pub fn untwos_i32(u: u64) -> (r: i32)
    requires
        u < 0x1_0000_0000,
    ensures
        r as int == untwos(u as nat, 4),
{
    proof {
        lemma_pow256_values();
    }
    if u >= 0x8000_0000 {
        (u as i64 - 0x1_0000_0000) as i32
    } else {
        u as i32
    }
}

/// The long whose two's complement is `u`.
pub fn untwos_i64(u: u64) -> (r: i64)
    ensures
        r as int == untwos(u as nat, 8),
{
    proof {
        lemma_pow256_values();
    }
    if u >= 0x8000_0000_0000_0000 {
        ((u - 0x8000_0000_0000_0000) as i64) - 0x7fff_ffff_ffff_ffff - 1
    } else {
        u as i64
    }
}

} // verus!
