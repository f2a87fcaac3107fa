//! L IPC wire (de)serialization. Layout per value:
//!   atom   : tag(1) + little-endian payload
//!   vector : tag(1) + attr(1) + count(i32 LE) + count*elem little-endian
//!   symbol : NUL-terminated UTF-8 bytes
//!   dict   : tag(1) + keys-K + values-K; table: tag(1) + attr(1) + dict-K

use vstd::prelude::*;
use vstd::utf8::*;

use crate::error::LError;
use crate::text::{dec_int, dec_nat, lossy_text, push_int, push_nat, push_str, utf8_lossy};
use crate::k::{
    K, KV, Kind, bit, kind_signed, ints_bool, ints_i16, ints_i32, ints_i64, ints_u32, ints_u64, ints_u8, kind_tag,
    kind_width, kseq_view, lemma_kseq_view, lemma_kseq_view_push, strs,
};
use crate::le::{
    le_bytes, le_value, lemma_le_bytes_len, lemma_le_roundtrip, lemma_le_value_bound,
    lemma_pow256_values, lemma_twos_roundtrip, pow256, push_le, read_le, twos,
    twos_i16, twos_i32, twos_i64, untwos, untwos_i16, untwos_i32, untwos_i64,
};

verus! {

broadcast use vstd::seq_lib::group_seq_properties;

/// Deepest `List`/`Dict`/`Table` nesting that `deserialize` accepts.
pub const MAX_DEPTH: usize = 128;

// ── the encoding ──────────────────────────────────────────────────────────

/// Wire byte of an atom of this kind (its negative tag as a byte).
pub open spec fn atom_byte(kind: Kind) -> u8 {
    (256 - kind_tag(kind)) as u8
}

/// One `w`-byte scalar (two's complement when negative).
pub open spec fn enc_w(w: nat, v: int) -> Seq<u8> {
    le_bytes(twos(v, w), w)
}

/// A run of `w`-byte scalars.
pub open spec fn enc_ws(w: nat, vs: Seq<int>) -> Seq<u8>
    decreases vs.len(),
{
    if vs.len() == 0 {
        Seq::empty()
    } else {
        enc_w(w, vs[0]) + enc_ws(w, vs.drop_first())
    }
}

/// Vector header: tag, attribute 0, then the count as a 32-bit LE word.
pub open spec fn header(tag: u8, n: nat) -> Seq<u8> {
    seq![tag, 0u8] + le_bytes(n, 4)
}

/// A symbol: its UTF-8 bytes then NUL.
pub open spec fn enc_sym(s: Seq<char>) -> Seq<u8> {
    encode_utf8(s).push(0u8)
}

pub open spec fn enc_syms(ss: Seq<Seq<char>>) -> Seq<u8>
    decreases ss.len(),
{
    if ss.len() == 0 {
        Seq::empty()
    } else {
        enc_sym(ss[0]) + enc_syms(ss.drop_first())
    }
}

/// The wire bytes of a K value.
pub open spec fn enc(k: KV) -> Seq<u8>
    decreases k,
{
    match k {
        KV::Atom(kind, v) => seq![atom_byte(kind)] + enc_w(kind_width(kind), v),
        KV::Vector(kind, vs) => header(kind_tag(kind) as u8, vs.len()) + enc_ws(
            kind_width(kind),
            vs,
        ),
        KV::Symbol(s) => seq![0xf5u8] + enc_sym(s),
        KV::SymbolVec(ss) => header(11, ss.len()) + enc_syms(ss),
        KV::List(xs) => header(0, xs.len()) + enc_list(xs),
        KV::Dict(a, b) => seq![99u8] + enc(*a) + enc(*b),
        KV::Table(d) => seq![98u8, 0u8] + enc(*d),
        KV::Error(s) => seq![0x80u8] + enc_sym(s),
        KV::Null => seq![0x65u8, 0u8],
    }
}

/// The elements of a mixed list, back to back.
pub open spec fn enc_list(xs: Seq<KV>) -> Seq<u8>
    decreases xs,
{
    if xs.len() == 0 {
        Seq::empty()
    } else {
        enc(xs[0]) + enc_list(xs.subrange(1, xs.len() as int))
    }
}

pub proof fn lemma_enc_ws_push(w: nat, vs: Seq<int>, x: int)
    ensures
        enc_ws(w, vs.push(x)) == enc_ws(w, vs) + enc_w(w, x),
    decreases vs.len(),
{
    if vs.len() == 0 {
        assert(vs.push(x).drop_first() =~= Seq::<int>::empty());
        assert(enc_ws(w, Seq::<int>::empty()) =~= Seq::<u8>::empty());
        assert(enc_ws(w, vs) =~= Seq::<u8>::empty());
        assert(enc_ws(w, vs.push(x)) =~= enc_w(w, x) + enc_ws(w, vs.push(x).drop_first()));
        assert(enc_ws(w, vs.push(x)) =~= enc_w(w, x));
    } else {
        assert(vs.push(x).drop_first() =~= vs.drop_first().push(x));
        lemma_enc_ws_push(w, vs.drop_first(), x);
        assert(enc_ws(w, vs.push(x)) =~= enc_ws(w, vs) + enc_w(w, x));
    }
}

pub proof fn lemma_enc_syms_push(ss: Seq<Seq<char>>, x: Seq<char>)
    ensures
        enc_syms(ss.push(x)) == enc_syms(ss) + enc_sym(x),
    decreases ss.len(),
{
    if ss.len() == 0 {
        assert(ss.push(x).drop_first() =~= Seq::<Seq<char>>::empty());
        assert(enc_syms(ss.push(x)) =~= enc_sym(x));
    } else {
        assert(ss.push(x).drop_first() =~= ss.drop_first().push(x));
        lemma_enc_syms_push(ss.drop_first(), x);
        assert(enc_syms(ss.push(x)) =~= enc_syms(ss) + enc_sym(x));
    }
}

pub proof fn lemma_enc_list_push(xs: Seq<KV>, x: KV)
    ensures
        enc_list(xs.push(x)) == enc_list(xs) + enc(x),
    decreases xs.len(),
{
    if xs.len() == 0 {
        assert(xs.push(x).subrange(1, 1) =~= Seq::<KV>::empty());
        assert(enc_list(Seq::<KV>::empty()) =~= Seq::<u8>::empty());
        assert(enc_list(xs) =~= Seq::<u8>::empty());
        assert(xs.push(x)[0] == x);
        assert(enc_list(xs.push(x)) =~= enc(x) + enc_list(xs.push(x).subrange(1, 1)));
        assert(enc_list(xs.push(x)) =~= enc(x));
    } else {
        let t = xs.subrange(1, xs.len() as int);
        assert(xs.push(x).subrange(1, xs.len() as int + 1) =~= t.push(x));
        lemma_enc_list_push(t, x);
        assert(enc_list(xs.push(x)) =~= enc_list(xs) + enc(x));
    }
}

// ── writing ───────────────────────────────────────────────────────────────

fn put_header(buf: &mut Vec<u8>, tag: u8, n: usize)
    ensures
        final(buf)@ == old(buf)@ + header(tag, n as nat),
{
    let ghost start = buf@;
    buf.push(tag);
    buf.push(0);
    push_le(buf, n as u64, 4);
    assert(buf@ =~= start + header(tag, n as nat));
}

fn put_bools(buf: &mut Vec<u8>, v: &Vec<bool>)
    ensures
        final(buf)@ == old(buf)@ + enc_ws(1, ints_bool(v@)),
{
    let ghost start = buf@;
    let ghost vs = ints_bool(v@);
    assert(vs.take(0) =~= Seq::<int>::empty());
    for i in 0..v.len()
        invariant
            vs == ints_bool(v@),
            buf@ == start + enc_ws(1, vs.take(i as int)),
    {
        let b: u64 = if v[i] {
            1
        } else {
            0
        };
        push_le(buf, b, 1);
        proof {
            assert(vs.take(i + 1) =~= vs.take(i as int).push(vs[i as int]));
            lemma_enc_ws_push(1, vs.take(i as int), vs[i as int]);
            lemma_pow256_values();
        }
    }
    assert(vs.take(v.len() as int) =~= vs);
}

fn put_u8s(buf: &mut Vec<u8>, v: &Vec<u8>)
    ensures
        final(buf)@ == old(buf)@ + enc_ws(1, ints_u8(v@)),
{
    let ghost start = buf@;
    let ghost vs = ints_u8(v@);
    assert(vs.take(0) =~= Seq::<int>::empty());
    for i in 0..v.len()
        invariant
            vs == ints_u8(v@),
            buf@ == start + enc_ws(1, vs.take(i as int)),
    {
        push_le(buf, v[i] as u64, 1);
        proof {
            assert(vs.take(i + 1) =~= vs.take(i as int).push(vs[i as int]));
            lemma_enc_ws_push(1, vs.take(i as int), vs[i as int]);
        }
    }
    assert(vs.take(v.len() as int) =~= vs);
}

fn put_i16s(buf: &mut Vec<u8>, v: &Vec<i16>)
    ensures
        final(buf)@ == old(buf)@ + enc_ws(2, ints_i16(v@)),
{
    let ghost start = buf@;
    let ghost vs = ints_i16(v@);
    assert(vs.take(0) =~= Seq::<int>::empty());
    for i in 0..v.len()
        invariant
            vs == ints_i16(v@),
            buf@ == start + enc_ws(2, vs.take(i as int)),
    {
        push_le(buf, twos_i16(v[i]), 2);
        proof {
            assert(vs.take(i + 1) =~= vs.take(i as int).push(vs[i as int]));
            lemma_enc_ws_push(2, vs.take(i as int), vs[i as int]);
        }
    }
    assert(vs.take(v.len() as int) =~= vs);
}

fn put_i32s(buf: &mut Vec<u8>, v: &Vec<i32>)
    ensures
        final(buf)@ == old(buf)@ + enc_ws(4, ints_i32(v@)),
{
    let ghost start = buf@;
    let ghost vs = ints_i32(v@);
    assert(vs.take(0) =~= Seq::<int>::empty());
    for i in 0..v.len()
        invariant
            vs == ints_i32(v@),
            buf@ == start + enc_ws(4, vs.take(i as int)),
    {
        push_le(buf, twos_i32(v[i]), 4);
        proof {
            assert(vs.take(i + 1) =~= vs.take(i as int).push(vs[i as int]));
            lemma_enc_ws_push(4, vs.take(i as int), vs[i as int]);
        }
    }
    assert(vs.take(v.len() as int) =~= vs);
}

fn put_i64s(buf: &mut Vec<u8>, v: &Vec<i64>)
    ensures
        final(buf)@ == old(buf)@ + enc_ws(8, ints_i64(v@)),
{
    let ghost start = buf@;
    let ghost vs = ints_i64(v@);
    assert(vs.take(0) =~= Seq::<int>::empty());
    for i in 0..v.len()
        invariant
            vs == ints_i64(v@),
            buf@ == start + enc_ws(8, vs.take(i as int)),
    {
        push_le(buf, twos_i64(v[i]), 8);
        proof {
            assert(vs.take(i + 1) =~= vs.take(i as int).push(vs[i as int]));
            lemma_enc_ws_push(8, vs.take(i as int), vs[i as int]);
        }
    }
    assert(vs.take(v.len() as int) =~= vs);
}

fn put_u32s(buf: &mut Vec<u8>, v: &Vec<u32>)
    ensures
        final(buf)@ == old(buf)@ + enc_ws(4, ints_u32(v@)),
{
    let ghost start = buf@;
    let ghost vs = ints_u32(v@);
    assert(vs.take(0) =~= Seq::<int>::empty());
    for i in 0..v.len()
        invariant
            vs == ints_u32(v@),
            buf@ == start + enc_ws(4, vs.take(i as int)),
    {
        push_le(buf, v[i] as u64, 4);
        proof {
            assert(vs.take(i + 1) =~= vs.take(i as int).push(vs[i as int]));
            lemma_enc_ws_push(4, vs.take(i as int), vs[i as int]);
        }
    }
    assert(vs.take(v.len() as int) =~= vs);
}

fn put_u64s(buf: &mut Vec<u8>, v: &Vec<u64>)
    ensures
        final(buf)@ == old(buf)@ + enc_ws(8, ints_u64(v@)),
{
    let ghost start = buf@;
    let ghost vs = ints_u64(v@);
    assert(vs.take(0) =~= Seq::<int>::empty());
    for i in 0..v.len()
        invariant
            vs == ints_u64(v@),
            buf@ == start + enc_ws(8, vs.take(i as int)),
    {
        push_le(buf, v[i], 8);
        proof {
            assert(vs.take(i + 1) =~= vs.take(i as int).push(vs[i as int]));
            lemma_enc_ws_push(8, vs.take(i as int), vs[i as int]);
        }
    }
    assert(vs.take(v.len() as int) =~= vs);
}

/// UTF-8 bytes of `s` then NUL.
fn wr_bytes(buf: &mut Vec<u8>, s: &str)
    ensures
        final(buf)@ == old(buf)@ + enc_sym(s@),
{
    let ghost start = buf@;
    buf.extend_from_slice(s.as_bytes());
    assert(buf@ =~= start + encode_utf8(s@));
    buf.push(0);
    assert(buf@ =~= start + enc_sym(s@));
}

/// Tag then NUL-terminated string.
fn wr_sym(buf: &mut Vec<u8>, tag: u8, s: &str)
    ensures
        final(buf)@ == old(buf)@ + seq![tag] + enc_sym(s@),
{
    let ghost start = buf@;
    buf.push(tag);
    wr_bytes(buf, s);
    assert(buf@ =~= start + seq![tag] + enc_sym(s@));
}

fn put_syms(buf: &mut Vec<u8>, v: &Vec<String>)
    ensures
        final(buf)@ == old(buf)@ + enc_syms(strs(v@)),
{
    let ghost start = buf@;
    let ghost ss = strs(v@);
    assert(ss.take(0) =~= Seq::<Seq<char>>::empty());
    for i in 0..v.len()
        invariant
            ss == strs(v@),
            buf@ == start + enc_syms(ss.take(i as int)),
    {
        wr_bytes(buf, v[i].as_str());
        proof {
            assert(ss.take(i + 1) =~= ss.take(i as int).push(ss[i as int]));
            lemma_enc_syms_push(ss.take(i as int), ss[i as int]);
        }
    }
    assert(ss.take(v.len() as int) =~= ss);
}

fn put_atom(buf: &mut Vec<u8>, tag: u8, u: u64, w: usize)
    requires
        w <= 8,
    ensures
        final(buf)@ == old(buf)@ + seq![tag] + le_bytes(u as nat, w as nat),
{
    let ghost start = buf@;
    buf.push(tag);
    push_le(buf, u, w);
    assert(buf@ =~= start + seq![tag] + le_bytes(u as nat, w as nat));
}

/// Appends the wire bytes of a scalar atom, symbol or error.
fn write_atom(buf: &mut Vec<u8>, k: &K)
    requires
        k@ is Atom || k@ is Symbol || k@ is Error,
    ensures
        final(buf)@ == old(buf)@ + enc(k@),
{
    proof {
        lemma_pow256_values();
    }
    match k {
        K::Bool(v) => put_atom(
            buf,
            0xff,
            if *v {
                1
            } else {
                0
            },
            1,
        ),
        K::Byte(v) => put_atom(buf, 0xfc, *v as u64, 1),
        K::Short(v) => put_atom(buf, 0xfb, twos_i16(*v), 2),
        K::Int(v) => put_atom(buf, 0xfa, twos_i32(*v), 4),
        K::Long(v) => put_atom(buf, 0xf9, twos_i64(*v), 8),
        K::Real(v) => put_atom(buf, 0xf8, *v as u64, 4),
        K::Float(v) => put_atom(buf, 0xf7, *v, 8),
        K::Char(v) => put_atom(buf, 0xf6, *v as u64, 1),
        K::Symbol(s) => wr_sym(buf, 0xf5, s.as_str()),
        K::Timestamp(v) => put_atom(buf, 0xf4, twos_i64(*v), 8),
        K::Month(v) => put_atom(buf, 0xf3, twos_i32(*v), 4),
        K::Date(v) => put_atom(buf, 0xf2, twos_i32(*v), 4),
        K::DateTime(v) => put_atom(buf, 0xf1, *v, 8),
        K::Timespan(v) => put_atom(buf, 0xf0, twos_i64(*v), 8),
        K::Minute(v) => put_atom(buf, 0xef, twos_i32(*v), 4),
        K::Second(v) => put_atom(buf, 0xee, twos_i32(*v), 4),
        K::Time(v) => put_atom(buf, 0xed, twos_i32(*v), 4),
        K::Error(s) => wr_sym(buf, 0x80, s.as_str()),
        _ => {},
    }
}

/// Appends the wire bytes of a homogeneous vector.
fn write_vec(buf: &mut Vec<u8>, k: &K)
    requires
        k@ is Vector || k@ is SymbolVec,
    ensures
        final(buf)@ == old(buf)@ + enc(k@),
{
    let ghost start = buf@;
    match k {
        K::BoolVec(v) => {
            put_header(buf, 1, v.len());
            put_bools(buf, v);
        },
        K::ByteVec(v) => {
            put_header(buf, 4, v.len());
            put_u8s(buf, v);
        },
        K::ShortVec(v) => {
            put_header(buf, 5, v.len());
            put_i16s(buf, v);
        },
        K::IntVec(v) => {
            put_header(buf, 6, v.len());
            put_i32s(buf, v);
        },
        K::LongVec(v) => {
            put_header(buf, 7, v.len());
            put_i64s(buf, v);
        },
        K::RealVec(v) => {
            put_header(buf, 8, v.len());
            put_u32s(buf, v);
        },
        K::FloatVec(v) => {
            put_header(buf, 9, v.len());
            put_u64s(buf, v);
        },
        K::CharVec(v) => {
            put_header(buf, 10, v.len());
            put_u8s(buf, v);
        },
        K::SymbolVec(v) => {
            put_header(buf, 11, v.len());
            put_syms(buf, v);
        },
        K::TimestampVec(v) => {
            put_header(buf, 12, v.len());
            put_i64s(buf, v);
        },
        K::MonthVec(v) => {
            put_header(buf, 13, v.len());
            put_i32s(buf, v);
        },
        K::DateVec(v) => {
            put_header(buf, 14, v.len());
            put_i32s(buf, v);
        },
        K::DateTimeVec(v) => {
            put_header(buf, 15, v.len());
            put_u64s(buf, v);
        },
        K::TimespanVec(v) => {
            put_header(buf, 16, v.len());
            put_i64s(buf, v);
        },
        K::MinuteVec(v) => {
            put_header(buf, 17, v.len());
            put_i32s(buf, v);
        },
        K::SecondVec(v) => {
            put_header(buf, 18, v.len());
            put_i32s(buf, v);
        },
        K::TimeVec(v) => {
            put_header(buf, 19, v.len());
            put_i32s(buf, v);
        },
        _ => {},
    }
    assert(buf@ =~= start + enc(k@));
}

/// Appends the wire bytes of `k`.
fn write_k(buf: &mut Vec<u8>, k: &K)
    ensures
        final(buf)@ == old(buf)@ + enc(k@),
    decreases k,
{
    let ghost start = buf@;
    match k {
        K::List(xs) => {
            put_header(buf, 0, xs.len());
            let ghost mid = buf@;
            let ghost vs = kseq_view(xs@);
            proof {
                lemma_kseq_view(xs@);
                assert(vs.take(0) =~= Seq::<KV>::empty());
            }
            for i in 0..xs.len()
                invariant
                    *k == K::List(*xs),
                    vs == kseq_view(xs@),
                    vs.len() == xs@.len(),
                    forall|j: int| 0 <= j < xs@.len() ==> #[trigger] vs[j] == xs@[j].view(),
                    buf@ == mid + enc_list(vs.take(i as int)),
            {
                proof {
                    assert(decreases_to!(*k => (*k)->List_0));
                    assert(decreases_to!(*xs => xs@));
                    assert(decreases_to!(xs@ => xs@[i as int]));
                    assert(decreases_to!(*k => xs@[i as int]));
                }
                write_k(buf, &xs[i]);
                proof {
                    assert(vs.take(i + 1) =~= vs.take(i as int).push(vs[i as int]));
                    lemma_enc_list_push(vs.take(i as int), vs[i as int]);
                }
            }
            assert(vs.take(xs.len() as int) =~= vs);
            assert(buf@ =~= start + enc(k@));
        },
        K::Dict(a, b) => {
            buf.push(99);
            write_k(buf, a);
            write_k(buf, b);
            assert(buf@ =~= start + enc(k@));
        },
        K::Table(d) => {
            buf.push(98);
            buf.push(0);
            write_k(buf, d);
            assert(buf@ =~= start + enc(k@));
        },
        K::Null => {
            buf.push(0x65);
            buf.push(0);
            assert(buf@ =~= start + enc(k@));
        },
        _ => {
            if k.type_tag() < 0 {
                write_atom(buf, k);
            } else {
                write_vec(buf, k);
            }
        },
    }
}

/// Serialize a K value into freshly-allocated wire bytes. Never fails.
pub fn serialize(k: &K) -> (r: Result<Vec<u8>, LError>)
    ensures
        r matches Ok(b) && b@ == enc(k@),
{
    let mut buf = Vec::new();
    write_k(&mut buf, k);
    assert(buf@ =~= enc(k@));
    Ok(buf)
}


// ── the decoding ──────────────────────────────────────────────────────────

/// Recursion budget left at `depth` (what keeps the reader finite).
pub open spec fn budget(depth: nat) -> nat {
    if depth <= MAX_DEPTH + 1 {
        (MAX_DEPTH + 2 - depth) as nat
    } else {
        0
    }
}

/// Error text when `n` bytes are needed at `p` of a `len`-byte buffer.
pub open spec fn need_msg(n: int, p: int, len: int) -> Seq<char> {
    "need "@ + dec_nat(n as nat) + " bytes at "@ + dec_nat(p as nat) + ", have "@ + dec_nat(
        len as nat,
    )
}

/// Vector header at `p`: skip the attribute byte, read the i32 count. A
/// count that is negative or larger than the bytes left is refused.
pub open spec fn read_count(d: Seq<u8>, p: int) -> Result<(nat, int), Seq<char>> {
    if p + 1 > d.len() {
        Err(need_msg(1, p, d.len() as int))
    } else if p + 5 > d.len() {
        Err(need_msg(4, p + 1, d.len() as int))
    } else {
        let n = untwos(le_value(d.subrange(p + 1, p + 5)), 4);
        if n < 0 || n > d.len() - (p + 5) {
            Err("bad vector count: "@ + dec_int(n))
        } else {
            Ok((n as nat, p + 5))
        }
    }
}

/// The kind whose vector tag is `t`.
pub open spec fn vector_kind(t: int) -> Option<Kind> {
    if t == 1 {
        Some(Kind::Bool)
    } else if t == 4 {
        Some(Kind::Byte)
    } else if t == 5 {
        Some(Kind::Short)
    } else if t == 6 {
        Some(Kind::Int)
    } else if t == 7 {
        Some(Kind::Long)
    } else if t == 8 {
        Some(Kind::Real)
    } else if t == 9 {
        Some(Kind::Float)
    } else if t == 10 {
        Some(Kind::Char)
    } else if t == 12 {
        Some(Kind::Timestamp)
    } else if t == 13 {
        Some(Kind::Month)
    } else if t == 14 {
        Some(Kind::Date)
    } else if t == 15 {
        Some(Kind::DateTime)
    } else if t == 16 {
        Some(Kind::Timespan)
    } else if t == 17 {
        Some(Kind::Minute)
    } else if t == 18 {
        Some(Kind::Second)
    } else if t == 19 {
        Some(Kind::Time)
    } else {
        None
    }
}

/// Model value of raw little-endian scalar bits: booleans are any
/// non-zero byte, signed kinds are two's complement.
pub open spec fn dec_scalar(kind: Kind, raw: nat) -> int {
    if kind == Kind::Bool {
        if raw != 0 {
            1
        } else {
            0
        }
    } else if kind_signed(kind) {
        untwos(raw, kind_width(kind))
    } else {
        raw as int
    }
}

/// The scalar of this kind stored at `q`.
pub open spec fn scalar_at(d: Seq<u8>, q: int, kind: Kind) -> int {
    dec_scalar(kind, le_value(d.subrange(q, q + kind_width(kind))))
}

/// `n` consecutive scalars of this kind from `r`.
pub open spec fn vals(d: Seq<u8>, r: int, n: nat, kind: Kind) -> Seq<int> {
    Seq::new(n, |i: int| scalar_at(d, r + i * kind_width(kind), kind))
}

/// A vector body after its tag byte at `q - 1`.
pub open spec fn read_vector(d: Seq<u8>, q: int, kind: Kind) -> Result<(KV, int), Seq<char>> {
    match read_count(d, q) {
        Err(m) => Err(m),
        Ok((n, r)) => {
            let w = kind_width(kind);
            if n * w > usize::MAX {
                Err("vector too large"@)
            } else if r + n * w > d.len() {
                Err(need_msg((n * w) as int, r, d.len() as int))
            } else {
                Ok((KV::Vector(kind, vals(d, r, n, kind)), r + n * w))
            }
        },
    }
}

/// Index of the first NUL at or after `p`, or the end of the buffer.
pub open spec fn sym_end(d: Seq<u8>, p: int) -> int
    decreases d.len() - p,
{
    if p >= d.len() {
        d.len() as int
    } else if d[p] == 0 {
        p
    } else {
        sym_end(d, p + 1)
    }
}

/// A NUL-terminated symbol (lossy UTF-8); the NUL is consumed when present.
pub open spec fn read_sym(d: Seq<u8>, p: int) -> (Seq<char>, int) {
    let e = sym_end(d, p);
    (lossy_text(d.subrange(p, e)), if e < d.len() {
        e + 1
    } else {
        e
    })
}

/// `n` symbols in a row.
pub open spec fn read_syms(d: Seq<u8>, p: int, n: nat) -> (Seq<Seq<char>>, int)
    decreases n,
{
    if n == 0 {
        (Seq::empty(), p)
    } else {
        let (s, q) = read_sym(d, p);
        let (rest, e) = read_syms(d, q, (n - 1) as nat);
        (seq![s] + rest, e)
    }
}

/// The K value encoded at `p` when `depth` containers enclose it, and the
/// position after it; or the reason it cannot be read.
pub open spec fn parse_k(d: Seq<u8>, p: int, depth: nat) -> Result<(KV, int), Seq<char>>
    decreases budget(depth), 0nat, 0nat,
{
    if depth > MAX_DEPTH {
        Err("nesting too deep"@)
    } else if p + 1 > d.len() {
        Err(need_msg(1, p, d.len() as int))
    } else {
        let b = d[p] as int;
        let q = p + 1;
        if b == 0 {
            match read_count(d, q) {
                Err(m) => Err(m),
                Ok((n, r)) => match parse_items(d, r, n, depth + 1) {
                    Err(m) => Err(m),
                    Ok((xs, e)) => Ok((KV::List(xs), e)),
                },
            }
        } else if b == 11 {
            match read_count(d, q) {
                Err(m) => Err(m),
                Ok((n, r)) => Ok((KV::SymbolVec(read_syms(d, r, n).0), read_syms(d, r, n).1)),
            }
        } else if vector_kind(b) is Some {
            read_vector(d, q, vector_kind(b)->0)
        } else if b == 98 {
            if q + 1 > d.len() {
                Err(need_msg(1, q, d.len() as int))
            } else {
                match parse_k(d, q + 1, depth + 1) {
                    Err(m) => Err(m),
                    Ok((x, e)) => Ok((KV::Table(Box::new(x)), e)),
                }
            }
        } else if b == 99 {
            match parse_k(d, q, depth + 1) {
                Err(m) => Err(m),
                Ok((a, e1)) => match parse_k(d, e1, depth + 1) {
                    Err(m) => Err(m),
                    Ok((v, e2)) => Ok((KV::Dict(Box::new(a), Box::new(v)), e2)),
                },
            }
        } else if b == 101 {
            Ok((KV::Null, if q + 1 <= d.len() {
                q + 1
            } else {
                q
            }))
        } else if b == 0x80 {
            Ok((KV::Error(read_sym(d, q).0), read_sym(d, q).1))
        } else if b == 0xf5 {
            Ok((KV::Symbol(read_sym(d, q).0), read_sym(d, q).1))
        } else if vector_kind(256 - b) is Some {
            let kind = vector_kind(256 - b)->0;
            let w = kind_width(kind);
            if q + w > d.len() {
                Err(need_msg(w as int, q, d.len() as int))
            } else {
                Ok((KV::Atom(kind, scalar_at(d, q, kind)), q + w))
            }
        } else {
            Err(
                "unknown type tag: "@ + dec_int(
                    if b >= 128 {
                        b - 256
                    } else {
                        b
                    },
                ),
            )
        }
    }
}

/// `n` K values in a row, each enclosed by `depth` containers.
pub open spec fn parse_items(d: Seq<u8>, p: int, n: nat, depth: nat) -> Result<
    (Seq<KV>, int),
    Seq<char>,
>
    decreases budget(depth), 1nat, n,
{
    if n == 0 {
        Ok((Seq::empty(), p))
    } else {
        match parse_k(d, p, depth) {
            Err(m) => Err(m),
            Ok((x, q)) => match parse_items(d, q, (n - 1) as nat, depth) {
                Err(m) => Err(m),
                Ok((xs, e)) => Ok((seq![x] + xs, e)),
            },
        }
    }
}

/// What `deserialize` makes of a whole buffer: the value read from its front.
pub open spec fn spec_deserialize(d: Seq<u8>) -> Result<KV, Seq<char>> {
    match parse_k(d, 0, 0) {
        Ok((k, _)) => Ok(k),
        Err(m) => Err(m),
    }
}

/// `r` is the executable counterpart of the model result `s`.
pub open spec fn agrees(r: Result<(K, usize), LError>, s: Result<(KV, int), Seq<char>>) -> bool {
    match r {
        Ok((k, e)) => s matches Ok((v, f)) && v == k@ && f == e,
        Err(LError::Deserialize(m)) => s matches Err(t) && t == m@,
        Err(_) => false,
    }
}

fn need_err(n: usize, p: usize, len: usize) -> (e: LError)
    ensures
        e matches LError::Deserialize(m) && m@ == need_msg(n as int, p as int, len as int),
{
    let mut m = "need ".to_owned();
    push_nat(&mut m, n as u64);
    push_str(&mut m, " bytes at ");
    push_nat(&mut m, p as u64);
    push_str(&mut m, ", have ");
    push_nat(&mut m, len as u64);
    LError::Deserialize(m)
}

/// Position after `n` more bytes from `p`, if the buffer holds them.
fn take(d: &[u8], p: usize, n: usize) -> (r: Result<usize, LError>)
    ensures
        p + n <= d@.len() ==> (r matches Ok(e) && e == p + n),
        p + n > d@.len() ==> (r matches Err(LError::Deserialize(m)) && m@ == need_msg(
            n as int,
            p as int,
            d@.len() as int,
        )),
{
    match p.checked_add(n) {
        Some(end) => if end <= d.len() {
            Ok(end)
        } else {
            Err(need_err(n, p, d.len()))
        },
        None => Err(need_err(n, p, d.len())),
    }
}

/// Read a vector header (skip attr, take the i32 count).
fn rd_n(d: &[u8], p: usize) -> (r: Result<(usize, usize), LError>)
    ensures
        match r {
            Ok((n, q)) => read_count(d@, p as int) == Ok::<(nat, int), Seq<char>>(
                (n as nat, q as int),
            ),
            Err(LError::Deserialize(m)) => read_count(d@, p as int) == Err::<(nat, int), Seq<char>>(
                m@,
            ),
            Err(_) => false,
        },
{
    let a = match take(d, p, 1) {
        Ok(a) => a,
        Err(e) => return Err(e),
    };
    let c = match take(d, a, 4) {
        Ok(c) => c,
        Err(e) => {
            return Err(e);
        },
    };
    let raw = read_le(d, a, 4);
    proof {
        lemma_le_value_bound(d@.subrange(a as int, a + 4));
        lemma_pow256_values();
    }
    let n = untwos_i32(raw);
    if n < 0 || n as usize > d.len() - c {
        let mut m = "bad vector count: ".to_owned();
        push_int(&mut m, n as i64);
        return Err(LError::Deserialize(m));
    }
    Ok((n as usize, c))
}

/// A safe pre-allocation hint: the wire count, clamped to the bytes left
/// and to a fixed ceiling.
fn cap_hint(n: usize, remaining: usize) -> (c: usize)
    ensures
        c <= n,
        c <= remaining,
        c <= 0x1_0000,
        c == n || c == remaining || c == 0x1_0000,
{
    let a = if n < remaining {
        n
    } else {
        remaining
    };
    if a < 0x1_0000 {
        a
    } else {
        0x1_0000
    }
}

/// Read a NUL-terminated symbol, consuming the terminator when present.
fn rd_sym(d: &[u8], p: usize) -> (r: (String, usize))
    requires
        p <= d@.len(),
    ensures
        r.0@ == read_sym(d@, p as int).0,
        r.1 as int == read_sym(d@, p as int).1,
        p <= r.1 <= d@.len(),
{
    let mut e = p;
    while e < d.len() && d[e] != 0
        invariant
            p <= e <= d@.len(),
            sym_end(d@, p as int) == sym_end(d@, e as int),
        decreases d@.len() - e,
    {
        e = e + 1;
    }
    let s = utf8_lossy(&d[p..e]);
    if e < d.len() {
        (s, e + 1)
    } else {
        (s, e)
    }
}

fn get_bools(d: &[u8], r: usize, n: usize) -> (v: Vec<bool>)
    requires
        r + n <= d@.len(),
    ensures
        ints_bool(v@) == vals(d@, r as int, n as nat, Kind::Bool),
{
    let mut v: Vec<bool> = Vec::new();
    let len = d.len();
    let mut i: usize = 0;
    while i < n
        invariant
            len == d@.len(),
            i <= n,
            r + n <= d@.len(),
            ints_bool(v@) == vals(d@, r as int, i as nat, Kind::Bool),
        decreases n - i,
    {
        let raw = read_le(d, r + i, 1);
        let ghost before = v@;
        v.push(raw != 0);
        assert(ints_bool(v@) =~= vals(d@, r as int, (i + 1) as nat, Kind::Bool)) by {
            assert(ints_bool(before.push(raw != 0)) =~= ints_bool(before).push(bit(raw != 0)));
        }
        i = i + 1;
    }
    v
}

fn get_u8s(d: &[u8], r: usize, n: usize, Ghost(kind): Ghost<Kind>) -> (v: Vec<u8>)
    requires
        kind == Kind::Byte || kind == Kind::Char,
        r + n <= d@.len(),
    ensures
        ints_u8(v@) == vals(d@, r as int, n as nat, kind),
{
    let mut v: Vec<u8> = Vec::new();
    let len = d.len();
    let mut i: usize = 0;
    while i < n
        invariant
            len == d@.len(),
            kind == Kind::Byte || kind == Kind::Char,
            i <= n,
            r + n <= d@.len(),
            ints_u8(v@) == vals(d@, r as int, i as nat, kind),
        decreases n - i,
    {
        let raw = read_le(d, r + i, 1);
        proof {
            lemma_le_value_bound(d@.subrange(r + i, r + i + 1));
            lemma_pow256_values();
        }
        let ghost before = v@;
        v.push(raw as u8);
        assert(ints_u8(v@) =~= vals(d@, r as int, (i + 1) as nat, kind)) by {
            assert(ints_u8(before.push(raw as u8)) =~= ints_u8(before).push(raw as int));
        }
        i = i + 1;
    }
    v
}

fn get_i16s(d: &[u8], r: usize, n: usize) -> (v: Vec<i16>)
    requires
        r + n * 2 <= d@.len(),
    ensures
        ints_i16(v@) == vals(d@, r as int, n as nat, Kind::Short),
{
    let mut v: Vec<i16> = Vec::new();
    let len = d.len();
    let mut i: usize = 0;
    let mut pos: usize = r;
    while i < n
        invariant
            len == d@.len(),
            i <= n,
            pos == r + i * 2,
            r + n * 2 <= d@.len(),
            ints_i16(v@) == vals(d@, r as int, i as nat, Kind::Short),
        decreases n - i,
    {
        let raw = read_le(d, pos, 2);
        proof {
            lemma_le_value_bound(d@.subrange(pos as int, pos + 2));
            lemma_pow256_values();
        }
        let x = untwos_i16(raw);
        let ghost before = v@;
        v.push(x);
        assert(ints_i16(v@) =~= vals(d@, r as int, (i + 1) as nat, Kind::Short)) by {
            assert(ints_i16(before.push(x)) =~= ints_i16(before).push(x as int));
        }
        i = i + 1;
        pos = pos + 2;
    }
    v
}

fn get_i32s(d: &[u8], r: usize, n: usize, Ghost(kind): Ghost<Kind>) -> (v: Vec<i32>)
    requires
        kind_width(kind) == 4,
        kind_signed(kind),
        r + n * 4 <= d@.len(),
    ensures
        ints_i32(v@) == vals(d@, r as int, n as nat, kind),
{
    let mut v: Vec<i32> = Vec::new();
    let len = d.len();
    let mut i: usize = 0;
    let mut pos: usize = r;
    while i < n
        invariant
            len == d@.len(),
            kind_width(kind) == 4,
            kind_signed(kind),
            i <= n,
            pos == r + i * 4,
            r + n * 4 <= d@.len(),
            ints_i32(v@) == vals(d@, r as int, i as nat, kind),
        decreases n - i,
    {
        let raw = read_le(d, pos, 4);
        proof {
            lemma_le_value_bound(d@.subrange(pos as int, pos + 4));
            lemma_pow256_values();
        }
        let x = untwos_i32(raw);
        let ghost before = v@;
        v.push(x);
        assert(ints_i32(v@) =~= vals(d@, r as int, (i + 1) as nat, kind)) by {
            assert(ints_i32(before.push(x)) =~= ints_i32(before).push(x as int));
        }
        i = i + 1;
        pos = pos + 4;
    }
    v
}

fn get_i64s(d: &[u8], r: usize, n: usize, Ghost(kind): Ghost<Kind>) -> (v: Vec<i64>)
    requires
        kind_width(kind) == 8,
        kind_signed(kind),
        r + n * 8 <= d@.len(),
    ensures
        ints_i64(v@) == vals(d@, r as int, n as nat, kind),
{
    let mut v: Vec<i64> = Vec::new();
    let len = d.len();
    let mut i: usize = 0;
    let mut pos: usize = r;
    while i < n
        invariant
            len == d@.len(),
            kind_width(kind) == 8,
            kind_signed(kind),
            i <= n,
            pos == r + i * 8,
            r + n * 8 <= d@.len(),
            ints_i64(v@) == vals(d@, r as int, i as nat, kind),
        decreases n - i,
    {
        let raw = read_le(d, pos, 8);
        proof {
            lemma_le_value_bound(d@.subrange(pos as int, pos + 8));
            lemma_pow256_values();
        }
        let x = untwos_i64(raw);
        let ghost before = v@;
        v.push(x);
        assert(ints_i64(v@) =~= vals(d@, r as int, (i + 1) as nat, kind)) by {
            assert(ints_i64(before.push(x)) =~= ints_i64(before).push(x as int));
        }
        i = i + 1;
        pos = pos + 8;
    }
    v
}

fn get_u32s(d: &[u8], r: usize, n: usize) -> (v: Vec<u32>)
    requires
        r + n * 4 <= d@.len(),
    ensures
        ints_u32(v@) == vals(d@, r as int, n as nat, Kind::Real),
{
    let mut v: Vec<u32> = Vec::new();
    let len = d.len();
    let mut i: usize = 0;
    let mut pos: usize = r;
    while i < n
        invariant
            len == d@.len(),
            i <= n,
            pos == r + i * 4,
            r + n * 4 <= d@.len(),
            ints_u32(v@) == vals(d@, r as int, i as nat, Kind::Real),
        decreases n - i,
    {
        let raw = read_le(d, pos, 4);
        proof {
            lemma_le_value_bound(d@.subrange(pos as int, pos + 4));
            lemma_pow256_values();
        }
        let ghost before = v@;
        v.push(raw as u32);
        assert(ints_u32(v@) =~= vals(d@, r as int, (i + 1) as nat, Kind::Real)) by {
            assert(ints_u32(before.push(raw as u32)) =~= ints_u32(before).push(raw as int));
        }
        i = i + 1;
        pos = pos + 4;
    }
    v
}

fn get_u64s(d: &[u8], r: usize, n: usize, Ghost(kind): Ghost<Kind>) -> (v: Vec<u64>)
    requires
        kind == Kind::Float || kind == Kind::DateTime,
        r + n * 8 <= d@.len(),
    ensures
        ints_u64(v@) == vals(d@, r as int, n as nat, kind),
{
    let mut v: Vec<u64> = Vec::new();
    let len = d.len();
    let mut i: usize = 0;
    let mut pos: usize = r;
    while i < n
        invariant
            len == d@.len(),
            kind == Kind::Float || kind == Kind::DateTime,
            i <= n,
            pos == r + i * 8,
            r + n * 8 <= d@.len(),
            ints_u64(v@) == vals(d@, r as int, i as nat, kind),
        decreases n - i,
    {
        let raw = read_le(d, pos, 8);
        let ghost before = v@;
        v.push(raw);
        assert(ints_u64(v@) =~= vals(d@, r as int, (i + 1) as nat, kind)) by {
            assert(ints_u64(before.push(raw)) =~= ints_u64(before).push(raw as int));
        }
        i = i + 1;
        pos = pos + 8;
    }
    v
}


/// `prefix` put in front of a successful parse of the remaining items.
pub open spec fn after<T>(prefix: Seq<T>, rest: Result<(Seq<T>, int), Seq<char>>) -> Result<
    (Seq<T>, int),
    Seq<char>,
> {
    match rest {
        Ok((xs, e)) => Ok((prefix + xs, e)),
        Err(m) => Err(m),
    }
}

/// Executable `vector_kind(t) is Some`.
fn is_vector_tag(t: u8) -> (b: bool)
    ensures
        b == (vector_kind(t as int) is Some),
{
    t == 1 || (4 <= t && t <= 10) || (12 <= t && t <= 19)
}

/// Bytes per element of the vector kind with tag `t`.
fn width_of(t: u8) -> (w: usize)
    requires
        vector_kind(t as int) is Some,
    ensures
        w as nat == kind_width(vector_kind(t as int)->0),
        1 <= w <= 8,
{
    if t == 5 {
        2
    } else if t == 6 || t == 8 || t == 13 || t == 14 || t == 17 || t == 18 || t == 19 {
        4
    } else if t == 7 || t == 9 || t == 12 || t == 15 || t == 16 {
        8
    } else {
        1
    }
}

/// The body of a fixed-width vector whose tag `t` was read at `q - 1`.
fn read_vec(d: &[u8], q: usize, t: u8) -> (r: Result<(K, usize), LError>)
    requires
        q <= d@.len(),
        vector_kind(t as int) is Some,
    ensures
        agrees(r, read_vector(d@, q as int, vector_kind(t as int)->0)),
        r matches Ok((_, e)) ==> e <= d@.len(),
{
    let (n, r0) = match rd_n(d, q) {
        Ok(x) => x,
        Err(e) => return Err(e),
    };
    let w = width_of(t);
    let total = match n.checked_mul(w) {
        Some(x) => x,
        None => return Err(LError::Deserialize("vector too large".to_owned())),
    };
    let end = match take(d, r0, total) {
        Ok(e) => e,
        Err(e) => return Err(e),
    };
    let k = if t == 1 {
        K::BoolVec(get_bools(d, r0, n))
    } else if t == 4 {
        K::ByteVec(get_u8s(d, r0, n, Ghost(Kind::Byte)))
    } else if t == 5 {
        K::ShortVec(get_i16s(d, r0, n))
    } else if t == 6 {
        K::IntVec(get_i32s(d, r0, n, Ghost(Kind::Int)))
    } else if t == 7 {
        K::LongVec(get_i64s(d, r0, n, Ghost(Kind::Long)))
    } else if t == 8 {
        K::RealVec(get_u32s(d, r0, n))
    } else if t == 9 {
        K::FloatVec(get_u64s(d, r0, n, Ghost(Kind::Float)))
    } else if t == 10 {
        K::CharVec(get_u8s(d, r0, n, Ghost(Kind::Char)))
    } else if t == 12 {
        K::TimestampVec(get_i64s(d, r0, n, Ghost(Kind::Timestamp)))
    } else if t == 13 {
        K::MonthVec(get_i32s(d, r0, n, Ghost(Kind::Month)))
    } else if t == 14 {
        K::DateVec(get_i32s(d, r0, n, Ghost(Kind::Date)))
    } else if t == 15 {
        K::DateTimeVec(get_u64s(d, r0, n, Ghost(Kind::DateTime)))
    } else if t == 16 {
        K::TimespanVec(get_i64s(d, r0, n, Ghost(Kind::Timespan)))
    } else if t == 17 {
        K::MinuteVec(get_i32s(d, r0, n, Ghost(Kind::Minute)))
    } else if t == 18 {
        K::SecondVec(get_i32s(d, r0, n, Ghost(Kind::Second)))
    } else {
        K::TimeVec(get_i32s(d, r0, n, Ghost(Kind::Time)))
    };
    Ok((k, end))
}

/// A scalar atom whose wire byte `b` (tag `-(256 - b)`) was read at `q - 1`.
fn read_atom(d: &[u8], q: usize, b: u8) -> (r: Result<(K, usize), LError>)
    requires
        q <= d@.len(),
        b >= 0xed,
        vector_kind(256 - b) is Some,
    ensures
        ({
            let kind = vector_kind(256 - b)->0;
            let w = kind_width(kind);
            agrees(
                r,
                if q + w > d@.len() {
                    Err(need_msg(w as int, q as int, d@.len() as int))
                } else {
                    Ok((KV::Atom(kind, scalar_at(d@, q as int, kind)), q + w))
                },
            )
        }),
        r matches Ok((_, e)) ==> e <= d@.len(),
{
    let t = 256 - (b as u16);
    let w = width_of(t as u8);
    let end = match take(d, q, w) {
        Ok(e) => e,
        Err(e) => return Err(e),
    };
    let raw = read_le(d, q, w);
    proof {
        lemma_le_value_bound(d@.subrange(q as int, q + w));
        lemma_pow256_values();
    }
    let k = if b == 0xff {
        K::Bool(raw != 0)
    } else if b == 0xfc {
        K::Byte(raw as u8)
    } else if b == 0xfb {
        K::Short(untwos_i16(raw))
    } else if b == 0xfa {
        K::Int(untwos_i32(raw))
    } else if b == 0xf9 {
        K::Long(untwos_i64(raw))
    } else if b == 0xf8 {
        K::Real(raw as u32)
    } else if b == 0xf7 {
        K::Float(raw)
    } else if b == 0xf6 {
        K::Char(raw as u8)
    } else if b == 0xf4 {
        K::Timestamp(untwos_i64(raw))
    } else if b == 0xf3 {
        K::Month(untwos_i32(raw))
    } else if b == 0xf2 {
        K::Date(untwos_i32(raw))
    } else if b == 0xf1 {
        K::DateTime(raw)
    } else if b == 0xf0 {
        K::Timespan(untwos_i64(raw))
    } else if b == 0xef {
        K::Minute(untwos_i32(raw))
    } else if b == 0xee {
        K::Second(untwos_i32(raw))
    } else {
        K::Time(untwos_i32(raw))
    };
    Ok((k, end))
}

/// `n` symbols from `r`.
fn read_symbols(d: &[u8], r: usize, n: usize) -> (res: (Vec<String>, usize))
    requires
        r <= d@.len(),
    ensures
        strs(res.0@) == read_syms(d@, r as int, n as nat).0,
        res.1 as int == read_syms(d@, r as int, n as nat).1,
        res.1 <= d@.len(),
{
    let mut v: Vec<String> = Vec::with_capacity(cap_hint(n, d.len() - r));
    let mut pos = r;
    let mut i: usize = 0;
    while i < n
        invariant
            i <= n,
            r <= pos <= d@.len(),
            read_syms(d@, r as int, n as nat) == (
                strs(v@) + read_syms(d@, pos as int, (n - i) as nat).0,
                read_syms(d@, pos as int, (n - i) as nat).1,
            ),
        decreases n - i,
    {
        let (s, e) = rd_sym(d, pos);
        let ghost before = v@;
        proof {
            let m = (n - i) as nat;
            let rest = read_syms(d@, e as int, (m - 1) as nat);
            assert(read_syms(d@, pos as int, m) == (seq![s@] + rest.0, rest.1));
            assert(strs(before.push(s)) =~= strs(before).push(s@));
            assert(strs(before) + (seq![s@] + rest.0) =~= strs(before).push(s@) + rest.0);
        }
        v.push(s);
        pos = e;
        i = i + 1;
    }
    assert(strs(v@) + Seq::<Seq<char>>::empty() =~= strs(v@));
    (v, pos)
}

/// The K value at `p`, enclosed by `depth` containers, and the position
/// after it.
fn read_k(d: &[u8], p: usize, depth: usize) -> (r: Result<(K, usize), LError>)
    requires
        p <= d@.len(),
        depth <= MAX_DEPTH + 1,
    ensures
        agrees(r, parse_k(d@, p as int, depth as nat)),
        r matches Ok((_, e)) ==> e <= d@.len(),
    decreases budget(depth as nat),
{
    if depth > MAX_DEPTH {
        return Err(LError::Deserialize("nesting too deep".to_owned()));
    }
    let q = match take(d, p, 1) {
        Ok(q) => q,
        Err(e) => return Err(e),
    };
    let b = d[p];
    if b == 0 {
        let (n, r0) = match rd_n(d, q) {
            Ok(x) => x,
            Err(e) => return Err(e),
        };
        let mut xs: Vec<K> = Vec::with_capacity(cap_hint(n, d.len() - r0));
        let mut pos = r0;
        let mut i: usize = 0;
        let ghost c = (depth + 1) as nat;
        proof {
            assert(kseq_view(xs@) =~= Seq::<KV>::empty());
            assert(after(kseq_view(xs@), parse_items(d@, pos as int, n as nat, c)) =~= parse_items(
                d@,
                r0 as int,
                n as nat,
                c,
            )) by {
                match parse_items(d@, pos as int, n as nat, c) {
                    Ok((ys, e)) => {
                        assert(Seq::<KV>::empty() + ys =~= ys);
                    },
                    Err(m) => {},
                }
            }
        }
        while i < n
            invariant
                i <= n,
                depth <= MAX_DEPTH,
                c == depth + 1,
                pos <= d@.len(),
                parse_k(d@, p as int, depth as nat) == (match parse_items(d@, r0 as int, n as nat, c) {
                    Err(m) => Err(m),
                    Ok((ys, e)) => Ok((KV::List(ys), e)),
                }),
                parse_items(d@, r0 as int, n as nat, c) == after(
                    kseq_view(xs@),
                    parse_items(d@, pos as int, (n - i) as nat, c),
                ),
            decreases n - i,
        {
            match read_k(d, pos, depth + 1) {
                Ok((x, e)) => {
                    let ghost before = xs@;
                    proof {
                        lemma_kseq_view_push(before, x);
                        let m = (n - i) as nat;
                        match parse_items(d@, e as int, (m - 1) as nat, c) {
                            Ok((ys, f)) => {
                                assert(kseq_view(before) + (seq![x@] + ys) =~= kseq_view(
                                    before,
                                ).push(x@) + ys);
                            },
                            Err(_) => {},
                        }
                    }
                    xs.push(x);
                    pos = e;
                },
                Err(err) => {
                    return Err(err);
                },
            }
            i = i + 1;
        }
        proof {
            assert(kseq_view(xs@) + Seq::<KV>::empty() =~= kseq_view(xs@));
        }
        return Ok((K::List(xs), pos));
    }
    if b == 11 {
        let (n, r0) = match rd_n(d, q) {
            Ok(x) => x,
            Err(e) => return Err(e),
        };
        let (v, e) = read_symbols(d, r0, n);
        return Ok((K::SymbolVec(v), e));
    }
    if is_vector_tag(b) {
        return read_vec(d, q, b);
    }
    if b == 98 {
        let q1 = match take(d, q, 1) {
            Ok(x) => x,
            Err(e) => return Err(e),
        };
        return match read_k(d, q1, depth + 1) {
            Ok((x, e)) => Ok((K::Table(Box::new(x)), e)),
            Err(err) => Err(err),
        };
    }
    if b == 99 {
        let (a, e1) = match read_k(d, q, depth + 1) {
            Ok(x) => x,
            Err(err) => return Err(err),
        };
        let (v, e2) = match read_k(d, e1, depth + 1) {
            Ok(x) => x,
            Err(err) => return Err(err),
        };
        return Ok((K::Dict(Box::new(a), Box::new(v)), e2));
    }
    if b == 101 {
        let e = if q < d.len() {
            q + 1
        } else {
            q
        };
        return Ok((K::Null, e));
    }
    if b == 0x80 {
        let (s, e) = rd_sym(d, q);
        return Ok((K::Error(s), e));
    }
    if b == 0xf5 {
        let (s, e) = rd_sym(d, q);
        return Ok((K::Symbol(s), e));
    }
    if b >= 0xed && is_vector_tag((256 - (b as u16)) as u8) {
        return read_atom(d, q, b);
    }
    let t: i64 = if b >= 128 {
        b as i64 - 256
    } else {
        b as i64
    };
    let mut m = "unknown type tag: ".to_owned();
    push_int(&mut m, t);
    Err(LError::Deserialize(m))
}

/// Deserialize one K value from the front of `data`.
pub fn deserialize(data: &[u8]) -> (r: Result<K, LError>)
    ensures
        match r {
            Ok(k) => spec_deserialize(data@) == Ok::<KV, Seq<char>>(k@),
            Err(LError::Deserialize(m)) => spec_deserialize(data@) == Err::<KV, Seq<char>>(m@),
            Err(_) => false,
        },
{
    match read_k(data, 0, 0) {
        Ok((k, _)) => Ok(k),
        Err(e) => Err(e),
    }
}


// ── the round trip ────────────────────────────────────────────────────────

/// `v` is a value of the scalar kind (what its Rust type can hold).
pub open spec fn in_range(kind: Kind, v: int) -> bool {
    let w = kind_width(kind);
    if kind == Kind::Bool {
        v == 0 || v == 1
    } else if kind_signed(kind) {
        -(pow256(w) / 2) <= v < pow256(w) / 2
    } else {
        0 <= v < pow256(w)
    }
}

/// No NUL character (a NUL would end the symbol on the wire).
pub open spec fn no_nul(s: Seq<char>) -> bool {
    forall|i: int| 0 <= i < s.len() ==> s[i] != '\0'
}

/// `k`, enclosed by `depth` containers, can make the trip through the
/// wire: nesting within `MAX_DEPTH`, every count within `i32::MAX`, no
/// NUL inside a symbol or error text, every scalar within its type.
pub open spec fn wire_ok(k: KV, depth: nat) -> bool
    decreases k,
{
    depth <= MAX_DEPTH && match k {
        KV::Atom(kind, v) => in_range(kind, v),
        KV::Vector(kind, vs) => vs.len() <= i32::MAX && forall|i: int|
            0 <= i < vs.len() ==> in_range(kind, #[trigger] vs[i]),
        KV::Symbol(s) => no_nul(s),
        KV::Error(s) => no_nul(s),
        KV::SymbolVec(ss) => ss.len() <= i32::MAX && forall|i: int|
            0 <= i < ss.len() ==> no_nul(#[trigger] ss[i]),
        KV::List(xs) => xs.len() <= i32::MAX && wire_ok_list(xs, depth + 1),
        KV::Dict(a, b) => wire_ok(*a, depth + 1) && wire_ok(*b, depth + 1),
        KV::Table(t) => wire_ok(*t, depth + 1),
        KV::Null => true,
    }
}

pub open spec fn wire_ok_list(xs: Seq<KV>, depth: nat) -> bool
    decreases xs,
{
    xs.len() == 0 || (wire_ok(xs[0], depth) && wire_ok_list(
        xs.subrange(1, xs.len() as int),
        depth,
    ))
}

/// `d` holds `a` at `p`.
pub open spec fn holds_at(d: Seq<u8>, p: int, a: Seq<u8>) -> bool {
    0 <= p && p + a.len() <= d.len() && d.subrange(p, p + a.len()) == a
}

proof fn lemma_holds_split(d: Seq<u8>, p: int, a: Seq<u8>, b: Seq<u8>)
    requires
        holds_at(d, p, a + b),
    ensures
        holds_at(d, p, a),
        holds_at(d, p + a.len(), b),
{
    assert(d.subrange(p, p + a.len()) =~= (a + b).subrange(0, a.len() as int));
    assert(d.subrange(p + a.len(), p + a.len() + b.len()) =~= (a + b).subrange(
        a.len() as int,
        (a + b).len() as int,
    ));
}

proof fn lemma_vector_kind_tag(kind: Kind)
    ensures
        vector_kind(kind_tag(kind)) == Some(kind),
        1 <= kind_width(kind) <= 8,
        kind_tag(kind) != 11,
        1 <= kind_tag(kind) <= 19,
{
}

proof fn lemma_scalar_roundtrip(kind: Kind, v: int)
    requires
        in_range(kind, v),
    ensures
        dec_scalar(kind, le_value(enc_w(kind_width(kind), v))) == v,
        enc_w(kind_width(kind), v).len() == kind_width(kind),
{
    let w = kind_width(kind);
    lemma_pow256_values();
    if kind_signed(kind) {
        lemma_twos_roundtrip(v, w);
    }
    lemma_le_roundtrip(twos(v, w), w);
}

proof fn lemma_count_roundtrip(d: Seq<u8>, p: int, tag: u8, n: nat, body: nat)
    requires
        n <= i32::MAX,
        n <= body,
        holds_at(d, p, header(tag, n)),
        p + 6 + body <= d.len(),
    ensures
        read_count(d, p + 1) == Ok::<(nat, int), Seq<char>>((n, p + 6)),
{
    lemma_pow256_values();
    lemma_le_roundtrip(n, 4);
    lemma_holds_split(d, p, seq![tag, 0u8], le_bytes(n, 4));
    lemma_twos_roundtrip(n as int, 4);
}

proof fn lemma_enc_ws_len(w: nat, vs: Seq<int>)
    ensures
        enc_ws(w, vs).len() == vs.len() * w,
    decreases vs.len(),
{
    if vs.len() > 0 {
        lemma_le_bytes_len(twos(vs[0], w), w);
        lemma_enc_ws_len(w, vs.drop_first());
        assert(vs.len() * w == w + (vs.len() - 1) * w) by (nonlinear_arith);
    }
}

proof fn lemma_vals_enc(d: Seq<u8>, r: int, kind: Kind, vs: Seq<int>)
    requires
        holds_at(d, r, enc_ws(kind_width(kind), vs)),
        forall|i: int| 0 <= i < vs.len() ==> in_range(kind, #[trigger] vs[i]),
    ensures
        vals(d, r, vs.len(), kind) == vs,
    decreases vs.len(),
{
    let w = kind_width(kind);
    if vs.len() > 0 {
        let rest = vs.drop_first();
        lemma_holds_split(d, r, enc_w(w, vs[0]), enc_ws(w, rest));
        lemma_scalar_roundtrip(kind, vs[0]);
        assert(forall|i: int| 0 <= i < rest.len() ==> in_range(kind, #[trigger] rest[i])) by {
            assert forall|i: int| 0 <= i < rest.len() implies in_range(kind, #[trigger] rest[i]) by {
                assert(rest[i] == vs[i + 1]);
            }
        }
        lemma_vals_enc(d, r + w, kind, rest);
        assert forall|i: int| 0 <= i < vs.len() implies #[trigger] vals(
            d,
            r,
            vs.len(),
            kind,
        )[i] == vs[i] by {
            if i > 0 {
                assert(r + i * w == (r + w) + (i - 1) * w) by (nonlinear_arith);
                assert(vals(d, r + w, rest.len(), kind)[i - 1] == rest[i - 1]);
            }
        }
        assert(vals(d, r, vs.len(), kind) =~= vs);
    }
}

proof fn lemma_encode_scalar_nonzero(c: char)
    requires
        c != '\0',
    ensures
        forall|i: int|
            0 <= i < encode_scalar(c as u32).len() ==> #[trigger] encode_scalar(c as u32)[i]
                != 0,
{
    let u = c as u32;
    assert(u != 0);
    if has_width_1_encoding(u) {
        assert((u & 0x7F) as u8 != 0) by (bit_vector)
            requires
                u != 0,
                u <= 0x7f,
        ;
    } else {
        let a = ((u >> 6) & 0x1F) as u8;
        let b = ((u >> 12) & 0x0F) as u8;
        let c1 = ((u >> 18) & 0x7) as u8;
        let x = (u & 0x3F) as u8;
        let y = ((u >> 6) & 0x3F) as u8;
        let z = ((u >> 12) & 0x3F) as u8;
        assert(0xC0u8 | a != 0) by (bit_vector);
        assert(0xE0u8 | b != 0) by (bit_vector);
        assert(0xF0u8 | c1 != 0) by (bit_vector);
        assert(0x80u8 | x != 0) by (bit_vector);
        assert(0x80u8 | y != 0) by (bit_vector);
        assert(0x80u8 | z != 0) by (bit_vector);
    }
}

proof fn lemma_utf8_nonzero(s: Seq<char>)
    requires
        no_nul(s),
    ensures
        forall|i: int| 0 <= i < encode_utf8(s).len() ==> #[trigger] encode_utf8(s)[i] != 0,
    decreases s.len(),
{
    if s.len() > 0 {
        let head = encode_scalar(s[0] as u32);
        let tail = encode_utf8(s.drop_first());
        lemma_encode_scalar_nonzero(s[0]);
        assert(no_nul(s.drop_first())) by {
            assert forall|i: int| 0 <= i < s.drop_first().len() implies s.drop_first()[i]
                != '\0' by {
                assert(s.drop_first()[i] == s[i + 1]);
            }
        }
        lemma_utf8_nonzero(s.drop_first());
        assert forall|i: int| 0 <= i < encode_utf8(s).len() implies #[trigger] encode_utf8(s)[i]
            != 0 by {
            if i < head.len() {
                assert(encode_utf8(s)[i] == head[i]);
            } else {
                assert(encode_utf8(s)[i] == tail[i - head.len()]);
            }
        }
    }
}

proof fn lemma_sym_end(d: Seq<u8>, q: int, e: int)
    requires
        0 <= q <= e < d.len(),
        d[e] == 0,
        forall|i: int| q <= i < e ==> d[i] != 0,
    ensures
        sym_end(d, q) == e,
    decreases e - q,
{
    if q < e {
        lemma_sym_end(d, q + 1, e);
    }
}

proof fn lemma_read_sym_enc(d: Seq<u8>, q: int, s: Seq<char>)
    requires
        no_nul(s),
        holds_at(d, q, enc_sym(s)),
    ensures
        read_sym(d, q) == (s, q + enc_sym(s).len()),
{
    let bytes = encode_utf8(s);
    let e = q + bytes.len();
    assert(d.subrange(q, e + 1) == bytes.push(0u8));
    assert(d[e] == bytes.push(0u8)[bytes.len() as int]);
    lemma_utf8_nonzero(s);
    assert forall|i: int| q <= i < e implies d[i] != 0 by {
        assert(d[i] == d.subrange(q, e + 1)[i - q]);
        assert(d.subrange(q, e + 1)[i - q] == bytes[i - q]);
    }
    lemma_sym_end(d, q, e);
    assert(d.subrange(q, e) =~= bytes);
    encode_utf8_valid_utf8(s);
    encode_utf8_decode_utf8(s);
}

proof fn lemma_read_syms_enc(d: Seq<u8>, r: int, ss: Seq<Seq<char>>)
    requires
        forall|i: int| 0 <= i < ss.len() ==> no_nul(#[trigger] ss[i]),
        holds_at(d, r, enc_syms(ss)),
    ensures
        read_syms(d, r, ss.len()) == (ss, r + enc_syms(ss).len()),
    decreases ss.len(),
{
    if ss.len() > 0 {
        let rest = ss.drop_first();
        lemma_holds_split(d, r, enc_sym(ss[0]), enc_syms(rest));
        lemma_read_sym_enc(d, r, ss[0]);
        assert forall|i: int| 0 <= i < rest.len() implies no_nul(#[trigger] rest[i]) by {
            assert(rest[i] == ss[i + 1]);
        }
        lemma_read_syms_enc(d, r + enc_sym(ss[0]).len(), rest);
        assert(seq![ss[0]] + rest =~= ss);
    } else {
        assert(ss =~= Seq::<Seq<char>>::empty());
    }
}

proof fn lemma_parse_atom(kind: Kind, v: int, d: Seq<u8>, p: int, depth: nat)
    requires
        depth <= MAX_DEPTH,
        in_range(kind, v),
        holds_at(d, p, enc(KV::Atom(kind, v))),
    ensures
        parse_k(d, p, depth) == Ok::<(KV, int), Seq<char>>(
            (KV::Atom(kind, v), p + enc(KV::Atom(kind, v)).len()),
        ),
{
    let k = KV::Atom(kind, v);
    lemma_pow256_values();
    assert(d[p] == enc(k)[0]);
    lemma_vector_kind_tag(kind);
    lemma_holds_split(d, p, seq![atom_byte(kind)], enc_w(kind_width(kind), v));
    lemma_scalar_roundtrip(kind, v);
}

proof fn lemma_parse_vector(kind: Kind, vs: Seq<int>, d: Seq<u8>, p: int, depth: nat)
    requires
        depth <= MAX_DEPTH,
        wire_ok(KV::Vector(kind, vs), depth),
        holds_at(d, p, enc(KV::Vector(kind, vs))),
        d.len() <= usize::MAX,
    ensures
        parse_k(d, p, depth) == Ok::<(KV, int), Seq<char>>(
            (KV::Vector(kind, vs), p + enc(KV::Vector(kind, vs)).len()),
        ),
{
    let k = KV::Vector(kind, vs);
    let w = kind_width(kind);
    lemma_pow256_values();
    assert(d[p] == enc(k)[0]);
    lemma_vector_kind_tag(kind);
    lemma_holds_split(d, p, header(kind_tag(kind) as u8, vs.len()), enc_ws(w, vs));
    lemma_le_bytes_len(vs.len(), 4);
    lemma_enc_ws_len(w, vs);
    assert(vs.len() <= vs.len() * w) by (nonlinear_arith)
        requires
            w >= 1,
    ;
    lemma_count_roundtrip(d, p, kind_tag(kind) as u8, vs.len(), vs.len() * w);
    lemma_vals_enc(d, p + 6, kind, vs);
}

proof fn lemma_parse_text(k: KV, d: Seq<u8>, p: int, depth: nat)
    requires
        depth <= MAX_DEPTH,
        k is Symbol || k is Error,
        wire_ok(k, depth),
        holds_at(d, p, enc(k)),
    ensures
        parse_k(d, p, depth) == Ok::<(KV, int), Seq<char>>((k, p + enc(k).len())),
{
    assert(d[p] == enc(k)[0]);
    match k {
        KV::Symbol(s) => {
            lemma_holds_split(d, p, seq![0xf5u8], enc_sym(s));
            lemma_read_sym_enc(d, p + 1, s);
        },
        KV::Error(s) => {
            lemma_holds_split(d, p, seq![0x80u8], enc_sym(s));
            lemma_read_sym_enc(d, p + 1, s);
        },
        _ => {},
    }
}

proof fn lemma_parse_symvec(ss: Seq<Seq<char>>, d: Seq<u8>, p: int, depth: nat)
    requires
        depth <= MAX_DEPTH,
        wire_ok(KV::SymbolVec(ss), depth),
        holds_at(d, p, enc(KV::SymbolVec(ss))),
    ensures
        parse_k(d, p, depth) == Ok::<(KV, int), Seq<char>>(
            (KV::SymbolVec(ss), p + enc(KV::SymbolVec(ss)).len()),
        ),
{
    let k = KV::SymbolVec(ss);
    assert(d[p] == enc(k)[0]);
    lemma_holds_split(d, p, header(11, ss.len()), enc_syms(ss));
    lemma_le_bytes_len(ss.len(), 4);
    lemma_read_syms_enc(d, p + 6, ss);
    lemma_enc_syms_len(ss);
    lemma_count_roundtrip(d, p, 11, ss.len(), enc_syms(ss).len());
}

/// Reading from `p` the bytes `enc(k)` that stand there gives back `k` and
/// the position just past them.
#[verifier::spinoff_prover]
#[verifier::rlimit(40)]
pub proof fn lemma_parse_enc(k: KV, d: Seq<u8>, p: int, depth: nat)
    requires
        wire_ok(k, depth),
        holds_at(d, p, enc(k)),
        d.len() <= usize::MAX,
    ensures
        parse_k(d, p, depth) == Ok::<(KV, int), Seq<char>>((k, p + enc(k).len())),
    decreases k,
{
    match k {
        KV::Atom(kind, v) => {
            lemma_parse_atom(kind, v, d, p, depth);
        },
        KV::Vector(kind, vs) => {
            lemma_parse_vector(kind, vs, d, p, depth);
        },
        KV::Symbol(_) => {
            lemma_parse_text(k, d, p, depth);
        },
        KV::Error(_) => {
            lemma_parse_text(k, d, p, depth);
        },
        KV::SymbolVec(ss) => {
            lemma_parse_symvec(ss, d, p, depth);
        },
        KV::List(xs) => {
            assert(d[p] == enc(k)[0]);
            lemma_holds_split(d, p, header(0, xs.len()), enc_list(xs));
            lemma_le_bytes_len(xs.len(), 4);
            lemma_parse_items_enc(xs, d, p + 6, depth + 1);
            lemma_enc_list_len(xs);
            lemma_count_roundtrip(d, p, 0, xs.len(), enc_list(xs).len());
        },
        KV::Dict(a, b) => {
            assert(d[p] == enc(k)[0]);
            lemma_holds_split(d, p, seq![99u8] + enc(*a), enc(*b));
            lemma_holds_split(d, p, seq![99u8], enc(*a));
            lemma_parse_enc(*a, d, p + 1, depth + 1);
            lemma_parse_enc(*b, d, p + 1 + enc(*a).len(), depth + 1);
        },
        KV::Table(t) => {
            assert(d[p] == enc(k)[0]);
            lemma_holds_split(d, p, seq![98u8, 0u8], enc(*t));
            lemma_parse_enc(*t, d, p + 2, depth + 1);
        },
        KV::Null => {
            assert(d[p] == enc(k)[0]);
            assert(d[p + 1] == enc(k)[1]);
        },
    }
}

/// Every encoded symbol takes at least its NUL byte.
proof fn lemma_enc_syms_len(ss: Seq<Seq<char>>)
    ensures
        enc_syms(ss).len() >= ss.len(),
    decreases ss.len(),
{
    if ss.len() > 0 {
        lemma_enc_syms_len(ss.drop_first());
    }
}

/// Every encoded value takes at least its tag byte.
proof fn lemma_enc_list_len(xs: Seq<KV>)
    ensures
        enc_list(xs).len() >= xs.len(),
    decreases xs.len(),
{
    if xs.len() > 0 {
        let rest = xs.subrange(1, xs.len() as int);
        lemma_enc_list_len(rest);
        assert(enc(xs[0]).len() >= 1) by {
            assert(enc(xs[0]).len() > 0);
        }
    }
}

/// Reading `xs.len()` items over the bytes `enc_list(xs)` gives back `xs`.
pub proof fn lemma_parse_items_enc(xs: Seq<KV>, d: Seq<u8>, p: int, depth: nat)
    requires
        wire_ok_list(xs, depth),
        holds_at(d, p, enc_list(xs)),
        d.len() <= usize::MAX,
    ensures
        parse_items(d, p, xs.len(), depth) == Ok::<(Seq<KV>, int), Seq<char>>(
            (xs, p + enc_list(xs).len()),
        ),
    decreases xs,
{
    if xs.len() > 0 {
        let rest = xs.subrange(1, xs.len() as int);
        lemma_holds_split(d, p, enc(xs[0]), enc_list(rest));
        lemma_parse_enc(xs[0], d, p, depth);
        lemma_parse_items_enc(rest, d, p + enc(xs[0]).len(), depth);
        assert(seq![xs[0]] + rest =~= xs);
    } else {
        assert(xs =~= Seq::<KV>::empty());
    }
}

/// Law: what `serialize` writes, `deserialize` reads back unchanged — for
/// every value the wire can carry (`wire_ok`) whose encoding fits in memory.
pub proof fn lemma_serialize_deserialize(k: KV)
    requires
        wire_ok(k, 0),
        enc(k).len() <= usize::MAX,
    ensures
        spec_deserialize(enc(k)) == Ok::<KV, Seq<char>>(k),
{
    assert(enc(k).subrange(0, enc(k).len() as int) =~= enc(k));
    lemma_parse_enc(k, enc(k), 0, 0);
}

proof fn lemma_header_two()
    ensures
        header(0, 2) == seq![0u8, 0u8, 2u8, 0u8, 0u8, 0u8],
{
    reveal_with_fuel(le_bytes, 5);
    assert(le_bytes(0, 1) =~= seq![0u8]);
    assert(le_bytes(0, 2) =~= seq![0u8, 0u8]);
    assert(le_bytes(0, 3) =~= seq![0u8, 0u8, 0u8]);
    assert(le_bytes(2, 4) =~= seq![2u8, 0u8, 0u8, 0u8]);
    assert(header(0, 2) =~= seq![0u8, 0u8, 2u8, 0u8, 0u8, 0u8]);
}

proof fn lemma_le_step(bs: Seq<u8>, k: int)
    requires
        0 <= k < bs.len(),
    ensures
        le_value(bs.subrange(k, bs.len() as int)) == bs[k] + 256 * le_value(
            bs.subrange(k + 1, bs.len() as int),
        ),
{
    assert(bs.subrange(k, bs.len() as int).drop_first() =~= bs.subrange(k + 1, bs.len() as int));
}

pub(crate) proof fn lemma_le_digits(bs: Seq<u8>)
    requires
        bs.len() == 2 || bs.len() == 4 || bs.len() == 8,
    ensures
        bs.len() == 2 ==> le_value(bs) == bs[0] + 256 * bs[1],
        bs.len() == 4 ==> le_value(bs) == bs[0] + 256 * bs[1] + 0x1_0000 * bs[2] + 0x100_0000
            * bs[3],
        bs.len() == 8 ==> le_value(bs) == bs[0] + 256 * bs[1] + 0x1_0000 * bs[2] + 0x100_0000
            * bs[3] + 0x1_0000_0000 * bs[4] + 0x100_0000_0000 * bs[5] + 0x1_0000_0000_0000
            * bs[6] + 0x100_0000_0000_0000 * bs[7],
{
    let n = bs.len() as int;
    assert(bs.subrange(0, n) =~= bs);
    assert(le_value(bs.subrange(n, n)) == 0);
    lemma_le_step(bs, 0);
    lemma_le_step(bs, 1);
    if n >= 4 {
        lemma_le_step(bs, 2);
        lemma_le_step(bs, 3);
    }
    if n == 8 {
        lemma_le_step(bs, 4);
        lemma_le_step(bs, 5);
        lemma_le_step(bs, 6);
        lemma_le_step(bs, 7);
    }
}

/// Law: an int goes on the wire as the byte 250 (its negated tag), then
/// its four bytes least significant first, a negative one in two's
/// complement.
pub proof fn lemma_int_atom_wire(v: int)
    requires
        i32::MIN <= v <= i32::MAX,
    ensures
        ({
            let b = enc(KV::Atom(Kind::Int, v));
            &&& b.len() == 5 && b[0] == 250
            &&& b[1] + 256 * b[2] + 0x1_0000 * b[3] + 0x100_0000 * b[4] == if v < 0 {
                v + 0x1_0000_0000
            } else {
                v
            }
        }),
{
    lemma_pow256_values();
    let u = twos(v, 4);
    lemma_le_roundtrip(u, 4);
    let b = enc(KV::Atom(Kind::Int, v));
    assert(b.subrange(1, 5) =~= le_bytes(u, 4));
    lemma_le_digits(b.subrange(1, 5));
}

/// Law: a long goes on the wire as the byte 249 (its negated tag), then
/// its eight bytes least significant first, a negative one in two's
/// complement.
pub proof fn lemma_long_atom_wire(v: int)
    requires
        i64::MIN <= v <= i64::MAX,
    ensures
        ({
            let b = enc(KV::Atom(Kind::Long, v));
            &&& b.len() == 9 && b[0] == 249
            &&& b[1] + 256 * b[2] + 0x1_0000 * b[3] + 0x100_0000 * b[4] + 0x1_0000_0000 * b[5]
                + 0x100_0000_0000 * b[6] + 0x1_0000_0000_0000 * b[7] + 0x100_0000_0000_0000 * b[8]
                == if v < 0 {
                v + 0x1_0000_0000_0000_0000
            } else {
                v
            }
        }),
{
    lemma_pow256_values();
    let u = twos(v, 8);
    lemma_le_roundtrip(u, 8);
    let b = enc(KV::Atom(Kind::Long, v));
    assert(b.subrange(1, 9) =~= le_bytes(u, 8));
    lemma_le_digits(b.subrange(1, 9));
}

proof fn lemma_enc_ws_at(w: nat, vs: Seq<int>, i: int)
    requires
        0 <= i < vs.len(),
    ensures
        enc_ws(w, vs).len() == w * vs.len(),
        enc_ws(w, vs).subrange(w * i, w * i + w) == enc_w(w, vs[i]),
    decreases vs.len(),
{
    lemma_le_bytes_len(twos(vs[0], w), w);
    let rest = vs.drop_first();
    let tail = enc_ws(w, rest);
    if rest.len() == 0 {
        assert(tail.len() == 0);
    } else if i == 0 {
        lemma_enc_ws_at(w, rest, 0);
    } else {
        lemma_enc_ws_at(w, rest, i - 1);
        assert(rest[i - 1] == vs[i]);
    }
    assert(w * vs.len() == w + w * rest.len()) by (nonlinear_arith)
        requires
            vs.len() == rest.len() + 1,
    ;
    let head = enc_w(w, vs[0]);
    assert(enc_ws(w, vs) == head + tail);
    if i > 0 {
        assert(w * i == w + w * (i - 1)) by (nonlinear_arith);
        assert(w * (i - 1) + w <= w * rest.len()) by (nonlinear_arith)
            requires
                i - 1 < rest.len(),
        ;
        assert forall|j: int| 0 <= j < w implies #[trigger] enc_ws(w, vs).subrange(
            w * i,
            w * i + w,
        )[j] == enc_w(w, vs[i])[j] by {
            assert(enc_ws(w, vs)[w * i + j] == tail[w * (i - 1) + j]);
            assert(tail.subrange(w * (i - 1), w * (i - 1) + w)[j] == tail[w * (i - 1) + j]);
        }
        assert(enc_ws(w, vs).subrange(w * i, w * i + w) =~= enc_w(w, vs[i]));
    } else {
        assert(enc_ws(w, vs).subrange(0, w as int) =~= enc_w(w, vs[0]));
    }
}

/// Law: a vector goes on the wire as its type tag, the attribute 0, its
/// count in four little-endian bytes, then its elements in order, element
/// `i` written exactly as the payload of the atom it holds.
pub proof fn lemma_vector_wire(kind: Kind, vs: Seq<int>, i: int)
    requires
        0 <= i < vs.len(),
        vs.len() <= i32::MAX,
    ensures
        ({
            let b = enc(KV::Vector(kind, vs));
            let w = kind_width(kind) as int;
            &&& b.len() == 6 + w * vs.len()
            &&& b[0] == kind_tag(kind) && b[1] == 0
            &&& b[2] + 256 * b[3] + 0x1_0000 * b[4] + 0x100_0000 * b[5] == vs.len()
            &&& b.subrange(6 + w * i, 6 + w * i + w) == enc(KV::Atom(kind, vs[i])).subrange(1, 1 + w)
        }),
{
    lemma_pow256_values();
    let w = kind_width(kind);
    let b = enc(KV::Vector(kind, vs));
    lemma_le_roundtrip(vs.len(), 4);
    lemma_enc_ws_at(w, vs, i);
    let hd = header(kind_tag(kind) as u8, vs.len());
    assert(b =~= hd + enc_ws(w, vs));
    assert(b.subrange(2, 6) =~= le_bytes(vs.len(), 4));
    lemma_le_digits(b.subrange(2, 6));
    lemma_le_bytes_len(twos(vs[i], w), w);
    assert(b.subrange(6 + w * i, 6 + w * i + w) =~= enc_ws(w, vs).subrange(
        w * i,
        w * i + w,
    ));
    assert(enc(KV::Atom(kind, vs[i])).subrange(1, 1 + w as int) =~= enc_w(w, vs[i]));
}

/// Law: the first byte on the wire of every value is its type tag, taken
/// modulo 256 (an atom's negative tag as its byte).
pub proof fn lemma_wire_tag(k: KV)
    ensures
        enc(k).len() > 0,
        enc(k)[0] as int == (crate::k::type_tag_of(k) + 256) % 256,
{
}

/// Law: a symbol goes on the wire as the byte 245 (its negated tag), its
/// UTF-8 bytes and a closing NUL; and such bytes read back as the symbol
/// whenever it holds no NUL.
pub proof fn lemma_symbol_wire(s: Seq<char>)
    requires
        no_nul(s),
        encode_utf8(s).len() + 2 <= usize::MAX,
    ensures
        enc(KV::Symbol(s)) == seq![245u8] + encode_utf8(s) + seq![0u8],
        spec_deserialize(seq![245u8] + encode_utf8(s) + seq![0u8]) == Ok::<KV, Seq<char>>(
            KV::Symbol(s),
        ),
{
    assert(enc(KV::Symbol(s)) =~= seq![245u8] + encode_utf8(s) + seq![0u8]);
    lemma_serialize_deserialize(KV::Symbol(s));
}

/// Law: a dictionary goes on the wire as the byte 99, then its keys,
/// then its values; and a dictionary read from such bytes takes the value
/// encoded first as its keys and the one after as its values.
pub proof fn lemma_dict_wire(a: KV, b: KV)
    requires
        wire_ok(a, 1),
        wire_ok(b, 1),
        1 + enc(a).len() + enc(b).len() <= usize::MAX,
    ensures
        enc(KV::Dict(Box::new(a), Box::new(b))) == seq![99u8] + enc(a) + enc(b),
        enc(KV::Dict(Box::new(a), Box::new(b))).subrange(1, 1 + enc(a).len() as int) == enc(a),
        spec_deserialize(seq![99u8] + enc(a) + enc(b)) == Ok::<KV, Seq<char>>(
            KV::Dict(Box::new(a), Box::new(b)),
        ),
{
    let k = KV::Dict(Box::new(a), Box::new(b));
    assert(enc(k).subrange(1, 1 + enc(a).len() as int) =~= enc(a));
    lemma_serialize_deserialize(k);
}

/// Law: a table goes on the wire as the bytes 98 and 0 (its attribute),
/// then its column dictionary; and such bytes read back as the table.
pub proof fn lemma_table_wire(d: KV)
    requires
        wire_ok(d, 1),
        2 + enc(d).len() <= usize::MAX,
    ensures
        enc(KV::Table(Box::new(d))) == seq![98u8, 0u8] + enc(d),
        spec_deserialize(seq![98u8, 0u8] + enc(d)) == Ok::<KV, Seq<char>>(KV::Table(Box::new(d))),
{
    lemma_serialize_deserialize(KV::Table(Box::new(d)));
}

/// Law: a two-element list goes on the wire as the byte 0, the attribute
/// 0, the count 2 as four little-endian bytes, then its elements in order;
/// and such bytes read back as the list.
pub proof fn lemma_pair_list_wire(x: KV, y: KV)
    requires
        wire_ok(x, 1),
        wire_ok(y, 1),
        6 + enc(x).len() + enc(y).len() <= usize::MAX,
    ensures
        enc(KV::List(seq![x, y])) == seq![0u8, 0u8, 2u8, 0u8, 0u8, 0u8] + enc(x) + enc(y),
        spec_deserialize(seq![0u8, 0u8, 2u8, 0u8, 0u8, 0u8] + enc(x) + enc(y)) == Ok::<
            KV,
            Seq<char>,
        >(KV::List(seq![x, y])),
{
    let xs = seq![x, y];
    reveal_with_fuel(enc_list, 3);
    assert(xs.subrange(1, 2) =~= seq![y]);
    assert(seq![y].subrange(1, 1) =~= Seq::<KV>::empty());
    assert(enc_list(xs) =~= enc(x) + enc(y));
    assert(header(0, 2) =~= seq![0u8, 0u8, 2u8, 0u8, 0u8, 0u8]) by {
        lemma_header_two();
    }
    assert(wire_ok_list(xs, 1)) by {
        reveal_with_fuel(wire_ok_list, 3);
    }
    assert(enc(KV::List(xs)) =~= seq![0u8, 0u8, 2u8, 0u8, 0u8, 0u8] + enc(x) + enc(y));
    lemma_serialize_deserialize(KV::List(xs));
}

/// Law: `deserialize` reads one value from the front of its input: bytes
/// after an encoded value do not change what is read.
pub proof fn lemma_deserialize_front(k: KV, rest: Seq<u8>)
    requires
        wire_ok(k, 0),
        enc(k).len() + rest.len() <= usize::MAX,
    ensures
        spec_deserialize(enc(k) + rest) == Ok::<KV, Seq<char>>(k),
{
    let d = enc(k) + rest;
    assert(d.subrange(0, enc(k).len() as int) =~= enc(k));
    lemma_parse_enc(k, d, 0, 0);
}

/// Law: a list, symbol list or vector whose count field is negative (a
/// count of 2^31 or more wrapped by a writer) is refused, never trusted.
pub proof fn lemma_negative_count_refused(d: Seq<u8>)
    requires
        d.len() >= 6,
        d[0] == 0 || d[0] == 11 || vector_kind(d[0] as int) is Some,
        untwos(le_value(d.subrange(2, 6)), 4) < 0,
    ensures
        spec_deserialize(d) is Err,
{
    assert(read_count(d, 1) is Err);
}

/// `n` headers of one-element lists, one inside the other.
pub open spec fn nested_lists(n: nat) -> Seq<u8> {
    Seq::new(6 * n, |k: int| if k % 6 == 2 { 1u8 } else { 0u8 })
}

proof fn lemma_nested_from(n: nat, rest: Seq<u8>, i: nat)
    requires
        n > MAX_DEPTH + 1,
        i <= MAX_DEPTH + 1,
    ensures
        parse_k(nested_lists(n) + rest, 6 * i as int, i) is Err,
    decreases MAX_DEPTH + 1 - i,
{
    let d = nested_lists(n) + rest;
    if i <= MAX_DEPTH {
        let p: int = 6 * i as int;
        assert(d[p] == 0);
        assert(d.subrange(p + 2, p + 6) =~= seq![1u8, 0u8, 0u8, 0u8]);
        assert(le_value(seq![1u8, 0u8, 0u8, 0u8]) == 1) by {
            reveal_with_fuel(le_value, 5);
            assert(seq![1u8, 0u8, 0u8, 0u8].drop_first() =~= seq![0u8, 0u8, 0u8]);
            assert(seq![0u8, 0u8, 0u8].drop_first() =~= seq![0u8, 0u8]);
            assert(seq![0u8, 0u8].drop_first() =~= seq![0u8]);
            assert(seq![0u8].drop_first() =~= Seq::<u8>::empty());
        }
        lemma_pow256_values();
        assert(read_count(d, p + 1) == Ok::<(nat, int), Seq<char>>((1nat, p + 6)));
        lemma_nested_from(n, rest, i + 1);
        assert(parse_items(d, p + 6, 1, i + 1) is Err);
    }
}

/// Law: lists nested past `MAX_DEPTH` are refused, whatever follows.
pub proof fn lemma_deep_nesting_refused(n: nat, rest: Seq<u8>)
    requires
        n > MAX_DEPTH + 1,
    ensures
        spec_deserialize(nested_lists(n) + rest) is Err,
{
    lemma_nested_from(n, rest, 0);
}

/// Law: a symbol atom is never refused, whatever bytes it holds (text that
/// is not UTF-8 is read leniently).
pub proof fn lemma_symbol_never_refused(d: Seq<u8>)
    requires
        d.len() >= 1,
        d[0] == 0xf5,
    ensures
        spec_deserialize(d) is Ok,
{
}

} // verus!
