//! A K value spelled as an L literal (what the console prints).
//!
//! Floating-point payloads are spelled by a caller-supplied function: the
//! decimal spelling of an IEEE value is not modelled here, so the contract
//! gives the text for whatever spelling that function keeps to.

use vstd::prelude::*;

use crate::k::{
    K, KV, Kind, ints_bool, ints_i16, ints_i32, ints_i64, ints_u32, ints_u64, ints_u8, kseq_view,
    lemma_kseq_view, strs,
};
use crate::literal::{
    date_text, fmt_date, fmt_minute, fmt_month, fmt_second, fmt_time, fmt_timespan,
    fmt_timestamp, minute_text, month_text, second_text, time_text, timespan_text,
    timestamp_text,
};
use crate::text::{dec_int, dec_nat, lossy_text, push_char, push_int, push_str, utf8_lossy};

verus! {

/// A floating-point payload (IEEE bits) handed to the caller's speller.
#[derive(Clone, Copy, Debug, PartialEq, Eq, Structural)]
pub enum FloatBits {
    Real(u32),
    Float(u64),
    DateTime(u64),
}

/// `ts` joined by `sep`.
pub open spec fn sep_join(ts: Seq<Seq<char>>, sep: Seq<char>) -> Seq<char>
    decreases ts.len(),
{
    if ts.len() == 0 {
        Seq::empty()
    } else if ts.len() == 1 {
        ts[0]
    } else {
        sep_join(ts.drop_last(), sep) + sep + ts.last()
    }
}

/// Lower-case hex digit.
pub open spec fn hex_digit(d: int) -> char {
    if d < 10 {
        (48 + d) as char
    } else {
        (87 + d) as char
    }
}

/// Two lower-case hex digits of a byte.
pub open spec fn hex2(v: int) -> Seq<char> {
    seq![hex_digit(v / 16), hex_digit(v % 16)]
}

/// Text of one temporal or integral element.
pub open spec fn elem_text(kind: Kind, v: int) -> Seq<char> {
    match kind {
        Kind::Timestamp => timestamp_text(v),
        Kind::Month => month_text(v),
        Kind::Date => date_text(v),
        Kind::Minute => minute_text(v),
        Kind::Second => second_text(v),
        Kind::Time => time_text(v),
        Kind::Timespan => timespan_text(v),
        _ => dec_int(v),
    }
}

/// Text of an atom.
pub open spec fn atom_text(kind: Kind, v: int) -> Seq<char> {
    match kind {
        Kind::Bool => dec_int(v) + seq!['b'],
        Kind::Byte => seq!['0', 'x'] + hex2(v),
        Kind::Short => dec_int(v) + seq!['h'],
        Kind::Char => seq!['"', v as char, '"'],
        _ => elem_text(kind, v),
    }
}

pub open spec fn concat(ts: Seq<Seq<char>>) -> Seq<char>
    decreases ts.len(),
{
    if ts.len() == 0 {
        Seq::empty()
    } else {
        concat(ts.drop_last()) + ts.last()
    }
}

/// Text of a vector.
pub open spec fn vector_text(kind: Kind, vs: Seq<int>) -> Seq<char> {
    match kind {
        Kind::Bool => concat(Seq::new(vs.len(), |i: int| dec_int(vs[i]))) + seq!['b'],
        Kind::Byte => seq!['0', 'x'] + concat(Seq::new(vs.len(), |i: int| hex2(vs[i]))),
        Kind::Char => seq!['"'] + lossy_text(Seq::new(vs.len(), |i: int| vs[i] as u8)) + seq![
            '"',
        ],
        Kind::Short => sep_join(Seq::new(vs.len(), |i: int| dec_int(vs[i])), seq![' ']) + seq![
            'h',
        ],
        _ => sep_join(Seq::new(vs.len(), |i: int| elem_text(kind, vs[i])), seq![' ']),
    }
}

/// L's enlist mark: a one-element vector is spelled with a leading `,`,
/// so that it does not read back as the atom.
pub open spec fn enlist(n: int) -> Seq<char> {
    if n == 1 {
        seq![',']
    } else {
        Seq::empty()
    }
}

/// Text of a symbol vector (without the enlist mark).
pub open spec fn syms_text(ss: Seq<Seq<char>>) -> Seq<char> {
    concat(Seq::new(ss.len(), |i: int| seq!['`'] + ss[i]))
}

/// The printed form of a K value without floating-point payloads.
pub open spec fn k_text(k: KV) -> Seq<char>
    decreases k,
{
    match k {
        KV::Atom(kind, v) => atom_text(kind, v),
        KV::Vector(kind, vs) => enlist(vs.len() as int) + vector_text(kind, vs),
        KV::Symbol(s) => seq!['`'] + s,
        KV::SymbolVec(ss) => enlist(ss.len() as int) + syms_text(ss),
        KV::List(xs) => seq!['('] + sep_join(list_texts(xs), seq![';']) + seq![')'],
        KV::Dict(a, b) => k_text(*a) + seq!['!'] + k_text(*b),
        KV::Table(t) => seq!['+'] + k_text(*t),
        KV::Error(s) => seq!['\''] + s,
        KV::Null => seq![':', ':'],
    }
}

pub open spec fn list_texts(xs: Seq<KV>) -> Seq<Seq<char>>
    decreases xs,
{
    if xs.len() == 0 {
        Seq::empty()
    } else {
        list_texts(xs.subrange(0, xs.len() - 1)).push(k_text(xs[xs.len() - 1]))
    }
}

/// `sp` gives the text that `flt` makes of every floating-point payload.
pub open spec fn spells<F: Fn(FloatBits) -> String>(flt: F, sp: spec_fn(FloatBits) -> Seq<char>) -> bool {
    forall|x: FloatBits, t: String| #[trigger] flt.ensures((x,), t) ==> t@ == sp(x)
}

/// The payload of a float element of kind `kind`, spelled by `sp`.
pub open spec fn float_text(kind: Kind, v: int, sp: spec_fn(FloatBits) -> Seq<char>) -> Seq<char> {
    if kind == Kind::Real {
        sp(FloatBits::Real(v as u32))
    } else if kind == Kind::Float {
        sp(FloatBits::Float(v as u64))
    } else {
        sp(FloatBits::DateTime(v as u64))
    }
}

/// A spelling made only of digits and minus signs: it would read back as
/// an integer.
pub open spec fn integral_text(t: Seq<char>) -> bool {
    t.len() > 0 && forall|i: int|
        0 <= i < t.len() ==> (t[i] == '-' || ('0' <= #[trigger] t[i] && t[i] <= '9'))
}

/// The `f` that marks a float vector whose spellings all read as integers
/// (and a float atom, as a one-element list of spellings).
pub open spec fn float_mark(ts: Seq<Seq<char>>) -> Seq<char> {
    if ts.len() > 0 && forall|i: int| 0 <= i < ts.len() ==> integral_text(#[trigger] ts[i]) {
        seq!['f']
    } else {
        Seq::empty()
    }
}

/// Text of an atom, floats spelled by `sp` (a real ends in `e`, a float
/// that reads as an integer in `f`).
pub open spec fn atom_text_in(kind: Kind, v: int, sp: spec_fn(FloatBits) -> Seq<char>) -> Seq<char> {
    if kind == Kind::Real {
        float_text(kind, v, sp) + seq!['e']
    } else if kind == Kind::Float {
        float_text(kind, v, sp) + float_mark(seq![float_text(kind, v, sp)])
    } else if is_float_kind(kind) {
        float_text(kind, v, sp)
    } else {
        atom_text(kind, v)
    }
}

/// Text of a vector, floats spelled by `sp` (a real vector ends in `e`, a
/// float vector whose elements all read as integers in `f`).
pub open spec fn vector_text_in(kind: Kind, vs: Seq<int>, sp: spec_fn(FloatBits) -> Seq<char>) -> Seq<char> {
    if is_float_kind(kind) {
        sep_join(Seq::new(vs.len(), |i: int| float_text(kind, vs[i], sp)), seq![' ']) + if kind
            == Kind::Real {
            seq!['e']
        } else if kind == Kind::Float {
            float_mark(Seq::new(vs.len(), |i: int| float_text(kind, vs[i], sp)))
        } else {
            Seq::empty()
        }
    } else {
        vector_text(kind, vs)
    }
}

/// The printed form of a K value, floating-point payloads spelled by `sp`.
pub open spec fn k_text_in(k: KV, sp: spec_fn(FloatBits) -> Seq<char>) -> Seq<char>
    decreases k,
{
    match k {
        KV::Atom(kind, v) => atom_text_in(kind, v, sp),
        KV::Vector(kind, vs) => enlist(vs.len() as int) + vector_text_in(kind, vs, sp),
        KV::List(xs) => seq!['('] + sep_join(list_texts_in(xs, sp), seq![';']) + seq![')'],
        KV::Dict(a, b) => k_text_in(*a, sp) + seq!['!'] + k_text_in(*b, sp),
        KV::Table(t) => seq!['+'] + k_text_in(*t, sp),
        _ => k_text(k),
    }
}

pub open spec fn list_texts_in(xs: Seq<KV>, sp: spec_fn(FloatBits) -> Seq<char>) -> Seq<Seq<char>>
    decreases xs,
{
    if xs.len() == 0 {
        Seq::empty()
    } else {
        list_texts_in(xs.subrange(0, xs.len() - 1), sp).push(k_text_in(xs[xs.len() - 1], sp))
    }
}

pub open spec fn is_float_kind(kind: Kind) -> bool {
    kind == Kind::Real || kind == Kind::Float || kind == Kind::DateTime
}

/// No floating-point payload anywhere in `k`.
pub open spec fn float_free(k: KV) -> bool
    decreases k,
{
    match k {
        KV::Atom(kind, _) => !is_float_kind(kind),
        KV::Vector(kind, _) => !is_float_kind(kind),
        KV::List(xs) => list_float_free(xs),
        KV::Dict(a, b) => float_free(*a) && float_free(*b),
        KV::Table(t) => float_free(*t),
        _ => true,
    }
}

pub open spec fn list_float_free(xs: Seq<KV>) -> bool
    decreases xs,
{
    xs.len() == 0 || (list_float_free(xs.subrange(0, xs.len() - 1)) && float_free(
        xs[xs.len() - 1],
    ))
}

pub open spec fn vector_spans_ok(kind: Kind, vs: Seq<int>) -> bool {
    kind == Kind::Timespan ==> forall|i: int| 0 <= i < vs.len() ==> vs[i] != i64::MIN
}

/// Every timespan in `k` has a magnitude (is not `i64::MIN`).
pub open spec fn spans_ok(k: KV) -> bool
    decreases k,
{
    match k {
        KV::Atom(kind, v) => kind == Kind::Timespan ==> v != i64::MIN,
        KV::Vector(kind, vs) => vector_spans_ok(kind, vs),
        KV::List(xs) => list_spans_ok(xs),
        KV::Dict(a, b) => spans_ok(*a) && spans_ok(*b),
        KV::Table(t) => spans_ok(*t),
        _ => true,
    }
}

pub open spec fn list_spans_ok(xs: Seq<KV>) -> bool
    decreases xs,
{
    xs.len() == 0 || (list_spans_ok(xs.subrange(0, xs.len() - 1)) && spans_ok(
        xs[xs.len() - 1],
    ))
}

proof fn lemma_list_all(xs: Seq<KV>, i: int)
    requires
        0 <= i < xs.len(),
    ensures
        list_spans_ok(xs) ==> spans_ok(xs[i]),
        list_float_free(xs) ==> float_free(xs[i]),
        list_spans_ok(xs) ==> list_spans_ok(xs.subrange(0, i)),
        list_float_free(xs) ==> list_float_free(xs.subrange(0, i)),
        list_texts(xs).len() == xs.len(),
    decreases xs.len(),
{
    let init = xs.subrange(0, xs.len() - 1);
    if i < xs.len() - 1 {
        lemma_list_all(init, i);
        assert(init[i] == xs[i]);
        assert(init.subrange(0, i) =~= xs.subrange(0, i));
    } else {
        assert(init =~= xs.subrange(0, i));
        if xs.len() > 1 {
            lemma_list_all(init, 0);
        }
    }
}

proof fn lemma_list_texts_prefix(xs: Seq<KV>, i: int)
    requires
        0 <= i < xs.len(),
    ensures
        list_texts(xs.subrange(0, i + 1)) == list_texts(xs.subrange(0, i)).push(k_text(xs[i])),
{
    assert(xs.subrange(0, i + 1).subrange(0, i) =~= xs.subrange(0, i));
}

proof fn lemma_list_texts_in(xs: Seq<KV>, i: int, sp: spec_fn(FloatBits) -> Seq<char>)
    requires
        0 <= i < xs.len(),
    ensures
        list_texts_in(xs.subrange(0, i + 1), sp) == list_texts_in(xs.subrange(0, i), sp).push(
            k_text_in(xs[i], sp),
        ),
        list_texts_in(xs.subrange(0, i), sp).len() == i,
    decreases i,
{
    assert(xs.subrange(0, i + 1).subrange(0, i) =~= xs.subrange(0, i));
    if i > 0 {
        lemma_list_texts_in(xs, i - 1, sp);
    } else {
        assert(xs.subrange(0, 0).len() == 0);
    }
}

proof fn lemma_sep_join_step(ts: Seq<Seq<char>>, i: int, sep: Seq<char>)
    requires
        0 <= i < ts.len(),
    ensures
        sep_join(ts.take(i + 1), sep) == if i == 0 {
            ts[0]
        } else {
            sep_join(ts.take(i), sep) + sep + ts[i]
        },
{
    assert(ts.take(i + 1).drop_last() =~= ts.take(i));
}

proof fn lemma_concat_step(ts: Seq<Seq<char>>, i: int)
    requires
        0 <= i < ts.len(),
    ensures
        concat(ts.take(i + 1)) == concat(ts.take(i)) + ts[i],
{
    assert(ts.take(i + 1).drop_last() =~= ts.take(i));
}

fn hex_char(d: u8) -> (c: char)
    requires
        d < 16,
    ensures
        c == hex_digit(d as int),
{
    if d < 10 {
        (48 + d) as char
    } else {
        (87 + d) as char
    }
}

fn push_hex2(s: &mut String, v: u8)
    ensures
        final(s)@ == old(s)@ + hex2(v as int),
{
    let ghost s0 = s@;
    push_char(s, hex_char(v / 16));
    push_char(s, hex_char(v % 16));
    assert(s@ =~= s0 + hex2(v as int));
}

/// Appends the element texts of an int-like vector, space separated.
fn push_i32s(s: &mut String, v: &Vec<i32>, kind: Kind)
    requires
        kind == Kind::Int || kind == Kind::Month || kind == Kind::Date || kind == Kind::Minute
            || kind == Kind::Second || kind == Kind::Time,
    ensures
        final(s)@ == old(s)@ + sep_join(
            Seq::new(v@.len(), |i: int| elem_text(kind, ints_i32(v@)[i])),
            seq![' '],
        ),
{
    let ghost s0 = s@;
    let ghost ts = Seq::new(v@.len(), |i: int| elem_text(kind, ints_i32(v@)[i]));
    assert(ts.take(0) =~= Seq::<Seq<char>>::empty());
    for i in 0..v.len()
        invariant
            kind == Kind::Int || kind == Kind::Month || kind == Kind::Date || kind == Kind::Minute
                || kind == Kind::Second || kind == Kind::Time,
            ts == Seq::new(v@.len(), |i: int| elem_text(kind, ints_i32(v@)[i])),
            s@ == s0 + sep_join(ts.take(i as int), seq![' ']),
    {
        proof {
            lemma_sep_join_step(ts, i as int, seq![' ']);
        }
        let ghost mid = s@;
        if i > 0 {
            push_char(s, ' ');
        }
        let x = v[i];
        let t = if kind == Kind::Month {
            fmt_month(x)
        } else if kind == Kind::Date {
            fmt_date(x)
        } else if kind == Kind::Minute {
            fmt_minute(x)
        } else if kind == Kind::Second {
            fmt_second(x)
        } else if kind == Kind::Time {
            fmt_time(x)
        } else {
            let mut t = String::new();
            push_int(&mut t, x as i64);
            t
        };
        push_str(s, t.as_str());
        assert(s@ =~= s0 + sep_join(ts.take(i + 1), seq![' ']));
    }
    assert(ts.take(v.len() as int) =~= ts);
}


proof fn lemma_sep_join_push(ts: Seq<Seq<char>>, t: Seq<char>, sep: Seq<char>)
    ensures
        sep_join(ts.push(t), sep) == if ts.len() == 0 {
            t
        } else {
            sep_join(ts, sep) + sep + t
        },
{
    assert(ts.push(t).drop_last() =~= ts);
}

fn push_i16s(s: &mut String, v: &Vec<i16>)
    ensures
        final(s)@ == old(s)@ + sep_join(
            Seq::new(v@.len(), |i: int| dec_int(ints_i16(v@)[i])),
            seq![' '],
        ),
{
    let ghost s0 = s@;
    let ghost ts = Seq::new(v@.len(), |i: int| dec_int(ints_i16(v@)[i]));
    assert(ts.take(0) =~= Seq::<Seq<char>>::empty());
    for i in 0..v.len()
        invariant
            ts == Seq::new(v@.len(), |i: int| dec_int(ints_i16(v@)[i])),
            s@ == s0 + sep_join(ts.take(i as int), seq![' ']),
    {
        proof {
            lemma_sep_join_step(ts, i as int, seq![' ']);
        }
        if i > 0 {
            push_char(s, ' ');
        }
        push_int(s, v[i] as i64);
        assert(s@ =~= s0 + sep_join(ts.take(i + 1), seq![' ']));
    }
    assert(ts.take(v.len() as int) =~= ts);
}

fn push_i64s(s: &mut String, v: &Vec<i64>, kind: Kind)
    requires
        kind == Kind::Long || kind == Kind::Timestamp || kind == Kind::Timespan,
        kind == Kind::Timespan ==> forall|i: int| 0 <= i < v@.len() ==> v@[i] != i64::MIN,
    ensures
        final(s)@ == old(s)@ + sep_join(
            Seq::new(v@.len(), |i: int| elem_text(kind, ints_i64(v@)[i])),
            seq![' '],
        ),
{
    let ghost s0 = s@;
    let ghost ts = Seq::new(v@.len(), |i: int| elem_text(kind, ints_i64(v@)[i]));
    assert(ts.take(0) =~= Seq::<Seq<char>>::empty());
    for i in 0..v.len()
        invariant
            kind == Kind::Long || kind == Kind::Timestamp || kind == Kind::Timespan,
            kind == Kind::Timespan ==> forall|i: int| 0 <= i < v@.len() ==> v@[i] != i64::MIN,
            ts == Seq::new(v@.len(), |i: int| elem_text(kind, ints_i64(v@)[i])),
            s@ == s0 + sep_join(ts.take(i as int), seq![' ']),
    {
        proof {
            lemma_sep_join_step(ts, i as int, seq![' ']);
        }
        if i > 0 {
            push_char(s, ' ');
        }
        let x = v[i];
        let t = if kind == Kind::Timestamp {
            fmt_timestamp(x)
        } else if kind == Kind::Timespan {
            fmt_timespan(x)
        } else {
            let mut t = String::new();
            push_int(&mut t, x);
            t
        };
        push_str(s, t.as_str());
        assert(s@ =~= s0 + sep_join(ts.take(i + 1), seq![' ']));
    }
    assert(ts.take(v.len() as int) =~= ts);
}

fn push_bools(s: &mut String, v: &Vec<bool>)
    ensures
        final(s)@ == old(s)@ + concat(Seq::new(v@.len(), |i: int| dec_int(ints_bool(v@)[i]))),
{
    let ghost s0 = s@;
    let ghost ts = Seq::new(v@.len(), |i: int| dec_int(ints_bool(v@)[i]));
    assert(ts.take(0) =~= Seq::<Seq<char>>::empty());
    for i in 0..v.len()
        invariant
            ts == Seq::new(v@.len(), |i: int| dec_int(ints_bool(v@)[i])),
            s@ == s0 + concat(ts.take(i as int)),
    {
        proof {
            lemma_concat_step(ts, i as int);
        }
        push_int(s, if v[i] {
            1
        } else {
            0
        });
        assert(s@ =~= s0 + concat(ts.take(i + 1)));
    }
    assert(ts.take(v.len() as int) =~= ts);
}

fn push_hexes(s: &mut String, v: &Vec<u8>)
    ensures
        final(s)@ == old(s)@ + concat(Seq::new(v@.len(), |i: int| hex2(ints_u8(v@)[i]))),
{
    let ghost s0 = s@;
    let ghost ts = Seq::new(v@.len(), |i: int| hex2(ints_u8(v@)[i]));
    assert(ts.take(0) =~= Seq::<Seq<char>>::empty());
    for i in 0..v.len()
        invariant
            ts == Seq::new(v@.len(), |i: int| hex2(ints_u8(v@)[i])),
            s@ == s0 + concat(ts.take(i as int)),
    {
        proof {
            lemma_concat_step(ts, i as int);
        }
        push_hex2(s, v[i]);
        assert(s@ =~= s0 + concat(ts.take(i + 1)));
    }
    assert(ts.take(v.len() as int) =~= ts);
}

fn push_syms(s: &mut String, v: &Vec<String>)
    ensures
        final(s)@ == old(s)@ + concat(Seq::new(v@.len(), |i: int| seq!['`'] + strs(v@)[i])),
{
    let ghost s0 = s@;
    let ghost ts = Seq::new(v@.len(), |i: int| seq!['`'] + strs(v@)[i]);
    assert(ts.take(0) =~= Seq::<Seq<char>>::empty());
    for i in 0..v.len()
        invariant
            ts == Seq::new(v@.len(), |i: int| seq!['`'] + strs(v@)[i]),
            s@ == s0 + concat(ts.take(i as int)),
    {
        proof {
            lemma_concat_step(ts, i as int);
        }
        push_char(s, '`');
        push_str(s, v[i].as_str());
        assert(s@ =~= s0 + concat(ts.take(i + 1)));
    }
    assert(ts.take(v.len() as int) =~= ts);
}

/// The kind of a float vector's payloads.
spec fn float_kind(datetime: bool) -> Kind {
    if datetime {
        Kind::DateTime
    } else {
        Kind::Float
    }
}

/// Is `t` made only of digits and minus signs (and not empty)?
fn is_integral(t: &str) -> (b: bool)
    ensures
        b == integral_text(t@),
{
    let n = t.unicode_len();
    if n == 0 {
        return false;
    }
    let mut i: usize = 0;
    while i < n
        invariant
            n == t@.len(),
            i <= n,
            forall|j: int| 0 <= j < i ==> (t@[j] == '-' || ('0' <= #[trigger] t@[j] && t@[j] <= '9')),
        decreases n - i,
    {
        let c = t.get_char(i);
        if !(c == '-' || ('0' <= c && c <= '9')) {
            return false;
        }
        i = i + 1;
    }
    true
}

/// Appends float texts from the caller's speller, space separated; tells
/// whether every text reads as an integer.
fn push_floats<F: Fn(FloatBits) -> String>(s: &mut String, bits: &Vec<u64>, datetime: bool, flt: &F) -> (all: bool)
    requires
        forall|x: FloatBits| #[trigger] flt.requires((x,)),
    ensures
        forall|sp: spec_fn(FloatBits) -> Seq<char>|
            spells(*flt, sp) ==> (all <==> forall|i: int|
                0 <= i < bits@.len() ==> integral_text(
                    #[trigger] float_text(float_kind(datetime), ints_u64(bits@)[i], sp),
                )),
        forall|sp: spec_fn(FloatBits) -> Seq<char>|
            spells(*flt, sp) ==> final(s)@ == old(s)@ + sep_join(
                Seq::new(
                    bits@.len(),
                    |i: int|
                        float_text(
                            if datetime {
                                Kind::DateTime
                            } else {
                                Kind::Float
                            },
                            ints_u64(bits@)[i],
                            sp,
                        ),
                ),
                seq![' '],
            ),
{
    let ghost s0 = s@;
    let ghost kind = if datetime {
        Kind::DateTime
    } else {
        Kind::Float
    };
    let mut all = true;
    for i in 0..bits.len()
        invariant
            forall|x: FloatBits| #[trigger] flt.requires((x,)),
            kind == (if datetime {
                Kind::DateTime
            } else {
                Kind::Float
            }),
            forall|sp: spec_fn(FloatBits) -> Seq<char>|
                spells(*flt, sp) ==> (all <==> forall|j: int|
                    0 <= j < i ==> integral_text(
                        #[trigger] float_text(kind, ints_u64(bits@)[j], sp),
                    )),
            forall|sp: spec_fn(FloatBits) -> Seq<char>|
                spells(*flt, sp) ==> s@ == s0 + sep_join(
                    Seq::new(bits@.len(), |j: int| float_text(kind, ints_u64(bits@)[j], sp)).take(
                        i as int,
                    ),
                    seq![' '],
                ),
    {
        let ghost mid = s@;
        if i > 0 {
            push_char(s, ' ');
        }
        let x = if datetime {
            FloatBits::DateTime(bits[i])
        } else {
            FloatBits::Float(bits[i])
        };
        let t = flt(x);
        push_str(s, t.as_str());
        let ghost before = all;
        let int_like = is_integral(t.as_str());
        all = all && int_like;
        assert forall|sp: spec_fn(FloatBits) -> Seq<char>| spells(*flt, sp) implies s@ == s0
            + sep_join(
            Seq::new(bits@.len(), |j: int| float_text(kind, ints_u64(bits@)[j], sp)).take(i + 1),
            seq![' '],
        ) by {
            let ts = Seq::new(bits@.len(), |j: int| float_text(kind, ints_u64(bits@)[j], sp));
            lemma_sep_join_step(ts, i as int, seq![' ']);
            assert(t@ == sp(x));
            assert(ts[i as int] == sp(x));
        }
        assert forall|sp: spec_fn(FloatBits) -> Seq<char>| spells(*flt, sp) implies (all
            <==> forall|j: int|
            0 <= j < i + 1 ==> integral_text(
                #[trigger] float_text(kind, ints_u64(bits@)[j], sp),
            )) by {
            assert(t@ == sp(x));
            assert(float_text(kind, ints_u64(bits@)[i as int], sp) == sp(x));
        }
    }
    assert forall|sp: spec_fn(FloatBits) -> Seq<char>| spells(*flt, sp) implies s@ == s0 + sep_join(
        Seq::new(bits@.len(), |j: int| float_text(kind, ints_u64(bits@)[j], sp)),
        seq![' '],
    ) by {
        assert(Seq::new(bits@.len(), |j: int| float_text(kind, ints_u64(bits@)[j], sp)).take(
            bits@.len() as int,
        ) =~= Seq::new(bits@.len(), |j: int| float_text(kind, ints_u64(bits@)[j], sp)));
    }
    all
}

fn push_reals<F: Fn(FloatBits) -> String>(s: &mut String, bits: &Vec<u32>, flt: &F)
    requires
        forall|x: FloatBits| #[trigger] flt.requires((x,)),
    ensures
        forall|sp: spec_fn(FloatBits) -> Seq<char>|
            spells(*flt, sp) ==> final(s)@ == old(s)@ + sep_join(
                Seq::new(bits@.len(), |i: int| float_text(Kind::Real, ints_u32(bits@)[i], sp)),
                seq![' '],
            ),
{
    let ghost s0 = s@;
    for i in 0..bits.len()
        invariant
            forall|x: FloatBits| #[trigger] flt.requires((x,)),
            forall|sp: spec_fn(FloatBits) -> Seq<char>|
                spells(*flt, sp) ==> s@ == s0 + sep_join(
                    Seq::new(bits@.len(), |j: int| float_text(Kind::Real, ints_u32(bits@)[j], sp)).take(
                        i as int,
                    ),
                    seq![' '],
                ),
    {
        if i > 0 {
            push_char(s, ' ');
        }
        let x = FloatBits::Real(bits[i]);
        let t = flt(x);
        push_str(s, t.as_str());
        assert forall|sp: spec_fn(FloatBits) -> Seq<char>| spells(*flt, sp) implies s@ == s0
            + sep_join(
            Seq::new(bits@.len(), |j: int| float_text(Kind::Real, ints_u32(bits@)[j], sp)).take(
                i + 1,
            ),
            seq![' '],
        ) by {
            let ts = Seq::new(bits@.len(), |j: int| float_text(Kind::Real, ints_u32(bits@)[j], sp));
            lemma_sep_join_step(ts, i as int, seq![' ']);
            assert(t@ == sp(x));
            assert(ts[i as int] == sp(x));
        }
    }
    assert forall|sp: spec_fn(FloatBits) -> Seq<char>| spells(*flt, sp) implies s@ == s0 + sep_join(
        Seq::new(bits@.len(), |j: int| float_text(Kind::Real, ints_u32(bits@)[j], sp)),
        seq![' '],
    ) by {
        assert(Seq::new(bits@.len(), |j: int| float_text(Kind::Real, ints_u32(bits@)[j], sp)).take(
            bits@.len() as int,
        ) =~= Seq::new(bits@.len(), |j: int| float_text(Kind::Real, ints_u32(bits@)[j], sp)));
    }
}

/// Appends the printed form of an atom, symbol or error.
fn push_atom<F: Fn(FloatBits) -> String>(s: &mut String, k: &K, flt: &F)
    requires
        k@ is Atom || k@ is Symbol || k@ is Error,
        spans_ok(k@),
        forall|x: FloatBits| #[trigger] flt.requires((x,)),
    ensures
        float_free(k@) ==> final(s)@ == old(s)@ + k_text(k@),
        forall|sp: spec_fn(FloatBits) -> Seq<char>|
            spells(*flt, sp) ==> final(s)@ == old(s)@ + k_text_in(k@, sp),
{
    let ghost s0 = s@;
    match k {
        K::Bool(v) => {
            push_int(s, if *v {
                1
            } else {
                0
            });
            push_char(s, 'b');
        },
        K::Byte(v) => {
            push_char(s, '0');
            push_char(s, 'x');
            push_hex2(s, *v);
        },
        K::Short(v) => {
            push_int(s, *v as i64);
            push_char(s, 'h');
        },
        K::Int(v) => push_int(s, *v as i64),
        K::Long(v) => push_int(s, *v),
        K::Real(v) => {
            let t = flt(FloatBits::Real(*v));
            push_str(s, t.as_str());
            push_char(s, 'e');
            assert forall|sp: spec_fn(FloatBits) -> Seq<char>| spells(*flt, sp) implies s@ == s0
                + k_text_in(k@, sp) by {
                assert(t@ == sp(FloatBits::Real(*v)));
            }
        },
        K::Float(v) => {
            let t = flt(FloatBits::Float(*v));
            push_str(s, t.as_str());
            if is_integral(t.as_str()) {
                push_char(s, 'f');
            }
            assert forall|sp: spec_fn(FloatBits) -> Seq<char>| spells(*flt, sp) implies s@ == s0
                + k_text_in(k@, sp) by {
                assert(t@ == sp(FloatBits::Float(*v)));
                assert(seq![t@][0] == t@);
            }
        },
        K::Char(v) => {
            push_char(s, '"');
            push_char(s, *v as char);
            push_char(s, '"');
        },
        K::Symbol(t) => {
            push_char(s, '`');
            push_str(s, t.as_str());
        },
        K::Timestamp(v) => {
            let t = fmt_timestamp(*v);
            push_str(s, t.as_str());
        },
        K::Month(v) => {
            let t = fmt_month(*v);
            push_str(s, t.as_str());
        },
        K::Date(v) => {
            let t = fmt_date(*v);
            push_str(s, t.as_str());
        },
        K::DateTime(v) => {
            let t = flt(FloatBits::DateTime(*v));
            push_str(s, t.as_str());
            assert forall|sp: spec_fn(FloatBits) -> Seq<char>| spells(*flt, sp) implies s@ == s0
                + k_text_in(k@, sp) by {
                assert(t@ == sp(FloatBits::DateTime(*v)));
            }
        },
        K::Minute(v) => {
            let t = fmt_minute(*v);
            push_str(s, t.as_str());
        },
        K::Second(v) => {
            let t = fmt_second(*v);
            push_str(s, t.as_str());
        },
        K::Time(v) => {
            let t = fmt_time(*v);
            push_str(s, t.as_str());
        },
        K::Timespan(v) => {
            let t = fmt_timespan(*v);
            push_str(s, t.as_str());
        },
        K::Error(t) => {
            push_char(s, '\'');
            push_str(s, t.as_str());
        },
        _ => {},
    }
    assert(float_free(k@) ==> s@ =~= s0 + k_text(k@));
    assert forall|sp: spec_fn(FloatBits) -> Seq<char>| spells(*flt, sp) implies s@ == s0 + k_text_in(
        k@,
        sp,
    ) by {
        if float_free(k@) {
            assert(k_text_in(k@, sp) == k_text(k@));
        }
    }
}

/// Appends a float vector's elements, then `f` when they all read as
/// integers.
fn push_float_vec<F: Fn(FloatBits) -> String>(s: &mut String, v: &Vec<u64>, flt: &F)
    requires
        forall|x: FloatBits| #[trigger] flt.requires((x,)),
    ensures
        forall|sp: spec_fn(FloatBits) -> Seq<char>|
            spells(*flt, sp) ==> final(s)@ == old(s)@ + vector_text_in(Kind::Float, ints_u64(v@), sp),
{
    let ghost s0 = s@;
    let all = push_floats(s, v, false, flt);
    if all && v.len() > 0 {
        push_char(s, 'f');
    }
    assert forall|sp: spec_fn(FloatBits) -> Seq<char>| spells(*flt, sp) implies s@ == s0
        + vector_text_in(Kind::Float, ints_u64(v@), sp) by {
        let ts = Seq::new(v@.len(), |i: int| float_text(Kind::Float, ints_u64(v@)[i], sp));
        assert(ts =~= Seq::new(
            ints_u64(v@).len(),
            |i: int| float_text(Kind::Float, ints_u64(v@)[i], sp),
        ));
        if all {
            assert forall|i: int| 0 <= i < ts.len() implies integral_text(#[trigger] ts[i]) by {
                assert(ts[i] == float_text(Kind::Float, ints_u64(v@)[i], sp));
            }
        } else if forall|i: int| 0 <= i < ts.len() ==> integral_text(#[trigger] ts[i]) {
            assert forall|i: int| 0 <= i < v@.len() implies integral_text(
                #[trigger] float_text(Kind::Float, ints_u64(v@)[i], sp),
            ) by {
                assert(ts[i] == float_text(Kind::Float, ints_u64(v@)[i], sp));
            }
        }
    }
}

/// A vector's text without the enlist mark.
spec fn vec_body(k: KV) -> Seq<char> {
    match k {
        KV::Vector(kind, vs) => vector_text(kind, vs),
        KV::SymbolVec(ss) => syms_text(ss),
        _ => Seq::empty(),
    }
}

/// A vector's text without the enlist mark, floats spelled by `sp`.
spec fn vec_body_in(k: KV, sp: spec_fn(FloatBits) -> Seq<char>) -> Seq<char> {
    match k {
        KV::Vector(kind, vs) => vector_text_in(kind, vs, sp),
        _ => vec_body(k),
    }
}

/// Appends the printed form of a vector, without the enlist mark.
#[verifier::rlimit(40)]
fn push_vector_body<F: Fn(FloatBits) -> String>(s: &mut String, k: &K, flt: &F)
    requires
        k@ is Vector || k@ is SymbolVec,
        spans_ok(k@),
        forall|x: FloatBits| #[trigger] flt.requires((x,)),
    ensures
        float_free(k@) ==> final(s)@ == old(s)@ + vec_body(k@),
        forall|sp: spec_fn(FloatBits) -> Seq<char>|
            spells(*flt, sp) ==> final(s)@ == old(s)@ + vec_body_in(k@, sp),
{
    let ghost s0 = s@;
    match k {
        K::BoolVec(v) => {
            push_bools(s, v);
            push_char(s, 'b');
        },
        K::ByteVec(v) => {
            push_char(s, '0');
            push_char(s, 'x');
            push_hexes(s, v);
        },
        K::ShortVec(v) => {
            push_i16s(s, v);
            push_char(s, 'h');
        },
        K::IntVec(v) => push_i32s(s, v, Kind::Int),
        K::LongVec(v) => push_i64s(s, v, Kind::Long),
        K::RealVec(v) => {
            push_reals(s, v, flt);
            push_char(s, 'e');
            assert forall|sp: spec_fn(FloatBits) -> Seq<char>| spells(*flt, sp) implies s@ == s0
                + vec_body_in(k@, sp) by {
                assert(Seq::new(v@.len(), |i: int| float_text(Kind::Real, ints_u32(v@)[i], sp))
                    =~= Seq::new(
                    ints_u32(v@).len(),
                    |i: int| float_text(Kind::Real, ints_u32(v@)[i], sp),
                ));
            }
        },
        K::FloatVec(v) => push_float_vec(s, v, flt),
        K::CharVec(v) => {
            push_char(s, '"');
            let t = utf8_lossy(v.as_slice());
            push_str(s, t.as_str());
            push_char(s, '"');
            assert(Seq::new(ints_u8(v@).len(), |i: int| ints_u8(v@)[i] as u8) =~= v@);
        },
        K::SymbolVec(v) => push_syms(s, v),
        K::TimestampVec(v) => push_i64s(s, v, Kind::Timestamp),
        K::MonthVec(v) => push_i32s(s, v, Kind::Month),
        K::DateVec(v) => push_i32s(s, v, Kind::Date),
        K::DateTimeVec(v) => {
            push_floats(s, v, true, flt);
            assert forall|sp: spec_fn(FloatBits) -> Seq<char>| spells(*flt, sp) implies s@ == s0
                + vec_body_in(k@, sp) by {
                assert(Seq::new(v@.len(), |i: int| float_text(Kind::DateTime, ints_u64(v@)[i], sp))
                    =~= Seq::new(
                    ints_u64(v@).len(),
                    |i: int| float_text(Kind::DateTime, ints_u64(v@)[i], sp),
                ));
            }
        },
        K::MinuteVec(v) => push_i32s(s, v, Kind::Minute),
        K::SecondVec(v) => push_i32s(s, v, Kind::Second),
        K::TimeVec(v) => push_i32s(s, v, Kind::Time),
        K::TimespanVec(v) => {
            let ghost vs = ints_i64(v@);
            assert(k@ == KV::Vector(Kind::Timespan, vs));
            assert(vector_spans_ok(Kind::Timespan, vs));
            assert forall|i: int| 0 <= i < v@.len() implies v@[i] != i64::MIN by {
                assert(vs[i] == v@[i] as int);
            }
            push_i64s(s, v, Kind::Timespan);
        },
        _ => {},
    }
    assert(float_free(k@) ==> s@ =~= s0 + vec_body(k@));
    assert forall|sp: spec_fn(FloatBits) -> Seq<char>| spells(*flt, sp) implies s@ == s0 + vec_body_in(
        k@,
        sp,
    ) by {
        if float_free(k@) {
            assert(vec_body_in(k@, sp) == vec_body(k@));
        }
    }
}

/// Appends the printed form of a vector: the enlist mark for one element,
/// then its elements.
fn push_vector<F: Fn(FloatBits) -> String>(s: &mut String, k: &K, flt: &F)
    requires
        k@ is Vector || k@ is SymbolVec,
        spans_ok(k@),
        forall|x: FloatBits| #[trigger] flt.requires((x,)),
    ensures
        float_free(k@) ==> final(s)@ == old(s)@ + k_text(k@),
        forall|sp: spec_fn(FloatBits) -> Seq<char>|
            spells(*flt, sp) ==> final(s)@ == old(s)@ + k_text_in(k@, sp),
{
    let ghost s0 = s@;
    let n = k.len();
    if n == 1 {
        push_char(s, ',');
    }
    let ghost s1 = s@;
    assert(s1 == s0 + enlist(crate::k::count_of(k@)));
    push_vector_body(s, k, flt);
    assert(float_free(k@) ==> s@ =~= s0 + k_text(k@));
    assert forall|sp: spec_fn(FloatBits) -> Seq<char>| spells(*flt, sp) implies s@ =~= s0 + k_text_in(
        k@,
        sp,
    ) by {}
}

/// Appends the printed elements of a list, `;`-separated.
fn push_list<F: Fn(FloatBits) -> String>(s: &mut String, xs: &Vec<K>, flt: &F)
    requires
        list_spans_ok(kseq_view(xs@)),
        forall|x: FloatBits| #[trigger] flt.requires((x,)),
    ensures
        list_float_free(kseq_view(xs@)) ==> final(s)@ == old(s)@ + sep_join(
            list_texts(kseq_view(xs@)),
            seq![';'],
        ),
        forall|sp: spec_fn(FloatBits) -> Seq<char>|
            spells(*flt, sp) ==> final(s)@ == old(s)@ + sep_join(
                list_texts_in(kseq_view(xs@), sp),
                seq![';'],
            ),
    decreases xs,
{
    let ghost mid = s@;
    let ghost vs = kseq_view(xs@);
    proof {
        lemma_kseq_view(xs@);
        assert(vs.subrange(0, 0) =~= Seq::<KV>::empty());
    }
    for i in 0..xs.len()
        invariant
            vs == kseq_view(xs@),
            vs.len() == xs@.len(),
            forall|j: int| 0 <= j < xs@.len() ==> #[trigger] vs[j] == xs@[j].view(),
            list_spans_ok(vs),
            forall|x: FloatBits| #[trigger] flt.requires((x,)),
            list_float_free(vs) ==> s@ == mid + sep_join(
                list_texts(vs.subrange(0, i as int)),
                seq![';'],
            ),
            forall|sp: spec_fn(FloatBits) -> Seq<char>|
                spells(*flt, sp) ==> s@ == mid + sep_join(
                    list_texts_in(vs.subrange(0, i as int), sp),
                    seq![';'],
                ),
    {
        proof {
            assert(decreases_to!(*xs => xs@));
            assert(decreases_to!(xs@ => xs@[i as int]));
            lemma_list_all(vs, i as int);
            lemma_list_texts_prefix(vs, i as int);
            lemma_list_all(vs.subrange(0, i as int + 1), i as int);
            lemma_sep_join_push(
                list_texts(vs.subrange(0, i as int)),
                k_text(vs[i as int]),
                seq![';'],
            );
            if i > 0 {
                lemma_list_all(vs.subrange(0, i as int), 0);
            }
        }
        let ghost before = s@;
        if i > 0 {
            push_char(s, ';');
        }
        push_k(s, &xs[i], flt);
        assert forall|sp: spec_fn(FloatBits) -> Seq<char>| spells(*flt, sp) implies s@ == mid
            + sep_join(list_texts_in(vs.subrange(0, i + 1), sp), seq![';']) by {
            lemma_list_texts_in(vs, i as int, sp);
            lemma_sep_join_push(
                list_texts_in(vs.subrange(0, i as int), sp),
                k_text_in(vs[i as int], sp),
                seq![';'],
            );
        }
    }
    assert(vs.subrange(0, xs.len() as int) =~= vs);
}

/// The value of a lower-case hex digit.
pub open spec fn hex_value(c: char) -> int {
    if '0' <= c <= '9' {
        c as int - 48
    } else if 'a' <= c <= 'f' {
        c as int - 87
    } else {
        -1
    }
}

proof fn lemma_dec_int_is_pad(v: int)
    ensures
        dec_int(v) == crate::text::dec_pad(v, 1),
{
    let n: nat = if v < 0 {
        (-v) as nat
    } else {
        v as nat
    };
    crate::text::lemma_dec_nat_len(n);
    if n >= 10 {
        assert(crate::text::dec_nat(n).len() >= 1) by {
            crate::text::lemma_dec_nat_len(n / 10);
        }
    }
    assert(crate::text::zeros(1 - crate::text::dec_nat(n).len()) =~= Seq::<char>::empty());
    assert(crate::text::zeros(1 - 1 - crate::text::dec_nat(n).len()) =~= Seq::<char>::empty());
    assert(dec_int(v) =~= crate::text::dec_pad(v, 1));
}

/// Law: the integral atoms print as literals that carry their value. An
/// int or a long is its decimal, which reads back (as `str::parse`) as
/// the value; a short is its decimal and `h`; a boolean is `1b` or `0b`;
/// a byte is `0x` and two lower-case hex digits of its value.
pub proof fn lemma_integral_literals(kind: Kind, v: int)
    ensures
        (kind == Kind::Int || kind == Kind::Long) && i64::MIN <= v <= i64::MAX ==> crate::num::parse_i64_spec(
            crate::num::ascii_bytes(k_text(KV::Atom(kind, v))),
        ) == Some(v),
        kind == Kind::Short && i64::MIN <= v <= i64::MAX ==> ({
            let t = k_text(KV::Atom(kind, v));
            &&& t.len() >= 2 && t[t.len() - 1] == 'h'
            &&& crate::num::parse_i64_spec(crate::num::ascii_bytes(t.subrange(0, t.len() - 1)))
                == Some(v)
        }),
        kind == Kind::Bool && v == 1 ==> k_text(KV::Atom(kind, v)) == seq!['1', 'b'],
        kind == Kind::Bool && v == 0 ==> k_text(KV::Atom(kind, v)) == seq!['0', 'b'],
        kind == Kind::Byte && 0 <= v < 256 ==> ({
            let t = k_text(KV::Atom(kind, v));
            &&& t.len() == 4 && t[0] == '0' && t[1] == 'x'
            &&& 0 <= hex_value(t[2]) && 0 <= hex_value(t[3])
            &&& hex_value(t[2]) * 16 + hex_value(t[3]) == v
        }),
{
    lemma_dec_int_is_pad(v);
    if i64::MIN <= v <= i64::MAX {
        crate::num::lemma_parse_pad(v, 1, i64::MIN as int, i64::MAX as int);
    }
    if kind == Kind::Short {
        let t = k_text(KV::Atom(kind, v));
        assert(t.subrange(0, t.len() - 1) =~= dec_int(v));
        crate::text::lemma_dec_nat_len(if v < 0 {
            (-v) as nat
        } else {
            v as nat
        });
    }
    if kind == Kind::Bool {
        reveal_with_fuel(crate::text::dec_nat, 2);
    }
}

/// Law: a one-element vector prints as L's enlist of its element: `,`
/// followed by the text of the atom it holds (for every kind but char,
/// whose bytes are decoded as a string), so it never prints as the atom.
pub proof fn lemma_enlist_text(kind: Kind, v: int, sp: spec_fn(FloatBits) -> Seq<char>)
    requires
        kind != Kind::Char,
    ensures
        k_text_in(KV::Vector(kind, seq![v]), sp) == seq![','] + k_text_in(KV::Atom(kind, v), sp),
        k_text_in(KV::Vector(kind, seq![v]), sp) != k_text_in(KV::Atom(kind, v), sp),
{
    let vs = seq![v];
    assert(enlist(vs.len() as int) == seq![',']);
    assert(Seq::new(vs.len(), |i: int| dec_int(vs[i])) =~= seq![dec_int(v)]);
    assert(Seq::new(vs.len(), |i: int| hex2(vs[i])) =~= seq![hex2(v)]);
    assert(Seq::new(vs.len(), |i: int| elem_text(kind, vs[i])) =~= seq![elem_text(kind, v)]);
    assert(Seq::new(vs.len(), |i: int| float_text(kind, vs[i], sp)) =~= seq![float_text(kind, v, sp)]);
    assert(concat(seq![dec_int(v)]) =~= dec_int(v)) by {
        reveal_with_fuel(concat, 2);
        assert(seq![dec_int(v)].drop_last() =~= Seq::<Seq<char>>::empty());
    }
    assert(concat(seq![hex2(v)]) =~= hex2(v)) by {
        reveal_with_fuel(concat, 2);
        assert(seq![hex2(v)].drop_last() =~= Seq::<Seq<char>>::empty());
    }
    assert(k_text_in(KV::Vector(kind, vs), sp) =~= seq![','] + k_text_in(KV::Atom(kind, v), sp));
    assert(k_text_in(KV::Vector(kind, vs), sp).len() == k_text_in(KV::Atom(kind, v), sp).len() + 1);
}

/// Law: a one-element symbol vector prints as `,` and the symbol.
pub proof fn lemma_enlist_symbol(t: Seq<char>)
    ensures
        k_text(KV::SymbolVec(seq![t])) == seq![','] + k_text(KV::Symbol(t)),
        k_text(KV::SymbolVec(seq![t])) != k_text(KV::Symbol(t)),
{
    let ss = seq![t];
    assert(Seq::new(ss.len(), |i: int| seq!['`'] + ss[i]) =~= seq![seq!['`'] + t]);
    assert(concat(seq![seq!['`'] + t]) =~= seq!['`'] + t) by {
        reveal_with_fuel(concat, 2);
        assert(seq![seq!['`'] + t].drop_last() =~= Seq::<Seq<char>>::empty());
    }
    assert(k_text(KV::SymbolVec(ss)) =~= seq![','] + k_text(KV::Symbol(t)));
    assert(k_text(KV::SymbolVec(ss)).len() == k_text(KV::Symbol(t)).len() + 1);
}

/// Law: a float atom never prints as an integer would: whatever the
/// speller gives, the text is not made of digits and minus signs alone.
pub proof fn lemma_float_not_integral(v: int, sp: spec_fn(FloatBits) -> Seq<char>)
    ensures
        !integral_text(k_text_in(KV::Atom(Kind::Float, v), sp)),
{
    let t = float_text(Kind::Float, v, sp);
    let out = k_text_in(KV::Atom(Kind::Float, v), sp);
    assert(seq![t][0] == t);
    if integral_text(t) {
        assert(out == t + seq!['f']);
        assert(out[out.len() - 1] == 'f');
    } else {
        assert(out =~= t);
    }
}

/// Appends the printed form of `k`.
fn push_k<F: Fn(FloatBits) -> String>(s: &mut String, k: &K, flt: &F)
    requires
        spans_ok(k@),
        forall|x: FloatBits| #[trigger] flt.requires((x,)),
    ensures
        float_free(k@) ==> final(s)@ == old(s)@ + k_text(k@),
        forall|sp: spec_fn(FloatBits) -> Seq<char>|
            spells(*flt, sp) ==> final(s)@ == old(s)@ + k_text_in(k@, sp),
    decreases k,
{
    let ghost s0 = s@;
    match k {
        K::List(xs) => {
            proof {
                assert(decreases_to!(*k => (*k)->List_0));
            }
            push_char(s, '(');
            push_list(s, xs, flt);
            push_char(s, ')');
            assert(float_free(k@) ==> s@ =~= s0 + k_text(k@));
            assert forall|sp: spec_fn(FloatBits) -> Seq<char>| spells(*flt, sp) implies s@ =~= s0
                + k_text_in(k@, sp) by {}
        },
        K::Dict(a, b) => {
            push_k(s, a, flt);
            push_char(s, '!');
            push_k(s, b, flt);
            assert(float_free(k@) ==> s@ =~= s0 + k_text(k@));
            assert forall|sp: spec_fn(FloatBits) -> Seq<char>| spells(*flt, sp) implies s@ =~= s0
                + k_text_in(k@, sp) by {}
        },
        K::Table(t) => {
            push_char(s, '+');
            push_k(s, t, flt);
            assert(float_free(k@) ==> s@ =~= s0 + k_text(k@));
            assert forall|sp: spec_fn(FloatBits) -> Seq<char>| spells(*flt, sp) implies s@ =~= s0
                + k_text_in(k@, sp) by {}
        },
        K::Null => {
            push_char(s, ':');
            push_char(s, ':');
            assert(s@ =~= s0 + k_text(k@));
        },
        _ => {
            if k.type_tag() < 0 {
                push_atom(s, k, flt);
            } else {
                push_vector(s, k, flt);
            }
        },
    }
}

/// The printed form of `k` as an L literal; `flt` spells the
/// floating-point payloads (the text is `k_text_in` for any spelling that
/// `flt` keeps to). Every timespan in `k` must have a magnitude.
pub fn render<F: Fn(FloatBits) -> String>(k: &K, flt: &F) -> (s: String)
    requires
        spans_ok(k@),
        forall|x: FloatBits| #[trigger] flt.requires((x,)),
    ensures
        float_free(k@) ==> s@ == k_text(k@),
        forall|sp: spec_fn(FloatBits) -> Seq<char>| spells(*flt, sp) ==> s@ == k_text_in(k@, sp),
{
    let mut s = String::new();
    push_k(&mut s, k, flt);
    assert(float_free(k@) ==> s@ =~= k_text(k@));
    assert forall|sp: spec_fn(FloatBits) -> Seq<char>| spells(*flt, sp) implies s@ =~= k_text_in(
        k@,
        sp,
    ) by {}
    s
}

fn list_spans_check(xs: &Vec<K>) -> (b: bool)
    ensures
        b == list_spans_ok(kseq_view(xs@)),
    decreases xs,
{
    let ghost vs = kseq_view(xs@);
    proof {
        lemma_kseq_view(xs@);
        assert(vs.subrange(0, 0) =~= Seq::<KV>::empty());
    }
    let mut i: usize = 0;
    while i < xs.len()
        invariant
            vs == kseq_view(xs@),
            vs.len() == xs@.len(),
            forall|j: int| 0 <= j < xs@.len() ==> #[trigger] vs[j] == xs@[j].view(),
            i <= xs@.len(),
            list_spans_ok(vs.subrange(0, i as int)),
        decreases xs@.len() - i,
    {
        proof {
            assert(decreases_to!(*xs => xs@));
            assert(decreases_to!(xs@ => xs@[i as int]));
        }
        let ghost next = vs.subrange(0, i + 1);
        assert(next.subrange(0, i as int) =~= vs.subrange(0, i as int));
        assert(next[i as int] == vs[i as int]);
        if !spans_check(&xs[i]) {
            proof {
                if i + 1 < vs.len() {
                    lemma_list_all(vs, i + 1);
                }
                assert(vs.subrange(0, vs.len() as int) =~= vs);
            }
            return false;
        }
        i = i + 1;
    }
    assert(vs.subrange(0, xs.len() as int) =~= vs);
    true
}

/// Whether every timespan in `k` has a magnitude (see `spans_ok`).
pub fn spans_check(k: &K) -> (b: bool)
    ensures
        b == spans_ok(k@),
    decreases k,
{
    match k {
        K::Timespan(v) => *v != -9223372036854775808i64,
        K::TimespanVec(v) => {
            let mut i: usize = 0;
            while i < v.len()
                invariant
                    k@ == KV::Vector(Kind::Timespan, crate::k::ints_i64(v@)),
                    i <= v@.len(),
                    forall|j: int| 0 <= j < i ==> v@[j] != i64::MIN,
                decreases v@.len() - i,
            {
                if v[i] == -9223372036854775808i64 {
                    assert(crate::k::ints_i64(v@)[i as int] == i64::MIN);
                    return false;
                }
                i = i + 1;
            }
            true
        },
        K::List(xs) => {
            proof {
                assert(decreases_to!(*k => (*k)->List_0));
            }
            list_spans_check(xs)
        },
        K::Dict(a, b) => spans_check(a) && spans_check(b),
        K::Table(t) => spans_check(t),
        _ => true,
    }
}

} // verus!
