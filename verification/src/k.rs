//! K — the universal L value. Atoms are scalars, vectors are homogeneous
//! `Vec`s, and the rest are list / dict / table / error / null.
//!
//! The IEEE-754 payloads of `Real`, `Float` and `DateTime` (and their
//! vectors) are held as their bit patterns (`f32::to_bits` /
//! `f64::to_bits`), which is exactly what travels on the wire.

use vstd::prelude::*;
use vstd::utf8::*;

use crate::text::str_from_utf8;

verus! {

/// A K object.
#[derive(Debug, PartialEq)]
pub enum K {
    Bool(bool),
    Byte(u8),
    Short(i16),
    Int(i32),
    Long(i64),
    /// bits of an `f32`
    Real(u32),
    /// bits of an `f64`
    Float(u64),
    Char(u8),
    Symbol(String),
    /// ns since 2000.01.01
    Timestamp(i64),
    /// months since 2000.01
    Month(i32),
    /// days since 2000.01.01
    Date(i32),
    /// bits of an `f64` counting fractional days since 2000.01.01
    DateTime(u64),
    /// minutes past midnight
    Minute(i32),
    /// seconds past midnight
    Second(i32),
    /// milliseconds past midnight
    Time(i32),
    /// ns duration
    Timespan(i64),
    BoolVec(Vec<bool>),
    ByteVec(Vec<u8>),
    ShortVec(Vec<i16>),
    IntVec(Vec<i32>),
    LongVec(Vec<i64>),
    RealVec(Vec<u32>),
    FloatVec(Vec<u64>),
    /// an L string
    CharVec(Vec<u8>),
    SymbolVec(Vec<String>),
    TimestampVec(Vec<i64>),
    MonthVec(Vec<i32>),
    DateVec(Vec<i32>),
    DateTimeVec(Vec<u64>),
    MinuteVec(Vec<i32>),
    SecondVec(Vec<i32>),
    TimeVec(Vec<i32>),
    TimespanVec(Vec<i64>),
    /// mixed list (type 0)
    List(Vec<K>),
    /// keys ! values (type 99)
    Dict(Box<K>, Box<K>),
    /// flip of a column dict (type 98)
    Table(Box<K>),
    /// type -128
    Error(String),
    /// identity (::)
    Null,
}

/// The fixed-width scalar kinds.
#[derive(Clone, Copy, PartialEq, Eq, Structural)]
pub enum Kind {
    Bool,
    Byte,
    Short,
    Int,
    Long,
    Real,
    Float,
    Char,
    Timestamp,
    Month,
    Date,
    DateTime,
    Timespan,
    Minute,
    Second,
    Time,
}

/// Mathematical model of a K: every fixed-width scalar is an integer
/// (booleans are 0/1, floats their bit pattern), strings are `char`
/// sequences.
pub enum KV {
    Atom(Kind, int),
    Vector(Kind, Seq<int>),
    Symbol(Seq<char>),
    SymbolVec(Seq<Seq<char>>),
    List(Seq<KV>),
    Dict(Box<KV>, Box<KV>),
    Table(Box<KV>),
    Error(Seq<char>),
    Null,
}

/// Positive wire tag of a kind (its vector tag; the atom is the negation).
pub open spec fn kind_tag(k: Kind) -> int {
    match k {
        Kind::Bool => 1,
        Kind::Byte => 4,
        Kind::Short => 5,
        Kind::Int => 6,
        Kind::Long => 7,
        Kind::Real => 8,
        Kind::Float => 9,
        Kind::Char => 10,
        Kind::Timestamp => 12,
        Kind::Month => 13,
        Kind::Date => 14,
        Kind::DateTime => 15,
        Kind::Timespan => 16,
        Kind::Minute => 17,
        Kind::Second => 18,
        Kind::Time => 19,
    }
}

/// Bytes per element on the wire.
pub open spec fn kind_width(k: Kind) -> nat {
    match k {
        Kind::Bool | Kind::Byte | Kind::Char => 1,
        Kind::Short => 2,
        Kind::Int | Kind::Real | Kind::Month | Kind::Date | Kind::Minute | Kind::Second
        | Kind::Time => 4,
        Kind::Long | Kind::Float | Kind::Timestamp | Kind::DateTime | Kind::Timespan => 8,
    }
}

/// Does the kind carry a signed (two's complement) integer?
pub open spec fn kind_signed(k: Kind) -> bool {
    match k {
        Kind::Bool | Kind::Byte | Kind::Char | Kind::Real | Kind::Float | Kind::DateTime => false,
        _ => true,
    }
}

/// The model value of a Rust bool.
pub open spec fn bit(b: bool) -> int {
    if b {
        1
    } else {
        0
    }
}

pub open spec fn ints_i16(s: Seq<i16>) -> Seq<int> {
    s.map_values(|x: i16| x as int)
}

pub open spec fn ints_i32(s: Seq<i32>) -> Seq<int> {
    s.map_values(|x: i32| x as int)
}

pub open spec fn ints_i64(s: Seq<i64>) -> Seq<int> {
    s.map_values(|x: i64| x as int)
}

pub open spec fn ints_u8(s: Seq<u8>) -> Seq<int> {
    s.map_values(|x: u8| x as int)
}

pub open spec fn ints_u32(s: Seq<u32>) -> Seq<int> {
    s.map_values(|x: u32| x as int)
}

pub open spec fn ints_u64(s: Seq<u64>) -> Seq<int> {
    s.map_values(|x: u64| x as int)
}

pub open spec fn ints_bool(s: Seq<bool>) -> Seq<int> {
    s.map_values(|x: bool| bit(x))
}

pub open spec fn strs(s: Seq<String>) -> Seq<Seq<char>> {
    s.map_values(|x: String| x@)
}

/// Model of a sequence of K values.
pub open spec fn kseq_view(s: Seq<K>) -> Seq<KV>
    decreases s,
{
    if s.len() == 0 {
        Seq::empty()
    } else {
        kseq_view(s.subrange(0, s.len() - 1)).push(s[s.len() - 1].view())
    }
}

impl K {
    pub open spec fn view(&self) -> KV
        decreases self,
    {
        match self {
            K::Bool(b) => KV::Atom(Kind::Bool, bit(*b)),
            K::Byte(x) => KV::Atom(Kind::Byte, *x as int),
            K::Short(x) => KV::Atom(Kind::Short, *x as int),
            K::Int(x) => KV::Atom(Kind::Int, *x as int),
            K::Long(x) => KV::Atom(Kind::Long, *x as int),
            K::Real(x) => KV::Atom(Kind::Real, *x as int),
            K::Float(x) => KV::Atom(Kind::Float, *x as int),
            K::Char(x) => KV::Atom(Kind::Char, *x as int),
            K::Symbol(s) => KV::Symbol(s@),
            K::Timestamp(x) => KV::Atom(Kind::Timestamp, *x as int),
            K::Month(x) => KV::Atom(Kind::Month, *x as int),
            K::Date(x) => KV::Atom(Kind::Date, *x as int),
            K::DateTime(x) => KV::Atom(Kind::DateTime, *x as int),
            K::Minute(x) => KV::Atom(Kind::Minute, *x as int),
            K::Second(x) => KV::Atom(Kind::Second, *x as int),
            K::Time(x) => KV::Atom(Kind::Time, *x as int),
            K::Timespan(x) => KV::Atom(Kind::Timespan, *x as int),
            K::BoolVec(v) => KV::Vector(Kind::Bool, ints_bool(v@)),
            K::ByteVec(v) => KV::Vector(Kind::Byte, ints_u8(v@)),
            K::ShortVec(v) => KV::Vector(Kind::Short, ints_i16(v@)),
            K::IntVec(v) => KV::Vector(Kind::Int, ints_i32(v@)),
            K::LongVec(v) => KV::Vector(Kind::Long, ints_i64(v@)),
            K::RealVec(v) => KV::Vector(Kind::Real, ints_u32(v@)),
            K::FloatVec(v) => KV::Vector(Kind::Float, ints_u64(v@)),
            K::CharVec(v) => KV::Vector(Kind::Char, ints_u8(v@)),
            K::SymbolVec(v) => KV::SymbolVec(strs(v@)),
            K::TimestampVec(v) => KV::Vector(Kind::Timestamp, ints_i64(v@)),
            K::MonthVec(v) => KV::Vector(Kind::Month, ints_i32(v@)),
            K::DateVec(v) => KV::Vector(Kind::Date, ints_i32(v@)),
            K::DateTimeVec(v) => KV::Vector(Kind::DateTime, ints_u64(v@)),
            K::MinuteVec(v) => KV::Vector(Kind::Minute, ints_i32(v@)),
            K::SecondVec(v) => KV::Vector(Kind::Second, ints_i32(v@)),
            K::TimeVec(v) => KV::Vector(Kind::Time, ints_i32(v@)),
            K::TimespanVec(v) => KV::Vector(Kind::Timespan, ints_i64(v@)),
            K::List(v) => KV::List(kseq_view(v@)),
            K::Dict(a, b) => KV::Dict(Box::new(a.view()), Box::new(b.view())),
            K::Table(d) => KV::Table(Box::new(d.view())),
            K::Error(s) => KV::Error(s@),
            K::Null => KV::Null,
        }
    }
}

pub proof fn lemma_kseq_view(s: Seq<K>)
    ensures
        kseq_view(s).len() == s.len(),
        forall|i: int| 0 <= i < s.len() ==> #[trigger] kseq_view(s)[i] == s[i].view(),
    decreases s.len(),
{
    if s.len() > 0 {
        lemma_kseq_view(s.subrange(0, s.len() - 1));
    }
}

pub proof fn lemma_kseq_view_push(s: Seq<K>, x: K)
    ensures
        kseq_view(s.push(x)) == kseq_view(s).push(x.view()),
{
    assert(s.push(x).subrange(0, s.len() as int) =~= s);
}

/// Wire type tag: atom `-t`, its vector `+t`; list 0, dict 99, table 98,
/// error -128, null 101, symbol -11 / 11.
pub open spec fn type_tag_of(k: KV) -> int {
    match k {
        KV::Atom(kind, _) => -kind_tag(kind),
        KV::Vector(kind, _) => kind_tag(kind),
        KV::Symbol(_) => -11,
        KV::SymbolVec(_) => 11,
        KV::List(_) => 0,
        KV::Dict(_, _) => 99,
        KV::Table(_) => 98,
        KV::Error(_) => -128,
        KV::Null => 101,
    }
}

/// Element count: vectors their length, dict 2, table its column count
/// (the length of its dictionary's value list), everything else 1.
pub open spec fn count_of(k: KV) -> int
    decreases k,
{
    match k {
        KV::Vector(_, v) => v.len() as int,
        KV::SymbolVec(v) => v.len() as int,
        KV::List(v) => v.len() as int,
        KV::Dict(_, _) => 2,
        KV::Table(d) => match *d {
            KV::Dict(_, v) => count_of(*v),
            _ => count_of(*d),
        },
        _ => 1,
    }
}

impl K {
    /// Wire-format type tag for this value (negative = atom).
    pub fn type_tag(&self) -> (t: i16)
        ensures
            t as int == type_tag_of(self@),
    {
        match self {
            K::Bool(_) => -1,
            K::Byte(_) => -4,
            K::Short(_) => -5,
            K::Int(_) => -6,
            K::Long(_) => -7,
            K::Real(_) => -8,
            K::Float(_) => -9,
            K::Char(_) => -10,
            K::Symbol(_) => -11,
            K::Timestamp(_) => -12,
            K::Month(_) => -13,
            K::Date(_) => -14,
            K::DateTime(_) => -15,
            K::Timespan(_) => -16,
            K::Minute(_) => -17,
            K::Second(_) => -18,
            K::Time(_) => -19,
            K::BoolVec(_) => 1,
            K::ByteVec(_) => 4,
            K::ShortVec(_) => 5,
            K::IntVec(_) => 6,
            K::LongVec(_) => 7,
            K::RealVec(_) => 8,
            K::FloatVec(_) => 9,
            K::CharVec(_) => 10,
            K::SymbolVec(_) => 11,
            K::TimestampVec(_) => 12,
            K::MonthVec(_) => 13,
            K::DateVec(_) => 14,
            K::DateTimeVec(_) => 15,
            K::TimespanVec(_) => 16,
            K::MinuteVec(_) => 17,
            K::SecondVec(_) => 18,
            K::TimeVec(_) => 19,
            K::List(_) => 0,
            K::Dict(..) => 99,
            K::Table(_) => 98,
            K::Error(_) => -128,
            K::Null => 101,
        }
    }

    /// Element count: vectors -> len, dict -> 2, table -> its column
    /// count, anything else -> 1.
    pub fn len(&self) -> (n: usize)
        ensures
            n as int == count_of(self@),
        decreases self,
    {
        match self {
            K::BoolVec(v) => v.len(),
            K::ByteVec(v) => v.len(),
            K::ShortVec(v) => v.len(),
            K::IntVec(v) => v.len(),
            K::LongVec(v) => v.len(),
            K::RealVec(v) => v.len(),
            K::FloatVec(v) => v.len(),
            K::CharVec(v) => v.len(),
            K::SymbolVec(v) => v.len(),
            K::TimestampVec(v) => v.len(),
            K::MonthVec(v) => v.len(),
            K::DateVec(v) => v.len(),
            K::DateTimeVec(v) => v.len(),
            K::MinuteVec(v) => v.len(),
            K::SecondVec(v) => v.len(),
            K::TimeVec(v) => v.len(),
            K::TimespanVec(v) => v.len(),
            K::List(v) => {
                proof {
                    lemma_kseq_view(v@);
                }
                v.len()
            },
            K::Dict(..) => 2,
            K::Table(d) => {
                proof {
                    assert(decreases_to!(*self => **d));
                }
                match &**d {
                    K::Dict(_, v) => {
                        proof {
                            assert(decreases_to!(*self => **v));
                            assert(d@ == KV::Dict(d@->Dict_0, Box::new(v@)));
                        }
                        v.len()
                    },
                    _ => d.len(),
                }
            },
            _ => 1,
        }
    }

    /// No elements (an empty vector, list or table)?
    pub fn is_empty(&self) -> (b: bool)
        ensures
            b == (count_of(self@) == 0),
    {
        self.len() == 0
    }

    /// A scalar: negative tag, but not the -128 error.
    pub fn is_atom(&self) -> (b: bool)
        ensures
            b == (type_tag_of(self@) < 0 && type_tag_of(self@) != -128),
    {
        let t = self.type_tag();
        t < 0 && t != -128
    }

    /// A homogeneous vector: tag 1..19.
    pub fn is_vector(&self) -> (b: bool)
        ensures
            b == (0 < type_tag_of(self@) < 20),
    {
        let t = self.type_tag();
        t > 0 && t < 20
    }

    /// A char vector (an L string)?
    pub fn is_string(&self) -> (b: bool)
        ensures
            b == (self@ is Vector && self@->Vector_0 == Kind::Char),
    {
        match self {
            K::CharVec(_) => true,
            _ => false,
        }
    }

    /// Borrow as text: a char vector decoded as UTF-8, or a symbol.
    pub fn as_string(&self) -> (r: Option<&str>)
        ensures
            match self {
                K::CharVec(v) => match r {
                    Some(s) => valid_utf8(v@) && s@ == decode_utf8(v@),
                    None => !valid_utf8(v@),
                },
                K::Symbol(s) => r matches Some(t) && t@ == s@,
                _ => r is None,
            },
    {
        match self {
            K::CharVec(v) => str_from_utf8(v.as_slice()),
            K::Symbol(s) => Some(s.as_str()),
            _ => None,
        }
    }

    /// Widen a bool / byte / short / int atom to i32.
    pub fn as_int(&self) -> (r: Option<i32>)
        ensures
            r == (match self@ {
                KV::Atom(Kind::Int, x) | KV::Atom(Kind::Short, x) | KV::Atom(Kind::Byte, x)
                | KV::Atom(Kind::Bool, x) => Some(x as i32),
                _ => None,
            }),
    {
        match self {
            K::Int(v) => Some(*v),
            K::Short(v) => Some(*v as i32),
            K::Byte(v) => Some(*v as i32),
            K::Bool(v) => Some(
                if *v {
                    1
                } else {
                    0
                },
            ),
            _ => None,
        }
    }

    /// Widen an int / long atom to i64.
    pub fn as_long(&self) -> (r: Option<i64>)
        ensures
            r == (match self@ {
                KV::Atom(Kind::Long, x) | KV::Atom(Kind::Int, x) => Some(x as i64),
                _ => None,
            }),
    {
        match self {
            K::Long(v) => Some(*v),
            K::Int(v) => Some(*v as i64),
            _ => None,
        }
    }
}

fn clone_list(xs: &Vec<K>) -> (r: Vec<K>)
    ensures
        kseq_view(r@) == kseq_view(xs@),
    decreases xs,
{
    let mut out: Vec<K> = Vec::new();
    let mut i: usize = 0;
    proof {
        lemma_kseq_view(xs@);
    }
    while i < xs.len()
        invariant
            i <= xs@.len(),
            out@.len() == i,
            kseq_view(xs@).len() == xs@.len(),
            forall|j: int| 0 <= j < xs@.len() ==> #[trigger] kseq_view(xs@)[j] == xs@[j].view(),
            forall|j: int| 0 <= j < i ==> (#[trigger] out@[j]).view() == xs@[j].view(),
        decreases xs@.len() - i,
    {
        proof {
            assert(decreases_to!(*xs => xs@));
            assert(decreases_to!(xs@ => xs@[i as int]));
        }
        let c = xs[i].clone();
        out.push(c);
        i = i + 1;
    }
    proof {
        lemma_kseq_view(out@);
        assert(kseq_view(out@) =~= kseq_view(xs@));
    }
    out
}

fn clone_strings(v: &Vec<String>) -> (r: Vec<String>)
    ensures
        strs(r@) == strs(v@),
{
    let r = v.clone();
    assert(strs(r@) =~= strs(v@)) by {
        assert forall|i: int| 0 <= i < v@.len() implies r@[i]@ == v@[i]@ by {
            assert(cloned::<String>(v[i], r[i]));
        }
    }
    r
}

/// A copy with the same value.
impl Clone for K {
    fn clone(&self) -> (r: K)
        ensures
            r@ == self@,
        decreases self,
    {
        match self {
            K::Bool(x) => K::Bool(*x),
            K::Byte(x) => K::Byte(*x),
            K::Short(x) => K::Short(*x),
            K::Int(x) => K::Int(*x),
            K::Long(x) => K::Long(*x),
            K::Real(x) => K::Real(*x),
            K::Float(x) => K::Float(*x),
            K::Char(x) => K::Char(*x),
            K::Symbol(x) => K::Symbol(x.clone()),
            K::Timestamp(x) => K::Timestamp(*x),
            K::Month(x) => K::Month(*x),
            K::Date(x) => K::Date(*x),
            K::DateTime(x) => K::DateTime(*x),
            K::Minute(x) => K::Minute(*x),
            K::Second(x) => K::Second(*x),
            K::Time(x) => K::Time(*x),
            K::Timespan(x) => K::Timespan(*x),
            K::BoolVec(v) => K::BoolVec(v.clone()),
            K::ByteVec(v) => K::ByteVec(v.clone()),
            K::ShortVec(v) => K::ShortVec(v.clone()),
            K::IntVec(v) => K::IntVec(v.clone()),
            K::LongVec(v) => K::LongVec(v.clone()),
            K::RealVec(v) => K::RealVec(v.clone()),
            K::FloatVec(v) => K::FloatVec(v.clone()),
            K::CharVec(v) => K::CharVec(v.clone()),
            K::SymbolVec(v) => K::SymbolVec(clone_strings(v)),
            K::TimestampVec(v) => K::TimestampVec(v.clone()),
            K::MonthVec(v) => K::MonthVec(v.clone()),
            K::DateVec(v) => K::DateVec(v.clone()),
            K::DateTimeVec(v) => K::DateTimeVec(v.clone()),
            K::MinuteVec(v) => K::MinuteVec(v.clone()),
            K::SecondVec(v) => K::SecondVec(v.clone()),
            K::TimeVec(v) => K::TimeVec(v.clone()),
            K::TimespanVec(v) => K::TimespanVec(v.clone()),
            K::List(xs) => {
                proof {
                    assert(decreases_to!(*self => (*self)->List_0));
                }
                K::List(clone_list(xs))
            },
            K::Dict(a, b) => K::Dict(Box::new((**a).clone()), Box::new((**b).clone())),
            K::Table(t) => K::Table(Box::new((**t).clone())),
            K::Error(x) => K::Error(x.clone()),
            K::Null => K::Null,
        }
    }
}

} // verus!
