//! L type tags. Negative tag = atom, positive = vector, 0 = list. The
//! default integer is 32-bit (`Int` = 6).

use vstd::prelude::*;

verus! {

/// K type tag. Atoms are negative on the wire, vectors positive, list = 0.
#[derive(Debug, Clone, Copy, PartialEq, Eq, Hash)]
pub enum KType {
    MixedList,
    Boolean,
    Byte,
    Short,
    Int,
    Long,
    Real,
    Float,
    Char,
    Symbol,
    Timestamp,
    Month,
    Date,
    DateTime,
    Timespan,
    Minute,
    Second,
    Time,
    Table,
    Dict,
    Error,
}

/// The wire tag of each type (the vector tag; `Error` is -128).
pub open spec fn ktype_tag(t: KType) -> int {
    match t {
        KType::MixedList => 0,
        KType::Boolean => 1,
        KType::Byte => 4,
        KType::Short => 5,
        KType::Int => 6,
        KType::Long => 7,
        KType::Real => 8,
        KType::Float => 9,
        KType::Char => 10,
        KType::Symbol => 11,
        KType::Timestamp => 12,
        KType::Month => 13,
        KType::Date => 14,
        KType::DateTime => 15,
        KType::Timespan => 16,
        KType::Minute => 17,
        KType::Second => 18,
        KType::Time => 19,
        KType::Table => 98,
        KType::Dict => 99,
        KType::Error => -128,
    }
}

pub open spec fn abs(x: int) -> int {
    if x < 0 {
        -x
    } else {
        x
    }
}

/// Every type, in table order.
pub open spec fn all_ktypes() -> Seq<KType> {
    seq![
        KType::MixedList,
        KType::Boolean,
        KType::Byte,
        KType::Short,
        KType::Int,
        KType::Long,
        KType::Real,
        KType::Float,
        KType::Char,
        KType::Symbol,
        KType::Timestamp,
        KType::Month,
        KType::Date,
        KType::DateTime,
        KType::Timespan,
        KType::Minute,
        KType::Second,
        KType::Time,
        KType::Table,
        KType::Dict,
        KType::Error,
    ]
}

impl KType {
    /// The wire tag (the vector tag; -128 for `Error`).
    pub fn tag(&self) -> (t: i16)
        ensures
            t as int == ktype_tag(*self),
    {
        match self {
            KType::MixedList => 0,
            KType::Boolean => 1,
            KType::Byte => 4,
            KType::Short => 5,
            KType::Int => 6,
            KType::Long => 7,
            KType::Real => 8,
            KType::Float => 9,
            KType::Char => 10,
            KType::Symbol => 11,
            KType::Timestamp => 12,
            KType::Month => 13,
            KType::Date => 14,
            KType::DateTime => 15,
            KType::Timespan => 16,
            KType::Minute => 17,
            KType::Second => 18,
            KType::Time => 19,
            KType::Table => 98,
            KType::Dict => 99,
            KType::Error => -128,
        }
    }

    /// Decode a raw wire tag (atom or vector: the sign is folded away).
    /// Tags that name no modelled type give `None`.
    pub fn from_raw(t: i16) -> (r: Option<KType>)
        ensures
            match r {
                Some(k) => abs(ktype_tag(k)) == abs(t as int),
                None => forall|i: int|
                    0 <= i < all_ktypes().len() ==> abs(ktype_tag(#[trigger] all_ktypes()[i]))
                        != abs(t as int),
            },
    {
        let a: i32 = if t < 0 {
            -(t as i32)
        } else {
            t as i32
        };
        if a == 0 {
            Some(KType::MixedList)
        } else if a == 1 {
            Some(KType::Boolean)
        } else if a == 4 {
            Some(KType::Byte)
        } else if a == 5 {
            Some(KType::Short)
        } else if a == 6 {
            Some(KType::Int)
        } else if a == 7 {
            Some(KType::Long)
        } else if a == 8 {
            Some(KType::Real)
        } else if a == 9 {
            Some(KType::Float)
        } else if a == 10 {
            Some(KType::Char)
        } else if a == 11 {
            Some(KType::Symbol)
        } else if a == 12 {
            Some(KType::Timestamp)
        } else if a == 13 {
            Some(KType::Month)
        } else if a == 14 {
            Some(KType::Date)
        } else if a == 15 {
            Some(KType::DateTime)
        } else if a == 16 {
            Some(KType::Timespan)
        } else if a == 17 {
            Some(KType::Minute)
        } else if a == 18 {
            Some(KType::Second)
        } else if a == 19 {
            Some(KType::Time)
        } else if a == 98 {
            Some(KType::Table)
        } else if a == 99 {
            Some(KType::Dict)
        } else if a == 128 {
            Some(KType::Error)
        } else {
            None
        }
    }

    /// Bytes per element; 0 for the compound and error types, a pointer's
    /// width for `Symbol`.
    pub fn size(&self) -> (n: usize)
        ensures
            n == (match *self {
                KType::Boolean | KType::Byte | KType::Char => 1,
                KType::Short => 2,
                KType::Int | KType::Real | KType::Month | KType::Date | KType::Minute
                | KType::Second | KType::Time => 4,
                KType::Long | KType::Float | KType::Timestamp | KType::DateTime
                | KType::Timespan => 8,
                KType::Symbol => usize::BITS / 8,
                _ => 0,
            }),
    {
        match self {
            KType::Boolean | KType::Byte | KType::Char => 1,
            KType::Short => 2,
            KType::Int | KType::Real | KType::Month | KType::Date | KType::Minute
            | KType::Second | KType::Time => 4,
            KType::Long | KType::Float | KType::Timestamp | KType::DateTime
            | KType::Timespan => 8,
            KType::Symbol => (usize::BITS / 8) as usize,
            _ => 0,
        }
    }
}

/// Null int (0x80000000).
pub const NULL_INT: i32 = -2147483648;

/// Null long.
pub const NULL_LONG: i64 = -9223372036854775808;

/// Null short.
pub const NULL_SHORT: i16 = -32768;

/// Infinite int.
pub const INF_INT: i32 = 2147483647;

/// Infinite long.
pub const INF_LONG: i64 = 9223372036854775807;

/// Bits of the null float (a quiet NaN).
pub const NULL_FLOAT_BITS: u64 = 0x7ff8_0000_0000_0000;

/// Bits of the null real (a quiet NaN).
pub const NULL_REAL_BITS: u32 = 0x7fc0_0000;

/// Bits of the infinite float.
pub const INF_FLOAT_BITS: u64 = 0x7ff0_0000_0000_0000;

} // verus!
