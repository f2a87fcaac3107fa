//! Rust <-> K conversions: `From<rust>` builds a K, `TryFrom<K>` takes one
//! apart. Floating-point payloads are carried by their bits in `K` itself.

use vstd::prelude::*;
use vstd::std_specs::convert::{FromSpecImpl, TryFromSpecImpl};
use vstd::utf8::*;

use crate::error::LError;
use crate::ipc::str_k;
use crate::k::{K, KV, Kind, ints_u8};
use crate::text::{lossy_text, utf8_lossy};

verus! {

impl From<bool> for K {
    fn from(x: bool) -> K {
        K::Bool(x)
    }
}

impl FromSpecImpl<bool> for K {
    open spec fn obeys_from_spec() -> bool {
        true
    }

    open spec fn from_spec(v: bool) -> K {
        K::Bool(v)
    }
}

impl From<u8> for K {
    fn from(x: u8) -> K {
        K::Byte(x)
    }
}

impl FromSpecImpl<u8> for K {
    open spec fn obeys_from_spec() -> bool {
        true
    }

    open spec fn from_spec(v: u8) -> K {
        K::Byte(v)
    }
}

impl From<i16> for K {
    fn from(x: i16) -> K {
        K::Short(x)
    }
}

impl FromSpecImpl<i16> for K {
    open spec fn obeys_from_spec() -> bool {
        true
    }

    open spec fn from_spec(v: i16) -> K {
        K::Short(v)
    }
}

impl From<i32> for K {
    fn from(x: i32) -> K {
        K::Int(x)
    }
}

impl FromSpecImpl<i32> for K {
    open spec fn obeys_from_spec() -> bool {
        true
    }

    open spec fn from_spec(v: i32) -> K {
        K::Int(v)
    }
}

impl From<i64> for K {
    fn from(x: i64) -> K {
        K::Long(x)
    }
}

impl FromSpecImpl<i64> for K {
    open spec fn obeys_from_spec() -> bool {
        true
    }

    open spec fn from_spec(v: i64) -> K {
        K::Long(v)
    }
}

impl From<Vec<bool>> for K {
    fn from(x: Vec<bool>) -> K {
        K::BoolVec(x)
    }
}

impl FromSpecImpl<Vec<bool>> for K {
    open spec fn obeys_from_spec() -> bool {
        true
    }

    open spec fn from_spec(v: Vec<bool>) -> K {
        K::BoolVec(v)
    }
}

impl From<Vec<i32>> for K {
    fn from(x: Vec<i32>) -> K {
        K::IntVec(x)
    }
}

impl FromSpecImpl<Vec<i32>> for K {
    open spec fn obeys_from_spec() -> bool {
        true
    }

    open spec fn from_spec(v: Vec<i32>) -> K {
        K::IntVec(v)
    }
}

impl From<Vec<i64>> for K {
    fn from(x: Vec<i64>) -> K {
        K::LongVec(x)
    }
}

impl FromSpecImpl<Vec<i64>> for K {
    open spec fn obeys_from_spec() -> bool {
        true
    }

    open spec fn from_spec(v: Vec<i64>) -> K {
        K::LongVec(v)
    }
}

impl From<Vec<String>> for K {
    fn from(x: Vec<String>) -> K {
        K::SymbolVec(x)
    }
}

impl FromSpecImpl<Vec<String>> for K {
    open spec fn obeys_from_spec() -> bool {
        true
    }

    open spec fn from_spec(v: Vec<String>) -> K {
        K::SymbolVec(v)
    }
}

/// A string goes over as a char vector of its UTF-8 bytes.
impl<'a> From<&'a str> for K {
    fn from(s: &'a str) -> (k: K)
        ensures
            k@ == KV::Vector(Kind::Char, ints_u8(encode_utf8(s@))),
    {
        str_k(s)
    }
}

/// The new char vector is stated by its view in `from` itself.
impl<'a> FromSpecImpl<&'a str> for K {
    open spec fn obeys_from_spec() -> bool {
        false
    }

    open spec fn from_spec(v: &'a str) -> K {
        arbitrary()
    }
}

/// A string goes over as a char vector of its UTF-8 bytes.
impl From<String> for K {
    fn from(s: String) -> (k: K)
        ensures
            k@ == KV::Vector(Kind::Char, ints_u8(encode_utf8(s@))),
    {
        str_k(s.as_str())
    }
}

/// The new char vector is stated by its view in `from` itself.
impl FromSpecImpl<String> for K {
    open spec fn obeys_from_spec() -> bool {
        false
    }

    open spec fn from_spec(v: String) -> K {
        arbitrary()
    }
}

/// A list of names goes over as a symbol vector.
impl<'a> From<Vec<&'a str>> for K {
    fn from(v: Vec<&'a str>) -> (k: K)
        ensures
            k@ == KV::SymbolVec(Seq::new(v@.len(), |i: int| v@[i]@)),
    {
        let mut out: Vec<String> = Vec::new();
        let mut i: usize = 0;
        while i < v.len()
            invariant
                i <= v@.len(),
                out@.len() == i,
                forall|t: int| 0 <= t < i ==> (#[trigger] out@[t])@ == v@[t]@,
            decreases v@.len() - i,
        {
            out.push(v[i].to_owned());
            i = i + 1;
        }
        let k = K::SymbolVec(out);
        assert(crate::k::strs(out@) =~= Seq::new(v@.len(), |i: int| v@[i]@));
        k
    }
}

/// The new symbol vector is stated by its view in `from` itself.
impl<'a> FromSpecImpl<Vec<&'a str>> for K {
    open spec fn obeys_from_spec() -> bool {
        false
    }

    open spec fn from_spec(v: Vec<&'a str>) -> K {
        arbitrary()
    }
}

fn type_error(m: &str) -> (e: LError)
    ensures
        e matches LError::Type(t) && t@ == m@,
{
    LError::Type(m.to_owned())
}

/// A bool / byte / short / int atom widened to `i32`.
impl TryFrom<K> for i32 {
    type Error = LError;

    fn try_from(k: K) -> (r: Result<i32, LError>)
        ensures
            match k@ {
                KV::Atom(Kind::Int, x) | KV::Atom(Kind::Short, x) | KV::Atom(Kind::Byte, x)
                | KV::Atom(Kind::Bool, x) => r == Ok::<i32, LError>(x as i32),
                _ => r matches Err(LError::Type(m)) && m@ == "expected int"@,
            },
    {
        match k.as_int() {
            Some(v) => Ok(v),
            None => Err(type_error("expected int")),
        }
    }
}

/// The result is stated by `try_from` itself.
impl TryFromSpecImpl<K> for i32 {
    open spec fn obeys_try_from_spec() -> bool {
        false
    }

    open spec fn try_from_spec(v: K) -> Result<i32, LError> {
        arbitrary()
    }
}

/// An int / long atom widened to `i64`.
impl TryFrom<K> for i64 {
    type Error = LError;

    fn try_from(k: K) -> (r: Result<i64, LError>)
        ensures
            match k@ {
                KV::Atom(Kind::Long, x) | KV::Atom(Kind::Int, x) => r == Ok::<i64, LError>(x as i64),
                _ => r matches Err(LError::Type(m)) && m@ == "expected long"@,
            },
    {
        match k.as_long() {
            Some(v) => Ok(v),
            None => Err(type_error("expected long")),
        }
    }
}

/// The result is stated by `try_from` itself.
impl TryFromSpecImpl<K> for i64 {
    open spec fn obeys_try_from_spec() -> bool {
        false
    }

    open spec fn try_from_spec(v: K) -> Result<i64, LError> {
        arbitrary()
    }
}

/// The elements of an int vector.
impl TryFrom<K> for Vec<i32> {
    type Error = LError;

    fn try_from(k: K) -> (r: Result<Vec<i32>, LError>)
        ensures
            match k {
                K::IntVec(x) => r == Ok::<Vec<i32>, LError>(x),
                _ => r matches Err(LError::Type(m)) && m@ == "expected int vector"@,
            },
    {
        match k {
            K::IntVec(x) => Ok(x),
            _ => Err(type_error("expected int vector")),
        }
    }
}

/// The result is stated by `try_from` itself.
impl TryFromSpecImpl<K> for Vec<i32> {
    open spec fn obeys_try_from_spec() -> bool {
        false
    }

    open spec fn try_from_spec(v: K) -> Result<Vec<i32>, LError> {
        arbitrary()
    }
}

/// The text of a char vector (read leniently as UTF-8) or of a symbol.
impl TryFrom<K> for String {
    type Error = LError;

    fn try_from(k: K) -> (r: Result<String, LError>)
        ensures
            match k {
                K::CharVec(v) => r matches Ok(s) && s@ == lossy_text(v@),
                K::Symbol(t) => r == Ok::<String, LError>(t),
                _ => r matches Err(LError::Type(m)) && m@ == "expected string or symbol"@,
            },
    {
        match k {
            K::CharVec(v) => Ok(utf8_lossy(v.as_slice())),
            K::Symbol(s) => Ok(s),
            _ => Err(type_error("expected string or symbol")),
        }
    }
}

/// The result is stated by `try_from` itself.
impl TryFromSpecImpl<K> for String {
    open spec fn obeys_try_from_spec() -> bool {
        false
    }

    open spec fn try_from_spec(v: K) -> Result<String, LError> {
        arbitrary()
    }
}

/// What `From` builds, `TryFrom` takes back: an `i32` or `i64` atom gives
/// its number again, and the char vector built from a text reads back as
/// that text.
pub proof fn lemma_from_try_from(x: i32, y: i64, s: Seq<char>, v: Seq<u8>)
    requires
        ints_u8(v) == ints_u8(encode_utf8(s)),
    ensures
        (x as int) as i32 == x,
        (y as int) as i64 == y,
        lossy_text(v) == s,
{
    let e = encode_utf8(s);
    assert(ints_u8(v).len() == v.len());
    assert(ints_u8(e).len() == e.len());
    assert(v =~= e) by {
        assert forall|i: int| 0 <= i < v.len() implies v[i] == e[i] by {
            assert(ints_u8(v)[i] == v[i] as int);
            assert(ints_u8(e)[i] == e[i] as int);
        }
    }
    encode_utf8_valid_utf8(s);
    encode_utf8_decode_utf8(s);
}

} // verus!
