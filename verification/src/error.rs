//! Error type. `K::Error(msg)` is a *value* the server returned;
//! `Err(LError::L(msg))` means the server signalled an error for a query.

use vstd::prelude::*;

use crate::text::push_str;

verus! {

#[verifier::external_type_specification]
#[verifier::external_body]
pub struct ExIoError(std::io::Error);

/// Everything that can go wrong in the client.
#[derive(Debug)]
pub enum LError {
    /// TCP / socket failure
    Io(std::io::Error),
    /// server signalled 'type, 'length, ...
    L(String),
    /// handshake rejected
    AuthFailed,
    /// connect() refused / unreachable
    ConnectionFailed(String),
    /// bad bytes arriving from the server
    Deserialize(String),
    /// a K value we cannot put on the wire
    Serialize(String),
    /// K type mismatch during conversion
    Type(String),
}

pub type Result<T> = std::result::Result<T, LError>;

/// The display text of an I/O error.
#[verifier::external_body]
fn io_text(e: &std::io::Error) -> String {
    format!("{e}")
}

/// The one-line human text of an error, other than an I/O one.
pub open spec fn error_text(e: LError) -> Seq<char> {
    match e {
        LError::Io(_) => Seq::empty(),
        LError::L(s) => "l error: '"@ + s@,
        LError::AuthFailed => "authentication failed"@,
        LError::ConnectionFailed(s) => "connection failed: "@ + s@,
        LError::Deserialize(s) => "deserialize error: "@ + s@,
        LError::Serialize(s) => "serialize error: "@ + s@,
        LError::Type(s) => "type error: "@ + s@,
    }
}

impl LError {
    /// One human line per case (an I/O error is prefixed `IO error: `).
    pub fn message(&self) -> (s: String)
        ensures
            !(self is Io) ==> s@ == error_text(*self),
            self matches LError::Io(_) ==> exists|t: Seq<char>| s@ == "IO error: "@ + t,
    {
        match self {
            LError::Io(e) => {
                let mut s = "IO error: ".to_owned();
                let t = io_text(e);
                push_str(&mut s, t.as_str());
                s
            },
            LError::L(m) => {
                let mut s = "l error: '".to_owned();
                push_str(&mut s, m.as_str());
                s
            },
            LError::AuthFailed => "authentication failed".to_owned(),
            LError::ConnectionFailed(m) => {
                let mut s = "connection failed: ".to_owned();
                push_str(&mut s, m.as_str());
                s
            },
            LError::Deserialize(m) => {
                let mut s = "deserialize error: ".to_owned();
                push_str(&mut s, m.as_str());
                s
            },
            LError::Serialize(m) => {
                let mut s = "serialize error: ".to_owned();
                push_str(&mut s, m.as_str());
                s
            },
            LError::Type(m) => {
                let mut s = "type error: ".to_owned();
                push_str(&mut s, m.as_str());
                s
            },
        }
    }
}

/// An I/O failure is the error's `Io` case.
impl From<std::io::Error> for LError {
    fn from(e: std::io::Error) -> LError {
        LError::Io(e)
    }
}

impl vstd::std_specs::convert::FromSpecImpl<std::io::Error> for LError {
    open spec fn obeys_from_spec() -> bool {
        true
    }

    open spec fn from_spec(v: std::io::Error) -> LError {
        LError::Io(v)
    }
}

} // verus!
