//! IPC framing. Each message is an 8-byte header then a serialized K:
//!   [0] endianness (1=LE)  [1] msg-type  [2] LZ4 flag  [3] reserved
//!   [4..8] total length (i32 LE, header included)
//! A compressed payload is `[uncompressed-size i32 LE][LZ4 block]`; it is
//! inflated before deserializing. The socket itself lives with the caller:
//! these functions build the bytes to send and decide what the bytes that
//! arrived mean.

use vstd::prelude::*;
use vstd::utf8::*;

use crate::error::LError;
use crate::k::{K, KV, Kind, ints_u8, kseq_view, lemma_kseq_view};
use crate::le::{
    le_bytes, le_value, lemma_le_bytes_mod, lemma_le_roundtrip, lemma_le_value_bound, lemma_pow256_values,
    push_le, read_le, untwos, untwos_i32,
};
use crate::lz4::{lz4, lz4_spec};
use crate::serialize::{deserialize, enc, serialize, spec_deserialize};
use crate::text::{dec_int, push_int, push_str};

verus! {

/// Defensive ceiling on one framed message, and on a compressed payload's
/// declared inflated size: 256 MiB.
pub const MAX_MSG: usize = 268435456;

/// Message kind written into header byte 1.
#[derive(Debug, Clone, Copy)]
pub enum MsgType {
    /// fire and forget
    Async,
    /// request expecting a reply
    Sync,
    /// a reply
    Response,
}

pub open spec fn msg_code(m: MsgType) -> u8 {
    match m {
        MsgType::Async => 0,
        MsgType::Sync => 1,
        MsgType::Response => 2,
    }
}

impl MsgType {
    /// The header byte of this kind of message.
    pub fn code(&self) -> (c: u8)
        ensures
            c == msg_code(*self),
    {
        match self {
            MsgType::Async => 0,
            MsgType::Sync => 1,
            MsgType::Response => 2,
        }
    }
}

// ── sending ───────────────────────────────────────────────────────────────

/// Header then body: endianness 1, the message type, no compression, and
/// the total length (header included) as a 32-bit LE word.
pub open spec fn frame(m: MsgType, body: Seq<u8>) -> Seq<u8> {
    seq![1u8, msg_code(m), 0u8, 0u8] + le_bytes((8 + body.len()) as nat, 4) + body
}

/// The bytes that send `k` as a message of kind `m`.
pub fn encode_message(m: MsgType, k: &K) -> (r: Result<Vec<u8>, LError>)
    ensures
        r matches Ok(b) && b@ == frame(m, enc(k@)),
{
    let body = match serialize(k) {
        Ok(b) => b,
        Err(e) => return Err(e),
    };
    let mut out: Vec<u8> = Vec::new();
    out.push(1);
    out.push(m.code());
    out.push(0);
    out.push(0);
    let low: u64 = body.len() as u64 % 0x1_0000_0000;
    let total: u64 = low + 8;
    proof {
        lemma_pow256_values();
        lemma_le_bytes_mod(total as nat, 4);
        lemma_le_bytes_mod((8 + body.len()) as nat, 4);
        vstd::arithmetic::div_mod::lemma_add_mod_noop_right(8, body.len() as int, 0x1_0000_0000);
        vstd::arithmetic::div_mod::lemma_mod_twice(body.len() as int, 0x1_0000_0000);
    }
    push_le(&mut out, total, 4);
    let ghost head = out@;
    out.extend_from_slice(body.as_slice());
    assert(out@ =~= frame(m, enc(k@)));
    Ok(out)
}

/// An expression as an L char vector.
pub fn str_k(expr: &str) -> (k: K)
    ensures
        k@ == KV::Vector(Kind::Char, ints_u8(encode_utf8(expr@))),
{
    let mut v: Vec<u8> = Vec::new();
    v.extend_from_slice(expr.as_bytes());
    assert(v@ =~= encode_utf8(expr@));
    K::CharVec(v)
}

/// `expr` with positional arguments, sent as the list `(expr; a1; a2; …)`.
pub fn query_args(expr: &str, args: Vec<K>) -> (k: K)
    ensures
        k@ == KV::List(
            seq![KV::Vector(Kind::Char, ints_u8(encode_utf8(expr@)))] + kseq_view(args@),
        ),
{
    let mut xs: Vec<K> = Vec::new();
    xs.push(str_k(expr));
    let mut args = args;
    let ghost a0 = args@;
    let ghost x0 = xs@;
    xs.append(&mut args);
    proof {
        lemma_kseq_view(xs@);
        lemma_kseq_view(a0);
        lemma_kseq_view(x0);
        assert(kseq_view(xs@) =~= seq![x0[0]@] + kseq_view(a0));
    }
    K::List(xs)
}

/// The handshake: credentials (`user:pass` or empty) then NUL.
pub fn handshake(creds: &str) -> (b: Vec<u8>)
    ensures
        b@ == encode_utf8(creds@).push(0u8),
{
    let mut v: Vec<u8> = Vec::new();
    v.extend_from_slice(creds.as_bytes());
    v.push(0);
    assert(v@ =~= encode_utf8(creds@).push(0u8));
    v
}

/// What the server's answer to the handshake comes to: its one-byte
/// acknowledgement accepts the connection; a connection closed before
/// any byte came back is a rejected handshake.
pub fn handshake_reply(ack: Option<u8>) -> (r: Result<(), LError>)
    ensures
        ack is Some <==> r is Ok,
        ack is None ==> r matches Err(LError::AuthFailed),
{
    match ack {
        Some(_) => Ok(()),
        None => Err(LError::AuthFailed),
    }
}

// ── receiving ─────────────────────────────────────────────────────────────

/// The total length declared by a header (signed on the wire).
pub open spec fn declared_len(h: Seq<u8>) -> int {
    untwos(le_value(h.subrange(4, 8)), 4)
}

/// What an 8-byte header says: compressed?, payload length; or the error.
pub open spec fn spec_header(h: Seq<u8>) -> Result<(bool, nat), Seq<char>> {
    let total = declared_len(h);
    if total < 8 {
        Err("invalid message length"@)
    } else if total - 8 > MAX_MSG {
        Err("message length "@ + dec_int(total) + " exceeds 268435456-byte cap"@)
    } else {
        Ok((h[2] == 1, (total - 8) as nat))
    }
}

/// What a received payload stands for: inflated when compressed (and
/// longer than its 4-byte size prefix), else the bytes themselves.
pub open spec fn spec_payload(compressed: bool, body: Seq<u8>) -> Result<Seq<u8>, Seq<char>> {
    if compressed && body.len() > 4 {
        let raw = untwos(le_value(body.subrange(0, 4)), 4);
        if raw < 0 || raw > MAX_MSG {
            Err("compressed size "@ + dec_int(raw) + " out of range"@)
        } else {
            lz4_spec(body.subrange(4, body.len() as int), raw as nat)
        }
    } else {
        Ok(body)
    }
}

/// `e` is `LError::Deserialize` carrying the text `m`.
pub open spec fn is_deser(e: LError, m: Seq<char>) -> bool {
    e matches LError::Deserialize(s) && s@ == m
}

/// Decode an 8-byte message header.
pub fn decode_header(h: &[u8]) -> (r: Result<(bool, usize), LError>)
    requires
        h@.len() == 8,
    ensures
        match r {
            Ok((c, n)) => spec_header(h@) == Ok::<(bool, nat), Seq<char>>((c, n as nat)),
            Err(e) => spec_header(h@) matches Err(m) && is_deser(e, m),
        },
{
    let raw = read_le(h, 4, 4);
    proof {
        lemma_le_value_bound(h@.subrange(4, 8));
        lemma_pow256_values();
    }
    let total = untwos_i32(raw);
    if total < 8 {
        return Err(LError::Deserialize("invalid message length".to_owned()));
    }
    let n = (total - 8) as usize;
    if n > MAX_MSG {
        let mut m = "message length ".to_owned();
        push_int(&mut m, total as i64);
        push_str(&mut m, " exceeds 268435456-byte cap");
        return Err(LError::Deserialize(m));
    }
    Ok((h[2] == 1, n))
}

/// Turn a received payload into the serialized K bytes.
pub fn decode_payload(compressed: bool, body: Vec<u8>) -> (r: Result<Vec<u8>, LError>)
    ensures
        match r {
            Ok(p) => spec_payload(compressed, body@) == Ok::<Seq<u8>, Seq<char>>(p@),
            Err(e) => spec_payload(compressed, body@) matches Err(m) && is_deser(e, m),
        },
{
    if compressed && body.len() > 4 {
        let w = read_le(body.as_slice(), 0, 4);
        proof {
            lemma_le_value_bound(body@.subrange(0, 4));
            lemma_pow256_values();
        }
        let raw = untwos_i32(w);
        if raw < 0 || raw as usize > MAX_MSG {
            let mut m = "compressed size ".to_owned();
            push_int(&mut m, raw as i64);
            push_str(&mut m, " out of range");
            return Err(LError::Deserialize(m));
        }
        let blk = &body.as_slice()[4..body.len()];
        match lz4(blk, raw as usize) {
            Ok(v) => Ok(v),
            Err(m) => Err(LError::Deserialize(m)),
        }
    } else {
        Ok(body)
    }
}

/// The error a stream gives when it ends before `read_exact` is satisfied.
#[verifier::external_body]
fn unexpected_eof() -> std::io::Error {
    std::io::Error::from(std::io::ErrorKind::UnexpectedEof)
}

/// What the bytes a peer sent come to, read as one message: `None` when
/// they end before the header or the payload it announces (an I/O error),
/// else the payload or the error text.
pub open spec fn spec_recv(stream: Seq<u8>) -> Option<Result<Seq<u8>, Seq<char>>> {
    if stream.len() < 8 {
        None
    } else {
        match spec_header(stream.subrange(0, 8)) {
            Err(m) => Some(Err(m)),
            Ok((c, n)) => if stream.len() < 8 + n {
                None
            } else {
                Some(spec_payload(c, stream.subrange(8, 8 + n as int)))
            },
        }
    }
}

/// Read one framed message from the bytes received, returning its
/// (decompressed) payload.
pub fn recv_payload(stream: &[u8]) -> (r: Result<Vec<u8>, LError>)
    ensures
        match r {
            Ok(p) => spec_recv(stream@) == Some(Ok::<Seq<u8>, Seq<char>>(p@)),
            Err(LError::Io(_)) => spec_recv(stream@) is None,
            Err(e) => spec_recv(stream@) matches Some(Err(m)) && is_deser(e, m),
        },
{
    if stream.len() < 8 {
        return Err(LError::Io(unexpected_eof()));
    }
    let h = &stream[0..8];
    let (c, n) = match decode_header(h) {
        Ok(x) => x,
        Err(e) => return Err(e),
    };
    if stream.len() - 8 < n {
        return Err(LError::Io(unexpected_eof()));
    }
    let mut body: Vec<u8> = Vec::new();
    body.extend_from_slice(&stream[8..8 + n]);
    assert(body@ =~= stream@.subrange(8, 8 + n));
    decode_payload(c, body)
}

/// What a reply comes to: the value, or the error; a server `K::Error`
/// becomes `LError::L`.
pub open spec fn reply_of(r: Result<K, LError>, stream: Seq<u8>) -> bool {
    match spec_recv(stream) {
        None => r matches Err(LError::Io(_)),
        Some(Err(m)) => r matches Err(e) && is_deser(e, m),
        Some(Ok(p)) => match spec_deserialize(p) {
            Err(m) => r matches Err(e) && is_deser(e, m),
            Ok(KV::Error(s)) => r matches Err(LError::L(t)) && t@ == s,
            Ok(v) => r matches Ok(k) && k@ == v,
        },
    }
}

/// Read + deserialize one reply from the bytes received.
pub fn receive(stream: &[u8]) -> (r: Result<K, LError>)
    ensures
        reply_of(r, stream@),
{
    let p = match recv_payload(stream) {
        Ok(p) => p,
        Err(e) => return Err(e),
    };
    match deserialize(p.as_slice()) {
        Ok(K::Error(m)) => Err(LError::L(m)),
        Ok(k) => Ok(k),
        Err(e) => Err(e),
    }
}

/// Law: a frame is its 8-byte header then the body: byte 0 is 1 (little
/// endian), byte 1 the message kind (0 async, 1 sync, 2 response), byte 2
/// is 0 (not compressed), and bytes 4 to 7 hold, least significant first,
/// the length of the whole frame, header included.
pub proof fn lemma_frame_layout(m: MsgType, body: Seq<u8>)
    requires
        8 + body.len() < 0x8000_0000,
    ensures
        ({
            let f = frame(m, body);
            &&& f.len() == 8 + body.len()
            &&& f[0] == 1 && f[2] == 0
            &&& f[1] == (match m {
                MsgType::Async => 0u8,
                MsgType::Sync => 1u8,
                MsgType::Response => 2u8,
            })
            &&& f[4] + 256 * f[5] + 0x1_0000 * f[6] + 0x100_0000 * f[7] == f.len()
            &&& f.subrange(8, f.len() as int) == body
        }),
{
    lemma_pow256_values();
    let n = (8 + body.len()) as nat;
    lemma_le_roundtrip(n, 4);
    let f = frame(m, body);
    assert(f.subrange(4, 8) =~= le_bytes(n, 4));
    crate::serialize::lemma_le_digits(f.subrange(4, 8));
    assert(f.subrange(8, f.len() as int) =~= body);
}

/// Law: a header whose bytes 4 to 7 hold (least significant first) a
/// total length from 8 up to 8 bytes past the cap announces a payload of
/// that length less the 8 header bytes, compressed exactly when byte 2 is
/// 1.
pub proof fn lemma_header_fields(h: Seq<u8>)
    requires
        h.len() == 8,
        8 <= h[4] + 256 * h[5] + 0x1_0000 * h[6] + 0x100_0000 * h[7] <= 8 + MAX_MSG,
    ensures
        spec_header(h) == Ok::<(bool, nat), Seq<char>>(
            (h[2] == 1, (h[4] + 256 * h[5] + 0x1_0000 * h[6] + 0x100_0000 * h[7] - 8) as nat),
        ),
{
    lemma_pow256_values();
    crate::serialize::lemma_le_digits(h.subrange(4, 8));
}

/// Law: a compressed payload is its inflated size in four bytes (least
/// significant first) followed by the LZ4 block; for a block that holds a
/// run of one byte, the payload stands for that run.
pub proof fn lemma_compressed_run(b: Seq<u8>, c: u8, n: nat)
    requires
        b.len() == 4,
        b[0] + 256 * b[1] + 0x1_0000 * b[2] + 0x100_0000 * b[3] == n + 6,
        n + 6 <= MAX_MSG,
    ensures
        spec_payload(true, b + crate::lz4::run_block(c, n)) == Ok::<Seq<u8>, Seq<char>>(
            Seq::new(n + 6, |i: int| c),
        ),
{
    lemma_pow256_values();
    let body = b + crate::lz4::run_block(c, n);
    assert(body.subrange(0, 4) =~= b);
    crate::serialize::lemma_le_digits(b);
    assert(body.subrange(4, body.len() as int) =~= crate::lz4::run_block(c, n));
    crate::lz4::lemma_run_block(c, n);
}

/// Law: a message framed by `encode_message` is taken in by `receive` as
/// the value it carries — for every value the wire can carry whose
/// encoding stays within the message cap. (A server error value comes out
/// as `LError::L`, as `reply_of` says.)
pub proof fn lemma_frame_received(m: MsgType, k: KV)
    requires
        crate::serialize::wire_ok(k, 0),
        enc(k).len() <= MAX_MSG,
    ensures
        spec_recv(frame(m, enc(k))) == Some(Ok::<Seq<u8>, Seq<char>>(enc(k))),
        spec_deserialize(enc(k)) == Ok::<KV, Seq<char>>(k),
{
    let body = enc(k);
    let f = frame(m, body);
    lemma_pow256_values();
    lemma_le_roundtrip((8 + body.len()) as nat, 4);
    let head = seq![1u8, msg_code(m), 0u8, 0u8] + le_bytes((8 + body.len()) as nat, 4);
    assert(f =~= head + body);
    assert(f.subrange(0, 8) =~= head);
    assert(head.subrange(4, 8) =~= le_bytes((8 + body.len()) as nat, 4));
    assert(f.subrange(8, 8 + body.len() as int) =~= body);
    crate::serialize::lemma_serialize_deserialize(k);
}

} // verus!
