//! Hostile reply bytes: every malformed frame is a clean `Err`, never a
//! panic.

use l_rs::ipc::receive;
use l_rs::serialize::deserialize;
use l_rs::K;

/// A well-framed reply: 8-byte header (little-endian, response, no LZ4)
/// and the body, the length field set to `8 + body.len()`.
fn frame(body: &[u8]) -> Vec<u8> {
    let mut v = vec![1u8, 2, 0, 0];
    v.extend_from_slice(&((8 + body.len()) as i32).to_le_bytes());
    v.extend_from_slice(body);
    v
}

/// A frame declaring an arbitrary total length, with a chosen LZ4 flag.
fn frame_claim(total: i32, body: &[u8], lz4: bool) -> Vec<u8> {
    let mut v = vec![1u8, 2, lz4 as u8, 0];
    v.extend_from_slice(&total.to_le_bytes());
    v.extend_from_slice(body);
    v
}

/// A compressed frame: body = `[inflated size i32][LZ4 block]`.
fn lz4_frame(raw: i32, block: &[u8]) -> Vec<u8> {
    let mut body = raw.to_le_bytes().to_vec();
    body.extend_from_slice(block);
    frame_claim(8 + body.len() as i32, &body, true)
}

fn expect_clean_err(reply: Vec<u8>, name: &str) {
    assert!(receive(&reply).is_err(), "{name}: expected Err, got Ok");
}

/// Wire bytes of `levels` nested one-element lists around an int.
fn nested_list_bytes(levels: usize) -> Vec<u8> {
    let mut body = Vec::new();
    for _ in 0..levels {
        body.extend_from_slice(&[0, 0, 1, 0, 0, 0]);
    }
    body.extend_from_slice(&[0xfa, 0, 0, 0, 0]);
    body
}

#[test]
fn mf_truncated_header() {
    expect_clean_err(vec![1, 2, 0], "truncated_header");
}

#[test]
fn mf_truncated_payload_bounded() {
    expect_clean_err(frame_claim(8 + 1024, &[0u8; 16], false), "truncated_payload");
}

#[test]
fn mf_len_below_minimum() {
    for t in [0i32, 1, 7] {
        expect_clean_err(frame_claim(t, &[], false), "len_below_min");
    }
}

#[test]
fn mf_len_negative() {
    expect_clean_err(frame_claim(-1, &[], false), "len_negative");
    expect_clean_err(frame_claim(i32::MIN, &[], false), "len_i32_min");
}

#[test]
fn mf_len_over_cap() {
    expect_clean_err(frame_claim(8 + (300 << 20), &[], false), "len_over_cap");
}

#[test]
fn mf_len_i32_max_no_multi_gb_alloc() {
    expect_clean_err(frame_claim(i32::MAX, &[], false), "len_i32_max");
}

#[test]
fn mf_zero_length_frame() {
    expect_clean_err(frame(&[]), "zero_length_frame");
}

#[test]
fn mf_unknown_type_tags() {
    for t in [3u8, 20, 50, 97, 100, 127, 200] {
        expect_clean_err(frame(&[t]), "unknown_tag");
    }
}

#[test]
fn mf_negative_vector_count() {
    expect_clean_err(frame(&[0, 0, 0xff, 0xff, 0xff, 0xff]), "neg_count");
}

#[test]
fn mf_huge_vector_count() {
    expect_clean_err(frame(&[0, 0, 0xff, 0xff, 0xff, 0x7f]), "huge_count");
}

#[test]
fn mf_huge_symbol_count() {
    expect_clean_err(frame(&[11, 0, 0xff, 0xff, 0xff, 0x7f]), "huge_sym");
}

#[test]
fn mf_nested_huge_count() {
    expect_clean_err(frame(&[0, 0, 1, 0, 0, 0, 6, 0, 0xff, 0xff, 0xff, 0x7f]), "nested_huge_count");
}

#[test]
fn mf_depth_bomb_10k() {
    expect_clean_err(frame(&nested_list_bytes(10_000)), "depth_bomb");
}

#[test]
fn mf_lz4_truncated_litlen() {
    expect_clean_err(lz4_frame(100, &[0xF0]), "lz4_trunc_litlen");
}

#[test]
fn mf_lz4_truncated_offset() {
    expect_clean_err(lz4_frame(100, &[0x00, 0x05]), "lz4_trunc_offset");
}

#[test]
fn mf_lz4_truncated_matchlen() {
    expect_clean_err(lz4_frame(100, &[0x1F, 0x41, 0x01, 0x00]), "lz4_trunc_matchlen");
}

#[test]
fn mf_lz4_invalid_offset() {
    expect_clean_err(lz4_frame(10, &[0x00, 0x01, 0x00]), "lz4_bad_offset");
}

#[test]
fn mf_lz4_raw_size_negative() {
    expect_clean_err(lz4_frame(-1, &[0x00]), "lz4_raw_neg");
}

#[test]
fn mf_lz4_raw_size_over_cap() {
    expect_clean_err(lz4_frame(300 << 20, &[0x00]), "lz4_raw_cap");
}

#[test]
fn mf_bad_utf8_symbol_is_lossy_not_panic() {
    let r = receive(&frame(&[0xf5, 0xff, 0xfe, 0x00]));
    assert_eq!(r.unwrap(), K::Symbol("\u{FFFD}\u{FFFD}".to_string()));
}

#[test]
fn bounds_nested_over_maxdepth_rejected() {
    assert!(deserialize(&nested_list_bytes(400)).is_err(), "over-depth payload must be rejected");
}

#[test]
fn bounds_count_overflow_rejected() {
    for bits in [0x8000_0000u32, 0xFFFF_FFFF, 0x7FFF_FFFF] {
        let mut body = vec![6u8, 0];
        body.extend_from_slice(&bits.to_le_bytes());
        assert!(deserialize(&body).is_err(), "count 0x{bits:08x} must be rejected");
    }
}

#[test]
fn well_formed_reply_is_decoded() {
    let r = receive(&frame(&[0xfa, 42, 0, 0, 0]));
    assert_eq!(r.unwrap(), K::Int(42));
}

#[test]
fn lz4_reply_is_inflated() {
    // literal-only block: 5 literal bytes of an int atom 7
    let block = [0x50u8, 0xfa, 7, 0, 0, 0];
    let r = receive(&lz4_frame(5, &block));
    assert_eq!(r.unwrap(), K::Int(7));
}

#[test]
fn server_error_reply_is_an_l_error() {
    let r = receive(&frame(&[0x80, b't', b'y', b'p', b'e', 0]));
    match r {
        Err(l_rs::LError::L(m)) => assert_eq!(m, "type"),
        other => panic!("expected an L error, got {other:?}"),
    }
}

#[test]
fn framed_message_is_received_as_sent() {
    let k = K::List(vec![K::Int(1), K::Symbol("a".into()), K::FloatVec(vec![2.5f64.to_bits()])]);
    let bytes = l_rs::ipc::encode_message(l_rs::ipc::MsgType::Response, &k).unwrap();
    assert_eq!(&bytes[0..4], &[1u8, 2, 0, 0]);
    assert_eq!(receive(&bytes).unwrap(), k);
}

#[test]
fn handshake_bytes() {
    assert_eq!(l_rs::ipc::handshake("u:p"), b"u:p\0".to_vec());
    assert_eq!(l_rs::ipc::handshake(""), vec![0u8]);
}

#[test]
fn handshake_answer() {
    assert!(l_rs::ipc::handshake_reply(Some(3)).is_ok());
    assert!(matches!(l_rs::ipc::handshake_reply(None), Err(l_rs::LError::AuthFailed)));
}

#[test]
fn header_decoding() {
    assert_eq!(l_rs::ipc::decode_header(&[1, 2, 1, 0, 20, 0, 0, 0]).unwrap(), (true, 12));
    match l_rs::ipc::decode_header(&[1, 2, 0, 0, 7, 0, 0, 0]) {
        Err(l_rs::LError::Deserialize(m)) => assert_eq!(m, "invalid message length"),
        other => panic!("unexpected {other:?}"),
    }
}

#[test]
fn query_args_list() {
    let k = l_rs::ipc::query_args("{x+y}", vec![K::Long(2), K::Long(3)]);
    assert_eq!(k, K::List(vec![K::CharVec(b"{x+y}".to_vec()), K::Long(2), K::Long(3)]));
}

#[test]
fn lz4_back_references() {
    // "abcabcabc": 3 literals then a match of 6 at offset 3
    let block = [0x32u8, b'a', b'b', b'c', 3, 0];
    assert_eq!(l_rs::lz4::lz4(&block, 9).unwrap(), b"abcabcabc".to_vec());
    assert!(l_rs::lz4::lz4(&block, 8).is_err());
}
