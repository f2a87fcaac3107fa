//! Rust <-> K conversions.

use l_rs::{LError, K};

#[test]
fn from_int() {
    assert_eq!(K::from(42i32), K::Int(42));
}

#[test]
fn from_str() {
    let k: K = "hello".into();
    assert_eq!(k.as_string(), Some("hello"));
}

#[test]
fn from_vec_i32() {
    let k: K = vec![1i32, 2, 3].into();
    assert_eq!(k, K::IntVec(vec![1, 2, 3]));
}

#[test]
fn try_into_i32() {
    let v: i32 = K::Int(42).try_into().unwrap();
    assert_eq!(v, 42);
}

#[test]
fn scalar_and_vector_froms() {
    assert_eq!(K::from(true), K::Bool(true));
    assert_eq!(K::from(7u8), K::Byte(7));
    assert_eq!(K::from(-3i16), K::Short(-3));
    assert_eq!(K::from(9i64), K::Long(9));
    assert_eq!(K::from(vec![true, false]), K::BoolVec(vec![true, false]));
    assert_eq!(K::from(vec![1i64, 2]), K::LongVec(vec![1, 2]));
    assert_eq!(K::from(vec!["a".to_string()]), K::SymbolVec(vec!["a".to_string()]));
    assert_eq!(K::from(String::from("hé")), K::CharVec(vec![b'h', 0xc3, 0xa9]));
    assert_eq!(K::from(vec!["x", "yz"]), K::SymbolVec(vec!["x".to_string(), "yz".to_string()]));
}

#[test]
fn try_from_widens_and_refuses() {
    assert_eq!(i32::try_from(K::Bool(true)).unwrap(), 1);
    assert_eq!(i32::try_from(K::Byte(200)).unwrap(), 200);
    assert_eq!(i64::try_from(K::Int(-5)).unwrap(), -5);
    match i32::try_from(K::Long(1)) {
        Err(LError::Type(m)) => assert_eq!(m, "expected int"),
        other => panic!("unexpected {other:?}"),
    }
    match i64::try_from(K::Short(1)) {
        Err(LError::Type(m)) => assert_eq!(m, "expected long"),
        other => panic!("unexpected {other:?}"),
    }
    assert_eq!(Vec::<i32>::try_from(K::IntVec(vec![4, 5])).unwrap(), vec![4, 5]);
    match Vec::<i32>::try_from(K::LongVec(vec![])) {
        Err(LError::Type(m)) => assert_eq!(m, "expected int vector"),
        other => panic!("unexpected {other:?}"),
    }
}

#[test]
fn try_from_string() {
    assert_eq!(String::try_from(K::CharVec(b"abc".to_vec())).unwrap(), "abc");
    assert_eq!(String::try_from(K::CharVec(vec![b'a', 0xff])).unwrap(), "a\u{FFFD}");
    assert_eq!(String::try_from(K::Symbol("IBM".into())).unwrap(), "IBM");
    match String::try_from(K::Int(1)) {
        Err(LError::Type(m)) => assert_eq!(m, "expected string or symbol"),
        other => panic!("unexpected {other:?}"),
    }
}

#[test]
fn text_roundtrips_through_k() {
    for s in ["", "abc", "héllo wörld", "日本"] {
        assert_eq!(String::try_from(K::from(s)).unwrap(), s);
    }
    assert_eq!(i64::try_from(K::from(-7i64)).unwrap(), -7);
}
