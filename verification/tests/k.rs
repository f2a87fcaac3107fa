//! The K value's accessors and the wire type table.

use l_rs::types::KType;
use l_rs::K;

#[test]
fn counts_and_shapes() {
    assert_eq!(K::IntVec(vec![1, 2, 3]).len(), 3);
    assert_eq!(K::Int(1).len(), 1);
    assert_eq!(K::Dict(Box::new(K::IntVec(vec![])), Box::new(K::IntVec(vec![]))).len(), 2);
    assert!(K::SymbolVec(vec![]).is_empty());
    let cols = |names: Vec<String>, cols: Vec<K>| {
        K::Table(Box::new(K::Dict(Box::new(K::SymbolVec(names)), Box::new(K::List(cols)))))
    };
    let t = cols(
        vec!["a".into(), "b".into(), "c".into()],
        vec![K::IntVec(vec![1]), K::IntVec(vec![2]), K::IntVec(vec![3])],
    );
    assert_eq!(t.len(), 3);
    assert!(!t.is_empty());
    assert!(cols(vec![], vec![]).is_empty());
    assert!(K::IntVec(vec![]).is_empty());
    assert!(!K::Int(0).is_empty());
    assert!(K::Long(1).is_atom());
    assert!(!K::Error("e".into()).is_atom());
    assert!(K::TimeVec(vec![]).is_vector());
    assert!(!K::List(vec![]).is_vector());
    assert!(K::CharVec(vec![]).is_string());
    assert!(!K::Symbol("s".into()).is_string());
    assert_eq!(K::Null.type_tag(), 101);
    assert_eq!(K::Error("e".into()).type_tag(), -128);
    assert_eq!(K::TimespanVec(vec![]).type_tag(), 16);
}

#[test]
fn accessors() {
    assert_eq!(K::CharVec(b"abc".to_vec()).as_string(), Some("abc"));
    assert_eq!(K::CharVec(vec![0xff]).as_string(), None);
    assert_eq!(K::Symbol("IBM".into()).as_string(), Some("IBM"));
    assert_eq!(K::Int(1).as_string(), None);
    assert_eq!(K::Bool(true).as_int(), Some(1));
    assert_eq!(K::Short(-2).as_int(), Some(-2));
    assert_eq!(K::Long(2).as_int(), None);
    assert_eq!(K::Int(-3).as_long(), Some(-3));
    assert_eq!(K::Short(3).as_long(), None);
}

#[test]
fn type_table() {
    assert_eq!(KType::from_raw(-6), Some(KType::Int));
    assert_eq!(KType::from_raw(6), Some(KType::Int));
    assert_eq!(KType::from_raw(98), Some(KType::Table));
    assert_eq!(KType::from_raw(-128), Some(KType::Error));
    assert_eq!(KType::from_raw(20), None);
    assert_eq!(KType::Long.size(), 8);
    assert_eq!(KType::Short.size(), 2);
    assert_eq!(KType::Dict.size(), 0);
    assert_eq!(KType::Timespan.tag(), 16);
}

#[test]
fn clones_are_equal() {
    let k = K::Table(Box::new(K::Dict(
        Box::new(K::SymbolVec(vec!["a".into()])),
        Box::new(K::List(vec![K::IntVec(vec![1, 2]), K::Symbol("s".into())])),
    )));
    assert_eq!(k.clone(), k);
}
