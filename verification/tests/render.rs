//! The L literal spelling of K values.

use l_rs::render::{render, FloatBits};
use l_rs::K;

fn shown(x: FloatBits) -> String {
    match x {
        FloatBits::Real(b) => f32::from_bits(b).to_string(),
        FloatBits::Float(b) | FloatBits::DateTime(b) => f64::from_bits(b).to_string(),
    }
}

#[test]
fn literals() {
    assert_eq!(render(&K::Bool(true), &shown), "1b");
    assert_eq!(render(&K::Byte(10), &shown), "0x0a");
    assert_eq!(render(&K::ByteVec(vec![1, 255]), &shown), "0x01ff");
    assert_eq!(render(&K::BoolVec(vec![true, false]), &shown), "10b");
    assert_eq!(render(&K::ShortVec(vec![1, -2]), &shown), "1 -2h");
    assert_eq!(render(&K::SymbolVec(vec!["a".into(), "b".into()]), &shown), "`a`b");
    assert_eq!(render(&K::CharVec(b"hi".to_vec()), &shown), "\"hi\"");
    assert_eq!(render(&K::List(vec![K::Int(1), K::Symbol("x".into())]), &shown), "(1;`x)");
    assert_eq!(
        render(&K::Dict(Box::new(K::SymbolVec(vec!["a".into()])), Box::new(K::IntVec(vec![1]))), &shown),
        ",`a!,1"
    );
    assert_eq!(render(&K::IntVec(vec![5]), &shown), ",5");
    assert_eq!(render(&K::Int(5), &shown), "5");
    assert_eq!(render(&K::SymbolVec(vec!["a".into()]), &shown), ",`a");
    assert_eq!(render(&K::Symbol("a".into()), &shown), "`a");
    assert_eq!(render(&K::CharVec(b"a".to_vec()), &shown), ",\"a\"");
    assert_eq!(render(&K::Char(b'a'), &shown), "\"a\"");
    assert_eq!(render(&K::BoolVec(vec![true]), &shown), ",1b");
    assert_eq!(render(&K::ByteVec(vec![1]), &shown), ",0x01");
    assert_eq!(render(&K::ShortVec(vec![5]), &shown), ",5h");
    assert_eq!(render(&K::DateVec(vec![0]), &shown), ",2000.01.01");
    assert_eq!(render(&K::Float(1.0f64.to_bits()), &shown), "1f");
    assert_eq!(render(&K::Float((-2.0f64).to_bits()), &shown), "-2f");
    assert_eq!(render(&K::FloatVec(vec![1.0f64.to_bits(), 2.0f64.to_bits()]), &shown), "1 2f");
    assert_eq!(render(&K::FloatVec(vec![1.0f64.to_bits()]), &shown), ",1f");
    assert_ne!(render(&K::Float(1.0f64.to_bits()), &shown), render(&K::Int(1), &shown));
    assert_eq!(render(&K::Error("type".into()), &shown), "'type");
    assert_eq!(render(&K::Null, &shown), "::");
    assert_eq!(render(&K::Date(0), &shown), "2000.01.01");
    assert_eq!(render(&K::Timespan(1), &shown), "0D00:00:00.000000001");
    assert_eq!(render(&K::Float(1.5f64.to_bits()), &shown), "1.5");
    assert_eq!(render(&K::Real(2.5f32.to_bits()), &shown), "2.5e");
    assert_eq!(render(&K::RealVec(vec![1.0f32.to_bits(), 2.5f32.to_bits()]), &shown), "1 2.5e");
    assert_eq!(render(&K::FloatVec(vec![1.0f64.to_bits(), 0.5f64.to_bits()]), &shown), "1 0.5");
    assert_eq!(render(&K::List(vec![K::Float(0.25f64.to_bits()), K::Null]), &shown), "(0.25;::)");
}
