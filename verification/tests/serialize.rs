//! Round trips through the wire encoding.

use l_rs::serialize::{deserialize, serialize};
use l_rs::types::{INF_FLOAT_BITS, INF_INT, INF_LONG, NULL_INT, NULL_LONG, NULL_SHORT};
use l_rs::K;

fn rt_of(k: &K) -> K {
    deserialize(&serialize(k).unwrap()).unwrap()
}

fn rt(k: K) {
    let back = rt_of(&k);
    assert_eq!(k, back);
}

#[test]
fn roundtrip_int() {
    rt(K::Int(42));
}

#[test]
fn roundtrip_float() {
    rt(K::Float(3.14f64.to_bits()));
}

#[test]
fn roundtrip_string() {
    rt(K::CharVec(b"hello world".to_vec()));
}

#[test]
fn roundtrip_symbol() {
    rt(K::Symbol("IBM".into()));
}

#[test]
fn roundtrip_int_vec() {
    rt(K::IntVec(vec![1, 2, 3, 4, 5]));
}

#[test]
fn roundtrip_sym_vec() {
    rt(K::SymbolVec(vec!["IBM".into(), "MSFT".into(), "AAPL".into()]));
}

#[test]
fn roundtrip_mixed() {
    rt(K::List(vec![K::Int(1), K::Float(2.0f64.to_bits()), K::Symbol("abc".into())]));
}

#[test]
fn roundtrip_dict() {
    rt(K::Dict(
        Box::new(K::SymbolVec(vec!["a".into(), "b".into()])),
        Box::new(K::IntVec(vec![10, 20])),
    ));
}

#[test]
fn roundtrip_table() {
    let cols = K::SymbolVec(vec!["sym".into(), "price".into()]);
    let vals = K::List(vec![
        K::SymbolVec(vec!["IBM".into(), "MSFT".into()]),
        K::FloatVec(vec![120.5f64.to_bits(), 340.2f64.to_bits()]),
    ]);
    rt(K::Table(Box::new(K::Dict(Box::new(cols), Box::new(vals)))));
}

fn atoms() -> Vec<K> {
    vec![
        K::Bool(true),
        K::Bool(false),
        K::Byte(0),
        K::Byte(255),
        K::Short(NULL_SHORT),
        K::Short(i16::MAX),
        K::Int(NULL_INT),
        K::Int(INF_INT),
        K::Int(0),
        K::Long(NULL_LONG),
        K::Long(INF_LONG),
        K::Real(f32::NAN.to_bits()),
        K::Real(f32::INFINITY.to_bits()),
        K::Real((-0.0f32).to_bits()),
        K::Float(f64::NAN.to_bits()),
        K::Float(INF_FLOAT_BITS),
        K::Float((-0.0f64).to_bits()),
        K::Char(0),
        K::Symbol("".into()),
        K::Symbol("abc".into()),
        K::Timestamp(NULL_LONG),
        K::Month(NULL_INT),
        K::Date(0),
        K::DateTime(f64::NAN.to_bits()),
        K::Minute(0),
        K::Second(0),
        K::Time(0),
        K::Timespan(NULL_LONG),
        K::Error("type".into()),
        K::Null,
    ]
}

#[test]
fn prop_atoms_all_types_incl_null() {
    for k in atoms() {
        let back = rt_of(&k);
        assert_eq!(k, back, "atom mismatch: {k:?}");
    }
}

#[test]
fn prop_vectors_all_types_incl_empty() {
    let cases = vec![
        K::BoolVec(vec![]),
        K::BoolVec(vec![true, false, true]),
        K::ByteVec(vec![]),
        K::ByteVec(vec![0, 255, 128]),
        K::ShortVec(vec![NULL_SHORT, 0, i16::MAX]),
        K::IntVec(vec![]),
        K::IntVec(vec![NULL_INT, 0, INF_INT]),
        K::LongVec(vec![NULL_LONG, INF_LONG]),
        K::RealVec(vec![f32::NAN.to_bits(), 0.0f32.to_bits()]),
        K::FloatVec(vec![]),
        K::FloatVec(vec![f64::NAN.to_bits(), INF_FLOAT_BITS, (-0.0f64).to_bits()]),
        K::CharVec(vec![]),
        K::CharVec(vec![0, 1, 2, 255]),
        K::SymbolVec(vec![]),
        K::SymbolVec(vec!["".into(), "x".into()]),
        K::TimestampVec(vec![NULL_LONG]),
        K::MonthVec(vec![NULL_INT]),
        K::DateVec(vec![]),
        K::DateTimeVec(vec![f64::NAN.to_bits()]),
        K::MinuteVec(vec![]),
        K::SecondVec(vec![0]),
        K::TimeVec(vec![]),
        K::TimespanVec(vec![NULL_LONG]),
    ];
    for k in cases {
        let back = rt_of(&k);
        assert_eq!(k, back, "vec mismatch: {k:?}");
    }
}

#[test]
fn bounds_max_symbol_len() {
    let s: String = std::iter::repeat('z').take(1 << 20).collect();
    let k = K::Symbol(s.clone());
    assert_eq!(k, rt_of(&k));
    let kv = K::SymbolVec(vec![s.clone(), "".into(), s]);
    assert_eq!(kv, rt_of(&kv));
}

#[test]
fn bounds_empty_everything() {
    let cases = vec![
        K::List(vec![]),
        K::Dict(Box::new(K::SymbolVec(vec![])), Box::new(K::List(vec![]))),
        K::Table(Box::new(K::Dict(Box::new(K::SymbolVec(vec![])), Box::new(K::List(vec![]))))),
        K::Symbol("".into()),
        K::CharVec(vec![]),
        K::Error("".into()),
        K::IntVec(vec![]),
        K::SymbolVec(vec![]),
    ];
    for k in cases {
        let back = rt_of(&k);
        assert_eq!(k, back, "empty mismatch: {k:?}");
    }
}

#[test]
fn bounds_nested_empty_lists_deep() {
    let mut k = K::List(vec![]);
    for _ in 0..64 {
        k = K::List(vec![k]);
    }
    let back = rt_of(&k);
    assert_eq!(k, back);
}

#[test]
fn bounds_large_feasible_vector() {
    let k = K::IntVec((0..1_000_000).collect());
    let bytes = serialize(&k).unwrap();
    let n = i32::from_le_bytes([bytes[2], bytes[3], bytes[4], bytes[5]]);
    assert_eq!(n, 1_000_000, "on-wire count field");
    assert_eq!(k, deserialize(&bytes).unwrap());
}

/// A small xorshift generator for seeded random values.
struct Rng(u64);

impl Rng {
    fn new(seed: u64) -> Self {
        Rng(seed ^ 0x9E37_79B9_7F4A_7C15)
    }
    fn next(&mut self) -> u64 {
        let mut x = self.0;
        x ^= x << 13;
        x ^= x >> 7;
        x ^= x << 17;
        self.0 = x;
        x
    }
    fn below(&mut self, n: u64) -> u64 {
        if n == 0 { 0 } else { self.next() % n }
    }
    fn bit(&mut self) -> bool {
        self.next() & 1 == 1
    }
}

fn gen_sym(r: &mut Rng) -> String {
    let n = r.below(8) as usize;
    (0..n).map(|_| b"abcdefghijklmnopqrstuvwxyz0123456789"[r.below(36) as usize] as char).collect()
}

fn gen_atom(r: &mut Rng) -> K {
    match r.below(20) {
        0 => K::Bool(r.bit()),
        1 => K::Byte(r.next() as u8),
        2 => K::Short(r.next() as i16),
        3 => K::Int(if r.below(8) == 0 { NULL_INT } else { r.next() as i32 }),
        4 => K::Long(if r.below(8) == 0 { NULL_LONG } else { r.next() as i64 }),
        5 => K::Real(r.next() as u32),
        6 => K::Float(r.next()),
        7 => K::Char(r.next() as u8),
        8 => K::Symbol(gen_sym(r)),
        9 => K::Timestamp(r.next() as i64),
        10 => K::Month(r.next() as i32),
        11 => K::Date(r.next() as i32),
        12 => K::DateTime(r.next()),
        13 => K::Minute(r.next() as i32),
        14 => K::Second(r.next() as i32),
        15 => K::Time(r.next() as i32),
        16 => K::Timespan(r.next() as i64),
        17 => K::Error(gen_sym(r)),
        18 => K::Null,
        _ => K::Int(r.next() as i32),
    }
}

fn gen_vec(r: &mut Rng) -> K {
    let n = r.below(33) as usize;
    match r.below(17) {
        0 => K::BoolVec((0..n).map(|_| r.bit()).collect()),
        1 => K::ByteVec((0..n).map(|_| r.next() as u8).collect()),
        2 => K::ShortVec((0..n).map(|_| r.next() as i16).collect()),
        3 => K::IntVec((0..n).map(|_| r.next() as i32).collect()),
        4 => K::LongVec((0..n).map(|_| r.next() as i64).collect()),
        5 => K::RealVec((0..n).map(|_| r.next() as u32).collect()),
        6 => K::FloatVec((0..n).map(|_| r.next()).collect()),
        7 => K::CharVec((0..n).map(|_| r.next() as u8).collect()),
        8 => K::SymbolVec((0..n).map(|_| gen_sym(r)).collect()),
        9 => K::TimestampVec((0..n).map(|_| r.next() as i64).collect()),
        10 => K::MonthVec((0..n).map(|_| r.next() as i32).collect()),
        11 => K::DateVec((0..n).map(|_| r.next() as i32).collect()),
        12 => K::DateTimeVec((0..n).map(|_| r.next()).collect()),
        13 => K::MinuteVec((0..n).map(|_| r.next() as i32).collect()),
        14 => K::SecondVec((0..n).map(|_| r.next() as i32).collect()),
        15 => K::TimeVec((0..n).map(|_| r.next() as i32).collect()),
        _ => K::TimespanVec((0..n).map(|_| r.next() as i64).collect()),
    }
}

fn gen_k(r: &mut Rng, depth: u32) -> K {
    let c = if depth == 0 { r.below(2) } else { r.below(4) };
    match c {
        0 => gen_atom(r),
        1 => gen_vec(r),
        2 => {
            let n = r.below(5) as usize;
            K::List((0..n).map(|_| gen_k(r, depth - 1)).collect())
        }
        _ if r.bit() => {
            let n = r.below(5) as usize;
            let keys = K::SymbolVec((0..n).map(|_| gen_sym(r)).collect());
            let vals = K::List((0..n).map(|_| gen_k(r, depth - 1)).collect());
            K::Dict(Box::new(keys), Box::new(vals))
        }
        _ => {
            let ncol = 1 + r.below(3) as usize;
            let keys = K::SymbolVec((0..ncol).map(|_| gen_sym(r)).collect());
            let vals = K::List((0..ncol).map(|_| gen_vec(r)).collect());
            K::Table(Box::new(K::Dict(Box::new(keys), Box::new(vals))))
        }
    }
}

#[test]
fn prop_roundtrip_seeded() {
    for seed in 0..200u64 {
        let s = seed.wrapping_mul(0x0100_0000_01b3).wrapping_add(1);
        let mut r = Rng::new(s);
        let k = gen_k(&mut r, 3);
        let back = rt_of(&k);
        assert_eq!(k, back, "seed {seed}: round-trip mismatch");
    }
}

#[test]
fn int_atom_wire_bytes() {
    assert_eq!(serialize(&K::Int(42)).unwrap(), vec![0xfa, 42, 0, 0, 0]);
}

#[test]
fn unknown_tag_is_refused() {
    assert!(deserialize(&[3u8]).is_err());
}

#[test]
fn trailing_bytes_are_ignored() {
    assert_eq!(deserialize(&[0xfa, 1, 0, 0, 0, 9, 9]).unwrap(), K::Int(1));
}
