//! Table helpers, CSV / JSON cells and column typing, ISO temporals.

use l_rs::io::csv;
use l_rs::io::json::{self, JsonCell, JsonNumber, JsonRow, JsonValue};
use l_rs::io::temporal::{fmt_date, fmt_timestamp, parse_date_iso, parse_time_iso};
use l_rs::io::{table, unwrap_table};
use l_rs::literal::fmt_time;
use l_rs::render::FloatBits;
use l_rs::{LError, K};

fn plain(x: FloatBits) -> String {
    match x {
        FloatBits::Real(b) => f32::from_bits(b).to_string(),
        FloatBits::Float(b) => f64::from_bits(b).to_string(),
        FloatBits::DateTime(b) => format!("dt{}", f64::from_bits(b)),
    }
}

fn shown(x: FloatBits) -> String {
    match x {
        FloatBits::Real(b) => f32::from_bits(b).to_string(),
        FloatBits::Float(b) | FloatBits::DateTime(b) => f64::from_bits(b).to_string(),
    }
}

fn floats(cells: &[String]) -> Vec<Option<u64>> {
    cells.iter().map(|s| s.parse::<f64>().ok().map(f64::to_bits)).collect()
}

fn strings(v: &[&str]) -> Vec<String> {
    v.iter().map(|s| s.to_string()).collect()
}

fn sample() -> K {
    table(
        strings(&["a", "b", "d"]),
        vec![
            K::LongVec(vec![1, 2, 3]),
            K::FloatVec(vec![1.5f64.to_bits(), 2.5f64.to_bits(), 3.5f64.to_bits()]),
            K::DateVec(vec![0, 1, 365]),
        ],
    )
}

fn parse_float(s: &str) -> Option<u64> {
    s.parse::<f64>().ok().map(f64::to_bits)
}

fn csv_bytes(header: &[String], rows: &[Vec<String>]) -> Vec<u8> {
    let mut w = ::csv::Writer::from_writer(Vec::new());
    w.write_record(header).unwrap();
    for r in rows {
        w.write_record(r).unwrap();
    }
    w.into_inner().unwrap()
}

fn json_bytes(rows: Vec<Vec<(String, JsonCell)>>) -> Vec<u8> {
    let out: Vec<serde_json::Value> = rows
        .into_iter()
        .map(|r| {
            let mut obj = serde_json::Map::new();
            for (n, c) in r {
                let v = match c {
                    JsonCell::Int(i) => serde_json::Value::Number(i.into()),
                    JsonCell::Float(b) => {
                        serde_json::Value::Number(serde_json::Number::from_f64(f64::from_bits(b)).unwrap())
                    }
                    JsonCell::Str(s) => serde_json::Value::String(s),
                    other => panic!("unexpected cell {other:?}"),
                };
                obj.insert(n, v);
            }
            serde_json::Value::Object(obj)
        })
        .collect();
    serde_json::to_vec_pretty(&serde_json::Value::Array(out)).unwrap()
}

#[test]
fn csv_roundtrip_basic() {
    let t = sample();
    let (header, rows) = csv::csv_rows(&t, &plain, &shown).unwrap();
    assert_eq!(header, strings(&["a", "b", "d"]));
    assert_eq!(rows[2], strings(&["3", "3.5", "2000-12-31"]));
    let bytes = csv_bytes(&header, &rows);
    let back = csv::read_csv_bytes(&bytes, &parse_float).unwrap().unwrap();
    assert_eq!(back, sample());
    let cols = csv::pivot(header.len(), &rows);
    let kcols: Vec<K> = cols
        .into_iter()
        .map(|c| {
            let f = floats(&c);
            csv::infer(c, &f)
        })
        .collect();
    assert_eq!(table(header, kcols), sample());
}

#[test]
fn json_roundtrip_basic() {
    let t = table(
        strings(&["a", "b", "c"]),
        vec![
            K::LongVec(vec![1, 2, 3]),
            K::FloatVec(vec![1.5f64.to_bits(), 2.5f64.to_bits(), 3.5f64.to_bits()]),
            K::SymbolVec(strings(&["x", "y", "z"])),
        ],
    );
    let rows = json::json_rows(&t, &plain, &shown).unwrap();
    assert_eq!(rows.len(), 3);
    let back = json::read_json_bytes(&json_bytes(rows)).unwrap();
    assert_eq!(back, t);
}

#[test]
fn json_bytes_read() {
    let doc = br#"[{"n": 1, "x": 0.5, "s": "a", "o": [1, 2]}, {"n": null, "x": 2, "s": "b"}]"#;
    let t = json::read_json_bytes(doc).unwrap();
    assert_eq!(
        t,
        table(
            strings(&["n", "o", "s", "x"]),
            vec![
                K::LongVec(vec![1, 0]),
                K::SymbolVec(strings(&["[1,2]", ""])),
                K::SymbolVec(strings(&["a", "b"])),
                K::FloatVec(vec![0.5f64.to_bits(), 2.0f64.to_bits()]),
            ],
        )
    );
    assert_eq!(json::read_json_bytes(b"[]").unwrap(), table(vec![], vec![]));
    match json::read_json_bytes(b"{\"a\": 1}") {
        Err(LError::Deserialize(m)) => assert_eq!(m, "json: expected top-level array"),
        other => panic!("unexpected {other:?}"),
    }
    match json::read_json_bytes(b"[1]") {
        Err(LError::Deserialize(m)) => assert_eq!(m, "json: rows must be objects"),
        other => panic!("unexpected {other:?}"),
    }
    match json::read_json_bytes(b"[{") {
        Err(LError::Deserialize(m)) => assert!(m.starts_with("json parse: "), "{m}"),
        other => panic!("unexpected {other:?}"),
    }
}

#[test]
fn csv_bytes_read() {
    let t = csv::read_csv_bytes(b"n,x,d,t,s\n1,0.5,2000-01-02,00:00:01,a\n,2,,,\n", &parse_float)
        .unwrap()
        .unwrap();
    assert_eq!(
        t,
        table(
            strings(&["n", "x", "d", "t", "s"]),
            vec![
                K::LongVec(vec![1, 0]),
                K::FloatVec(vec![0.5f64.to_bits(), 2.0f64.to_bits()]),
                K::DateVec(vec![1, 0]),
                K::TimeVec(vec![1000, 0]),
                K::SymbolVec(strings(&["a", ""])),
            ],
        )
    );
    match csv::read_csv_bytes(b"a,b\n1,2\n3\n", &parse_float) {
        Err(LError::Deserialize(m)) => assert!(m.starts_with("csv record: "), "{m}"),
        other => panic!("unexpected {other:?}"),
    }
    assert_eq!(csv::read_csv_bytes("t\n00:00:00.00é\n".as_bytes(), &parse_float).unwrap(), None);
    match csv::read_csv_bytes(b"a,\xff\n1,2\n", &parse_float) {
        Err(LError::Deserialize(m)) => assert!(m.starts_with("csv headers: "), "{m}"),
        other => panic!("unexpected {other:?}"),
    }
}

#[test]
fn unwrap_table_errors() {
    match unwrap_table(&K::Int(1), "csv write") {
        Err(LError::Type(m)) => assert_eq!(m, "csv write: expected table, got type -6"),
        other => panic!("unexpected {other:?}"),
    }
    let bad = K::Dict(Box::new(K::IntVec(vec![])), Box::new(K::List(vec![])));
    match unwrap_table(&bad, "x") {
        Err(LError::Type(m)) => assert_eq!(m, "x: names must be symbols"),
        other => panic!("unexpected {other:?}"),
    }
    let bad = K::Dict(Box::new(K::SymbolVec(vec![])), Box::new(K::IntVec(vec![])));
    match unwrap_table(&bad, "x") {
        Err(LError::Type(m)) => assert_eq!(m, "x: columns must be a list"),
        other => panic!("unexpected {other:?}"),
    }
    let bad = K::Dict(Box::new(K::SymbolVec(strings(&["a", "b"]))), Box::new(K::List(vec![K::IntVec(vec![])])));
    match unwrap_table(&bad, "x") {
        Err(LError::Type(m)) => assert_eq!(m, "x: 2 names but 1 columns"),
        other => panic!("unexpected {other:?}"),
    }
}

#[test]
fn unwrap_table_gives_back_what_table_took() {
    let t = table(strings(&["p"]), vec![K::IntVec(vec![7])]);
    let (names, cols) = unwrap_table(&t, "t").unwrap();
    assert_eq!(names, strings(&["p"]));
    assert_eq!(cols, &vec![K::IntVec(vec![7])]);
}

#[test]
fn csv_cells() {
    assert_eq!(csv::cell(&K::BoolVec(vec![true, false]), 1, &plain, &shown), "false");
    assert_eq!(csv::cell(&K::CharVec(vec![b'a', 0xe9]), 1, &plain, &shown), "\u{FFFD}");
    assert_eq!(csv::cell(&K::MinuteVec(vec![61]), 0, &plain, &shown), "01:01");
    assert_eq!(csv::cell(&K::SecondVec(vec![3661]), 0, &plain, &shown), "01:01:01");
    assert_eq!(csv::cell(&K::TimeVec(vec![1]), 0, &plain, &shown), "00:00:00.001");
    assert_eq!(csv::cell(&K::TimestampVec(vec![0]), 0, &plain, &shown), "2000-01-01T00:00:00.000000000");
    assert_eq!(csv::cell(&K::MonthVec(vec![0, 1]), 0, &plain, &shown), "2000.01m 2000.02m");
    assert_eq!(csv::cell(&K::Int(5), 3, &plain, &shown), "5");
}

#[test]
fn csv_infer_order() {
    let c = strings(&["1", "", "x"]);
    let f = floats(&c);
    assert_eq!(csv::infer(c, &f), K::SymbolVec(strings(&["1", "", "x"])));
    let c = strings(&["1", "", "-2"]);
    let f = floats(&c);
    assert_eq!(csv::infer(c, &f), K::LongVec(vec![1, 0, -2]));
    let c = strings(&["1.5", ""]);
    let f = floats(&c);
    assert_eq!(csv::infer(c, &f), K::FloatVec(vec![1.5f64.to_bits(), f64::NAN.to_bits()]));
    let c = strings(&["2000-01-02", " 2000.01.01 "]);
    let f = floats(&c);
    assert_eq!(csv::infer(c, &f), K::DateVec(vec![1, 0]));
    let c = strings(&["01:00:00", "00:00:01.5"]);
    let f = floats(&c);
    assert_eq!(csv::infer(c, &f), K::TimeVec(vec![3_600_000, 1500]));
    let c = strings(&["", ""]);
    let f = floats(&c);
    assert_eq!(csv::infer(c, &f), K::SymbolVec(strings(&["", ""])));
}

#[test]
fn csv_pivot_drops_extra_fields() {
    let recs = vec![strings(&["1", "2", "3"]), strings(&["4"])];
    let cols = csv::pivot(2, &recs);
    assert_eq!(cols, vec![strings(&["1", "4"]), strings(&["2"])]);
}

#[test]
fn json_cells() {
    assert_eq!(json::cell(&K::FloatVec(vec![f64::NAN.to_bits()]), 0, &plain, &shown), JsonCell::Null);
    assert_eq!(json::cell(&K::RealVec(vec![f32::INFINITY.to_bits()]), 0, &plain, &shown), JsonCell::Null);
    assert_eq!(json::cell(&K::RealVec(vec![1.0f32.to_bits()]), 0, &plain, &shown), JsonCell::Real(1.0f32.to_bits()));
    assert_eq!(json::cell(&K::ShortVec(vec![-4]), 0, &plain, &shown), JsonCell::Int(-4));
    assert_eq!(json::cell(&K::DateVec(vec![1]), 0, &plain, &shown), JsonCell::Str("2000-01-02".into()));
    assert_eq!(json::cell(&K::MinuteVec(vec![1, 2]), 0, &plain, &shown), JsonCell::Str("00:01 00:02".into()));
    assert_eq!(json::cell(&K::MinuteVec(vec![1]), 0, &plain, &shown), JsonCell::Str(",00:01".into()));
}

fn num(i: i64) -> JsonValue {
    JsonValue::Number(JsonNumber { int: Some(i), is_u64: i >= 0, bits: Some((i as f64).to_bits()), text: i.to_string() })
}

#[test]
fn json_infer_order() {
    assert_eq!(json::infer(vec![JsonValue::Null, JsonValue::Null]), K::SymbolVec(strings(&["", ""])));
    assert_eq!(json::infer(vec![JsonValue::Bool(true), JsonValue::Null]), K::BoolVec(vec![true, false]));
    assert_eq!(json::infer(vec![num(3), JsonValue::Null]), K::LongVec(vec![3, 0]));
    let half = JsonValue::Number(JsonNumber { int: None, is_u64: false, bits: Some(0.5f64.to_bits()), text: "0.5".into() });
    assert_eq!(json::infer(vec![num(1), half]), K::FloatVec(vec![1.0f64.to_bits(), 0.5f64.to_bits()]));
    assert_eq!(
        json::infer(vec![JsonValue::Str("a".into()), JsonValue::Bool(false), num(2), JsonValue::Null, JsonValue::Other("[1]".into())]),
        K::SymbolVec(strings(&["a", "false", "2", "", "[1]"]))
    );
}

#[test]
fn json_table_errors_and_missing_entries() {
    match json::json_table(None) {
        Err(LError::Deserialize(m)) => assert_eq!(m, "json: expected top-level array"),
        other => panic!("unexpected {other:?}"),
    }
    match json::json_table(Some(vec![JsonRow::Object(vec![]), JsonRow::NotObject])) {
        Err(LError::Deserialize(m)) => assert_eq!(m, "json: rows must be objects"),
        other => panic!("unexpected {other:?}"),
    }
    assert_eq!(json::json_table(Some(vec![])).unwrap(), table(vec![], vec![]));
    let rows = vec![
        JsonRow::Object(vec![("a".into(), num(1))]),
        JsonRow::Object(vec![("b".into(), num(2))]),
    ];
    assert_eq!(json::json_table(Some(rows)).unwrap(), table(strings(&["a"]), vec![K::LongVec(vec![1, 0])]));
}

#[test]
fn iso_dates_and_times() {
    assert_eq!(fmt_date(0), "2000-01-01");
    assert_eq!(fmt_date(-1), "1999-12-31");
    assert_eq!(fmt_timestamp(-1), "1999-12-31T23:59:59.999999999");
    assert_eq!(parse_date_iso("2000-01-02"), Some(1));
    assert_eq!(parse_date_iso("2000.03.01"), Some(60));
    assert_eq!(parse_date_iso("2000-13-01"), None);
    assert_eq!(parse_date_iso("2000/01/01"), None);
    assert_eq!(parse_time_iso("12:34:56.789"), Some(45_296_789));
    assert_eq!(parse_time_iso("00:00:01.5"), Some(1500));
    assert_eq!(parse_time_iso("00:00:01.12345"), Some(1123));
    assert_eq!(parse_time_iso("24:00:00"), None);
    assert_eq!(parse_time_iso("1:2:3:4"), None);
    for d in [-1000i32, 0, 59, 365, 10000] {
        assert_eq!(parse_date_iso(&fmt_date(d)), Some(d));
    }
}

#[test]
fn iso_time_roundtrip() {
    for ms in [-99i32, -1, 0, 1, 999, 59_999, 3_600_000, 86_399_999] {
        assert_eq!(parse_time_iso(&fmt_time(ms)), Some(ms), "at {ms}");
    }
    assert_eq!(parse_time_iso(&fmt_time(-100)), Some(-10));
    assert_eq!(parse_time_iso(&fmt_time(86_400_000)), None);
}

#[test]
fn iso_date_roundtrip_edges() {
    let first = l_rs::calendar::days_from_ymd(-999, 1, 1);
    let last = l_rs::calendar::days_from_ymd(9999, 12, 31);
    assert_eq!(parse_date_iso(&fmt_date(first)), Some(first));
    assert_eq!(parse_date_iso(&fmt_date(last)), Some(last));
    assert_eq!(parse_date_iso(&fmt_date(last + 1)), None);
    assert_eq!(parse_date_iso(&fmt_date(first - 1)), None);
}

#[test]
fn time_parse_panic_guard() {
    assert!(l_rs::io::temporal::time_iso_cuts_char("00:00:00.00é"));
    assert!(!l_rs::io::temporal::time_iso_cuts_char("00:00:00.000"));
    let cells = vec!["00:00:00.00é".to_string()];
    let floats = vec![None];
    assert!(csv::infer_cuts_char(&cells, &floats));
    let cells = vec!["x".to_string(), "00:00:00.00é".to_string()];
    let floats = vec![None, None];
    assert!(!csv::infer_cuts_char(&cells, &floats));
}

#[test]
fn writable_checks() {
    let ok = sample();
    assert!(csv::csv_writable(&ok));
    assert!(json::json_writable_check(&ok));
    let short = table(strings(&["a", "b"]), vec![K::IntVec(vec![1, 2]), K::IntVec(vec![1])]);
    assert!(!csv::csv_writable(&short));
    assert!(!json::json_writable_check(&short));
    let bad_span = table(strings(&["a", "b"]), vec![K::IntVec(vec![1]), K::TimespanVec(vec![i64::MIN])]);
    assert!(!csv::csv_writable(&bad_span));
    assert!(csv::csv_writable(&K::Int(3)));
}
