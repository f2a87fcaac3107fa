//! JSON cells and column typing for tables held as an array of row
//! objects `[{"col": v, …}, …]`. Longs, floats, booleans and strings
//! come back as they went; temporal columns go out as ISO-8601 strings
//! and come back as symbols.

use vstd::prelude::*;
use vstd::utf8::*;

use crate::error::LError;
use crate::io::csv::{byte_text, first_count};
use crate::types::NULL_FLOAT_BITS;
use crate::io::temporal::{date_iso_text, fmt_date, fmt_timestamp, timestamp_iso_text};
use crate::io::{table, table_kv, table_malformed, table_parts, unwrap_table};
use crate::k::{K, KV, Kind, count_of, kseq_view, strs};
use crate::literal::{fmt_time, time_text};
use crate::render::{FloatBits, float_free, k_text, k_text_in, render, spans_ok, spells};
use crate::text::{push_char, push_str};
use serde_json::Value;

verus! {

/// A JSON number as a reader classifies it.
#[derive(Debug, PartialEq)]
pub struct JsonNumber {
    /// its value when it is a whole number within `i64`
    pub int: Option<i64>,
    /// it is a whole number within `u64`
    pub is_u64: bool,
    /// its value as an `f64`, by the bits
    pub bits: Option<u64>,
    /// its JSON spelling
    pub text: String,
}

/// A JSON value as the column typing reads it.
#[derive(Debug, PartialEq)]
pub enum JsonValue {
    Null,
    Bool(bool),
    Number(JsonNumber),
    Str(String),
    /// an array or an object, by its JSON spelling
    Other(String),
}

/// A top-level array element: an object's entries in order, or anything
/// else.
#[derive(Debug, PartialEq)]
pub enum JsonRow {
    Object(Vec<(String, JsonValue)>),
    NotObject,
}

/// A cell of a JSON row object.
#[derive(Debug, PartialEq)]
pub enum JsonCell {
    Null,
    Bool(bool),
    Int(i64),
    /// a finite `f32`, by its bits
    Real(u32),
    /// a finite `f64`, by its bits
    Float(u64),
    Str(String),
}

/// The exponent of an `f32` is not all ones.
pub open spec fn finite_f32(b: u32) -> bool {
    b & 0x7f80_0000u32 != 0x7f80_0000u32
}

/// The exponent of an `f64` is not all ones.
pub open spec fn finite_f64(b: u64) -> bool {
    b & 0x7ff0_0000_0000_0000u64 != 0x7ff0_0000_0000_0000u64
}

/// Kinds whose JSON cells are spelled per element.
pub open spec fn json_per_element(kind: Kind) -> bool {
    match kind {
        Kind::Bool | Kind::Byte | Kind::Short | Kind::Int | Kind::Long | Kind::Real | Kind::Float
        | Kind::Char | Kind::Date | Kind::Time | Kind::DateTime | Kind::Timestamp => true,
        _ => false,
    }
}

/// Element `i` exists where cells are spelled per element, and the whole
/// column can be printed where they are not.
pub open spec fn json_cell_ok(col: KV, i: int) -> bool {
    match col {
        KV::Vector(kind, vs) => if json_per_element(kind) {
            0 <= i < vs.len()
        } else {
            spans_ok(col)
        },
        KV::SymbolVec(ss) => 0 <= i < ss.len(),
        _ => spans_ok(col),
    }
}

/// `c` is the JSON cell of element `i` of `col`: numbers as numbers
/// (a float that is not finite as null), text as strings, a date-time by
/// `plain`, and a column of another kind printed whole.
pub open spec fn json_cell_is<F: Fn(FloatBits) -> String>(col: KV, i: int, c: JsonCell, plain: F) -> bool {
    match col {
        KV::Vector(kind, vs) => match kind {
            Kind::Bool => c == JsonCell::Bool(vs[i] == 1),
            Kind::Byte | Kind::Short | Kind::Int | Kind::Long => c matches JsonCell::Int(x) && x
                == vs[i],
            Kind::Real => if finite_f32(vs[i] as u32) {
                c == JsonCell::Real(vs[i] as u32)
            } else {
                c is Null
            },
            Kind::Float => if finite_f64(vs[i] as u64) {
                c == JsonCell::Float(vs[i] as u64)
            } else {
                c is Null
            },
            Kind::Char => c matches JsonCell::Str(s) && s@ == byte_text(vs[i]),
            Kind::Date => c matches JsonCell::Str(s) && s@ == date_iso_text(vs[i]),
            Kind::Time => c matches JsonCell::Str(s) && s@ == time_text(vs[i]),
            Kind::Timestamp => c matches JsonCell::Str(s) && s@ == timestamp_iso_text(vs[i]),
            Kind::DateTime => c matches JsonCell::Str(s) && plain.ensures(
                (FloatBits::DateTime(vs[i] as u64),),
                s,
            ),
            _ => c matches JsonCell::Str(s) && (float_free(col) ==> s@ == k_text(col)),
        },
        KV::SymbolVec(ss) => c matches JsonCell::Str(s) && s@ == ss[i],
        _ => c matches JsonCell::Str(s) && (float_free(col) ==> s@ == k_text(col)),
    }
}

fn text_cell(s: String) -> (c: JsonCell)
    ensures
        c == JsonCell::Str(s),
{
    JsonCell::Str(s)
}

/// Element `i` of `col` as a JSON cell. `plain` spells a date-time;
/// `shown` the floats of a column printed whole.
pub fn cell<F: Fn(FloatBits) -> String, G: Fn(FloatBits) -> String>(
    col: &K,
    i: usize,
    plain: &F,
    shown: &G,
) -> (c: JsonCell)
    requires
        json_cell_ok(col@, i as int),
        forall|x: FloatBits| #[trigger] plain.requires((x,)),
        forall|x: FloatBits| #[trigger] shown.requires((x,)),
    ensures
        json_cell_is(col@, i as int, c, *plain),
        !(col@ is Vector && json_per_element(col@->Vector_0)) && !(col@ is SymbolVec) ==> (c matches JsonCell::Str(
            s,
        ) && forall|sp: spec_fn(FloatBits) -> Seq<char>|
            spells(*shown, sp) ==> s@ == k_text_in(col@, sp)),
{
    match col {
        K::BoolVec(v) => JsonCell::Bool(v[i]),
        K::ByteVec(v) => JsonCell::Int(v[i] as i64),
        K::ShortVec(v) => JsonCell::Int(v[i] as i64),
        K::IntVec(v) => JsonCell::Int(v[i] as i64),
        K::LongVec(v) => JsonCell::Int(v[i]),
        K::RealVec(v) => {
            let b = v[i];
            if b & 0x7f80_0000u32 != 0x7f80_0000u32 {
                JsonCell::Real(b)
            } else {
                JsonCell::Null
            }
        },
        K::FloatVec(v) => {
            let b = v[i];
            if b & 0x7ff0_0000_0000_0000u64 != 0x7ff0_0000_0000_0000u64 {
                JsonCell::Float(b)
            } else {
                JsonCell::Null
            }
        },
        K::SymbolVec(v) => text_cell(v[i].clone()),
        K::CharVec(v) => {
            let b = v[i];
            let mut s = String::new();
            if b < 128 {
                push_char(&mut s, b as char);
            } else {
                push_char(&mut s, '\u{FFFD}');
            }
            JsonCell::Str(s)
        },
        K::DateVec(v) => JsonCell::Str(fmt_date(v[i])),
        K::TimeVec(v) => JsonCell::Str(fmt_time(v[i])),
        K::DateTimeVec(v) => JsonCell::Str(plain(FloatBits::DateTime(v[i]))),
        K::TimestampVec(v) => JsonCell::Str(fmt_timestamp(v[i])),
        _ => JsonCell::Str(render(col, shown)),
    }
}

/// Every cell of every row can be spelled.
pub open spec fn json_rows_ok(cols: Seq<KV>) -> bool {
    forall|j: int, r: int|
        0 <= j < cols.len() && 0 <= r < first_count(cols) ==> #[trigger] json_cell_ok(cols[j], r)
}

/// A table fit to be written out as JSON row objects.
pub open spec fn json_writable(k: KV) -> bool {
    !table_malformed(k) && (table_parts(k, "json write"@) matches Ok((_, cols)) ==> json_rows_ok(
        cols,
    ))
}

fn clone_text(s: &String) -> (r: String)
    ensures
        r == *s,
{
    s.clone()
}

fn json_row<F: Fn(FloatBits) -> String, G: Fn(FloatBits) -> String>(
    names: &Vec<String>,
    cols: &Vec<K>,
    r: usize,
    plain: &F,
    shown: &G,
) -> (out: Vec<(String, JsonCell)>)
    requires
        names@.len() == cols@.len(),
        forall|j: int| 0 <= j < cols@.len() ==> json_cell_ok(#[trigger] cols@[j]@, r as int),
        forall|x: FloatBits| #[trigger] plain.requires((x,)),
        forall|x: FloatBits| #[trigger] shown.requires((x,)),
    ensures
        out@.len() == cols@.len(),
        forall|j: int|
            0 <= j < cols@.len() ==> (#[trigger] out@[j]).0 == names@[j] && json_cell_is(
                cols@[j]@,
                r as int,
                out@[j].1,
                *plain,
            ),
{
    let mut out: Vec<(String, JsonCell)> = Vec::new();
    let mut j: usize = 0;
    while j < cols.len()
        invariant
            names@.len() == cols@.len(),
            j <= cols@.len(),
            out@.len() == j,
            forall|t: int| 0 <= t < cols@.len() ==> json_cell_ok(#[trigger] cols@[t]@, r as int),
            forall|x: FloatBits| #[trigger] plain.requires((x,)),
            forall|x: FloatBits| #[trigger] shown.requires((x,)),
            forall|t: int|
                0 <= t < j ==> (#[trigger] out@[t]).0 == names@[t] && json_cell_is(
                    cols@[t]@,
                    r as int,
                    out@[t].1,
                    *plain,
                ),
        decreases cols@.len() - j,
    {
        let c = cell(&cols[j], r, plain, shown);
        let n = clone_text(&names[j]);
        out.push((n, c));
        j = j + 1;
    }
    out
}

/// The row objects of table `k` as JSON holds them, entries in column
/// order: one object per element of the first column.
pub fn json_rows<F: Fn(FloatBits) -> String, G: Fn(FloatBits) -> String>(
    k: &K,
    plain: &F,
    shown: &G,
) -> (r: Result<Vec<Vec<(String, JsonCell)>>, LError>)
    requires
        json_writable(k@),
        forall|x: FloatBits| #[trigger] plain.requires((x,)),
        forall|x: FloatBits| #[trigger] shown.requires((x,)),
    ensures
        match r {
            Ok(rows) => table_parts(k@, "json write"@) matches Ok((names, cols)) && rows@.len()
                == first_count(cols) && forall|i: int|
                0 <= i < rows@.len() ==> (#[trigger] rows@[i])@.len() == cols.len() && forall|
                    j: int,
                |
                    0 <= j < cols.len() ==> (#[trigger] rows@[i]@[j]).0@ == names[j]
                        && json_cell_is(cols[j], i, rows@[i]@[j].1, *plain),
            Err(e) => e matches LError::Type(m) && table_parts(k@, "json write"@) == Err::<
                (Seq<Seq<char>>, Seq<KV>),
                _,
            >(m@),
        },
{
    let (names, data) = match unwrap_table(k, "json write") {
        Ok(p) => p,
        Err(e) => return Err(e),
    };
    let ghost cols = kseq_view(data@);
    proof {
        crate::k::lemma_kseq_view(data@);
    }
    let nrows = if data.len() == 0 {
        0
    } else {
        data[0].len()
    };
    let mut rows: Vec<Vec<(String, JsonCell)>> = Vec::new();
    let mut i: usize = 0;
    while i < nrows
        invariant
            i <= nrows,
            nrows == first_count(cols),
            cols == kseq_view(data@),
            cols.len() == data@.len(),
            names@.len() == data@.len(),
            strs(names@).len() == names@.len(),
            forall|t: int| 0 <= t < data@.len() ==> #[trigger] cols[t] == data@[t]@,
            json_rows_ok(cols),
            forall|x: FloatBits| #[trigger] plain.requires((x,)),
            forall|x: FloatBits| #[trigger] shown.requires((x,)),
            rows@.len() == i,
            forall|t: int|
                0 <= t < i ==> (#[trigger] rows@[t])@.len() == cols.len() && forall|j: int|
                    0 <= j < cols.len() ==> (#[trigger] rows@[t]@[j]).0@ == strs(names@)[j]
                        && json_cell_is(cols[j], t, rows@[t]@[j].1, *plain),
        decreases nrows - i,
    {
        assert forall|j: int| 0 <= j < data@.len() implies json_cell_ok(
            #[trigger] data@[j]@,
            i as int,
        ) by {
            assert(json_cell_ok(cols[j], i as int));
        }
        let one = json_row(&names, data, i, plain, shown);
        rows.push(one);
        i = i + 1;
    }
    Ok(rows)
}

/// Every cell is null.
pub open spec fn all_null(cells: Seq<JsonValue>) -> bool {
    forall|i: int| 0 <= i < cells.len() ==> (#[trigger] cells[i]) is Null
}

/// Every cell is null or a boolean.
pub open spec fn all_bool(cells: Seq<JsonValue>) -> bool {
    forall|i: int| 0 <= i < cells.len() ==> #[trigger] cells[i] is Null || cells[i] is Bool
}

/// A whole number (within `i64` or `u64`).
pub open spec fn is_whole(n: JsonNumber) -> bool {
    n.int is Some || n.is_u64
}

/// Every cell is null or a whole number.
pub open spec fn all_whole(cells: Seq<JsonValue>) -> bool {
    forall|i: int|
        0 <= i < cells.len() ==> #[trigger] cells[i] is Null || (cells[i] matches JsonValue::Number(
            n,
        ) && is_whole(n))
}

/// Every cell is null or a number with an `f64` value.
pub open spec fn all_number(cells: Seq<JsonValue>) -> bool {
    forall|i: int|
        0 <= i < cells.len() ==> #[trigger] cells[i] is Null || (cells[i] matches JsonValue::Number(
            n,
        ) && n.bits is Some)
}

pub open spec fn bool_of(v: JsonValue) -> int {
    match v {
        JsonValue::Bool(b) => if b {
            1
        } else {
            0
        },
        _ => 0,
    }
}

pub open spec fn long_of(v: JsonValue) -> int {
    match v {
        JsonValue::Number(n) => match n.int {
            Some(x) => x as int,
            None => 0,
        },
        _ => 0,
    }
}

pub open spec fn float_of(v: JsonValue) -> int {
    match v {
        JsonValue::Number(n) => match n.bits {
            Some(b) => b as int,
            None => NULL_FLOAT_BITS as int,
        },
        _ => NULL_FLOAT_BITS as int,
    }
}

/// The text a symbol cell takes from a value.
pub open spec fn value_text(v: JsonValue) -> Seq<char> {
    match v {
        JsonValue::Null => Seq::empty(),
        JsonValue::Bool(b) => if b {
            "true"@
        } else {
            "false"@
        },
        JsonValue::Number(n) => n.text@,
        JsonValue::Str(s) => s@,
        JsonValue::Other(t) => t@,
    }
}

/// The column typed from JSON cells: all null gives empty symbols; then
/// the first of Bool, Long, Float that every non-null cell fits; else
/// symbols, each cell by its text.
pub open spec fn json_infer_kv(cells: Seq<JsonValue>) -> KV {
    if all_null(cells) {
        KV::SymbolVec(Seq::new(cells.len(), |i: int| Seq::<char>::empty()))
    } else if all_bool(cells) {
        KV::Vector(Kind::Bool, Seq::new(cells.len(), |i: int| bool_of(cells[i])))
    } else if all_whole(cells) {
        KV::Vector(Kind::Long, Seq::new(cells.len(), |i: int| long_of(cells[i])))
    } else if all_number(cells) {
        KV::Vector(Kind::Float, Seq::new(cells.len(), |i: int| float_of(cells[i])))
    } else {
        KV::SymbolVec(Seq::new(cells.len(), |i: int| value_text(cells[i])))
    }
}

fn scan(cells: &Vec<JsonValue>) -> (r: (bool, bool, bool, bool))
    ensures
        r.0 == all_null(cells@),
        r.1 == all_bool(cells@),
        r.2 == all_whole(cells@),
        r.3 == all_number(cells@),
{
    let mut null = true;
    let mut boolean = true;
    let mut whole = true;
    let mut flt = true;
    let mut i: usize = 0;
    while i < cells.len()
        invariant
            i <= cells@.len(),
            null == all_null(cells@.subrange(0, i as int)),
            boolean == all_bool(cells@.subrange(0, i as int)),
            whole == all_whole(cells@.subrange(0, i as int)),
            flt == all_number(cells@.subrange(0, i as int)),
        decreases cells@.len() - i,
    {
        let ghost pre = cells@.subrange(0, i as int);
        let ghost post = cells@.subrange(0, i + 1);
        assert(forall|t: int| 0 <= t < i ==> post[t] == pre[t]);
        assert(post[i as int] == cells@[i as int]);
        match &cells[i] {
            JsonValue::Null => {},
            JsonValue::Bool(_) => {
                null = false;
                whole = false;
                flt = false;
            },
            JsonValue::Number(n) => {
                null = false;
                boolean = false;
                if n.int.is_none() && !n.is_u64 {
                    whole = false;
                }
                if n.bits.is_none() {
                    flt = false;
                }
            },
            _ => {
                null = false;
                whole = false;
                flt = false;
                boolean = false;
            },
        }
        i = i + 1;
    }
    assert(cells@.subrange(0, cells@.len() as int) =~= cells@);
    (null, boolean, whole, flt)
}

fn text_of(v: &JsonValue) -> (s: String)
    ensures
        s@ == value_text(*v),
{
    match v {
        JsonValue::Null => String::new(),
        JsonValue::Bool(b) => if *b {
            "true".to_owned()
        } else {
            "false".to_owned()
        },
        JsonValue::Number(n) => n.text.clone(),
        JsonValue::Str(s) => s.clone(),
        JsonValue::Other(t) => t.clone(),
    }
}

/// A column typed from JSON cells (see `json_infer_kv`).
pub fn infer(cells: Vec<JsonValue>) -> (k: K)
    ensures
        k@ == json_infer_kv(cells@),
{
    let (null, boolean, whole, flt) = scan(&cells);
    let n = cells.len();
    if null {
        let mut v: Vec<String> = Vec::new();
        let mut i: usize = 0;
        while i < n
            invariant
                i <= n,
                v@.len() == i,
                forall|t: int| 0 <= t < i ==> (#[trigger] v@[t])@ == Seq::<char>::empty(),
            decreases n - i,
        {
            v.push(String::new());
            i = i + 1;
        }
        let k = K::SymbolVec(v);
        assert(k@ =~= json_infer_kv(cells@)) by {
            assert(strs(v@) =~= Seq::new(n as nat, |t: int| Seq::<char>::empty()));
        }
        return k;
    }
    if boolean {
        let mut v: Vec<bool> = Vec::new();
        let mut i: usize = 0;
        while i < n
            invariant
                n == cells@.len(),
                i <= n,
                v@.len() == i,
                forall|t: int| 0 <= t < i ==> crate::k::bit(#[trigger] v@[t]) == bool_of(cells@[t]),
            decreases n - i,
        {
            let b = match &cells[i] {
                JsonValue::Bool(b) => *b,
                _ => false,
            };
            v.push(b);
            i = i + 1;
        }
        let k = K::BoolVec(v);
        assert(k@ =~= json_infer_kv(cells@)) by {
            assert(crate::k::ints_bool(v@) =~= Seq::new(n as nat, |t: int| bool_of(cells@[t])));
        }
        return k;
    }
    if whole {
        let mut v: Vec<i64> = Vec::new();
        let mut i: usize = 0;
        while i < n
            invariant
                n == cells@.len(),
                i <= n,
                v@.len() == i,
                forall|t: int| 0 <= t < i ==> #[trigger] v@[t] as int == long_of(cells@[t]),
            decreases n - i,
        {
            let x = match &cells[i] {
                JsonValue::Number(num) => match num.int {
                    Some(x) => x,
                    None => 0,
                },
                _ => 0,
            };
            v.push(x);
            i = i + 1;
        }
        let k = K::LongVec(v);
        assert(k@ =~= json_infer_kv(cells@)) by {
            assert(crate::k::ints_i64(v@) =~= Seq::new(n as nat, |t: int| long_of(cells@[t])));
        }
        return k;
    }
    if flt {
        let mut v: Vec<u64> = Vec::new();
        let mut i: usize = 0;
        while i < n
            invariant
                n == cells@.len(),
                i <= n,
                v@.len() == i,
                forall|t: int| 0 <= t < i ==> #[trigger] v@[t] as int == float_of(cells@[t]),
            decreases n - i,
        {
            let x = match &cells[i] {
                JsonValue::Number(num) => match num.bits {
                    Some(x) => x,
                    None => NULL_FLOAT_BITS,
                },
                _ => NULL_FLOAT_BITS,
            };
            v.push(x);
            i = i + 1;
        }
        let k = K::FloatVec(v);
        assert(k@ =~= json_infer_kv(cells@)) by {
            assert(crate::k::ints_u64(v@) =~= Seq::new(n as nat, |t: int| float_of(cells@[t])));
        }
        return k;
    }
    let mut v: Vec<String> = Vec::new();
    let mut i: usize = 0;
    while i < n
        invariant
            n == cells@.len(),
            i <= n,
            v@.len() == i,
            forall|t: int| 0 <= t < i ==> (#[trigger] v@[t])@ == value_text(cells@[t]),
        decreases n - i,
    {
        let s = text_of(&cells[i]);
        v.push(s);
        i = i + 1;
    }
    let k = K::SymbolVec(v);
    assert(k@ =~= json_infer_kv(cells@)) by {
        assert(strs(v@) =~= Seq::new(n as nat, |t: int| value_text(cells@[t])));
    }
    k
}

/// The value of the first entry named `name`, else null.
pub open spec fn entry_of(entries: Seq<(String, JsonValue)>, name: Seq<char>) -> JsonValue
    decreases entries.len(),
{
    if entries.len() == 0 {
        JsonValue::Null
    } else if entries[0].0@ == name {
        entries[0].1
    } else {
        entry_of(entries.drop_first(), name)
    }
}

/// The value a row holds under `name` (null where it has none).
pub open spec fn row_value(row: JsonRow, name: Seq<char>) -> JsonValue {
    match row {
        JsonRow::Object(es) => entry_of(es@, name),
        JsonRow::NotObject => JsonValue::Null,
    }
}

/// The entry names of a row object, in order.
pub open spec fn row_keys(row: JsonRow) -> Seq<Seq<char>> {
    match row {
        JsonRow::Object(es) => Seq::new(es@.len(), |i: int| es@[i].0@),
        JsonRow::NotObject => Seq::empty(),
    }
}

/// The table read from a JSON document (`None` when its top level is not
/// an array), or the error text: the columns are the entry names of the
/// first row, each typed from what every row holds under its name.
pub open spec fn json_doc_table(doc: Option<Seq<JsonRow>>) -> Result<KV, Seq<char>> {
    match doc {
        None => Err("json: expected top-level array"@),
        Some(rows) => if rows.len() == 0 {
            Ok(table_kv(Seq::empty(), Seq::empty()))
        } else if exists|r: int| 0 <= r < rows.len() && (#[trigger] rows[r]) is NotObject {
            Err("json: rows must be objects"@)
        } else {
            let names = row_keys(rows[0]);
            Ok(
                table_kv(
                    names,
                    Seq::new(
                        names.len(),
                        |j: int|
                            json_infer_kv(
                                Seq::new(rows.len(), |r: int| row_value(rows[r], names[j])),
                            ),
                    ),
                ),
            )
        },
    }
}

fn copy_value(v: &JsonValue) -> (r: JsonValue)
    ensures
        r == *v,
{
    match v {
        JsonValue::Null => JsonValue::Null,
        JsonValue::Bool(b) => JsonValue::Bool(*b),
        JsonValue::Number(n) => JsonValue::Number(
            JsonNumber { int: n.int, is_u64: n.is_u64, bits: n.bits, text: clone_text(&n.text) },
        ),
        JsonValue::Str(s) => JsonValue::Str(clone_text(s)),
        JsonValue::Other(t) => JsonValue::Other(clone_text(t)),
    }
}

fn lookup(row: &JsonRow, name: &String) -> (r: JsonValue)
    ensures
        r == row_value(*row, name@),
{
    match row {
        JsonRow::NotObject => JsonValue::Null,
        JsonRow::Object(es) => {
            let mut i: usize = 0;
            assert(es@.subrange(0, es@.len() as int) =~= es@);
            while i < es.len()
                invariant
                    row_value(*row, name@) == entry_of(es@, name@),
                    i <= es@.len(),
                    entry_of(es@, name@) == entry_of(es@.subrange(i as int, es@.len() as int), name@),
                decreases es@.len() - i,
            {
                let ghost rest = es@.subrange(i as int, es@.len() as int);
                assert(rest[0] == es@[i as int]);
                if es[i].0 == *name {
                    assert(entry_of(rest, name@) == es@[i as int].1);
                    return copy_value(&es[i].1);
                }
                assert(rest.drop_first() =~= es@.subrange(i + 1, es@.len() as int));
                i = i + 1;
            }
            assert(es@.subrange(i as int, es@.len() as int) =~= Seq::<(String, JsonValue)>::empty());
            JsonValue::Null
        },
    }
}

fn deser_error(m: &str) -> (e: LError)
    ensures
        e matches LError::Deserialize(t) && t@ == m@,
{
    LError::Deserialize(m.to_owned())
}

/// The table that a JSON document holds as an array of row objects
/// (`None` when its top level is not an array); see `json_doc_table`.
/// Entry names within an object are taken to be distinct, as a JSON
/// reader's map gives them.
pub fn json_table(doc: Option<Vec<JsonRow>>) -> (r: Result<K, LError>)
    ensures
        match r {
            Ok(k) => json_doc_table(
                match doc {
                    Some(rows) => Some(rows@),
                    None => None,
                },
            ) == Ok::<KV, Seq<char>>(k@),
            Err(e) => e matches LError::Deserialize(m) && json_doc_table(
                match doc {
                    Some(rows) => Some(rows@),
                    None => None,
                },
            ) == Err::<KV, Seq<char>>(m@),
        },
{
    let rows = match doc {
        None => return Err(deser_error("json: expected top-level array")),
        Some(rows) => rows,
    };
    if rows.len() == 0 {
        let t = table(Vec::new(), Vec::new());
        assert(strs(Seq::<String>::empty()) =~= Seq::empty());
        assert(kseq_view(Seq::<K>::empty()) =~= Seq::empty());
        return Ok(t);
    }
    let mut r: usize = 0;
    while r < rows.len()
        invariant
            doc == Some(rows),
            r <= rows@.len(),
            forall|t: int| 0 <= t < r ==> !((#[trigger] rows@[t]) is NotObject),
        decreases rows@.len() - r,
    {
        if let JsonRow::NotObject = &rows[r] {
            assert(rows@[r as int] is NotObject);
            return Err(deser_error("json: rows must be objects"));
        }
        r = r + 1;
    }
    let ghost rs = rows@;
    let mut names: Vec<String> = Vec::new();
    match &rows[0] {
        JsonRow::Object(es) => {
            let mut i: usize = 0;
            while i < es.len()
                invariant
                    i <= es@.len(),
                    names@.len() == i,
                    forall|t: int| 0 <= t < i ==> (#[trigger] names@[t])@ == es@[t].0@,
                decreases es@.len() - i,
            {
                names.push(clone_text(&es[i].0));
                i = i + 1;
            }
        },
        JsonRow::NotObject => {},
    }
    let ghost keys = row_keys(rs[0]);
    assert(strs(names@) =~= keys);
    let mut kcols: Vec<K> = Vec::new();
    let mut j: usize = 0;
    while j < names.len()
        invariant
            rs == rows@,
            rs.len() > 0,
            j <= names@.len(),
            strs(names@) == keys,
            kcols@.len() == j,
            forall|t: int|
                0 <= t < j ==> (#[trigger] kcols@[t])@ == json_infer_kv(
                    Seq::new(rs.len(), |q: int| row_value(rs[q], keys[t])),
                ),
        decreases names@.len() - j,
    {
        let mut col: Vec<JsonValue> = Vec::new();
        let mut q: usize = 0;
        while q < rows.len()
            invariant
                rs == rows@,
                q <= rs.len(),
                j < names@.len(),
                col@.len() == q,
                forall|t: int| 0 <= t < q ==> #[trigger] col@[t] == row_value(rs[t], names@[j as int]@),
            decreases rs.len() - q,
        {
            let v = lookup(&rows[q], &names[j]);
            col.push(v);
            q = q + 1;
        }
        assert(col@ =~= Seq::new(rs.len(), |q: int| row_value(rs[q], keys[j as int])));
        let k = infer(col);
        kcols.push(k);
        j = j + 1;
    }
    let t = table(names, kcols);
    proof {
        crate::k::lemma_kseq_view(kcols@);
        assert(kseq_view(kcols@) =~= Seq::new(
            keys.len(),
            |j: int| json_infer_kv(Seq::new(rs.len(), |r: int| row_value(rs[r], keys[j]))),
        ));
    }
    Ok(t)
}

fn json_col_ok(c: &K, nrows: usize) -> (b: bool)
    ensures
        b == (forall|r: int| 0 <= r < nrows ==> #[trigger] json_cell_ok(c@, r)),
{
    if nrows == 0 {
        return true;
    }
    let t = c.type_tag();
    let whole = match c {
        K::MonthVec(_) => true,
        K::MinuteVec(_) => true,
        K::SecondVec(_) => true,
        K::TimespanVec(_) => true,
        _ => !(0 < t && t < 20),
    };
    if whole {
        let ok = crate::render::spans_check(c);
        proof {
            if !ok {
                assert(!json_cell_ok(c@, 0));
            } else {
                assert forall|r: int| 0 <= r < nrows implies #[trigger] json_cell_ok(c@, r) by {}
            }
        }
        ok
    } else {
        let ok = c.len() >= nrows;
        proof {
            if !ok {
                assert(!json_cell_ok(c@, (nrows - 1) as int));
            } else {
                assert forall|r: int| 0 <= r < nrows implies #[trigger] json_cell_ok(c@, r) by {}
            }
        }
        ok
    }
}

/// Whether table `k` can be written out as JSON rows (see `json_writable`).
pub fn json_writable_check(k: &K) -> (b: bool)
    ensures
        b == json_writable(k@),
{
    proof {
        reveal_with_fuel(K::view, 2);
    }
    if let K::Table(d) = k {
        if let K::Dict(..) = &**d {
        } else {
            return false;
        }
    }
    let (names, data) = match unwrap_table(k, "json write") {
        Err(_) => return true,
        Ok(p) => p,
    };
    let ghost cols = kseq_view(data@);
    let ghost ns = strs(names@);
    proof {
        crate::k::lemma_kseq_view(data@);
    }
    let nrows = if data.len() == 0 {
        0
    } else {
        data[0].len()
    };
    let mut j: usize = 0;
    while j < data.len()
        invariant
            table_parts(k@, "json write"@) == Ok::<_, Seq<char>>((ns, cols)),
            !table_malformed(k@),
            cols == kseq_view(data@),
            cols.len() == data@.len(),
            forall|t: int| 0 <= t < data@.len() ==> #[trigger] cols[t] == data@[t]@,
            nrows == first_count(cols),
            j <= data@.len(),
            forall|q: int, r: int|
                0 <= q < j && 0 <= r < nrows ==> #[trigger] json_cell_ok(cols[q], r),
        decreases data@.len() - j,
    {
        if !json_col_ok(&data[j], nrows) {
            proof {
                let r = choose|r: int| 0 <= r < nrows && !json_cell_ok(data@[j as int]@, r);
                assert(!json_cell_ok(cols[j as int], r));
            }
            return false;
        }
        j = j + 1;
    }
    true
}

/// What `serde_json` makes of a document: the rows of a top-level array
/// (`None` when the top level is not an array), or the parser's error
/// text.
pub uninterp spec fn json_doc(bytes: Seq<u8>) -> Result<Option<Seq<JsonRow>>, Seq<char>>;

/// `serde_json::Value`, carried only from the parser to `json_value`.
#[verifier::external_type_specification]
#[verifier::external_body]
pub struct ExValue(Value);

/// A `serde_json::Value` as the column typing reads it: a number by its
/// `as_i64`, `is_u64`, the bits of its `as_f64` and its `to_string`; an
/// array or object by its `to_string`. Nothing is claimed of the result:
/// its callers only hand it on inside `json_document`'s result.
#[verifier::external_body]
fn json_value(v: Value) -> JsonValue {
    match v {
        Value::Null => JsonValue::Null,
        Value::Bool(b) => JsonValue::Bool(b),
        Value::Number(n) => JsonValue::Number(
            JsonNumber { int: n.as_i64(), is_u64: n.is_u64(), bits: n.as_f64().map(|x| x.to_bits()), text: n.to_string() },
        ),
        Value::String(t) => JsonValue::Str(t),
        other => JsonValue::Other(other.to_string()),
    }
}

/// `serde_json::from_slice::<Value>(bytes)`: the elements of a top-level
/// array, an object as its entries in its map's order and each value
/// through `json_value`, anything else as `NotObject`; `None` when the
/// top level is not an array; the parser's error text. Nothing is claimed
/// of the result but that it is the name `json_doc` of the bytes: the
/// parse depends on them alone.
#[verifier::external_body]
pub fn json_document(bytes: &[u8]) -> (r: Result<Option<Vec<JsonRow>>, String>)
    ensures
        match r {
            Ok(Some(rows)) => json_doc(bytes@) == Ok::<_, Seq<char>>(Some(rows@)),
            Ok(None) => json_doc(bytes@) == Ok::<Option<Seq<JsonRow>>, Seq<char>>(None),
            Err(m) => json_doc(bytes@) == Err::<Option<Seq<JsonRow>>, Seq<char>>(m@),
        },
{
    let row = |r: Value| match r {
        Value::Object(m) => JsonRow::Object(m.into_iter().map(|(k, v)| (k, json_value(v))).collect()),
        _ => JsonRow::NotObject,
    };
    match serde_json::from_slice::<Value>(bytes) {
        Ok(Value::Array(rows)) => Ok(Some(rows.into_iter().map(row).collect())),
        Ok(_) => Ok(None),
        Err(e) => Err(e.to_string()),
    }
}

/// The table read from the bytes of a JSON document, or the error text:
/// a parse error as `json parse: ` and the parser's text, else what
/// `json_doc_table` makes of the document.
pub open spec fn json_read(bytes: Seq<u8>) -> Result<KV, Seq<char>> {
    match json_doc(bytes) {
        Err(m) => Err("json parse: "@ + m),
        Ok(doc) => json_doc_table(doc),
    }
}

/// The table that the bytes of a JSON document (an array of row objects)
/// hold; see `json_read`.
pub fn read_json_bytes(bytes: &[u8]) -> (r: Result<K, LError>)
    ensures
        match r {
            Ok(k) => json_read(bytes@) == Ok::<KV, Seq<char>>(k@),
            Err(e) => e matches LError::Deserialize(m) && json_read(bytes@) == Err::<KV, Seq<char>>(
                m@,
            ),
        },
{
    match json_document(bytes) {
        Err(m) => {
            let mut t = "json parse: ".to_owned();
            push_str(&mut t, m.as_str());
            proof {
                reveal_strlit("json parse: ");
            }
            Err(LError::Deserialize(t))
        },
        Ok(doc) => json_table(doc),
    }
}

/// Law: what each cell of a typed JSON column holds. In a float column a
/// null is the null float (the quiet NaN `0x7ff8_0000_0000_0000`) and a
/// number its `f64` value; in a long column a null is 0 and a number that
/// fits `i64` its value; in a boolean column a null is false and a boolean
/// itself; in a symbol column a string is its text and a null is empty.
/// The column has one element per cell.
pub proof fn lemma_json_column_cells(cells: Seq<JsonValue>, i: int)
    requires
        0 <= i < cells.len(),
    ensures
        json_infer_kv(cells) matches KV::Vector(kind, vs) ==> vs.len() == cells.len() && (
        kind == Kind::Float || kind == Kind::Long || kind == Kind::Bool),
        json_infer_kv(cells) matches KV::SymbolVec(ss) ==> ss.len() == cells.len(),
        json_infer_kv(cells) matches KV::Vector(Kind::Float, vs) ==> {
            &&& cells[i] is Null ==> vs[i] == 0x7ff8_0000_0000_0000
            &&& cells[i] matches JsonValue::Number(n) ==> n.bits matches Some(b) && vs[i] == b
            &&& (cells[i] is Null || cells[i] is Number)
        },
        json_infer_kv(cells) matches KV::Vector(Kind::Long, vs) ==> {
            &&& cells[i] is Null ==> vs[i] == 0
            &&& cells[i] matches JsonValue::Number(n) ==> (n.int matches Some(x) ==> vs[i] == x)
            &&& (cells[i] is Null || cells[i] is Number)
        },
        json_infer_kv(cells) matches KV::Vector(Kind::Bool, vs) ==> {
            &&& cells[i] is Null ==> vs[i] == 0
            &&& cells[i] matches JsonValue::Bool(b) ==> vs[i] == (if b { 1int } else { 0int })
            &&& (cells[i] is Null || cells[i] is Bool)
        },
        json_infer_kv(cells) matches KV::SymbolVec(ss) ==> {
            &&& cells[i] is Null ==> ss[i] == Seq::<char>::empty()
            &&& cells[i] matches JsonValue::Str(t) ==> ss[i] == t@
        },
{
    assert(NULL_FLOAT_BITS == 0x7ff8_0000_0000_0000u64);
}

/// A number that is not whole.
pub open spec fn is_fraction(v: JsonValue) -> bool {
    v matches JsonValue::Number(n) && n.int is None && !n.is_u64
}

/// Law: how a JSON column is typed. All nulls give empty symbols;
/// booleans (with nulls) a boolean column; numbers that all fit `i64`
/// (with nulls) a long column; numbers of which one is not whole (with
/// nulls) a float column; a string or a nested array or object anywhere
/// a symbol column.
pub proof fn lemma_json_column_kind(cells: Seq<JsonValue>)
    ensures
        (forall|i: int| 0 <= i < cells.len() ==> (#[trigger] cells[i]) is Null) ==> json_infer_kv(
            cells,
        ) is SymbolVec,
        (exists|i: int| 0 <= i < cells.len() && (#[trigger] cells[i]) is Bool) && (forall|i: int|
            0 <= i < cells.len() ==> (#[trigger] cells[i]) is Null || cells[i] is Bool)
            ==> json_infer_kv(cells) matches KV::Vector(Kind::Bool, _),
        (exists|i: int| 0 <= i < cells.len() && (#[trigger] cells[i]) is Number) && (forall|i: int|
            0 <= i < cells.len() ==> (#[trigger] cells[i]) is Null || (cells[i] matches JsonValue::Number(
                n,
            ) && n.int is Some)) ==> json_infer_kv(cells) matches KV::Vector(Kind::Long, _),
        (exists|i: int|
            0 <= i < cells.len() && is_fraction(#[trigger] cells[i])) && (forall|i: int|
            0 <= i < cells.len() ==> (#[trigger] cells[i]) is Null || (cells[i] matches JsonValue::Number(
                n,
            ) && n.bits is Some)) ==> json_infer_kv(cells) matches KV::Vector(Kind::Float, _),
        (exists|i: int| 0 <= i < cells.len() && ((#[trigger] cells[i]) is Str || cells[i] is Other))
            ==> json_infer_kv(cells) is SymbolVec,
{
    if exists|i: int| 0 <= i < cells.len() && (#[trigger] cells[i]) is Bool {
        let i = choose|i: int| 0 <= i < cells.len() && (#[trigger] cells[i]) is Bool;
        assert(!all_null(cells));
        assert(!all_whole(cells));
        assert(!all_number(cells));
    }
    if exists|i: int| 0 <= i < cells.len() && (#[trigger] cells[i]) is Number {
        let i = choose|i: int| 0 <= i < cells.len() && (#[trigger] cells[i]) is Number;
        assert(!all_null(cells));
        assert(!all_bool(cells));
    }
    if exists|i: int| 0 <= i < cells.len() && is_fraction(#[trigger] cells[i]) {
        let i = choose|i: int| 0 <= i < cells.len() && is_fraction(#[trigger] cells[i]);
        assert(!all_null(cells));
        assert(!all_bool(cells));
        assert(!all_whole(cells));
    }
    if exists|i: int| 0 <= i < cells.len() && ((#[trigger] cells[i]) is Str || cells[i] is Other) {
        let i = choose|i: int| 0 <= i < cells.len() && ((#[trigger] cells[i]) is Str || cells[i] is Other);
        assert(!all_null(cells));
        assert(!all_bool(cells));
        assert(!all_whole(cells));
        assert(!all_number(cells));
    }
}

/// What a JSON reader gives back for row `r` of a long, boolean or symbol
/// column: the same number (whole), the same boolean, the same string.
pub open spec fn reads_as(v: JsonValue, col: KV, r: int) -> bool {
    match col {
        KV::Vector(kind, vs) => if kind == Kind::Long {
            v matches JsonValue::Number(n) && n.int == Some(vs[r] as i64)
        } else if kind == Kind::Bool {
            v == JsonValue::Bool(vs[r] == 1)
        } else {
            false
        },
        KV::SymbolVec(ss) => v matches JsonValue::Str(s) && s@ == ss[r],
        _ => false,
    }
}

proof fn lemma_entry_at(es: Seq<(String, JsonValue)>, names: Seq<Seq<char>>, j: int)
    requires
        es.len() == names.len(),
        0 <= j < names.len(),
        forall|k: int| 0 <= k < es.len() ==> (#[trigger] es[k]).0@ == names[k],
        forall|a: int, b: int| 0 <= a < b < names.len() ==> names[a] != names[b],
    ensures
        entry_of(es, names[j]) == es[j].1,
    decreases j,
{
    if j > 0 {
        let rest = es.drop_first();
        assert(es[0].0@ == names[0]);
        assert(names[0] != names[j]);
        lemma_entry_at(rest, names.drop_first(), j - 1);
        assert(rest[j - 1] == es[j]);
    }
}

/// A long, boolean or symbol column of `n` elements, each a value of its
/// type.
pub open spec fn scalar_column(col: KV, n: int) -> bool {
    match col {
        KV::SymbolVec(ss) => ss.len() == n,
        KV::Vector(kind, vs) => vs.len() == n && (if kind == Kind::Long {
            forall|i: int| 0 <= i < n ==> i64::MIN <= #[trigger] vs[i] <= i64::MAX
        } else if kind == Kind::Bool {
            forall|i: int| 0 <= i < n ==> #[trigger] vs[i] == 0 || vs[i] == 1
        } else {
            false
        }),
        _ => false,
    }
}

/// Row `r` read back: an object with one entry per column name, in column
/// order, each reading as its cell.
pub open spec fn row_reads_as(row: JsonRow, names: Seq<Seq<char>>, cols: Seq<KV>, r: int) -> bool {
    match row {
        JsonRow::Object(es) => es@.len() == names.len() && forall|j: int|
            0 <= j < names.len() ==> (#[trigger] es@[j]).0@ == names[j] && reads_as(
                es@[j].1,
                cols[j],
                r,
            ),
        JsonRow::NotObject => false,
    }
}

/// Law: long, boolean and symbol columns come back from their row objects
/// as they went: when every row is an object holding, in column order,
/// an entry per (distinct) column name that reads as its cell, the table
/// read is the table written.
pub proof fn lemma_scalar_columns_read_back(names: Seq<Seq<char>>, cols: Seq<KV>, rows: Seq<JsonRow>)
    requires
        names.len() == cols.len(),
        rows.len() > 0,
        forall|a: int, b: int| 0 <= a < b < names.len() ==> names[a] != names[b],
        forall|j: int| 0 <= j < cols.len() ==> scalar_column(#[trigger] cols[j], rows.len() as int),
        forall|r: int| 0 <= r < rows.len() ==> row_reads_as(#[trigger] rows[r], names, cols, r),
    ensures
        json_doc_table(Some(rows)) == Ok::<KV, Seq<char>>(table_kv(names, cols)),
{
    assert(!(exists|r: int| 0 <= r < rows.len() && (#[trigger] rows[r]) is NotObject));
    let keys = row_keys(rows[0]);
    assert(keys =~= names);
    assert forall|j: int| 0 <= j < names.len() implies json_infer_kv(
        Seq::new(rows.len(), |r: int| row_value(rows[r], keys[j])),
    ) == #[trigger] cols[j] by {
        let cells = Seq::new(rows.len(), |r: int| row_value(rows[r], keys[j]));
        assert forall|r: int| 0 <= r < rows.len() implies reads_as(#[trigger] cells[r], cols[j], r) by {
            let es = rows[r]->Object_0@;
            lemma_entry_at(es, names, j);
            assert(es[j].0@ == names[j]);
        }
        assert(!all_null(cells)) by {
            assert(reads_as(cells[0], cols[j], 0));
        }
        match cols[j] {
            KV::SymbolVec(ss) => {
                assert(!all_bool(cells)) by {
                    assert(reads_as(cells[0], cols[j], 0));
                }
                assert(!all_whole(cells)) by {
                    assert(reads_as(cells[0], cols[j], 0));
                }
                assert(!all_number(cells)) by {
                    assert(reads_as(cells[0], cols[j], 0));
                }
                assert(Seq::new(cells.len(), |i: int| value_text(cells[i])) =~= ss) by {
                    assert forall|i: int| 0 <= i < ss.len() implies value_text(cells[i]) == ss[i] by {
                        assert(reads_as(cells[i], cols[j], i));
                    }
                }
            },
            KV::Vector(kind, vs) => {
                if kind == Kind::Bool {
                    assert(all_bool(cells)) by {
                        assert forall|i: int| 0 <= i < cells.len() implies #[trigger] cells[i] is Null
                            || cells[i] is Bool by {
                            assert(reads_as(cells[i], cols[j], i));
                        }
                    }
                    assert(Seq::new(cells.len(), |i: int| bool_of(cells[i])) =~= vs) by {
                        assert forall|i: int| 0 <= i < vs.len() implies bool_of(cells[i]) == vs[i] by {
                            assert(reads_as(cells[i], cols[j], i));
                            assert(vs[i] == 0 || vs[i] == 1);
                        }
                    }
                } else {
                    assert(!all_bool(cells)) by {
                        assert(reads_as(cells[0], cols[j], 0));
                    }
                    assert(all_whole(cells)) by {
                        assert forall|i: int| 0 <= i < cells.len() implies #[trigger] cells[i] is Null
                            || (cells[i] matches JsonValue::Number(n) && is_whole(n)) by {
                            assert(reads_as(cells[i], cols[j], i));
                        }
                    }
                    assert(Seq::new(cells.len(), |i: int| long_of(cells[i])) =~= vs) by {
                        assert forall|i: int| 0 <= i < vs.len() implies long_of(cells[i]) == vs[i] by {
                            assert(reads_as(cells[i], cols[j], i));
                            assert(i64::MIN <= vs[i] <= i64::MAX);
                        }
                    }
                }
            },
            _ => {},
        }
    }
    assert(Seq::new(
        keys.len(),
        |j: int| json_infer_kv(Seq::new(rows.len(), |r: int| row_value(rows[r], keys[j]))),
    ) =~= cols);
}

} // verus!
