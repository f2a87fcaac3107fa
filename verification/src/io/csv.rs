//! CSV cells and column typing. Cells use interop-friendly spellings (ISO
//! dates, decimal numbers, plain strings); reading types each column by
//! the first of Long, Float, Date, Time that fits every non-blank cell,
//! else Symbol.

use vstd::prelude::*;
use vstd::utf8::*;

use crate::error::LError;
use crate::io::temporal::{
    date_iso_spec, date_iso_text, fmt_date, fmt_timestamp, parse_date_iso, parse_time_iso,
    time_iso_panics, time_iso_spec, timestamp_iso_text,
};
use crate::io::{table, table_kv, table_malformed, table_parts, unwrap_table};
use crate::k::{K, KV, Kind, count_of, kseq_view, strs};
use crate::literal::{fmt_minute, fmt_second, fmt_time, minute_text, second_text, time_text};
use crate::num::{parse_i64, parse_i64_spec};
use crate::render::{FloatBits, float_free, k_text, k_text_in, render, spans_ok, spells};
use crate::types::NULL_FLOAT_BITS;
use crate::text::{dec_int, push_char, push_int, push_str};

verus! {

/// A one-byte string read leniently: ASCII as itself, any other byte as
/// the replacement character.
pub open spec fn byte_text(b: int) -> Seq<char> {
    if 0 <= b < 128 {
        seq![(b as u8) as char]
    } else {
        seq!['\u{FFFD}']
    }
}

/// Kinds whose columns are spelled element by element; the others print
/// the whole column.
pub open spec fn per_element(kind: Kind) -> bool {
    !(kind == Kind::Month || kind == Kind::Timespan)
}

/// The floating-point payload of element `i`, for float columns.
pub open spec fn float_at(col: KV, i: int) -> Option<FloatBits> {
    match col {
        KV::Vector(kind, vs) => match kind {
            Kind::Real => Some(FloatBits::Real(vs[i] as u32)),
            Kind::Float => Some(FloatBits::Float(vs[i] as u64)),
            Kind::DateTime => Some(FloatBits::DateTime(vs[i] as u64)),
            _ => None,
        },
        _ => None,
    }
}

/// A column printed whole in each of its cells.
pub open spec fn falls_back(col: KV) -> bool {
    match col {
        KV::Vector(kind, _) => !per_element(kind),
        KV::SymbolVec(_) => false,
        _ => true,
    }
}

/// The cell spelling of element `i` of `col` (float columns aside).
pub open spec fn cell_text(col: KV, i: int) -> Seq<char> {
    match col {
        KV::Vector(kind, vs) => match kind {
            Kind::Bool => if vs[i] == 1 {
                "true"@
            } else {
                "false"@
            },
            Kind::Byte | Kind::Short | Kind::Int | Kind::Long => dec_int(vs[i]),
            Kind::Char => byte_text(vs[i]),
            Kind::Date => date_iso_text(vs[i]),
            Kind::Time => time_text(vs[i]),
            Kind::Timestamp => timestamp_iso_text(vs[i]),
            Kind::Minute => minute_text(vs[i]),
            Kind::Second => second_text(vs[i]),
            _ => k_text(col),
        },
        KV::SymbolVec(ss) => ss[i],
        _ => k_text(col),
    }
}

/// Element `i` exists where cells are spelled per element, and the whole
/// column can be printed where they are not.
pub open spec fn cell_ok(col: KV, i: int) -> bool {
    match col {
        KV::Vector(kind, vs) => if per_element(kind) {
            0 <= i < vs.len()
        } else {
            spans_ok(col)
        },
        KV::SymbolVec(ss) => 0 <= i < ss.len(),
        _ => spans_ok(col),
    }
}

/// `s` spells element `i` of `col`: a float by `plain`, anything else by
/// `cell_text` (a whole column printed with floats in it aside).
pub open spec fn cell_spelled<F: Fn(FloatBits) -> String>(col: KV, i: int, s: String, plain: F) -> bool {
    match float_at(col, i) {
        Some(x) => plain.ensures((x,), s),
        None => (falls_back(col) && !float_free(col)) || s@ == cell_text(col, i),
    }
}

fn byte_cell(b: u8) -> (s: String)
    ensures
        s@ == byte_text(b as int),
{
    let mut s = String::new();
    if b < 128 {
        push_char(&mut s, b as char);
    } else {
        push_char(&mut s, '\u{FFFD}');
    }
    s
}

fn int_cell(v: i64) -> (s: String)
    ensures
        s@ == dec_int(v as int),
{
    let mut s = String::new();
    push_int(&mut s, v);
    s
}

/// Element `i` of `col` as a CSV cell. `plain` spells the floats of a
/// float column; `shown` those of a column printed whole.
pub fn cell<F: Fn(FloatBits) -> String, G: Fn(FloatBits) -> String>(
    col: &K,
    i: usize,
    plain: &F,
    shown: &G,
) -> (s: String)
    requires
        cell_ok(col@, i as int),
        forall|x: FloatBits| #[trigger] plain.requires((x,)),
        forall|x: FloatBits| #[trigger] shown.requires((x,)),
    ensures
        cell_spelled(col@, i as int, s, *plain),
        falls_back(col@) ==> forall|sp: spec_fn(FloatBits) -> Seq<char>|
            spells(*shown, sp) ==> s@ == k_text_in(col@, sp),
{
    match col {
        K::BoolVec(v) => if v[i] {
            "true".to_owned()
        } else {
            "false".to_owned()
        },
        K::ByteVec(v) => int_cell(v[i] as i64),
        K::ShortVec(v) => int_cell(v[i] as i64),
        K::IntVec(v) => int_cell(v[i] as i64),
        K::LongVec(v) => int_cell(v[i]),
        K::RealVec(v) => plain(FloatBits::Real(v[i])),
        K::FloatVec(v) => plain(FloatBits::Float(v[i])),
        K::CharVec(v) => byte_cell(v[i]),
        K::SymbolVec(v) => v[i].clone(),
        K::DateVec(v) => fmt_date(v[i]),
        K::TimeVec(v) => fmt_time(v[i]),
        K::DateTimeVec(v) => plain(FloatBits::DateTime(v[i])),
        K::TimestampVec(v) => fmt_timestamp(v[i]),
        K::MinuteVec(v) => fmt_minute(v[i]),
        K::SecondVec(v) => fmt_second(v[i]),
        _ => render(col, shown),
    }
}

/// Rows of a table: as many as its first column has elements.
pub open spec fn first_count(cols: Seq<KV>) -> int {
    if cols.len() == 0 {
        0
    } else {
        count_of(cols[0])
    }
}

/// Every cell of every row can be spelled.
pub open spec fn rows_ok(cols: Seq<KV>) -> bool {
    forall|j: int, r: int|
        0 <= j < cols.len() && 0 <= r < first_count(cols) ==> #[trigger] cell_ok(cols[j], r)
}

/// The columns of a table fit to be written out row by row.
pub open spec fn writable(k: KV, ctx: Seq<char>) -> bool {
    !table_malformed(k) && (table_parts(k, ctx) matches Ok((_, cols)) ==> rows_ok(cols))
}

/// Row `r` of `cols`, cell by cell.
fn row<F: Fn(FloatBits) -> String, G: Fn(FloatBits) -> String>(
    cols: &Vec<K>,
    r: usize,
    plain: &F,
    shown: &G,
) -> (out: Vec<String>)
    requires
        forall|j: int| 0 <= j < cols@.len() ==> cell_ok(#[trigger] cols@[j]@, r as int),
        forall|x: FloatBits| #[trigger] plain.requires((x,)),
        forall|x: FloatBits| #[trigger] shown.requires((x,)),
    ensures
        out@.len() == cols@.len(),
        forall|j: int|
            0 <= j < cols@.len() ==> cell_spelled(cols@[j]@, r as int, #[trigger] out@[j], *plain),
{
    let mut out: Vec<String> = Vec::new();
    let mut j: usize = 0;
    while j < cols.len()
        invariant
            j <= cols@.len(),
            out@.len() == j,
            forall|t: int| 0 <= t < cols@.len() ==> cell_ok(#[trigger] cols@[t]@, r as int),
            forall|x: FloatBits| #[trigger] plain.requires((x,)),
            forall|x: FloatBits| #[trigger] shown.requires((x,)),
            forall|t: int|
                0 <= t < j ==> cell_spelled(cols@[t]@, r as int, #[trigger] out@[t], *plain),
        decreases cols@.len() - j,
    {
        let c = cell(&cols[j], r, plain, shown);
        out.push(c);
        j = j + 1;
    }
    out
}

/// The header and the rows of cells that a CSV file of table `k` holds:
/// one row per element of the first column.
pub fn csv_rows<F: Fn(FloatBits) -> String, G: Fn(FloatBits) -> String>(
    k: &K,
    plain: &F,
    shown: &G,
) -> (r: Result<(Vec<String>, Vec<Vec<String>>), LError>)
    requires
        writable(k@, "csv write"@),
        forall|x: FloatBits| #[trigger] plain.requires((x,)),
        forall|x: FloatBits| #[trigger] shown.requires((x,)),
    ensures
        match r {
            Ok((names, rows)) => table_parts(k@, "csv write"@) matches Ok((n, cols)) && strs(
                names@,
            ) == n && rows@.len() == first_count(cols) && forall|i: int|
                0 <= i < rows@.len() ==> (#[trigger] rows@[i])@.len() == cols.len() && forall|
                    j: int,
                | 0 <= j < cols.len() ==> cell_spelled(cols[j], i, #[trigger] rows@[i]@[j], *plain),
            Err(e) => e matches LError::Type(m) && table_parts(k@, "csv write"@) == Err::<
                (Seq<Seq<char>>, Seq<KV>),
                _,
            >(m@),
        },
{
    let (names, data) = match unwrap_table(k, "csv write") {
        Ok(p) => p,
        Err(e) => return Err(e),
    };
    let ghost cols = kseq_view(data@);
    proof {
        crate::k::lemma_kseq_view(data@);
    }
    let nrows = if data.len() == 0 {
        0
    } else {
        data[0].len()
    };
    let mut rows: Vec<Vec<String>> = Vec::new();
    let mut i: usize = 0;
    while i < nrows
        invariant
            i <= nrows,
            nrows == first_count(cols),
            cols == kseq_view(data@),
            cols.len() == data@.len(),
            forall|t: int| 0 <= t < data@.len() ==> #[trigger] cols[t] == data@[t]@,
            rows_ok(cols),
            forall|x: FloatBits| #[trigger] plain.requires((x,)),
            forall|x: FloatBits| #[trigger] shown.requires((x,)),
            rows@.len() == i,
            forall|t: int|
                0 <= t < i ==> (#[trigger] rows@[t])@.len() == cols.len() && forall|j: int|
                    0 <= j < cols.len() ==> cell_spelled(cols[j], t, #[trigger] rows@[t]@[j], *plain),
        decreases nrows - i,
    {
        assert forall|j: int| 0 <= j < data@.len() implies cell_ok(
            #[trigger] data@[j]@,
            i as int,
        ) by {
            assert(cell_ok(cols[j], i as int));
        }
        let one = row(data, i, plain, shown);
        rows.push(one);
        i = i + 1;
    }
    Ok((names, rows))
}

/// The cells of column `j`: field `j` of every record that has one.
pub open spec fn column_of(recs: Seq<Seq<Seq<char>>>, j: int) -> Seq<Seq<char>>
    decreases recs.len(),
{
    if recs.len() == 0 {
        Seq::empty()
    } else {
        let p = column_of(recs.drop_last(), j);
        if j < recs.last().len() {
            p.push(recs.last()[j])
        } else {
            p
        }
    }
}

/// Records as text.
pub open spec fn records_text(recs: Seq<Vec<String>>) -> Seq<Seq<Seq<char>>> {
    recs.map_values(|r: Vec<String>| strs(r@))
}

fn gather(recs: &Vec<Vec<String>>, j: usize) -> (col: Vec<String>)
    ensures
        strs(col@) == column_of(records_text(recs@), j as int),
{
    let mut col: Vec<String> = Vec::new();
    let mut r: usize = 0;
    while r < recs.len()
        invariant
            r <= recs@.len(),
            strs(col@) == column_of(records_text(recs@.subrange(0, r as int)), j as int),
        decreases recs@.len() - r,
    {
        let ghost before = col@;
        let ghost pre = records_text(recs@.subrange(0, r as int));
        let ghost post = records_text(recs@.subrange(0, r + 1));
        assert(post.drop_last() =~= pre);
        assert(post.last() == strs(recs@[r as int]@));
        if j < recs[r].len() {
            let f = recs[r][j].clone();
            col.push(f);
            assert(strs(col@) =~= strs(before).push(f@));
        }
        r = r + 1;
    }
    assert(recs@.subrange(0, recs@.len() as int) =~= recs@);
    col
}

/// Record fields regrouped into `ncols` columns; a field past the last
/// column is dropped.
pub fn pivot(ncols: usize, recs: &Vec<Vec<String>>) -> (cols: Vec<Vec<String>>)
    ensures
        cols@.len() == ncols,
        forall|j: int|
            0 <= j < ncols ==> strs((#[trigger] cols@[j])@) == column_of(records_text(recs@), j),
{
    let mut cols: Vec<Vec<String>> = Vec::new();
    let mut j: usize = 0;
    while j < ncols
        invariant
            j <= ncols,
            cols@.len() == j,
            forall|t: int|
                0 <= t < j ==> strs((#[trigger] cols@[t])@) == column_of(records_text(recs@), t),
        decreases ncols - j,
    {
        let c = gather(recs, j);
        cols.push(c);
        j = j + 1;
    }
    cols
}

/// Some cell is not blank.
pub open spec fn has_nonblank(cells: Seq<Seq<char>>) -> bool {
    exists|i: int| 0 <= i < cells.len() && (#[trigger] cells[i]).len() > 0
}

/// Every non-blank cell reads as an `i64`.
pub open spec fn all_long(cells: Seq<Seq<char>>) -> bool {
    forall|i: int|
        0 <= i < cells.len() && (#[trigger] cells[i]).len() > 0 ==> parse_i64_spec(
            encode_utf8(cells[i]),
        ) is Some
}

/// Every non-blank cell reads as an `f64` (`floats[i]` holds what
/// cell `i` reads as, by its bits).
pub open spec fn all_float(cells: Seq<Seq<char>>, floats: Seq<Option<u64>>) -> bool {
    forall|i: int| 0 <= i < cells.len() && (#[trigger] cells[i]).len() > 0 ==> floats[i] is Some
}

/// Every non-blank cell reads as a date.
pub open spec fn all_date(cells: Seq<Seq<char>>) -> bool {
    forall|i: int|
        0 <= i < cells.len() && (#[trigger] cells[i]).len() > 0 ==> date_iso_spec(cells[i]) is Some
}

/// Every non-blank cell reads as a time of day.
pub open spec fn all_time(cells: Seq<Seq<char>>) -> bool {
    forall|i: int|
        0 <= i < cells.len() && (#[trigger] cells[i]).len() > 0 ==> time_iso_spec(cells[i]) is Some
}

/// Reading the cells as times, in order, stops in a panic: a non-blank
/// cell that panics comes before any that does not read.
pub open spec fn time_scan_panics(cells: Seq<Seq<char>>) -> bool {
    exists|j: int|
        0 <= j < cells.len() && (#[trigger] cells[j]).len() > 0 && time_iso_panics(cells[j])
            && forall|t: int|
            0 <= t < j && (#[trigger] cells[t]).len() > 0 ==> !time_iso_panics(cells[t])
                && time_iso_spec(cells[t]) is Some
}

/// Typing a column stops in a panic.
pub open spec fn infer_panics(cells: Seq<Seq<char>>, floats: Seq<Option<u64>>) -> bool {
    has_nonblank(cells) && !all_long(cells) && !all_float(cells, floats) && !all_date(cells)
        && time_scan_panics(cells)
}

pub open spec fn long_or_zero(c: Seq<char>) -> int {
    match parse_i64_spec(encode_utf8(c)) {
        Some(v) => v,
        None => 0,
    }
}

pub open spec fn float_or_nan(f: Option<u64>) -> int {
    match f {
        Some(b) => b as int,
        None => NULL_FLOAT_BITS as int,
    }
}

pub open spec fn date_or_zero(c: Seq<char>) -> int {
    match date_iso_spec(c) {
        Some(v) => v,
        None => 0,
    }
}

pub open spec fn time_or_zero(c: Seq<char>) -> int {
    match time_iso_spec(c) {
        Some(v) => v,
        None => 0,
    }
}

/// The column that `infer` makes of the cells.
pub open spec fn infer_kv(cells: Seq<Seq<char>>, floats: Seq<Option<u64>>) -> KV {
    if !has_nonblank(cells) {
        KV::SymbolVec(cells)
    } else if all_long(cells) {
        KV::Vector(Kind::Long, Seq::new(cells.len(), |i: int| long_or_zero(cells[i])))
    } else if all_float(cells, floats) {
        KV::Vector(Kind::Float, Seq::new(cells.len(), |i: int| float_or_nan(floats[i])))
    } else if all_date(cells) {
        KV::Vector(Kind::Date, Seq::new(cells.len(), |i: int| date_or_zero(cells[i])))
    } else if all_time(cells) {
        KV::Vector(Kind::Time, Seq::new(cells.len(), |i: int| time_or_zero(cells[i])))
    } else {
        KV::SymbolVec(cells)
    }
}

/// Law: what each cell of a typed CSV column holds. A blank cell is 0 in
/// a long, date or time column and the null float (the quiet NaN
/// `0x7ff8_0000_0000_0000`) in a float column; any other cell is what
/// `str::parse::<i64>`, the float reading, the ISO date or the ISO time
/// reading makes of it; a symbol column keeps the cells as they are.
pub proof fn lemma_csv_column_cells(cells: Seq<Seq<char>>, floats: Seq<Option<u64>>, i: int)
    requires
        0 <= i < cells.len(),
        floats.len() == cells.len(),
    ensures
        infer_kv(cells, floats) matches KV::Vector(_, vs) ==> vs.len() == cells.len(),
        infer_kv(cells, floats) matches KV::SymbolVec(ss) ==> ss == cells,
        infer_kv(cells, floats) matches KV::Vector(Kind::Long, vs) ==> if cells[i].len() == 0 {
            vs[i] == 0
        } else {
            parse_i64_spec(encode_utf8(cells[i])) == Some(vs[i])
        },
        infer_kv(cells, floats) matches KV::Vector(Kind::Float, vs) ==> if cells[i].len() == 0 {
            floats[i] is None ==> vs[i] == 0x7ff8_0000_0000_0000
        } else {
            floats[i] == Some(vs[i] as u64) && 0 <= vs[i]
        },
        infer_kv(cells, floats) matches KV::Vector(Kind::Date, vs) ==> if cells[i].len() == 0 {
            vs[i] == 0
        } else {
            date_iso_spec(cells[i]) == Some(vs[i])
        },
        infer_kv(cells, floats) matches KV::Vector(Kind::Time, vs) ==> if cells[i].len() == 0 {
            vs[i] == 0
        } else {
            time_iso_spec(cells[i]) == Some(vs[i])
        },
{
    assert(NULL_FLOAT_BITS == 0x7ff8_0000_0000_0000u64);
    if cells[i].len() == 0 {
        assert(encode_utf8(cells[i]).len() == 0);
    }
}

/// Law: how a CSV column is typed, first match winning: with no
/// non-blank cell the cells stay symbols; when every non-blank cell reads
/// as an `i64` it is a long column; else when every one reads as an `f64`
/// a float column; else when every one is an ISO date a date column; else
/// when every one is an ISO time a time column; else symbols.
pub proof fn lemma_csv_column_kind(cells: Seq<Seq<char>>, floats: Seq<Option<u64>>)
    requires
        floats.len() == cells.len(),
    ensures
        (forall|i: int| 0 <= i < cells.len() ==> (#[trigger] cells[i]).len() == 0) ==> infer_kv(
            cells,
            floats,
        ) == KV::SymbolVec(cells),
        (exists|i: int| 0 <= i < cells.len() && (#[trigger] cells[i]).len() > 0) && (forall|i: int|
            0 <= i < cells.len() && (#[trigger] cells[i]).len() > 0 ==> parse_i64_spec(
                encode_utf8(cells[i]),
            ) is Some) ==> infer_kv(cells, floats) matches KV::Vector(Kind::Long, _),
        (exists|i: int|
            0 <= i < cells.len() && (#[trigger] cells[i]).len() > 0 && parse_i64_spec(
                encode_utf8(cells[i]),
            ) is None) && (forall|i: int|
            0 <= i < cells.len() && (#[trigger] cells[i]).len() > 0 ==> floats[i] is Some) ==> infer_kv(
            cells,
            floats,
        ) matches KV::Vector(Kind::Float, _),
        (exists|i: int|
            0 <= i < cells.len() && (#[trigger] cells[i]).len() > 0 && floats[i] is None
                && parse_i64_spec(encode_utf8(cells[i])) is None) && (forall|
            i: int,
        |
            0 <= i < cells.len() && (#[trigger] cells[i]).len() > 0 ==> date_iso_spec(cells[i]) is Some)
            ==> infer_kv(cells, floats) matches KV::Vector(Kind::Date, _),
{
    if exists|i: int| 0 <= i < cells.len() && (#[trigger] cells[i]).len() > 0 && parse_i64_spec(
        encode_utf8(cells[i]),
    ) is None {
        assert(!all_long(cells));
    }
    if exists|i: int|
        0 <= i < cells.len() && (#[trigger] cells[i]).len() > 0 && floats[i] is None
            && parse_i64_spec(encode_utf8(cells[i])) is None {
        let i = choose|i: int|
            0 <= i < cells.len() && (#[trigger] cells[i]).len() > 0 && floats[i] is None
                && parse_i64_spec(encode_utf8(cells[i])) is None;
        assert(!all_float(cells, floats));
        assert(!all_long(cells));
    }
}

fn read_long(c: &String) -> (r: Option<i64>)
    ensures
        match r {
            Some(v) => parse_i64_spec(encode_utf8(c@)) == Some(v as int),
            None => parse_i64_spec(encode_utf8(c@)) is None,
        },
{
    let b = c.as_str().as_bytes();
    assert(b@.subrange(0, b@.len() as int) =~= b@);
    parse_i64(b, 0, b.len())
}

fn any_nonblank(cells: &Vec<String>) -> (b: bool)
    ensures
        b == has_nonblank(strs(cells@)),
{
    let ghost cs = strs(cells@);
    let mut i: usize = 0;
    while i < cells.len()
        invariant
            cs == strs(cells@),
            i <= cells@.len(),
            forall|t: int| 0 <= t < i ==> (#[trigger] cs[t]).len() == 0,
        decreases cells@.len() - i,
    {
        if !cells[i].as_str().is_empty() {
            assert(cs[i as int].len() > 0);
            return true;
        }
        i = i + 1;
    }
    false
}

fn check_long(cells: &Vec<String>) -> (b: bool)
    ensures
        b == all_long(strs(cells@)),
{
    let ghost cs = strs(cells@);
    let mut i: usize = 0;
    while i < cells.len()
        invariant
            cs == strs(cells@),
            i <= cells@.len(),
            forall|t: int|
                0 <= t < i && (#[trigger] cs[t]).len() > 0 ==> parse_i64_spec(encode_utf8(cs[t])) is Some,
        decreases cells@.len() - i,
    {
        if !cells[i].as_str().is_empty() && read_long(&cells[i]).is_none() {
            assert(cs[i as int].len() > 0);
            return false;
        }
        i = i + 1;
    }
    true
}

fn check_float(cells: &Vec<String>, floats: &Vec<Option<u64>>) -> (b: bool)
    requires
        floats@.len() == cells@.len(),
    ensures
        b == all_float(strs(cells@), floats@),
{
    let ghost cs = strs(cells@);
    let mut i: usize = 0;
    while i < cells.len()
        invariant
            cs == strs(cells@),
            floats@.len() == cells@.len(),
            i <= cells@.len(),
            forall|t: int| 0 <= t < i && (#[trigger] cs[t]).len() > 0 ==> floats@[t] is Some,
        decreases cells@.len() - i,
    {
        if !cells[i].as_str().is_empty() && floats[i].is_none() {
            assert(cs[i as int].len() > 0);
            return false;
        }
        i = i + 1;
    }
    true
}

fn check_date(cells: &Vec<String>) -> (b: bool)
    ensures
        b == all_date(strs(cells@)),
{
    let ghost cs = strs(cells@);
    let mut i: usize = 0;
    while i < cells.len()
        invariant
            cs == strs(cells@),
            i <= cells@.len(),
            forall|t: int| 0 <= t < i && (#[trigger] cs[t]).len() > 0 ==> date_iso_spec(cs[t]) is Some,
        decreases cells@.len() - i,
    {
        if !cells[i].as_str().is_empty() && parse_date_iso(cells[i].as_str()).is_none() {
            assert(cs[i as int].len() > 0);
            return false;
        }
        i = i + 1;
    }
    true
}

/// Every non-blank cell reads as a time of day without a panic.
pub open spec fn all_time_clean(cells: Seq<Seq<char>>) -> bool {
    forall|i: int|
        0 <= i < cells.len() && (#[trigger] cells[i]).len() > 0 ==> !time_iso_panics(cells[i])
            && time_iso_spec(cells[i]) is Some
}

fn check_time(cells: &Vec<String>) -> (b: bool)
    requires
        !time_scan_panics(strs(cells@)),
    ensures
        b == all_time(strs(cells@)),
        b ==> all_time_clean(strs(cells@)),
{
    let ghost cs = strs(cells@);
    let mut i: usize = 0;
    while i < cells.len()
        invariant
            cs == strs(cells@),
            i <= cells@.len(),
            !time_scan_panics(cs),
            forall|t: int|
                0 <= t < i && (#[trigger] cs[t]).len() > 0 ==> !time_iso_panics(cs[t])
                    && time_iso_spec(cs[t]) is Some,
        decreases cells@.len() - i,
    {
        if !cells[i].as_str().is_empty() {
            assert(cs[i as int].len() > 0);
            assert(!time_iso_panics(cs[i as int]));
            if parse_time_iso(cells[i].as_str()).is_none() {
                return false;
            }
        }
        i = i + 1;
    }
    true
}

fn longs(cells: &Vec<String>) -> (v: Vec<i64>)
    ensures
        crate::k::ints_i64(v@) == Seq::new(cells@.len(), |t: int| long_or_zero(strs(cells@)[t])),
{
    let ghost cs = strs(cells@);
    let mut v: Vec<i64> = Vec::new();
    let mut i: usize = 0;
    while i < cells.len()
        invariant
            cs == strs(cells@),
            i <= cells@.len(),
            v@.len() == i,
            forall|t: int| 0 <= t < i ==> #[trigger] v@[t] as int == long_or_zero(cs[t]),
        decreases cells@.len() - i,
    {
        let x = match read_long(&cells[i]) {
            Some(x) => x,
            None => 0,
        };
        v.push(x);
        i = i + 1;
    }
    assert(crate::k::ints_i64(v@) =~= Seq::new(cells@.len(), |t: int| long_or_zero(cs[t])));
    v
}

fn float_bits(floats: &Vec<Option<u64>>) -> (v: Vec<u64>)
    ensures
        crate::k::ints_u64(v@) == Seq::new(floats@.len(), |t: int| float_or_nan(floats@[t])),
{
    let mut v: Vec<u64> = Vec::new();
    let mut i: usize = 0;
    while i < floats.len()
        invariant
            i <= floats@.len(),
            v@.len() == i,
            forall|t: int| 0 <= t < i ==> #[trigger] v@[t] as int == float_or_nan(floats@[t]),
        decreases floats@.len() - i,
    {
        let x = match floats[i] {
            Some(x) => x,
            None => NULL_FLOAT_BITS,
        };
        v.push(x);
        i = i + 1;
    }
    assert(crate::k::ints_u64(v@) =~= Seq::new(floats@.len(), |t: int| float_or_nan(floats@[t])));
    v
}

fn dates(cells: &Vec<String>) -> (v: Vec<i32>)
    ensures
        crate::k::ints_i32(v@) == Seq::new(cells@.len(), |t: int| date_or_zero(strs(cells@)[t])),
{
    let ghost cs = strs(cells@);
    let mut v: Vec<i32> = Vec::new();
    let mut i: usize = 0;
    while i < cells.len()
        invariant
            cs == strs(cells@),
            i <= cells@.len(),
            v@.len() == i,
            forall|t: int| 0 <= t < i ==> #[trigger] v@[t] as int == date_or_zero(cs[t]),
        decreases cells@.len() - i,
    {
        let x = match parse_date_iso(cells[i].as_str()) {
            Some(x) => x,
            None => 0,
        };
        v.push(x);
        i = i + 1;
    }
    assert(crate::k::ints_i32(v@) =~= Seq::new(cells@.len(), |t: int| date_or_zero(cs[t])));
    v
}

fn times(cells: &Vec<String>) -> (v: Vec<i32>)
    requires
        all_time_clean(strs(cells@)),
    ensures
        crate::k::ints_i32(v@) == Seq::new(cells@.len(), |t: int| time_or_zero(strs(cells@)[t])),
{
    let ghost cs = strs(cells@);
    let mut v: Vec<i32> = Vec::new();
    let mut i: usize = 0;
    while i < cells.len()
        invariant
            cs == strs(cells@),
            all_time_clean(cs),
            i <= cells@.len(),
            v@.len() == i,
            forall|t: int| 0 <= t < i ==> #[trigger] v@[t] as int == time_or_zero(cs[t]),
        decreases cells@.len() - i,
    {
        let x = if cells[i].as_str().is_empty() {
            proof {
                assert(time_iso_spec(cs[i as int]) is None) by {
                    assert(cs[i as int].len() == 0);
                    assert(encode_utf8(crate::io::temporal::trim_ws(cs[i as int])).len() == 0) by {
                        assert(cs[i as int] =~= Seq::<char>::empty());
                        crate::io::temporal::lemma_trim_empty();
                    }
                }
            }
            0
        } else {
            assert(cs[i as int].len() > 0);
            match parse_time_iso(cells[i].as_str()) {
                Some(x) => x,
                None => 0,
            }
        };
        v.push(x);
        i = i + 1;
    }
    assert(crate::k::ints_i32(v@) =~= Seq::new(cells@.len(), |t: int| time_or_zero(cs[t])));
    v
}

/// A column typed from its text cells: the first of Long, Float, Date and
/// Time that reads every non-blank cell, else Symbol (also when every
/// cell is blank). Cells that do not read become 0 (NaN for Float).
/// `floats[i]` is what cell `i` reads as as an `f64`, by its bits.
pub fn infer(cells: Vec<String>, floats: &Vec<Option<u64>>) -> (k: K)
    requires
        floats@.len() == cells@.len(),
        !infer_panics(strs(cells@), floats@),
    ensures
        k@ == infer_kv(strs(cells@), floats@),
{
    if !any_nonblank(&cells) {
        K::SymbolVec(cells)
    } else if check_long(&cells) {
        K::LongVec(longs(&cells))
    } else if check_float(&cells, floats) {
        K::FloatVec(float_bits(floats))
    } else if check_date(&cells) {
        K::DateVec(dates(&cells))
    } else if check_time(&cells) {
        K::TimeVec(times(&cells))
    } else {
        K::SymbolVec(cells)
    }
}

/// Whether typing these cells would cut a time's fraction inside a
/// multi-byte character (where `infer` may not be called).
pub fn infer_cuts_char(cells: &Vec<String>, floats: &Vec<Option<u64>>) -> (b: bool)
    requires
        floats@.len() == cells@.len(),
    ensures
        b == infer_panics(strs(cells@), floats@),
{
    if !any_nonblank(cells) || check_long(cells) || check_float(cells, floats) || check_date(cells) {
        return false;
    }
    let ghost cs = strs(cells@);
    let mut i: usize = 0;
    while i < cells.len()
        invariant
            cs == strs(cells@),
            floats@.len() == cells@.len(),
            has_nonblank(cs) && !all_long(cs) && !all_float(cs, floats@) && !all_date(cs),
            i <= cells@.len(),
            forall|t: int|
                0 <= t < i && (#[trigger] cs[t]).len() > 0 ==> !time_iso_panics(cs[t])
                    && time_iso_spec(cs[t]) is Some,
        decreases cells@.len() - i,
    {
        if !cells[i].as_str().is_empty() {
            assert(cs[i as int].len() > 0);
            if crate::io::temporal::time_iso_cuts_char(cells[i].as_str()) {
                assert(time_scan_panics(cs));
                return true;
            }
            if parse_time_iso(cells[i].as_str()).is_none() {
                assert(!time_scan_panics(cs)) by {
                    if time_scan_panics(cs) {
                        let j = choose|j: int|
                            0 <= j < cs.len() && (#[trigger] cs[j]).len() > 0 && time_iso_panics(cs[j])
                                && forall|t: int|
                                0 <= t < j && (#[trigger] cs[t]).len() > 0 ==> !time_iso_panics(cs[t])
                                    && time_iso_spec(cs[t]) is Some;
                        if j > i {
                            assert(cs[i as int].len() > 0);
                        }
                    }
                }
                return false;
            }
        }
        i = i + 1;
    }
    assert(!time_scan_panics(cs));
    false
}

fn col_ok(c: &K, nrows: usize) -> (b: bool)
    ensures
        b == (forall|r: int| 0 <= r < nrows ==> #[trigger] cell_ok(c@, r)),
{
    if nrows == 0 {
        return true;
    }
    let t = c.type_tag();
    let whole = match c {
        K::MonthVec(_) => true,
        K::TimespanVec(_) => true,
        _ => !(0 < t && t < 20),
    };
    if whole {
        let ok = crate::render::spans_check(c);
        proof {
            if !ok {
                assert(!cell_ok(c@, 0));
            } else {
                assert forall|r: int| 0 <= r < nrows implies #[trigger] cell_ok(c@, r) by {}
            }
        }
        ok
    } else {
        let ok = c.len() >= nrows;
        proof {
            if !ok {
                assert(!cell_ok(c@, (nrows - 1) as int));
            } else {
                assert forall|r: int| 0 <= r < nrows implies #[trigger] cell_ok(c@, r) by {}
            }
        }
        ok
    }
}

/// Whether table `k` can be written out as CSV rows (see `writable`).
pub fn csv_writable(k: &K) -> (b: bool)
    ensures
        b == writable(k@, "csv write"@),
{
    proof {
        reveal_with_fuel(K::view, 2);
    }
    if let K::Table(d) = k {
        if let K::Dict(..) = &**d {
        } else {
            return false;
        }
    }
    let (names, data) = match unwrap_table(k, "csv write") {
        Err(_) => return true,
        Ok(p) => p,
    };
    let ghost cols = kseq_view(data@);
    let ghost ns = strs(names@);
    proof {
        crate::k::lemma_kseq_view(data@);
    }
    let nrows = if data.len() == 0 {
        0
    } else {
        data[0].len()
    };
    let mut j: usize = 0;
    while j < data.len()
        invariant
            table_parts(k@, "csv write"@) == Ok::<_, Seq<char>>((ns, cols)),
            !table_malformed(k@),
            cols == kseq_view(data@),
            cols.len() == data@.len(),
            forall|t: int| 0 <= t < data@.len() ==> #[trigger] cols[t] == data@[t]@,
            nrows == first_count(cols),
            j <= data@.len(),
            forall|q: int, r: int| 0 <= q < j && 0 <= r < nrows ==> #[trigger] cell_ok(cols[q], r),
        decreases data@.len() - j,
    {
        if !col_ok(&data[j], nrows) {
            proof {
                let r = choose|r: int| 0 <= r < nrows && !cell_ok(data@[j as int]@, r);
                assert(!cell_ok(cols[j as int], r));
            }
            return false;
        }
        j = j + 1;
    }
    true
}

/// Law: regrouping rows that all have `n` fields gives each column back,
/// in row order (reading undoes writing row by row).
pub proof fn lemma_pivot_rows(rows: Seq<Seq<Seq<char>>>, n: int, j: int)
    requires
        0 <= j < n,
        forall|r: int| 0 <= r < rows.len() ==> (#[trigger] rows[r]).len() == n,
    ensures
        column_of(rows, j) == Seq::new(rows.len(), |r: int| rows[r][j]),
    decreases rows.len(),
{
    if rows.len() > 0 {
        let init = rows.drop_last();
        assert forall|r: int| 0 <= r < init.len() implies (#[trigger] init[r]).len() == n by {
            assert(init[r] == rows[r]);
        }
        lemma_pivot_rows(init, n, j);
        assert(rows.last().len() == n);
        assert(column_of(rows, j) =~= Seq::new(rows.len(), |r: int| rows[r][j]));
    }
}

/// Law: the cells of a long column read back as that column.
pub proof fn lemma_long_column_reads_back(vs: Seq<int>, floats: Seq<Option<u64>>)
    requires
        vs.len() > 0,
        forall|i: int| 0 <= i < vs.len() ==> i64::MIN <= #[trigger] vs[i] <= i64::MAX,
    ensures
        infer_kv(Seq::new(vs.len(), |i: int| dec_int(vs[i])), floats) == KV::Vector(Kind::Long, vs),
{
    let cells = Seq::new(vs.len(), |i: int| dec_int(vs[i]));
    assert forall|i: int| 0 <= i < cells.len() implies (#[trigger] cells[i]).len() > 0
        && parse_i64_spec(encode_utf8(cells[i])) == Some(vs[i]) by {
        lemma_int_text(vs[i]);
    }
    assert(cells[0].len() > 0);
    assert(Seq::new(cells.len(), |i: int| long_or_zero(cells[i])) =~= vs);
}

/// Law: the cells of a date column read back as that column, for days
/// whose year has at most four characters, when no cell reads as a float
/// (`floats` all `None`, as for `YYYY-MM-DD` text).
pub proof fn lemma_date_column_reads_back(ds: Seq<int>, floats: Seq<Option<u64>>)
    requires
        ds.len() > 0,
        floats.len() == ds.len(),
        forall|i: int| 0 <= i < floats.len() ==> (#[trigger] floats[i]) is None,
        forall|i: int|
            0 <= i < ds.len() ==> i32::MIN <= #[trigger] ds[i] <= i32::MAX && -999
                <= crate::calendar::ymd_of(ds[i]).0 <= 9999,
    ensures
        infer_kv(Seq::new(ds.len(), |i: int| date_iso_text(ds[i])), floats) == KV::Vector(
            Kind::Date,
            ds,
        ),
{
    let cells = Seq::new(ds.len(), |i: int| date_iso_text(ds[i]));
    assert forall|i: int| 0 <= i < cells.len() implies (#[trigger] cells[i]).len() > 0
        && date_iso_spec(cells[i]) == Some(ds[i]) by {
        crate::io::temporal::lemma_date_text(ds[i]);
        if cells[i].len() == 0 {
            assert(encode_utf8(cells[i]) =~= Seq::<u8>::empty());
        }
    }
    crate::io::temporal::lemma_date_text(ds[0]);
    let t = encode_utf8(cells[0]);
    assert(parse_i64_spec(t) is None) by {
        if t[0] == 45 {
            assert(t.drop_first()[3] == 45);
        } else {
            assert(t[4] == 45);
        }
    }
    assert(cells[0].len() > 0);
    assert(!all_long(cells));
    assert(!all_float(cells, floats));
    assert(Seq::new(cells.len(), |i: int| date_or_zero(cells[i])) =~= ds);
}

/// A decimal is plain ASCII and reads back as its number.
proof fn lemma_int_text(v: int)
    requires
        i64::MIN <= v <= i64::MAX,
    ensures
        dec_int(v).len() > 0,
        parse_i64_spec(encode_utf8(dec_int(v))) == Some(v),
{
    assert(dec_int(v) =~= crate::text::dec_pad(v, 0));
    crate::num::lemma_parse_pad(v, 0, i64::MIN as int, i64::MAX as int);
    crate::num::lemma_pad_digits(if v < 0 { (-v) as nat } else { v as nat }, if v < 0 { -1 } else { 0 });
    crate::io::temporal::lemma_digit_text(v);
}

/// Why the CSV reader stopped: on the header row, or on a record.
#[derive(Debug, PartialEq)]
pub enum CsvFailure {
    Headers(String),
    Record(String),
}

/// What the `csv` crate's reader (headers on) makes of the bytes: the
/// header fields and every record's fields, or where it stopped (`true`
/// for the header row) with the error text.
pub uninterp spec fn csv_records_of(bytes: Seq<u8>) -> Result<
    (Seq<Seq<char>>, Seq<Seq<Seq<char>>>),
    (bool, Seq<char>),
>;

/// `csv::Reader::from_reader(bytes)`: its `headers()`, then its
/// `records()` up to the first error, each field as a string. Nothing is
/// claimed of the fields but that they are the name `csv_records_of` of
/// the bytes: the reading depends on them alone.
#[verifier::external_body]
pub fn csv_records(bytes: &[u8]) -> (r: Result<(Vec<String>, Vec<Vec<String>>), CsvFailure>)
    ensures
        match r {
            Ok((names, recs)) => csv_records_of(bytes@) == Ok::<_, (bool, Seq<char>)>(
                (strs(names@), records_text(recs@)),
            ),
            Err(CsvFailure::Headers(m)) => csv_records_of(bytes@) == Err::<
                (Seq<Seq<char>>, Seq<Seq<Seq<char>>>),
                _,
            >((true, m@)),
            Err(CsvFailure::Record(m)) => csv_records_of(bytes@) == Err::<
                (Seq<Seq<char>>, Seq<Seq<Seq<char>>>),
                _,
            >((false, m@)),
        },
{
    let mut rdr = csv::Reader::from_reader(bytes);
    let names = match rdr.headers() {
        Ok(h) => h.iter().map(String::from).collect(),
        Err(e) => return Err(CsvFailure::Headers(e.to_string())),
    };
    let mut recs = Vec::new();
    for rec in rdr.records() {
        match rec {
            Ok(fields) => recs.push(fields.iter().map(String::from).collect()),
            Err(e) => return Err(CsvFailure::Record(e.to_string())),
        }
    }
    Ok((names, recs))
}

/// `spf` gives what `parse_float` makes of every text: the bits of the
/// `f64` it reads as, or nothing.
pub open spec fn parses<P: Fn(&str) -> Option<u64>>(parse_float: P, spf: spec_fn(Seq<char>) -> Option<u64>) -> bool {
    forall|t: &str, r: Option<u64>| #[trigger] parse_float.ensures((t,), r) ==> r == spf(t@)
}

/// What each cell reads as as an `f64`, by `spf`.
pub open spec fn floats_of(cells: Seq<Seq<char>>, spf: spec_fn(Seq<char>) -> Option<u64>) -> Seq<Option<u64>> {
    Seq::new(cells.len(), |i: int| spf(cells[i]))
}

/// The table typed from CSV records under the header `names`, floats read
/// by `spf`; `None` where typing some column stops in a panic.
pub open spec fn csv_table(
    names: Seq<Seq<char>>,
    recs: Seq<Seq<Seq<char>>>,
    spf: spec_fn(Seq<char>) -> Option<u64>,
) -> Option<KV> {
    if exists|j: int|
        0 <= j < names.len() && #[trigger] infer_panics(
            column_of(recs, j),
            floats_of(column_of(recs, j), spf),
        ) {
        None
    } else {
        Some(
            table_kv(
                names,
                Seq::new(
                    names.len(),
                    |j: int| infer_kv(column_of(recs, j), floats_of(column_of(recs, j), spf)),
                ),
            ),
        )
    }
}

fn clone_cells(v: &Vec<String>) -> (r: Vec<String>)
    ensures
        r@ == v@,
{
    let mut r: Vec<String> = Vec::new();
    let mut i: usize = 0;
    while i < v.len()
        invariant
            i <= v@.len(),
            r@ == v@.subrange(0, i as int),
        decreases v@.len() - i,
    {
        let c = v[i].clone();
        r.push(c);
        assert(r@ =~= v@.subrange(0, i + 1));
        i = i + 1;
    }
    assert(v@.subrange(0, v@.len() as int) =~= v@);
    r
}

fn read_floats<P: Fn(&str) -> Option<u64>>(cells: &Vec<String>, parse_float: &P) -> (r: Vec<Option<u64>>)
    requires
        forall|t: &str| #[trigger] parse_float.requires((t,)),
    ensures
        r@.len() == cells@.len(),
        forall|spf: spec_fn(Seq<char>) -> Option<u64>|
            parses(*parse_float, spf) ==> r@ == floats_of(strs(cells@), spf),
{
    let mut r: Vec<Option<u64>> = Vec::new();
    let mut i: usize = 0;
    while i < cells.len()
        invariant
            i <= cells@.len(),
            r@.len() == i,
            forall|t: &str| #[trigger] parse_float.requires((t,)),
            forall|spf: spec_fn(Seq<char>) -> Option<u64>|
                parses(*parse_float, spf) ==> forall|t: int|
                    0 <= t < i ==> #[trigger] r@[t] == spf(cells@[t]@),
        decreases cells@.len() - i,
    {
        let f = parse_float(cells[i].as_str());
        r.push(f);
        i = i + 1;
    }
    assert forall|spf: spec_fn(Seq<char>) -> Option<u64>| parses(*parse_float, spf) implies r@
        == floats_of(strs(cells@), spf) by {
        assert(r@ =~= floats_of(strs(cells@), spf));
    }
    r
}

/// One column typed from its cells, floats read by `parse_float`; `None`
/// where typing it would stop in a panic.
fn type_column<P: Fn(&str) -> Option<u64>>(cells: &Vec<String>, parse_float: &P) -> (r: Option<K>)
    requires
        forall|t: &str| #[trigger] parse_float.requires((t,)),
    ensures
        forall|spf: spec_fn(Seq<char>) -> Option<u64>|
            parses(*parse_float, spf) ==> match r {
                None => infer_panics(strs(cells@), floats_of(strs(cells@), spf)),
                Some(k) => !infer_panics(strs(cells@), floats_of(strs(cells@), spf)) && k@
                    == infer_kv(strs(cells@), floats_of(strs(cells@), spf)),
            },
{
    let floats = read_floats(cells, parse_float);
    if infer_cuts_char(cells, &floats) {
        return None;
    }
    Some(infer(clone_cells(cells), &floats))
}

proof fn lemma_csv_table_built(
    ns: Seq<Seq<char>>,
    rs: Seq<Seq<Seq<char>>>,
    cols: Seq<KV>,
    spf: spec_fn(Seq<char>) -> Option<u64>,
)
    requires
        cols.len() == ns.len(),
        forall|t: int|
            0 <= t < ns.len() ==> !infer_panics(column_of(rs, t), floats_of(column_of(rs, t), spf))
                && #[trigger] cols[t] == infer_kv(column_of(rs, t), floats_of(column_of(rs, t), spf)),
    ensures
        csv_table(ns, rs, spf) == Some(table_kv(ns, cols)),
{
    assert(!exists|j: int|
        0 <= j < ns.len() && #[trigger] infer_panics(
            column_of(rs, j),
            floats_of(column_of(rs, j), spf),
        )) by {
        if exists|j: int|
            0 <= j < ns.len() && #[trigger] infer_panics(
                column_of(rs, j),
                floats_of(column_of(rs, j), spf),
            ) {
            let j = choose|j: int|
                0 <= j < ns.len() && #[trigger] infer_panics(
                    column_of(rs, j),
                    floats_of(column_of(rs, j), spf),
                );
            assert(cols[j] == infer_kv(column_of(rs, j), floats_of(column_of(rs, j), spf)));
        }
    }
    assert(cols =~= Seq::new(
        ns.len(),
        |j: int| infer_kv(column_of(rs, j), floats_of(column_of(rs, j), spf)),
    ));
}

fn prefixed(p: &str, m: String) -> (e: LError)
    ensures
        e matches LError::Deserialize(t) && t@ == p@ + m@,
{
    let mut t = p.to_owned();
    push_str(&mut t, m.as_str());
    LError::Deserialize(t)
}

/// The table held by the bytes of a CSV file (a header row, then one
/// record per row), each column typed by `infer`; `parse_float` reads a
/// cell as an `f64`, by its bits. A reader error is `csv headers: ` or
/// `csv record: ` and the reader's text; `Ok(None)` where typing a column
/// would stop in a panic (see `infer_cuts_char`).
pub fn read_csv_bytes<P: Fn(&str) -> Option<u64>>(bytes: &[u8], parse_float: &P) -> (r: Result<
    Option<K>,
    LError,
>)
    requires
        forall|t: &str| #[trigger] parse_float.requires((t,)),
    ensures
        match csv_records_of(bytes@) {
            Err((true, m)) => r matches Err(LError::Deserialize(t)) && t@ == "csv headers: "@ + m,
            Err((false, m)) => r matches Err(LError::Deserialize(t)) && t@ == "csv record: "@ + m,
            Ok((names, recs)) => r is Ok && forall|spf: spec_fn(Seq<char>) -> Option<u64>|
                parses(*parse_float, spf) ==> match csv_table(names, recs, spf) {
                    None => r == Ok::<Option<K>, LError>(None),
                    Some(t) => r matches Ok(Some(k)) && k@ == t,
                },
        },
{
    let (names, recs) = match csv_records(bytes) {
        Ok(p) => p,
        Err(CsvFailure::Headers(m)) => {
            proof {
                reveal_strlit("csv headers: ");
            }
            return Err(prefixed("csv headers: ", m));
        },
        Err(CsvFailure::Record(m)) => {
            proof {
                reveal_strlit("csv record: ");
            }
            return Err(prefixed("csv record: ", m));
        },
    };
    let ghost ns = strs(names@);
    let ghost rs = records_text(recs@);
    let cols = pivot(names.len(), &recs);
    let mut kcols: Vec<K> = Vec::new();
    let mut j: usize = 0;
    while j < cols.len()
        invariant
            csv_records_of(bytes@) == Ok::<_, (bool, Seq<char>)>((ns, rs)),
            cols@.len() == names@.len(),
            ns == strs(names@),
            rs == records_text(recs@),
            forall|t: int| 0 <= t < cols@.len() ==> strs((#[trigger] cols@[t])@) == column_of(rs, t),
            forall|t: &str| #[trigger] parse_float.requires((t,)),
            j <= cols@.len(),
            kcols@.len() == j,
            forall|spf: spec_fn(Seq<char>) -> Option<u64>|
                parses(*parse_float, spf) ==> forall|t: int|
                    0 <= t < j ==> !infer_panics(column_of(rs, t), floats_of(column_of(rs, t), spf))
                        && (#[trigger] kcols@[t])@ == infer_kv(
                        column_of(rs, t),
                        floats_of(column_of(rs, t), spf),
                    ),
        decreases cols@.len() - j,
    {
        let typed = type_column(&cols[j], parse_float);
        assert(strs(cols@[j as int]@) == column_of(rs, j as int));
        match typed {
            None => {
                assert forall|spf: spec_fn(Seq<char>) -> Option<u64>| parses(*parse_float, spf) implies csv_table(
                    ns,
                    rs,
                    spf,
                ) is None by {
                    assert(infer_panics(
                        column_of(rs, j as int),
                        floats_of(column_of(rs, j as int), spf),
                    ));
                }
                return Ok(None);
            },
            Some(k) => kcols.push(k),
        }
        j = j + 1;
    }
    let t = table(names, kcols);
    proof {
        crate::k::lemma_kseq_view(kcols@);
        assert forall|spf: spec_fn(Seq<char>) -> Option<u64>| parses(*parse_float, spf) implies csv_table(
            ns,
            rs,
            spf,
        ) == Some(t@) by {
            assert forall|tt: int| 0 <= tt < ns.len() implies !infer_panics(
                column_of(rs, tt),
                floats_of(column_of(rs, tt), spf),
            ) && #[trigger] kseq_view(kcols@)[tt] == infer_kv(
                column_of(rs, tt),
                floats_of(column_of(rs, tt), spf),
            ) by {
                assert(kcols@[tt]@ == kseq_view(kcols@)[tt]);
            }
            lemma_csv_table_built(ns, rs, kseq_view(kcols@), spf);
        }
    }
    Ok(Some(t))
}

} // verus!
