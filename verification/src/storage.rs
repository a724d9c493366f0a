//! What is written when observations are exported: CSV rows with
//! spreadsheet-safe text cells, and JSON rows with non-finite values removed.
//! The file writing itself (atomic, via a temporary file) belongs to the
//! caller.

use vstd::prelude::*;
use crate::chars::{append_str, push_char};
use crate::models::DataPoint;
use crate::order::{is_finite, is_finite_bits};

verus! {

/// Characters that make a spreadsheet read a cell as a formula.
pub open spec fn is_formula_start(c: char) -> bool {
    c == '=' || c == '+' || c == '-' || c == '@'
}

/// A cell that will not be read as a formula: text beginning with `=`, `+`,
/// `-` or `@` gets a leading single quote; other text is unchanged.
pub open spec fn safe_cell(s: Seq<char>) -> Seq<char> {
    if s.len() > 0 && is_formula_start(s[0]) {
        seq!['\''] + s
    } else {
        s
    }
}

/// Guards a CSV text cell against formula injection (see `safe_cell`).
pub fn csv_safe_cell(s: &str) -> (r: String)
    ensures
        r@ == safe_cell(s@),
{
    let v = crate::chars::chars_of(s);
    let mut r = String::new();
    if v.len() > 0 && (v[0] == '=' || v[0] == '+' || v[0] == '-' || v[0] == '@') {
        push_char(&mut r, '\'');
    }
    append_str(&mut r, s);
    assert(r@ =~= safe_cell(s@));
    r
}

/// A guarded cell never starts a formula, and the input text is the cell
/// with the guard quote (if one was added) removed.
pub proof fn law_safe_cell(s: Seq<char>)
    ensures
        safe_cell(s).len() > 0 ==> !is_formula_start(safe_cell(s)[0]),
        safe_cell(s) == s || (safe_cell(s)[0] == '\'' && safe_cell(s).drop_first() == s),
{
    if s.len() > 0 && is_formula_start(s[0]) {
        assert((seq!['\''] + s).drop_first() =~= s);
    }
}

/// Exactly the cells that begin with `=`, `+`, `-` or `@` are quoted: such
/// a cell gets one leading `'`, and every other text (empty, or beginning
/// with any other character, digits included) is left as it is.
pub proof fn law_only_formula_starts_are_quoted(s: Seq<char>)
    ensures
        s.len() > 0 && (s[0] == '=' || s[0] == '+' || s[0] == '-' || s[0] == '@') ==> safe_cell(s)
            == seq!['\''] + s,
        !(s.len() > 0 && (s[0] == '=' || s[0] == '+' || s[0] == '-' || s[0] == '@')) ==> safe_cell(
            s,
        ) == s,
{
}

/// A value that JSON can represent: finite values are kept, `NaN` and
/// infinities become `None`.
pub fn finite_or_none(x: Option<u64>) -> (r: Option<u64>)
    ensures
        r == match x {
            Some(v) => if is_finite_bits(v) {
                Some(v)
            } else {
                None::<u64>
            },
            None => None,
        },
{
    match x {
        Some(v) => if is_finite(v) {
            Some(v)
        } else {
            None
        },
        None => None,
    }
}

/// A CSV row of an observation, text cells guarded.
#[derive(Debug, Clone)]
pub struct CsvRow {
    pub indicator_id: String,
    pub indicator_name: String,
    pub country_id: String,
    pub country_name: String,
    pub country_iso3: String,
    pub year: i32,
    pub value: Option<u64>,
    pub unit: Option<String>,
    pub obs_status: Option<String>,
    pub decimal: Option<i32>,
}

/// A guarded optional cell.
pub open spec fn safe_opt(o: Option<String>) -> Option<Seq<char>> {
    match o {
        Some(s) => Some(safe_cell(s@)),
        None => None,
    }
}

/// The view of an optional text cell.
pub open spec fn opt_text(o: Option<String>) -> Option<Seq<char>> {
    match o {
        Some(s) => Some(s@),
        None => None,
    }
}

fn csv_safe_opt(o: &Option<String>) -> (r: Option<String>)
    ensures
        opt_text(r) == safe_opt(*o),
{
    match o {
        Some(s) => Some(csv_safe_cell(s.as_str())),
        None => None,
    }
}

/// The CSV row of a point: every text field guarded, numbers as they are.
pub fn csv_row(p: &DataPoint) -> (r: CsvRow)
    ensures
        r.indicator_id@ == safe_cell(p.indicator_id@),
        r.indicator_name@ == safe_cell(p.indicator_name@),
        r.country_id@ == safe_cell(p.country_id@),
        r.country_name@ == safe_cell(p.country_name@),
        r.country_iso3@ == safe_cell(p.country_iso3@),
        r.year == p.year,
        r.value == p.value,
        opt_text(r.unit) == safe_opt(p.unit),
        opt_text(r.obs_status) == safe_opt(p.obs_status),
        r.decimal == p.decimal,
{
    CsvRow {
        indicator_id: csv_safe_cell(p.indicator_id.as_str()),
        indicator_name: csv_safe_cell(p.indicator_name.as_str()),
        country_id: csv_safe_cell(p.country_id.as_str()),
        country_name: csv_safe_cell(p.country_name.as_str()),
        country_iso3: csv_safe_cell(p.country_iso3.as_str()),
        year: p.year,
        value: p.value,
        unit: csv_safe_opt(&p.unit),
        obs_status: csv_safe_opt(&p.obs_status),
        decimal: p.decimal,
    }
}

/// The fixed CSV header.
pub open spec fn csv_header_names() -> Seq<Seq<char>> {
    seq![
        "indicator_id"@,
        "indicator_name"@,
        "country_id"@,
        "country_name"@,
        "country_iso3"@,
        "year"@,
        "value"@,
        "unit"@,
        "obs_status"@,
        "decimal"@,
    ]
}

fn text(s: &str) -> (r: String)
    ensures
        r@ == s@,
{
    let mut r = String::new();
    append_str(&mut r, s);
    assert(r@ =~= s@);
    r
}

/// The CSV header, in the order of `DataPoint`'s fields.
pub fn csv_header() -> (h: Vec<String>)
    ensures
        h@.map_values(|s: String| s@) == csv_header_names(),
{
    let h: Vec<String> = vec![
        text("indicator_id"),
        text("indicator_name"),
        text("country_id"),
        text("country_name"),
        text("country_iso3"),
        text("year"),
        text("value"),
        text("unit"),
        text("obs_status"),
        text("decimal"),
    ];
    assert(h@.map_values(|s: String| s@) =~= csv_header_names());
    h
}

/// A JSON row of an observation.
#[derive(Debug, Clone)]
pub struct JsonRow {
    pub indicator_id: String,
    pub indicator_name: String,
    pub country_id: String,
    pub country_name: String,
    pub country_iso3: String,
    pub year: i32,
    /// Finite values only.
    pub value: Option<u64>,
    pub unit: Option<String>,
    pub obs_status: Option<String>,
    pub decimal: Option<i64>,
}

/// The JSON row of a point: texts as they are, the value only when finite,
/// the decimal widened to `i64`.
pub fn json_row(p: &DataPoint) -> (r: JsonRow)
    ensures
        r.indicator_id@ == p.indicator_id@,
        r.indicator_name@ == p.indicator_name@,
        r.country_id@ == p.country_id@,
        r.country_name@ == p.country_name@,
        r.country_iso3@ == p.country_iso3@,
        r.year == p.year,
        r.value == match p.value {
            Some(v) => if is_finite_bits(v) {
                Some(v)
            } else {
                None::<u64>
            },
            None => None,
        },
        opt_text(r.unit) == opt_text(p.unit),
        opt_text(r.obs_status) == opt_text(p.obs_status),
        r.decimal == match p.decimal {
            Some(d) => Some(d as i64),
            None => None::<i64>,
        },
{
    JsonRow {
        indicator_id: p.indicator_id.clone(),
        indicator_name: p.indicator_name.clone(),
        country_id: p.country_id.clone(),
        country_name: p.country_name.clone(),
        country_iso3: p.country_iso3.clone(),
        year: p.year,
        value: finite_or_none(p.value),
        unit: p.unit.clone(),
        obs_status: p.obs_status.clone(),
        decimal: match p.decimal {
            Some(d) => Some(d as i64),
            None => None,
        },
    }
}

} // verus!
