//! Data model: date specifications, API metadata and tidy observations.
//!
//! Numeric observation values are carried as the IEEE-754 bit pattern of an
//! `f64` (`f64::to_bits`), so the library can order and filter them exactly
//! without floating-point arithmetic.

use vstd::prelude::*;
use crate::decimal::{dec_int, i64_to_string, parse_i32, parse_i32_spec, parse_u32, parse_u32_spec};
use crate::chars::push_char;

verus! {

/// How to specify dates in API queries.
#[derive(Debug, Clone, Copy, PartialEq, Eq, Structural)]
pub enum DateSpec {
    /// Single year like 2020
    Year(i32),
    /// Inclusive range like 2000..=2020
    Range { start: i32, end: i32 },
}

impl DateSpec {
    /// Query text: `"2020"` for a year, `"2000:2020"` for a range.
    pub open spec fn query_text(self) -> Seq<char> {
        match self {
            DateSpec::Year(y) => dec_int(y as int),
            DateSpec::Range { start, end } => dec_int(start as int) + seq![':'] + dec_int(
                end as int,
            ),
        }
    }

    /// The `date=` value of an API query.
    pub fn to_query_param(&self) -> (s: String)
        ensures
            s@ == self.query_text(),
    {
        match *self {
            DateSpec::Year(y) => i64_to_string(y as i64),
            DateSpec::Range { start, end } => {
                let mut s = i64_to_string(start as i64);
                push_char(&mut s, ':');
                let e = i64_to_string(end as i64);
                let ev = crate::chars::chars_of(e.as_str());
                let ghost s0 = s@;
                let mut i: usize = 0;
                while i < ev.len()
                    invariant
                        i <= ev.len(),
                        s@ == s0 + ev@.take(i as int),
                    decreases ev.len() - i,
                {
                    push_char(&mut s, ev[i]);
                    i = i + 1;
                    assert(s@ =~= s0 + ev@.take(i as int));
                }
                assert(ev@.take(ev.len() as int) =~= ev@);
                s
            },
        }
    }
}

/// Metadata section returned by the API (position 0).
#[derive(Debug, Clone, Copy, PartialEq, Eq, Structural)]
pub struct Meta {
    pub page: u32,
    pub pages: u32,
    /// Some responses encode `per_page` as a string, others as a number.
    pub per_page: u32,
    pub total: u32,
}

/// A metadata count given as an unsigned JSON number: truncated to `u32`
/// (`v as u32`).
pub fn count_from_unsigned(v: u64) -> (r: u32)
    ensures
        r as int == v as int % 0x1_0000_0000,
{
    let r = (v & 0xFFFF_FFFF) as u32;
    assert((v & 0xFFFF_FFFF) == v % 0x1_0000_0000) by (bit_vector);
    r
}

/// A metadata count given as a signed JSON number: refused when negative,
/// otherwise truncated to `u32`.
pub fn count_from_signed(v: i64) -> (r: Option<u32>)
    ensures
        v < 0 ==> r is None,
        v >= 0 ==> r == Some((v as int % 0x1_0000_0000) as u32),
{
    if v < 0 {
        None
    } else {
        Some(count_from_unsigned(v as u64))
    }
}

/// A metadata count given as a JSON string: `str::parse::<u32>`.
pub fn count_from_text(s: &str) -> (r: Option<u32>)
    ensures
        r == parse_u32_spec(s@),
{
    parse_u32(s)
}

/// An `(id, value)` pair of the API (indicator or country).
#[derive(Debug, Clone)]
pub struct CodeName {
    pub id: String,
    pub value: String,
}

/// Raw entry from the API (position 1 array).
#[derive(Debug, Clone)]
pub struct Entry {
    pub indicator: CodeName,
    pub country: CodeName,
    pub countryiso3code: String,
    pub date: String,
    /// `f64` bit pattern of the value, if any.
    pub value: Option<u64>,
    pub unit: Option<String>,
    pub obs_status: Option<String>,
    pub decimal: Option<i32>,
}

/// Tidy structure used by this crate (one row = one observation).
#[derive(Debug, Clone, PartialEq)]
pub struct DataPoint {
    pub indicator_id: String,
    pub indicator_name: String,
    /// Typically ISO2.
    pub country_id: String,
    pub country_name: String,
    pub country_iso3: String,
    pub year: i32,
    /// `f64` bit pattern of the value, if any.
    pub value: Option<u64>,
    pub unit: Option<String>,
    pub obs_status: Option<String>,
    pub decimal: Option<i32>,
}

/// The year of an entry's `date` text: its `i32` value, or `0` when the text
/// is not an integer.
pub open spec fn year_of_date(date: Seq<char>) -> i32 {
    match parse_i32_spec(date) {
        Some(y) => y,
        None => 0,
    }
}

/// The observation an API entry describes.
pub open spec fn point_of_entry(e: Entry) -> DataPoint {
    DataPoint {
        indicator_id: e.indicator.id,
        indicator_name: e.indicator.value,
        country_id: e.country.id,
        country_name: e.country.value,
        country_iso3: e.countryiso3code,
        year: year_of_date(e.date@),
        value: e.value,
        unit: e.unit,
        obs_status: e.obs_status,
        decimal: e.decimal,
    }
}

impl DataPoint {
    /// Converts an API entry into a tidy row; an unparsable date gives year `0`.
    pub fn from_entry(e: Entry) -> (p: DataPoint)
        ensures
            p == point_of_entry(e),
    {
        let year = match parse_i32(e.date.as_str()) {
            Some(y) => y,
            None => 0,
        };
        DataPoint {
            indicator_id: e.indicator.id,
            indicator_name: e.indicator.value,
            country_id: e.country.id,
            country_name: e.country.value,
            country_iso3: e.countryiso3code,
            year,
            value: e.value,
            unit: e.unit,
            obs_status: e.obs_status,
            decimal: e.decimal,
        }
    }
}

/// Indicator metadata returned by the indicator endpoint.
#[derive(Debug, Clone)]
pub struct IndicatorMeta {
    pub id: String,
    /// The indicator's name (`value`, also sent as `name`).
    pub value: String,
    pub unit: Option<String>,
}

/// Another name for `IndicatorMeta`.
pub type IndicatorMetadata = IndicatorMeta;

/// Grouping key used in stats and plotting.
#[derive(Debug, Clone, PartialEq, Eq, PartialOrd, Ord, Hash)]
pub struct GroupKey {
    pub indicator_id: String,
    pub country_iso3: String,
}

} // verus!
