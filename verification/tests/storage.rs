use wbi_rs::models::DataPoint;
use wbi_rs::storage::{csv_header, csv_row, csv_safe_cell, finite_or_none, json_row};

fn point(id: &str, name: &str, cname: &str, value: Option<f64>) -> DataPoint {
    DataPoint {
        indicator_id: id.into(),
        indicator_name: name.into(),
        country_id: "DE".into(),
        country_name: cname.into(),
        country_iso3: "DEU".into(),
        year: 2020,
        value: value.map(f64::to_bits),
        unit: Some("-units".into()),
        obs_status: None,
        decimal: Some(2),
    }
}

#[test]
fn csv_cells_are_prefixed_to_avoid_formulas() {
    let p = point("=HYPERLINK(\"http://evil\")", "+SUM(A1:A9)", "@foo", Some(1.0));
    let r = csv_row(&p);
    assert_eq!(r.indicator_id, "'=HYPERLINK(\"http://evil\")");
    assert_eq!(r.indicator_name, "'+SUM(A1:A9)");
    assert_eq!(r.country_name, "'@foo");
    assert_eq!(r.country_iso3, "DEU");
    assert_eq!(r.unit, Some("'-units".to_string()));
    assert_eq!(r.obs_status, None);
    assert_eq!(r.year, 2020);
    assert_eq!(r.decimal, Some(2));
}

#[test]
fn safe_cell_cases() {
    assert_eq!(csv_safe_cell("=1+1"), "'=1+1");
    assert_eq!(csv_safe_cell("-5"), "'-5");
    assert_eq!(csv_safe_cell("a=b"), "a=b");
    assert_eq!(csv_safe_cell(""), "");
    assert_eq!(csv_safe_cell("'=x"), "'=x");
}

#[test]
fn header_order_is_fixed() {
    assert_eq!(
        csv_header(),
        vec![
            "indicator_id",
            "indicator_name",
            "country_id",
            "country_name",
            "country_iso3",
            "year",
            "value",
            "unit",
            "obs_status",
            "decimal"
        ]
    );
}

#[test]
fn json_rows_drop_non_finite_values() {
    assert_eq!(finite_or_none(Some(1.5f64.to_bits())), Some(1.5f64.to_bits()));
    assert_eq!(finite_or_none(Some(f64::NAN.to_bits())), None);
    assert_eq!(finite_or_none(Some(f64::NEG_INFINITY.to_bits())), None);
    assert_eq!(finite_or_none(None), None);
    let r = json_row(&point("=x", "n", "c", Some(f64::INFINITY)));
    assert_eq!(r.value, None);
    assert_eq!(r.indicator_id, "=x");
    assert_eq!(r.decimal, Some(2i64));
    assert_eq!(r.unit, Some("-units".to_string()));
}
