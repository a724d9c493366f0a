use wbi_rs::models::DataPoint;
use wbi_rs::viz::util::{
    axis_scale, choose_axis_scale, derive_axis_unit, extract_unit_from_indicator_name,
    is_percentage_like, label_precision, left_label_area_px, y_axis_title, AxisScale,
};

fn make_data_point(
    indicator_id: &str,
    indicator_name: &str,
    country_iso3: &str,
    year: i32,
    value: Option<f64>,
    unit: Option<&str>,
) -> DataPoint {
    DataPoint {
        indicator_id: indicator_id.into(),
        indicator_name: indicator_name.into(),
        country_id: "XX".into(),
        country_name: "Test Country".into(),
        country_iso3: country_iso3.into(),
        year,
        value: value.map(f64::to_bits),
        unit: unit.map(|s| s.into()),
        obs_status: None,
        decimal: None,
    }
}

#[test]
fn derive_axis_unit_prefers_consistent_api_unit() {
    let points = vec![
        make_data_point("IND1", "Test Indicator", "DEU", 2019, Some(100.0), Some("Number")),
        make_data_point("IND1", "Test Indicator", "DEU", 2020, Some(200.0), Some("Number")),
        make_data_point("IND1", "Test Indicator", "USA", 2019, Some(300.0), Some("Number")),
    ];
    assert_eq!(derive_axis_unit(&points), Some("Number".to_string()));
}

#[test]
fn derive_axis_unit_fallback_to_indicator_name() {
    let points = vec![
        make_data_point("IND1", "GDP (current US$)", "DEU", 2019, Some(100.0), None),
        make_data_point("IND1", "GDP (current US$)", "DEU", 2020, Some(200.0), Some("")),
        make_data_point("IND1", "GDP (current US$)", "USA", 2019, Some(300.0), None),
    ];
    assert_eq!(derive_axis_unit(&points), Some("current US$".to_string()));
}

#[test]
fn derive_axis_unit_mixed_api_units_fallback() {
    let points = vec![
        make_data_point("IND1", "Test (annual %)", "DEU", 2019, Some(1.0), Some("Percent")),
        make_data_point("IND1", "Test (annual %)", "DEU", 2020, Some(2.0), Some("Number")),
    ];
    assert_eq!(derive_axis_unit(&points), Some("annual %".to_string()));
}

#[test]
fn derive_axis_unit_multiple_indicators_no_unit() {
    let points = vec![
        make_data_point("IND1", "GDP (current US$)", "DEU", 2019, Some(100.0), None),
        make_data_point("IND2", "Population", "DEU", 2019, Some(1000000.0), None),
    ];
    assert_eq!(derive_axis_unit(&points), None);
}

#[test]
fn derive_axis_unit_empty_and_none_units_ignored() {
    let points = vec![
        make_data_point("IND1", "Test", "DEU", 2019, Some(1.0), None),
        make_data_point("IND1", "Test", "DEU", 2020, Some(2.0), Some("")),
        make_data_point("IND1", "Test", "DEU", 2021, Some(3.0), Some("USD")),
    ];
    assert_eq!(derive_axis_unit(&points), Some("USD".to_string()));
}

#[test]
fn test_viz_unit_precedence() {
    let points = vec![make_data_point(
        "NY.GDP.MKTP.CD",
        "GDP (current US$)",
        "USA",
        2020,
        Some(21400000000000.0),
        Some("current US$"),
    )];
    assert_eq!(derive_axis_unit(&points), Some("current US$".to_string()));
}

#[test]
fn unit_extraction_from_names() {
    assert_eq!(extract_unit_from_indicator_name("GDP (current US$)"), Some("current US$".into()));
    assert_eq!(extract_unit_from_indicator_name("A (b) (  c  )"), Some("c".into()));
    assert_eq!(extract_unit_from_indicator_name("A ( )"), None);
    assert_eq!(extract_unit_from_indicator_name("A )x("), None);
    assert_eq!(extract_unit_from_indicator_name("No unit"), None);
    assert_eq!(extract_unit_from_indicator_name("(a) b)"), Some("a) b".into()));
}

#[test]
fn percentage_detection() {
    assert!(is_percentage_like("% of GDP"));
    assert!(is_percentage_like("Annual PERCENT change"));
    assert!(is_percentage_like("per cent"));
    assert!(!is_percentage_like("current US$"));
    assert!(!is_percentage_like("per-cent"));
}

#[test]
fn axis_scale_thresholds() {
    assert_eq!(choose_axis_scale(2.0e12f64.to_bits()), AxisScale::Trillions);
    assert_eq!(choose_axis_scale(1.0e12f64.to_bits()), AxisScale::Trillions);
    assert_eq!(choose_axis_scale(999_999_999_999.0f64.to_bits()), AxisScale::Billions);
    assert_eq!(choose_axis_scale(1.0e6f64.to_bits()), AxisScale::Millions);
    assert_eq!(choose_axis_scale(1000.0f64.to_bits()), AxisScale::Thousands);
    assert_eq!(choose_axis_scale(999.0f64.to_bits()), AxisScale::One);
    assert_eq!(choose_axis_scale(f64::NAN.to_bits()), AxisScale::One);
    assert_eq!(choose_axis_scale(f64::INFINITY.to_bits()), AxisScale::Trillions);
    assert_eq!(choose_axis_scale((-5.0e9f64).to_bits()), AxisScale::One);
    assert_eq!(AxisScale::Millions.exponent(), 6);
    assert_eq!(AxisScale::Millions.word(), "millions");
    assert_eq!(AxisScale::One.word(), "");
}

#[test]
fn axis_titles() {
    let pct = Some("annual %".to_string());
    assert_eq!(axis_scale(&pct, 5.0e9f64.to_bits()), AxisScale::One);
    assert_eq!(y_axis_title(&pct, AxisScale::One), "annual %");
    let usd = Some("current US$".to_string());
    let s = axis_scale(&usd, 5.0e9f64.to_bits());
    assert_eq!(s, AxisScale::Billions);
    assert_eq!(y_axis_title(&usd, s), "current US$ (billions)");
    assert_eq!(y_axis_title(&None, AxisScale::Thousands), "Value (thousands)");
    assert_eq!(y_axis_title(&None, AxisScale::One), "Value");
}

#[test]
fn tick_label_gutter() {
    assert_eq!(label_precision(150.0f64.to_bits()), 0);
    assert_eq!(label_precision(100.0f64.to_bits()), 0);
    assert_eq!(label_precision(99.5f64.to_bits()), 1);
    assert_eq!(label_precision(10.0f64.to_bits()), 1);
    assert_eq!(label_precision(9.99f64.to_bits()), 2);
    assert_eq!(left_label_area_px(0), 48);
    assert_eq!(left_label_area_px(50), 68);
    assert_eq!(left_label_area_px(200), 140);
    assert_eq!(left_label_area_px(u32::MAX), 140);
}

fn us_point(ind: &str, name: &str, v: f64, unit: Option<&str>) -> DataPoint {
    DataPoint {
        indicator_id: ind.to_string(),
        indicator_name: name.to_string(),
        country_id: "US".to_string(),
        country_name: "United States".to_string(),
        country_iso3: "USA".to_string(),
        year: 2020,
        value: Some(v.to_bits()),
        unit: unit.map(|u| u.to_string()),
        obs_status: None,
        decimal: None,
    }
}

#[test]
fn demonstrate_unit_improvements() {
    let points_with_metadata_unit =
        vec![us_point("NY.GDP.MKTP.CD", "GDP (current US$)", 21_400_000_000_000.0, Some("current US$"))];
    let points_without_unit =
        vec![us_point("NY.GDP.MKTP.CD", "GDP (current US$)", 21_400_000_000_000.0, None)];

    assert_eq!(derive_axis_unit(&points_with_metadata_unit), Some("current US$".to_string()));
    assert_eq!(derive_axis_unit(&points_without_unit), Some("current US$".to_string()));

    let points_with_complex_name = vec![us_point(
        "SL.UEM.TOTL.ZS",
        "Unemployment rate, total labor force",
        8.1,
        Some("% of total labor force"),
    )];
    assert_eq!(derive_axis_unit(&points_with_complex_name), Some("% of total labor force".to_string()));
}
