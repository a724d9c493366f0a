use wbi_rs::models::{
    count_from_signed, count_from_text, count_from_unsigned, CodeName, DataPoint, DateSpec, Entry,
};

#[test]
fn date_spec_query_param() {
    assert_eq!(DateSpec::Year(2020).to_query_param(), "2020");
    assert_eq!(DateSpec::Range { start: 2000, end: 2020 }.to_query_param(), "2000:2020");
    assert_eq!(DateSpec::Year(-5).to_query_param(), "-5");
    assert_eq!(DateSpec::Year(i32::MIN).to_query_param(), "-2147483648");
}

#[test]
fn metadata_counts_accept_string_or_number() {
    assert_eq!(count_from_text("1000"), Some(1000));
    assert_eq!(count_from_text("+7"), Some(7));
    assert_eq!(count_from_text("x"), None);
    assert_eq!(count_from_text("4294967296"), None);
    assert_eq!(count_from_unsigned(500), 500);
    assert_eq!(count_from_unsigned((1u64 << 32) + 7), 7);
    assert_eq!(count_from_signed(-1), None);
    assert_eq!(count_from_signed(42), Some(42));
}

fn entry(date: &str) -> Entry {
    Entry {
        indicator: CodeName { id: "SP.POP.TOTL".into(), value: "Population, total".into() },
        country: CodeName { id: "DE".into(), value: "Germany".into() },
        countryiso3code: "DEU".into(),
        date: date.into(),
        value: Some(83_100_000.0f64.to_bits()),
        unit: None,
        obs_status: None,
        decimal: Some(0),
    }
}

#[test]
fn datapoint_from_entry_parses_year_and_names() {
    let p = DataPoint::from_entry(entry("2020"));
    assert_eq!(p.year, 2020);
    assert_eq!(p.indicator_id, "SP.POP.TOTL");
    assert_eq!(p.indicator_name, "Population, total");
    assert_eq!(p.country_id, "DE");
    assert_eq!(p.country_name, "Germany");
    assert_eq!(p.country_iso3, "DEU");
    assert_eq!(p.value.map(f64::from_bits), Some(83_100_000.0));
    assert_eq!(p.decimal, Some(0));
}

#[test]
fn unparsable_date_gives_year_zero() {
    assert_eq!(DataPoint::from_entry(entry("2020Q1")).year, 0);
    assert_eq!(DataPoint::from_entry(entry("")).year, 0);
}

fn create_test_datapoint(indicator_id: &str, indicator_name: &str, unit: Option<String>) -> DataPoint {
    DataPoint {
        indicator_id: indicator_id.to_string(),
        indicator_name: indicator_name.to_string(),
        country_id: "US".to_string(),
        country_name: "United States".to_string(),
        country_iso3: "USA".to_string(),
        year: 2020,
        value: Some(1000.0f64.to_bits()),
        unit,
        obs_status: None,
        decimal: None,
    }
}

#[test]
fn test_datapoint_unit_populated_from_metadata() {
    let mut point = create_test_datapoint("NY.GDP.MKTP.CD", "GDP (current US$)", None);
    assert_eq!(point.unit, None);
    point.unit = Some("current US$".to_string());
    assert_eq!(point.unit, Some("current US$".to_string()));
}

#[test]
fn test_unit_precedence() {
    let points_with_unit =
        vec![create_test_datapoint("NY.GDP.MKTP.CD", "GDP (current US$)", Some("current US$".to_string()))];
    let points_without_unit = vec![create_test_datapoint("NY.GDP.MKTP.CD", "GDP (current US$)", None)];
    let points_with_empty_unit =
        vec![create_test_datapoint("NY.GDP.MKTP.CD", "GDP (current US$)", Some("".to_string()))];
    assert_eq!(points_with_unit[0].unit, Some("current US$".to_string()));
    assert_eq!(points_without_unit[0].unit, None);
    assert_eq!(points_with_empty_unit[0].unit, Some("".to_string()));
}

#[test]
fn test_mixed_indicators_units() {
    let points = vec![
        create_test_datapoint("NY.GDP.MKTP.CD", "GDP (current US$)", Some("current US$".to_string())),
        create_test_datapoint("SP.POP.TOTL", "Population, total", Some("people".to_string())),
    ];
    assert_eq!(points[0].unit, Some("current US$".to_string()));
    assert_eq!(points[1].unit, Some("people".to_string()));
}

#[test]
fn meta_per_page_accepts_string_or_number() {
    // per_page given as a string
    assert_eq!(count_from_text("1000"), Some(1000));
    // per_page given as a number
    assert_eq!(count_from_unsigned(500), 500);
}

fn entry_of(v: &serde_json::Value) -> Entry {
    let text = |x: &serde_json::Value| x.as_str().map(|s| s.to_string());
    Entry {
        indicator: CodeName {
            id: text(&v["indicator"]["id"]).unwrap(),
            value: text(&v["indicator"]["value"]).unwrap(),
        },
        country: CodeName {
            id: text(&v["country"]["id"]).unwrap(),
            value: text(&v["country"]["value"]).unwrap(),
        },
        countryiso3code: text(&v["countryiso3code"]).unwrap(),
        date: text(&v["date"]).unwrap(),
        value: v["value"].as_f64().map(f64::to_bits),
        unit: text(&v["unit"]),
        obs_status: text(&v["obs_status"]),
        decimal: v["decimal"].as_i64().map(|d| d as i32),
    }
}

#[test]
fn parse_sample_json() {
    let sample = r#"
    [
      {"page":1,"pages":1,"per_page":"2","total":2},
      [
        {
          "indicator":{"id":"SP.POP.TOTL","value":"Population, total"},
          "country":{"id":"DE","value":"Germany"},
          "countryiso3code":"DEU",
          "date":"2019",
          "value":83000000,
          "unit":"",
          "obs_status":null,
          "decimal":0
        },
        {
          "indicator":{"id":"SP.POP.TOTL","value":"Population, total"},
          "country":{"id":"DE","value":"Germany"},
          "countryiso3code":"DEU",
          "date":"2020",
          "value":83100000,
          "unit":"",
          "obs_status":null,
          "decimal":0
        }
      ]
    ]
    "#;
    let v: serde_json::Value = serde_json::from_str(sample).unwrap();
    let arr = v.as_array().unwrap();
    let m = &arr[0];
    assert_eq!(count_from_unsigned(m["page"].as_u64().unwrap()), 1);
    assert_eq!(count_from_unsigned(m["pages"].as_u64().unwrap()), 1);
    assert_eq!(count_from_text(m["per_page"].as_str().unwrap()), Some(2));
    assert_eq!(count_from_unsigned(m["total"].as_u64().unwrap()), 2);

    let entries: Vec<Entry> = arr[1].as_array().unwrap().iter().map(entry_of).collect();
    assert_eq!(entries.len(), 2);
    let points: Vec<DataPoint> = entries.into_iter().map(DataPoint::from_entry).collect();
    assert_eq!(points[0].country_iso3, "DEU");
    assert_eq!(points[0].year, 2019);
    assert_eq!(points[0].value.map(f64::from_bits), Some(83_000_000.0));
}
