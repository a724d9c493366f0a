use wbi_rs::models::{DataPoint, GroupKey};
use wbi_rs::stats::{grouped_summary, Summary};

fn dp(ind_id: &str, c_iso3: &str, year: i32, v: Option<f64>) -> DataPoint {
    DataPoint {
        indicator_id: ind_id.into(),
        indicator_name: "Dummy".into(),
        country_id: "XX".into(),
        country_name: "Xland".into(),
        country_iso3: c_iso3.into(),
        year,
        value: v.map(f64::to_bits),
        unit: None,
        obs_status: None,
        decimal: None,
    }
}

fn mean(s: &Summary) -> Option<f64> {
    if s.count == 0 {
        None
    } else {
        Some(s.values.iter().map(|b| f64::from_bits(*b)).sum::<f64>() / s.count as f64)
    }
}

fn median(s: &Summary) -> Option<f64> {
    s.median_positions()
        .map(|(a, b)| (f64::from_bits(s.values[a]) + f64::from_bits(s.values[b])) / 2.0)
}

#[test]
fn grouped_stats_handle_missing_and_median_even_odd() {
    let rows = vec![
        dp("IND1", "AAA", 2018, Some(1.0)),
        dp("IND1", "AAA", 2019, Some(2.0)),
        dp("IND1", "AAA", 2020, Some(3.0)),
        dp("IND1", "AAA", 2021, Some(4.0)),
        dp("IND1", "BBB", 2018, Some(10.0)),
        dp("IND1", "BBB", 2019, None),
        dp("IND1", "BBB", 2020, Some(30.0)),
    ];
    let got = grouped_summary(&rows);

    let a = &got[0];
    assert_eq!(a.key, GroupKey { indicator_id: "IND1".into(), country_iso3: "AAA".into() });
    assert_eq!(a.count, 4);
    assert_eq!(a.missing, 0);
    assert_eq!(a.min.map(f64::from_bits), Some(1.0));
    assert_eq!(a.max.map(f64::from_bits), Some(4.0));
    assert!((mean(a).unwrap() - 2.5).abs() < 1e-9);
    assert!((median(a).unwrap() - 2.5).abs() < 1e-9);

    let b = &got[1];
    assert_eq!(b.key, GroupKey { indicator_id: "IND1".into(), country_iso3: "BBB".into() });
    assert_eq!(b.count, 2);
    assert_eq!(b.missing, 1);
    assert_eq!(b.min.map(f64::from_bits), Some(10.0));
    assert_eq!(b.max.map(f64::from_bits), Some(30.0));
    assert_eq!(mean(b).unwrap(), 20.0);
    assert_eq!(median(b).unwrap(), 20.0);
}

#[test]
fn groups_come_out_by_indicator_then_country() {
    let rows = vec![
        dp("SP.POP.TOTL", "USA", 2020, Some(3.0)),
        dp("NY.GDP.MKTP.CD", "USA", 2020, Some(2.0)),
        dp("SP.POP.TOTL", "DEU", 2020, Some(1.0)),
        dp("NY.GDP.MKTP.CD", "DEU", 2020, Some(5.0)),
    ];
    let got = grouped_summary(&rows);
    let keys: Vec<String> =
        got.iter().map(|s| format!("{}+{}", s.key.country_iso3, s.key.indicator_id)).collect();
    assert_eq!(
        keys,
        vec![
            "DEU+NY.GDP.MKTP.CD",
            "USA+NY.GDP.MKTP.CD",
            "DEU+SP.POP.TOTL",
            "USA+SP.POP.TOTL"
        ]
    );
    for s in &got {
        assert_eq!(s.count, 1);
        assert_eq!(s.missing, 0);
        assert_eq!(s.min, s.max);
    }
}

#[test]
fn non_finite_values_are_missing_and_missing_only_groups_are_kept() {
    let rows = vec![
        dp("X", "AAA", 2000, Some(f64::NAN)),
        dp("X", "AAA", 2001, Some(f64::INFINITY)),
        dp("X", "AAA", 2002, Some(-2.0)),
        dp("X", "ZZZ", 2000, None),
        dp("X", "ZZZ", 2001, Some(f64::NEG_INFINITY)),
    ];
    let got = grouped_summary(&rows);
    assert_eq!(got.len(), 2);
    assert_eq!(got[0].key.country_iso3, "AAA");
    assert_eq!(got[0].count, 1);
    assert_eq!(got[0].missing, 2);
    assert_eq!(got[0].min.map(f64::from_bits), Some(-2.0));
    assert_eq!(got[1].key.country_iso3, "ZZZ");
    assert_eq!(got[1].count, 0);
    assert_eq!(got[1].missing, 2);
    assert_eq!(got[1].min, None);
    assert_eq!(got[1].max, None);
    assert!(got[1].values.is_empty());
    assert_eq!(mean(&got[1]), None);
    assert_eq!(median(&got[1]), None);
}

#[test]
fn values_are_sorted_numerically_and_odd_median_is_middle() {
    let rows = vec![
        dp("X", "AAA", 2000, Some(5.5)),
        dp("X", "AAA", 2001, Some(-1.0)),
        dp("X", "AAA", 2002, Some(0.0)),
        dp("X", "AAA", 2003, Some(-10.0)),
        dp("X", "AAA", 2004, Some(100.0)),
    ];
    let got = grouped_summary(&rows);
    let vals: Vec<f64> = got[0].values.iter().map(|b| f64::from_bits(*b)).collect();
    assert_eq!(vals, vec![-10.0, -1.0, 0.0, 5.5, 100.0]);
    assert_eq!(got[0].median_positions(), Some((2, 2)));
    assert_eq!(median(&got[0]), Some(0.0));
    assert_eq!(got[0].min.map(f64::from_bits), Some(-10.0));
    assert_eq!(got[0].max.map(f64::from_bits), Some(100.0));
}

#[test]
fn empty_input_gives_no_groups() {
    assert!(grouped_summary(&[]).is_empty());
}

fn full(iso: &str, cname: &str, cid: &str, ind: &str, iname: &str, year: i32, v: f64, unit: &str) -> DataPoint {
    DataPoint {
        country_iso3: iso.to_string(),
        country_name: cname.to_string(),
        country_id: cid.to_string(),
        indicator_id: ind.to_string(),
        indicator_name: iname.to_string(),
        year,
        value: Some(v.to_bits()),
        unit: Some(unit.to_string()),
        obs_status: None,
        decimal: None,
    }
}

fn create_multi_indicator_multi_country_data() -> Vec<DataPoint> {
    let gdp = ("NY.GDP.MKTP.CD", "GDP (current US$)", "current US$");
    let pop = ("SP.POP.TOTL", "Population, total", "people");
    vec![
        full("USA", "United States", "US", gdp.0, gdp.1, 2020, 20_950_000_000_000.0, gdp.2),
        full("USA", "United States", "US", gdp.0, gdp.1, 2021, 23_320_000_000_000.0, gdp.2),
        full("USA", "United States", "US", pop.0, pop.1, 2020, 331_002_651.0, pop.2),
        full("USA", "United States", "US", pop.0, pop.1, 2021, 332_031_554.0, pop.2),
        full("DEU", "Germany", "DE", gdp.0, gdp.1, 2020, 3_846_000_000_000.0, gdp.2),
        full("DEU", "Germany", "DE", gdp.0, gdp.1, 2021, 4_260_000_000_000.0, gdp.2),
        full("DEU", "Germany", "DE", pop.0, pop.1, 2020, 83_240_525.0, pop.2),
        full("DEU", "Germany", "DE", pop.0, pop.1, 2021, 83_196_078.0, pop.2),
    ]
}

#[test]
fn test_grouped_summary_multi_indicator_multi_country() {
    let data = create_multi_indicator_multi_country_data();
    let summaries = grouped_summary(&data);

    assert_eq!(summaries.len(), 4);

    let mut found_groups = std::collections::HashSet::new();
    for summary in &summaries {
        let group_key = format!("{}+{}", summary.key.country_iso3, summary.key.indicator_id);
        found_groups.insert(group_key);
        assert_eq!(summary.count, 2);
        assert!(mean(summary).is_some());
        assert!(median(summary).is_some());
        assert!(summary.min.is_some());
        assert!(summary.max.is_some());
    }

    assert!(found_groups.contains("USA+NY.GDP.MKTP.CD"));
    assert!(found_groups.contains("USA+SP.POP.TOTL"));
    assert!(found_groups.contains("DEU+NY.GDP.MKTP.CD"));
    assert!(found_groups.contains("DEU+SP.POP.TOTL"));
}

#[test]
fn test_grouped_summary_preserves_group_structure() {
    let data = create_multi_indicator_multi_country_data();
    let summaries = grouped_summary(&data);

    for summary in summaries {
        assert!(summary.key.indicator_id == "NY.GDP.MKTP.CD" || summary.key.indicator_id == "SP.POP.TOTL");
        assert!(summary.key.country_iso3 == "USA" || summary.key.country_iso3 == "DEU");
        assert_eq!(summary.count, 2);
        assert_eq!(summary.missing, 0);
    }
}
