use wbi_rs::api::{
    classify_status, retry_action, AttemptOutcome, RetryAction, MAX_ATTEMPTS,
    enc_join, enrich_units, needs_enrichment, next_page, page_url, units_from_metadata, Client,
    FetchError, FetchPlan, PageStep,
};
use wbi_rs::models::{DataPoint, DateSpec, IndicatorMeta};

fn make_test_datapoint(
    indicator_id: &str,
    indicator_name: &str,
    country_iso3: &str,
    year: i32,
    value: Option<f64>,
    unit: Option<&str>,
) -> DataPoint {
    DataPoint {
        indicator_id: indicator_id.into(),
        indicator_name: indicator_name.into(),
        country_id: "XX".into(),
        country_name: "Test Country".into(),
        country_iso3: country_iso3.into(),
        year,
        value: value.map(f64::to_bits),
        unit: unit.map(|s| s.into()),
        obs_status: None,
        decimal: None,
    }
}

fn s(v: &[&str]) -> Vec<String> {
    v.iter().map(|x| x.to_string()).collect()
}

#[test]
fn test_datapoint_unit_enrichment_concept() {
    let mut points = vec![
        make_test_datapoint("SP.POP.TOTL", "Population, total", "DEU", 2019, Some(83000000.0), None),
        make_test_datapoint(
            "SP.POP.TOTL",
            "Population, total",
            "DEU",
            2020,
            Some(83200000.0),
            Some(""),
        ),
        make_test_datapoint("NY.GDP.MKTP.CD", "GDP (current US$)", "DEU", 2019, Some(3.86e12), None),
    ];
    let indicator_units = vec![
        ("SP.POP.TOTL".to_string(), "Number".to_string()),
        ("NY.GDP.MKTP.CD".to_string(), "Current US Dollars".to_string()),
    ];
    enrich_units(&mut points, &indicator_units);
    assert_eq!(points[0].unit, Some("Number".to_string()));
    assert_eq!(points[1].unit, Some("Number".to_string()));
    assert_eq!(points[2].unit, Some("Current US Dollars".to_string()));
}

#[test]
fn test_unit_enrichment_preserves_existing_units() {
    let mut points = vec![
        make_test_datapoint(
            "SP.POP.TOTL",
            "Population, total",
            "DEU",
            2019,
            Some(83000000.0),
            Some("People"),
        ),
        make_test_datapoint("SP.POP.TOTL", "Population, total", "DEU", 2020, Some(83200000.0), None),
    ];
    let indicator_units = vec![("SP.POP.TOTL".to_string(), "Number".to_string())];
    enrich_units(&mut points, &indicator_units);
    assert_eq!(points[0].unit, Some("People".to_string()));
    assert_eq!(points[1].unit, Some("Number".to_string()));
}

#[test]
fn enrichment_keeps_other_fields_and_unknown_indicators() {
    let mut points = vec![
        make_test_datapoint("X", "Name", "DEU", 2019, Some(1.5), Some("  ")),
        make_test_datapoint("Y", "Other", "USA", 2020, None, None),
    ];
    let before = points.clone();
    enrich_units(&mut points, &[("X".to_string(), "a".to_string()), ("X".to_string(), "b".to_string())]);
    // later announcements win
    assert_eq!(points[0].unit, Some("b".to_string()));
    assert_eq!(points[1].unit, None);
    assert_eq!(points[0].value, before[0].value);
    assert_eq!(points[0].indicator_name, "Name");
    assert_eq!(points[1], before[1]);
}

#[test]
fn enrichment_is_needed_only_for_missing_or_blank_units() {
    assert!(needs_enrichment(&[make_test_datapoint("X", "N", "A", 1, None, Some(" "))]));
    assert!(needs_enrichment(&[make_test_datapoint("X", "N", "A", 1, None, None)]));
    assert!(!needs_enrichment(&[make_test_datapoint("X", "N", "A", 1, None, Some("u"))]));
    assert!(!needs_enrichment(&[]));
}

#[test]
fn metadata_units_skip_blank_units() {
    let metas = vec![
        IndicatorMeta { id: "A".into(), value: "a".into(), unit: Some("x".into()) },
        IndicatorMeta { id: "B".into(), value: "b".into(), unit: Some(" ".into()) },
        IndicatorMeta { id: "C".into(), value: "c".into(), unit: None },
    ];
    assert_eq!(units_from_metadata(&metas), vec![("A".to_string(), "x".to_string())]);
}

#[test]
fn codes_are_trimmed_encoded_and_joined() {
    assert_eq!(enc_join(&s(&["DEU", " USA "])), "DEU;USA");
    assert_eq!(enc_join(&s(&["SP.POP.TOTL"])), "SP.POP.TOTL");
    assert_eq!(enc_join(&s(&["a b/c"])), "a%20b%2Fc");
    assert_eq!(enc_join(&s(&["\u{fc}"])), "%C3%BC");
    assert_eq!(enc_join(&s(&["x_y-z~"])), "x_y-z%7E");
    assert_eq!(enc_join(&[]), "");
    assert_eq!(enc_join(&s(&["a;b?c#d&e"])), "a%3Bb%3Fc%23d%26e");
}

#[test]
fn fetch_plans() {
    let c = Client { base_url: "https://example.org/v2".to_string() };
    assert!(matches!(
        c.plan_fetch(&[], &s(&["X"]), None, None),
        Err(FetchError::NoCountries)
    ));
    assert!(matches!(
        c.plan_fetch(&s(&["DEU"]), &[], None, None),
        Err(FetchError::NoIndicators)
    ));
    assert_eq!(FetchError::NoCountries.message(), "at least one country/region code required");
    match c.plan_fetch(&s(&["DEU"]), &s(&["A", "B"]), None, None) {
        Ok(FetchPlan::PerIndicator(v)) => assert_eq!(v, s(&["A", "B"])),
        other => panic!("unexpected {:?}", other),
    }
    match c.plan_fetch(
        &s(&["DEU", "USA"]),
        &s(&["A", "B"]),
        Some(DateSpec::Range { start: 2019, end: 2020 }),
        Some(2),
    ) {
        Ok(FetchPlan::Paged(u)) => assert_eq!(
            u,
            "https://example.org/v2/country/DEU;USA/indicator/A;B?format=json&per_page=1000&date=2019:2020&source=2"
        ),
        other => panic!("unexpected {:?}", other),
    }
    match c.plan_fetch(&s(&["DEU"]), &s(&["SP.POP.TOTL"]), Some(DateSpec::Year(2020)), None) {
        Ok(FetchPlan::Paged(u)) => assert_eq!(
            u,
            "https://example.org/v2/country/DEU/indicator/SP.POP.TOTL?format=json&per_page=1000&date=2020"
        ),
        other => panic!("unexpected {:?}", other),
    }
    assert_eq!(Client::with_default_base().base_url, "https://api.worldbank.org/v2");
    assert_eq!(c.units_url(&[]), None);
    assert_eq!(
        c.units_url(&s(&["A", "B"])),
        Some("https://example.org/v2/indicator/A;B?format=json&per_page=1000".to_string())
    );
}

#[test]
fn pagination_steps() {
    assert_eq!(page_url("u?x=1", 3), "u?x=1&page=3");
    assert_eq!(next_page(1, 1), PageStep::Done);
    assert_eq!(next_page(1, 0), PageStep::Done);
    assert_eq!(next_page(1, 3), PageStep::Next(2));
    assert_eq!(next_page(999, 2000), PageStep::Next(1000));
    assert_eq!(next_page(1000, 2000), PageStep::LimitExceeded);
    assert_eq!(next_page(1000, 1000), PageStep::Done);
    assert_eq!(FetchError::PageLimit.message(), "page limit exceeded (1000)");
}

fn us_point(ind: &str, name: &str, v: f64, unit: Option<&str>) -> DataPoint {
    DataPoint {
        indicator_id: ind.to_string(),
        indicator_name: name.to_string(),
        country_id: "US".to_string(),
        country_name: "United States".to_string(),
        country_iso3: "USA".to_string(),
        year: 2020,
        value: Some(v.to_bits()),
        unit: unit.map(|u| u.to_string()),
        obs_status: None,
        decimal: None,
    }
}

#[test]
fn test_unit_population_behavior() {
    let mut points = vec![
        us_point("NY.GDP.MKTP.CD", "GDP (current US$)", 21_400_000_000_000.0, None),
        us_point("SP.POP.TOTL", "Population, total", 331_000_000.0, Some("")),
        us_point(
            "SL.UEM.TOTL.ZS",
            "Unemployment, total (% of total labor force)",
            8.1,
            Some("% of total labor force"),
        ),
    ];

    assert_eq!(points[0].unit, None);
    assert_eq!(points[1].unit, Some("".to_string()));
    assert_eq!(points[2].unit, Some("% of total labor force".to_string()));

    let units = vec![
        ("NY.GDP.MKTP.CD".to_string(), "current US$".to_string()),
        ("SP.POP.TOTL".to_string(), "people".to_string()),
        ("SL.UEM.TOTL.ZS".to_string(), "percent".to_string()),
    ];
    enrich_units(&mut points, &units);

    assert_eq!(points[0].unit, Some("current US$".to_string()));
    assert_eq!(points[1].unit, Some("people".to_string()));
    assert_eq!(points[2].unit, Some("% of total labor force".to_string()));
}

#[test]
fn retry_policy_waits_100_300_700_then_gives_up() {
    assert_eq!(MAX_ATTEMPTS, 3);
    assert_eq!(classify_status(200), AttemptOutcome::Success);
    assert_eq!(classify_status(204), AttemptOutcome::Success);
    assert_eq!(classify_status(503), AttemptOutcome::ServerError);
    assert_eq!(classify_status(404), AttemptOutcome::OtherStatus(404));
    assert_eq!(classify_status(302), AttemptOutcome::OtherStatus(302));
    assert_eq!(retry_action(0, AttemptOutcome::Success), RetryAction::Decode);
    assert_eq!(retry_action(2, AttemptOutcome::OtherStatus(404)), RetryAction::Fail(404));
    assert_eq!(retry_action(0, AttemptOutcome::ServerError), RetryAction::Wait(100));
    assert_eq!(retry_action(1, AttemptOutcome::NetworkError), RetryAction::Wait(300));
    assert_eq!(retry_action(2, AttemptOutcome::ServerError), RetryAction::Wait(700));
}

#[test]
fn per_indicator_fetch_concatenates_in_order() {
    let mut progress = wbi_rs::api::PerIndicatorFetch::start(vec!["A".to_string(), "B".to_string()]);
    assert_eq!(progress.next_request(), Some("A".to_string()));
    progress.record(vec![us_point("A", "A", 1.0, None), us_point("A", "A", 2.0, None)]);
    assert_eq!(progress.next_request(), Some("B".to_string()));
    progress.record(vec![us_point("B", "B", 3.0, None)]);
    assert_eq!(progress.next_request(), None);
    let ids: Vec<&str> = progress.points.iter().map(|p| p.indicator_id.as_str()).collect();
    assert_eq!(ids, vec!["A", "A", "B"]);
}

#[test]
fn per_indicator_fetch_stops_at_first_failure() {
    let mut progress =
        wbi_rs::api::PerIndicatorFetch::start(vec!["A".to_string(), "B".to_string(), "C".to_string()]);
    assert_eq!(progress.next_request(), Some("A".to_string()));
    progress.record(vec![us_point("A", "A", 1.0, None)]);
    assert_eq!(progress.next_request(), Some("B".to_string()));
    progress.record_failure();
    assert_eq!(progress.next_request(), None);
    assert!(progress.finish().is_none());

    let mut done = wbi_rs::api::PerIndicatorFetch::start(vec!["A".to_string()]);
    done.record(vec![us_point("A", "A", 1.0, None)]);
    assert_eq!(done.next_request(), None);
    assert_eq!(done.finish().map(|v| v.len()), Some(1));
}
