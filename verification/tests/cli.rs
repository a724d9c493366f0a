use wbi_rs::cli::{
    date_or_default, decide_output_format, decide_output_format_for_path, invalid_date_message,
    map_locale, parse_date, parse_list, title_or_default, FormatError, LocaleKind, OutFormat,
};
use wbi_rs::models::DateSpec;

#[test]
fn ext_csv_no_flag_yields_csv() {
    let got = decide_output_format_for_path("pop.csv", None).expect("inference should succeed");
    assert_eq!(got, "csv");
}

#[test]
fn ext_json_no_flag_yields_json() {
    let got = decide_output_format_for_path("pop.json", None).expect("inference should succeed");
    assert_eq!(got, "json");
}

#[test]
fn no_ext_no_flag_defaults_to_csv() {
    let got = decide_output_format_for_path("pop", None).expect("default should be csv");
    assert_eq!(got, "csv");
}

#[test]
fn matching_flag_and_ext_is_ok_csv() {
    let got = decide_output_format_for_path("data.csv", Some(OutFormat::Csv)).expect("should match");
    assert_eq!(got, "csv");
}

#[test]
fn matching_flag_and_ext_is_ok_json() {
    let got =
        decide_output_format_for_path("data.json", Some(OutFormat::Json)).expect("should match");
    assert_eq!(got, "json");
}

#[test]
fn conflict_between_flag_and_ext_errors() {
    let err = decide_output_format_for_path("data.csv", Some(OutFormat::Json)).unwrap_err();
    let msg = err.message();
    assert!(msg.to_lowercase().contains("conflict"), "unexpected error msg: {msg}");
}

#[test]
fn unknown_ext_with_explicit_flag_is_allowed_and_uses_flag() {
    let got = decide_output_format_for_path("data.xyz", Some(OutFormat::Csv))
        .expect("explicit format should win");
    assert_eq!(got, "csv");
}

#[test]
fn unknown_ext_without_flag_errors() {
    let err = decide_output_format_for_path("data.xyz", None).unwrap_err();
    let msg = err.message();
    assert!(
        msg.to_lowercase().contains("unknown output extension"),
        "unexpected error msg: {msg}"
    );
}

#[test]
fn uppercase_extension_is_supported() {
    let got = decide_output_format_for_path("DATA.CSV", None).expect("inference should succeed");
    assert_eq!(got, "csv");
}

#[test]
fn format_error_messages_are_exact() {
    match decide_output_format(Some("Json"), Some(OutFormat::Csv)) {
        Err(e @ FormatError::Conflict { .. }) => assert_eq!(
            e.message(),
            "Format conflict: --format Csv but output extension '.Json'. Align them or omit --format."
        ),
        other => panic!("unexpected {:?}", other),
    }
    match decide_output_format(Some("txt"), None) {
        Err(e) => assert_eq!(
            e.message(),
            "Unknown output extension '.txt'. Use .csv/.json or pass --format csv|json."
        ),
        other => panic!("unexpected {:?}", other),
    }
    assert_eq!(decide_output_format(None, Some(OutFormat::Json)).unwrap(), "json");
    assert_eq!(decide_output_format(Some("JsOn"), None).unwrap(), "json");
    assert_eq!(
        decide_output_format_for_path("data.XYZ", None).unwrap_err().message(),
        "Unknown output extension '.xyz'. Use .csv/.json or pass --format csv|json."
    );
}

#[test]
fn parse_date_accepts_year_and_range() {
    assert_eq!(parse_date("2020"), Some(DateSpec::Year(2020)));
    assert_eq!(parse_date("2019:2020"), Some(DateSpec::Range { start: 2019, end: 2020 }));
    assert_eq!(parse_date("-5"), Some(DateSpec::Year(-5)));
    assert_eq!(parse_date("20x"), None);
    assert_eq!(parse_date("2019:abc"), None);
    assert_eq!(parse_date(":2020"), None);
    assert_eq!(parse_date("1:2:3"), None);
    assert_eq!(parse_date("99999999999"), None);
}

#[test]
fn date_and_title_defaults() {
    assert_eq!(date_or_default(None), Some(DateSpec::Range { start: 2000, end: 2020 }));
    assert_eq!(date_or_default(Some("2010")), Some(DateSpec::Year(2010)));
    assert_eq!(date_or_default(Some("x")), None);
    assert_eq!(invalid_date_message(), "invalid --date, expected YYYY or YYYY:YYYY");
    assert_eq!(title_or_default(None), "World Bank Indicator(s)");
    assert_eq!(title_or_default(Some("Mine")), "Mine");
}

#[test]
fn date_query_text_parses_back() {
    for d in [
        DateSpec::Year(2020),
        DateSpec::Year(-12),
        DateSpec::Range { start: 1990, end: 2000 },
        DateSpec::Range { start: -3, end: 7 },
    ] {
        assert_eq!(parse_date(&d.to_query_param()), Some(d));
    }
}

#[test]
fn locale_tags_map_case_insensitively() {
    assert_eq!(map_locale("de"), (LocaleKind::De, ','));
    assert_eq!(map_locale("DE_de"), (LocaleKind::De, ','));
    assert_eq!(map_locale("German"), (LocaleKind::De, ','));
    assert_eq!(map_locale("fr_FR"), (LocaleKind::Fr, ','));
    assert_eq!(map_locale("es"), (LocaleKind::Es, ','));
    assert_eq!(map_locale("it_it"), (LocaleKind::It, ','));
    assert_eq!(map_locale("pt_BR"), (LocaleKind::Pt, ','));
    assert_eq!(map_locale("NL"), (LocaleKind::Nl, ','));
    assert_eq!(map_locale("en"), (LocaleKind::En, '.'));
    assert_eq!(map_locale("xx"), (LocaleKind::En, '.'));
    assert_eq!(map_locale(""), (LocaleKind::En, '.'));
}

#[test]
fn parse_list_trims_unicode_whitespace() {
    assert_eq!(parse_list("\u{3000}USA\t;\nDEU"), vec!["USA", "DEU"]);
    assert_eq!(parse_list(" ; , "), Vec::<String>::new());
}
