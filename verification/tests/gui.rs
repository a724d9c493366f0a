use wbi_rs::cli::parse_list;
use wbi_rs::gui::{
    failure_message, no_data_result, output_plan, success_result, validate_date_range,
    validate_plot_dimensions, ExportFormat, InputError, OperationConfig, OperationResult,
    OutputKind, PlotConfig, PlotFormat, PlotKindOption, LegendPosition, WbiApp,
};
use wbi_rs::models::DateSpec;

fn validate_inputs(
    countries: &str,
    indicators: &str,
    from: i32,
    until: i32,
    output_path: &str,
) -> Result<(), InputError> {
    let mut app = WbiApp::new(output_path.to_string());
    app.countries = countries.to_string();
    app.indicators = indicators.to_string();
    app.date_from = from;
    app.date_until = until;
    app.validate_inputs()
}

#[test]
fn test_parse_list_function() {
    let result = parse_list("USA,DEU,CHN");
    assert_eq!(result, vec!["USA", "DEU", "CHN"]);

    let result = parse_list("USA;DEU;CHN");
    assert_eq!(result, vec!["USA", "DEU", "CHN"]);

    let result = parse_list("USA, DEU ; CHN ");
    assert_eq!(result, vec!["USA", "DEU", "CHN"]);

    let result = parse_list("");
    assert!(result.is_empty());

    let result = parse_list("USA");
    assert_eq!(result, vec!["USA"]);

    let result = parse_list("USA,,DEU,");
    assert_eq!(result, vec!["USA", "DEU"]);
}

#[test]
fn test_date_validation() {
    assert!(validate_date_range(2010, 2020).is_ok());
    assert!(validate_date_range(2015, 2015).is_ok());
    assert!(validate_date_range(2020, 2010).is_err());
    assert!(validate_date_range(1950, 2020).is_err());
    assert!(validate_date_range(2010, 2040).is_err());
}

#[test]
fn test_input_validation() {
    assert!(validate_inputs("USA,DEU", "SP.POP.TOTL", 2010, 2020, "/tmp").is_ok());
    assert!(validate_inputs("", "SP.POP.TOTL", 2010, 2020, "/tmp").is_err());
    assert!(validate_inputs("USA", "", 2010, 2020, "/tmp").is_err());
    assert!(validate_inputs("USA", "SP.POP.TOTL", 2010, 2020, "").is_err());
}

#[test]
fn test_plot_dimensions() {
    assert!(validate_plot_dimensions(800, 600).is_ok());
    assert!(validate_plot_dimensions(200, 200).is_ok());
    assert!(validate_plot_dimensions(3000, 3000).is_ok());
    assert!(validate_plot_dimensions(100, 600).is_err());
    assert!(validate_plot_dimensions(800, 100).is_err());
    assert!(validate_plot_dimensions(4000, 600).is_err());
    assert!(validate_plot_dimensions(800, 4000).is_err());
}

#[test]
fn input_errors_come_in_order_with_messages() {
    assert_eq!(validate_inputs("  ", "", 2020, 2010, "").unwrap_err(), InputError::NoCountries);
    assert_eq!(validate_inputs("USA", " ", 2020, 2010, "").unwrap_err(), InputError::NoIndicators);
    assert_eq!(validate_inputs("USA", "X", 2020, 2010, "").unwrap_err(), InputError::StartAfterEnd);
    assert_eq!(
        validate_inputs("USA", "X", 1950, 2010, "").unwrap_err(),
        InputError::YearsOutOfRange
    );
    assert_eq!(validate_inputs("USA", "X", 2000, 2010, " ").unwrap_err(), InputError::NoOutputDir);
    assert_eq!(
        InputError::YearsOutOfRange.message(),
        "Years should be between 1960 and 2030"
    );
    let mut app = WbiApp::new("/tmp".to_string());
    app.countries = "USA".to_string();
    app.indicators = "X".to_string();
    app.create_plot = true;
    app.plot_width = 100;
    assert_eq!(app.validate_inputs().unwrap_err(), InputError::PlotWidth);
    app.plot_width = 800;
    app.plot_height = 5000;
    assert_eq!(app.validate_inputs().unwrap_err(), InputError::PlotHeight);
    assert_eq!(
        InputError::PlotHeight.message(),
        "Plot height must be between 200 and 3000 pixels"
    );
}

#[test]
fn new_form_has_documented_defaults() {
    let app = WbiApp::new("/home/me".to_string());
    assert_eq!(app.date_from, 2010);
    assert_eq!(app.date_until, 2020);
    assert_eq!(app.export_format, ExportFormat::Csv);
    assert_eq!(app.output_path, "/home/me");
    assert_eq!(app.plot_width, 1000);
    assert_eq!(app.plot_height, 600);
    assert_eq!(app.locale, "en");
    assert_eq!(app.legend_position, LegendPosition::Bottom);
    assert_eq!(app.plot_kind, PlotKindOption::Line);
    assert!(!app.is_loading);
}

#[test]
fn start_operation_rejects_invalid_form() {
    let mut app = WbiApp::new("/tmp".to_string());
    let req = app.start_operation();
    assert!(req.is_none());
    assert_eq!(
        app.error_message,
        "Validation error: Please enter at least one country code (e.g., USA, DEU, CHN)"
    );
    assert!(!app.is_loading);
}

#[test]
fn start_operation_builds_request() {
    let mut app = WbiApp::new("/out".to_string());
    app.countries = "USA, DEU".to_string();
    app.indicators = "SP.POP.TOTL".to_string();
    app.date_from = 2015;
    app.date_until = 2015;
    app.source_id = "2".to_string();
    app.create_plot = true;
    app.plot_format = PlotFormat::Svg;
    let req = app.start_operation().expect("valid form");
    assert!(app.is_loading);
    assert_eq!(app.status_message, "Fetching data from World Bank API...");
    assert_eq!(app.error_message, "");
    assert_eq!(req.countries, vec!["USA", "DEU"]);
    assert_eq!(req.indicators, vec!["SP.POP.TOTL"]);
    assert_eq!(req.date_spec, DateSpec::Year(2015));
    assert_eq!(req.source_id, Some(2));
    let pc = req.config.plot_config.expect("chart configured");
    assert_eq!(pc.title, "World Bank Indicators");
    assert_eq!(pc.format, PlotFormat::Svg);

    let mut app2 = WbiApp::new("/out".to_string());
    app2.countries = "USA".to_string();
    app2.indicators = "X".to_string();
    app2.source_id = "abc".to_string();
    let req2 = app2.start_operation().unwrap();
    assert_eq!(req2.date_spec, DateSpec::Range { start: 2010, end: 2020 });
    assert_eq!(req2.source_id, None);
    assert!(req2.config.plot_config.is_none());
}

#[test]
fn check_operation_result_updates_status() {
    let mut app = WbiApp::new("/tmp".to_string());
    app.is_loading = true;
    app.error_message = "old".to_string();
    app.check_operation_result(None);
    assert!(app.is_loading);
    app.check_operation_result(Some(OperationResult::Success("done".to_string())));
    assert!(!app.is_loading);
    assert_eq!(app.status_message, "done");
    assert_eq!(app.error_message, "");
    app.is_loading = true;
    app.check_operation_result(Some(OperationResult::Error("bad".to_string())));
    assert!(!app.is_loading);
    assert_eq!(app.error_message, "bad");
    assert_eq!(app.status_message, "");
}

#[test]
fn output_plan_names_files_in_order() {
    let both = OperationConfig {
        export_format: ExportFormat::Both,
        output_path: "/tmp".to_string(),
        plot_config: Some(PlotConfig {
            format: PlotFormat::Png,
            width: 800,
            height: 600,
            title: "t".to_string(),
            locale: "en".to_string(),
            legend_position: LegendPosition::Bottom,
            kind: PlotKindOption::Line,
            country_styles: false,
        }),
    };
    let plan = output_plan(&both);
    assert_eq!(plan.len(), 3);
    assert_eq!(plan[0], (OutputKind::Csv, "wbi_data.csv".to_string()));
    assert_eq!(plan[1], (OutputKind::Json, "wbi_data.json".to_string()));
    assert_eq!(plan[2], (OutputKind::Chart, "wbi_chart.png".to_string()));

    let json_only = OperationConfig {
        export_format: ExportFormat::Json,
        output_path: "/tmp".to_string(),
        plot_config: None,
    };
    let plan = output_plan(&json_only);
    assert_eq!(plan, vec![(OutputKind::Json, "wbi_data.json".to_string())]);
}

#[test]
fn operation_reports() {
    match failure_message(Some(OutputKind::Csv), "disk full") {
        OperationResult::Error(m) => assert_eq!(m, "Failed to save CSV: disk full"),
        _ => panic!("expected error"),
    }
    match failure_message(None, "timeout") {
        OperationResult::Error(m) => assert_eq!(m, "Failed to fetch data: timeout"),
        _ => panic!("expected error"),
    }
    match no_data_result() {
        OperationResult::Error(m) => assert!(m.starts_with("No data returned from the API.")),
        _ => panic!("expected error"),
    }
    match success_result(12, &vec!["/a/wbi_data.csv".to_string(), "/a/wbi_chart.svg".to_string()])
    {
        OperationResult::Success(m) => assert_eq!(
            m,
            "Successfully processed 12 data points!\n\nFiles created:\n/a/wbi_data.csv\n/a/wbi_chart.svg"
        ),
        _ => panic!("expected success"),
    }
    match success_result(0, &vec![]) {
        OperationResult::Success(m) => assert_eq!(m, "Successfully processed 0 data points!"),
        _ => panic!("expected success"),
    }
}

#[test]
fn test_export_format_logic() {
    let temp_dir = tempfile::TempDir::new().unwrap();
    let base_path = temp_dir.path();

    let csv_path = base_path.join("wbi_data.csv");
    assert_eq!(csv_path.extension().unwrap(), "csv");

    let json_path = base_path.join("wbi_data.json");
    assert_eq!(json_path.extension().unwrap(), "json");

    let png_path = base_path.join("wbi_chart.png");
    assert_eq!(png_path.extension().unwrap(), "png");

    let svg_path = base_path.join("wbi_chart.svg");
    assert_eq!(svg_path.extension().unwrap(), "svg");
}
