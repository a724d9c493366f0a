//! Decision logic of the desktop front end: the form state, its validation,
//! the request a started operation hands to the background worker, the plan
//! of files the worker writes, and how a finished operation updates the form.

use vstd::prelude::*;
use crate::chars::{trim, is_blank, append_str};
use crate::cli::parse_list;
use crate::cli::parse_list_spec;
use crate::decimal::{parse_u32, parse_u32_spec, dec_digits, u64_digits};
use crate::models::DateSpec;
use crate::viz::{LegendMode, PlotKind};

verus! {

#[derive(Debug, Clone, Copy, PartialEq, Eq, Structural)]
pub enum ExportFormat {
    Csv,
    Json,
    Both,
}

#[derive(Debug, Clone, Copy, PartialEq, Eq, Structural)]
pub enum PlotFormat {
    Png,
    Svg,
}

#[derive(Debug, Clone, Copy, PartialEq, Eq, Structural)]
pub enum LegendPosition {
    Bottom,
    Right,
    Top,
    Inside,
}

#[derive(Debug, Clone, Copy, PartialEq, Eq, Structural)]
pub enum PlotKindOption {
    Line,
    Scatter,
    LinePoints,
    Area,
    StackedArea,
    GroupedBar,
    Loess,
}

/// Outcome reported by the background worker.
#[derive(Debug, Clone)]
pub enum OperationResult {
    Success(String),
    Error(String),
}

/// The form state of the front end.
#[derive(Debug, Clone)]
pub struct WbiApp {
    pub countries: String,
    pub indicators: String,
    pub date_from: i32,
    pub date_until: i32,
    pub export_format: ExportFormat,
    pub output_path: String,
    pub create_plot: bool,
    pub plot_format: PlotFormat,
    pub plot_width: u32,
    pub plot_height: u32,
    pub source_id: String,
    pub plot_title: String,
    pub locale: String,
    pub legend_position: LegendPosition,
    pub plot_kind: PlotKindOption,
    pub country_styles: bool,
    pub is_loading: bool,
    pub status_message: String,
    pub error_message: String,
}

/// Why the form cannot be submitted.
#[derive(Debug, Clone, Copy, PartialEq, Eq, Structural)]
pub enum InputError {
    NoCountries,
    NoIndicators,
    StartAfterEnd,
    YearsOutOfRange,
    NoOutputDir,
    PlotWidth,
    PlotHeight,
}

/// The text shown for an input error.
pub open spec fn input_error_text(e: InputError) -> Seq<char> {
    match e {
        InputError::NoCountries => "Please enter at least one country code (e.g., USA, DEU, CHN)"@,
        InputError::NoIndicators => "Please enter at least one indicator code (e.g., SP.POP.TOTL)"@,
        InputError::StartAfterEnd => "Start year cannot be later than end year"@,
        InputError::YearsOutOfRange => "Years should be between 1960 and 2030"@,
        InputError::NoOutputDir => "Please specify an output directory"@,
        InputError::PlotWidth => "Plot width must be between 200 and 3000 pixels"@,
        InputError::PlotHeight => "Plot height must be between 200 and 3000 pixels"@,
    }
}

impl InputError {
    /// The text shown for this error.
    pub fn message(&self) -> (m: String)
        ensures
            m@ == input_error_text(*self),
    {
        let mut m = String::new();
        match self {
            InputError::NoCountries => append_str(
                &mut m,
                "Please enter at least one country code (e.g., USA, DEU, CHN)",
            ),
            InputError::NoIndicators => append_str(
                &mut m,
                "Please enter at least one indicator code (e.g., SP.POP.TOTL)",
            ),
            InputError::StartAfterEnd => append_str(
                &mut m,
                "Start year cannot be later than end year",
            ),
            InputError::YearsOutOfRange => append_str(
                &mut m,
                "Years should be between 1960 and 2030",
            ),
            InputError::NoOutputDir => append_str(&mut m, "Please specify an output directory"),
            InputError::PlotWidth => append_str(
                &mut m,
                "Plot width must be between 200 and 3000 pixels",
            ),
            InputError::PlotHeight => append_str(
                &mut m,
                "Plot height must be between 200 and 3000 pixels",
            ),
        }
        assert(m@ =~= input_error_text(*self));
        m
    }
}

/// First problem with a year range: start after end, then years outside
/// `1960..=2030`.
pub open spec fn date_range_error(from: i32, until: i32) -> Option<InputError> {
    if from > until {
        Some(InputError::StartAfterEnd)
    } else if from < 1960 || until > 2030 {
        Some(InputError::YearsOutOfRange)
    } else {
        None
    }
}

/// First problem with plot dimensions: each must lie in `200..=3000`.
pub open spec fn plot_dimensions_error(width: u32, height: u32) -> Option<InputError> {
    if width < 200 || width > 3000 {
        Some(InputError::PlotWidth)
    } else if height < 200 || height > 3000 {
        Some(InputError::PlotHeight)
    } else {
        None
    }
}

/// First problem with the form, checked in this order: countries,
/// indicators, year range, output directory, then plot size when a chart is
/// requested.
pub open spec fn form_error(app: WbiApp) -> Option<InputError> {
    if trim(app.countries@).len() == 0 {
        Some(InputError::NoCountries)
    } else if trim(app.indicators@).len() == 0 {
        Some(InputError::NoIndicators)
    } else if date_range_error(app.date_from, app.date_until) is Some {
        date_range_error(app.date_from, app.date_until)
    } else if trim(app.output_path@).len() == 0 {
        Some(InputError::NoOutputDir)
    } else if app.create_plot {
        plot_dimensions_error(app.plot_width, app.plot_height)
    } else {
        None
    }
}

/// Checks a year range.
pub fn validate_date_range(from: i32, until: i32) -> (r: Result<(), InputError>)
    ensures
        match date_range_error(from, until) {
            Some(e) => r == Err::<(), InputError>(e),
            None => r is Ok,
        },
{
    if from > until {
        return Err(InputError::StartAfterEnd);
    }
    if from < 1960 || until > 2030 {
        return Err(InputError::YearsOutOfRange);
    }
    Ok(())
}

/// Checks plot dimensions.
pub fn validate_plot_dimensions(width: u32, height: u32) -> (r: Result<(), InputError>)
    ensures
        match plot_dimensions_error(width, height) {
            Some(e) => r == Err::<(), InputError>(e),
            None => r is Ok,
        },
{
    if width < 200 || width > 3000 {
        return Err(InputError::PlotWidth);
    }
    if height < 200 || height > 3000 {
        return Err(InputError::PlotHeight);
    }
    Ok(())
}

/// What the background worker is asked to do.
#[derive(Debug, Clone)]
pub struct OperationRequest {
    pub countries: Vec<String>,
    pub indicators: Vec<String>,
    pub date_spec: DateSpec,
    pub source_id: Option<u32>,
    pub config: OperationConfig,
}

#[derive(Debug, Clone)]
pub struct OperationConfig {
    pub export_format: ExportFormat,
    pub output_path: String,
    pub plot_config: Option<PlotConfig>,
}

#[derive(Debug, Clone)]
pub struct PlotConfig {
    pub format: PlotFormat,
    pub width: u32,
    pub height: u32,
    pub title: String,
    pub locale: String,
    pub legend_position: LegendPosition,
    pub kind: PlotKindOption,
    pub country_styles: bool,
}

/// A single year when both ends agree, else the inclusive range.
pub open spec fn form_date_spec(from: i32, until: i32) -> DateSpec {
    if from == until {
        DateSpec::Year(from)
    } else {
        DateSpec::Range { start: from, end: until }
    }
}

/// No source id when the field is blank; otherwise the field parsed as
/// `u32` (no source id when it does not parse).
pub open spec fn form_source_id(field: Seq<char>) -> Option<u32> {
    if trim(field).len() == 0 {
        None
    } else {
        parse_u32_spec(field)
    }
}

/// The chart title: the field, or "World Bank Indicators" when blank.
pub open spec fn form_plot_title(field: Seq<char>) -> Seq<char> {
    if trim(field).len() == 0 {
        "World Bank Indicators"@
    } else {
        field
    }
}

/// Whether `req` is the request the form `app` describes.
pub open spec fn request_of(app: WbiApp, req: OperationRequest) -> bool {
    &&& req.countries@.map_values(|x: String| x@) == parse_list_spec(app.countries@)
    &&& req.indicators@.map_values(|x: String| x@) == parse_list_spec(app.indicators@)
    &&& req.date_spec == form_date_spec(app.date_from, app.date_until)
    &&& req.source_id == form_source_id(app.source_id@)
    &&& req.config.export_format == app.export_format
    &&& req.config.output_path@ == app.output_path@
    &&& match req.config.plot_config {
        Some(pc) => {
            &&& app.create_plot
            &&& pc.format == app.plot_format
            &&& pc.width == app.plot_width
            &&& pc.height == app.plot_height
            &&& pc.title@ == form_plot_title(app.plot_title@)
            &&& pc.locale@ == app.locale@
            &&& pc.legend_position == app.legend_position
            &&& pc.kind == app.plot_kind
            &&& pc.country_styles == app.country_styles
        },
        None => !app.create_plot,
    }
}

/// Whether `b` is `a` with only the three status fields possibly changed.
pub open spec fn same_form(a: WbiApp, b: WbiApp) -> bool {
    &&& a.countries@ == b.countries@
    &&& a.indicators@ == b.indicators@
    &&& a.date_from == b.date_from
    &&& a.date_until == b.date_until
    &&& a.export_format == b.export_format
    &&& a.output_path@ == b.output_path@
    &&& a.create_plot == b.create_plot
    &&& a.plot_format == b.plot_format
    &&& a.plot_width == b.plot_width
    &&& a.plot_height == b.plot_height
    &&& a.source_id@ == b.source_id@
    &&& a.plot_title@ == b.plot_title@
    &&& a.locale@ == b.locale@
    &&& a.legend_position == b.legend_position
    &&& a.plot_kind == b.plot_kind
    &&& a.country_styles == b.country_styles
}

fn copy_string(s: &String) -> (r: String)
    ensures
        r@ == s@,
{
    let mut r = String::new();
    append_str(&mut r, s.as_str());
    assert(r@ =~= s@);
    r
}

impl WbiApp {
    /// The initial form: years 2010..2020, CSV export to `home_dir`, no chart
    /// (1000 x 600 PNG when enabled), English locale, legend at the bottom,
    /// line chart, everything else empty.
    pub fn new(home_dir: String) -> (app: WbiApp)
        ensures
            app.countries@.len() == 0,
            app.indicators@.len() == 0,
            app.date_from == 2010,
            app.date_until == 2020,
            app.export_format == ExportFormat::Csv,
            app.output_path@ == home_dir@,
            !app.create_plot,
            app.plot_format == PlotFormat::Png,
            app.plot_width == 1000,
            app.plot_height == 600,
            app.source_id@.len() == 0,
            app.plot_title@.len() == 0,
            app.locale@ == "en"@,
            app.legend_position == LegendPosition::Bottom,
            app.plot_kind == PlotKindOption::Line,
            !app.country_styles,
            !app.is_loading,
            app.status_message@.len() == 0,
            app.error_message@.len() == 0,
    {
        let mut locale = String::new();
        append_str(&mut locale, "en");
        WbiApp {
            countries: String::new(),
            indicators: String::new(),
            date_from: 2010,
            date_until: 2020,
            export_format: ExportFormat::Csv,
            output_path: home_dir,
            create_plot: false,
            plot_format: PlotFormat::Png,
            plot_width: 1000,
            plot_height: 600,
            source_id: String::new(),
            plot_title: String::new(),
            locale,
            legend_position: LegendPosition::Bottom,
            plot_kind: PlotKindOption::Line,
            country_styles: false,
            is_loading: false,
            status_message: String::new(),
            error_message: String::new(),
        }
    }

    /// Checks the form; the first problem found is reported.
    pub fn validate_inputs(&self) -> (r: Result<(), InputError>)
        ensures
            match form_error(*self) {
                Some(e) => r == Err::<(), InputError>(e),
                None => r is Ok,
            },
    {
        if is_blank(self.countries.as_str()) {
            return Err(InputError::NoCountries);
        }
        if is_blank(self.indicators.as_str()) {
            return Err(InputError::NoIndicators);
        }
        match validate_date_range(self.date_from, self.date_until) {
            Err(e) => {
                return Err(e);
            },
            Ok(()) => {},
        }
        if is_blank(self.output_path.as_str()) {
            return Err(InputError::NoOutputDir);
        }
        if self.create_plot {
            return validate_plot_dimensions(self.plot_width, self.plot_height);
        }
        Ok(())
    }

    /// Starts an operation: on invalid input, sets the error text
    /// `"Validation error: <message>"` and returns `None`; otherwise marks
    /// the form busy, clears the error, shows the fetching status and returns
    /// the request for the background worker.
    pub fn start_operation(&mut self) -> (req: Option<OperationRequest>)
        ensures
            same_form(*old(self), *final(self)),
            match form_error(*old(self)) {
                Some(e) => {
                    &&& req is None
                    &&& final(self).error_message@ == "Validation error: "@ + input_error_text(e)
                    &&& final(self).is_loading == old(self).is_loading
                    &&& final(self).status_message@ == old(self).status_message@
                },
                None => {
                    &&& final(self).is_loading
                    &&& final(self).error_message@.len() == 0
                    &&& final(self).status_message@ == "Fetching data from World Bank API..."@
                    &&& match req {
                        Some(r) => request_of(*old(self), r),
                        None => false,
                    }
                },
            },
    {
        match self.validate_inputs() {
            Err(e) => {
                let mut m = String::new();
                append_str(&mut m, "Validation error: ");
                let t = e.message();
                append_str(&mut m, t.as_str());
                self.error_message = m;
                return None;
            },
            Ok(()) => {},
        }
        self.is_loading = true;
        self.error_message = String::new();
        let mut st = String::new();
        append_str(&mut st, "Fetching data from World Bank API...");
        self.status_message = st;

        let countries = parse_list(self.countries.as_str());
        let indicators = parse_list(self.indicators.as_str());
        let date_spec = if self.date_from == self.date_until {
            DateSpec::Year(self.date_from)
        } else {
            DateSpec::Range { start: self.date_from, end: self.date_until }
        };
        let source_id = if is_blank(self.source_id.as_str()) {
            None
        } else {
            parse_u32(self.source_id.as_str())
        };
        let plot_config = if self.create_plot {
            let title = if is_blank(self.plot_title.as_str()) {
                let mut t = String::new();
                append_str(&mut t, "World Bank Indicators");
                t
            } else {
                copy_string(&self.plot_title)
            };
            Some(
                PlotConfig {
                    format: self.plot_format,
                    width: self.plot_width,
                    height: self.plot_height,
                    title,
                    locale: copy_string(&self.locale),
                    legend_position: self.legend_position,
                    kind: self.plot_kind,
                    country_styles: self.country_styles,
                },
            )
        } else {
            None
        };
        let config = OperationConfig {
            export_format: self.export_format,
            output_path: copy_string(&self.output_path),
            plot_config,
        };
        Some(OperationRequest { countries, indicators, date_spec, source_id, config })
    }

    /// Takes in a finished operation, if one was received: the form is no
    /// longer busy, and a success shows its message as status (clearing the
    /// error) while a failure shows its message as error (clearing the
    /// status). Nothing changes when nothing was received.
    pub fn check_operation_result(&mut self, received: Option<OperationResult>)
        ensures
            same_form(*old(self), *final(self)),
            match received {
                None => {
                    &&& final(self).is_loading == old(self).is_loading
                    &&& final(self).status_message@ == old(self).status_message@
                    &&& final(self).error_message@ == old(self).error_message@
                },
                Some(OperationResult::Success(m)) => {
                    &&& !final(self).is_loading
                    &&& final(self).status_message@ == m@
                    &&& final(self).error_message@.len() == 0
                },
                Some(OperationResult::Error(m)) => {
                    &&& !final(self).is_loading
                    &&& final(self).error_message@ == m@
                    &&& final(self).status_message@.len() == 0
                },
            },
    {
        match received {
            None => {},
            Some(result) => {
                self.is_loading = false;
                match result {
                    OperationResult::Success(message) => {
                        self.status_message = message;
                        self.error_message = String::new();
                    },
                    OperationResult::Error(error) => {
                        self.error_message = error;
                        self.status_message = String::new();
                    },
                }
            },
        }
    }
}

// ------------------------------------------------------------------
// The worker's plan
// ------------------------------------------------------------------

/// What one output step writes.
#[derive(Debug, Clone, Copy, PartialEq, Eq, Structural)]
pub enum OutputKind {
    Csv,
    Json,
    Chart,
}

/// File name of an output step inside the output directory.
pub open spec fn output_file_name(k: OutputKind, chart: PlotFormat) -> Seq<char> {
    match k {
        OutputKind::Csv => "wbi_data.csv"@,
        OutputKind::Json => "wbi_data.json"@,
        OutputKind::Chart => match chart {
            PlotFormat::Png => "wbi_chart.png"@,
            PlotFormat::Svg => "wbi_chart.svg"@,
        },
    }
}

/// The output steps of a configuration, in the order they run: CSV (for CSV
/// or both), JSON (for JSON or both), then the chart when one is configured.
pub open spec fn output_kinds(export: ExportFormat, chart: bool) -> Seq<OutputKind> {
    let data: Seq<OutputKind> = match export {
        ExportFormat::Csv => seq![OutputKind::Csv],
        ExportFormat::Json => seq![OutputKind::Json],
        ExportFormat::Both => seq![OutputKind::Csv, OutputKind::Json],
    };
    if chart {
        data.push(OutputKind::Chart)
    } else {
        data
    }
}

/// The steps of a configuration with their file names.
pub fn output_plan(config: &OperationConfig) -> (plan: Vec<(OutputKind, String)>)
    ensures
        plan@.len() == output_kinds(config.export_format, config.plot_config is Some).len(),
        forall|i: int|
            0 <= i < plan@.len() ==> {
                &&& (#[trigger] plan@[i]).0 == output_kinds(
                    config.export_format,
                    config.plot_config is Some,
                )[i]
                &&& plan@[i].1@ == output_file_name(
                    plan@[i].0,
                    match config.plot_config {
                        Some(pc) => pc.format,
                        None => PlotFormat::Png,
                    },
                )
            },
{
    let mut plan: Vec<(OutputKind, String)> = Vec::new();
    let chart_format = match &config.plot_config {
        Some(pc) => pc.format,
        None => PlotFormat::Png,
    };
    match config.export_format {
        ExportFormat::Csv | ExportFormat::Both => {
            let mut n = String::new();
            append_str(&mut n, "wbi_data.csv");
            plan.push((OutputKind::Csv, n));
        },
        _ => {},
    }
    match config.export_format {
        ExportFormat::Json | ExportFormat::Both => {
            let mut n = String::new();
            append_str(&mut n, "wbi_data.json");
            plan.push((OutputKind::Json, n));
        },
        _ => {},
    }
    if config.plot_config.is_some() {
        let mut n = String::new();
        match chart_format {
            PlotFormat::Png => append_str(&mut n, "wbi_chart.png"),
            PlotFormat::Svg => append_str(&mut n, "wbi_chart.svg"),
        }
        plan.push((OutputKind::Chart, n));
    }
    proof {
        let ks = output_kinds(config.export_format, config.plot_config is Some);
        assert(plan@.len() == ks.len());
        assert forall|i: int| 0 <= i < plan@.len() implies (#[trigger] plan@[i]).0 == ks[i] by {
        }
    }
    plan
}

/// The legend placement a form choice stands for.
pub open spec fn legend_mode_of(p: LegendPosition) -> LegendMode {
    match p {
        LegendPosition::Bottom => LegendMode::Bottom,
        LegendPosition::Right => LegendMode::Right,
        LegendPosition::Top => LegendMode::Top,
        LegendPosition::Inside => LegendMode::Inside,
    }
}

/// Converts a legend choice of the form.
pub fn legend_mode(p: LegendPosition) -> (m: LegendMode)
    ensures
        m == legend_mode_of(p),
{
    match p {
        LegendPosition::Bottom => LegendMode::Bottom,
        LegendPosition::Right => LegendMode::Right,
        LegendPosition::Top => LegendMode::Top,
        LegendPosition::Inside => LegendMode::Inside,
    }
}

/// The chart kind a form choice stands for.
pub open spec fn plot_kind_of(k: PlotKindOption) -> PlotKind {
    match k {
        PlotKindOption::Line => PlotKind::Line,
        PlotKindOption::Scatter => PlotKind::Scatter,
        PlotKindOption::LinePoints => PlotKind::LinePoints,
        PlotKindOption::Area => PlotKind::Area,
        PlotKindOption::StackedArea => PlotKind::StackedArea,
        PlotKindOption::GroupedBar => PlotKind::GroupedBar,
        PlotKindOption::Loess => PlotKind::Loess,
    }
}

/// Converts a chart-kind choice of the form.
pub fn plot_kind(k: PlotKindOption) -> (r: PlotKind)
    ensures
        r == plot_kind_of(k),
{
    match k {
        PlotKindOption::Line => PlotKind::Line,
        PlotKindOption::Scatter => PlotKind::Scatter,
        PlotKindOption::LinePoints => PlotKind::LinePoints,
        PlotKindOption::Area => PlotKind::Area,
        PlotKindOption::StackedArea => PlotKind::StackedArea,
        PlotKindOption::GroupedBar => PlotKind::GroupedBar,
        PlotKindOption::Loess => PlotKind::Loess,
    }
}

/// The text reported when a step fails: `"Failed to <step>: <error>"`.
pub open spec fn failure_text(step: Option<OutputKind>, err: Seq<char>) -> Seq<char> {
    match step {
        None => "Failed to fetch data: "@ + err,
        Some(OutputKind::Csv) => "Failed to save CSV: "@ + err,
        Some(OutputKind::Json) => "Failed to save JSON: "@ + err,
        Some(OutputKind::Chart) => "Failed to create chart: "@ + err,
    }
}

/// The failure report of the fetch (`None`) or of an output step.
pub fn failure_message(step: Option<OutputKind>, err: &str) -> (r: OperationResult)
    ensures
        match r {
            OperationResult::Error(m) => m@ == failure_text(step, err@),
            _ => false,
        },
{
    let mut m = String::new();
    match step {
        None => append_str(&mut m, "Failed to fetch data: "),
        Some(OutputKind::Csv) => append_str(&mut m, "Failed to save CSV: "),
        Some(OutputKind::Json) => append_str(&mut m, "Failed to save JSON: "),
        Some(OutputKind::Chart) => append_str(&mut m, "Failed to create chart: "),
    }
    append_str(&mut m, err);
    OperationResult::Error(m)
}

/// The report when the fetch returned no rows.
pub fn no_data_result() -> (r: OperationResult)
    ensures
        match r {
            OperationResult::Error(m) => m@
                == "No data returned from the API. Please check your country and indicator codes."@,
            _ => false,
        },
{
    let mut m = String::new();
    append_str(
        &mut m,
        "No data returned from the API. Please check your country and indicator codes.",
    );
    OperationResult::Error(m)
}

/// The files line of a success report: each path on its own line.
pub open spec fn joined_lines(files: Seq<Seq<char>>) -> Seq<char>
    decreases files.len(),
{
    if files.len() == 0 {
        Seq::empty()
    } else if files.len() == 1 {
        files[0]
    } else {
        joined_lines(files.drop_last()) + seq!['\n'] + files.last()
    }
}

/// The success report: `"Successfully processed <n> data points!"`, followed
/// by `"\n\nFiles created:\n"` and the files one per line when any were
/// written.
pub open spec fn success_text(n: nat, files: Seq<Seq<char>>) -> Seq<char> {
    let head = "Successfully processed "@ + dec_digits(n) + " data points!"@;
    if files.len() == 0 {
        head
    } else {
        head + "\n\nFiles created:\n"@ + joined_lines(files)
    }
}

/// The report of a completed operation.
pub fn success_result(n_points: usize, files: &Vec<String>) -> (r: OperationResult)
    ensures
        match r {
            OperationResult::Success(m) => m@ == success_text(
                n_points as nat,
                files@.map_values(|f: String| f@),
            ),
            _ => false,
        },
{
    let ghost fv = files@.map_values(|f: String| f@);
    let mut m = String::new();
    append_str(&mut m, "Successfully processed ");
    let d = u64_digits(n_points as u64);
    crate::chars::append_chars(&mut m, d.as_slice());
    append_str(&mut m, " data points!");
    let ghost head = m@;
    if files.len() > 0 {
        append_str(&mut m, "\n\nFiles created:\n");
        let ghost mid = m@;
        let mut i: usize = 0;
        while i < files.len()
            invariant
                i <= files@.len(),
                files@.len() > 0,
                fv == files@.map_values(|f: String| f@),
                m@ == mid + joined_lines(fv.take(i as int)),
            decreases files@.len() - i,
        {
            assert(fv.take(i + 1).drop_last() =~= fv.take(i as int));
            assert(fv.take(i + 1).last() == files@[i as int]@);
            if i > 0 {
                crate::chars::push_char(&mut m, '\n');
            }
            append_str(&mut m, files[i].as_str());
            proof {
                if i == 0 {
                    assert(fv.take(1) =~= seq![files@[0]@]);
                }
            }
            assert(m@ =~= mid + joined_lines(fv.take(i + 1)));
            i = i + 1;
        }
        assert(fv.take(files@.len() as int) =~= fv);
    }
    OperationResult::Success(m)
}

} // verus!
