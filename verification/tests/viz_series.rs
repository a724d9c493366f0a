use wbi_rs::models::DataPoint;
use wbi_rs::viz::series::{
    chart_title, check_chart_input, legend_labels, prepare_series, x_label_count, year_bounds,
    years_fit, ChartError,
};
use wbi_rs::viz::util::{series_colors, ColorChoice};

fn p(ind: &str, ind_name: &str, iso: &str, cname: &str, year: i32, v: Option<f64>) -> DataPoint {
    DataPoint {
        indicator_id: ind.into(),
        indicator_name: ind_name.into(),
        country_id: "XX".into(),
        country_name: cname.into(),
        country_iso3: iso.into(),
        year,
        value: v.map(f64::to_bits),
        unit: None,
        obs_status: None,
        decimal: None,
    }
}

#[test]
fn series_are_grouped_sorted_and_labelled() {
    let pts = vec![
        p("POP", "Population", "USA", "United States", 2021, Some(2.0)),
        p("POP", "Population", "USA", "United States", 2020, Some(1.0)),
        p("POP", "Population", "DEU", "Germany", 2020, Some(3.0)),
        p("POP", "Population", "DEU", "Germany", 0, Some(9.0)),
        p("POP", "Population", "FRA", "France", 2020, None),
        p("GDP", "GDP", "DEU", "Germany", 2019, Some(4.0)),
    ];
    let s = prepare_series(&pts);
    let order: Vec<(String, String)> =
        s.iter().map(|x| (x.country_label.clone(), x.indicator_label.clone())).collect();
    assert_eq!(
        order,
        vec![
            ("Germany".to_string(), "GDP".to_string()),
            ("Germany".to_string(), "Population".to_string()),
            ("United States".to_string(), "Population".to_string()),
        ]
    );
    let usa: Vec<(i32, f64)> =
        s[2].points.iter().map(|(y, b)| (*y, f64::from_bits(*b))).collect();
    assert_eq!(usa, vec![(2020, 1.0), (2021, 2.0)]);
    assert_eq!(s[1].points.len(), 1);

    let labels = legend_labels(&pts, &s, false, false);
    assert_eq!(
        labels,
        vec!["Germany \u{2014} GDP", "Germany \u{2014} Population", "United States \u{2014} Population"]
    );
    let loess = legend_labels(&pts, &s, true, false);
    assert_eq!(loess[0], "Germany \u{2014} GDP (LOESS)");
}

#[test]
fn labels_shorten_for_single_indicator_or_country() {
    let one_ind = vec![
        p("POP", "Population", "USA", "United States", 2020, Some(1.0)),
        p("POP", "Population", "DEU", "Germany", 2020, Some(2.0)),
    ];
    let s = prepare_series(&one_ind);
    assert_eq!(legend_labels(&one_ind, &s, false, false), vec!["Germany", "United States"]);

    let one_country = vec![
        p("POP", "Population", "DEU", "Germany", 2020, Some(1.0)),
        p("GDP", "GDP", "DEU", "Germany", 2020, Some(2.0)),
    ];
    let s = prepare_series(&one_country);
    assert_eq!(legend_labels(&one_country, &s, false, false), vec!["GDP", "Population"]);
}

#[test]
fn first_name_of_a_code_is_its_label() {
    let pts = vec![
        p("POP", "Population", "DEU", "Deutschland", 0, None),
        p("POP", "Population, total", "DEU", "Germany", 2020, Some(1.0)),
    ];
    let s = prepare_series(&pts);
    assert_eq!(s.len(), 1);
    assert_eq!(s[0].country_label, "Deutschland");
    assert_eq!(s[0].indicator_label, "Population");
}

#[test]
fn equal_years_keep_input_order() {
    let pts = vec![
        p("X", "X", "AAA", "A", 2001, Some(1.0)),
        p("X", "X", "AAA", "A", 2000, Some(2.0)),
        p("X", "X", "AAA", "A", 2001, Some(3.0)),
    ];
    let s = prepare_series(&pts);
    let v: Vec<f64> = s[0].points.iter().map(|(_, b)| f64::from_bits(*b)).collect();
    assert_eq!(v, vec![2.0, 1.0, 3.0]);
}

#[test]
fn year_axis_and_labels() {
    let pts = vec![p("X", "X", "AAA", "A", 2005, Some(1.0)), p("X", "X", "AAA", "A", 0, Some(1.0))];
    assert_eq!(year_bounds(&pts), Some((2004, 2006)));
    let pts2 = vec![p("X", "X", "AAA", "A", 1990, Some(1.0)), p("X", "X", "AAA", "A", 2020, None)];
    assert_eq!(year_bounds(&pts2), Some((1990, 2020)));
    assert_eq!(year_bounds(&[p("X", "X", "AAA", "A", 0, Some(1.0))]), None);
    assert_eq!(x_label_count(1990, 2020), 12);
    assert_eq!(x_label_count(2004, 2006), 3);
}

#[test]
fn chart_input_errors() {
    assert_eq!(check_chart_input(&[]), Err(ChartError::NoData));
    assert_eq!(ChartError::NoData.message(), "no data to plot");
    assert_eq!(
        check_chart_input(&[p("X", "X", "A", "A", 0, Some(1.0))]),
        Err(ChartError::NoValidYears)
    );
    assert_eq!(
        check_chart_input(&[p("X", "X", "A", "A", 2000, None)]),
        Err(ChartError::NoNumericValues)
    );
    assert_eq!(check_chart_input(&[p("X", "X", "A", "A", 2000, Some(2.0))]), Ok((1999, 2001)));
}

#[test]
fn chart_titles() {
    let one = vec![p("X", "GDP (current US$)", "A", "A", 2000, Some(1.0))];
    assert_eq!(chart_title("", &one), "GDP (current US$)");
    assert_eq!(chart_title("  World Bank Indicator(s) ", &one), "GDP (current US$)");
    assert_eq!(chart_title("  My chart ", &one), "My chart");
    assert_eq!(chart_title("", &[]), "World Bank Series");
    let three = vec![
        p("C", "Gamma", "A", "A", 2000, Some(1.0)),
        p("A", "Alpha", "A", "A", 2000, Some(1.0)),
        p("B", "Beta", "A", "A", 2000, Some(1.0)),
        p("A", "Alpha", "B", "B", 2000, Some(1.0)),
    ];
    assert_eq!(chart_title("", &three), "Alpha, Beta, Gamma");
    let mut five = three.clone();
    five.push(p("D", "Delta", "A", "A", 2000, Some(1.0)));
    five.push(p("E", "Epsilon", "A", "A", 2000, Some(1.0)));
    assert_eq!(chart_title("", &five), "Alpha + 4 more");
}

#[test]
fn colours_by_index_or_by_country_rank() {
    let pts = vec![
        p("POP", "Population", "USA", "United States", 2020, Some(1.0)),
        p("GDP", "GDP", "USA", "United States", 2020, Some(1.0)),
        p("POP", "Population", "DEU", "Germany", 2020, Some(1.0)),
    ];
    let s = prepare_series(&pts);
    let plain = series_colors(&s, false);
    assert_eq!(
        plain,
        vec![
            ColorChoice { palette_index: 0, brightness_seed: None },
            ColorChoice { palette_index: 1, brightness_seed: None },
            ColorChoice { palette_index: 2, brightness_seed: None },
        ]
    );
    let styled = series_colors(&s, true);
    // Germany ranks before the United States among the country codes.
    assert_eq!(styled[0].palette_index, 0);
    assert_eq!(styled[1].palette_index, 1);
    assert_eq!(styled[2].palette_index, 1);
    assert!(styled.iter().all(|c| c.brightness_seed.map_or(false, |b| b < 100)));
    assert_eq!(styled[0].brightness_seed, styled[2].brightness_seed);
}

#[test]
fn single_extreme_year_cannot_be_widened() {
    assert!(years_fit(&[p("X", "X", "AAA", "A", 2005, Some(1.0))]));
    assert!(years_fit(&[]));
    assert!(!years_fit(&[p("X", "X", "AAA", "A", i32::MAX, Some(1.0))]));
    assert!(!years_fit(&[p("X", "X", "AAA", "A", i32::MIN, Some(1.0))]));
    assert!(years_fit(&[
        p("X", "X", "AAA", "A", i32::MIN, Some(1.0)),
        p("X", "X", "AAA", "A", 1, Some(1.0)),
    ]));
}

fn points_two_china_series() -> Vec<DataPoint> {
    let mut v = Vec::new();
    for year in 2015..=2017 {
        let dy = year as f64 - 2015.0;
        v.push(p("SP.POP.TOTL", "Population Total", "CHN", "China", year, Some(1_370_000_000.0 + dy * 1_000_000.0)));
        v.push(p("SP.POP.TOTL.FE.IN", "Population Female %", "CHN", "China", year, Some(680_000_000.0 + dy * 500_000.0)));
        v.push(p("SP.POP.TOTL", "Population Total", "USA", "United States", year, Some(320_000_000.0 + dy * 1_000_000.0)));
    }
    v
}

#[test]
fn country_styles_legend_dedups_country_right() {
    let pts = points_two_china_series();
    assert!(check_chart_input(&pts).is_ok());
    let s = prepare_series(&pts);
    let labels = legend_labels(&pts, &s, false, true);
    assert_eq!(
        labels,
        vec![
            "China \u{2014} Population Female %".to_string(),
            "Population Total".to_string(),
            "United States \u{2014} Population Total".to_string(),
        ]
    );
    let count_china: usize = labels.iter().map(|l| l.matches("China").count()).sum();
    assert_eq!(count_china, 1);
}

#[test]
fn non_finite_values_are_not_plotted() {
    let pts = vec![p("X", "X", "AAA", "A", 2020, Some(f64::NAN)), p("X", "X", "AAA", "A", 2021, Some(f64::INFINITY))];
    assert_eq!(check_chart_input(&pts), Err(ChartError::NoNumericValues));
    assert!(prepare_series(&pts).is_empty());
    let mixed = vec![p("X", "X", "AAA", "A", 2020, Some(f64::NAN)), p("X", "X", "AAA", "A", 2021, Some(2.0))];
    assert_eq!(check_chart_input(&mixed), Ok((2020, 2021)));
    let s = prepare_series(&mixed);
    assert_eq!(s.len(), 1);
    assert_eq!(s[0].points, vec![(2021, 2.0f64.to_bits())]);
}

#[test]
fn replacing_non_finite_values_by_none_changes_nothing() {
    let with_nan = vec![
        p("X", "X (%)", "AAA", "A", 2020, Some(f64::NAN)),
        p("X", "X (%)", "AAA", "A", 2021, Some(2.0)),
        p("Y", "Y", "BBB", "B", 2022, Some(f64::INFINITY)),
    ];
    let with_none = vec![
        p("X", "X (%)", "AAA", "A", 2020, None),
        p("X", "X (%)", "AAA", "A", 2021, Some(2.0)),
        p("Y", "Y", "BBB", "B", 2022, None),
    ];
    assert_eq!(check_chart_input(&with_nan), check_chart_input(&with_none));
    let a = prepare_series(&with_nan);
    let b = prepare_series(&with_none);
    assert_eq!(a.len(), b.len());
    for (x, y) in a.iter().zip(b.iter()) {
        assert_eq!(x.points, y.points);
        assert_eq!(x.country_label, y.country_label);
    }
    assert_eq!(legend_labels(&with_nan, &a, false, true), legend_labels(&with_none, &b, false, true));
    assert_eq!(chart_title("", &with_nan), chart_title("", &with_none));
}
