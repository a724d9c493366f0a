use wbi_rs::style::{
    assign_country_styles, assign_country_styles_with_palette, ms_office_palette_vec, LineDash,
    MarkerShape, Rgba, SeriesKey,
};

#[test]
fn test_series_key_creation() {
    let key = SeriesKey::new("USA".to_string(), "GDP".to_string());
    assert_eq!(key.country, "USA");
    assert_eq!(key.indicator, "GDP");
}

#[test]
fn test_rgba_creation() {
    let color = Rgba::rgb(255, 128, 64);
    assert_eq!(color.r, 255);
    assert_eq!(color.g, 128);
    assert_eq!(color.b, 64);
    assert_eq!(color.a, 255);
}

#[test]
fn rgba_new_keeps_alpha() {
    let c = Rgba::new(1, 2, 3, 4);
    assert_eq!(c, Rgba { r: 1, g: 2, b: 3, a: 4 });
}

fn find<'a>(
    styles: &'a [(SeriesKey, wbi_rs::style::StyleChoice)],
    key: &SeriesKey,
) -> &'a wbi_rs::style::StyleChoice {
    &styles.iter().find(|(k, _)| k == key).unwrap().1
}

#[test]
fn test_country_consistent_styles() {
    let series = vec![
        SeriesKey::new("USA".to_string(), "GDP".to_string()),
        SeriesKey::new("USA".to_string(), "Population".to_string()),
        SeriesKey::new("DEU".to_string(), "GDP".to_string()),
        SeriesKey::new("DEU".to_string(), "Population".to_string()),
    ];
    let styles = assign_country_styles(&series, 255);

    // Same country should have the same base colour.
    let usa_gdp = find(&styles, &series[0]).base_color;
    let usa_pop = find(&styles, &series[1]).base_color;
    assert_eq!(usa_gdp, usa_pop);
    let deu_gdp = find(&styles, &series[2]).base_color;
    let deu_pop = find(&styles, &series[3]).base_color;
    assert_eq!(deu_gdp, deu_pop);

    // Different countries get different base colours here.
    assert_ne!(usa_gdp, deu_gdp);

    // Determinism: running again gives the same result.
    let styles2 = assign_country_styles(&series, 255);
    assert_eq!(styles, styles2);
}

#[test]
fn test_deterministic_assignment() {
    let series = vec![
        SeriesKey::new("FRA".to_string(), "inflation".to_string()),
        SeriesKey::new("GBR".to_string(), "inflation".to_string()),
    ];
    let styles1 = assign_country_styles(&series, 200);
    let styles2 = assign_country_styles(&series, 200);
    assert_eq!(styles1, styles2);
    assert_eq!(styles1.len(), 2);
    assert_eq!(styles1[0].0, series[0]);
    assert_eq!(styles1[1].0, series[1]);
    // Same indicator: same marker, dash and brightness seed.
    assert_eq!(styles1[0].1.marker, styles1[1].1.marker);
    assert_eq!(styles1[0].1.dash, styles1[1].1.dash);
    assert_eq!(styles1[0].1.brightness_seed, styles1[1].1.brightness_seed);
}

#[test]
fn style_choice_fields_are_in_range() {
    let palette = ms_office_palette_vec();
    let series = vec![SeriesKey::new("JPN".to_string(), "SP.POP.TOTL".to_string())];
    let styles = assign_country_styles_with_palette(&series, &palette, 255);
    let s = styles[0].1;
    assert!(s.palette_index < 10);
    assert_eq!(s.base_color, palette[s.palette_index]);
    assert!(s.brightness_seed < 100);
    let _ = matches!(s.marker, MarkerShape::Circle | MarkerShape::X | MarkerShape::Square
        | MarkerShape::Triangle | MarkerShape::Diamond | MarkerShape::Cross);
    let _ = matches!(s.dash, LineDash::Solid | LineDash::Dash | LineDash::Dot | LineDash::DashDot);
}

#[test]
fn single_colour_palette_gives_every_country_that_colour() {
    let palette = vec![(1u8, 2u8, 3u8)];
    let series = vec![
        SeriesKey::new("A".to_string(), "x".to_string()),
        SeriesKey::new("B".to_string(), "y".to_string()),
    ];
    let styles = assign_country_styles_with_palette(&series, &palette, 255);
    assert_eq!(styles[0].1.base_color, (1, 2, 3));
    assert_eq!(styles[1].1.base_color, (1, 2, 3));
    assert_eq!(styles[0].1.palette_index, 0);
}

#[test]
fn duplicate_keys_get_one_entry_and_alpha_is_kept() {
    let series = vec![
        SeriesKey::new("USA".to_string(), "GDP".to_string()),
        SeriesKey::new("DEU".to_string(), "GDP".to_string()),
        SeriesKey::new("USA".to_string(), "GDP".to_string()),
    ];
    let styles = assign_country_styles(&series, 128);
    assert_eq!(styles.len(), 2);
    assert_eq!(styles[0].0, series[0]);
    assert_eq!(styles[1].0, series[1]);
    assert!(styles.iter().all(|(_, c)| c.alpha == 128));
}

#[test]
fn office_colour_cycles_through_the_palette() {
    let p = ms_office_palette_vec();
    assert_eq!(wbi_rs::style::office_color(0), p[0]);
    assert_eq!(wbi_rs::style::office_color(3), (255, 192, 0));
    assert_eq!(wbi_rs::style::office_color(13), p[3]);
}
