use wbi_rs::cli::LocaleKind;
use wbi_rs::numfmt::fmt_float_with_locale;

fn fmt(x: f64, loc: LocaleKind, sep: char) -> String {
    fmt_float_with_locale(&format!("{:.4}", x), loc, sep)
}

#[test]
fn numbers_are_grouped_and_trimmed() {
    assert_eq!(fmt(1234567.5, LocaleKind::En, '.'), "1,234,567.5");
    assert_eq!(fmt(1234.0, LocaleKind::De, ','), "1.234");
    assert_eq!(fmt(-0.12, LocaleKind::En, '.'), "-0.12");
    assert_eq!(fmt(12.34, LocaleKind::Fr, ','), "12,34");
    assert_eq!(fmt(1234567.0, LocaleKind::Fr, ','), "1\u{202f}234\u{202f}567");
    assert_eq!(fmt(0.0, LocaleKind::En, '.'), "0");
    assert_eq!(fmt(100.0, LocaleKind::Nl, ','), "100");
    assert_eq!(fmt(-98765.4321, LocaleKind::It, ','), "-98.765,4321");
    assert_eq!(fmt(0.00001, LocaleKind::En, '.'), "0");
}

#[test]
fn raw_texts() {
    assert_eq!(fmt_float_with_locale("12", LocaleKind::En, '.'), "12");
    assert_eq!(fmt_float_with_locale("x.5", LocaleKind::En, '.'), "0.5");
    assert_eq!(fmt_float_with_locale("99999999999999999999.5", LocaleKind::En, '.'), "0.5");
}
