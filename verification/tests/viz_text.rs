use wbi_rs::viz::text::{estimate_text_width_px, truncate_to_width, wrap_text_to_width};

fn f32_width(n: usize, font: u32) -> u32 {
    ((n as f32) * (font as f32) * 0.60).ceil() as u32
}

#[test]
fn width_matches_single_precision_formula() {
    for font in [0u32, 1, 7, 10, 12, 13, 14, 16, 24, 1000, 123457, u32::MAX] {
        for n in [0usize, 1, 2, 3, 5, 11, 37, 100, 1001] {
            let s: String = std::iter::repeat('x').take(n).collect();
            assert_eq!(estimate_text_width_px(&s, font), f32_width(n, font), "n={n} font={font}");
        }
    }
    // characters, not bytes, are counted
    assert_eq!(estimate_text_width_px("äöü", 12), f32_width(3, 12));
    assert_eq!(estimate_text_width_px("abc", 12), 22);
}

#[test]
fn truncation_adds_one_ellipsis() {
    // at font 10 five characters measure 31 px (single-precision rounding)
    assert_eq!(f32_width(5, 10), 31);
    assert_eq!(truncate_to_width("Hello World", 10, 30), "Hel\u{2026}");
    assert_eq!(truncate_to_width("Hello", 10, 31), "Hello");
    assert_eq!(truncate_to_width("Hello", 10, 5), "");
    assert_eq!(truncate_to_width("", 10, 0), "");
    assert_eq!(truncate_to_width("Hello", 10, 12), "H\u{2026}");
    assert!(estimate_text_width_px(&truncate_to_width("A long legend label", 14, 60), 14) <= 60);
}

#[test]
fn wrapping_breaks_at_words_and_hard_breaks_long_words() {
    assert_eq!(
        wrap_text_to_width("Hello brave new world", 10, 60),
        vec!["Hello", "brave new", "world"]
    );
    assert_eq!(wrap_text_to_width("abcdefghijkl", 10, 30), vec!["abcd", "efgh", "ijkl"]);
    assert_eq!(wrap_text_to_width("abcdefghijkl", 10, 31), vec!["abcde", "fghij", "kl"]);
    assert_eq!(wrap_text_to_width("Hello", 10, 12), vec!["H\u{2026}"]);
    assert_eq!(wrap_text_to_width("   ", 10, 100), Vec::<String>::new());
    assert_eq!(wrap_text_to_width("a  b", 10, 100), vec!["a b"]);
    for line in wrap_text_to_width("United States \u{2014} GDP (current US$)", 14, 80) {
        assert!(estimate_text_width_px(&line, 14) <= 80 || !line.contains(' '));
    }
}

#[test]
fn width_grows_with_length_and_is_zero_when_empty() {
    assert_eq!(estimate_text_width_px("", 14), 0);
    let mut last = 0;
    let mut s = String::new();
    for _ in 0..50 {
        s.push('x');
        let w = estimate_text_width_px(&s, 14);
        assert!(w >= last);
        last = w;
    }
}

#[test]
fn long_word_after_another_word_is_broken_to_fit() {
    let lines = wrap_text_to_width("ab abcdefg", 12, 30);
    assert_eq!(lines, vec!["ab", "abcd", "efg"]);
    for l in &lines {
        assert!(estimate_text_width_px(l, 12) <= 30);
    }
}
