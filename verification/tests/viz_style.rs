use wbi_rs::viz_style::{legend_sample_marks, SampleMark};
use wbi_rs::viz_style::{
    dash_of_number, dash_pattern, indicator_offset_seeds, indicator_to_dash, indicator_to_marker,
    marker_of_number, rgb_to_hex, rotate_left_u64, stable_hue_deg, LineDash, MarkerShape, Rgb8,
};

#[test]
fn hex_colours() {
    assert_eq!(rgb_to_hex(Rgb8 { r: 255, g: 128, b: 0 }), "#FF8000");
    assert_eq!(rgb_to_hex(Rgb8 { r: 0, g: 10, b: 171 }), "#000AAB");
}

#[test]
fn markers_and_dashes_follow_remainders() {
    assert_eq!(marker_of_number(0), MarkerShape::Circle);
    assert_eq!(marker_of_number(7), MarkerShape::Square);
    assert_eq!(marker_of_number(11), MarkerShape::X);
    assert_eq!(dash_of_number(6), LineDash::Dot);
    assert_eq!(dash_of_number(u64::MAX), LineDash::DashDot);
    assert_eq!(indicator_to_marker("SP.POP.TOTL"), indicator_to_marker("SP.POP.TOTL"));
    assert_eq!(indicator_to_dash("GDP"), indicator_to_dash("GDP"));
}

#[test]
fn hue_and_rotations() {
    assert!(stable_hue_deg("DEU") < 360);
    assert_eq!(stable_hue_deg("USA"), stable_hue_deg("USA"));
    for x in [0u64, 1, 0x8000_0000_0000_0001, u64::MAX, 0x0123_4567_89AB_CDEF] {
        for k in [1u64, 13, 16, 29, 63] {
            assert_eq!(rotate_left_u64(x, k), x.rotate_left(k as u32));
        }
    }
    let (a, b) = indicator_offset_seeds("GDP");
    assert_eq!(a.rotate_right(13), b.rotate_right(29));
}

#[test]
fn dash_patterns_scale_with_line_width() {
    assert_eq!(dash_pattern(LineDash::Solid, 2), None);
    assert_eq!(dash_pattern(LineDash::Dash, 2), Some(vec![12, 8]));
    assert_eq!(dash_pattern(LineDash::Dot, 3), Some(vec![6, 12]));
    assert_eq!(dash_pattern(LineDash::DashDot, 1), Some(vec![6, 3, 2, 3]));
    assert_eq!(dash_pattern(LineDash::Solid, u32::MAX), None);
    // The width is read as `i32`: u32::MAX is -1.
    assert_eq!(dash_pattern(LineDash::Dash, u32::MAX), Some(vec![-6, -4]));
}

#[test]
fn legend_line_sample_marks() {
    assert_eq!(legend_sample_marks(LineDash::Solid, 6, 22), Some(vec![SampleMark::Segment(6, 22)]));
    assert_eq!(
        legend_sample_marks(LineDash::Dash, 6, 22),
        Some(vec![
            SampleMark::Segment(6, 10),
            SampleMark::Segment(13, 17),
            SampleMark::Segment(20, 22),
        ])
    );
    assert_eq!(
        legend_sample_marks(LineDash::Dot, 6, 12),
        Some(vec![SampleMark::Dot(6), SampleMark::Dot(9), SampleMark::Dot(12)])
    );
    assert_eq!(
        legend_sample_marks(LineDash::DashDot, 6, 22),
        Some(vec![
            SampleMark::Segment(6, 12),
            SampleMark::Dot(14),
            SampleMark::Segment(17, 22),
        ])
    );
    assert_eq!(legend_sample_marks(LineDash::Dot, i32::MAX - 1, i32::MAX), None);
    assert_eq!(legend_sample_marks(LineDash::Solid, i32::MAX - 1, i32::MAX), Some(vec![SampleMark::Segment(i32::MAX - 1, i32::MAX)]));
}
