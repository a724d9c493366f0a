//! Styling that maps (country, indicator) to colors, shapes and line styles.
//!
//! - Country: a stable base hue (primary identity).
//! - Indicator: a shade/saturation offset plus a marker shape and a line dash
//!   (redundant encodings).
//!
//! Every choice is a function of a stable 64-bit hash of the key text; the
//! colour-space conversions themselves live with the renderer.

use vstd::prelude::*;
use std::collections::hash_map::DefaultHasher;
use std::hash::{Hash, Hasher};
use crate::chars::push_char;
use crate::viz::legend::w32;

verus! {

#[derive(Clone, Copy, Debug, PartialEq, Eq, Structural)]
pub enum MarkerShape {
    Circle,
    Square,
    Triangle,
    Diamond,
    Cross,
    X,
}

#[derive(Clone, Copy, Debug, PartialEq, Eq, Structural)]
pub enum LineDash {
    Solid,
    Dash,
    Dot,
    DashDot,
}

#[derive(Clone, Copy, Debug, PartialEq, Eq, Structural)]
pub struct Rgb8 {
    pub r: u8,
    pub g: u8,
    pub b: u8,
}

/// The value `std::collections::hash_map::DefaultHasher` produces for the text
/// `s`: a fresh `DefaultHasher::new()`, fed the string through `Hash for str`,
/// then `finish()`.
pub uninterp spec fn default_hash_of_str(s: Seq<char>) -> u64;

/// Stable 64-bit hash of a text (`DefaultHasher::new`, `str::hash`, `finish`).
///
/// Trusted: the result is stated only as `default_hash_of_str` of the text.
/// Hashers made by `DefaultHasher::new` all start from the same fixed keys, so
/// equal texts hash equally; which number comes out is not stated.
#[verifier::external_body]
pub(crate) fn stable_hash64(t: &str) -> (h: u64)
    ensures
        h == default_hash_of_str(t@),
{
    let mut hasher = DefaultHasher::new();
    t.hash(&mut hasher);
    hasher.finish()
}

/// The marker shape selected by a number (its remainder modulo 6).
pub open spec fn marker_for(n: u64) -> MarkerShape {
    let m = n % 6;
    if m == 0 {
        MarkerShape::Circle
    } else if m == 1 {
        MarkerShape::Square
    } else if m == 2 {
        MarkerShape::Triangle
    } else if m == 3 {
        MarkerShape::Diamond
    } else if m == 4 {
        MarkerShape::Cross
    } else {
        MarkerShape::X
    }
}

/// The dash pattern selected by a number (its remainder modulo 4).
pub open spec fn dash_for(n: u64) -> LineDash {
    let m = n % 4;
    if m == 0 {
        LineDash::Solid
    } else if m == 1 {
        LineDash::Dash
    } else if m == 2 {
        LineDash::Dot
    } else {
        LineDash::DashDot
    }
}

/// `u64::rotate_left(x, k)` for `0 < k < 64`.
pub open spec fn rotl(x: u64, k: u64) -> u64 {
    (x << k) | (x >> (64 - k) as u64)
}

/// Rotates the bits of `x` left by `k` places (`u64::rotate_left`).
pub fn rotate_left_u64(x: u64, k: u64) -> (r: u64)
    requires
        0 < k < 64,
    ensures
        r == rotl(x, k),
{
    (x << k) | (x >> (64 - k))
}

/// Marker shape for an indicator: its hash modulo 6.
pub fn indicator_to_marker(indicator: &str) -> (m: MarkerShape)
    ensures
        m == marker_for(default_hash_of_str(indicator@)),
{
    let h = stable_hash64(indicator);
    marker_of_number(h)
}

/// The marker shape selected by `n`.
pub fn marker_of_number(n: u64) -> (m: MarkerShape)
    ensures
        m == marker_for(n),
{
    match n % 6 {
        0 => MarkerShape::Circle,
        1 => MarkerShape::Square,
        2 => MarkerShape::Triangle,
        3 => MarkerShape::Diamond,
        4 => MarkerShape::Cross,
        _ => MarkerShape::X,
    }
}

/// The dash pattern selected by `n`.
pub fn dash_of_number(n: u64) -> (d: LineDash)
    ensures
        d == dash_for(n),
{
    match n % 4 {
        0 => LineDash::Solid,
        1 => LineDash::Dash,
        2 => LineDash::Dot,
        _ => LineDash::DashDot,
    }
}

/// Line dash for an indicator: its hash modulo 4.
pub fn indicator_to_dash(indicator: &str) -> (d: LineDash)
    ensures
        d == dash_for(default_hash_of_str(indicator@)),
{
    let h = stable_hash64(indicator);
    dash_of_number(h)
}

/// Base hue of a country in whole degrees: its hash modulo 360.
pub fn stable_hue_deg(key: &str) -> (deg: u32)
    ensures
        deg as int == default_hash_of_str(key@) % 360,
{
    let h = stable_hash64(key);
    (h % 360) as u32
}

/// The two rotated hashes of an indicator from which its lightness and
/// saturation offsets are scaled: `(h.rotate_left(13), h.rotate_left(29))`.
pub fn indicator_offset_seeds(indicator: &str) -> (r: (u64, u64))
    ensures
        r.0 == rotl(default_hash_of_str(indicator@), 13),
        r.1 == rotl(default_hash_of_str(indicator@), 29),
{
    let h = stable_hash64(indicator);
    (rotate_left_u64(h, 13), rotate_left_u64(h, 29))
}

/// Upper-case hexadecimal digit of `d < 16`.
pub open spec fn hex_digit(d: nat) -> char {
    if d < 10 {
        ((('0' as u32) + d) as char)
    } else {
        ((('A' as u32) + d - 10) as char)
    }
}

/// Two upper-case hex digits of a byte.
pub open spec fn hex2(v: u8) -> Seq<char> {
    seq![hex_digit((v / 16) as nat), hex_digit((v % 16) as nat)]
}

/// `#RRGGBB` text of a colour.
pub open spec fn hex_text(c: Rgb8) -> Seq<char> {
    seq!['#'] + hex2(c.r) + hex2(c.g) + hex2(c.b)
}

fn hex_char(d: u8) -> (c: char)
    requires
        d < 16,
    ensures
        c == hex_digit(d as nat),
{
    let digits: [char; 16] = [
        '0', '1', '2', '3', '4', '5', '6', '7', '8', '9', 'A', 'B', 'C', 'D', 'E', 'F',
    ];
    let c = digits[d as usize];
    proof {
        assert(c == hex_digit(d as nat)) by {
            if d == 0 {} else if d == 1 {} else if d == 2 {} else if d == 3 {} else if d == 4 {}
            else if d == 5 {} else if d == 6 {} else if d == 7 {} else if d == 8 {}
            else if d == 9 {} else if d == 10 {} else if d == 11 {} else if d == 12 {}
            else if d == 13 {} else if d == 14 {} else {}
        }
    }
    c
}

pub(crate) fn push_hex2(s: &mut String, v: u8)
    ensures
        final(s)@ == old(s)@ + hex2(v),
{
    push_char(s, hex_char(v / 16));
    push_char(s, hex_char(v % 16));
    assert(final(s)@ =~= old(s)@ + hex2(v));
}

/// `#RRGGBB` with upper-case hex digits.
pub fn rgb_to_hex(rgb: Rgb8) -> (s: String)
    ensures
        s@ == hex_text(rgb),
{
    let mut s = String::new();
    push_char(&mut s, '#');
    push_hex2(&mut s, rgb.r);
    push_hex2(&mut s, rgb.g);
    push_hex2(&mut s, rgb.b);
    assert(s@ =~= hex_text(rgb));
    s
}

} // verus!

verus! {

/// Dash pattern of a line style, in pixels, scaled by the line width:
/// none for solid lines; dash 6/4, dot 2/4, dash-dot 6/3/2/3 line widths
/// on/off.
pub open spec fn dash_pattern_spec(dash: LineDash, lw: int) -> Option<Seq<int>> {
    match dash {
        LineDash::Solid => None,
        LineDash::Dash => Some(seq![6 * lw, 4 * lw]),
        LineDash::Dot => Some(seq![2 * lw, 4 * lw]),
        LineDash::DashDot => Some(seq![6 * lw, 3 * lw, 2 * lw, 3 * lw]),
    }
}

/// Whether the pattern's lengths fit `i32` for a line width of `lw`.
pub open spec fn dash_fits(dash: LineDash, lw: int) -> bool {
    match dash {
        LineDash::Solid => true,
        LineDash::Dot => -0x2000_0000 <= lw <= 0x1FFF_FFFF,
        LineDash::Dash | LineDash::DashDot => -357913941 <= lw <= 357913941,
    }
}

/// Dash pattern of a line style (see `dash_pattern_spec`), the width taken
/// as `i32` (wrapping, as `as i32` does).
pub fn dash_pattern(dash: LineDash, line_width: u32) -> (r: Option<Vec<i32>>)
    requires
        dash_fits(dash, w32(line_width as nat)),
    ensures
        match r {
            Some(v) => dash_pattern_spec(dash, w32(line_width as nat)) == Some(
                v@.map_values(|x: i32| x as int),
            ),
            None => dash_pattern_spec(dash, w32(line_width as nat)) is None,
        },
{
    let lw: i32 = if line_width < 0x8000_0000 {
        line_width as i32
    } else {
        ((line_width as i64) - 0x1_0000_0000) as i32
    };
    let r = match dash {
        LineDash::Solid => None,
        LineDash::Dash => Some(vec![6 * lw, 4 * lw]),
        LineDash::Dot => Some(vec![2 * lw, 4 * lw]),
        LineDash::DashDot => Some(vec![6 * lw, 3 * lw, 2 * lw, 3 * lw]),
    };
    proof {
        if r is Some {
            assert(dash_pattern_spec(dash, w32(line_width as nat)).unwrap() =~= r.unwrap()@.map_values(
                |x: i32| x as int,
            ));
        }
    }
    r
}

/// Radius of a marker glyph: circles keep the base size, squares,
/// triangles and diamonds grow by one, crosses and x-marks by two.
pub fn marker_radius(marker: MarkerShape, size: i32) -> (r: i32)
    requires
        size <= i32::MAX - 2,
    ensures
        r == size + match marker {
            MarkerShape::Circle => 0int,
            MarkerShape::Square | MarkerShape::Triangle | MarkerShape::Diamond => 1int,
            MarkerShape::Cross | MarkerShape::X => 2int,
        },
{
    match marker {
        MarkerShape::Circle => size,
        MarkerShape::Square => size + 1,
        MarkerShape::Triangle => size + 1,
        MarkerShape::Diamond => size + 1,
        MarkerShape::Cross => size + 2,
        MarkerShape::X => size + 2,
    }
}

} // verus!

verus! {

/// One mark of a legend line sample: a 2 px line from one x to another, or
/// a dot (radius 1) at an x.
#[derive(Clone, Copy, Debug, PartialEq, Eq, Structural)]
pub enum SampleMark {
    Segment(i32, i32),
    Dot(i32),
}

/// Segments `on` px long with `off` px gaps from `x` up to `end`; `None`
/// where a coordinate would pass `i32::MAX`.
pub open spec fn dash_marks(x: int, end: int, on: int, off: int) -> Option<Seq<SampleMark>>
    decreases (if x < end {
        end - x
    } else {
        0
    }),
{
    if x >= end || on <= 0 || off < 0 {
        Some(Seq::empty())
    } else if x + on > i32::MAX {
        None
    } else {
        let e = if x + on <= end {
            x + on
        } else {
            end
        };
        if e + off > i32::MAX {
            None
        } else {
            match dash_marks(e + off, end, on, off) {
                Some(r) => Some(seq![SampleMark::Segment(x as i32, e as i32)] + r),
                None => None,
            }
        }
    }
}

/// Dots every 3 px from `x` while `x <= end`.
pub open spec fn dot_marks(x: int, end: int) -> Option<Seq<SampleMark>>
    decreases (if x <= end {
        end - x + 1
    } else {
        0
    }),
{
    if x > end {
        Some(Seq::empty())
    } else if x + 3 > i32::MAX {
        None
    } else {
        match dot_marks(x + 3, end) {
            Some(r) => Some(seq![SampleMark::Dot(x as i32)] + r),
            None => None,
        }
    }
}

/// Alternating 6 px segments (followed by a 2 px gap) and dots (followed by
/// 3 px) from `x` up to `end`.
pub open spec fn dash_dot_marks(x: int, end: int, is_dash: bool) -> Option<Seq<SampleMark>>
    decreases (if x < end {
        end - x
    } else {
        0
    }),
{
    if x >= end {
        Some(Seq::empty())
    } else if is_dash {
        if x + 6 > i32::MAX {
            None
        } else {
            let e = if x + 6 <= end {
                x + 6
            } else {
                end
            };
            if e + 2 > i32::MAX {
                None
            } else {
                match dash_dot_marks(e + 2, end, false) {
                    Some(r) => Some(seq![SampleMark::Segment(x as i32, e as i32)] + r),
                    None => None,
                }
            }
        }
    } else if x + 3 > i32::MAX {
        None
    } else {
        match dash_dot_marks(x + 3, end, true) {
            Some(r) => Some(seq![SampleMark::Dot(x as i32)] + r),
            None => None,
        }
    }
}

/// The marks of a legend line sample from `start_x` to `end_x`.
pub open spec fn sample_marks(dash: LineDash, start_x: int, end_x: int) -> Option<Seq<SampleMark>> {
    match dash {
        LineDash::Solid => Some(seq![SampleMark::Segment(start_x as i32, end_x as i32)]),
        LineDash::Dash => dash_marks(start_x, end_x, 4, 3),
        LineDash::Dot => dot_marks(start_x, end_x),
        LineDash::DashDot => dash_dot_marks(start_x, end_x, true),
    }
}

/// The marks that draw a legend line sample in the given dash style: one
/// segment for a solid line, 4 px dashes with 3 px gaps, dots every 3 px,
/// or alternating 6 px dashes and dots. `None` where a coordinate would
/// pass `i32::MAX`.
pub fn legend_sample_marks(dash: LineDash, start_x: i32, end_x: i32) -> (r: Option<Vec<SampleMark>>)
    ensures
        match sample_marks(dash, start_x as int, end_x as int) {
            Some(m) => r matches Some(v) && v@ == m,
            None => r is None,
        },
{
    let goal = Ghost(sample_marks(dash, start_x as int, end_x as int));
    let mut v: Vec<SampleMark> = Vec::new();
    match dash {
        LineDash::Solid => {
            v.push(SampleMark::Segment(start_x, end_x));
            assert(v@ =~= seq![SampleMark::Segment(start_x, end_x)]);
            return Some(v);
        },
        LineDash::Dash => {
            let mut x: i64 = start_x as i64;
            while x < end_x as i64
                invariant
                    i32::MIN <= x,
                    end_x <= i32::MAX,
                    goal@ == sample_marks(dash, start_x as int, end_x as int),
                    goal@ == (match dash_marks(x as int, end_x as int, 4, 3) {
                        Some(rest) => Some(v@ + rest),
                        None => None,
                    }),
                decreases (if x < end_x as i64 {
                    end_x - x
                } else {
                    0
                }),
            {
                if x + 4 > 0x7FFF_FFFF {
                    return None;
                }
                let e = if x + 4 <= end_x as i64 {
                    x + 4
                } else {
                    end_x as i64
                };
                if e + 3 > 0x7FFF_FFFF {
                    return None;
                }
                let ghost before = v@;
                v.push(SampleMark::Segment(x as i32, e as i32));
                proof {
                    let rest = dash_marks(e + 3, end_x as int, 4, 3);
                    if rest is Some {
                        assert(before + (seq![SampleMark::Segment(x as i32, e as i32)] + rest->0)
                            =~= v@ + rest->0);
                    }
                }
                x = e + 3;
            }
        },
        LineDash::Dot => {
            let mut x: i64 = start_x as i64;
            while x <= end_x as i64
                invariant
                    i32::MIN <= x,
                    end_x <= i32::MAX,
                    goal@ == sample_marks(dash, start_x as int, end_x as int),
                    goal@ == (match dot_marks(x as int, end_x as int) {
                        Some(rest) => Some(v@ + rest),
                        None => None,
                    }),
                decreases (if x <= end_x as i64 {
                    end_x - x + 1
                } else {
                    0
                }),
            {
                if x + 3 > 0x7FFF_FFFF {
                    return None;
                }
                let ghost before = v@;
                v.push(SampleMark::Dot(x as i32));
                proof {
                    let rest = dot_marks(x + 3, end_x as int);
                    if rest is Some {
                        assert(before + (seq![SampleMark::Dot(x as i32)] + rest->0) =~= v@ + rest->0);
                    }
                }
                x = x + 3;
            }
        },
        LineDash::DashDot => {
            let mut x: i64 = start_x as i64;
            let mut is_dash = true;
            while x < end_x as i64
                invariant
                    i32::MIN <= x,
                    end_x <= i32::MAX,
                    goal@ == sample_marks(dash, start_x as int, end_x as int),
                    goal@ == (match dash_dot_marks(x as int, end_x as int, is_dash) {
                        Some(rest) => Some(v@ + rest),
                        None => None,
                    }),
                decreases (if x < end_x as i64 {
                    end_x - x
                } else {
                    0
                }),
            {
                let ghost before = v@;
                if is_dash {
                    if x + 6 > 0x7FFF_FFFF {
                        return None;
                    }
                    let e = if x + 6 <= end_x as i64 {
                        x + 6
                    } else {
                        end_x as i64
                    };
                    if e + 2 > 0x7FFF_FFFF {
                        return None;
                    }
                    v.push(SampleMark::Segment(x as i32, e as i32));
                    proof {
                        let rest = dash_dot_marks(e + 2, end_x as int, false);
                        if rest is Some {
                            assert(before + (seq![SampleMark::Segment(x as i32, e as i32)] + rest->0)
                                =~= v@ + rest->0);
                        }
                    }
                    x = e + 2;
                } else {
                    if x + 3 > 0x7FFF_FFFF {
                        return None;
                    }
                    v.push(SampleMark::Dot(x as i32));
                    proof {
                        let rest = dash_dot_marks(x + 3, end_x as int, true);
                        if rest is Some {
                            assert(before + (seq![SampleMark::Dot(x as i32)] + rest->0) =~= v@ + rest->0);
                        }
                    }
                    x = x + 3;
                }
                is_dash = !is_dash;
            }
        },
    }
    assert(v@ + Seq::<SampleMark>::empty() =~= v@);
    Some(v)
}

} // verus!
