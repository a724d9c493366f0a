//! Country-consistent style assignment.
//!
//! All series of one country share one base colour of a palette (the MS Office
//! palette by default), while indicators within that country are told apart by
//! a brightness seed, a marker shape and a line dash pattern. Every choice is
//! a function of stable hashes of the key texts, so identical inputs always
//! give identical styles.

use vstd::prelude::*;
use crate::chars::{chars_of, chars_equal};
use crate::viz_style::{
    default_hash_of_str, stable_hash64, rotate_left_u64, rotl, marker_for, dash_for,
};

verus! {

/// RGBA color representation.
#[derive(Clone, Copy, Debug, PartialEq, Eq, Structural)]
pub struct Rgba {
    pub r: u8,
    pub g: u8,
    pub b: u8,
    pub a: u8,
}

impl Rgba {
    /// Create a new RGBA color.
    pub fn new(r: u8, g: u8, b: u8, a: u8) -> (c: Self)
        ensures
            c == (Rgba { r, g, b, a }),
    {
        Self { r, g, b, a }
    }

    /// Create an opaque RGB color.
    pub fn rgb(r: u8, g: u8, b: u8) -> (c: Self)
        ensures
            c == (Rgba { r, g, b, a: 255 }),
    {
        Self::new(r, g, b, 255)
    }
}

/// Marker shape for data points.
#[derive(Clone, Copy, Debug, PartialEq, Eq, Structural)]
pub enum MarkerShape {
    Circle,
    Square,
    Triangle,
    Diamond,
    Cross,
    X,
}

/// Line dash pattern.
#[derive(Clone, Copy, Debug, PartialEq, Eq, Structural)]
pub enum LineDash {
    Solid,
    Dash,
    Dot,
    DashDot,
}

/// Key identifying a unique series (country, indicator pair).
#[derive(Clone, Debug, PartialEq, Eq, Hash)]
pub struct SeriesKey {
    pub country: String,
    pub indicator: String,
}

impl SeriesKey {
    /// Create a new series key.
    pub fn new(country: String, indicator: String) -> (k: Self)
        ensures
            k.country@ == country@,
            k.indicator@ == indicator@,
    {
        Self { country, indicator }
    }
}

/// The MS Office chart palette (RGB), in its usual order: blue, orange, gray,
/// gold, light blue, green, dark blue, dark orange, dark gray, brownish.
pub open spec fn ms_office_palette() -> Seq<(u8, u8, u8)> {
    seq![
        (68u8, 114u8, 196u8),
        (237u8, 125u8, 49u8),
        (165u8, 165u8, 165u8),
        (255u8, 192u8, 0u8),
        (91u8, 155u8, 213u8),
        (112u8, 173u8, 71u8),
        (38u8, 68u8, 120u8),
        (158u8, 72u8, 14u8),
        (99u8, 99u8, 99u8),
        (153u8, 115u8, 0u8),
    ]
}

/// The MS Office palette as a vector.
pub fn ms_office_palette_vec() -> (v: Vec<(u8, u8, u8)>)
    ensures
        v@ == ms_office_palette(),
{
    let v: Vec<(u8, u8, u8)> = vec![
        (68, 114, 196),
        (237, 125, 49),
        (165, 165, 165),
        (255, 192, 0),
        (91, 155, 213),
        (112, 173, 71),
        (38, 68, 120),
        (158, 72, 14),
        (99, 99, 99),
        (153, 115, 0),
    ];
    assert(v@ =~= ms_office_palette());
    v
}

/// The palette colour of series `idx`: the MS Office palette, cycling.
pub fn office_color(idx: usize) -> (c: (u8, u8, u8))
    ensures
        c == ms_office_palette()[(idx % 10) as int],
{
    let p = ms_office_palette_vec();
    p[idx % 10]
}

/// Everything a series' style is made of that does not need floating point:
/// the palette colour of its country, the brightness seed of its indicator
/// (hash modulo 100, mapped to a factor in `[0.7, 1.3)` by the renderer), and
/// its marker and dash.
#[derive(Clone, Copy, Debug, PartialEq, Eq)]
pub struct StyleChoice {
    pub palette_index: usize,
    /// Alpha of the series' shade.
    pub alpha: u8,
    pub base_color: (u8, u8, u8),
    pub brightness_seed: u64,
    pub marker: MarkerShape,
    pub dash: LineDash,
}

/// Palette slot of a country: its hash (as `usize`) modulo the palette size.
pub open spec fn country_slot(country: Seq<char>, palette_len: nat) -> int {
    (default_hash_of_str(country) as usize) as int % (palette_len as int)
}

/// The shape the style spec gives a marker number.
pub open spec fn style_marker(n: u64) -> MarkerShape {
    match marker_for(n) {
        crate::viz_style::MarkerShape::Circle => MarkerShape::Circle,
        crate::viz_style::MarkerShape::Square => MarkerShape::Square,
        crate::viz_style::MarkerShape::Triangle => MarkerShape::Triangle,
        crate::viz_style::MarkerShape::Diamond => MarkerShape::Diamond,
        crate::viz_style::MarkerShape::Cross => MarkerShape::Cross,
        crate::viz_style::MarkerShape::X => MarkerShape::X,
    }
}

/// The dash the style spec gives a dash number.
pub open spec fn style_dash(n: u64) -> LineDash {
    match dash_for(n) {
        crate::viz_style::LineDash::Solid => LineDash::Solid,
        crate::viz_style::LineDash::Dash => LineDash::Dash,
        crate::viz_style::LineDash::Dot => LineDash::Dot,
        crate::viz_style::LineDash::DashDot => LineDash::DashDot,
    }
}

/// The style choice of the series `(country, indicator)`.
pub open spec fn style_choice(
    country: Seq<char>,
    indicator: Seq<char>,
    palette: Seq<(u8, u8, u8)>,
    alpha: u8,
) -> StyleChoice {
    let slot = country_slot(country, palette.len());
    let h = default_hash_of_str(indicator);
    StyleChoice {
        palette_index: slot as usize,
        alpha,
        base_color: palette[slot],
        brightness_seed: h % 100,
        marker: style_marker(h),
        dash: style_dash(rotl(h, 16)),
    }
}

fn style_marker_exec(n: u64) -> (m: MarkerShape)
    ensures
        m == style_marker(n),
{
    match n % 6 {
        0 => MarkerShape::Circle,
        1 => MarkerShape::Square,
        2 => MarkerShape::Triangle,
        3 => MarkerShape::Diamond,
        4 => MarkerShape::Cross,
        _ => MarkerShape::X,
    }
}

fn style_dash_exec(n: u64) -> (d: LineDash)
    ensures
        d == style_dash(n),
{
    match n % 4 {
        0 => LineDash::Solid,
        1 => LineDash::Dash,
        2 => LineDash::Dot,
        _ => LineDash::DashDot,
    }
}

/// The (country, indicator) text of a series key.
pub open spec fn key_view(k: SeriesKey) -> (Seq<char>, Seq<char>) {
    (k.country@, k.indicator@)
}

/// The distinct elements of `s`, each at its first occurrence.
pub open spec fn distinct_in_order<T>(s: Seq<T>) -> Seq<T>
    decreases s.len(),
{
    if s.len() == 0 {
        Seq::empty()
    } else {
        let r = distinct_in_order(s.drop_last());
        if r.contains(s.last()) {
            r
        } else {
            r.push(s.last())
        }
    }
}

/// The keys of `series`, distinct, in order of first occurrence.
pub open spec fn distinct_keys(series: Seq<SeriesKey>) -> Seq<(Seq<char>, Seq<char>)> {
    distinct_in_order(series.map_values(|k: SeriesKey| key_view(k)))
}

/// Whether `out` assigns the style of each distinct key of `series`, once,
/// in order of first occurrence.
pub open spec fn is_style_assignment(
    series: Seq<SeriesKey>,
    palette: Seq<(u8, u8, u8)>,
    alpha: u8,
    out: Seq<(SeriesKey, StyleChoice)>,
) -> bool {
    let ks = distinct_keys(series);
    &&& out.len() == ks.len()
    &&& forall|i: int|
        0 <= i < out.len() ==> {
            &&& key_view((#[trigger] out[i]).0) == ks[i]
            &&& out[i].1 == style_choice(ks[i].0, ks[i].1, palette, alpha)
        }
}

proof fn lemma_distinct_in_order<T>(s: Seq<T>)
    ensures
        forall|a: int, b: int|
            0 <= a < b < distinct_in_order(s).len() ==> distinct_in_order(s)[a]
                != distinct_in_order(s)[b],
        forall|x: T| #[trigger] distinct_in_order(s).contains(x) <==> s.contains(x),
    decreases s.len(),
{
    if s.len() > 0 {
        let t = s.drop_last();
        lemma_distinct_in_order(t);
        let r = distinct_in_order(t);
        assert(t.len() == s.len() - 1);
        assert forall|x: T| #[trigger] distinct_in_order(s).contains(x) <==> s.contains(x) by {
            if s.contains(x) {
                let j = choose|j: int| 0 <= j < s.len() && s[j] == x;
                if j < s.len() - 1 {
                    assert(t[j] == s[j]);
                    assert(t.contains(x));
                    assert(r.contains(x));
                    if !r.contains(s.last()) {
                        let q = choose|q: int| 0 <= q < r.len() && r[q] == x;
                        assert(r.push(s.last())[q] == x);
                    }
                } else {
                    assert(x == s.last());
                    if !r.contains(s.last()) {
                        assert(r.push(s.last())[r.len() as int] == x);
                    }
                }
            }
            if distinct_in_order(s).contains(x) {
                let q = choose|q: int|
                    0 <= q < distinct_in_order(s).len() && distinct_in_order(s)[q] == x;
                if q < r.len() {
                    if !r.contains(s.last()) {
                        assert(r.push(s.last())[q] == r[q]);
                    }
                    assert(r[q] == x);
                    assert(r.contains(x));
                    assert(t.contains(x));
                    let j = choose|j: int| 0 <= j < t.len() && t[j] == x;
                    assert(s[j] == t[j]);
                } else {
                    assert(x == s.last());
                    assert(s[s.len() - 1] == x);
                }
            }
        }
        if !r.contains(s.last()) {
            assert forall|a: int, b: int|
                0 <= a < b < r.push(s.last()).len() implies r.push(s.last())[a] != r.push(
                s.last(),
            )[b] by {
                if b == r.len() {
                    assert(r[a] == r.push(s.last())[a]);
                }
            }
        }
    }
}

/// Assigns country-consistent style choices: one entry per distinct series
/// key, in order of first occurrence. All series of the same country get the
/// same palette colour; indicators are differentiated by brightness seed,
/// marker and dash; every shade has the given alpha.
pub fn assign_country_styles_with_palette(
    series: &[SeriesKey],
    palette: &[(u8, u8, u8)],
    alpha: u8,
) -> (out: Vec<(SeriesKey, StyleChoice)>)
    requires
        series@.len() == 0 || palette@.len() > 0,
    ensures
        is_style_assignment(series@, palette@, alpha, out@),
{
    let ghost sv = series@.map_values(|k: SeriesKey| key_view(k));
    let mut out: Vec<(SeriesKey, StyleChoice)> = Vec::new();
    let mut i: usize = 0;
    while i < series.len()
        invariant
            i <= series@.len(),
            series@.len() == 0 || palette@.len() > 0,
            sv == series@.map_values(|k: SeriesKey| key_view(k)),
            out@.len() == distinct_in_order(sv.take(i as int)).len(),
            forall|j: int|
                0 <= j < out@.len() ==> {
                    let ks = distinct_in_order(sv.take(i as int));
                    &&& key_view((#[trigger] out@[j]).0) == ks[j]
                    &&& out@[j].1 == style_choice(ks[j].0, ks[j].1, palette@, alpha)
                },
        decreases series@.len() - i,
    {
        let key = &series[i];
        let ghost kv = key_view(*key);
        let ghost prev = distinct_in_order(sv.take(i as int));
        assert(sv.take(i + 1).drop_last() =~= sv.take(i as int));
        assert(sv.take(i + 1).last() == kv);
        let c = chars_of(key.country.as_str());
        let d = chars_of(key.indicator.as_str());
        let mut seen = false;
        let mut j: usize = 0;
        while j < out.len()
            invariant
                j <= out@.len(),
                c@ == kv.0,
                d@ == kv.1,
                out@.len() == prev.len(),
                forall|q: int| 0 <= q < out@.len() ==> key_view((#[trigger] out@[q]).0) == prev[q],
                seen <==> exists|q: int| 0 <= q < j && prev[q] == kv,
            decreases out@.len() - j,
        {
            let oc = chars_of(out[j].0.country.as_str());
            let od = chars_of(out[j].0.indicator.as_str());
            assert(key_view(out@[j as int].0) == prev[j as int]);
            if chars_equal(oc.as_slice(), c.as_slice()) && chars_equal(od.as_slice(), d.as_slice()) {
                seen = true;
            }
            j = j + 1;
        }
        assert(seen <==> prev.contains(kv));
        if !seen {
            let ch = stable_hash64(key.country.as_str());
            let slot = (ch as usize) % palette.len();
            let base_color = palette[slot];
            let h = stable_hash64(key.indicator.as_str());
            let choice = StyleChoice {
                palette_index: slot,
                alpha,
                base_color,
                brightness_seed: h % 100,
                marker: style_marker_exec(h),
                dash: style_dash_exec(rotate_left_u64(h, 16)),
            };
            let k = SeriesKey::new(key.country.clone(), key.indicator.clone());
            out.push((k, choice));
        }
        i = i + 1;
    }
    assert(sv.take(series@.len() as int) =~= sv);
    out
}

/// The same assignment with the MS Office palette.
pub fn assign_country_styles(series: &[SeriesKey], alpha: u8) -> (out: Vec<(SeriesKey, StyleChoice)>)
    ensures
        is_style_assignment(series@, ms_office_palette(), alpha, out@),
{
    let palette = ms_office_palette_vec();
    assign_country_styles_with_palette(series, palette.as_slice(), alpha)
}

/// Whether some entry of `out` has key `k`.
pub open spec fn assigns_key(out: Seq<(SeriesKey, StyleChoice)>, k: (Seq<char>, Seq<char>)) -> bool {
    exists|a: int| 0 <= a < out.len() && key_view(#[trigger] out[a].0) == k
}

/// Whether some series has key `k`.
pub open spec fn has_key(series: Seq<SeriesKey>, k: (Seq<char>, Seq<char>)) -> bool {
    exists|i: int| 0 <= i < series.len() && key_view(#[trigger] series[i]) == k
}

/// An assignment names every key of the series exactly once: its keys are
/// distinct, and a key occurs in it exactly when it is a key of the series.
pub proof fn law_style_keys_distinct_and_complete(
    series: Seq<SeriesKey>,
    palette: Seq<(u8, u8, u8)>,
    alpha: u8,
    out: Seq<(SeriesKey, StyleChoice)>,
)
    requires
        is_style_assignment(series, palette, alpha, out),
    ensures
        forall|a: int, b: int|
            0 <= a < b < out.len() ==> key_view(#[trigger] out[a].0) != key_view(
                #[trigger] out[b].0,
            ),
        forall|k: (Seq<char>, Seq<char>)|
            #![trigger assigns_key(out, k)]
            #![trigger has_key(series, k)]
            assigns_key(out, k) <==> has_key(series, k),
{
    let sv = series.map_values(|k: SeriesKey| key_view(k));
    lemma_distinct_in_order(sv);
    let ks = distinct_keys(series);
    assert forall|a: int, b: int|
        0 <= a < b < out.len() implies key_view(#[trigger] out[a].0) != key_view(
        #[trigger] out[b].0,
    ) by {
        assert(ks[a] != ks[b]);
    }
    assert forall|k: (Seq<char>, Seq<char>)| assigns_key(out, k) <==> has_key(series, k) by {
        if assigns_key(out, k) {
            let a = choose|a: int| 0 <= a < out.len() && key_view(#[trigger] out[a].0) == k;
            assert(ks[a] == k);
            assert(ks.contains(k));
            assert(sv.contains(k));
            let i = choose|i: int| 0 <= i < sv.len() && sv[i] == k;
            assert(key_view(series[i]) == k);
        }
        if has_key(series, k) {
            let i = choose|i: int| 0 <= i < series.len() && key_view(#[trigger] series[i]) == k;
            assert(sv[i] == k);
            assert(sv.contains(k));
            assert(ks.contains(k));
            let a = choose|a: int| 0 <= a < ks.len() && ks[a] == k;
            assert(key_view(out[a].0) == k);
        }
    }
}

/// Country consistency: two series of the same country get the same palette
/// slot and base colour, whatever their indicators.
pub proof fn law_country_consistency(
    country: Seq<char>,
    ind_a: Seq<char>,
    ind_b: Seq<char>,
    palette: Seq<(u8, u8, u8)>,
    alpha: u8,
)
    requires
        palette.len() > 0,
    ensures
        style_choice(country, ind_a, palette, alpha).palette_index
            == style_choice(country, ind_b, palette, alpha).palette_index,
        style_choice(country, ind_a, palette, alpha).base_color
            == style_choice(country, ind_b, palette, alpha).base_color,
        0 <= style_choice(country, ind_a, palette, alpha).palette_index < palette.len(),
{
}

/// Indicator consistency: the same indicator gets the same brightness seed,
/// marker and dash in every country.
pub proof fn law_indicator_consistency(
    country_a: Seq<char>,
    country_b: Seq<char>,
    indicator: Seq<char>,
    palette: Seq<(u8, u8, u8)>,
    alpha: u8,
)
    ensures
        style_choice(country_a, indicator, palette, alpha).brightness_seed
            == style_choice(country_b, indicator, palette, alpha).brightness_seed,
        style_choice(country_a, indicator, palette, alpha).marker
            == style_choice(country_b, indicator, palette, alpha).marker,
        style_choice(country_a, indicator, palette, alpha).dash
            == style_choice(country_b, indicator, palette, alpha).dash,
        style_choice(country_a, indicator, palette, alpha).brightness_seed < 100,
{
}

} // verus!
