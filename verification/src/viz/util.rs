//! Axis helpers: unit detection, magnitude scaling, axis titles, label
//! gutters and series colours.

use vstd::prelude::*;
use crate::models::DataPoint;
use crate::order::{order_key, seq_lt, lex_compare, Order};
use crate::chars::{chars_of, chars_equal, trim, trim_chars, append_str, append_chars, ascii_lower, ascii_lower_seq, to_ascii_lower};
use crate::viz::series::SeriesData;
use crate::viz_style::{default_hash_of_str, stable_hash64};

verus! {

// ------------------------------------------------------------------
// Units
// ------------------------------------------------------------------

/// Position of the last `c` in `s`, if any.
pub open spec fn last_index(s: Seq<char>, c: char) -> Option<int>
    decreases s.len(),
{
    if s.len() == 0 {
        None
    } else if s.last() == c {
        Some(s.len() - 1)
    } else {
        last_index(s.drop_last(), c)
    }
}

proof fn lemma_last_index(s: Seq<char>, c: char)
    ensures
        match last_index(s, c) {
            Some(i) => 0 <= i < s.len() && s[i] == c && forall|k: int| i < k < s.len() ==> s[k] != c,
            None => forall|k: int| 0 <= k < s.len() ==> s[k] != c,
        },
    decreases s.len(),
{
    if s.len() > 0 && s.last() != c {
        let t = s.drop_last();
        lemma_last_index(t, c);
        assert forall|k: int| 0 <= k < t.len() implies t[k] == s[k] by {}
    }
}

fn rfind_char(s: &[char], c: char) -> (r: Option<usize>)
    ensures
        match r {
            Some(i) => last_index(s@, c) == Some(i as int),
            None => last_index(s@, c) is None,
        },
{
    let mut j: usize = s.len();
    while j > 0 && s[j - 1] != c
        invariant
            j <= s@.len(),
            forall|k: int| j <= k < s@.len() ==> s@[k] != c,
        decreases j,
    {
        j = j - 1;
    }
    proof {
        lemma_last_index_at(s@, c, j as int);
    }
    if j == 0 {
        None
    } else {
        Some(j - 1)
    }
}

proof fn lemma_last_index_at(s: Seq<char>, c: char, j: int)
    requires
        0 <= j <= s.len(),
        forall|k: int| j <= k < s.len() ==> s[k] != c,
        j > 0 ==> s[j - 1] == c,
    ensures
        j == 0 ==> last_index(s, c) is None,
        j > 0 ==> last_index(s, c) == Some(j - 1),
    decreases s.len(),
{
    if s.len() > 0 && s.last() != c {
        lemma_last_index_at(s.drop_last(), c, if j == s.len() { j - 1 } else { j });
    }
}

/// The unit written in an indicator name's last parentheses, e.g.
/// `"GDP (current US$)"` gives `"current US$"`: the trimmed text between the
/// last `(` and the last `)`, when that `)` comes after that `(` and the text
/// is not empty.
pub open spec fn unit_in_name(name: Seq<char>) -> Option<Seq<char>> {
    match (last_index(name, '('), last_index(name, ')')) {
        (Some(o), Some(c)) => if c > o {
            let inner = trim(name.subrange(o + 1, c));
            if inner.len() > 0 {
                Some(inner)
            } else {
                None
            }
        } else {
            None
        },
        _ => None,
    }
}

/// Extracts the unit from an indicator name (see `unit_in_name`).
pub fn extract_unit_from_indicator_name(name: &str) -> (r: Option<String>)
    ensures
        match r {
            Some(u) => unit_in_name(name@) == Some(u@),
            None => unit_in_name(name@) is None,
        },
{
    let v = chars_of(name);
    let open = match rfind_char(v.as_slice(), '(') {
        Some(o) => o,
        None => {
            return None;
        },
    };
    let close = match rfind_char(v.as_slice(), ')') {
        Some(c) => c,
        None => {
            return None;
        },
    };
    proof {
        lemma_last_index(v@, '(');
        lemma_last_index(v@, ')');
    }
    if close > open {
        let inner = crate::chars::slice_to_vec(v.as_slice(), open + 1, close);
        let t = trim_chars(inner.as_slice());
        if t.len() > 0 {
            let mut s = String::new();
            append_chars(&mut s, t.as_slice());
            assert(s@ =~= t@);
            Some(s)
        } else {
            None
        }
    } else {
        None
    }
}

/// The first non-empty unit given by a point, in input order.
pub open spec fn first_unit(ps: Seq<DataPoint>) -> Option<Seq<char>>
    decreases ps.len(),
{
    if ps.len() == 0 {
        None
    } else {
        match ps[0].unit {
            Some(u) => if u@.len() > 0 {
                Some(u@)
            } else {
                first_unit(ps.drop_first())
            },
            None => first_unit(ps.drop_first()),
        }
    }
}

/// Whether every non-empty unit of the points is `u`.
pub open spec fn all_units_are(ps: Seq<DataPoint>, u: Seq<char>) -> bool {
    forall|i: int|
        0 <= i < ps.len() ==> match (#[trigger] ps[i]).unit {
            Some(x) => x@.len() == 0 || x@ == u,
            None => true,
        }
}

/// Whether there is at least one point and all share one indicator name.
pub open spec fn single_name(ps: Seq<DataPoint>) -> bool {
    ps.len() > 0 && forall|i: int| 0 <= i < ps.len() ==> (#[trigger] ps[i]).indicator_name@ == ps[0].indicator_name@
}

/// The axis unit: the API-provided unit when all non-empty units agree (and
/// there is one); otherwise, for a single indicator name, the unit written in
/// that name; otherwise none.
pub open spec fn axis_unit(ps: Seq<DataPoint>) -> Option<Seq<char>> {
    match first_unit(ps) {
        Some(u) => if all_units_are(ps, u) {
            Some(u)
        } else if single_name(ps) {
            unit_in_name(ps[0].indicator_name@)
        } else {
            None
        },
        None => if single_name(ps) {
            unit_in_name(ps[0].indicator_name@)
        } else {
            None
        },
    }
}

proof fn lemma_first_unit_skip(ps: Seq<DataPoint>, i: int)
    requires
        0 <= i <= ps.len(),
        forall|k: int|
            0 <= k < i ==> match (#[trigger] ps[k]).unit {
                Some(x) => x@.len() == 0,
                None => true,
            },
    ensures
        first_unit(ps) == first_unit(ps.skip(i)),
    decreases i,
{
    if i > 0 {
        assert forall|k: int| 0 <= k < i - 1 implies match (#[trigger] ps.drop_first()[k]).unit {
            Some(x) => x@.len() == 0,
            None => true,
        } by {
            assert(ps.drop_first()[k] == ps[k + 1]);
        }
        assert(match ps[0].unit {
            Some(x) => x@.len() == 0,
            None => true,
        });
        lemma_first_unit_skip(ps.drop_first(), i - 1);
        assert(ps.drop_first().skip(i - 1) =~= ps.skip(i));
    } else {
        assert(ps.skip(0) =~= ps);
    }
}

fn single_name_exec(points: &[DataPoint]) -> (r: bool)
    ensures
        r == single_name(points@),
{
    if points.len() == 0 {
        return false;
    }
    let first = chars_of(points[0].indicator_name.as_str());
    let mut i: usize = 1;
    while i < points.len()
        invariant
            1 <= i <= points@.len(),
            first@ == points@[0].indicator_name@,
            forall|k: int| 0 <= k < i ==> (#[trigger] points@[k]).indicator_name@ == first@,
        decreases points@.len() - i,
    {
        let c = chars_of(points[i].indicator_name.as_str());
        if !chars_equal(c.as_slice(), first.as_slice()) {
            return false;
        }
        i = i + 1;
    }
    true
}

/// Derives the axis unit of a chart (see `axis_unit`).
pub fn derive_axis_unit(points: &[DataPoint]) -> (r: Option<String>)
    ensures
        match r {
            Some(u) => axis_unit(points@) == Some(u@),
            None => axis_unit(points@) is None,
        },
{
    // the first non-empty unit
    let mut i: usize = 0;
    let mut first: Option<Vec<char>> = None;
    while i < points.len() && first.is_none()
        invariant
            i <= points@.len(),
            first is None ==> forall|k: int|
                0 <= k < i ==> match (#[trigger] points@[k]).unit {
                    Some(x) => x@.len() == 0,
                    None => true,
                },
            first matches Some(f) ==> first_unit(points@) == Some(f@),
        decreases points@.len() - i,
    {
        match &points[i].unit {
            Some(u) => {
                let uv = chars_of(u.as_str());
                if uv.len() > 0 {
                    proof {
                        lemma_first_unit_skip(points@, i as int);
                        assert(points@.skip(i as int)[0] == points@[i as int]);
                    }
                    first = Some(uv);
                }
            },
            None => {},
        }
        i = i + 1;
    }
    if first.is_none() {
        proof {
            lemma_first_unit_skip(points@, i as int);
            assert(points@.skip(points@.len() as int) =~= Seq::<DataPoint>::empty());
        }
    }
    let agree = match &first {
        Some(f) => {
            let mut ok = true;
            let mut j: usize = 0;
            while j < points.len() && ok
                invariant
                    j <= points@.len(),
                    ok ==> forall|k: int|
                        0 <= k < j ==> match (#[trigger] points@[k]).unit {
                            Some(x) => x@.len() == 0 || x@ == f@,
                            None => true,
                        },
                    !ok ==> !all_units_are(points@, f@),
                decreases points@.len() - j,
            {
                match &points[j].unit {
                    Some(u) => {
                        let uv = chars_of(u.as_str());
                        if uv.len() > 0 && !chars_equal(uv.as_slice(), f.as_slice()) {
                            ok = false;
                        }
                    },
                    None => {},
                }
                j = j + 1;
            }
            ok
        },
        None => false,
    };
    if agree {
        match first {
            Some(f) => {
                let mut s = String::new();
                append_chars(&mut s, f.as_slice());
                assert(s@ =~= f@);
                return Some(s);
            },
            None => {
                return None;
            },
        }
    }
    if single_name_exec(points) {
        extract_unit_from_indicator_name(points[0].indicator_name.as_str())
    } else {
        None
    }
}

/// Whether `t` occurs in `s` as a contiguous piece.
pub open spec fn contains_text(s: Seq<char>, t: Seq<char>) -> bool {
    exists|i: int| 0 <= i && i + t.len() <= s.len() && #[trigger] s.subrange(i, i + t.len()) == t
}

fn find_text(s: &[char], t: &[char]) -> (r: bool)
    ensures
        r == contains_text(s@, t@),
{
    if t.len() > s.len() {
        return false;
    }
    let mut i: usize = 0;
    while i <= s.len() - t.len()
        invariant
            t.len() <= s.len(),
            i <= s.len() - t.len() + 1,
            forall|k: int| 0 <= k < i ==> #[trigger] s@.subrange(k, k + t@.len()) != t@,
        decreases s.len() - i,
    {
        let mut j: usize = 0;
        while j < t.len() && s[i + j] == t[j]
            invariant
                j <= t.len(),
                i + t.len() <= s.len(),
                forall|k: int| 0 <= k < j ==> s@[i + k] == t@[k],
            decreases t.len() - j,
        {
            j = j + 1;
        }
        if j == t.len() {
            assert(s@.subrange(i as int, i + t@.len()) =~= t@);
            return true;
        }
        assert(s@.subrange(i as int, i + t@.len())[j as int] != t@[j as int]);
        i = i + 1;
    }
    proof {
        assert forall|k: int| 0 <= k && k + t@.len() <= s@.len() implies #[trigger] s@.subrange(
            k,
            k + t@.len(),
        ) != t@ by {
            assert(k < i);
        }
    }
    false
}

/// Whether a unit reads as a percentage (ASCII case-insensitively it contains
/// `%`, `percent`, `percentage` or `per cent`); such axes are never scaled.
pub open spec fn percentage_like(unit: Seq<char>) -> bool {
    let u = ascii_lower_seq(unit);
    contains_text(u, seq!['%']) || contains_text(u, seq!['p', 'e', 'r', 'c', 'e', 'n', 't'])
        || contains_text(u, seq!['p', 'e', 'r', 'c', 'e', 'n', 't', 'a', 'g', 'e'])
        || contains_text(u, seq!['p', 'e', 'r', ' ', 'c', 'e', 'n', 't'])
}

/// Decides `percentage_like`.
pub fn is_percentage_like(unit: &str) -> (b: bool)
    ensures
        b == percentage_like(unit@),
{
    let v = chars_of(unit);
    let mut u: Vec<char> = Vec::new();
    let mut i: usize = 0;
    while i < v.len()
        invariant
            i <= v@.len(),
            u@ == ascii_lower_seq(v@).take(i as int),
        decreases v@.len() - i,
    {
        u.push(to_ascii_lower(v[i]));
        i = i + 1;
        assert(u@ =~= ascii_lower_seq(v@).take(i as int));
    }
    assert(ascii_lower_seq(v@).take(v@.len() as int) =~= ascii_lower_seq(v@));
    let p1: [char; 1] = ['%'];
    let p2: [char; 7] = ['p', 'e', 'r', 'c', 'e', 'n', 't'];
    let p3: [char; 10] = ['p', 'e', 'r', 'c', 'e', 'n', 't', 'a', 'g', 'e'];
    let p4: [char; 8] = ['p', 'e', 'r', ' ', 'c', 'e', 'n', 't'];
    assert(p1@ =~= seq!['%']);
    assert(p2@ =~= seq!['p', 'e', 'r', 'c', 'e', 'n', 't']);
    assert(p3@ =~= seq!['p', 'e', 'r', 'c', 'e', 'n', 't', 'a', 'g', 'e']);
    assert(p4@ =~= seq!['p', 'e', 'r', ' ', 'c', 'e', 'n', 't']);
    find_text(u.as_slice(), &p1) || find_text(u.as_slice(), &p2) || find_text(u.as_slice(), &p3)
        || find_text(u.as_slice(), &p4)
}

// ------------------------------------------------------------------
// Magnitude scaling
// ------------------------------------------------------------------

/// A single scale for the Y axis.
#[derive(Debug, Clone, Copy, PartialEq, Eq, Structural)]
pub enum AxisScale {
    One,
    Thousands,
    Millions,
    Billions,
    Trillions,
}

/// Whether the bit pattern is a NaN.
pub open spec fn is_nan_bits(b: u64) -> bool {
    (b >> 52u64) & 0x7FFu64 == 0x7FFu64 && b & 0xF_FFFF_FFFF_FFFFu64 != 0
}

/// The scale for the largest absolute value `max_abs` (an `f64` bit
/// pattern): trillions from `1e12`, billions from `1e9`, millions from
/// `1e6`, thousands from `1e3`, otherwise (and for NaN) none.
pub open spec fn scale_for(max_abs: u64) -> AxisScale {
    if is_nan_bits(max_abs) {
        AxisScale::One
    } else if order_key(max_abs) >= order_key(0x426D_1A94_A200_0000u64) {
        AxisScale::Trillions
    } else if order_key(max_abs) >= order_key(0x41CD_CD65_0000_0000u64) {
        AxisScale::Billions
    } else if order_key(max_abs) >= order_key(0x412E_8480_0000_0000u64) {
        AxisScale::Millions
    } else if order_key(max_abs) >= order_key(0x408F_4000_0000_0000u64) {
        AxisScale::Thousands
    } else {
        AxisScale::One
    }
}

/// Picks a single Y-axis scale from the largest absolute value.
pub fn choose_axis_scale(max_abs: u64) -> (s: AxisScale)
    ensures
        s == scale_for(max_abs),
{
    let nan = (max_abs >> 52) & 0x7FF == 0x7FF && max_abs & 0xF_FFFF_FFFF_FFFF != 0;
    if nan {
        return AxisScale::One;
    }
    let k = crate::order::key_of(max_abs);
    let t12 = crate::order::key_of(0x426D_1A94_A200_0000);
    let t9 = crate::order::key_of(0x41CD_CD65_0000_0000);
    let t6 = crate::order::key_of(0x412E_8480_0000_0000);
    let t3 = crate::order::key_of(0x408F_4000_0000_0000);
    if k >= t12 {
        AxisScale::Trillions
    } else if k >= t9 {
        AxisScale::Billions
    } else if k >= t6 {
        AxisScale::Millions
    } else if k >= t3 {
        AxisScale::Thousands
    } else {
        AxisScale::One
    }
}

/// The word naming a scale (empty for none).
pub open spec fn scale_word(s: AxisScale) -> Seq<char> {
    match s {
        AxisScale::One => Seq::empty(),
        AxisScale::Thousands => "thousands"@,
        AxisScale::Millions => "millions"@,
        AxisScale::Billions => "billions"@,
        AxisScale::Trillions => "trillions"@,
    }
}

impl AxisScale {
    /// The power of ten the values are divided by.
    pub fn exponent(&self) -> (e: u32)
        ensures
            e == match *self {
                AxisScale::One => 0u32,
                AxisScale::Thousands => 3u32,
                AxisScale::Millions => 6u32,
                AxisScale::Billions => 9u32,
                AxisScale::Trillions => 12u32,
            },
    {
        match self {
            AxisScale::One => 0,
            AxisScale::Thousands => 3,
            AxisScale::Millions => 6,
            AxisScale::Billions => 9,
            AxisScale::Trillions => 12,
        }
    }

    /// The word naming the scale (`""` for none).
    pub fn word(&self) -> (w: String)
        ensures
            w@ == scale_word(*self),
    {
        let mut w = String::new();
        match self {
            AxisScale::One => {},
            AxisScale::Thousands => append_str(&mut w, "thousands"),
            AxisScale::Millions => append_str(&mut w, "millions"),
            AxisScale::Billions => append_str(&mut w, "billions"),
            AxisScale::Trillions => append_str(&mut w, "trillions"),
        }
        assert(w@ =~= scale_word(*self));
        w
    }
}

/// The scale of an axis with unit `unit`: none for percentage-like units,
/// otherwise by magnitude.
pub open spec fn axis_scale_spec(unit: Option<Seq<char>>, max_abs: u64) -> AxisScale {
    match unit {
        Some(u) => if percentage_like(u) {
            AxisScale::One
        } else {
            scale_for(max_abs)
        },
        None => scale_for(max_abs),
    }
}

/// The view of an optional `String`.
pub open spec fn opt_string_view(o: Option<String>) -> Option<Seq<char>> {
    match o {
        Some(s) => Some(s@),
        None => None,
    }
}

/// Decides the Y-axis scale.
pub fn axis_scale(unit: &Option<String>, max_abs: u64) -> (s: AxisScale)
    ensures
        s == axis_scale_spec(opt_string_view(*unit), max_abs),
{
    match unit {
        Some(u) => if is_percentage_like(u.as_str()) {
            AxisScale::One
        } else {
            choose_axis_scale(max_abs)
        },
        None => choose_axis_scale(max_abs),
    }
}

/// The Y-axis title: the unit (or `"Value"`), followed by the scale word in
/// parentheses when values are scaled.
pub open spec fn y_axis_title_text(unit: Option<Seq<char>>, s: AxisScale) -> Seq<char> {
    let base = match unit {
        Some(u) => u,
        None => "Value"@,
    };
    if s == AxisScale::One {
        base
    } else {
        base + " ("@ + scale_word(s) + ")"@
    }
}

/// Builds the Y-axis title.
pub fn y_axis_title(unit: &Option<String>, s: AxisScale) -> (t: String)
    ensures
        t@ == y_axis_title_text(opt_string_view(*unit), s),
{
    let mut t = String::new();
    match unit {
        Some(u) => append_str(&mut t, u.as_str()),
        None => append_str(&mut t, "Value"),
    }
    match s {
        AxisScale::One => {},
        _ => {
            append_str(&mut t, " (");
            let w = s.word();
            append_str(&mut t, w.as_str());
            append_str(&mut t, ")");
        },
    }
    t
}

// ------------------------------------------------------------------
// Y label gutter
// ------------------------------------------------------------------

/// Decimals shown on a Y tick label of absolute value `abs` (`f64` bits):
/// none from 100, one from 10, two below (and for NaN).
pub open spec fn label_precision_spec(abs: u64) -> usize {
    if is_nan_bits(abs) {
        2
    } else if order_key(abs) >= order_key(0x4059_0000_0000_0000u64) {
        0
    } else if order_key(abs) >= order_key(0x4024_0000_0000_0000u64) {
        1
    } else {
        2
    }
}

/// Decimals of a Y tick label.
pub fn label_precision(abs: u64) -> (p: usize)
    ensures
        p == label_precision_spec(abs),
{
    let nan = (abs >> 52) & 0x7FF == 0x7FF && abs & 0xF_FFFF_FFFF_FFFF != 0;
    if nan {
        return 2;
    }
    let k = crate::order::key_of(abs);
    if k >= crate::order::key_of(0x4059_0000_0000_0000) {
        0
    } else if k >= crate::order::key_of(0x4024_0000_0000_0000) {
        1
    } else {
        2
    }
}

/// Width of the left label area from the widest tick label: 18 px of
/// padding added (saturating), then clamped to `48..=140`.
pub fn left_label_area_px(max_label_px: u32) -> (w: u32)
    ensures
        w as int == if max_label_px as int + 18 < 48 {
            48
        } else if max_label_px as int + 18 > 140 {
            140
        } else {
            max_label_px as int + 18
        },
{
    let padded = max_label_px.saturating_add(18);
    if padded < 48 {
        48
    } else if padded > 140 {
        140
    } else {
        padded
    }
}

// ------------------------------------------------------------------
// Series colours
// ------------------------------------------------------------------

/// The palette slot of a series and, with country styles, the brightness
/// seed of its indicator.
#[derive(Debug, Clone, Copy, PartialEq, Eq, Structural)]
pub struct ColorChoice {
    pub palette_index: usize,
    pub brightness_seed: Option<u64>,
}

/// Number of distinct texts in `s` that are below `x`.
pub open spec fn distinct_below(s: Seq<Seq<char>>, x: Seq<char>) -> nat
    decreases s.len(),
{
    if s.len() == 0 {
        0
    } else {
        let r = distinct_below(s.drop_last(), x);
        if seq_lt(s.last(), x) && !s.drop_last().contains(s.last()) {
            r + 1
        } else {
            r
        }
    }
}

proof fn lemma_distinct_below_bound(s: Seq<Seq<char>>, x: Seq<char>)
    ensures
        distinct_below(s, x) <= s.len(),
    decreases s.len(),
{
    if s.len() > 0 {
        lemma_distinct_below_bound(s.drop_last(), x);
    }
}

/// Country codes of the series, in order.
pub open spec fn series_isos(series: Seq<SeriesData>) -> Seq<Seq<char>> {
    series.map_values(|s: SeriesData| s.iso3@)
}

/// The colour of series `i`: with country styles, the slot of its country's
/// rank among the distinct countries (modulo the 10 palette colours) and the
/// indicator's hash modulo 100; otherwise slot `i` modulo 10.
pub open spec fn color_choice(series: Seq<SeriesData>, i: int, country_styles: bool) -> ColorChoice {
    if country_styles {
        ColorChoice {
            palette_index: (distinct_below(series_isos(series), series[i].iso3@) % 10) as usize,
            brightness_seed: Some(default_hash_of_str(series[i].indicator_id@) % 100),
        }
    } else {
        ColorChoice { palette_index: (i % 10) as usize, brightness_seed: None }
    }
}

fn occurs_before(isos: &Vec<Vec<char>>, j: usize) -> (r: bool)
    requires
        j < isos@.len(),
    ensures
        r == crate::chars::views(isos@).take(j as int).contains(isos@[j as int]@),
{
    let ghost vs = crate::chars::views(isos@);
    let mut k: usize = 0;
    while k < j
        invariant
            k <= j < isos@.len(),
            vs == crate::chars::views(isos@),
            forall|m: int| 0 <= m < k ==> vs[m] != isos@[j as int]@,
        decreases j - k,
    {
        if chars_equal(isos[k].as_slice(), isos[j].as_slice()) {
            assert(vs.take(j as int)[k as int] == isos@[j as int]@);
            return true;
        }
        k = k + 1;
    }
    proof {
        assert forall|m: int| 0 <= m < vs.take(j as int).len() implies vs.take(j as int)[m]
            != isos@[j as int]@ by {}
    }
    false
}

/// The colour choice of every series, in order.
pub fn series_colors(series: &[SeriesData], country_styles: bool) -> (out: Vec<ColorChoice>)
    ensures
        out@.len() == series@.len(),
        forall|i: int| 0 <= i < series@.len() ==> #[trigger] out@[i] == color_choice(series@, i, country_styles),
{
    let mut isos: Vec<Vec<char>> = Vec::new();
    let mut k: usize = 0;
    while k < series.len()
        invariant
            k <= series@.len(),
            crate::chars::views(isos@) == series_isos(series@).take(k as int),
        decreases series@.len() - k,
    {
        let ghost before = crate::chars::views(isos@);
        let c = chars_of(series[k].iso3.as_str());
        isos.push(c);
        assert(crate::chars::views(isos@) =~= before.push(c@));
        assert(series_isos(series@).take(k + 1) =~= series_isos(series@).take(k as int).push(
            series@[k as int].iso3@,
        ));
        k = k + 1;
    }
    assert(series_isos(series@).take(series@.len() as int) =~= series_isos(series@));
    let ghost vs = crate::chars::views(isos@);
    let mut out: Vec<ColorChoice> = Vec::new();
    let mut i: usize = 0;
    while i < series.len()
        invariant
            i <= series@.len(),
            isos@.len() == series@.len(),
            vs == crate::chars::views(isos@),
            vs == series_isos(series@),
            out@.len() == i,
            forall|a: int| 0 <= a < i ==> #[trigger] out@[a] == color_choice(series@, a, country_styles),
        decreases series@.len() - i,
    {
        if country_styles {
            let mut cnt: usize = 0;
            let mut j: usize = 0;
            assert(vs.take(0) =~= Seq::<Seq<char>>::empty());
            while j < isos.len()
                invariant
                    j <= isos@.len(),
                    i < isos@.len(),
                    isos@.len() == series@.len(),
                    vs == crate::chars::views(isos@),
                    cnt as nat == distinct_below(vs.take(j as int), vs[i as int]),
                    cnt <= j,
                decreases isos@.len() - j,
            {
                assert(vs.take(j + 1).drop_last() =~= vs.take(j as int));
                assert(vs.take(j + 1).last() == vs[j as int]);
                assert(vs[j as int] == isos@[j as int]@);
                assert(vs[i as int] == isos@[i as int]@);
                let below = lex_compare(isos[j].as_slice(), isos[i].as_slice()) == Order::Less;
                if below && !occurs_before(&isos, j) {
                    cnt = cnt + 1;
                }
                j = j + 1;
            }
            assert(vs.take(isos@.len() as int) =~= vs);
            assert(vs[i as int] == series@[i as int].iso3@);
            let h = stable_hash64(series[i].indicator_id.as_str());
            out.push(ColorChoice { palette_index: cnt % 10, brightness_seed: Some(h % 100) });
        } else {
            out.push(ColorChoice { palette_index: i % 10, brightness_seed: None });
        }
        i = i + 1;
    }
    out
}

} // verus!

verus! {

/// Whether point `i` carries the non-empty unit `u`.
pub open spec fn has_unit(ps: Seq<DataPoint>, i: int, u: Seq<char>) -> bool {
    ps[i].unit matches Some(x) && x@.len() > 0 && x@ == u
}

/// Whether points `i` and `j` carry two different non-empty units.
pub open spec fn units_differ(ps: Seq<DataPoint>, i: int, j: int) -> bool {
    match (ps[i].unit, ps[j].unit) {
        (Some(x), Some(y)) => x@.len() > 0 && y@.len() > 0 && x@ != y@,
        _ => false,
    }
}

proof fn lemma_first_unit_found(ps: Seq<DataPoint>)
    ensures
        match first_unit(ps) {
            Some(u) => u.len() > 0 && exists|i: int| 0 <= i < ps.len() && has_unit(ps, i, u),
            None => forall|i: int|
                0 <= i < ps.len() ==> match (#[trigger] ps[i]).unit {
                    Some(x) => x@.len() == 0,
                    None => true,
                },
        },
    decreases ps.len(),
{
    if ps.len() > 0 {
        let t = ps.drop_first();
        lemma_first_unit_found(t);
        match first_unit(ps) {
            Some(u) => {
                match ps[0].unit {
                    Some(x) => if x@.len() > 0 {
                        assert(has_unit(ps, 0, u));
                    } else {
                        let i = choose|i: int| 0 <= i < t.len() && has_unit(t, i, u);
                        assert(ps[i + 1] == t[i]);
                        assert(has_unit(ps, i + 1, u));
                    },
                    None => {
                        let i = choose|i: int| 0 <= i < t.len() && has_unit(t, i, u);
                        assert(ps[i + 1] == t[i]);
                        assert(has_unit(ps, i + 1, u));
                    },
                }
            },
            None => {
                assert forall|i: int| 0 <= i < ps.len() implies match (#[trigger] ps[i]).unit {
                    Some(x) => x@.len() == 0,
                    None => true,
                } by {
                    if i > 0 {
                        assert(ps[i] == t[i - 1]);
                    }
                }
            },
        }
    }
}

/// The axis unit agrees with the points. A unit taken from the data is
/// the unit of every point that has a non-empty unit; otherwise it is the
/// unit written in the one indicator name all points share. When some point
/// has a unit and every non-empty unit is the same, that unit is the axis
/// unit. With two different non-empty units and two different indicator
/// names there is no axis unit.
pub proof fn law_axis_unit_agrees_with_points(ps: Seq<DataPoint>)
    ensures
        axis_unit(ps) matches Some(u) ==> ((forall|i: int|
            0 <= i < ps.len() ==> match (#[trigger] ps[i]).unit {
                Some(x) => x@.len() == 0 || x@ == u,
                None => true,
            }) || (ps.len() > 0 && (forall|i: int|
            0 <= i < ps.len() ==> (#[trigger] ps[i]).indicator_name@ == ps[0].indicator_name@)
            && unit_in_name(ps[0].indicator_name@) == Some(u))),
        forall|u: Seq<char>|
            (exists|i: int| 0 <= i < ps.len() && #[trigger] has_unit(ps, i, u)) && (forall|i: int|
                0 <= i < ps.len() ==> match (#[trigger] ps[i]).unit {
                    Some(x) => x@.len() == 0 || x@ == u,
                    None => true,
                }) ==> axis_unit(ps) == Some(u),
        (exists|i: int, j: int|
            0 <= i < ps.len() && 0 <= j < ps.len() && #[trigger] units_differ(ps, i, j))
            && (exists|i: int, j: int|
            0 <= i < ps.len() && 0 <= j < ps.len() && (#[trigger] ps[i]).indicator_name@ != (
            #[trigger] ps[j]).indicator_name@) ==> axis_unit(ps) is None,
{
    lemma_first_unit_found(ps);
    assert forall|u: Seq<char>|
        (exists|i: int| 0 <= i < ps.len() && #[trigger] has_unit(ps, i, u)) && (forall|i: int|
            0 <= i < ps.len() ==> match (#[trigger] ps[i]).unit {
                Some(x) => x@.len() == 0 || x@ == u,
                None => true,
            }) implies axis_unit(ps) == Some(u) by {
        let i = choose|i: int| 0 <= i < ps.len() && has_unit(ps, i, u);
        match first_unit(ps) {
            Some(f) => {
                let j = choose|j: int| 0 <= j < ps.len() && has_unit(ps, j, f);
                assert(match ps[j].unit {
                    Some(x) => x@.len() == 0 || x@ == u,
                    None => true,
                });
                assert(f == u);
                assert(all_units_are(ps, u));
            },
            None => {
                assert(match ps[i].unit {
                    Some(x) => x@.len() == 0,
                    None => true,
                });
            },
        }
    }
    if (exists|i: int, j: int|
        0 <= i < ps.len() && 0 <= j < ps.len() && #[trigger] units_differ(ps, i, j)) && (
    exists|i: int, j: int|
        0 <= i < ps.len() && 0 <= j < ps.len() && (#[trigger] ps[i]).indicator_name@ != (
        #[trigger] ps[j]).indicator_name@) {
        let (i, j) = choose|i: int, j: int|
            0 <= i < ps.len() && 0 <= j < ps.len() && #[trigger] units_differ(ps, i, j);
        let (a, b) = choose|a: int, b: int|
            0 <= a < ps.len() && 0 <= b < ps.len() && (#[trigger] ps[a]).indicator_name@ != (
            #[trigger] ps[b]).indicator_name@;
        assert(!single_name(ps)) by {
            if single_name(ps) {
                assert(ps[a].indicator_name@ == ps[0].indicator_name@);
                assert(ps[b].indicator_name@ == ps[0].indicator_name@);
            }
        }
        match first_unit(ps) {
            Some(f) => {
                assert(!all_units_are(ps, f)) by {
                    if all_units_are(ps, f) {
                        assert(match ps[i].unit {
                            Some(x) => x@.len() == 0 || x@ == f,
                            None => true,
                        });
                        assert(match ps[j].unit {
                            Some(x) => x@.len() == 0 || x@ == f,
                            None => true,
                        });
                    }
                }
            },
            None => {
                assert(match ps[i].unit {
                    Some(x) => x@.len() == 0,
                    None => true,
                });
            },
        }
    }
}

} // verus!
