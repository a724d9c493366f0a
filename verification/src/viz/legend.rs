//! Layout of legend bands placed above or below a chart.
//!
//! Items are packed greedily into rows, then laid out as a table: columns
//! take the width of their longest single-line label when all fit, otherwise
//! uniform slots, and labels wrap within their column. The same layout
//! decides how tall the band must be and where each item is drawn.
//!
//! Widths follow the text-width heuristic of `viz::text`; the
//! single-precision step of the per-item cap is modelled exactly.

use vstd::prelude::*;
use crate::viz::text::{
    text_width, round_f32, round_f32_exec, estimate_text_width_px, wrap_spec,
    wrap_text_to_width,
};
use crate::chars::{chars_of, views};

verus! {

/// Gap between marker and text, marker radius and trailing gap together.
pub open spec fn block_extra() -> int {
    28
}

/// A text width (`u32`) read as `i32`, wrapping as `as i32` does.
pub open spec fn w32(w: nat) -> int {
    if w < 0x8000_0000 {
        w as int
    } else {
        w - 0x1_0000_0000
    }
}

/// Widest of the wrapped lines (0 when there are none).
pub open spec fn widest_line(lines: Seq<Seq<char>>, font: nat) -> int
    decreases lines.len(),
{
    if lines.len() == 0 {
        0
    } else if lines.len() == 1 {
        w32(text_width(lines[0].len(), font))
    } else {
        let a = widest_line(lines.drop_last(), font);
        let b = w32(text_width(lines.last().len(), font));
        if a >= b {
            a
        } else {
            b
        }
    }
}

/// Width of an item whose label is wrapped to `cap` (at least 40) pixels.
pub open spec fn block_width(label: Seq<char>, cap: int, font: nat) -> int {
    let c = if cap >= 40 {
        cap
    } else {
        40
    };
    block_extra() + widest_line(wrap_spec(label, font, c as nat), font)
}

/// Width of an item whose label stays on one line.
pub open spec fn single_line_block(label: Seq<char>, font: nat) -> int {
    block_extra() + w32(text_width(label.len(), font))
}

/// Largest width an item may take while packing:
/// `((span as f32) * 0.35).max(140.0) as i32`, where `0.35f32` is
/// `11744051 / 2^25`.
pub open spec fn per_item_cap(span: int) -> int {
    if span <= 0 {
        140
    } else {
        let v = round_f32(round_f32(span as nat) * 11744051) / 0x200_0000;
        if v < 140 {
            140
        } else if v > 0x7FFF_FFFF {
            0x7FFF_FFFF
        } else {
            v as int
        }
    }
}

/// Greedy packing of labels `i..` into rows. `cur` is the row being filled
/// and `x` where its next item would start.
pub open spec fn pack_from(
    labels: Seq<Seq<char>>,
    i: nat,
    rows: Seq<Seq<Seq<char>>>,
    cur: Seq<Seq<char>>,
    x: int,
    start_x: int,
    usable: int,
    cap: int,
    font: nat,
) -> Seq<Seq<Seq<char>>>
    decreases labels.len() - i,
{
    if i >= labels.len() {
        if cur.len() > 0 {
            rows.push(cur)
        } else {
            rows
        }
    } else {
        let remaining = if usable - x >= 40 {
            usable - x
        } else {
            40
        };
        let cap_now = if remaining - block_extra() <= cap {
            remaining - block_extra()
        } else {
            cap
        };
        let bw = block_width(labels[i as int], cap_now, font);
        if x + (bw as i128) > (usable as i128) && cur.len() > 0 {
            let fresh = if (usable - start_x) - block_extra() <= cap {
                (usable - start_x) - block_extra()
            } else {
                cap
            };
            let bw2 = block_width(labels[i as int], fresh, font);
            pack_from(
                labels,
                i + 1,
                rows.push(cur),
                seq![labels[i as int]],
                start_x + bw2,
                start_x,
                usable,
                cap,
                font,
            )
        } else {
            pack_from(
                labels,
                i + 1,
                rows,
                cur.push(labels[i as int]),
                x + bw,
                start_x,
                usable,
                cap,
                font,
            )
        }
    }
}

/// Usable width of a band of total width `total_w`.
pub open spec fn usable_width(total_w: int) -> int {
    total_w - 6
}

/// The rows of a band: labels packed greedily from `start_x`.
pub open spec fn legend_rows(labels: Seq<Seq<char>>, start_x: int, total_w: int, font: nat) -> Seq<
    Seq<Seq<char>>,
> {
    let usable = usable_width(total_w);
    pack_from(
        labels,
        0,
        Seq::empty(),
        Seq::empty(),
        start_x,
        start_x,
        usable,
        per_item_cap(usable - start_x),
        font,
    )
}

/// Number of columns: the longest row (1 when there are none).
pub open spec fn column_count(rows: Seq<Seq<Seq<char>>>) -> nat
    decreases rows.len(),
{
    if rows.len() == 0 {
        1
    } else if rows.len() == 1 {
        rows[0].len()
    } else {
        let k = column_count(rows.drop_last());
        if rows.last().len() > k {
            rows.last().len()
        } else {
            k
        }
    }
}

/// Column widths after taking a row into account.
pub open spec fn widen_by_row(ws: Seq<int>, row: Seq<Seq<char>>, font: nat) -> Seq<int>
    decreases row.len(),
{
    if row.len() == 0 {
        ws
    } else {
        let w = widen_by_row(ws, row.drop_last(), font);
        let c = row.len() - 1;
        let b = single_line_block(row.last(), font);
        if b > w[c] {
            w.update(c, b)
        } else {
            w
        }
    }
}

/// Preferred column widths: at least 60, and each the widest single-line
/// item of its column.
pub open spec fn preferred_widths(rows: Seq<Seq<Seq<char>>>, k: nat, font: nat) -> Seq<int>
    decreases rows.len(),
{
    if rows.len() == 0 {
        Seq::new(k, |c: int| 60int)
    } else {
        widen_by_row(preferred_widths(rows.drop_last(), k, font), rows.last(), font)
    }
}

/// Sum of a sequence of integers.
pub open spec fn sum_ints(s: Seq<int>) -> int
    decreases s.len(),
{
    if s.len() == 0 {
        0
    } else {
        sum_ints(s.drop_last()) + s.last()
    }
}

/// `a / b` rounded toward zero (Rust's integer division), for `b > 0`.
pub open spec fn div_trunc(a: int, b: int) -> int {
    if a >= 0 {
        a / b
    } else {
        -((-a) / b)
    }
}

/// Slot width of each column: the preferred widths when they fit the band
/// from `start_x`, otherwise equal slots of at least 60.
pub open spec fn slot_widths(rows: Seq<Seq<Seq<char>>>, start_x: int, total_w: int, font: nat) -> Seq<
    int,
> {
    let k = column_count(rows);
    let pref = preferred_widths(rows, k, font);
    let usable = usable_width(total_w);
    if start_x + sum_ints(pref) <= usable {
        pref
    } else {
        let u = div_trunc(usable - start_x, k as int);
        let uniform = if u >= 60 {
            u
        } else {
            60
        };
        Seq::new(k, |c: int| uniform)
    }
}

/// Text cap of a column: its slot minus marker and gaps, at least 40.
pub open spec fn text_cap(slot: int) -> int {
    if slot - block_extra() >= 40 {
        slot - block_extra()
    } else {
        40
    }
}

/// Height of a row: the tallest wrapped item (at least one line each, and at
/// least one line overall).
pub open spec fn row_height(row: Seq<Seq<char>>, slots: Seq<int>, font: nat, line_h: int) -> int
    decreases row.len(),
{
    if row.len() == 0 {
        line_h
    } else {
        let h = row_height(row.drop_last(), slots, font, line_h);
        let c = row.len() - 1;
        let n = wrap_spec(row.last(), font, text_cap(slots[c]) as nat).len();
        let bh = (if n >= 1 {
            n as int
        } else {
            1
        }) * line_h;
        if bh > h {
            bh
        } else {
            h
        }
    }
}

/// Total height of the rows with a 4 px gap between consecutive rows.
pub open spec fn rows_height(rows: Seq<Seq<Seq<char>>>, slots: Seq<int>, font: nat, line_h: int) -> int
    decreases rows.len(),
{
    if rows.len() == 0 {
        0
    } else if rows.len() == 1 {
        row_height(rows[0], slots, font, line_h)
    } else {
        rows_height(rows.drop_last(), slots, font, line_h) + 4 + row_height(
            rows.last(),
            slots,
            font,
            line_h,
        )
    }
}

/// Height of a top or bottom legend band: padding and optional title, the
/// rows, and bottom padding.
pub open spec fn band_height(
    labels: Seq<Seq<char>>,
    start_x: int,
    total_w: int,
    has_title: bool,
    title_font: nat,
    font: nat,
) -> int {
    let rows = legend_rows(labels, start_x, total_w, font);
    let slots = slot_widths(rows, start_x, total_w, font);
    let top = if has_title {
        8 + title_font + 8
    } else {
        8 + 8
    };
    top + rows_height(rows, slots, font, (font + 2) as int) + 8
}

} // verus!

verus! {

/// The texts of a vector of strings.
pub open spec fn strs_view(r: Seq<String>) -> Seq<Seq<char>> {
    r.map_values(|s: String| s@)
}

/// The texts of rows of strings.
pub open spec fn rows_view(rows: Seq<Vec<String>>) -> Seq<Seq<Seq<char>>> {
    rows.map_values(|r: Vec<String>| strs_view(r@))
}

fn w32_exec(w: u32) -> (r: i64)
    ensures
        r as int == w32(w as nat),
        -0x8000_0000 <= r < 0x8000_0000,
{
    if w < 0x8000_0000 {
        w as i64
    } else {
        (w as i64) - 0x1_0000_0000
    }
}

/// `per_item_cap` of a span.
fn per_item_cap_exec(span: i64) -> (r: i64)
    requires
        -0x2_0000_0000 <= span <= 0x2_0000_0000,
    ensures
        r as int == per_item_cap(span as int),
        140 <= r <= 0x7FFF_FFFF,
{
    if span <= 0 {
        return 140;
    }
    let rs = round_f32_exec(span as u128);
    let p = round_f32_exec(rs * 11744051);
    let v = p / 0x200_0000;
    if v < 140 {
        140
    } else if v > 0x7FFF_FFFF {
        0x7FFF_FFFF
    } else {
        v as i64
    }
}

fn widest_line_exec(lines: &Vec<String>, font: u32) -> (r: i64)
    ensures
        r as int == widest_line(strs_view(lines@), font as nat),
        -0x8000_0000 <= r < 0x8000_0000,
{
    let ghost lv = strs_view(lines@);
    let mut best: i64 = 0;
    let mut i: usize = 0;
    while i < lines.len()
        invariant
            i <= lines@.len(),
            lv == strs_view(lines@),
            best as int == widest_line(lv.take(i as int), font as nat),
            -0x8000_0000 <= best < 0x8000_0000,
        decreases lines@.len() - i,
    {
        let w = w32_exec(estimate_text_width_px(lines[i].as_str(), font));
        assert(lv.take(i + 1).drop_last() =~= lv.take(i as int));
        assert(lv.take(i + 1).last() == lines@[i as int]@);
        if i == 0 {
            best = w;
            assert(lv.take(1)[0] == lines@[0]@);
        } else if w > best {
            best = w;
        }
        i = i + 1;
    }
    assert(lv.take(lines@.len() as int) =~= lv);
    best
}

fn block_width_exec(label: &str, cap: i64, font: u32) -> (r: i64)
    requires
        cap <= 0xFFFF_FFFF,
    ensures
        r as int == block_width(label@, cap as int, font as nat),
        -0x8000_0000 + 28 <= r < 0x8000_0000 + 28,
{
    let c: i64 = if cap >= 40 {
        cap
    } else {
        40
    };
    let lines = wrap_text_to_width(label, font, c as u32);
    assert(strs_view(lines@) == wrap_spec(label@, font as nat, c as nat));
    28 + widest_line_exec(&lines, font)
}

fn copy_string(s: &String) -> (r: String)
    ensures
        r@ == s@,
{
    s.clone()
}

/// Rows of a legend band (see `legend_rows`).
#[verifier::spinoff_prover]
fn pack_rows(labels: &[String], start_x: i32, total_w: i32, font: u32) -> (rows: Vec<Vec<String>>)
    ensures
        rows_view(rows@) == legend_rows(strs_view(labels@), start_x as int, total_w as int, font as nat),
{
    let ghost lv = strs_view(labels@);
    let usable: i64 = (total_w as i64) - 6;
    let cap = per_item_cap_exec(usable - (start_x as i64));
    let mut rows: Vec<Vec<String>> = Vec::new();
    let mut cur: Vec<String> = Vec::new();
    let mut x: i128 = start_x as i128;
    let mut i: usize = 0;
    assert(rows_view(rows@) =~= Seq::<Seq<Seq<char>>>::empty());
    assert(strs_view(cur@) =~= Seq::<Seq<char>>::empty());
    while i < labels.len()
        invariant
            i <= labels@.len(),
            lv == strs_view(labels@),
            usable == total_w - 6,
            cap as int == per_item_cap(usable - start_x),
            140 <= cap <= 0x7FFF_FFFF,
            -0x8000_0000 - (i as int) * 0x1_0000_0000 <= x <= 0x8000_0000 + (i as int)
                * 0x1_0000_0000,
            legend_rows(lv, start_x as int, total_w as int, font as nat) == pack_from(
                lv,
                i as nat,
                rows_view(rows@),
                strs_view(cur@),
                x as int,
                start_x as int,
                usable as int,
                cap as int,
                font as nat,
            ),
        decreases labels@.len() - i,
    {
        let label = &labels[i];
        assert(lv[i as int] == label@);
        let remaining: i128 = if (usable as i128) - x >= 40 {
            (usable as i128) - x
        } else {
            40
        };
        let cap_now: i64 = if remaining - 28 <= cap as i128 {
            (remaining - 28) as i64
        } else {
            cap
        };
        let bw = block_width_exec(label.as_str(), cap_now, font);
        if x + (bw as i128) > (usable as i128) && cur.len() > 0 {
            let fresh: i64 = if (usable - (start_x as i64)) - 28 <= cap {
                (usable - (start_x as i64)) - 28
            } else {
                cap
            };
            let bw2 = block_width_exec(label.as_str(), fresh, font);
            let ghost rv = rows_view(rows@);
            let ghost cv = strs_view(cur@);
            rows.push(cur);
            assert(rows_view(rows@) =~= rv.push(cv));
            cur = Vec::new();
            cur.push(copy_string(label));
            assert(strs_view(cur@) =~= seq![lv[i as int]]);
            x = (start_x as i128) + (bw2 as i128);
        } else {
            let ghost cv = strs_view(cur@);
            cur.push(copy_string(label));
            assert(strs_view(cur@) =~= cv.push(lv[i as int]));
            x = x + (bw as i128);
        }
        i = i + 1;
    }
    if cur.len() > 0 {
        let ghost rv = rows_view(rows@);
        let ghost cv = strs_view(cur@);
        rows.push(cur);
        assert(rows_view(rows@) =~= rv.push(cv));
    }
    rows
}

proof fn lemma_pack_rows_shape(
    labels: Seq<Seq<char>>,
    i: nat,
    rows: Seq<Seq<Seq<char>>>,
    cur: Seq<Seq<char>>,
    x: int,
    start_x: int,
    usable: int,
    cap: int,
    font: nat,
)
    requires
        i <= labels.len(),
        cur.len() <= i,
        forall|q: int| 0 <= q < rows.len() ==> 1 <= (#[trigger] rows[q]).len() <= i,
    ensures
        forall|q: int|
            0 <= q < pack_from(labels, i, rows, cur, x, start_x, usable, cap, font).len() ==> 1
                <= (#[trigger] pack_from(labels, i, rows, cur, x, start_x, usable, cap, font)[q]).len()
                <= labels.len(),
    decreases labels.len() - i,
{
    if i >= labels.len() {
        if cur.len() > 0 {
            assert forall|q: int| 0 <= q < rows.push(cur).len() implies 1 <= (
            #[trigger] rows.push(cur)[q]).len() <= labels.len() by {
                if q < rows.len() {
                    assert(rows.push(cur)[q] == rows[q]);
                }
            }
        }
    } else {
        let remaining = if usable - x >= 40 {
            usable - x
        } else {
            40
        };
        let cap_now = if remaining - block_extra() <= cap {
            remaining - block_extra()
        } else {
            cap
        };
        let bw = block_width(labels[i as int], cap_now, font);
        if x + (bw as i128) > (usable as i128) && cur.len() > 0 {
            let fresh = if (usable - start_x) - block_extra() <= cap {
                (usable - start_x) - block_extra()
            } else {
                cap
            };
            let bw2 = block_width(labels[i as int], fresh, font);
            assert(pack_from(labels, i, rows, cur, x, start_x, usable, cap, font) == pack_from(
                labels,
                i + 1,
                rows.push(cur),
                seq![labels[i as int]],
                start_x + bw2,
                start_x,
                usable,
                cap,
                font,
            ));
            assert forall|q: int| 0 <= q < rows.push(cur).len() implies 1 <= (
            #[trigger] rows.push(cur)[q]).len() <= i + 1 by {
                if q < rows.len() {
                    assert(rows.push(cur)[q] == rows[q]);
                }
            }
            lemma_pack_rows_shape(
                labels,
                i + 1,
                rows.push(cur),
                seq![labels[i as int]],
                start_x + bw2,
                start_x,
                usable,
                cap,
                font,
            );
        } else {
            assert(pack_from(labels, i, rows, cur, x, start_x, usable, cap, font) == pack_from(
                labels,
                i + 1,
                rows,
                cur.push(labels[i as int]),
                x + bw,
                start_x,
                usable,
                cap,
                font,
            ));
            lemma_pack_rows_shape(
                labels,
                i + 1,
                rows,
                cur.push(labels[i as int]),
                x + bw,
                start_x,
                usable,
                cap,
                font,
            );
        }
    }
}

proof fn lemma_row_len_le_columns(rows: Seq<Seq<Seq<char>>>, r: int)
    requires
        0 <= r < rows.len(),
    ensures
        rows[r].len() <= column_count(rows),
    decreases rows.len(),
{
    if rows.len() > 1 && r < rows.len() - 1 {
        lemma_row_len_le_columns(rows.drop_last(), r);
    }
}

proof fn lemma_widen_len(ws: Seq<int>, row: Seq<Seq<char>>, font: nat)
    requires
        row.len() <= ws.len(),
    ensures
        widen_by_row(ws, row, font).len() == ws.len(),
    decreases row.len(),
{
    if row.len() > 0 {
        lemma_widen_len(ws, row.drop_last(), font);
    }
}

proof fn lemma_preferred_len(rows: Seq<Seq<Seq<char>>>, k: nat, font: nat)
    requires
        forall|r: int| 0 <= r < rows.len() ==> (#[trigger] rows[r]).len() <= k,
    ensures
        preferred_widths(rows, k, font).len() == k,
    decreases rows.len(),
{
    if rows.len() > 0 {
        lemma_preferred_len(rows.drop_last(), k, font);
        lemma_widen_len(preferred_widths(rows.drop_last(), k, font), rows.last(), font);
    }
}

/// Bounds of column widths built from single-line blocks.
spec fn widths_bounded(ws: Seq<int>) -> bool {
    forall|c: int| 0 <= c < ws.len() ==> 60 <= #[trigger] ws[c] < 0x8000_0000 + 28
}

/// Integer values of slot widths.
pub open spec fn slot_ints(s: Seq<i64>) -> Seq<int> {
    s.map_values(|v: i64| v as int)
}

/// The table layout of a legend band: its rows, the slot width of each
/// column, where each column's text starts, and each column's text cap.
pub struct LegendTable {
    pub rows: Vec<Vec<String>>,
    pub slots: Vec<i64>,
    pub col_x: Vec<i128>,
    pub caps: Vec<i64>,
}

/// Lays out a top or bottom legend band.
#[verifier::spinoff_prover]
pub fn legend_table(labels: &[String], start_x: i32, total_w: i32, font_px: u32) -> (t: LegendTable)
    ensures
        rows_view(t.rows@) == legend_rows(
            strs_view(labels@),
            start_x as int,
            total_w as int,
            font_px as nat,
        ),
        slot_ints(t.slots@) == slot_widths(
            rows_view(t.rows@),
            start_x as int,
            total_w as int,
            font_px as nat,
        ),
        t.col_x@.len() == t.slots@.len(),
        t.caps@.len() == t.slots@.len(),
        forall|c: int| 0 <= c < t.slots@.len() ==> 60 <= #[trigger] t.slots@[c] <= 0x1_0000_0000,
        forall|c: int|
            0 <= c < t.slots@.len() ==> {
                &&& (#[trigger] t.col_x@[c]) as int == start_x + sum_ints(
                    slot_ints(t.slots@).take(c),
                )
                &&& t.caps@[c] as int == text_cap(t.slots@[c] as int)
                &&& 40 <= t.caps@[c] <= 0xFFFF_FFFF
            },
{
    let rows = pack_rows(labels, start_x, total_w, font_px);
    let ghost rv = rows_view(rows@);
    proof {
        let usable = usable_width(total_w as int);
        lemma_pack_rows_shape(
            strs_view(labels@),
            0,
            Seq::empty(),
            Seq::empty(),
            start_x as int,
            start_x as int,
            usable,
            per_item_cap(usable - start_x),
            font_px as nat,
        );
    }
    // number of columns
    let mut k: usize = 1;
    let mut r: usize = 0;
    while r < rows.len()
        invariant
            r <= rows@.len(),
            rv == rows_view(rows@),
            k as nat == column_count(rv.take(r as int)),
            1 <= k,
            k <= labels@.len() || k == 1,
            forall|q: int| 0 <= q < rv.len() ==> 1 <= (#[trigger] rv[q]).len() <= labels@.len(),
        decreases rows@.len() - r,
    {
        assert(rv.take(r + 1).drop_last() =~= rv.take(r as int));
        assert(rv[r as int].len() == rows@[r as int]@.len());
        if r == 0 {
            k = rows[0].len();
            assert(rv.take(1)[0] == rv[0]);
        } else if rows[r].len() > k {
            k = rows[r].len();
        }
        r = r + 1;
    }
    assert(rv.take(rows@.len() as int) =~= rv);
    proof {
        assert forall|q: int| 0 <= q < rv.len() implies (#[trigger] rv[q]).len() <= k by {
            lemma_row_len_le_columns(rv, q);
        }
    }
    // preferred widths
    let mut ws: Vec<i64> = Vec::new();
    let mut c: usize = 0;
    while c < k
        invariant
            c <= k,
            ws@.len() == c,
            forall|q: int| 0 <= q < c ==> ws@[q] == 60,
        decreases k - c,
    {
        ws.push(60);
        c = c + 1;
    }
    assert(slot_ints(ws@) =~= preferred_widths(rv.take(0), k as nat, font_px as nat));
    let mut r: usize = 0;
    while r < rows.len()
        invariant
            r <= rows@.len(),
            rv == rows_view(rows@),
            k as nat == column_count(rv),
            forall|q: int| 0 <= q < rv.len() ==> (#[trigger] rv[q]).len() <= k,
            ws@.len() == k,
            slot_ints(ws@) == preferred_widths(rv.take(r as int), k as nat, font_px as nat),
            widths_bounded(slot_ints(ws@)),
        decreases rows@.len() - r,
    {
        let row = &rows[r];
        let ghost base = slot_ints(ws@);
        let ghost rowv = rv[r as int];
        assert(rowv == strs_view(row@));
        assert(rowv.len() <= k);
        let mut j: usize = 0;
        assert(rowv.take(0) =~= Seq::<Seq<char>>::empty());
        while j < row.len()
            invariant
                j <= row@.len() <= k,
                rowv == strs_view(row@),
                ws@.len() == k,
                slot_ints(ws@) == widen_by_row(base, rowv.take(j as int), font_px as nat),
                widths_bounded(slot_ints(ws@)),
            decreases row@.len() - j,
        {
            assert(rowv.take(j + 1).drop_last() =~= rowv.take(j as int));
            assert(rowv.take(j + 1).last() == row@[j as int]@);
            let tw = w32_exec(estimate_text_width_px(row[j].as_str(), font_px));
            let b = 28 + tw;
            let ghost before = slot_ints(ws@);
            if b > ws[j] {
                ws.set(j, b);
                assert(slot_ints(ws@) =~= before.update(j as int, b as int));
                assert forall|q: int| 0 <= q < slot_ints(ws@).len() implies 60 <= #[trigger] slot_ints(
                    ws@,
                )[q] < 0x8000_0000 + 28 by {
                    if q != j {
                        assert(slot_ints(ws@)[q] == before[q]);
                    } else {
                        assert(before[j as int] >= 60);
                    }
                }
            }
            j = j + 1;
        }
        assert(rowv.take(row@.len() as int) =~= rowv);
        assert(rv.take(r + 1).drop_last() =~= rv.take(r as int));
        assert(rv.take(r + 1).last() == rowv);
        r = r + 1;
    }
    assert(rv.take(rows@.len() as int) =~= rv);
    let ghost pref = slot_ints(ws@);
    // total needed
    let mut total: i128 = start_x as i128;
    let mut c: usize = 0;
    while c < k
        invariant
            c <= k,
            ws@.len() == k,
            pref == slot_ints(ws@),
            widths_bounded(pref),
            total as int == start_x + sum_ints(pref.take(c as int)),
            -0x8000_0000 <= total <= 0x8000_0000 + (c as int) * 0x8000_0020,
            k <= usize::MAX,
        decreases k - c,
    {
        assert(pref.take(c + 1).drop_last() =~= pref.take(c as int));
        assert(pref[c as int] == ws@[c as int] as int);
        assert((c as int) * 0x8000_0020 + 0x8000_0020 <= 0x1_0000_0000_0000_0000 * 0x8000_0020)
            by (nonlinear_arith)
            requires
                c < 0x1_0000_0000_0000_0000,
        ;
        total = total + (ws[c] as i128);
        c = c + 1;
    }
    assert(pref.take(k as int) =~= pref);
    let usable: i64 = (total_w as i64) - 6;
    let slots: Vec<i64> = if total <= usable as i128 {
        ws
    } else {
        let span: i64 = usable - (start_x as i64);
        let u: i64 = if span >= 0 {
            ((span as u64) / (k as u64)) as i64
        } else {
            -(((-span) as u64 / (k as u64)) as i64)
        };
        assert(u <= 0x1_0000_0000) by {
            if span >= 0 {
                assert((span as u64) / (k as u64) <= span as u64) by (nonlinear_arith)
                    requires
                        k >= 1,
                ;
            }
        }
        let uniform: i64 = if u >= 60 {
            u
        } else {
            60
        };
        let mut v: Vec<i64> = Vec::new();
        let mut c: usize = 0;
        while c < k
            invariant
                c <= k,
                v@.len() == c,
                forall|q: int| 0 <= q < c ==> v@[q] == uniform,
            decreases k - c,
        {
            v.push(uniform);
            c = c + 1;
        }
        assert(slot_ints(v@) =~= Seq::new(k as nat, |q: int| uniform as int));
        v
    };
    proof {
        assert forall|q: int| 0 <= q < slots@.len() implies 60 <= #[trigger] slots@[q]
            <= 0x1_0000_0000 by {
            if total <= usable as i128 {
                assert(pref[q] == slots@[q] as int);
            }
        }
    }
    let offs = column_offsets(&slots, start_x);
    assert(forall|c: int|
        0 <= c < slots@.len() ==> (#[trigger] offs.0@[c]) as int == start_x + sum_ints(
            slot_ints(slots@).take(c),
        ));
    let t = LegendTable { rows, slots, col_x: offs.0, caps: offs.1 };
    assert(t.slots@ == slots@);
    t
}

/// Where each column starts, and each column's text cap.
fn column_offsets(slots: &Vec<i64>, start_x: i32) -> (r: (Vec<i128>, Vec<i64>))
    requires
        forall|q: int| 0 <= q < slots@.len() ==> 60 <= #[trigger] slots@[q] <= 0x1_0000_0000,
    ensures
        r.0@.len() == slots@.len(),
        r.1@.len() == slots@.len(),
        forall|c: int|
            0 <= c < slots@.len() ==> {
                &&& (#[trigger] r.0@[c]) as int == start_x + sum_ints(slot_ints(slots@).take(c))
                &&& r.1@[c] as int == text_cap(slots@[c] as int)
                &&& 40 <= r.1@[c] <= 0xFFFF_FFFF
            },
{
    let ghost sv = slot_ints(slots@);
    let mut col_x: Vec<i128> = Vec::new();
    let mut caps: Vec<i64> = Vec::new();
    let mut acc: i128 = start_x as i128;
    let mut c: usize = 0;
    let n = slots.len();
    while c < n
        invariant
            c <= n,
            n == slots@.len(),
            sv == slot_ints(slots@),
            col_x@.len() == c,
            caps@.len() == c,
            acc as int == start_x + sum_ints(sv.take(c as int)),
            forall|q: int| 0 <= q < slots@.len() ==> 60 <= #[trigger] slots@[q] <= 0x1_0000_0000,
            -0x8000_0000 <= acc <= 0x8000_0000 + (c as int) * 0x1_0000_0000,
            forall|q: int|
                0 <= q < c ==> {
                    &&& (#[trigger] col_x@[q]) as int == start_x + sum_ints(sv.take(q))
                    &&& caps@[q] as int == text_cap(slots@[q] as int)
                    &&& 40 <= caps@[q] <= 0xFFFF_FFFF
                },
        decreases n - c,
    {
        col_x.push(acc);
        let s = slots[c];
        let cap: i64 = if s - 28 >= 40 {
            s - 28
        } else {
            40
        };
        caps.push(cap);
        assert(sv.take(c + 1).drop_last() =~= sv.take(c as int));
        assert((c as int) * 0x1_0000_0000 + 0x1_0000_0000 <= 0x1_0000_0000_0000_0000 * 0x1_0000_0000)
            by (nonlinear_arith)
            requires
                c < 0x1_0000_0000_0000_0000,
        ;
        acc = acc + (s as i128);
        c = c + 1;
    }
    (col_x, caps)
}

} // verus!

verus! {

fn row_height_exec(row: &Vec<String>, slots: &Vec<i64>, font: u32) -> (h: i128)
    requires
        row@.len() <= slots@.len(),
        forall|q: int| 0 <= q < slots@.len() ==> 60 <= #[trigger] slots@[q] <= 0x1_0000_0000,
    ensures
        h as int == row_height(strs_view(row@), slot_ints(slots@), font as nat, font + 2),
        0 < h <= 0x1_0000_0000_0000_0000 * 0x1_0000_0002,
{
    let ghost rv = strs_view(row@);
    let line_h: i128 = (font as i128) + 2;
    let mut h: i128 = line_h;
    let mut c: usize = 0;
    assert(rv.take(0) =~= Seq::<Seq<char>>::empty());
    while c < row.len()
        invariant
            c <= row@.len() <= slots@.len(),
            rv == strs_view(row@),
            line_h == font + 2,
            forall|q: int| 0 <= q < slots@.len() ==> 60 <= #[trigger] slots@[q] <= 0x1_0000_0000,
            h as int == row_height(rv.take(c as int), slot_ints(slots@), font as nat, font + 2),
            0 < h <= 0x1_0000_0000_0000_0000 * 0x1_0000_0002,
        decreases row@.len() - c,
    {
        let s = slots[c];
        let cap: i64 = if s - 28 >= 40 {
            s - 28
        } else {
            40
        };
        assert(slot_ints(slots@)[c as int] == s as int);
        let lines = wrap_text_to_width(row[c].as_str(), font, cap as u32);
        let n = lines.len();
        let m: i128 = if n >= 1 {
            n as i128
        } else {
            1
        };
        assert(m * line_h <= 0x1_0000_0000_0000_0000 * 0x1_0000_0002) by (nonlinear_arith)
            requires
                1 <= m <= 0x1_0000_0000_0000_0000,
                0 < line_h <= 0x1_0000_0002,
        ;
        assert(m * line_h > 0) by (nonlinear_arith)
            requires
                1 <= m,
                0 < line_h,
        ;
        let bh = m * line_h;
        assert(rv.take(c + 1).drop_last() =~= rv.take(c as int));
        assert(rv.take(c + 1).last() == row@[c as int]@);
        assert(lines@.len() == wrap_spec(row@[c as int]@, font as nat, text_cap(s as int) as nat).len()) by {
            assert(lines@.map_values(|x: String| x@).len() == lines@.len());
        }
        if bh > h {
            h = bh;
        }
        c = c + 1;
    }
    assert(rv.take(row@.len() as int) =~= rv);
    h
}

/// Height of a top or bottom legend band (see `band_height`), or `None`
/// when it exceeds `i32::MAX`.
#[verifier::spinoff_prover]
pub fn legend_band_height(
    labels: &[String],
    start_x: i32,
    total_w: i32,
    has_title: bool,
    title_font_px: u32,
    font_px: u32,
) -> (h: Option<i32>)
    ensures
        match h {
            Some(v) => v as int == band_height(
                strs_view(labels@),
                start_x as int,
                total_w as int,
                has_title,
                title_font_px as nat,
                font_px as nat,
            ),
            None => band_height(
                strs_view(labels@),
                start_x as int,
                total_w as int,
                has_title,
                title_font_px as nat,
                font_px as nat,
            ) > i32::MAX,
        },
{
    let t = legend_table(labels, start_x, total_w, font_px);
    let ghost rv = rows_view(t.rows@);
    let ghost sv = slot_ints(t.slots@);
    let ghost line_h: int = font_px + 2;
    proof {
        let usable = usable_width(total_w as int);
        lemma_pack_rows_shape(
            strs_view(labels@),
            0,
            Seq::empty(),
            Seq::empty(),
            start_x as int,
            start_x as int,
            usable,
            per_item_cap(usable - start_x),
            font_px as nat,
        );
        assert forall|q: int| 0 <= q < rv.len() implies (#[trigger] rv[q]).len() <= column_count(rv) by {
            lemma_row_len_le_columns(rv, q);
        }
        lemma_slot_widths_len(rv, start_x as int, total_w as int, font_px as nat);
        lemma_rows_height_prefix(rv, sv, font_px as nat, line_h);
    }
    let top: i128 = if has_title {
        8 + (title_font_px as i128) + 8
    } else {
        16
    };
    let mut total: i128 = 0;
    let mut r: usize = 0;
    let rows = &t.rows;
    let nrows = rows.len();
    while r < nrows
        invariant
            r <= nrows,
            nrows == rows@.len(),
            rv == rows_view(rows@),
            sv == slot_ints(t.slots@),
            rv == legend_rows(strs_view(labels@), start_x as int, total_w as int, font_px as nat),
            sv == slot_widths(rv, start_x as int, total_w as int, font_px as nat),
            line_h == font_px + 2,
            forall|q: int| 0 <= q < rv.len() ==> (#[trigger] rv[q]).len() <= t.slots@.len(),
            forall|q: int| 0 <= q < t.slots@.len() ==> 60 <= #[trigger] t.slots@[q] <= 0x1_0000_0000,
            total as int == rows_height(rv.take(r as int), sv, font_px as nat, line_h),
            0 <= total <= i32::MAX,
            forall|q: int| 0 <= q <= rv.len() ==> #[trigger] rows_height(rv.take(q), sv, font_px as nat, line_h)
                <= rows_height(rv, sv, font_px as nat, line_h),
        decreases nrows - r,
    {
        assert(rv[r as int] == strs_view(rows@[r as int]@));
        let rh = row_height_exec(&rows[r], &t.slots, font_px);
        assert(rv.take(r + 1).drop_last() =~= rv.take(r as int));
        assert(rv.take(r + 1).last() == rv[r as int]);
        let next: i128 = if r == 0 {
            rh
        } else {
            total + 4 + rh
        };
        proof {
            if r == 0 {
                assert(rv.take(1)[0] == rv[0]);
            }
        }
        assert(next as int == rows_height(rv.take(r + 1), sv, font_px as nat, line_h));
        if next > 0x7FFF_FFFF {
            proof {
                lemma_band_rows(strs_view(labels@), start_x as int, total_w as int, has_title, title_font_px as nat, font_px as nat);
                assert(rows_height(rv.take(r + 1), sv, font_px as nat, line_h) <= rows_height(rv, sv, font_px as nat, line_h));
                assert(rv == legend_rows(strs_view(labels@), start_x as int, total_w as int, font_px as nat));
                assert(sv == slot_widths(rv, start_x as int, total_w as int, font_px as nat));
                assert(band_height(
                    strs_view(labels@),
                    start_x as int,
                    total_w as int,
                    has_title,
                    title_font_px as nat,
                    font_px as nat,
                ) >= 16 + rows_height(rv, sv, font_px as nat, line_h));
            }
            return None;
        }
        total = next;
        r = r + 1;
    }
    assert(rv.take(nrows as int) =~= rv);
    let h = top + total + 8;
    proof {
        lemma_band_rows(strs_view(labels@), start_x as int, total_w as int, has_title, title_font_px as nat, font_px as nat);
    }
    if h > 0x7FFF_FFFF {
        None
    } else {
        Some(h as i32)
    }
}

proof fn lemma_band_rows(
    labels: Seq<Seq<char>>,
    start_x: int,
    total_w: int,
    has_title: bool,
    title_font: nat,
    font: nat,
)
    ensures
        band_height(labels, start_x, total_w, has_title, title_font, font) == (if has_title {
            8 + title_font + 8
        } else {
            16
        }) + rows_height(
            legend_rows(labels, start_x, total_w, font),
            slot_widths(legend_rows(labels, start_x, total_w, font), start_x, total_w, font),
            font,
            (font + 2) as int,
        ) + 8,
        rows_height(
            legend_rows(labels, start_x, total_w, font),
            slot_widths(legend_rows(labels, start_x, total_w, font), start_x, total_w, font),
            font,
            (font + 2) as int,
        ) >= 0,
{
    let rows = legend_rows(labels, start_x, total_w, font);
    let slots = slot_widths(rows, start_x, total_w, font);
    lemma_rows_height_nonneg(rows, slots, font, (font + 2) as int);
}

proof fn lemma_rows_height_prefix(rows: Seq<Seq<Seq<char>>>, slots: Seq<int>, font: nat, line_h: int)
    requires
        line_h > 0,
    ensures
        forall|q: int| 0 <= q <= rows.len() ==> #[trigger] rows_height(rows.take(q), slots, font, line_h)
            <= rows_height(rows, slots, font, line_h),
    decreases rows.len(),
{
    if rows.len() > 0 {
        let t = rows.drop_last();
        lemma_rows_height_prefix(t, slots, font, line_h);
        lemma_row_height_pos(rows.last(), slots, font, line_h);
        lemma_rows_height_nonneg(t, slots, font, line_h);
        assert forall|q: int| 0 <= q <= rows.len() implies #[trigger] rows_height(
            rows.take(q),
            slots,
            font,
            line_h,
        ) <= rows_height(rows, slots, font, line_h) by {
            if q == rows.len() {
                assert(rows.take(q) =~= rows);
            } else {
                assert(rows.take(q) =~= t.take(q));
                assert(rows_height(t.take(q), slots, font, line_h) <= rows_height(t, slots, font, line_h));
                if rows.len() == 1 {
                    assert(t.take(q) =~= Seq::<Seq<Seq<char>>>::empty());
                } else {
                    assert(rows_height(rows, slots, font, line_h) == rows_height(t, slots, font, line_h) + 4
                        + row_height(rows.last(), slots, font, line_h));
                }
            }
        }
    }
}

proof fn lemma_slot_widths_len(rows: Seq<Seq<Seq<char>>>, start_x: int, total_w: int, font: nat)
    requires
        forall|q: int| 0 <= q < rows.len() ==> (#[trigger] rows[q]).len() <= column_count(rows),
    ensures
        slot_widths(rows, start_x, total_w, font).len() == column_count(rows),
{
    lemma_preferred_len(rows, column_count(rows), font);
}

/// Estimates how tall a top or bottom legend band must be to fit all items,
/// honouring wrapping and multi-row flow, in pixels (see `band_height`).
pub fn estimate_top_bottom_legend_height_px(
    labels: &[String],
    start_x: i32,
    total_w: i32,
    has_title: bool,
    title_font_px: u32,
    font_px: u32,
) -> (h: i32)
    requires
        band_height(
            strs_view(labels@),
            start_x as int,
            total_w as int,
            has_title,
            title_font_px as nat,
            font_px as nat,
        ) <= i32::MAX,
    ensures
        h as int == band_height(
            strs_view(labels@),
            start_x as int,
            total_w as int,
            has_title,
            title_font_px as nat,
            font_px as nat,
        ),
{
    let h = legend_band_height(labels, start_x, total_w, has_title, title_font_px, font_px);
    match h {
        Some(v) => v,
        None => 0,
    }
}

proof fn lemma_rows_height_nonneg(rows: Seq<Seq<Seq<char>>>, slots: Seq<int>, font: nat, line_h: int)
    requires
        line_h > 0,
    ensures
        rows_height(rows, slots, font, line_h) >= 0,
    decreases rows.len(),
{
    if rows.len() > 1 {
        lemma_rows_height_nonneg(rows.drop_last(), slots, font, line_h);
        lemma_row_height_pos(rows.last(), slots, font, line_h);
    } else if rows.len() == 1 {
        lemma_row_height_pos(rows[0], slots, font, line_h);
    }
}

proof fn lemma_row_height_pos(row: Seq<Seq<char>>, slots: Seq<int>, font: nat, line_h: int)
    requires
        line_h > 0,
    ensures
        row_height(row, slots, font, line_h) > 0,
    decreases row.len(),
{
    if row.len() > 0 {
        lemma_row_height_pos(row.drop_last(), slots, font, line_h);
    }
}

/// Height of one item of a right-hand legend column: its label wrapped to
/// `cap` at 14 px, at least one line, 16 px per line.
pub open spec fn column_block_height(label: Seq<char>, cap: int) -> int {
    let n = wrap_spec(label, 14, cap as nat).len();
    (if n >= 1 {
        n as int
    } else {
        1
    }) * 16
}

/// Top of item `i` of a right-hand legend column: the first top, then each
/// earlier item's height and a 4 px gap.
pub open spec fn column_top(labels: Seq<Seq<char>>, cap: int, first: int, i: nat) -> int
    decreases i,
{
    if i == 0 {
        first
    } else {
        column_top(labels, cap, first, (i - 1) as nat) + column_block_height(labels[i - 1], cap)
            + 4
    }
}

/// Top of the first item of a right-hand legend column: below the title
/// (6 px padding, a 16 px title and 8 px), or 12 px down without one.
pub open spec fn column_first_top(has_title: bool) -> int {
    if has_title {
        30
    } else {
        12
    }
}

/// Text width available in a right-hand column whose text starts at
/// `text_x`: the rest of the panel less 6 px padding, at least 40.
pub open spec fn column_text_cap(text_x: int, panel_w: int) -> int {
    if panel_w - text_x - 6 >= 40 {
        panel_w - text_x - 6
    } else {
        40
    }
}

proof fn lemma_column_top_grows(labels: Seq<Seq<char>>, cap: int, first: int, i: nat, j: nat)
    requires
        i <= j,
    ensures
        column_top(labels, cap, first, i) <= column_top(labels, cap, first, j),
    decreases j,
{
    if i < j {
        lemma_column_top_grows(labels, cap, first, i, (j - 1) as nat);
    }
}

/// One item of a right-hand legend column: where its block starts and its
/// wrapped lines.
pub struct ColumnItem {
    pub top: i32,
    pub lines: Vec<String>,
}

/// Lays out a right-hand legend column: each label wrapped to the panel
/// width right of `text_x`, and the top of each block, one under the other.
/// `None` when the column would run past `i32::MAX` pixels.
pub fn right_column_layout(labels: &[String], text_x: i32, panel_w: i32, has_title: bool) -> (r:
    Option<Vec<ColumnItem>>)
    requires
        i32::MIN <= panel_w - text_x <= i32::MAX,
        i32::MIN <= panel_w - text_x - 6,
    ensures
        r is Some <==> column_top(
            strs_view(labels@),
            column_text_cap(text_x as int, panel_w as int),
            column_first_top(has_title),
            labels@.len() as nat,
        ) <= i32::MAX,
        r is Some ==> r->0@.len() == labels@.len(),
        r is Some ==> forall|i: int|
            0 <= i < labels@.len() ==> {
                &&& (#[trigger] r->0@[i]).top == column_top(
                    strs_view(labels@),
                    column_text_cap(text_x as int, panel_w as int),
                    column_first_top(has_title),
                    i as nat,
                )
                &&& strs_view(r->0@[i].lines@) == wrap_spec(
                    labels@[i]@,
                    14,
                    column_text_cap(text_x as int, panel_w as int) as nat,
                )
            },
{
    let ghost lv = strs_view(labels@);
    let ghost capi = column_text_cap(text_x as int, panel_w as int);
    let ghost first = column_first_top(has_title);
    let room: i64 = (panel_w as i64) - (text_x as i64) - 6;
    let cap: i64 = if room >= 40 {
        room
    } else {
        40
    };
    let mut y: i64 = if has_title {
        30
    } else {
        12
    };
    let mut items: Vec<ColumnItem> = Vec::new();
    let mut i: usize = 0;
    while i < labels.len()
        invariant
            i <= labels@.len(),
            lv == strs_view(labels@),
            capi == column_text_cap(text_x as int, panel_w as int),
            first == column_first_top(has_title),
            cap as int == capi,
            40 <= cap <= i32::MAX,
            y as int == column_top(lv, capi, first, i as nat),
            0 < y <= i32::MAX,
            items@.len() == i,
            forall|j: int|
                0 <= j < i ==> {
                    &&& (#[trigger] items@[j]).top == column_top(lv, capi, first, j as nat)
                    &&& strs_view(items@[j].lines@) == wrap_spec(labels@[j]@, 14, capi as nat)
                },
        decreases labels@.len() - i,
    {
        proof {
            lemma_column_top_grows(lv, capi, first, (i + 1) as nat, labels@.len() as nat);
            assert(lv[i as int] == labels@[i as int]@);
        }
        let lines = wrap_text_to_width(labels[i].as_str(), 14, cap as u32);
        let n: usize = if lines.len() >= 1 {
            lines.len()
        } else {
            1
        };
        assert(lines@.map_values(|s: String| s@) == strs_view(lines@));
        let next: i128 = (y as i128) + (n as i128) * 16 + 4;
        if next > 0x7FFF_FFFF {
            return None;
        }
        items.push(ColumnItem { top: y as i32, lines });
        y = next as i64;
        proof {
            assert forall|j: int| 0 <= j < i + 1 implies {
                &&& (#[trigger] items@[j]).top == column_top(lv, capi, first, j as nat)
                &&& strs_view(items@[j].lines@) == wrap_spec(labels@[j]@, 14, capi as nat)
            } by {}
        }
        i = i + 1;
    }
    Some(items)
}

/// The items of rows, row after row.
pub open spec fn flatten_rows(rows: Seq<Seq<Seq<char>>>) -> Seq<Seq<char>>
    decreases rows.len(),
{
    if rows.len() == 0 {
        Seq::empty()
    } else {
        flatten_rows(rows.drop_last()) + rows.last()
    }
}

proof fn lemma_pack_keeps_items(
    labels: Seq<Seq<char>>,
    i: nat,
    rows: Seq<Seq<Seq<char>>>,
    cur: Seq<Seq<char>>,
    x: int,
    start_x: int,
    usable: int,
    cap: int,
    font: nat,
)
    requires
        i <= labels.len(),
        flatten_rows(rows) + cur == labels.take(i as int),
    ensures
        flatten_rows(pack_from(labels, i, rows, cur, x, start_x, usable, cap, font)) == labels,
    decreases labels.len() - i,
{
    if i >= labels.len() {
        assert(labels.take(i as int) =~= labels);
        if cur.len() > 0 {
            assert(rows.push(cur).drop_last() =~= rows);
            assert(flatten_rows(rows.push(cur)) == flatten_rows(rows) + cur);
        } else {
            assert(flatten_rows(rows) + cur =~= flatten_rows(rows));
        }
    } else {
        let remaining = if usable - x >= 40 {
            usable - x
        } else {
            40
        };
        let cap_now = if remaining - block_extra() <= cap {
            remaining - block_extra()
        } else {
            cap
        };
        let bw = block_width(labels[i as int], cap_now, font);
        assert(labels.take((i + 1) as int) =~= labels.take(i as int).push(labels[i as int]));
        if x + (bw as i128) > (usable as i128) && cur.len() > 0 {
            let fresh = if (usable - start_x) - block_extra() <= cap {
                (usable - start_x) - block_extra()
            } else {
                cap
            };
            let bw2 = block_width(labels[i as int], fresh, font);
            assert(pack_from(labels, i, rows, cur, x, start_x, usable, cap, font) == pack_from(
                labels,
                i + 1,
                rows.push(cur),
                seq![labels[i as int]],
                start_x + bw2,
                start_x,
                usable,
                cap,
                font,
            ));
            assert(rows.push(cur).drop_last() =~= rows);
            assert(flatten_rows(rows.push(cur)) == flatten_rows(rows) + cur);
            assert(flatten_rows(rows.push(cur)) + seq![labels[i as int]] =~= labels.take((i + 1) as int));
            lemma_pack_keeps_items(
                labels,
                i + 1,
                rows.push(cur),
                seq![labels[i as int]],
                start_x + bw2,
                start_x,
                usable,
                cap,
                font,
            );
        } else {
            assert(pack_from(labels, i, rows, cur, x, start_x, usable, cap, font) == pack_from(
                labels,
                i + 1,
                rows,
                cur.push(labels[i as int]),
                x + bw,
                start_x,
                usable,
                cap,
                font,
            ));
            assert(flatten_rows(rows) + cur.push(labels[i as int]) =~= labels.take((i + 1) as int));
            lemma_pack_keeps_items(
                labels,
                i + 1,
                rows,
                cur.push(labels[i as int]),
                x + bw,
                start_x,
                usable,
                cap,
                font,
            );
        }
    }
}

/// Packing a legend into rows neither loses, repeats nor reorders items:
/// the rows, read one after the other, are exactly the labels; and no row
/// is empty.
pub proof fn law_legend_rows_keep_items(
    labels: Seq<Seq<char>>,
    start_x: int,
    total_w: int,
    font: nat,
)
    ensures
        flatten_rows(legend_rows(labels, start_x, total_w, font)) == labels,
        forall|q: int|
            0 <= q < legend_rows(labels, start_x, total_w, font).len() ==> (#[trigger] legend_rows(
                labels,
                start_x,
                total_w,
                font,
            )[q]).len() >= 1,
{
    let usable = usable_width(total_w);
    let cap = per_item_cap(usable - start_x);
    assert(flatten_rows(Seq::<Seq<Seq<char>>>::empty()) + Seq::<Seq<char>>::empty() =~= labels.take(0));
    lemma_pack_keeps_items(labels, 0, Seq::empty(), Seq::empty(), start_x, start_x, usable, cap, font);
    lemma_pack_rows_shape(labels, 0, Seq::empty(), Seq::empty(), start_x, start_x, usable, cap, font);
}

} // verus!
