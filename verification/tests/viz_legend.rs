use wbi_rs::viz::legend::{
    estimate_top_bottom_legend_height_px, legend_band_height, legend_table, right_column_layout,
};

fn labels(v: &[&str]) -> Vec<String> {
    v.iter().map(|s| s.to_string()).collect()
}

#[test]
fn single_short_label_needs_one_row() {
    let l = labels(&["A"]);
    assert_eq!(estimate_top_bottom_legend_height_px(&l, 0, 1000, false, 16, 14), 40);
    assert_eq!(estimate_top_bottom_legend_height_px(&l, 0, 1000, true, 16, 14), 56);
    let t = legend_table(&l, 0, 1000, 14);
    assert_eq!(t.rows.len(), 1);
    assert_eq!(t.slots, vec![60]);
    assert_eq!(t.col_x, vec![0]);
    assert_eq!(t.caps, vec![40]);
}

#[test]
fn empty_legend_has_only_padding() {
    assert_eq!(estimate_top_bottom_legend_height_px(&[], 64, 800, false, 16, 14), 24);
    assert_eq!(legend_band_height(&[], 64, 800, false, 16, 14), Some(24));
}

#[test]
fn items_flow_into_rows_and_columns_align() {
    // At font 20 a 10-character label measures 121 px; blocks add 28 px.
    let l = labels(&["aaaaaaaaaa", "bbbbbbbbbb", "cccccccccc", "dddddddddd"]);
    let t = legend_table(&l, 100, 406, 20);
    let sizes: Vec<usize> = t.rows.iter().map(|r| r.len()).collect();
    assert_eq!(sizes, vec![2, 2]);
    assert_eq!(t.rows[1], vec!["cccccccccc".to_string(), "dddddddddd".to_string()]);
    assert_eq!(t.slots, vec![149, 149]);
    assert_eq!(t.col_x, vec![100, 249]);
    assert_eq!(t.caps, vec![121, 121]);
    // two rows of one 22 px line each, 4 px apart, 16 px above and 8 below
    assert_eq!(estimate_top_bottom_legend_height_px(&l, 100, 406, false, 16, 20), 72);
}

#[test]
fn wide_columns_fall_back_to_uniform_slots_and_wrap() {
    let l = labels(&["a very long legend label number one", "short"]);
    let t = legend_table(&l, 0, 206, 10);
    let sizes: Vec<usize> = t.rows.iter().map(|r| r.len()).collect();
    assert_eq!(sizes, vec![2]);
    // the preferred widths exceed the band, so both columns get 100 px
    assert_eq!(t.slots, vec![100, 100]);
    assert_eq!(t.caps, vec![72, 72]);
    // the long label wraps to three 12 px lines
    assert_eq!(estimate_top_bottom_legend_height_px(&l, 0, 206, false, 16, 10), 60);
}

#[test]
fn right_column_stacks_blocks_with_gaps() {
    let l = labels(&["A", "B"]);
    let items = right_column_layout(&l, 30, 200, false).unwrap();
    assert_eq!(items.len(), 2);
    assert_eq!(items[0].top, 12);
    assert_eq!(items[1].top, 32);
    assert_eq!(items[0].lines, vec!["A".to_string()]);
    let titled = right_column_layout(&l, 30, 200, true).unwrap();
    assert_eq!(titled[0].top, 30);
    assert_eq!(titled[1].top, 50);
}

#[test]
fn right_column_wraps_to_panel_width() {
    let l = labels(&["aaaa bbbb cccc", "x"]);
    let items = right_column_layout(&l, 30, 76, false).unwrap();
    assert_eq!(items[0].lines, vec!["aaaa".to_string(), "bbbb".to_string(), "cccc".to_string()]);
    assert_eq!(items[0].top, 12);
    assert_eq!(items[1].top, 64);
}

#[test]
fn right_column_of_nothing_is_empty() {
    let items = right_column_layout(&[], 42, 300, true).unwrap();
    assert!(items.is_empty());
}
