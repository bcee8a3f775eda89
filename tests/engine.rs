use dttools::changes::{find_target_cells, resolve_anchors};
use dttools::engine::{has_quality_code, substitute_terms, transform_cell, Anchors};
use dttools::grid::Grid;

fn anchors(i3: &str, k3: &str, q3: &str, ay3: &str) -> Anchors {
    Anchors { i3: i3.to_string(), k3: k3.to_string(), q3: q3.to_string(), ay3: ay3.to_string() }
}

fn empty_anchors() -> Anchors {
    anchors("", "", "", "")
}

fn grid_of(rows: &[&[&str]]) -> Grid {
    let width = rows.first().map(|r| r.len()).unwrap_or(0);
    let rows: Vec<Vec<String>> = rows.iter().map(|r| r.iter().map(|c| c.to_string()).collect()).collect();
    Grid::from_rows(rows, width).expect("rectangular")
}

#[test]
fn sentinel_tagged_when_anchor_matches() {
    let a = anchors("a24514", "", "", "");
    let t = transform_cell(4, 9, "-999", &a);
    assert_eq!(t.value, "-999#a24041");
    assert!(t.changed);
    assert!(!t.highlight);
}

#[test]
fn sentinel_kept_when_anchor_differs() {
    let a = anchors("a99999", "", "", "");
    let t = transform_cell(4, 9, "-999", &a);
    assert_eq!(t.value, "-999");
    assert!(!t.changed);
}

#[test]
fn sentinel_other_columns() {
    let a = anchors("", "a24011", "a24510", "a25014");
    assert_eq!(transform_cell(5, 11, "-999", &a).value, "-999#a24537");
    assert_eq!(transform_cell(5, 17, "x-999", &a).value, "-999#a24504");
    assert_eq!(transform_cell(5, 51, "-999", &a).value, "-999#a25501");
    assert_eq!(transform_cell(5, 12, "-999", &a).value, "-999");
}

#[test]
fn sentinel_not_before_row_four() {
    let a = anchors("a24514", "", "", "");
    let t = transform_cell(3, 9, "-999", &a);
    assert_eq!(t.value, "-999");
    assert!(!t.changed);
}

#[test]
fn brackets_stripped_from_row_three() {
    let t = transform_cell(3, 1, "foo(bar)", &empty_anchors());
    assert_eq!(t.value, "foo");
    assert!(t.highlight);
    assert!(t.changed);
}

#[test]
fn brackets_kept_above_row_three() {
    let t = transform_cell(1, 1, "foo(bar)", &empty_anchors());
    assert_eq!(t.value, "foo(bar)");
    assert!(!t.highlight);
    assert!(!t.changed);
}

#[test]
fn several_spans_stripped_and_trimmed() {
    let t = transform_cell(7, 2, " a(1) b(2)(3) ", &empty_anchors());
    assert_eq!(t.value, "a b");
    assert!(t.highlight);
    let t = transform_cell(7, 2, "(only)", &empty_anchors());
    assert_eq!(t.value, "");
    let t = transform_cell(7, 2, "x((y)z)", &empty_anchors());
    assert_eq!(t.value, "xz)");
}

#[test]
fn total_hydrocarbon_unit_substituted() {
    let t = transform_cell(1, 4, "总烃(ppbv)", &empty_anchors());
    assert_eq!(t.value, "总烃(ppbC)");
    assert!(!t.highlight);
    let t = transform_cell(2, 8, "总烃(ppbv)", &empty_anchors());
    assert_eq!(t.value, "总烃(ppbC)");
}

#[test]
fn total_hydrocarbon_unit_from_row_three_is_stripped() {
    let t = transform_cell(3, 4, "总烃(ppbv)", &empty_anchors());
    assert_eq!(t.value, "总烃");
    assert!(t.highlight);
}

#[test]
fn term_table_applies_in_order() {
    assert_eq!(substitute_terms("甲烷非甲烷分析仪"), "NMHC监测仪");
    assert_eq!(substitute_terms("VOCs在线监测仪数据"), "VOCs监测仪数据");
    assert_eq!(substitute_terms("间、对-二甲苯,邻二甲苯"), "间/对-二甲苯,邻-二甲苯");
    assert_eq!(substitute_terms("邻二甲苯邻二甲苯"), "邻-二甲苯邻-二甲苯");
    assert_eq!(substitute_terms("plain"), "plain");
}

#[test]
fn quality_codes_detected() {
    assert!(has_quality_code("1.2(C)"));
    assert!(has_quality_code("(RM)3"));
    assert!(!has_quality_code("1.2(R)"));
    assert!(!has_quality_code("1.2"));
}

#[test]
fn untouched_cells_absent_from_change_set() {
    let g = grid_of(&[&["a", "b"], &["c", "d"], &["e(1)", "f"], &["g", "h"]]);
    let (h, w, changes) = find_target_cells(&g);
    assert_eq!(h, 4);
    assert_eq!(w, 2);
    assert_eq!(changes.len(), 1);
    assert_eq!(changes[0].row, 3);
    assert_eq!(changes[0].col, 1);
    assert_eq!(changes[0].value, "e");
    assert!(changes[0].highlight);
}

#[test]
fn second_pass_finds_nothing() {
    let g = grid_of(&[&["邻二甲苯", "x (y)"], &["总烃(ppbv)", " pad "], &["总烃(ppbv)", "a(b)c"]]);
    let (_, _, changes) = find_target_cells(&g);
    let mut rows: Vec<Vec<String>> = vec![vec![String::new(); 2]; 3];
    for r in 0..3 {
        for c in 0..2 {
            rows[r][c] = g.get(r + 1, c + 1);
        }
    }
    for ch in &changes {
        rows[ch.row - 1][ch.col - 1] = ch.value.clone();
    }
    let g2 = Grid::from_rows(rows, 2).unwrap();
    let (_, _, again) = find_target_cells(&g2);
    assert!(again.is_empty());
}

#[test]
fn anchors_read_from_row_three() {
    let mut rows: Vec<Vec<String>> = vec![vec![String::new(); 51]; 4];
    rows[2][8] = "a24514".to_string();
    rows[2][50] = "a25014".to_string();
    rows[3][8] = "-999".to_string();
    rows[3][50] = "-999".to_string();
    let g = Grid::from_rows(rows, 51).unwrap();
    let a = resolve_anchors(&g);
    assert_eq!(a.i3, "a24514");
    assert_eq!(a.k3, "");
    assert_eq!(a.ay3, "a25014");
    let (_, w, changes) = find_target_cells(&g);
    assert_eq!(w, 51);
    assert_eq!(changes.len(), 2);
    assert_eq!(changes[0].value, "-999#a24041");
    assert_eq!(changes[1].value, "-999#a25501");
}

#[test]
fn columns_beyond_extent_not_inspected() {
    let mut rows: Vec<Vec<String>> = vec![vec![String::new(); 6]; 3];
    rows[0][1] = "head".to_string();
    rows[2][0] = "x(1)".to_string();
    let g = Grid::from_rows(rows, 6).unwrap();
    let (_, w, changes) = find_target_cells(&g);
    assert_eq!(w, 2);
    assert_eq!(changes.len(), 1);
}

#[test]
fn bracket_removal_can_join_a_term() {
    let first = transform_cell(3, 2, "邻二(x)甲苯", &empty_anchors());
    assert_eq!(first.value, "邻二甲苯");
    let second = transform_cell(3, 2, &first.value, &empty_anchors());
    assert_eq!(second.value, "邻-二甲苯");
    assert!(second.changed);
}

#[test]
fn substitution_settles_after_one_pass() {
    let once = substitute_terms("甲烷非甲烷非甲烷分析仪分析仪 邻邻二甲苯二甲苯 总烃(ppbv)");
    assert_eq!(substitute_terms(&once), once);
}
