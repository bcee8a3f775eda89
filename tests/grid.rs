use dttools::grid::Grid;

fn strings(row: &[&str]) -> Vec<String> {
    row.iter().map(|c| c.to_string()).collect()
}

#[test]
fn extent_keeps_all_rows() {
    let rows = vec![
        strings(&["a", "b", "c", "d", "e", "", ""]),
        strings(&["", "", "", "", "", "", ""]),
        strings(&["", "", "", "", "", "", ""]),
    ];
    let g = Grid::from_rows(rows, 7).unwrap();
    assert_eq!(g.occupied_extent(), (3, 5));
}

#[test]
fn extent_takes_widest_row() {
    let rows = vec![strings(&["a", "", "", ""]), strings(&["", "", "x", ""])];
    let g = Grid::from_rows(rows, 4).unwrap();
    assert_eq!(g.occupied_extent(), (2, 3));
}

#[test]
fn extent_of_empty_grid_is_full_width() {
    let rows = vec![strings(&["", "", ""]), strings(&["", "", ""])];
    let g = Grid::from_rows(rows, 3).unwrap();
    assert_eq!(g.occupied_extent(), (2, 3));
}

#[test]
fn ragged_rows_rejected() {
    let rows = vec![strings(&["a", "b"]), strings(&["c"])];
    assert!(Grid::from_rows(rows, 2).is_none());
}

#[test]
fn get_is_one_based_and_blank_outside() {
    let rows = vec![strings(&["a", "b"]), strings(&["c", "d"])];
    let g = Grid::from_rows(rows, 2).unwrap();
    assert_eq!(g.size(), (2, 2));
    assert_eq!(g.get(1, 1), "a");
    assert_eq!(g.get(2, 1), "c");
    assert_eq!(g.get(0, 1), "");
    assert_eq!(g.get(3, 1), "");
    assert_eq!(g.get(1, 3), "");
}
