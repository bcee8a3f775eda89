//! The change set: every cell of the occupied extent whose value the rule
//! pipeline alters, in row-major order, one entry per cell.
use vstd::prelude::*;

use crate::engine::{highlighted, transform_cell, transformed_value, AnchorView, Anchors};
use crate::grid::Grid;

verus! {

/// The anchor cells of a grid: row 3, columns 9, 11, 17 and 51.
pub open spec fn anchors_of(g: &Grid) -> AnchorView {
    (g.cell(3, 9), g.cell(3, 11), g.cell(3, 17), g.cell(3, 51))
}

/// Reads the anchor cells once; an empty or missing one reads as empty text.
pub fn resolve_anchors(grid: &Grid) -> (r: Anchors)
    ensures
        r@ == anchors_of(grid),
{
    Anchors { i3: grid.get(3, 9), k3: grid.get(3, 11), q3: grid.get(3, 17), ay3: grid.get(3, 51) }
}

/// One entry of a change set: a cell, its new value, and whether it is
/// highlighted.
pub struct CellChange {
    pub row: usize,
    pub col: usize,
    pub value: String,
    pub highlight: bool,
}

/// An entry as plain values: row, column, new value, highlight.
pub type ChangeView = (int, int, Seq<char>, bool);

impl View for CellChange {
    type V = ChangeView;

    open spec fn view(&self) -> ChangeView {
        (self.row as int, self.col as int, self.value@, self.highlight)
    }
}

/// The pipeline alters the cell at `r`, `c`.
pub open spec fn cell_changed(g: &Grid, a: AnchorView, r: int, c: int) -> bool {
    transformed_value(r, c, g.cell(r, c), a) != g.cell(r, c)
}

/// The entry for the cell at `r`, `c`.
pub open spec fn change_of(g: &Grid, a: AnchorView, r: int, c: int) -> ChangeView {
    (r, c, transformed_value(r, c, g.cell(r, c), a), highlighted(r, c, g.cell(r, c), a))
}

/// The entries of row `r`, columns `1..=c`.
pub open spec fn row_changes(g: &Grid, a: AnchorView, r: int, c: nat) -> Seq<ChangeView>
    decreases c,
{
    if c == 0 {
        seq![]
    } else {
        let prev = row_changes(g, a, r, (c - 1) as nat);
        if cell_changed(g, a, r, c as int) {
            prev.push(change_of(g, a, r, c as int))
        } else {
            prev
        }
    }
}

/// The entries of rows `1..=r`, columns `1..=cols`.
pub open spec fn grid_changes(g: &Grid, a: AnchorView, r: nat, cols: nat) -> Seq<ChangeView>
    decreases r,
{
    if r == 0 {
        seq![]
    } else {
        grid_changes(g, a, (r - 1) as nat, cols) + row_changes(g, a, r as int, cols)
    }
}

/// `x` comes before `y` in row-major order.
pub open spec fn before(x: ChangeView, y: ChangeView) -> bool {
    x.0 < y.0 || (x.0 == y.0 && x.1 < y.1)
}

/// The change set of a grid: over its occupied extent, with its own anchors.
pub open spec fn change_set(g: &Grid) -> Seq<ChangeView> {
    grid_changes(g, anchors_of(g), g.height(), g.extent_cols())
}

/// Scans the occupied extent of `grid` and returns `(maxRow, maxColumn,
/// changes)`: one entry for each cell whose value the pipeline alters.
pub fn find_target_cells(grid: &Grid) -> (r: (usize, usize, Vec<CellChange>))
    ensures
        r.0 == grid.height(),
        r.1 == grid.extent_cols(),
        r.2@.map_values(|e: CellChange| e@) == change_set(grid),
{
    let anchors = resolve_anchors(grid);
    let (height, max_column) = grid.occupied_extent();
    let ghost a = anchors@;
    let mut updates: Vec<CellChange> = Vec::new();
    let mut i: usize = 0;
    while i < height
        invariant
            height == grid.height(),
            max_column == grid.extent_cols(),
            a == anchors_of(grid),
            anchors@ == a,
            i <= height,
            updates@.map_values(|e: CellChange| e@) == grid_changes(grid, a, i as nat, max_column as nat),
        decreases height - i,
    {
        let row = i + 1;
        let ghost before = updates@.map_values(|e: CellChange| e@);
        let mut j: usize = 0;
        while j < max_column
            invariant
                height == grid.height(),
                max_column == grid.extent_cols(),
                anchors@ == a,
                row == i + 1,
                i < height,
                j <= max_column,
                updates@.map_values(|e: CellChange| e@) == before + row_changes(grid, a, row as int, j as nat),
            decreases max_column - j,
        {
            let col = j + 1;
            let original = grid.get(row, col);
            let t = transform_cell(row, col, original.as_str(), &anchors);
            let ghost old_updates = updates@;
            if t.changed {
                updates.push(CellChange { row, col, value: t.value, highlight: t.highlight });
                assert(updates@.map_values(|e: CellChange| e@) =~= old_updates.map_values(|e: CellChange| e@).push(
                    change_of(grid, a, row as int, col as int),
                ));
            }
            j = j + 1;
        }
        i = i + 1;
    }
    (height, max_column, updates)
}

proof fn lemma_row_changes(g: &Grid, a: AnchorView, r: int, c: nat)
    ensures
        forall|k: int| 0 <= k < row_changes(g, a, r, c).len() ==> {
            let e = #[trigger] row_changes(g, a, r, c)[k];
            &&& e.0 == r
            &&& 1 <= e.1 <= c
            &&& cell_changed(g, a, r, e.1)
            &&& e == change_of(g, a, r, e.1)
        },
        forall|j: int| 1 <= j <= c && cell_changed(g, a, r, j) ==> row_changes(g, a, r, c).contains(
            #[trigger] change_of(g, a, r, j),
        ),
        forall|i: int, k: int| 0 <= i < k < row_changes(g, a, r, c).len()
            ==> (#[trigger] row_changes(g, a, r, c)[i]).1 < (#[trigger] row_changes(g, a, r, c)[k]).1,
    decreases c,
{
    if c > 0 {
        lemma_row_changes(g, a, r, (c - 1) as nat);
        let prev = row_changes(g, a, r, (c - 1) as nat);
        let cur = row_changes(g, a, r, c);
        assert forall|j: int| 1 <= j <= c && cell_changed(g, a, r, j) implies cur.contains(
            #[trigger] change_of(g, a, r, j),
        ) by {
            if j < c {
                let k = choose|k: int| 0 <= k < prev.len() && prev[k] == change_of(g, a, r, j);
                assert(cur[k] == prev[k]);
            } else {
                assert(cur[cur.len() - 1] == change_of(g, a, r, j));
            }
        }
        assert forall|i: int, k: int| 0 <= i < k < cur.len() implies (#[trigger] cur[i]).1 < (#[trigger] cur[k]).1 by {
            if k < prev.len() {
                assert(cur[i] == prev[i] && cur[k] == prev[k]);
            } else {
                assert(cur[i] == prev[i]);
            }
        }
    }
}

proof fn lemma_grid_changes(g: &Grid, a: AnchorView, r: nat, cols: nat)
    ensures
        forall|k: int| 0 <= k < grid_changes(g, a, r, cols).len() ==> {
            let e = #[trigger] grid_changes(g, a, r, cols)[k];
            &&& 1 <= e.0 <= r
            &&& 1 <= e.1 <= cols
            &&& cell_changed(g, a, e.0, e.1)
            &&& e == change_of(g, a, e.0, e.1)
        },
        forall|i: int, j: int|
            1 <= i <= r && 1 <= j <= cols && cell_changed(g, a, i, j) ==> grid_changes(g, a, r, cols).contains(
                #[trigger] change_of(g, a, i, j),
            ),
        forall|i: int, k: int| 0 <= i < k < grid_changes(g, a, r, cols).len()
            ==> before(#[trigger] grid_changes(g, a, r, cols)[i], #[trigger] grid_changes(g, a, r, cols)[k]),
    decreases r,
{
    if r > 0 {
        lemma_grid_changes(g, a, (r - 1) as nat, cols);
        lemma_row_changes(g, a, r as int, cols);
        let prev = grid_changes(g, a, (r - 1) as nat, cols);
        let row = row_changes(g, a, r as int, cols);
        let cur = grid_changes(g, a, r, cols);
        assert(cur == prev + row);
        assert forall|k: int| 0 <= k < cur.len() implies {
            let e = #[trigger] cur[k];
            &&& 1 <= e.0 <= r
            &&& 1 <= e.1 <= cols
            &&& cell_changed(g, a, e.0, e.1)
            &&& e == change_of(g, a, e.0, e.1)
        } by {
            if k >= prev.len() {
                assert(cur[k] == row[k - prev.len()]);
            }
        }
        assert forall|i: int, j: int|
            1 <= i <= r && 1 <= j <= cols && cell_changed(g, a, i, j) implies cur.contains(
                #[trigger] change_of(g, a, i, j),
            ) by {
            if i < r {
                let k = choose|k: int| 0 <= k < prev.len() && prev[k] == change_of(g, a, i, j);
                assert(cur[k] == prev[k]);
            } else {
                let k = choose|k: int| 0 <= k < row.len() && row[k] == change_of(g, a, i, j);
                assert(cur[prev.len() + k] == row[k]);
            }
        }
        assert forall|i: int, k: int| 0 <= i < k < cur.len() implies before(#[trigger] cur[i], #[trigger] cur[k]) by {
            if k < prev.len() {
                assert(cur[i] == prev[i] && cur[k] == prev[k]);
            } else if i < prev.len() {
                assert(cur[i] == prev[i] && cur[k] == row[k - prev.len()]);
            } else {
                assert(cur[i] == row[i - prev.len()] && cur[k] == row[k - prev.len()]);
            }
        }
    }
}

/// A cell that the rule pipeline leaves as it is has no entry in the change
/// set.
pub proof fn lemma_untouched_cell_absent(g: &Grid, r: int, c: int)
    requires
        transformed_value(r, c, g.cell(r, c), anchors_of(g)) == g.cell(r, c),
    ensures
        forall|k: int| 0 <= k < change_set(g).len() ==> !((#[trigger] change_set(g)[k]).0 == r && change_set(g)[k].1 == c),
{
    lemma_grid_changes(g, anchors_of(g), g.height(), g.extent_cols());
}

/// The change set holds exactly the altered cells of the occupied extent:
/// each entry is an altered cell with the value and highlight the pipeline
/// gives it, each altered cell of the extent has its entry, and the entries
/// run in row-major order, so no cell has two.
pub proof fn lemma_change_set_exact(g: &Grid)
    ensures
        forall|k: int| 0 <= k < change_set(g).len() ==> {
            let e = #[trigger] change_set(g)[k];
            &&& 1 <= e.0 <= g.height()
            &&& 1 <= e.1 <= g.extent_cols()
            &&& cell_changed(g, anchors_of(g), e.0, e.1)
            &&& e == change_of(g, anchors_of(g), e.0, e.1)
        },
        forall|i: int, j: int|
            1 <= i <= g.height() && 1 <= j <= g.extent_cols() && cell_changed(g, anchors_of(g), i, j)
                ==> change_set(g).contains(#[trigger] change_of(g, anchors_of(g), i, j)),
        forall|i: int, k: int| 0 <= i < k < change_set(g).len()
            ==> before(#[trigger] change_set(g)[i], #[trigger] change_set(g)[k]),
{
    lemma_grid_changes(g, anchors_of(g), g.height(), g.extent_cols());
}

} // verus!
