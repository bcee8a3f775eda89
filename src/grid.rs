//! The grid model: a read-only rectangular snapshot of a worksheet's text,
//! addressed by 1-based row and column.
use vstd::prelude::*;

verus! {

pub struct Grid {
    cells: Vec<Vec<String>>,
    width: usize,
}

impl Grid {
    /// Every row has the grid's width.
    #[verifier::type_invariant]
    closed spec fn rectangular(&self) -> bool {
        forall|i: int| 0 <= i < self.cells@.len() ==> (#[trigger] self.cells@[i])@.len() == self.width
    }

    /// Number of rows.
    pub closed spec fn height(&self) -> nat {
        self.cells@.len()
    }

    /// Number of columns.
    pub closed spec fn width(&self) -> nat {
        self.width as nat
    }

    /// The text of the cell at 1-based `r` and `c`; empty outside the grid.
    pub closed spec fn cell(&self, r: int, c: int) -> Seq<char> {
        if 1 <= r <= self.cells@.len() && 1 <= c <= self.width {
            self.cells@[r - 1]@[c - 1]@
        } else {
            Seq::empty()
        }
    }

    /// The last column up to `c` whose cell in row `r` is not empty, or 0.
    pub open spec fn last_filled(&self, r: int, c: nat) -> nat
        decreases c,
    {
        if c == 0 {
            0
        } else if self.cell(r, c as int).len() > 0 {
            c
        } else {
            self.last_filled(r, (c - 1) as nat)
        }
    }

    /// The largest `last_filled` over the rows `1..=r`.
    pub open spec fn max_filled(&self, r: nat) -> nat
        decreases r,
    {
        if r == 0 {
            0
        } else {
            let m = self.max_filled((r - 1) as nat);
            let l = self.last_filled(r as int, self.width());
            if l > m {
                l
            } else {
                m
            }
        }
    }

    /// The columns the engine inspects: up to the last non-empty column of
    /// any row, or the whole width where every cell is empty.
    pub open spec fn extent_cols(&self) -> nat {
        if self.max_filled(self.height()) == 0 {
            self.width()
        } else {
            self.max_filled(self.height())
        }
    }

    /// A grid of the given rows; `None` unless every row has `width` cells.
    pub fn from_rows(rows: Vec<Vec<String>>, width: usize) -> (r: Option<Grid>)
        ensures
            r.is_some() <==> (forall|i: int| 0 <= i < rows@.len() ==> (#[trigger] rows@[i])@.len() == width),
            r.is_some() ==> ({
                let g = r.unwrap();
                &&& g.height() == rows@.len()
                &&& g.width() == width
                &&& forall|i: int, j: int| 1 <= i <= rows@.len() && 1 <= j <= width
                    ==> #[trigger] g.cell(i, j) == rows@[i - 1]@[j - 1]@
            }),
    {
        let mut i: usize = 0;
        while i < rows.len()
            invariant
                i <= rows@.len(),
                forall|k: int| 0 <= k < i ==> (#[trigger] rows@[k])@.len() == width,
            decreases rows@.len() - i,
        {
            if rows[i].len() != width {
                return None;
            }
            i = i + 1;
        }
        Some(Grid { cells: rows, width })
    }

    /// `(height, width)`.
    pub fn size(&self) -> (r: (usize, usize))
        ensures
            r.0 == self.height(),
            r.1 == self.width(),
    {
        (self.cells.len(), self.width)
    }

    /// The text at 1-based `row` and `col`; empty outside the grid.
    pub fn get(&self, row: usize, col: usize) -> (r: String)
        ensures
            r@ == self.cell(row as int, col as int),
    {
        proof {
            use_type_invariant(self);
        }
        if 1 <= row && row <= self.cells.len() && 1 <= col && col <= self.width {
            let ghost i = row - 1;
            assert(self.cells@[i]@.len() == self.width);
            self.cells[row - 1][col - 1].clone()
        } else {
            String::new()
        }
    }

    /// `(maxRow, maxColumn)`: every row, and the columns up to the last
    /// non-empty one of any row (the whole width when all are empty).
    pub fn occupied_extent(&self) -> (r: (usize, usize))
        ensures
            r.0 == self.height(),
            r.1 == self.extent_cols(),
            r.1 <= self.width(),
    {
        proof {
            use_type_invariant(self);
        }
        let h = self.cells.len();
        let mut max_column: usize = 0;
        let mut row: usize = 0;
        while row < h
            invariant
                h == self.height(),
                row <= h,
                max_column == self.max_filled(row as nat),
                max_column <= self.width,
                forall|i: int| 0 <= i < self.cells@.len() ==> (#[trigger] self.cells@[i])@.len() == self.width,
            decreases h - row,
        {
            let cells = &self.cells[row];
            let mut last: usize = 0;
            let mut col: usize = 0;
            while col < self.width
                invariant
                    row < h,
                    h == self.cells@.len(),
                    cells@.len() == self.width,
                    cells == self.cells@[row as int],
                    col <= self.width,
                    last == self.last_filled(row + 1, col as nat),
                    last <= col,
                decreases self.width - col,
            {
                assert(self.cell(row + 1, col + 1) == cells@[col as int]@);
                if cells[col].unicode_len() > 0 {
                    last = col + 1;
                }
                col = col + 1;
            }
            if last > max_column {
                max_column = last;
            }
            row = row + 1;
        }
        if max_column == 0 {
            (h, self.width)
        } else {
            (h, max_column)
        }
    }
}

} // verus!
