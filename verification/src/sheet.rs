//! The sheet: a row-major grid of cells with a cursor.
use vstd::prelude::*;
use crate::info::{CellInfo, Info};
use crate::status::StatusCode;
use crate::text::{parse_usize, usize_of};
use crate::convert::{col_name, num_to_alpha};
use crate::parser::ParserContext;

verus! {

/// Largest number of rows a sheet may have.
pub const N_GLOBAL_MAX: usize = 1000;

/// Largest number of columns a sheet may have.
pub const M_GLOBAL_MAX: usize = 18278;

/// `a + d`, clamped to the range of `usize` (what `usize::saturating_add_signed` gives).
pub open spec fn saturating_add_signed_spec(a: usize, d: isize) -> usize {
    if a + d < 0 {
        0
    } else if a + d > usize::MAX {
        usize::MAX
    } else {
        (a + d) as usize
    }
}

/// Adds a signed offset to an index, clamping at 0 and at `usize::MAX`.
pub fn saturating_add_signed(a: usize, d: isize) -> (r: usize)
    ensures
        r == saturating_add_signed_spec(a, d),
{
    if d >= 0 {
        let k = d as usize;
        if a > usize::MAX - k {
            usize::MAX
        } else {
            a + k
        }
    } else {
        let k = ((-(d + 1)) as usize) + 1;
        if a < k {
            0
        } else {
            a - k
        }
    }
}

/// Represents a spreadsheet sheet that holds cell data.
pub struct Sheet {
    /// All cells, row by row: cell `(r, c)` is at index `r * m + c`.
    pub data: Vec<CellInfo>,
    /// Number of rows.
    pub n: usize,
    /// Number of columns.
    pub m: usize,
    /// Current row cursor position.
    pub px: usize,
    /// Current column cursor position.
    pub py: usize,
}

impl Sheet {
    /// The sheet holds exactly one cell per row and column.
    pub open spec fn wf(&self) -> bool {
        self.data@.len() == self.n * self.m
    }

    /// Creates a new sheet with `n` rows and `m` columns of fresh cells.
    pub fn new(n: usize, m: usize) -> (s: Self)
        requires
            n * m <= usize::MAX,
        ensures
            s.wf(),
            s.n == n,
            s.m == m,
            s.px == 0,
            s.py == 0,
            forall|i: int| 0 <= i < s.data@.len() ==> s.data@[i] == CellInfo::blank(),
    {
        let total = n * m;
        let mut data: Vec<CellInfo> = Vec::new();
        while data.len() < total
            invariant
                data@.len() <= total,
                forall|i: int| 0 <= i < data@.len() ==> data@[i] == CellInfo::blank(),
            decreases total - data@.len(),
        {
            data.push(CellInfo::default());
        }
        Sheet { data, n, m, px: 0, py: 0 }
    }

    /// Moves the cursor to row `x`, column `y`; `OutOfBounds` leaves it where it was.
    pub fn set_position(&mut self, x: usize, y: usize) -> (r: Result<(), StatusCode>)
        ensures
            final(self).data == old(self).data,
            final(self).n == old(self).n,
            final(self).m == old(self).m,
            (x >= old(self).n || y >= old(self).m) ==> r == Err::<(), StatusCode>(StatusCode::OutOfBounds)
                && final(self).px == old(self).px && final(self).py == old(self).py,
            (x < old(self).n && y < old(self).m) ==> r == Ok::<(), StatusCode>(())
                && final(self).px == x && final(self).py == y,
    {
        if x >= self.n || y >= self.m {
            return Err(StatusCode::OutOfBounds);
        }
        self.px = x;
        self.py = y;
        Ok(())
    }

    /// Moves the cursor by `dx` rows and `dy` columns (each clamped at zero);
    /// `OutOfBounds` when the target lies outside the sheet.
    pub fn scroll(&mut self, dx: isize, dy: isize) -> (r: Result<(), StatusCode>)
        ensures
            ({
                let x = saturating_add_signed_spec(old(self).px, dx);
                let y = saturating_add_signed_spec(old(self).py, dy);
                &&& final(self).data == old(self).data
                &&& final(self).n == old(self).n
                &&& final(self).m == old(self).m
                &&& (x >= old(self).n || y >= old(self).m) ==> r == Err::<(), StatusCode>(StatusCode::OutOfBounds)
                    && final(self).px == old(self).px && final(self).py == old(self).py
                &&& (x < old(self).n && y < old(self).m) ==> r == Ok::<(), StatusCode>(())
                    && final(self).px == x && final(self).py == y
            }),
    {
        let new_x = saturating_add_signed(self.px, dx);
        let new_y = saturating_add_signed(self.py, dy);
        self.set_position(new_x, new_y)
    }

    /// Whether row `r`, column `c` lies inside the sheet.
    pub fn is_valid_cell(&self, r: usize, c: usize) -> (b: bool)
        ensures
            b == (r < self.n && c < self.m),
    {
        r < self.n && c < self.m
    }

    /// Whether `cell1` and `cell2` are the top-left and bottom-right corners of a range.
    pub fn is_valid_range(&self, cell1: usize, cell2: usize) -> (b: bool)
        requires
            self.m > 0,
        ensures
            b == valid_range_spec(cell1 as int, cell2 as int, self.m as int),
    {
        cell1 <= cell2 && (cell1 % self.m) <= (cell2 % self.m) && (cell1 / self.m) <= (cell2 / self.m)
    }

    /// Returns the row index for a given cell.
    pub fn get_row(&self, cell: usize) -> (r: usize)
        requires
            self.m > 0,
        ensures
            r == cell / self.m,
    {
        cell / self.m
    }

    /// Returns the column index for a given cell.
    pub fn get_column(&self, cell: usize) -> (c: usize)
        requires
            self.m > 0,
        ensures
            c == cell % self.m,
    {
        cell % self.m
    }

    /// Gets the cell index given a row and column.
    pub fn get_cell(&self, r: usize, c: usize) -> (cell: usize)
        requires
            r * self.m + c <= usize::MAX,
        ensures
            cell == r * self.m + c,
    {
        r * self.m + c
    }

    /// Retrieves the row and column of a cell index.
    pub fn get_row_and_column(&self, cell: usize) -> (rc: (usize, usize))
        requires
            self.m > 0,
        ensures
            rc == (cell / self.m, cell % self.m),
    {
        (cell / self.m, cell % self.m)
    }

    /// A copy of the cell at index `cell`.
    pub fn get(&self, cell: usize) -> (c: CellInfo)
        requires
            cell < self.data@.len(),
        ensures
            c == self.data@[cell as int],
    {
        self.data[cell]
    }

    /// Replaces the cell at index `cell`.
    pub fn set(&mut self, cell: usize, info: CellInfo)
        requires
            cell < old(self).data@.len(),
        ensures
            final(self).data@ == old(self).data@.update(cell as int, info),
            final(self).n == old(self).n,
            final(self).m == old(self).m,
            final(self).px == old(self).px,
            final(self).py == old(self).py,
    {
        self.data.set(cell, info);
    }
}

/// One row of the part of the sheet on screen.
#[derive(Debug, Clone)]
pub struct DisplayRow {
    /// The row number shown (from 1).
    pub number: usize,
    /// The cells shown, left to right: the value, or `None` for an error.
    pub cells: Vec<Option<i32>>,
}

/// The part of the sheet on screen: up to ten rows and ten columns from the
/// view's top left corner.
#[derive(Debug, Clone)]
pub struct DisplayGrid {
    /// The names of the columns shown.
    pub columns: Vec<String>,
    /// The rows shown, top to bottom.
    pub rows: Vec<DisplayRow>,
}

/// The end (exclusive) of a window of up to ten lines from `start` in `0..limit`.
pub open spec fn window_end(start: usize, limit: usize) -> int {
    if start + 10 < limit {
        start + 10
    } else {
        limit as int
    }
}

/// What cell `c` shows: its value, or `None` when it holds an error.
pub open spec fn shown(c: CellInfo) -> Option<i32> {
    if c.info.invalid {
        None
    } else {
        Some(c.value)
    }
}

impl Sheet {
    /// Moves the view to the parser's position and returns what the screen
    /// shows: up to ten columns and ten rows from there.
    pub fn display(&mut self, context: &ParserContext) -> (g: DisplayGrid)
        requires
            old(self).wf(),
            context.px + 10 <= usize::MAX,
            context.py + 10 <= usize::MAX,
        ensures
            final(self).data == old(self).data,
            final(self).n == old(self).n,
            final(self).m == old(self).m,
            final(self).px == context.px,
            final(self).py == context.py,
            ({
                let py = context.py;
                let px = context.px;
                let m = old(self).m;
                let n = old(self).n;
                &&& g.columns@.len() == (if py < m { window_end(py, m) - py } else { 0 })
                &&& forall|k: int| 0 <= k < g.columns@.len() ==> #[trigger] g.columns@[k]@ == col_name(((py + k + 1) as u32) as nat)
                &&& g.rows@.len() == (if px < n { window_end(px, n) - px } else { 0 })
                &&& forall|i: int| 0 <= i < g.rows@.len() ==> {
                    &&& (#[trigger] g.rows@[i]).number == px + i + 1
                    &&& g.rows@[i].cells@.len() == g.columns@.len()
                    &&& forall|j: int| 0 <= j < g.rows@[i].cells@.len() ==> #[trigger] g.rows@[i].cells@[j] == shown(
                        old(self).data@[(px + i) * m + py + j],
                    )
                }
            }),
    {
        self.px = context.px;
        self.py = context.py;
        let _total = self.data.len();
        let col_end = if self.py + 10 < self.m { self.py + 10 } else { self.m };
        let row_end = if self.px + 10 < self.n { self.px + 10 } else { self.n };
        let mut columns: Vec<String> = Vec::new();
        let mut j = self.py;
        while j < col_end
            invariant
                self.py <= j,
                j <= col_end || j == self.py,
                col_end <= self.m,
                col_end <= self.py + 10,
                columns@.len() == j - self.py,
                forall|k: int| 0 <= k < columns@.len() ==> #[trigger] columns@[k]@ == col_name(((self.py + k + 1) as u32) as nat),
            decreases col_end - j,
        {
            columns.push(num_to_alpha((j + 1) as u32));
            j = j + 1;
        }
        let mut rows: Vec<DisplayRow> = Vec::new();
        let mut i = self.px;
        while i < row_end
            invariant
                self.wf(),
                self.n * self.m <= usize::MAX,
                self.data == old(self).data,
                self.n == old(self).n,
                self.m == old(self).m,
                self.px == context.px,
                self.py == context.py,
                self.px <= i,
                i <= row_end || i == self.px,
                row_end <= self.n,
                col_end <= self.m,
                columns@.len() == (if self.py < self.m { col_end - self.py } else { 0 }),
                rows@.len() == i - self.px,
                forall|r: int| 0 <= r < rows@.len() ==> {
                    &&& (#[trigger] rows@[r]).number == self.px + r + 1
                    &&& rows@[r].cells@.len() == columns@.len()
                    &&& forall|c: int| 0 <= c < rows@[r].cells@.len() ==> #[trigger] rows@[r].cells@[c] == shown(
                        self.data@[(self.px + r) * self.m + self.py + c],
                    )
                },
            decreases row_end - i,
        {
            let mut cells: Vec<Option<i32>> = Vec::new();
            let mut j = self.py;
            while j < col_end
                invariant
                    self.wf(),
                    self.n * self.m <= usize::MAX,
                    i < row_end <= self.n,
                    self.py <= j,
                    j <= col_end || j == self.py,
                    col_end <= self.m,
                    cells@.len() == j - self.py,
                    forall|c: int| 0 <= c < cells@.len() ==> #[trigger] cells@[c] == shown(self.data@[i * self.m + self.py + c]),
                decreases col_end - j,
            {
                proof {
                    crate::formulas::lemma_cell_bound(i as int, j as int, self.n as int, self.m as int);
                }
                let cell = self.get(self.get_cell(i, j));
                cells.push(if cell.info.invalid { None } else { Some(cell.value) });
                j = j + 1;
            }
            rows.push(DisplayRow { number: i + 1, cells });
            i = i + 1;
        }
        DisplayGrid { columns, rows }
    }
}

/// `cell1` and `cell2` are the top-left and bottom-right corners of a range
/// in a sheet of `m` columns.
pub open spec fn valid_range_spec(cell1: int, cell2: int, m: int) -> bool {
    cell1 <= cell2 && cell1 % m <= cell2 % m && cell1 / m <= cell2 / m
}

/// Parses the row and column counts given on the command line.
pub fn parse_dimensions(rows_str: &str, cols_str: &str) -> (r: Result<(usize, usize), &'static str>)
    ensures
        ({
            let rows = usize_of(rows_str@);
            let cols = usize_of(cols_str@);
            let rows_ok = rows is Some && 0 < rows->0 <= N_GLOBAL_MAX;
            let cols_ok = cols is Some && 0 < cols->0 <= M_GLOBAL_MAX;
            &&& !rows_ok ==> (r matches Err(e) && e@ == "Invalid number of rows"@)
            &&& rows_ok && !cols_ok ==> (r matches Err(e) && e@ == "Invalid number of columns"@)
            &&& rows_ok && cols_ok ==> r == Ok::<(usize, usize), &'static str>((rows->0, cols->0))
        }),
{
    let n = match parse_usize(rows_str) {
        Some(n) if n > 0 && n <= N_GLOBAL_MAX => n,
        _ => return Err("Invalid number of rows"),
    };
    let m = match parse_usize(cols_str) {
        Some(m) if m > 0 && m <= M_GLOBAL_MAX => m,
        _ => return Err("Invalid number of columns"),
    };
    Ok((n, m))
}

/// The index of row `row`, column `col` in a sheet of `m` columns.
pub fn get_cell(row: usize, col: usize, m: usize) -> (cell: usize)
    requires
        row * m + col <= usize::MAX,
    ensures
        cell == row * m + col,
{
    row * m + col
}

/// The row and column of a cell index in a sheet of `m` columns.
pub fn get_row_and_column(cell: usize, m: usize) -> (rc: (usize, usize))
    requires
        m > 0,
    ensures
        rc == (cell / m, cell % m),
{
    (cell / m, cell % m)
}

/// Whether row `row`, column `col` lies inside a sheet of `n` rows and `m` columns.
pub fn is_valid_cell(row: usize, col: usize, n: usize, m: usize) -> (b: bool)
    ensures
        b == (row < n && col < m),
{
    row < n && col < m
}

/// Whether `cell1` and `cell2` are the corners of a range in a sheet of `m` columns.
pub fn is_valid_range(cell1: usize, cell2: usize, m: usize) -> (b: bool)
    requires
        m > 0,
    ensures
        b == valid_range_spec(cell1 as int, cell2 as int, m as int),
{
    cell1 <= cell2 && (cell1 % m) <= (cell2 % m) && (cell1 / m) <= (cell2 / m)
}

} // verus!
