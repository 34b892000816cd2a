//! The logical grid, its cells and the tiles of the occupancy grid.

use vstd::arithmetic::div_mod::{lemma_fundamental_div_mod, lemma_fundamental_div_mod_converse};
use vstd::prelude::*;

verus! {

/// One tile of the occupancy grid.
#[derive(Clone, Copy, Debug, PartialEq, Eq, Structural)]
pub enum TileType {
    Wall,
    Floor,
}

impl TileType {
    /// The index of the tile's picture in the tile sheet.
    pub open spec fn texture_index(self) -> u32 {
        match self {
            TileType::Wall => 17,
            TileType::Floor => 92,
        }
    }

    /// The index of the tile's picture in the tile sheet.
    pub fn into_index(self) -> (index: u32)
        ensures
            index == self.texture_index(),
    {
        match self {
            TileType::Wall => 17,
            TileType::Floor => 92,
        }
    }
}

/// One of the four moves of a walk. `Up` leads to the next row, `Down` to
/// the previous one.
#[derive(Clone, Copy, Debug, PartialEq, Eq, Structural)]
pub enum Direction {
    Left,
    Up,
    Right,
    Down,
}

impl Direction {
    /// The direction that a draw stands for: 0 is left, 1 up, 2 right and
    /// 3 down; larger numbers wrap around.
    pub open spec fn of_index(n: int) -> Direction {
        if n % 4 == 0 {
            Direction::Left
        } else if n % 4 == 1 {
            Direction::Up
        } else if n % 4 == 2 {
            Direction::Right
        } else {
            Direction::Down
        }
    }

    /// Turns a draw into a direction.
    pub fn from_index(n: usize) -> (dir: Direction)
        ensures
            dir == Direction::of_index(n as int),
    {
        let k: usize = n % 4;
        if k == 0 {
            Direction::Left
        } else if k == 1 {
            Direction::Up
        } else if k == 2 {
            Direction::Right
        } else {
            Direction::Down
        }
    }

    /// The change of row that the move makes.
    pub open spec fn row_delta(self) -> int {
        match self {
            Direction::Up => 1,
            Direction::Down => -1,
            _ => 0,
        }
    }

    /// The change of column that the move makes.
    pub open spec fn col_delta(self) -> int {
        match self {
            Direction::Right => 1,
            Direction::Left => -1,
            _ => 0,
        }
    }
}

/// Why a pair of dimensions cannot be used for a grid.
#[derive(Clone, Copy, Debug, PartialEq, Eq, Structural)]
pub enum ConfigurationError {
    /// A side is shorter than 4 cells, so that no 2 by 2 interior is left
    /// inside the border.
    TooSmall,
    /// The occupancy grid would have more tiles than `usize` can count.
    TooLarge,
}

/// The dimensions of the logical grid, in cells.
///
/// A cell is named by its index `row * width + col`. The cells of the
/// outermost rows and columns form the border, which no path enters.
#[derive(Clone, Copy, Debug, PartialEq, Eq, Structural)]
pub struct LogicalGrid {
    pub width: usize,
    pub height: usize,
}

impl LogicalGrid {
    /// The dimensions leave a 2 by 2 interior, and the occupancy grid fits
    /// in memory.
    pub open spec fn wf(&self) -> bool {
        &&& self.width >= 4
        &&& self.height >= 4
        &&& 9 * (self.width * self.height) <= usize::MAX
    }

    /// What `new` answers for a pair of dimensions.
    pub open spec fn check(width: int, height: int) -> Result<(), ConfigurationError> {
        if width < 4 || height < 4 {
            Err(ConfigurationError::TooSmall)
        } else if 9 * (width * height) > usize::MAX {
            Err(ConfigurationError::TooLarge)
        } else {
            Ok(())
        }
    }

    /// The number of cells.
    pub open spec fn cell_count(&self) -> int {
        self.width * self.height
    }

    /// Whether a number is the index of a cell.
    pub open spec fn in_grid(&self, cell: int) -> bool {
        0 <= cell < self.width * self.height
    }

    /// The row of a cell.
    pub open spec fn row_of(&self, cell: int) -> int {
        cell / (self.width as int)
    }

    /// The column of a cell.
    pub open spec fn col_of(&self, cell: int) -> int {
        cell % (self.width as int)
    }

    /// The index of the cell in a row and a column.
    pub open spec fn cell_at(&self, row: int, col: int) -> int {
        row * self.width + col
    }

    /// The cell lies in the grid and off its border.
    pub open spec fn interior(&self, cell: int) -> bool {
        &&& self.in_grid(cell)
        &&& 1 <= self.row_of(cell) <= self.height - 2
        &&& 1 <= self.col_of(cell) <= self.width - 2
    }

    /// The two cells lie in the grid, one step apart in one of the four
    /// directions.
    pub open spec fn adjacent(&self, a: int, b: int) -> bool {
        &&& self.in_grid(a)
        &&& self.in_grid(b)
        &&& {
            let dr = self.row_of(b) - self.row_of(a);
            let dc = self.col_of(b) - self.col_of(a);
            ||| (dr == 0 && (dc == 1 || dc == -1))
            ||| (dc == 0 && (dr == 1 || dr == -1))
        }
    }

    /// The cell where the critical path begins: row 1, column 1.
    pub open spec fn start_cell(&self) -> int {
        self.width + 1
    }

    /// The cell where the critical path ends: the last interior cell.
    pub open spec fn end_cell(&self) -> int {
        self.width * self.height - self.width - 2
    }

    /// The number of moves between two cells along the shortest way by
    /// steps in the four directions.
    pub open spec fn distance(&self, a: int, b: int) -> int {
        let dr = self.row_of(b) - self.row_of(a);
        let dc = self.col_of(b) - self.col_of(a);
        (if dr >= 0 {
            dr
        } else {
            -dr
        }) + (if dc >= 0 {
            dc
        } else {
            -dc
        })
    }

    /// The number of moves that the shortest way from the start cell to
    /// the end cell takes.
    pub open spec fn span(&self) -> int {
        self.width + self.height - 6
    }

    /// The cell that a move from `cell` leads to. A move off the low end
    /// of the index range stops at cell 0.
    pub open spec fn neighbor(&self, cell: int, dir: Direction) -> int {
        match dir {
            Direction::Left => if cell >= 1 {
                cell - 1
            } else {
                0
            },
            Direction::Up => cell + self.width,
            Direction::Right => cell + 1,
            Direction::Down => if cell >= self.width {
                cell - self.width
            } else {
                0
            },
        }
    }

    /// The number of columns of the occupancy grid.
    pub open spec fn tile_cols(&self) -> int {
        3 * self.width
    }

    /// The number of rows of the occupancy grid.
    pub open spec fn tile_rows(&self) -> int {
        3 * self.height
    }

    /// The number of tiles of the occupancy grid.
    pub open spec fn tile_count(&self) -> int {
        9 * (self.width * self.height)
    }

    /// The row of a tile of the occupancy grid, which is stored row by
    /// row.
    pub open spec fn tile_row(&self, tile: int) -> int {
        tile / (3 * self.width)
    }

    /// The column of a tile of the occupancy grid.
    pub open spec fn tile_col(&self, tile: int) -> int {
        tile % (3 * self.width)
    }

    /// The index of the tile in a row and a column of the occupancy grid.
    pub open spec fn tile_at(&self, row: int, col: int) -> int {
        row * (3 * self.width) + col
    }

    /// The row of the occupancy grid in which the middle of a cell's
    /// 3 by 3 block lies.
    pub open spec fn hub_row(&self, cell: int) -> int {
        3 * self.row_of(cell) + 1
    }

    /// The column of the occupancy grid in which the middle of a cell's
    /// 3 by 3 block lies.
    pub open spec fn hub_col(&self, cell: int) -> int {
        3 * self.col_of(cell) + 1
    }

    /// Checks the dimensions and makes the grid.
    pub fn new(width: usize, height: usize) -> (made: Result<LogicalGrid, ConfigurationError>)
        ensures
            match made {
                Ok(grid) => {
                    &&& LogicalGrid::check(width as int, height as int) is Ok
                    &&& grid.width == width
                    &&& grid.height == height
                    &&& grid.wf()
                },
                Err(e) => LogicalGrid::check(width as int, height as int) == Err::<(), _>(e),
            },
    {
        if width < 4 || height < 4 {
            return Err(ConfigurationError::TooSmall);
        }
        match width.checked_mul(height) {
            None => Err(ConfigurationError::TooLarge),
            Some(cells) => match cells.checked_mul(9) {
                None => Err(ConfigurationError::TooLarge),
                Some(_) => Ok(LogicalGrid { width, height }),
            },
        }
    }

    /// The row of a cell.
    pub fn row(&self, cell: usize) -> (row: usize)
        requires
            self.wf(),
        ensures
            row == self.row_of(cell as int),
    {
        cell / self.width
    }

    /// The column of a cell.
    pub fn col(&self, cell: usize) -> (col: usize)
        requires
            self.wf(),
        ensures
            col == self.col_of(cell as int),
            col < self.width,
    {
        cell % self.width
    }

    /// The index of the cell in a row and a column.
    pub fn index(&self, row: usize, col: usize) -> (cell: usize)
        requires
            self.wf(),
            row < self.height,
            col < self.width,
        ensures
            cell == self.cell_at(row as int, col as int),
            self.in_grid(cell as int),
            self.row_of(cell as int) == row,
            self.col_of(cell as int) == col,
    {
        proof {
            lemma_index_in_range(self.height as int, self.width as int, row as int, col as int);
            lemma_coords_of_index(self.width as int, row as int, col as int);
        }
        row * self.width + col
    }

    /// Whether the cell lies in the grid and off its border.
    pub fn is_interior(&self, cell: usize) -> (inside: bool)
        requires
            self.wf(),
        ensures
            inside == self.interior(cell as int),
    {
        let row: usize = cell / self.width;
        let col: usize = cell % self.width;
        proof {
            self.lemma_in_grid_by_row(cell as int);
        }
        1 <= row && row <= self.height - 2 && 1 <= col && col <= self.width - 2
    }

    /// The cell where the critical path begins.
    pub fn start(&self) -> (cell: usize)
        requires
            self.wf(),
        ensures
            cell == self.start_cell(),
            self.interior(cell as int),
    {
        proof {
            self.lemma_start_and_end();
        }
        self.width + 1
    }

    /// The cell where the critical path ends.
    pub fn end(&self) -> (cell: usize)
        requires
            self.wf(),
        ensures
            cell == self.end_cell(),
            self.interior(cell as int),
            cell != self.start_cell(),
    {
        proof {
            self.lemma_start_and_end();
            assert(self.width * self.height >= 4 * self.width) by (nonlinear_arith)
                requires
                    self.height >= 4,
            ;
        }
        self.width * self.height - self.width - 2
    }

    /// The cell that a move from `cell` leads to.
    pub fn step_from(&self, cell: usize, dir: Direction) -> (next: usize)
        requires
            self.wf(),
            self.in_grid(cell as int),
        ensures
            next == self.neighbor(cell as int, dir),
    {
        proof {
            assert(self.width * self.height >= 4 * self.width) by (nonlinear_arith)
                requires
                    self.height >= 4,
            ;
        }
        match dir {
            Direction::Left => cell.saturating_sub(1),
            Direction::Up => cell + self.width,
            Direction::Right => cell + 1,
            Direction::Down => cell.saturating_sub(self.width),
        }
    }

    /// The number of columns of the occupancy grid.
    pub fn expanded_width(&self) -> (cols: usize)
        requires
            self.wf(),
        ensures
            cols == self.tile_cols(),
    {
        proof {
            self.lemma_tile_count();
        }
        3 * self.width
    }

    /// The number of rows of the occupancy grid.
    pub fn expanded_height(&self) -> (rows: usize)
        requires
            self.wf(),
        ensures
            rows == self.tile_rows(),
    {
        proof {
            self.lemma_tile_count();
        }
        3 * self.height
    }

    /// The number of tiles of the occupancy grid.
    pub fn expanded_len(&self) -> (count: usize)
        requires
            self.wf(),
        ensures
            count == self.tile_count(),
    {
        9 * (self.width * self.height)
    }

    /// The index of the tile in a row and a column of the occupancy grid.
    pub fn tile_index(&self, row: usize, col: usize) -> (tile: usize)
        requires
            self.wf(),
            row < self.tile_rows(),
            col < self.tile_cols(),
        ensures
            tile == self.tile_at(row as int, col as int),
            tile < self.tile_count(),
            self.tile_row(tile as int) == row,
            self.tile_col(tile as int) == col,
    {
        proof {
            self.lemma_tile_count();
            self.lemma_tile_coords_agree(row as int, col as int);
        }
        row * (3 * self.width) + col
    }

    /// The row and the column of a tile of the occupancy grid.
    pub fn tile_position(&self, tile: usize) -> (at: (usize, usize))
        requires
            self.wf(),
        ensures
            at.0 == self.tile_row(tile as int),
            at.1 == self.tile_col(tile as int),
            at.1 < self.tile_cols(),
            tile < self.tile_count() ==> at.0 < self.tile_rows(),
    {
        proof {
            self.lemma_tile_count();
            if tile < self.tile_count() {
                self.lemma_tile_index_agrees(tile as int);
            }
        }
        let cols: usize = 3 * self.width;
        (tile / cols, tile % cols)
    }

    /// The occupancy grid has three rows and three columns for each row
    /// and column of the logical grid, and no side is longer than the
    /// number of its tiles.
    pub proof fn lemma_tile_count(&self)
        requires
            self.wf(),
        ensures
            self.tile_count() == self.tile_cols() * self.tile_rows(),
            self.tile_cols() <= self.tile_count(),
            self.tile_rows() <= self.tile_count(),
    {
        let w = self.width as int;
        let h = self.height as int;
        assert((3 * w) * (3 * h) == 9 * (w * h)) by (nonlinear_arith);
        assert(w * h >= w && w * h >= h) by (nonlinear_arith)
            requires
                w >= 4,
                h >= 4,
        ;
    }

    /// The index and the row and column of a tile name the same tile.
    pub proof fn lemma_tile_coords_agree(&self, row: int, col: int)
        requires
            self.wf(),
            0 <= row < self.tile_rows(),
            0 <= col < self.tile_cols(),
        ensures
            0 <= self.tile_at(row, col) < self.tile_count(),
            self.tile_row(self.tile_at(row, col)) == row,
            self.tile_col(self.tile_at(row, col)) == col,
    {
        self.lemma_tile_count();
        lemma_index_in_range(self.tile_rows(), self.tile_cols(), row, col);
        lemma_coords_of_index(self.tile_cols(), row, col);
    }

    /// A tile's index is made of its row and column, which lie in the
    /// occupancy grid.
    pub proof fn lemma_tile_index_agrees(&self, tile: int)
        requires
            self.wf(),
            0 <= tile < self.tile_count(),
        ensures
            0 <= self.tile_row(tile) < self.tile_rows(),
            0 <= self.tile_col(tile) < self.tile_cols(),
            self.tile_at(self.tile_row(tile), self.tile_col(tile)) == tile,
    {
        let cols = self.tile_cols();
        let rows = self.tile_rows();
        let r = tile / cols;
        self.lemma_tile_count();
        lemma_fundamental_div_mod(tile, cols);
        assert(cols * r == r * cols) by (nonlinear_arith);
        assert(0 <= r) by (nonlinear_arith)
            requires
                0 <= tile,
                cols > 0,
                r == tile / cols,
        ;
        if r >= rows {
            assert(r * cols >= cols * rows) by (nonlinear_arith)
                requires
                    r >= rows,
                    cols > 0,
            ;
        }
    }

    /// A cell lies in the grid exactly if its row does.
    pub proof fn lemma_in_grid_by_row(&self, cell: int)
        requires
            self.wf(),
            0 <= cell,
        ensures
            self.in_grid(cell) <==> self.row_of(cell) < self.height,
            0 <= self.row_of(cell),
            0 <= self.col_of(cell) < self.width,
            cell == self.cell_at(self.row_of(cell), self.col_of(cell)),
    {
        let w = self.width as int;
        let h = self.height as int;
        let r = cell / w;
        lemma_fundamental_div_mod(cell, w);
        assert(w * r == r * w) by (nonlinear_arith);
        assert(0 <= r) by (nonlinear_arith)
            requires
                0 <= cell,
                w > 0,
                r == cell / w,
        ;
        if r < h {
            assert(r * w + w <= h * w) by (nonlinear_arith)
                requires
                    r + 1 <= h,
                    w > 0,
            ;
            assert(h * w == w * h) by (nonlinear_arith);
        } else {
            assert(r * w >= h * w) by (nonlinear_arith)
                requires
                    r >= h,
                    w > 0,
            ;
            assert(h * w == w * h) by (nonlinear_arith);
        }
    }

    /// The index and the row and column of a cell name the same cell.
    pub proof fn lemma_coords_agree(&self, row: int, col: int)
        requires
            self.wf(),
            0 <= row < self.height,
            0 <= col < self.width,
        ensures
            self.in_grid(self.cell_at(row, col)),
            self.row_of(self.cell_at(row, col)) == row,
            self.col_of(self.cell_at(row, col)) == col,
    {
        lemma_index_in_range(self.height as int, self.width as int, row, col);
        lemma_coords_of_index(self.width as int, row, col);
    }

    /// The start is the cell in row 1 and column 1, the end the cell in
    /// the last interior row and column; they differ.
    pub proof fn lemma_start_and_end(&self)
        requires
            self.wf(),
        ensures
            self.start_cell() == self.cell_at(1, 1),
            self.end_cell() == self.cell_at(self.height - 2, self.width - 2),
            self.interior(self.start_cell()),
            self.interior(self.end_cell()),
            self.start_cell() != self.end_cell(),
            self.row_of(self.start_cell()) == 1,
            self.col_of(self.start_cell()) == 1,
            self.row_of(self.end_cell()) == self.height - 2,
            self.col_of(self.end_cell()) == self.width - 2,
    {
        let w = self.width as int;
        let h = self.height as int;
        assert((h - 2) * w + (w - 2) == w * h - w - 2) by (nonlinear_arith);
        self.lemma_coords_agree(1, 1);
        self.lemma_coords_agree(h - 2, w - 2);
    }

    /// The shortest way from the start cell to the end cell takes `span`
    /// moves.
    pub proof fn lemma_span(&self)
        requires
            self.wf(),
        ensures
            self.distance(self.start_cell(), self.end_cell()) == self.span(),
            self.span() >= 2,
    {
        self.lemma_start_and_end();
    }

    /// A move from an interior cell changes the row or the column by one
    /// and stays in the grid.
    pub proof fn lemma_neighbor_coords(&self, cell: int, dir: Direction)
        requires
            self.wf(),
            self.interior(cell),
        ensures
            self.in_grid(self.neighbor(cell, dir)),
            self.row_of(self.neighbor(cell, dir)) == self.row_of(cell) + dir.row_delta(),
            self.col_of(self.neighbor(cell, dir)) == self.col_of(cell) + dir.col_delta(),
            self.adjacent(cell, self.neighbor(cell, dir)),
    {
        let w = self.width as int;
        let r = self.row_of(cell);
        let c = self.col_of(cell);
        self.lemma_in_grid_by_row(cell);
        let r2 = r + dir.row_delta();
        let c2 = c + dir.col_delta();
        assert(self.neighbor(cell, dir) == r2 * w + c2) by (nonlinear_arith)
            requires
                cell == r * w + c,
                r >= 1,
                c >= 1,
                w >= 4,
                r2 == r + dir.row_delta(),
                c2 == c + dir.col_delta(),
                self.neighbor(cell, dir) == match dir {
                    Direction::Left => if cell >= 1 {
                        cell - 1
                    } else {
                        0
                    },
                    Direction::Up => cell + w,
                    Direction::Right => cell + 1,
                    Direction::Down => if cell >= w {
                        cell - w
                    } else {
                        0
                    },
                },
        ;
        self.lemma_coords_agree(r2, c2);
    }
}

/// The index of a column in a row lies in the range of a grid of `rows`
/// rows and `cols` columns.
pub proof fn lemma_index_in_range(rows: int, cols: int, row: int, col: int)
    requires
        0 <= row < rows,
        0 <= col < cols,
    ensures
        0 <= row * cols + col < cols * rows,
{
    assert(0 <= row * cols) by (nonlinear_arith)
        requires
            0 <= row,
            0 <= cols,
    ;
    assert(row * cols + cols <= cols * rows) by (nonlinear_arith)
        requires
            row + 1 <= rows,
            0 < cols,
    ;
}

/// Division and remainder by the number of columns give back the row and
/// the column of an index.
pub proof fn lemma_coords_of_index(cols: int, row: int, col: int)
    requires
        0 <= col < cols,
    ensures
        (row * cols + col) / cols == row,
        (row * cols + col) % cols == col,
{
    lemma_fundamental_div_mod_converse(row * cols + col, cols, row, col);
}

} // verus!
