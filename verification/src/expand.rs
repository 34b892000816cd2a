//! The grid expander: from paths to the occupancy grid.
//!
//! Each cell of the logical grid becomes a block of 3 by 3 tiles. The
//! middle tile of a block, its hub, is floor if a path visits the cell.
//! Each move of a path from one cell to the next turns the two tiles
//! between their hubs into floor. Every other tile is wall.

use crate::grid::{LogicalGrid, TileType};
use crate::walk::views;
use vstd::prelude::*;

verus! {

/// Why a set of paths cannot be drawn.
#[derive(Clone, Copy, Debug, PartialEq, Eq, Structural)]
pub enum ExpandError {
    /// A path holds a number that is no cell of the grid.
    OutOfGrid,
    /// A path moves between two cells that are neither the same nor one
    /// step apart.
    NotAdjacent,
}

/// Two cells that may follow each other in a path that is drawn: the same
/// cell twice, or two cells one step apart.
pub open spec fn linked(grid: LogicalGrid, a: int, b: int) -> bool {
    a == b || grid.adjacent(a, b)
}

/// Every cell of the path lies in the grid.
pub open spec fn in_grid_path(grid: LogicalGrid, path: Seq<usize>) -> bool {
    forall|i: int| 0 <= i < path.len() ==> grid.in_grid((#[trigger] path[i]) as int)
}

/// Every cell of the path is linked to the one before it.
pub open spec fn linked_path(grid: LogicalGrid, path: Seq<usize>) -> bool {
    forall|i: int|
        1 <= i < path.len() ==> linked(grid, path[i - 1] as int, (#[trigger] path[i]) as int)
}

/// A path that can be drawn.
pub open spec fn drawable(grid: LogicalGrid, path: Seq<usize>) -> bool {
    in_grid_path(grid, path) && linked_path(grid, path)
}

/// What `expand` answers for a set of paths before it draws them: a number
/// that is no cell comes first, wherever it stands.
pub open spec fn check_paths(grid: LogicalGrid, paths: Seq<Seq<usize>>) -> Result<(), ExpandError> {
    if exists|k: int| 0 <= k < paths.len() && !in_grid_path(grid, #[trigger] paths[k]) {
        Err(ExpandError::OutOfGrid)
    } else if exists|k: int| 0 <= k < paths.len() && !linked_path(grid, #[trigger] paths[k]) {
        Err(ExpandError::NotAdjacent)
    } else {
        Ok(())
    }
}

/// Whether the tile in a row and a column is one of those that the move
/// from cell `a` to cell `b` turns into floor: the two tiles between the
/// hubs, and the hub of `b`. Where `a` is `b`, that is the hub alone.
pub open spec fn on_segment(grid: LogicalGrid, a: int, b: int, row: int, col: int) -> bool {
    let dr = grid.row_of(b) - grid.row_of(a);
    let dc = grid.col_of(b) - grid.col_of(a);
    ||| (row == grid.hub_row(a) + dr && col == grid.hub_col(a) + dc)
    ||| (row == grid.hub_row(a) + 2 * dr && col == grid.hub_col(a) + 2 * dc)
    ||| (row == grid.hub_row(b) && col == grid.hub_col(b))
}

/// Whether the `i`-th cell of a path turns the tile into floor, by its hub
/// or by the move that leads to it.
pub open spec fn marks(grid: LogicalGrid, path: Seq<usize>, i: int, row: int, col: int) -> bool {
    if i == 0 {
        on_segment(grid, path[0] as int, path[0] as int, row, col)
    } else {
        on_segment(grid, path[i - 1] as int, path[i] as int, row, col)
    }
}

/// Whether a path turns the tile into floor.
pub open spec fn path_floor(grid: LogicalGrid, path: Seq<usize>, row: int, col: int) -> bool {
    exists|i: int| 0 <= i < path.len() && #[trigger] marks(grid, path, i, row, col)
}

/// Whether one of the paths turns the tile into floor.
pub open spec fn floor_at(grid: LogicalGrid, paths: Seq<Seq<usize>>, row: int, col: int) -> bool {
    exists|k: int| 0 <= k < paths.len() && path_floor(grid, #[trigger] paths[k], row, col)
}

/// The tiles after a move from `a` to `b` is drawn on them.
pub open spec fn carved_segment(grid: LogicalGrid, tiles: Seq<TileType>, a: int, b: int) -> Seq<
    TileType,
> {
    Seq::new(
        tiles.len(),
        |t: int|
            if on_segment(grid, a, b, grid.tile_row(t), grid.tile_col(t)) {
                TileType::Floor
            } else {
                tiles[t]
            },
    )
}

/// The tiles after a path is drawn on them: floor where the path makes
/// floor, as before elsewhere.
pub open spec fn carved(grid: LogicalGrid, tiles: Seq<TileType>, path: Seq<usize>) -> Seq<
    TileType,
> {
    Seq::new(
        tiles.len(),
        |t: int|
            if path_floor(grid, path, grid.tile_row(t), grid.tile_col(t)) {
                TileType::Floor
            } else {
                tiles[t]
            },
    )
}

/// The occupancy grid of a set of paths, row by row: floor where a path
/// makes floor, wall elsewhere.
pub open spec fn expanded(grid: LogicalGrid, paths: Seq<Seq<usize>>) -> Seq<TileType> {
    Seq::new(
        grid.tile_count() as nat,
        |t: int|
            if floor_at(grid, paths, grid.tile_row(t), grid.tile_col(t)) {
                TileType::Floor
            } else {
                TileType::Wall
            },
    )
}

/// The tiles after the first `k` paths are drawn on them, one after the
/// other.
pub open spec fn carved_all(
    grid: LogicalGrid,
    tiles: Seq<TileType>,
    paths: Seq<Seq<usize>>,
    k: int,
) -> Seq<TileType>
    decreases k,
{
    if k <= 0 {
        tiles
    } else {
        carved(grid, carved_all(grid, tiles, paths, k - 1), paths[k - 1])
    }
}

/// A grid of wall tiles of the size of the occupancy grid.
pub open spec fn all_walls(grid: LogicalGrid) -> Seq<TileType> {
    Seq::new(grid.tile_count() as nat, |t: int| TileType::Wall)
}

/// Whether a tile lies on the outermost rows and columns of the occupancy
/// grid.
pub open spec fn on_ring(grid: LogicalGrid, row: int, col: int) -> bool {
    &&& 0 <= row < grid.tile_rows()
    &&& 0 <= col < grid.tile_cols()
    &&& (row == 0 || row == grid.tile_rows() - 1 || col == 0 || col == grid.tile_cols() - 1)
}

/// Whether the outermost rows and columns of the tiles are wall.
pub open spec fn ring_is_wall(grid: LogicalGrid, tiles: Seq<TileType>) -> bool {
    forall|row: int, col: int|
        #![trigger on_ring(grid, row, col)]
        on_ring(grid, row, col) ==> tiles[grid.tile_at(row, col)] == TileType::Wall
}

/// Whether a tile is the one in a row and a column.
pub open spec fn is_tile_at(grid: LogicalGrid, tile: int, row: int, col: int) -> bool {
    grid.tile_row(tile) == row && grid.tile_col(tile) == col
}

/// Whether two cells may follow each other in a path that is drawn.
pub fn is_linked(grid: &LogicalGrid, a: usize, b: usize) -> (yes: bool)
    requires
        grid.wf(),
        grid.in_grid(a as int),
        grid.in_grid(b as int),
    ensures
        yes == linked(*grid, a as int, b as int),
{
    let ra: usize = grid.row(a);
    let ca: usize = grid.col(a);
    let rb: usize = grid.row(b);
    let cb: usize = grid.col(b);
    proof {
        grid.lemma_in_grid_by_row(a as int);
        grid.lemma_in_grid_by_row(b as int);
    }
    if ra == rb {
        ca == cb || ca + 1 == cb || cb + 1 == ca
    } else if ca == cb {
        ra + 1 == rb || rb + 1 == ra
    } else {
        false
    }
}

/// Turns one tile into floor.
fn set_floor(grid: &LogicalGrid, tiles: &mut Vec<TileType>, row: usize, col: usize)
    requires
        grid.wf(),
        old(tiles).len() == grid.tile_count(),
        row < grid.tile_rows(),
        col < grid.tile_cols(),
    ensures
        final(tiles)@.len() == old(tiles)@.len(),
        forall|t: int|
            0 <= t < old(tiles)@.len() ==> #[trigger] final(tiles)@[t] == if is_tile_at(
                *grid,
                t,
                row as int,
                col as int,
            ) {
                TileType::Floor
            } else {
                old(tiles)@[t]
            },
{
    let index: usize = grid.tile_index(row, col);
    tiles.set(index, TileType::Floor);
    proof {
        assert forall|t: int| 0 <= t < old(tiles)@.len() implies #[trigger] tiles@[t] == if is_tile_at(
            *grid,
            t,
            row as int,
            col as int,
        ) {
            TileType::Floor
        } else {
            old(tiles)@[t]
        } by {
            grid.lemma_tile_index_agrees(t);
        }
    }
}

/// Draws the move from cell `a` to cell `b`: the two tiles between the
/// hubs and the hub of `b` become floor.
pub fn carve_segment(grid: &LogicalGrid, tiles: &mut Vec<TileType>, a: usize, b: usize)
    requires
        grid.wf(),
        old(tiles).len() == grid.tile_count(),
        grid.in_grid(a as int),
        grid.in_grid(b as int),
        linked(*grid, a as int, b as int),
    ensures
        final(tiles)@ == carved_segment(*grid, old(tiles)@, a as int, b as int),
{
    let ra: usize = grid.row(a);
    let ca: usize = grid.col(a);
    let rb: usize = grid.row(b);
    let cb: usize = grid.col(b);
    proof {
        grid.lemma_in_grid_by_row(a as int);
        grid.lemma_in_grid_by_row(b as int);
    }
    let hub_row: usize = 3 * ra + 1;
    let hub_col: usize = 3 * ca + 1;
    if ra == rb && ca + 1 == cb {
        set_floor(grid, tiles, hub_row, hub_col + 1);
        set_floor(grid, tiles, hub_row, hub_col + 2);
    } else if ra == rb && cb + 1 == ca {
        set_floor(grid, tiles, hub_row, hub_col - 1);
        set_floor(grid, tiles, hub_row, hub_col - 2);
    } else if ca == cb && ra + 1 == rb {
        set_floor(grid, tiles, hub_row + 1, hub_col);
        set_floor(grid, tiles, hub_row + 2, hub_col);
    } else if ca == cb && rb + 1 == ra {
        set_floor(grid, tiles, hub_row - 1, hub_col);
        set_floor(grid, tiles, hub_row - 2, hub_col);
    }
    set_floor(grid, tiles, 3 * rb + 1, 3 * cb + 1);
}

/// Draws a path: the hub of each of its cells and the tiles between the
/// hubs of cells that follow each other become floor.
pub fn carve_path(grid: &LogicalGrid, tiles: &mut Vec<TileType>, path: &Vec<usize>)
    requires
        grid.wf(),
        old(tiles).len() == grid.tile_count(),
        drawable(*grid, path@),
    ensures
        final(tiles)@ == carved(*grid, old(tiles)@, path@),
{
    if path.len() == 0 {
        return ;
    }
    let mut previous: usize = path[0];
    let mut i: usize = 0;
    while i < path.len()
        invariant
            grid.wf(),
            tiles.len() == grid.tile_count(),
            old(tiles).len() == grid.tile_count(),
            drawable(*grid, path@),
            i <= path.len(),
            path.len() > 0,
            previous == path@[if i == 0 {
                0
            } else {
                i - 1
            }],
            tiles@ == carved(*grid, old(tiles)@, path@.take(i as int)),
        decreases path.len() - i,
    {
        let cell: usize = path[i];
        carve_segment(grid, tiles, previous, cell);
        proof {
            assert forall|t: int| 0 <= t < tiles@.len() implies tiles@[t] == carved(
                *grid,
                old(tiles)@,
                path@.take(i + 1),
            )[t] by {
                lemma_path_floor_grows(
                    *grid,
                    path@,
                    i as int,
                    grid.tile_row(t),
                    grid.tile_col(t),
                );
            }
        }
        previous = cell;
        i += 1;
    }
    assert(path@.take(i as int) =~= path@);
}

/// Draws the paths on a grid of wall tiles, in their order.
pub fn carve_all(grid: &LogicalGrid, paths: &Vec<Vec<usize>>) -> (tiles: Vec<TileType>)
    requires
        grid.wf(),
        check_paths(*grid, views(paths@)) is Ok,
    ensures
        tiles@ == expanded(*grid, views(paths@)),
        ring_is_wall(*grid, tiles@),
{
    proof {
        lemma_ring_stays_wall(*grid, views(paths@));
    }
    let mut tiles: Vec<TileType> = walls(grid.expanded_len());
    let mut k: usize = 0;
    assert(tiles@ =~= expanded(*grid, views(paths@).take(0))) by {
        assert forall|t: int| 0 <= t < tiles@.len() implies !floor_at(
            *grid,
            views(paths@).take(0),
            grid.tile_row(t),
            grid.tile_col(t),
        ) by {}
    }
    while k < paths.len()
        invariant
            grid.wf(),
            check_paths(*grid, views(paths@)) is Ok,
            k <= paths.len(),
            tiles@ == expanded(*grid, views(paths@).take(k as int)),
        decreases paths.len() - k,
    {
        proof {
            assert(views(paths@)[k as int] == paths@[k as int]@);
        }
        carve_path(grid, &mut tiles, &paths[k]);
        proof {
            let all = views(paths@);
            assert forall|t: int| 0 <= t < tiles@.len() implies tiles@[t] == expanded(
                *grid,
                all.take(k + 1),
            )[t] by {
                lemma_floor_at_grows(*grid, all, k as int, grid.tile_row(t), grid.tile_col(t));
            }
        }
        k += 1;
    }
    assert(views(paths@).take(k as int) =~= views(paths@));
    tiles
}

/// Draws a set of paths as an occupancy grid, the first path first.
/// Refuses paths that hold a number that is no cell, or a move between
/// cells that are neither the same nor one step apart.
pub fn expand(grid: &LogicalGrid, paths: &Vec<Vec<usize>>) -> (drawn: Result<
    Vec<TileType>,
    ExpandError,
>)
    requires
        grid.wf(),
    ensures
        match drawn {
            Ok(tiles) => {
                &&& check_paths(*grid, views(paths@)) is Ok
                &&& tiles@ == expanded(*grid, views(paths@))
                &&& ring_is_wall(*grid, tiles@)
            },
            Err(e) => check_paths(*grid, views(paths@)) == Err::<(), _>(e),
        },
{
    if !all_in_grid(grid, paths) {
        return Err(ExpandError::OutOfGrid);
    }
    if !all_linked(grid, paths) {
        return Err(ExpandError::NotAdjacent);
    }
    Ok(carve_all(grid, paths))
}

/// A grid of wall tiles.
fn walls(count: usize) -> (tiles: Vec<TileType>)
    ensures
        tiles@.len() == count,
        forall|t: int| 0 <= t < count ==> tiles@[t] == TileType::Wall,
{
    let mut tiles: Vec<TileType> = Vec::with_capacity(count);
    let mut t: usize = 0;
    while t < count
        invariant
            t <= count,
            tiles@.len() == t,
            forall|u: int| 0 <= u < t ==> tiles@[u] == TileType::Wall,
        decreases count - t,
    {
        tiles.push(TileType::Wall);
        t += 1;
    }
    tiles
}

/// Whether every number in the path is a cell of the grid.
pub fn is_in_grid_path(grid: &LogicalGrid, path: &Vec<usize>) -> (yes: bool)
    requires
        grid.wf(),
    ensures
        yes == in_grid_path(*grid, path@),
{
    let count: usize = grid.width * grid.height;
    let mut i: usize = 0;
    while i < path.len()
        invariant
            i <= path.len(),
            count == grid.width * grid.height,
            forall|j: int| 0 <= j < i ==> grid.in_grid((#[trigger] path@[j]) as int),
        decreases path.len() - i,
    {
        if path[i] >= count {
            return false;
        }
        i += 1;
    }
    true
}

/// Whether every cell of the path is linked to the one before it.
pub fn is_linked_path(grid: &LogicalGrid, path: &Vec<usize>) -> (yes: bool)
    requires
        grid.wf(),
        in_grid_path(*grid, path@),
    ensures
        yes == linked_path(*grid, path@),
{
    let mut i: usize = 1;
    while i < path.len()
        invariant
            grid.wf(),
            1 <= i,
            in_grid_path(*grid, path@),
            forall|j: int|
                1 <= j < i && j < path.len() ==> linked(
                    *grid,
                    path@[j - 1] as int,
                    (#[trigger] path@[j]) as int,
                ),
        decreases path.len() - i,
    {
        if !is_linked(grid, path[i - 1], path[i]) {
            return false;
        }
        i += 1;
    }
    true
}

/// Whether every number in the paths is a cell of the grid.
fn all_in_grid(grid: &LogicalGrid, paths: &Vec<Vec<usize>>) -> (yes: bool)
    requires
        grid.wf(),
    ensures
        yes == !(exists|k: int|
            0 <= k < views(paths@).len() && !in_grid_path(*grid, #[trigger] views(paths@)[k])),
{
    let mut k: usize = 0;
    while k < paths.len()
        invariant
            grid.wf(),
            k <= paths.len(),
            forall|j: int| 0 <= j < k ==> in_grid_path(*grid, #[trigger] views(paths@)[j]),
        decreases paths.len() - k,
    {
        assert(views(paths@)[k as int] == paths@[k as int]@);
        if !is_in_grid_path(grid, &paths[k]) {
            return false;
        }
        k += 1;
    }
    true
}

/// Whether every cell in the paths is linked to the one before it.
fn all_linked(grid: &LogicalGrid, paths: &Vec<Vec<usize>>) -> (yes: bool)
    requires
        grid.wf(),
        forall|k: int|
            0 <= k < views(paths@).len() ==> in_grid_path(*grid, #[trigger] views(paths@)[k]),
    ensures
        yes == !(exists|k: int|
            0 <= k < views(paths@).len() && !linked_path(*grid, #[trigger] views(paths@)[k])),
{
    let mut k: usize = 0;
    while k < paths.len()
        invariant
            grid.wf(),
            k <= paths.len(),
            forall|j: int|
                0 <= j < views(paths@).len() ==> in_grid_path(*grid, #[trigger] views(paths@)[j]),
            forall|j: int| 0 <= j < k ==> linked_path(*grid, #[trigger] views(paths@)[j]),
        decreases paths.len() - k,
    {
        assert(views(paths@)[k as int] == paths@[k as int]@);
        if !is_linked_path(grid, &paths[k]) {
            return false;
        }
        k += 1;
    }
    true
}

/// The floor of the first `i + 1` cells of a path is the floor of the
/// first `i` cells and what the `i`-th cell adds.
pub proof fn lemma_path_floor_grows(grid: LogicalGrid, path: Seq<usize>, i: int, row: int, col: int)
    requires
        0 <= i < path.len(),
    ensures
        path_floor(grid, path.take(i + 1), row, col) <==> path_floor(grid, path.take(i), row, col)
            || marks(grid, path, i, row, col),
{
    let longer = path.take(i + 1);
    let shorter = path.take(i);
    if path_floor(grid, longer, row, col) {
        let j = choose|j: int| 0 <= j < longer.len() && marks(grid, longer, j, row, col);
        if j < i {
            assert(marks(grid, shorter, j, row, col));
        }
    }
    if path_floor(grid, shorter, row, col) {
        let j = choose|j: int| 0 <= j < shorter.len() && marks(grid, shorter, j, row, col);
        assert(marks(grid, longer, j, row, col));
    }
    if marks(grid, path, i, row, col) {
        assert(marks(grid, longer, i, row, col));
    }
}

/// The floor of the first `k + 1` paths is the floor of the first `k`
/// paths and that of the `k`-th path.
pub proof fn lemma_floor_at_grows(
    grid: LogicalGrid,
    paths: Seq<Seq<usize>>,
    k: int,
    row: int,
    col: int,
)
    requires
        0 <= k < paths.len(),
    ensures
        floor_at(grid, paths.take(k + 1), row, col) <==> floor_at(grid, paths.take(k), row, col)
            || path_floor(grid, paths[k], row, col),
{
    let longer = paths.take(k + 1);
    if path_floor(grid, paths[k], row, col) {
        assert(path_floor(grid, longer[k], row, col));
    }
}

/// The tiles that a move between linked cells turns into floor lie in the
/// occupancy grid and off its outermost rows and columns.
pub proof fn lemma_segment_is_inside(grid: LogicalGrid, a: int, b: int, row: int, col: int)
    requires
        grid.wf(),
        grid.in_grid(a),
        grid.in_grid(b),
        linked(grid, a, b),
        on_segment(grid, a, b, row, col),
    ensures
        1 <= row <= grid.tile_rows() - 2,
        1 <= col <= grid.tile_cols() - 2,
{
    grid.lemma_in_grid_by_row(a);
    grid.lemma_in_grid_by_row(b);
}

/// What a path that can be drawn turns into floor lies in the occupancy
/// grid and off its outermost rows and columns.
pub proof fn lemma_marks_are_inside(grid: LogicalGrid, path: Seq<usize>, i: int, row: int, col: int)
    requires
        grid.wf(),
        drawable(grid, path),
        0 <= i < path.len(),
        marks(grid, path, i, row, col),
    ensures
        1 <= row <= grid.tile_rows() - 2,
        1 <= col <= grid.tile_cols() - 2,
{
    if i == 0 {
        lemma_segment_is_inside(grid, path[0] as int, path[0] as int, row, col);
    } else {
        lemma_segment_is_inside(grid, path[i - 1] as int, path[i] as int, row, col);
    }
}

/// A tile on the outermost rows and columns of the occupancy grid is
/// wall, whatever paths are drawn.
pub proof fn lemma_ring_is_wall(grid: LogicalGrid, paths: Seq<Seq<usize>>, row: int, col: int)
    requires
        grid.wf(),
        check_paths(grid, paths) is Ok,
        on_ring(grid, row, col),
    ensures
        expanded(grid, paths)[grid.tile_at(row, col)] == TileType::Wall,
{
    grid.lemma_tile_coords_agree(row, col);
    if floor_at(grid, paths, row, col) {
        let k = choose|k: int|
            0 <= k < paths.len() && path_floor(grid, #[trigger] paths[k], row, col);
        let i = choose|i: int| 0 <= i < paths[k].len() && marks(grid, paths[k], i, row, col);
        lemma_marks_are_inside(grid, paths[k], i, row, col);
    }
}

/// The outermost rows and columns of the occupancy grid are wall,
/// whatever paths are drawn.
pub proof fn lemma_ring_stays_wall(grid: LogicalGrid, paths: Seq<Seq<usize>>)
    requires
        grid.wf(),
        check_paths(grid, paths) is Ok,
    ensures
        ring_is_wall(grid, expanded(grid, paths)),
{
    assert forall|row: int, col: int| #[trigger] on_ring(grid, row, col) implies expanded(
        grid,
        paths,
    )[grid.tile_at(row, col)] == TileType::Wall by {
        lemma_ring_is_wall(grid, paths, row, col);
    }
}

/// Drawing a path a second time changes nothing.
pub proof fn lemma_carve_is_idempotent(grid: LogicalGrid, tiles: Seq<TileType>, path: Seq<usize>)
    ensures
        carved(grid, carved(grid, tiles, path), path) == carved(grid, tiles, path),
{
}

/// Drawing the first `k` paths on a grid of walls gives the occupancy grid
/// of those paths.
pub proof fn lemma_carved_all_on_walls(grid: LogicalGrid, paths: Seq<Seq<usize>>, k: int)
    requires
        0 <= k <= paths.len(),
    ensures
        carved_all(grid, all_walls(grid), paths, k) == expanded(grid, paths.take(k)),
    decreases k,
{
    let drawn = carved_all(grid, all_walls(grid), paths, k);
    if k == 0 {
        assert forall|t: int| 0 <= t < drawn.len() implies !floor_at(
            grid,
            paths.take(0),
            grid.tile_row(t),
            grid.tile_col(t),
        ) by {}
    } else {
        lemma_carved_all_on_walls(grid, paths, k - 1);
        assert forall|t: int| 0 <= t < drawn.len() implies drawn[t] == expanded(
            grid,
            paths.take(k),
        )[t] by {
            lemma_floor_at_grows(grid, paths, k - 1, grid.tile_row(t), grid.tile_col(t));
        }
    }
}

/// Drawing paths of the set on the finished occupancy grid leaves it as
/// it is: no path undoes or adds to what the set has drawn.
pub proof fn lemma_carved_all_on_expanded(grid: LogicalGrid, paths: Seq<Seq<usize>>, k: int)
    requires
        0 <= k <= paths.len(),
    ensures
        carved_all(grid, expanded(grid, paths), paths, k) == expanded(grid, paths),
    decreases k,
{
    if k > 0 {
        lemma_carved_all_on_expanded(grid, paths, k - 1);
    }
}

/// Expanding the same paths twice gives the same occupancy grid, whether
/// the second run begins with walls or draws over the grid of the first.
pub proof fn lemma_expanding_twice(grid: LogicalGrid, paths: Seq<Seq<usize>>)
    ensures
        carved_all(grid, all_walls(grid), paths, paths.len() as int) == expanded(grid, paths),
        carved_all(grid, expanded(grid, paths), paths, paths.len() as int) == expanded(grid, paths),
{
    lemma_carved_all_on_walls(grid, paths, paths.len() as int);
    assert(paths.take(paths.len() as int) =~= paths);
    lemma_carved_all_on_expanded(grid, paths, paths.len() as int);
}

} // verus!
