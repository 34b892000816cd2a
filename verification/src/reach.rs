//! Every floor tile of a maze can be reached from the start.
//!
//! A route is a sequence of floor tiles in which each tile is one step,
//! in one of the four directions, from the tile before it. This file
//! proves that the occupancy grid of a maze's paths holds a route from the
//! hub of the start cell to each of its floor tiles.

use crate::builder::{claimed_cells, is_path_set, lemma_claimed_cell_is_on_path};
use crate::expand::{
    check_paths, expanded, in_grid_path, lemma_marks_are_inside, linked, linked_path, marks,
    on_segment, path_floor,
};
use crate::grid::{LogicalGrid, TileType};
use crate::walk::{is_branch, is_chain};
use vstd::prelude::*;

verus! {

/// Whether two places of the occupancy grid, each a row and a column,
/// are one step apart in one of the four directions.
pub open spec fn one_step(a: (int, int), b: (int, int)) -> bool {
    ||| (a.0 == b.0 && (a.1 == b.1 + 1 || b.1 == a.1 + 1))
    ||| (a.1 == b.1 && (a.0 == b.0 + 1 || b.0 == a.0 + 1))
}

/// Whether a place lies in the occupancy grid and holds a floor tile.
pub open spec fn is_floor(grid: LogicalGrid, tiles: Seq<TileType>, at: (int, int)) -> bool {
    &&& 0 <= at.0 < grid.tile_rows()
    &&& 0 <= at.1 < grid.tile_cols()
    &&& tiles[grid.tile_at(at.0, at.1)] == TileType::Floor
}

/// A route: floor tiles, each one step from the one before it.
pub open spec fn is_route(grid: LogicalGrid, tiles: Seq<TileType>, route: Seq<(int, int)>) -> bool {
    &&& route.len() >= 1
    &&& forall|i: int| 0 <= i < route.len() ==> is_floor(grid, tiles, #[trigger] route[i])
    &&& forall|i: int| 0 <= i < route.len() - 1 ==> one_step(#[trigger] route[i], route[i + 1])
}

/// Whether a route leads from one place to another.
pub open spec fn reachable(
    grid: LogicalGrid,
    tiles: Seq<TileType>,
    from: (int, int),
    to: (int, int),
) -> bool {
    exists|route: Seq<(int, int)>|
        #[trigger] is_route(grid, tiles, route) && route.first() == from && route.last() == to
}

/// The place of the hub of a cell in the occupancy grid.
pub open spec fn hub(grid: LogicalGrid, cell: int) -> (int, int) {
    (grid.hub_row(cell), grid.hub_col(cell))
}

/// A floor tile is reached from itself.
pub proof fn lemma_reach_self(grid: LogicalGrid, tiles: Seq<TileType>, at: (int, int))
    requires
        is_floor(grid, tiles, at),
    ensures
        reachable(grid, tiles, at, at),
{
    let route = seq![at];
    assert(is_route(grid, tiles, route));
}

/// A route goes on to a floor tile one step from its end.
pub proof fn lemma_reach_next(
    grid: LogicalGrid,
    tiles: Seq<TileType>,
    from: (int, int),
    via: (int, int),
    to: (int, int),
)
    requires
        reachable(grid, tiles, from, via),
        one_step(via, to),
        is_floor(grid, tiles, to),
    ensures
        reachable(grid, tiles, from, to),
{
    let route = choose|route: Seq<(int, int)>|
        #[trigger] is_route(grid, tiles, route) && route.first() == from && route.last() == via;
    let longer = route.push(to);
    assert forall|i: int| 0 <= i < longer.len() implies is_floor(
        grid,
        tiles,
        #[trigger] longer[i],
    ) by {
        if i < route.len() {
            assert(longer[i] == route[i]);
        }
    }
    assert forall|i: int| 0 <= i < longer.len() - 1 implies one_step(
        #[trigger] longer[i],
        longer[i + 1],
    ) by {
        if i < route.len() - 1 {
            assert(one_step(route[i], route[i + 1]));
        }
    }
    assert(is_route(grid, tiles, longer));
}

/// What the `i`-th cell of a path of the set turns into floor is floor in
/// the occupancy grid.
pub proof fn lemma_marked_is_floor(
    grid: LogicalGrid,
    paths: Seq<Seq<usize>>,
    k: int,
    i: int,
    at: (int, int),
)
    requires
        grid.wf(),
        check_paths(grid, paths) is Ok,
        0 <= k < paths.len(),
        0 <= i < paths[k].len(),
        marks(grid, paths[k], i, at.0, at.1),
    ensures
        is_floor(grid, expanded(grid, paths), at),
{
    lemma_marks_are_inside(grid, paths[k], i, at.0, at.1);
    grid.lemma_tile_coords_agree(at.0, at.1);
}

/// The paths of a maze can be drawn.
pub proof fn lemma_path_set_is_drawable(grid: LogicalGrid, paths: Seq<Seq<usize>>)
    requires
        is_path_set(grid, paths),
    ensures
        check_paths(grid, paths) is Ok,
        forall|k: int| 0 <= k < paths.len() ==> is_chain(grid, #[trigger] paths[k]),
{
    assert forall|k: int| 0 <= k < paths.len() implies is_chain(grid, #[trigger] paths[k])
        && in_grid_path(grid, paths[k]) && linked_path(grid, paths[k]) by {
        let path = paths[k];
        if k > 0 {
            assert(is_branch(grid, claimed_cells(paths, k), path));
        }
        assert forall|i: int| 1 <= i < path.len() implies linked(
            grid,
            path[i - 1] as int,
            (#[trigger] path[i]) as int,
        ) by {
            assert(grid.adjacent(path[i - 1] as int, path[i - 1 + 1] as int));
        }
    }
}

/// The hub of a cell is reached from the hub of the cell that follows it
/// in a path, and the other way round, along the two tiles between them.
pub proof fn lemma_reach_along(
    grid: LogicalGrid,
    paths: Seq<Seq<usize>>,
    k: int,
    i: int,
    from: (int, int),
    forward: bool,
)
    requires
        grid.wf(),
        check_paths(grid, paths) is Ok,
        0 <= k < paths.len(),
        1 <= i < paths[k].len(),
        grid.adjacent(paths[k][i - 1] as int, paths[k][i] as int),
        reachable(
            grid,
            expanded(grid, paths),
            from,
            hub(
                grid,
                if forward {
                    paths[k][i - 1] as int
                } else {
                    paths[k][i] as int
                },
            ),
        ),
    ensures
        reachable(grid, expanded(grid, paths), from, hub(grid, paths[k][i - 1] as int)),
        reachable(grid, expanded(grid, paths), from, hub(grid, paths[k][i] as int)),
        forall|row: int, col: int|
            on_segment(grid, paths[k][i - 1] as int, paths[k][i] as int, row, col) ==> reachable(
                grid,
                expanded(grid, paths),
                from,
                (row, col),
            ),
{
    let tiles = expanded(grid, paths);
    let a = paths[k][i - 1] as int;
    let b = paths[k][i] as int;
    let dr = grid.row_of(b) - grid.row_of(a);
    let dc = grid.col_of(b) - grid.col_of(a);
    let near = (grid.hub_row(a) + dr, grid.hub_col(a) + dc);
    let far = (grid.hub_row(a) + 2 * dr, grid.hub_col(a) + 2 * dc);
    assert(marks(grid, paths[k], i, near.0, near.1));
    assert(marks(grid, paths[k], i, far.0, far.1));
    assert(marks(grid, paths[k], i, hub(grid, b).0, hub(grid, b).1));
    assert(marks(grid, paths[k], i - 1, hub(grid, a).0, hub(grid, a).1));
    lemma_marked_is_floor(grid, paths, k, i, near);
    lemma_marked_is_floor(grid, paths, k, i, far);
    lemma_marked_is_floor(grid, paths, k, i, hub(grid, b));
    lemma_marked_is_floor(grid, paths, k, i - 1, hub(grid, a));
    if forward {
        lemma_reach_next(grid, tiles, from, hub(grid, a), near);
        lemma_reach_next(grid, tiles, from, near, far);
        lemma_reach_next(grid, tiles, from, far, hub(grid, b));
    } else {
        lemma_reach_next(grid, tiles, from, hub(grid, b), far);
        lemma_reach_next(grid, tiles, from, far, near);
        lemma_reach_next(grid, tiles, from, near, hub(grid, a));
    }
}

/// The hub of every cell of every path of a maze is reached from the hub
/// of the start cell: along the critical path from its first cell on, and
/// along a branch from its last cell, which an earlier path holds, back.
pub proof fn lemma_hub_is_reachable(grid: LogicalGrid, paths: Seq<Seq<usize>>, k: int, i: int)
    requires
        grid.wf(),
        is_path_set(grid, paths),
        0 <= k < paths.len(),
        0 <= i < paths[k].len(),
    ensures
        reachable(
            grid,
            expanded(grid, paths),
            hub(grid, grid.start_cell()),
            hub(grid, paths[k][i] as int),
        ),
    decreases
            k,
            if k == 0 {
                i
            } else {
                paths[k].len() - i
            },
{
    let tiles = expanded(grid, paths);
    let start = hub(grid, grid.start_cell());
    let path = paths[k];
    lemma_path_set_is_drawable(grid, paths);
    if k == 0 {
        if i == 0 {
            lemma_marked_is_floor(grid, paths, 0, 0, start);
            lemma_reach_self(grid, tiles, start);
        } else {
            lemma_hub_is_reachable(grid, paths, 0, i - 1);
            lemma_reach_along(grid, paths, 0, i, start, true);
        }
    } else {
        if i == path.len() - 1 {
            let at = lemma_claimed_cell_is_on_path(paths, k, path.last());
            lemma_hub_is_reachable(grid, paths, at.0, at.1);
        } else {
            lemma_hub_is_reachable(grid, paths, k, i + 1);
            lemma_reach_along(grid, paths, k, i + 1, start, false);
        }
    }
}

/// Every floor tile of the occupancy grid of a maze is reached from the
/// hub of the start cell by steps from floor tile to floor tile.
pub proof fn lemma_floor_is_reachable(grid: LogicalGrid, paths: Seq<Seq<usize>>, row: int, col: int)
    requires
        grid.wf(),
        is_path_set(grid, paths),
        is_floor(grid, expanded(grid, paths), (row, col)),
    ensures
        reachable(grid, expanded(grid, paths), hub(grid, grid.start_cell()), (row, col)),
{
    let start = hub(grid, grid.start_cell());
    grid.lemma_tile_coords_agree(row, col);
    lemma_path_set_is_drawable(grid, paths);
    let k = choose|k: int| 0 <= k < paths.len() && path_floor(grid, #[trigger] paths[k], row, col);
    let path = paths[k];
    let i = choose|i: int| 0 <= i < path.len() && marks(grid, path, i, row, col);
    lemma_hub_is_reachable(grid, paths, k, i);
    if i > 0 {
        lemma_reach_along(grid, paths, k, i, start, false);
    }
}

} // verus!
