//! The maze: paths and occupancy grid, made in one go.

use crate::builder::{build_paths, is_path_set, GenerationStall, Limits};
use crate::expand::{carve_all, expanded, lemma_ring_stays_wall, ring_is_wall};
use crate::grid::{ConfigurationError, LogicalGrid, TileType};
use crate::reach::{
    hub, is_floor, lemma_floor_is_reachable, lemma_hub_is_reachable, lemma_path_set_is_drawable,
    reachable,
};
use crate::walk::views;
use rand::rngs::StdRng;
use vstd::prelude::*;

verus! {

/// Why no maze was made.
#[derive(Clone, Copy, Debug, PartialEq, Eq, Structural)]
pub enum MazeError {
    /// The dimensions cannot be used.
    Configuration(ConfigurationError),
    /// The draw budget ran out before the critical path was complete.
    GenerationStall,
}

/// What a maze holds: the grid, the paths with the critical path first,
/// and the tiles of the occupancy grid, row by row.
pub struct MazeModel {
    pub grid: LogicalGrid,
    pub paths: Seq<Seq<usize>>,
    pub tiles: Seq<TileType>,
    /// The number of walks that were thrown away at the step limit while
    /// the maze was made.
    pub restarts: nat,
}

impl MazeModel {
    /// The paths are the paths of a maze on the grid, and the tiles are
    /// their occupancy grid.
    pub open spec fn wf(self) -> bool {
        &&& self.grid.wf()
        &&& is_path_set(self.grid, self.paths)
        &&& self.tiles == expanded(self.grid, self.paths)
    }

    /// The place of the hub of the start cell in the occupancy grid.
    pub open spec fn start(self) -> (int, int) {
        hub(self.grid, self.grid.start_cell())
    }

    /// The place of the hub of the end cell in the occupancy grid.
    pub open spec fn end(self) -> (int, int) {
        hub(self.grid, self.grid.end_cell())
    }

    /// Whether the outermost rows and columns of the occupancy grid are
    /// wall.
    pub open spec fn walled(self) -> bool {
        ring_is_wall(self.grid, self.tiles)
    }

    /// Whether every floor tile is reached from the start by steps from
    /// floor tile to floor tile.
    pub open spec fn connected(self) -> bool {
        forall|row: int, col: int|
            #![trigger is_floor(self.grid, self.tiles, (row, col))]
            is_floor(self.grid, self.tiles, (row, col)) ==> reachable(
                self.grid,
                self.tiles,
                self.start(),
                (row, col),
            )
    }

    /// The occupancy grid of a maze is walled and connected.
    pub proof fn lemma_walled_and_connected(self)
        requires
            self.wf(),
        ensures
            self.walled(),
            self.connected(),
    {
        lemma_path_set_is_drawable(self.grid, self.paths);
        lemma_ring_stays_wall(self.grid, self.paths);
        assert forall|row: int, col: int| #[trigger]
            is_floor(self.grid, self.tiles, (row, col)) implies reachable(
            self.grid,
            self.tiles,
            self.start(),
            (row, col),
        ) by {
            lemma_floor_is_reachable(self.grid, self.paths, row, col);
        }
    }

    /// The start and the end are floor, and the end is reached from the
    /// start.
    pub proof fn lemma_end_is_reachable(self)
        requires
            self.wf(),
        ensures
            is_floor(self.grid, self.tiles, self.start()),
            is_floor(self.grid, self.tiles, self.end()),
            reachable(self.grid, self.tiles, self.start(), self.end()),
    {
        let critical = self.paths[0];
        lemma_hub_is_reachable(self.grid, self.paths, 0, critical.len() - 1);
        lemma_hub_is_reachable(self.grid, self.paths, 0, 0);
    }
}

/// A finished maze. It is made whole and never changed in part.
pub struct Maze {
    grid: LogicalGrid,
    paths: Vec<Vec<usize>>,
    tiles: Vec<TileType>,
    restarts: usize,
}

impl View for Maze {
    type V = MazeModel;

    closed spec fn view(&self) -> MazeModel {
        MazeModel {
            grid: self.grid,
            paths: views(self.paths@),
            tiles: self.tiles@,
            restarts: self.restarts as nat,
        }
    }
}

impl Maze {
    #[verifier::type_invariant]
    spec fn inv(&self) -> bool {
        self@.wf()
    }

    /// Builds the paths on a grid and draws them. Fails if the path
    /// builder does, which it is sure to do where the limits leave no room
    /// for the shortest way from the start to the end.
    fn make(rng: &mut StdRng, grid: LogicalGrid, limits: &Limits) -> (made: Result<
        Maze,
        GenerationStall,
    >)
        requires
            grid.wf(),
        ensures
            made matches Ok(maze) ==> {
                &&& maze@.wf()
                &&& maze@.walled()
                &&& maze@.connected()
                &&& maze@.grid == grid
                &&& limits.cover(maze@.paths)
                &&& maze@.restarts <= limits.draw_budget
            },
            !limits.allow(grid) ==> made is Err,
    {
        match build_paths(rng, &grid, limits) {
            Ok(set) => {
                proof {
                    lemma_path_set_is_drawable(grid, views(set.paths@));
                }
                let tiles: Vec<TileType> = carve_all(&grid, &set.paths);
                let maze = Maze { grid, paths: set.paths, tiles, restarts: set.restarts };
                proof {
                    maze@.lemma_walled_and_connected();
                }
                Ok(maze)
            },
            Err(stall) => Err(stall),
        }
    }

    /// Makes a maze on a grid of `width` by `height` cells. Dimensions
    /// that cannot be used are refused before anything is drawn from the
    /// random source. On usable dimensions the run stalls if the draw
    /// budget runs out before the critical path is complete, which is sure
    /// to happen where the limits leave no room for the shortest way from
    /// the start to the end.
    pub fn generate(rng: &mut StdRng, width: usize, height: usize, limits: &Limits) -> (made:
        Result<Maze, MazeError>)
        ensures
            match made {
                Ok(maze) => {
                    &&& maze@.wf()
                    &&& maze@.walled()
                    &&& maze@.connected()
                    &&& maze@.grid.width == width
                    &&& maze@.grid.height == height
                    &&& limits.cover(maze@.paths)
                    &&& maze@.restarts <= limits.draw_budget
                },
                Err(MazeError::Configuration(e)) => LogicalGrid::check(width as int, height as int)
                    == Err::<(), _>(e),
                Err(MazeError::GenerationStall) => LogicalGrid::check(width as int, height as int)
                    is Ok,
            },
            LogicalGrid::check(width as int, height as int) is Ok && !limits.allow(
                (LogicalGrid { width, height }),
            ) ==> made == Err::<Maze, _>(MazeError::GenerationStall),
    {
        let grid: LogicalGrid = match LogicalGrid::new(width, height) {
            Ok(grid) => grid,
            Err(e) => {
                return Err(MazeError::Configuration(e));
            },
        };
        match Maze::make(rng, grid, limits) {
            Ok(maze) => Ok(maze),
            Err(_) => Err(MazeError::GenerationStall),
        }
    }

    /// Replaces the maze by a new one on the same grid. Nothing of the
    /// old maze is left in the new one. If the draw budget runs out, the
    /// old maze stays as it was; that is sure to happen where the limits
    /// leave no room for the shortest way from the start to the end.
    pub fn regenerate(&mut self, rng: &mut StdRng, limits: &Limits) -> (done: Result<
        (),
        GenerationStall,
    >)
        ensures
            final(self)@.wf(),
            final(self)@.walled(),
            final(self)@.connected(),
            final(self)@.grid == old(self)@.grid,
            done is Err ==> final(self)@ == old(self)@,
            done is Ok ==> limits.cover(final(self)@.paths) && final(self)@.restarts
                <= limits.draw_budget,
            !limits.allow(old(self)@.grid) ==> done is Err,
    {
        proof {
            use_type_invariant(&*self);
            self@.lemma_walled_and_connected();
        }
        match Maze::make(rng, self.grid, limits) {
            Ok(maze) => {
                *self = maze;
                Ok(())
            },
            Err(stall) => Err(stall),
        }
    }

    /// The logical grid.
    pub fn grid(&self) -> (grid: LogicalGrid)
        ensures
            grid == self@.grid,
            grid.wf(),
            self@.wf(),
    {
        proof {
            use_type_invariant(self);
        }
        self.grid
    }

    /// The cell where the critical path begins.
    pub fn start_cell(&self) -> (cell: usize)
        ensures
            cell == self@.grid.start_cell(),
            cell == self@.paths[0].first(),
    {
        proof {
            use_type_invariant(self);
        }
        self.grid.start()
    }

    /// The cell where the critical path ends.
    pub fn end_cell(&self) -> (cell: usize)
        ensures
            cell == self@.grid.end_cell(),
            cell == self@.paths[0].last(),
    {
        proof {
            use_type_invariant(self);
        }
        self.grid.end()
    }

    /// The number of columns of the occupancy grid.
    pub fn expanded_width(&self) -> (cols: usize)
        ensures
            cols == self@.grid.tile_cols(),
    {
        proof {
            use_type_invariant(self);
        }
        self.grid.expanded_width()
    }

    /// The number of rows of the occupancy grid.
    pub fn expanded_height(&self) -> (rows: usize)
        ensures
            rows == self@.grid.tile_rows(),
    {
        proof {
            use_type_invariant(self);
        }
        self.grid.expanded_height()
    }

    /// The tiles of the occupancy grid, row by row.
    pub fn tiles(&self) -> (tiles: &Vec<TileType>)
        ensures
            tiles@ == self@.tiles,
            tiles@.len() == self@.grid.tile_count(),
            self@.wf(),
    {
        proof {
            use_type_invariant(self);
        }
        &self.tiles
    }

    /// The tile in a row and a column of the occupancy grid, or `None`
    /// for a place outside the grid.
    pub fn tile(&self, row: usize, col: usize) -> (tile: Option<TileType>)
        ensures
            tile == if row < self@.grid.tile_rows() && col < self@.grid.tile_cols() {
                Some(self@.tiles[self@.grid.tile_at(row as int, col as int)])
            } else {
                None
            },
    {
        proof {
            use_type_invariant(self);
        }
        if row < self.grid.expanded_height() && col < self.grid.expanded_width() {
            Some(self.tiles[self.grid.tile_index(row, col)])
        } else {
            None
        }
    }

    /// The number of walks that were thrown away at the step limit while
    /// the maze was made.
    pub fn restarts(&self) -> (count: usize)
        ensures
            count == self@.restarts,
    {
        self.restarts
    }

    /// The paths, the critical path first and the branches in the order
    /// in which they were built.
    pub fn paths(&self) -> (paths: &Vec<Vec<usize>>)
        ensures
            views(paths@) == self@.paths,
            self@.wf(),
    {
        proof {
            use_type_invariant(self);
        }
        &self.paths
    }

    /// The critical path.
    pub fn critical_path(&self) -> (path: &Vec<usize>)
        ensures
            path@ == self@.paths[0],
            self@.wf(),
    {
        proof {
            use_type_invariant(self);
        }
        &self.paths[0]
    }

    /// The number of branches.
    pub fn branch_count(&self) -> (count: usize)
        ensures
            count == self@.paths.len() - 1,
    {
        proof {
            use_type_invariant(self);
        }
        self.paths.len() - 1
    }

    /// The row and the column of the hub of the start cell in the
    /// occupancy grid, where a player begins.
    pub fn start_position(&self) -> (at: (usize, usize))
        ensures
            (at.0 as int, at.1 as int) == self@.start(),
            is_floor(self@.grid, self@.tiles, self@.start()),
    {
        proof {
            use_type_invariant(self);
            self@.lemma_end_is_reachable();
            self.grid.lemma_start_and_end();
        }
        let start: usize = self.grid.start();
        (3 * self.grid.row(start) + 1, 3 * self.grid.col(start) + 1)
    }

    /// The row and the column of the hub of the end cell in the occupancy
    /// grid, where the way out lies.
    pub fn end_position(&self) -> (at: (usize, usize))
        ensures
            (at.0 as int, at.1 as int) == self@.end(),
            is_floor(self@.grid, self@.tiles, self@.end()),
            reachable(self@.grid, self@.tiles, self@.start(), self@.end()),
    {
        proof {
            use_type_invariant(self);
            self@.lemma_end_is_reachable();
            self.grid.lemma_start_and_end();
        }
        let end: usize = self.grid.end();
        (3 * self.grid.row(end) + 1, 3 * self.grid.col(end) + 1)
    }
}

} // verus!
