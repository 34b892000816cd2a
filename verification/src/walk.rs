//! Loop-erased walks on the logical grid.
//!
//! A walk keeps the cells it has visited as a path. When a move leads back
//! to a cell of the path, everything after that cell is dropped, so the
//! path never crosses itself. The functions here make one move each and
//! are told the direction; `builder` draws the directions.

use crate::grid::{Direction, LogicalGrid};
use vstd::prelude::*;

verus! {

/// What a move did to a walk.
#[derive(Clone, Copy, Debug, PartialEq, Eq, Structural)]
pub enum Step {
    /// The move led to the border or out of the grid; nothing changed.
    Rejected,
    /// The move was made: the path grew by a cell or was cut back to it.
    Moved,
    /// The step limit was reached; the walk stands where it began again.
    Restarted,
    /// The move led onto a claimed cell, which now ends the path.
    Joined,
}

/// A chain: a path of interior cells without repeats, each one step from
/// the cell before it.
pub open spec fn is_chain(grid: LogicalGrid, path: Seq<usize>) -> bool {
    &&& path.len() >= 1
    &&& forall|i: int| 0 <= i < path.len() ==> grid.interior((#[trigger] path[i]) as int)
    &&& path.no_duplicates()
    &&& forall|i: int|
        0 <= i < path.len() - 1 ==> grid.adjacent((#[trigger] path[i]) as int, path[i + 1] as int)
}

/// The paths as sequences of cells.
pub open spec fn views(paths: Seq<Vec<usize>>) -> Seq<Seq<usize>> {
    paths.map_values(|path: Vec<usize>| path@)
}

/// The path after a move to `next`: cut back to the first visit of `next`
/// if there was one, longer by `next` if not.
pub open spec fn loop_erased(path: Seq<usize>, next: usize) -> Seq<usize> {
    match path.index_of_first(next) {
        Some(i) => path.take(i + 1),
        None => path.push(next),
    }
}

/// The path and the step count of a walk towards the end cell after one
/// move, and what the move did. A move to the border or out of the grid
/// changes nothing and is not counted. A move made when `step_limit`
/// moves were counted throws the path away: the walk stands at the start
/// again.
pub open spec fn critical_step(
    grid: LogicalGrid,
    path: Seq<usize>,
    steps: int,
    dir: Direction,
    step_limit: int,
) -> (Seq<usize>, int, Step) {
    let next = grid.neighbor(path.last() as int, dir);
    if !grid.interior(next) {
        (path, steps, Step::Rejected)
    } else if steps >= step_limit {
        (seq![grid.start_cell() as usize], 0, Step::Restarted)
    } else {
        (loop_erased(path, next as usize), steps + 1, Step::Moved)
    }
}

/// A walk from the start cell that has not failed: a chain that begins at
/// the start.
pub open spec fn is_critical_walk(grid: LogicalGrid, path: Seq<usize>) -> bool {
    &&& is_chain(grid, path)
    &&& path[0] == grid.start_cell()
}

/// The critical path: a chain from the start cell to the end cell.
pub open spec fn is_critical_path(grid: LogicalGrid, path: Seq<usize>) -> bool {
    &&& is_critical_walk(grid, path)
    &&& path.last() == grid.end_cell()
}

/// The path and the step count of a walk towards the claimed cells after
/// one move, and what the move did. A move onto a claimed cell ends the
/// walk there, whatever the step count. Any other move is made as in a
/// walk towards the end cell, except that a walk thrown away stands at
/// its own `origin` again.
pub open spec fn branch_step(
    grid: LogicalGrid,
    claimed: Seq<usize>,
    origin: usize,
    path: Seq<usize>,
    steps: int,
    dir: Direction,
    step_limit: int,
) -> (Seq<usize>, int, Step) {
    let next = grid.neighbor(path.last() as int, dir);
    if claimed.contains(next as usize) {
        (path.push(next as usize), steps, Step::Joined)
    } else if !grid.interior(next) {
        (path, steps, Step::Rejected)
    } else if steps >= step_limit {
        (seq![origin], 0, Step::Restarted)
    } else {
        (loop_erased(path, next as usize), steps + 1, Step::Moved)
    }
}

/// All the cells are interior cells.
pub open spec fn all_interior(grid: LogicalGrid, cells: Seq<usize>) -> bool {
    forall|i: int| 0 <= i < cells.len() ==> grid.interior((#[trigger] cells[i]) as int)
}

/// A walk from `origin` that has not yet joined the claimed cells: a
/// chain that begins at `origin` and holds no claimed cell.
pub open spec fn is_branch_walk(
    grid: LogicalGrid,
    claimed: Seq<usize>,
    origin: usize,
    path: Seq<usize>,
) -> bool {
    &&& is_chain(grid, path)
    &&& path[0] == origin
    &&& forall|i: int| 0 <= i < path.len() ==> !claimed.contains(#[trigger] path[i])
}

/// A branch: a chain of two cells or more whose last cell is claimed and
/// whose other cells are not.
pub open spec fn is_branch(grid: LogicalGrid, claimed: Seq<usize>, path: Seq<usize>) -> bool {
    &&& is_chain(grid, path)
    &&& path.len() >= 2
    &&& claimed.contains(path.last())
    &&& forall|i: int| 0 <= i < path.len() - 1 ==> !claimed.contains(#[trigger] path[i])
}

/// The index of the first visit of a cell in a path.
pub fn position_of(path: &Vec<usize>, cell: usize) -> (found: Option<usize>)
    ensures
        match found {
            Some(i) => {
                &&& i < path.len()
                &&& path@[i as int] == cell
                &&& forall|j: int| 0 <= j < i ==> path@[j] != cell
                &&& path@.index_of_first(cell) == Some(i as int)
            },
            None => !path@.contains(cell) && path@.index_of_first(cell) is None,
        },
{
    let mut i: usize = 0;
    while i < path.len()
        invariant
            i <= path.len(),
            forall|j: int| 0 <= j < i ==> path@[j] != cell,
        decreases path.len() - i,
    {
        if path[i] == cell {
            proof {
                path@.index_of_first_ensures(cell);
            }
            return Some(i);
        }
        i += 1;
    }
    proof {
        path@.index_of_first_ensures(cell);
    }
    None
}

/// Makes the move to `next`: cuts the path back to the first visit of
/// `next`, or appends `next` where the path has not been there.
pub fn erase_or_extend(path: &mut Vec<usize>, next: usize)
    ensures
        final(path)@ == loop_erased(old(path)@, next),
{
    match position_of(path, next) {
        Some(i) => {
            path.truncate(i + 1);
        },
        None => {
            path.push(next);
        },
    }
}

/// Makes one move of a walk towards the end cell, and says what the move
/// did.
pub fn advance_critical(
    grid: &LogicalGrid,
    path: &mut Vec<usize>,
    steps: &mut usize,
    dir: Direction,
    step_limit: usize,
) -> (step: Step)
    requires
        grid.wf(),
        old(path)@.len() >= 1,
        grid.in_grid(old(path)@.last() as int),
    ensures
        (final(path)@, *final(steps) as int, step) == critical_step(
            *grid,
            old(path)@,
            *old(steps) as int,
            dir,
            step_limit as int,
        ),
{
    let current: usize = path[path.len() - 1];
    let next: usize = grid.step_from(current, dir);
    if !grid.is_interior(next) {
        return Step::Rejected;
    }
    if *steps >= step_limit {
        path.clear();
        path.push(grid.start());
        *steps = 0;
        Step::Restarted
    } else {
        erase_or_extend(path, next);
        *steps += 1;
        Step::Moved
    }
}

/// Whether a cell is among the claimed cells.
pub fn is_claimed(claimed: &Vec<usize>, cell: usize) -> (found: bool)
    ensures
        found == claimed@.contains(cell),
{
    proof {
        claimed@.index_of_first_ensures(cell);
    }
    position_of(claimed, cell).is_some()
}

/// Makes one move of a walk towards the claimed cells, and says what the
/// move did.
pub fn advance_branch(
    grid: &LogicalGrid,
    claimed: &Vec<usize>,
    origin: usize,
    path: &mut Vec<usize>,
    steps: &mut usize,
    dir: Direction,
    step_limit: usize,
) -> (step: Step)
    requires
        grid.wf(),
        old(path)@.len() >= 1,
        grid.in_grid(old(path)@.last() as int),
    ensures
        (final(path)@, *final(steps) as int, step) == branch_step(
            *grid,
            claimed@,
            origin,
            old(path)@,
            *old(steps) as int,
            dir,
            step_limit as int,
        ),
{
    let current: usize = path[path.len() - 1];
    let next: usize = grid.step_from(current, dir);
    if is_claimed(claimed, next) {
        path.push(next);
        return Step::Joined;
    }
    if !grid.is_interior(next) {
        return Step::Rejected;
    }
    if *steps >= step_limit {
        path.clear();
        path.push(origin);
        *steps = 0;
        Step::Restarted
    } else {
        erase_or_extend(path, next);
        *steps += 1;
        Step::Moved
    }
}

/// A move keeps a chain a chain: after loop erasure no cell repeats, and
/// the path still begins where it began and now ends at `next`.
pub proof fn lemma_loop_erased_is_chain(grid: LogicalGrid, path: Seq<usize>, next: usize)
    requires
        is_chain(grid, path),
        grid.interior(next as int),
        grid.adjacent(path.last() as int, next as int),
    ensures
        is_chain(grid, loop_erased(path, next)),
        loop_erased(path, next)[0] == path[0],
        loop_erased(path, next).last() == next,
        forall|i: int|
            0 <= i < loop_erased(path, next).len() ==> path.contains(
                #[trigger] loop_erased(path, next)[i],
            ) || loop_erased(path, next)[i] == next,
{
    path.index_of_first_ensures(next);
    let erased = loop_erased(path, next);
    if path.index_of_first(next) is Some {
        assert forall|i: int| 0 <= i < erased.len() implies path.contains(#[trigger] erased[i]) by {
            assert(erased[i] == path[i]);
        }
    } else {
        assert forall|i: int| 0 <= i < erased.len() implies path.contains(#[trigger] erased[i])
            || erased[i] == next by {
            if i < path.len() {
                assert(erased[i] == path[i]);
            }
        }
    }
}

/// A chain takes at least as many moves to a cell as the shortest way
/// from its first cell to that cell.
pub proof fn lemma_chain_is_no_shortcut(grid: LogicalGrid, path: Seq<usize>, i: int)
    requires
        is_chain(grid, path),
        0 <= i < path.len(),
    ensures
        grid.distance(path[0] as int, path[i] as int) <= i,
    decreases i,
{
    if i > 0 {
        lemma_chain_is_no_shortcut(grid, path, i - 1);
        assert(grid.adjacent(path[i - 1] as int, path[i - 1 + 1] as int));
    }
}

/// The critical path takes at least as many moves as the shortest way from
/// the start cell to the end cell.
pub proof fn lemma_critical_path_spans(grid: LogicalGrid, path: Seq<usize>)
    requires
        grid.wf(),
        is_critical_path(grid, path),
    ensures
        grid.span() <= path.len() - 1,
{
    grid.lemma_span();
    lemma_chain_is_no_shortcut(grid, path, path.len() - 1);
}

/// A move makes a path longer by one cell at most, and never empty.
pub proof fn lemma_loop_erased_len(path: Seq<usize>, next: usize)
    ensures
        1 <= loop_erased(path, next).len() <= path.len() + 1,
{
    path.index_of_first_ensures(next);
}

/// Every move of a walk from the start cell leaves a walk from the start
/// cell: its cells are interior, none repeats, and each is one step from
/// the one before.
pub proof fn lemma_critical_step_keeps_walk(
    grid: LogicalGrid,
    path: Seq<usize>,
    steps: int,
    dir: Direction,
    step_limit: int,
)
    requires
        grid.wf(),
        is_critical_walk(grid, path),
    ensures
        is_critical_walk(grid, critical_step(grid, path, steps, dir, step_limit).0),
{
    let next = grid.neighbor(path.last() as int, dir);
    grid.lemma_neighbor_coords(path.last() as int, dir);
    grid.lemma_start_and_end();
    if grid.interior(next) && steps < step_limit {
        lemma_loop_erased_is_chain(grid, path, next as usize);
    }
}

/// Every move of a walk towards the claimed cells either joins them, and
/// the path is then a branch, or leaves a walk that holds no claimed
/// cell.
pub proof fn lemma_branch_step_keeps_walk(
    grid: LogicalGrid,
    claimed: Seq<usize>,
    origin: usize,
    path: Seq<usize>,
    steps: int,
    dir: Direction,
    step_limit: int,
)
    requires
        grid.wf(),
        all_interior(grid, claimed),
        is_branch_walk(grid, claimed, origin, path),
    ensures
        ({
            let (moved, _, step) = branch_step(grid, claimed, origin, path, steps, dir, step_limit);
            if step == Step::Joined {
                is_branch(grid, claimed, moved) && moved[0] == origin
            } else {
                is_branch_walk(grid, claimed, origin, moved)
            }
        }),
{
    let next = grid.neighbor(path.last() as int, dir);
    grid.lemma_neighbor_coords(path.last() as int, dir);
    let (moved, _, _) = branch_step(grid, claimed, origin, path, steps, dir, step_limit);
    if claimed.contains(next as usize) {
        assert forall|i: int| 0 <= i < moved.len() - 1 implies !claimed.contains(
            #[trigger] moved[i],
        ) by {
            assert(moved[i] == path[i]);
        }
    } else if grid.interior(next) && steps < step_limit {
        lemma_loop_erased_is_chain(grid, path, next as usize);
    }
}

} // verus!
