//! The path builder: the critical path and the branches of a maze.
//!
//! The critical path is a loop-erased random walk from the start cell to
//! the end cell. Each branch is such a walk from a free interior cell to any
//! cell that an earlier path has claimed. The walks draw their directions
//! from a random source; every draw is counted against a budget, which
//! bounds the time that building takes.

use crate::grid::{Direction, LogicalGrid};
use crate::random::draw_in_range;
use crate::walk::{
    advance_branch, advance_critical, all_interior, is_branch, is_branch_walk, is_chain,
    is_claimed, is_critical_path, is_critical_walk, lemma_branch_step_keeps_walk,
    lemma_critical_path_spans, lemma_critical_step_keeps_walk, lemma_loop_erased_len, views,
    Step,
};
use rand::rngs::StdRng;
use vstd::prelude::*;

verus! {

/// The bounds of a run of the path builder.
#[derive(Clone, Copy, Debug, PartialEq, Eq, Structural)]
pub struct Limits {
    /// The moves that a walk may make before it is thrown away and begun
    /// again.
    pub step_limit: usize,
    /// The cells that may be tried when a branch needs a free cell to
    /// begin at.
    pub start_attempts: usize,
    /// The draws that one run may take from the random source.
    pub draw_budget: usize,
}

impl Limits {
    /// 10 000 moves for a walk, 1 000 tries for the start of a branch, and
    /// as many draws as `usize` counts.
    pub fn standard() -> (limits: Limits)
        ensures
            limits.step_limit == 10_000,
            limits.start_attempts == 1_000,
            limits.draw_budget == usize::MAX,
    {
        Limits { step_limit: 10_000, start_attempts: 1_000, draw_budget: usize::MAX }
    }

    /// Whether the limits leave room for the shortest way from the start
    /// cell to the end cell. Where they do not, no critical path can be
    /// built, whatever is drawn.
    pub open spec fn allow(self, grid: LogicalGrid) -> bool {
        self.draw_budget >= grid.span() && self.step_limit >= grid.span()
    }

    /// Whether a set of paths keeps within the limits: no walk made more
    /// moves than the step limit allows, and all of them together cost no
    /// more draws than the budget holds.
    pub open spec fn cover(self, paths: Seq<Seq<usize>>) -> bool {
        &&& paths[0].len() - 1 <= self.step_limit
        &&& forall|k: int|
            0 <= k < paths.len() ==> (#[trigger] paths[k]).len() - 2 <= self.step_limit
        &&& least_draws(paths, paths.len() as int) <= self.draw_budget
    }
}

/// The account of a run: the draws that are left of the budget, and the
/// walks that were thrown away at the step limit and begun again.
#[derive(Clone, Copy, Debug, PartialEq, Eq, Structural)]
pub struct Tally {
    pub draws_left: usize,
    pub restarts: usize,
}

impl Tally {
    /// The walks counted and those that the draws left may still add can
    /// be counted in a `usize`.
    pub open spec fn wf(self) -> bool {
        self.restarts + self.draws_left <= usize::MAX
    }

    /// The account of a run that may take `draw_budget` draws.
    pub fn new(draw_budget: usize) -> (tally: Tally)
        ensures
            tally.draws_left == draw_budget,
            tally.restarts == 0,
            tally.wf(),
    {
        Tally { draws_left: draw_budget, restarts: 0 }
    }

    /// The draws taken between an earlier state of the account and this
    /// one.
    pub open spec fn draws_since(self, earlier: Tally) -> int {
        earlier.draws_left - self.draws_left
    }

    /// The walks begun again between an earlier state of the account and
    /// this one.
    pub open spec fn restarts_since(self, earlier: Tally) -> int {
        self.restarts - earlier.restarts
    }

    /// An account can only go on from an earlier state: draws are taken,
    /// and no more walks are begun again than draws are taken.
    pub open spec fn follows(self, earlier: Tally) -> bool {
        &&& 0 <= self.restarts_since(earlier) <= self.draws_since(earlier)
        &&& earlier.wf() ==> self.wf()
    }
}

/// The draw budget ran out before the critical path reached the end cell.
#[derive(Clone, Copy, Debug, PartialEq, Eq, Structural)]
pub struct GenerationStall;

/// No free cell was found for another branch to begin at.
#[derive(Clone, Copy, Debug, PartialEq, Eq, Structural)]
pub struct BranchBudgetExhausted;

/// The paths of a maze, the critical path first, and the number of walks
/// that were thrown away on the way.
#[derive(Debug)]
pub struct PathSet {
    pub paths: Vec<Vec<usize>>,
    pub restarts: usize,
}

/// The cells of the first `k` paths, in the order in which they were
/// claimed.
pub open spec fn claimed_cells(paths: Seq<Seq<usize>>, k: int) -> Seq<usize>
    decreases k,
{
    if k <= 0 {
        Seq::empty()
    } else {
        claimed_cells(paths, k - 1) + paths[k - 1]
    }
}

/// The paths of a maze: the critical path first, then the branches, each
/// of which ends on a cell of an earlier path and is otherwise new.
pub open spec fn is_path_set(grid: LogicalGrid, paths: Seq<Seq<usize>>) -> bool {
    &&& paths.len() >= 1
    &&& is_critical_path(grid, paths[0])
    &&& forall|k: int|
        1 <= k < paths.len() ==> is_branch(grid, claimed_cells(paths, k), #[trigger] paths[k])
}

/// The least number of draws that the first `k` paths cost: one for each
/// move, and one for the start of each branch.
pub open spec fn least_draws(paths: Seq<Seq<usize>>, k: int) -> int
    decreases k,
{
    if k <= 0 {
        0
    } else if k == 1 {
        paths[0].len() - 1
    } else {
        least_draws(paths, k - 1) + paths[k - 1].len()
    }
}

/// A cell at which a branch may begin: an interior cell that no path has
/// claimed.
pub open spec fn is_free(grid: LogicalGrid, claimed: Seq<usize>, cell: usize) -> bool {
    grid.interior(cell as int) && !claimed.contains(cell)
}

/// The cells among which the start of a branch is drawn: from the first
/// interior cell up to the last.
pub open spec fn start_range(grid: LogicalGrid) -> (int, int) {
    (grid.width + 1, grid.width * (grid.height - 1) - 1)
}

/// The bounds between which the start of a branch is drawn: the first is
/// the lowest cell that may be drawn, the second lies one above the
/// highest.
pub fn branch_start_range(grid: &LogicalGrid) -> (range: (usize, usize))
    requires
        grid.wf(),
    ensures
        (range.0 as int, range.1 as int) == start_range(*grid),
        range.0 == grid.start_cell(),
        range.1 == grid.end_cell() + 1,
        range.0 < range.1,
{
    proof {
        assert(grid.width * (grid.height - 1) == grid.width * grid.height - grid.width)
            by (nonlinear_arith);
        assert(grid.width * grid.height >= 4 * grid.width) by (nonlinear_arith)
            requires
                grid.height >= 4,
        ;
    }
    (grid.width + 1, grid.width * (grid.height - 1) - 1)
}

/// Whether a branch may begin at a cell.
pub fn is_free_cell(grid: &LogicalGrid, claimed: &Vec<usize>, cell: usize) -> (free: bool)
    requires
        grid.wf(),
    ensures
        free == is_free(*grid, claimed@, cell),
{
    grid.is_interior(cell) && !is_claimed(claimed, cell)
}

/// Walks from the start cell until the end cell is reached, and returns
/// the path. Returns `None` if the budget runs out first. Each move costs
/// one draw, so the path is no longer than the draws allow, nor than the
/// step limit allows. No path is shorter than the shortest way from the
/// start to the end: where the draws left or the step limit do not allow
/// that many moves, no path is returned, whatever is drawn.
pub fn build_critical_path(
    rng: &mut StdRng,
    grid: &LogicalGrid,
    step_limit: usize,
    tally: &mut Tally,
) -> (built: Option<Vec<usize>>)
    requires
        grid.wf(),
        old(tally).wf(),
    ensures
        final(tally).follows(*old(tally)),
        match built {
            Some(path) => {
                &&& is_critical_path(*grid, path@)
                &&& grid.span() <= path@.len() - 1
                &&& path@.len() - 1 <= final(tally).draws_since(*old(tally))
                &&& path@.len() - 1 <= step_limit
            },
            None => final(tally).draws_left == 0,
        },
        old(tally).draws_left < grid.span() || step_limit < grid.span() ==> built is None,
{
    let end: usize = grid.end();
    let mut path: Vec<usize> = Vec::new();
    path.push(grid.start());
    let mut steps: usize = 0;
    while path[path.len() - 1] != end
        invariant
            grid.wf(),
            end == grid.end_cell(),
            is_critical_walk(*grid, path@),
            old(tally).wf(),
            tally.follows(*old(tally)),
            path@.len() - 1 <= tally.draws_since(*old(tally)),
            path@.len() - 1 <= steps <= step_limit,
        decreases tally.draws_left,
    {
        if tally.draws_left == 0 {
            return None;
        }
        tally.draws_left -= 1;
        let dir: Direction = Direction::from_index(draw_in_range(rng, 0, 4));
        proof {
            lemma_critical_step_keeps_walk(
                *grid,
                path@,
                steps as int,
                dir,
                step_limit as int,
            );
            lemma_loop_erased_len(path@, grid.neighbor(path@.last() as int, dir) as usize);
        }
        match advance_critical(grid, &mut path, &mut steps, dir, step_limit) {
            Step::Restarted => {
                tally.restarts += 1;
            },
            _ => {},
        }
    }
    proof {
        lemma_critical_path_spans(*grid, path@);
    }
    Some(path)
}

/// Draws cells until one is free, and returns it. Fails when `attempts`
/// cells were tried in vain or the budget ran out. Each try costs one
/// draw. The cells are drawn from the first interior cell up to the last.
pub fn pick_branch_start(
    rng: &mut StdRng,
    grid: &LogicalGrid,
    claimed: &Vec<usize>,
    attempts: usize,
    tally: &mut Tally,
) -> (picked: Result<usize, BranchBudgetExhausted>)
    requires
        grid.wf(),
    ensures
        final(tally).restarts == old(tally).restarts,
        0 <= final(tally).draws_since(*old(tally)) <= attempts,
        match picked {
            Ok(cell) => {
                &&& is_free(*grid, claimed@, cell)
                &&& start_range(*grid).0 <= cell < start_range(*grid).1
                &&& final(tally).draws_since(*old(tally)) >= 1
            },
            Err(_) => final(tally).draws_left == 0 || final(tally).draws_since(*old(tally))
                == attempts,
        },
{
    let (low, high) = branch_start_range(grid);
    let mut tried: usize = 0;
    while tried < attempts && tally.draws_left > 0
        invariant
            grid.wf(),
            (low as int, high as int) == start_range(*grid),
            low < high,
            tried <= attempts,
            tally.restarts == old(tally).restarts,
            tally.draws_left + tried == old(tally).draws_left,
        decreases attempts - tried,
    {
        tally.draws_left -= 1;
        tried += 1;
        let cell: usize = draw_in_range(rng, low, high);
        if is_free_cell(grid, claimed, cell) {
            return Ok(cell);
        }
    }
    Err(BranchBudgetExhausted)
}

/// Walks from `origin` until a claimed cell is reached, and returns the
/// path, which ends with that cell. Returns `None` if the budget runs out
/// first. Each move costs one draw.
pub fn build_branch(
    rng: &mut StdRng,
    grid: &LogicalGrid,
    claimed: &Vec<usize>,
    origin: usize,
    step_limit: usize,
    tally: &mut Tally,
) -> (built: Option<Vec<usize>>)
    requires
        grid.wf(),
        all_interior(*grid, claimed@),
        is_free(*grid, claimed@, origin),
        old(tally).wf(),
    ensures
        final(tally).follows(*old(tally)),
        match built {
            Some(path) => {
                &&& is_branch(*grid, claimed@, path@)
                &&& path@[0] == origin
                &&& path@.len() - 1 <= final(tally).draws_since(*old(tally))
                &&& path@.len() - 2 <= step_limit
            },
            None => final(tally).draws_left == 0,
        },
{
    let mut path: Vec<usize> = Vec::new();
    path.push(origin);
    let mut steps: usize = 0;
    while tally.draws_left > 0
        invariant
            grid.wf(),
            all_interior(*grid, claimed@),
            is_branch_walk(*grid, claimed@, origin, path@),
            old(tally).wf(),
            tally.follows(*old(tally)),
            path@.len() - 1 <= tally.draws_since(*old(tally)),
            path@.len() - 1 <= steps <= step_limit,
        decreases tally.draws_left,
    {
        tally.draws_left -= 1;
        let dir: Direction = Direction::from_index(draw_in_range(rng, 0, 4));
        proof {
            lemma_branch_step_keeps_walk(
                *grid,
                claimed@,
                origin,
                path@,
                steps as int,
                dir,
                step_limit as int,
            );
            lemma_loop_erased_len(path@, grid.neighbor(path@.last() as int, dir) as usize);
        }
        match advance_branch(grid, claimed, origin, &mut path, &mut steps, dir, step_limit) {
            Step::Joined => {
                return Some(path);
            },
            Step::Restarted => {
                tally.restarts += 1;
            },
            _ => {},
        }
    }
    None
}

/// Builds the paths of a maze: the critical path, then branches until no
/// free cell is found for the next one or the budget runs out. Fails only
/// if the budget runs out before the critical path is complete, which is
/// sure to happen where the budget or the step limit allows fewer moves
/// than the shortest way from the start to the end takes. The paths that
/// are built cost no more draws than the budget holds.
pub fn build_paths(rng: &mut StdRng, grid: &LogicalGrid, limits: &Limits) -> (built: Result<
    PathSet,
    GenerationStall,
>)
    requires
        grid.wf(),
    ensures
        built matches Ok(set) ==> {
            &&& is_path_set(*grid, views(set.paths@))
            &&& grid.span() <= views(set.paths@)[0].len() - 1
            &&& limits.cover(views(set.paths@))
            &&& set.restarts <= limits.draw_budget
        },
        !limits.allow(*grid) ==> built is Err,
{
    proof {
        grid.lemma_start_and_end();
    }
    let mut tally: Tally = Tally::new(limits.draw_budget);
    let critical: Vec<usize> = match build_critical_path(
        rng,
        grid,
        limits.step_limit,
        &mut tally,
    ) {
        Some(path) => path,
        None => {
            return Err(GenerationStall);
        },
    };
    let mut claimed: Vec<usize> = Vec::new();
    claim(&mut claimed, &critical);
    let mut paths: Vec<Vec<usize>> = Vec::new();
    paths.push(critical);
    proof {
        assert(claimed_cells(views(paths@), 0) =~= Seq::<usize>::empty());
        assert(claimed_cells(views(paths@), 1) =~= critical@);
        lemma_claimed_are_interior(*grid, views(paths@), 1);
        assert(least_draws(views(paths@), 1) == critical@.len() - 1);
    }
    while tally.draws_left > 0
        invariant
            grid.wf(),
            is_path_set(*grid, views(paths@)),
            claimed@ == claimed_cells(views(paths@), paths.len() as int),
            all_interior(*grid, claimed@),
            tally.restarts + tally.draws_left <= limits.draw_budget,
            least_draws(views(paths@), paths.len() as int) + tally.draws_left
                <= limits.draw_budget,
            grid.span() <= paths@[0]@.len() - 1 <= limits.step_limit,
            forall|k: int|
                0 <= k < paths@.len() ==> (#[trigger] paths@[k])@.len() - 2 <= limits.step_limit,
        decreases tally.draws_left,
    {
        let origin: usize = match pick_branch_start(
            rng,
            grid,
            &claimed,
            limits.start_attempts,
            &mut tally,
        ) {
            Ok(cell) => cell,
            Err(_) => {
                break ;
            },
        };
        let branch: Vec<usize> = match build_branch(
            rng,
            grid,
            &claimed,
            origin,
            limits.step_limit,
            &mut tally,
        ) {
            Some(path) => path,
            None => {
                break ;
            },
        };
        let ghost before = views(paths@);
        claim(&mut claimed, &branch);
        paths.push(branch);
        proof {
            let after = views(paths@);
            let n = before.len() as int;
            lemma_claimed_cells_of_prefix(before, after, n);
            lemma_least_draws_of_prefix(before, after, n);
            assert(least_draws(after, n + 1) == least_draws(after, n) + after[n].len());
            assert forall|k: int| 1 <= k < after.len() implies is_branch(
                *grid,
                claimed_cells(after, k),
                #[trigger] after[k],
            ) by {
                lemma_claimed_cells_of_prefix(before, after, k);
                if k < n {
                    assert(after[k] == before[k]);
                }
            }
            lemma_claimed_are_interior(*grid, after, n + 1);
        }
    }
    Ok(PathSet { paths, restarts: tally.restarts })
}

/// Adds the cells of a path to the claimed cells.
fn claim(claimed: &mut Vec<usize>, path: &Vec<usize>)
    ensures
        final(claimed)@ == old(claimed)@ + path@,
{
    let mut i: usize = 0;
    while i < path.len()
        invariant
            i <= path.len(),
            claimed@ == old(claimed)@ + path@.take(i as int),
        decreases path.len() - i,
    {
        claimed.push(path[i]);
        i += 1;
    }
}

/// The cells claimed by the first `k` paths depend on those paths only.
pub proof fn lemma_claimed_cells_of_prefix(a: Seq<Seq<usize>>, b: Seq<Seq<usize>>, k: int)
    requires
        k <= a.len(),
        k <= b.len(),
        forall|j: int| 0 <= j < k ==> a[j] == b[j],
    ensures
        claimed_cells(a, k) == claimed_cells(b, k),
    decreases k,
{
    if k > 0 {
        lemma_claimed_cells_of_prefix(a, b, k - 1);
    }
}

/// The least number of draws that the first `k` paths cost depends on
/// those paths only.
pub proof fn lemma_least_draws_of_prefix(a: Seq<Seq<usize>>, b: Seq<Seq<usize>>, k: int)
    requires
        k <= a.len(),
        k <= b.len(),
        forall|j: int| 0 <= j < k ==> a[j] == b[j],
    ensures
        least_draws(a, k) == least_draws(b, k),
    decreases k,
{
    if k > 1 {
        lemma_least_draws_of_prefix(a, b, k - 1);
    }
}

/// A claimed cell is a cell of one of the paths.
pub proof fn lemma_claimed_cell_is_on_path(paths: Seq<Seq<usize>>, k: int, cell: usize) -> (at: (
    int,
    int,
))
    requires
        0 <= k <= paths.len(),
        claimed_cells(paths, k).contains(cell),
    ensures
        0 <= at.0 < k,
        0 <= at.1 < paths[at.0].len(),
        paths[at.0][at.1] == cell,
    decreases k,
{
    let earlier = claimed_cells(paths, k - 1);
    let all = claimed_cells(paths, k);
    let i = choose|i: int| 0 <= i < all.len() && all[i] == cell;
    if i < earlier.len() {
        lemma_claimed_cell_is_on_path(paths, k - 1, cell)
    } else {
        (k - 1, i - earlier.len())
    }
}

/// The cells that the paths of a maze claim are interior cells.
pub proof fn lemma_claimed_are_interior(grid: LogicalGrid, paths: Seq<Seq<usize>>, k: int)
    requires
        is_path_set(grid, paths),
        0 <= k <= paths.len(),
    ensures
        all_interior(grid, claimed_cells(paths, k)),
{
    let cells = claimed_cells(paths, k);
    assert forall|i: int| 0 <= i < cells.len() implies grid.interior(
        (#[trigger] cells[i]) as int,
    ) by {
        let at = lemma_claimed_cell_is_on_path(paths, k, cells[i]);
        assert(is_chain(grid, paths[at.0]));
    }
}

/// No cell repeats in a path of a maze, be it the critical path or a
/// branch.
pub proof fn lemma_paths_are_loop_free(grid: LogicalGrid, paths: Seq<Seq<usize>>, k: int)
    requires
        is_path_set(grid, paths),
        0 <= k < paths.len(),
    ensures
        paths[k].no_duplicates(),
        is_chain(grid, paths[k]),
{
}

/// The critical path leads from the start cell to the end cell, and none
/// of its cells lies on the border.
pub proof fn lemma_critical_path_ends(grid: LogicalGrid, paths: Seq<Seq<usize>>)
    requires
        is_path_set(grid, paths),
    ensures
        paths[0].first() == grid.start_cell(),
        paths[0].last() == grid.end_cell(),
        forall|i: int| 0 <= i < paths[0].len() ==> grid.interior((#[trigger] paths[0][i]) as int),
{
}

/// Every branch connects to the maze that was there before it: its last
/// cell belongs to an earlier path, and is one step from another cell of
/// that path as well as from the branch's own last new cell.
pub proof fn lemma_branch_connects(grid: LogicalGrid, paths: Seq<Seq<usize>>, k: int) -> (at: (
    int,
    int,
    int,
))
    requires
        grid.wf(),
        is_path_set(grid, paths),
        1 <= k < paths.len(),
    ensures
        0 <= at.0 < k,
        0 <= at.1 < paths[at.0].len(),
        0 <= at.2 < paths[at.0].len(),
        paths[at.0][at.1] == paths[k].last(),
        grid.adjacent(paths[k].last() as int, paths[at.0][at.2] as int),
        grid.adjacent(paths[k][paths[k].len() - 2] as int, paths[k].last() as int),
        !claimed_cells(paths, k).contains(paths[k][paths[k].len() - 2]),
{
    let joined = lemma_claimed_cell_is_on_path(paths, k, paths[k].last());
    lemma_paths_are_loop_free(grid, paths, joined.0);
    if joined.0 == 0 {
        grid.lemma_start_and_end();
    }
    if joined.1 > 0 {
        (joined.0, joined.1, joined.1 - 1)
    } else {
        (joined.0, joined.1, 1)
    }
}

} // verus!
