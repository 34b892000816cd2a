use mazegen::builder::Limits;
use mazegen::expand::expand;
use mazegen::grid::{ConfigurationError, TileType};
use mazegen::maze::{Maze, MazeError};
use rand::rngs::StdRng;
use rand::SeedableRng;

fn make(seed: u64, width: usize, height: usize) -> Maze {
    let mut rng = StdRng::seed_from_u64(seed);
    match Maze::generate(&mut rng, width, height, &Limits::standard()) {
        Ok(maze) => maze,
        Err(_) => panic!("no maze"),
    }
}

fn floor_count(maze: &Maze) -> usize {
    maze.tiles().iter().filter(|tile| **tile == TileType::Floor).count()
}

fn reached_from_start(maze: &Maze) -> usize {
    let rows = maze.expanded_height();
    let cols = maze.expanded_width();
    let mut seen = vec![false; rows * cols];
    let start = maze.start_position();
    let mut open = vec![start];
    seen[start.0 * cols + start.1] = true;
    let mut count = 0;
    while let Some((row, col)) = open.pop() {
        count += 1;
        let mut next = Vec::new();
        if row > 0 {
            next.push((row - 1, col));
        }
        if col > 0 {
            next.push((row, col - 1));
        }
        if row + 1 < rows {
            next.push((row + 1, col));
        }
        if col + 1 < cols {
            next.push((row, col + 1));
        }
        for (r, c) in next {
            if maze.tile(r, c) == Some(TileType::Floor) && !seen[r * cols + c] {
                seen[r * cols + c] = true;
                open.push((r, c));
            }
        }
    }
    count
}

fn assert_invariants(maze: &Maze) {
    let g = maze.grid();
    let rows = maze.expanded_height();
    let cols = maze.expanded_width();
    assert_eq!(rows, 3 * g.height);
    assert_eq!(cols, 3 * g.width);
    assert_eq!(maze.tiles().len(), rows * cols);
    let critical = maze.critical_path();
    assert_eq!(critical[0], g.start());
    assert_eq!(*critical.last().unwrap(), g.end());
    for path in maze.paths() {
        for (i, cell) in path.iter().enumerate() {
            assert!(g.is_interior(*cell));
            assert!(!path[..i].contains(cell));
        }
    }
    for i in 0..cols {
        assert_eq!(maze.tile(0, i), Some(TileType::Wall));
        assert_eq!(maze.tile(rows - 1, i), Some(TileType::Wall));
    }
    for i in 0..rows {
        assert_eq!(maze.tile(i, 0), Some(TileType::Wall));
        assert_eq!(maze.tile(i, cols - 1), Some(TileType::Wall));
    }
    let start = maze.start_position();
    assert_eq!(maze.tile(start.0, start.1), Some(TileType::Floor));
    let end = maze.end_position();
    assert_eq!(maze.tile(end.0, end.1), Some(TileType::Floor));
    assert_eq!(reached_from_start(maze), floor_count(maze));
    assert_eq!(maze.tiles(), &expand(&g, maze.paths()).unwrap());
}

#[test]
fn generated_mazes_keep_the_invariants() {
    for (width, height) in [(4, 4), (4, 7), (7, 4), (10, 10), (16, 16)] {
        for seed in 0..4 {
            assert_invariants(&make(seed, width, height));
        }
    }
}

#[test]
fn sixteen_by_sixteen_maze() {
    let maze = make(42, 16, 16);
    assert_eq!(maze.expanded_width(), 48);
    assert_eq!(maze.expanded_height(), 48);
    assert_eq!(maze.tiles().len(), 2304);
    assert_eq!(maze.start_position(), (4, 4));
    assert_eq!(maze.end_position(), (43, 43));
    assert_eq!(maze.tile(0, 0), Some(TileType::Wall));
    assert_eq!(maze.tile(4, 4), Some(TileType::Floor));
    assert_eq!(maze.tile(43, 43), Some(TileType::Floor));
    assert_eq!(maze.start_cell(), 17);
    assert_eq!(maze.end_cell(), 238);
    assert_eq!(maze.critical_path()[0], 17);
    assert_eq!(*maze.critical_path().last().unwrap(), 238);
    assert_eq!(maze.branch_count(), maze.paths().len() - 1);
    assert!(maze.branch_count() > 0);
}

#[test]
fn no_tile_outside_the_grid() {
    let maze = make(1, 5, 5);
    assert_eq!(maze.tile(15, 4), None);
    assert_eq!(maze.tile(4, 15), None);
    assert_eq!(maze.tile(usize::MAX, usize::MAX), None);
    assert_eq!(maze.tile(14, 14), Some(TileType::Wall));
    assert_eq!(maze.tile(4, 4), Some(TileType::Floor));
}

#[test]
fn tiles_are_stored_row_by_row() {
    let maze = make(2, 6, 5);
    let cols = maze.expanded_width();
    for row in 0..maze.expanded_height() {
        for col in 0..cols {
            assert_eq!(maze.tile(row, col), Some(maze.tiles()[row * cols + col]));
        }
    }
}

#[test]
fn every_interior_cell_is_claimed_in_the_end() {
    let maze = make(3, 6, 6);
    let g = maze.grid();
    let mut cells: Vec<usize> = maze.paths().iter().flatten().copied().collect();
    cells.sort();
    cells.dedup();
    let interior: Vec<usize> = (0..36).filter(|cell| g.is_interior(*cell)).collect();
    assert_eq!(cells, interior);
    assert_eq!(floor_count(&maze), 16 + 2 * 15);
}

#[test]
fn same_seed_same_maze() {
    let a = make(77, 12, 9);
    let b = make(77, 12, 9);
    assert_eq!(a.paths(), b.paths());
    assert_eq!(a.tiles(), b.tiles());
}

#[test]
fn dimensions_too_small_are_a_configuration_error() {
    let mut rng = StdRng::seed_from_u64(0);
    let limits = Limits::standard();
    assert!(matches!(
        Maze::generate(&mut rng, 3, 16, &limits),
        Err(MazeError::Configuration(ConfigurationError::TooSmall))
    ));
    assert!(matches!(
        Maze::generate(&mut rng, 16, 0, &limits),
        Err(MazeError::Configuration(ConfigurationError::TooSmall))
    ));
}

#[test]
fn dimensions_too_large_are_a_configuration_error() {
    let mut rng = StdRng::seed_from_u64(0);
    assert!(matches!(
        Maze::generate(&mut rng, usize::MAX / 4, 4, &Limits::standard()),
        Err(MazeError::Configuration(ConfigurationError::TooLarge))
    ));
}

#[test]
fn walks_thrown_away_are_counted() {
    let mut rng = StdRng::seed_from_u64(21);
    let limits = Limits { step_limit: 12, start_attempts: 1_000, draw_budget: usize::MAX };
    let maze = match Maze::generate(&mut rng, 8, 8, &limits) {
        Ok(maze) => maze,
        Err(_) => panic!("no maze"),
    };
    assert!(maze.restarts() > 0);
    assert!(maze.critical_path().len() <= 13);
    for path in maze.paths() {
        assert!(path.len() <= 14);
    }
    assert_invariants(&maze);
    let maze = make(21, 4, 4);
    assert_eq!(maze.restarts(), 0);
}

#[test]
fn budget_too_small_is_a_stall() {
    let mut rng = StdRng::seed_from_u64(0);
    let limits = Limits { step_limit: 10_000, start_attempts: 1_000, draw_budget: 10 };
    assert!(matches!(Maze::generate(&mut rng, 16, 16, &limits), Err(MazeError::GenerationStall)));
}

#[test]
fn regeneration_twice_replaces_the_maze_each_time() {
    let mut rng = StdRng::seed_from_u64(5);
    let limits = Limits::standard();
    let mut maze = match Maze::generate(&mut rng, 16, 16, &limits) {
        Ok(maze) => maze,
        Err(_) => panic!("no maze"),
    };
    assert_invariants(&maze);
    let first = maze.tiles().clone();
    assert!(maze.regenerate(&mut rng, &limits).is_ok());
    assert_invariants(&maze);
    let second = maze.tiles().clone();
    assert!(maze.regenerate(&mut rng, &limits).is_ok());
    assert_invariants(&maze);
    let third = maze.tiles().clone();
    assert_eq!(maze.grid().width, 16);
    assert_eq!(maze.grid().height, 16);
    assert_eq!(third, expand(&maze.grid(), maze.paths()).unwrap());
    assert!(first != second || second != third);
}

#[test]
fn regeneration_that_stalls_keeps_the_old_maze() {
    let mut rng = StdRng::seed_from_u64(6);
    let mut maze = match Maze::generate(&mut rng, 16, 16, &Limits::standard()) {
        Ok(maze) => maze,
        Err(_) => panic!("no maze"),
    };
    let paths = maze.paths().clone();
    let tiles = maze.tiles().clone();
    let limits = Limits { step_limit: 10_000, start_attempts: 1_000, draw_budget: 10 };
    assert!(maze.regenerate(&mut rng, &limits).is_err());
    assert_eq!(maze.paths(), &paths);
    assert_eq!(maze.tiles(), &tiles);
    assert_invariants(&maze);
}

#[test]
fn limits_below_the_shortest_way_are_a_stall() {
    let mut rng = StdRng::seed_from_u64(41);
    let limits = Limits { step_limit: 25, start_attempts: 1_000, draw_budget: 50_000 };
    assert!(matches!(Maze::generate(&mut rng, 16, 16, &limits), Err(MazeError::GenerationStall)));
    let limits = Limits { step_limit: 10_000, start_attempts: 1_000, draw_budget: 25 };
    assert!(matches!(Maze::generate(&mut rng, 16, 16, &limits), Err(MazeError::GenerationStall)));
    let limits = Limits { step_limit: 1, start_attempts: 1_000, draw_budget: 50_000 };
    assert!(matches!(Maze::generate(&mut rng, 4, 4, &limits), Err(MazeError::GenerationStall)));
    assert!(matches!(
        Maze::generate(&mut rng, 3, 4, &limits),
        Err(MazeError::Configuration(ConfigurationError::TooSmall))
    ));
}

#[test]
fn regeneration_below_the_shortest_way_keeps_the_old_maze() {
    let mut rng = StdRng::seed_from_u64(42);
    let mut maze = make(42, 16, 16);
    let tiles = maze.tiles().clone();
    let limits = Limits { step_limit: 25, start_attempts: 1_000, draw_budget: 50_000 };
    assert!(maze.regenerate(&mut rng, &limits).is_err());
    assert_eq!(maze.tiles(), &tiles);
}

#[test]
fn maze_keeps_within_its_limits() {
    let mut rng = StdRng::seed_from_u64(43);
    let limits = Limits { step_limit: 40, start_attempts: 1_000, draw_budget: 100_000 };
    let mut made = 0;
    for _ in 0..20 {
        if let Ok(maze) = Maze::generate(&mut rng, 8, 8, &limits) {
            let cost: usize = maze.paths().iter().map(|path| path.len()).sum::<usize>() - 1;
            assert!(cost <= 100_000);
            assert!(maze.restarts() <= 100_000);
            assert!(maze.critical_path().len() >= 11);
            assert!(maze.critical_path().len() <= 41);
            for path in maze.paths() {
                assert!(path.len() <= 42);
            }
            made += 1;
        }
    }
    assert!(made > 0);
}
