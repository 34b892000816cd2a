use mazegen::grid::{ConfigurationError, Direction, LogicalGrid, TileType};

fn grid(width: usize, height: usize) -> LogicalGrid {
    LogicalGrid::new(width, height).unwrap()
}

#[test]
fn smallest_grid_is_four_by_four() {
    let g = grid(4, 4);
    assert_eq!(g.width, 4);
    assert_eq!(g.height, 4);
    assert_eq!(g.start(), 5);
    assert_eq!(g.end(), 10);
}

#[test]
fn too_small_dimensions_are_refused() {
    assert_eq!(LogicalGrid::new(3, 10), Err(ConfigurationError::TooSmall));
    assert_eq!(LogicalGrid::new(10, 3), Err(ConfigurationError::TooSmall));
    assert_eq!(LogicalGrid::new(0, 0), Err(ConfigurationError::TooSmall));
    assert_eq!(LogicalGrid::new(3, usize::MAX), Err(ConfigurationError::TooSmall));
}

#[test]
fn too_large_dimensions_are_refused() {
    assert_eq!(LogicalGrid::new(usize::MAX, 4), Err(ConfigurationError::TooLarge));
    assert_eq!(LogicalGrid::new(usize::MAX / 2, usize::MAX / 2), Err(ConfigurationError::TooLarge));
    assert_eq!(LogicalGrid::new(usize::MAX / 9, 4), Err(ConfigurationError::TooLarge));
    assert!(LogicalGrid::new(usize::MAX / 36, 4).is_ok());
}

#[test]
fn index_and_row_col_agree() {
    let g = grid(16, 12);
    assert_eq!(g.index(2, 3), 35);
    assert_eq!(g.row(35), 2);
    assert_eq!(g.col(35), 3);
    for row in 0..12 {
        for col in 0..16 {
            let cell = g.index(row, col);
            assert_eq!(cell, row * 16 + col);
            assert_eq!(g.row(cell), row);
            assert_eq!(g.col(cell), col);
        }
    }
}

#[test]
fn start_and_end_of_sixteen_by_sixteen() {
    let g = grid(16, 16);
    assert_eq!(g.start(), 17);
    assert_eq!((g.row(17), g.col(17)), (1, 1));
    assert_eq!(g.end(), 238);
    assert_eq!((g.row(238), g.col(238)), (14, 14));
}

#[test]
fn border_cells_are_not_interior() {
    let g = grid(6, 5);
    for cell in 0..40 {
        let row = cell / 6;
        let col = cell % 6;
        let inside = cell < 30 && row >= 1 && row <= 3 && col >= 1 && col <= 4;
        assert_eq!(g.is_interior(cell), inside, "cell {}", cell);
    }
}

#[test]
fn steps_follow_the_four_directions() {
    let g = grid(16, 16);
    assert_eq!(g.step_from(35, Direction::Left), 34);
    assert_eq!(g.step_from(35, Direction::Right), 36);
    assert_eq!(g.step_from(35, Direction::Up), 51);
    assert_eq!(g.step_from(35, Direction::Down), 19);
}

#[test]
fn steps_off_the_low_end_stop_at_zero() {
    let g = grid(16, 16);
    assert_eq!(g.step_from(0, Direction::Left), 0);
    assert_eq!(g.step_from(0, Direction::Down), 0);
    assert_eq!(g.step_from(15, Direction::Down), 0);
    assert_eq!(g.step_from(16, Direction::Down), 0);
    assert_eq!(g.step_from(255, Direction::Up), 271);
}

#[test]
fn directions_of_draws() {
    assert_eq!(Direction::from_index(0), Direction::Left);
    assert_eq!(Direction::from_index(1), Direction::Up);
    assert_eq!(Direction::from_index(2), Direction::Right);
    assert_eq!(Direction::from_index(3), Direction::Down);
    assert_eq!(Direction::from_index(4), Direction::Left);
    assert_eq!(Direction::from_index(7), Direction::Down);
}

#[test]
fn texture_indices() {
    assert_eq!(TileType::Wall.into_index(), 17);
    assert_eq!(TileType::Floor.into_index(), 92);
}

#[test]
fn occupancy_grid_is_three_times_as_wide_and_high() {
    let g = grid(16, 16);
    assert_eq!(g.expanded_width(), 48);
    assert_eq!(g.expanded_height(), 48);
    assert_eq!(g.expanded_len(), 2304);
    let g = grid(5, 7);
    assert_eq!(g.expanded_width(), 15);
    assert_eq!(g.expanded_height(), 21);
    assert_eq!(g.expanded_len(), 315);
}

#[test]
fn tile_index_and_position_agree() {
    let g = grid(5, 7);
    assert_eq!(g.tile_index(4, 4), 64);
    assert_eq!(g.tile_position(64), (4, 4));
    for tile in 0..315 {
        let (row, col) = g.tile_position(tile);
        assert_eq!((row, col), (tile / 15, tile % 15));
        assert_eq!(g.tile_index(row, col), tile);
    }
}
