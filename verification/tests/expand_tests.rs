use mazegen::expand::{
    carve_all, carve_path, carve_segment, expand, is_in_grid_path, is_linked, is_linked_path,
    ExpandError,
};
use mazegen::grid::{Direction, LogicalGrid, TileType};
use mazegen::walk::advance_critical;

fn grid16() -> LogicalGrid {
    LogicalGrid::new(16, 16).unwrap()
}

fn floors(tiles: &[TileType]) -> Vec<usize> {
    (0..tiles.len()).filter(|t| tiles[*t] == TileType::Floor).collect()
}

fn at(row: usize, col: usize) -> usize {
    row * 48 + col
}

#[test]
fn no_path_gives_walls_only() {
    let g = grid16();
    let tiles = expand(&g, &Vec::new()).unwrap();
    assert_eq!(tiles.len(), 48 * 48);
    assert!(floors(&tiles).is_empty());
    let tiles = expand(&g, &vec![Vec::new()]).unwrap();
    assert_eq!(tiles.len(), 48 * 48);
    assert!(floors(&tiles).is_empty());
}

#[test]
fn single_cell_gives_its_hub() {
    let g = grid16();
    let tiles = expand(&g, &vec![vec![17]]).unwrap();
    assert_eq!(floors(&tiles), vec![at(4, 4)]);
    let tiles = expand(&g, &vec![vec![238]]).unwrap();
    assert_eq!(floors(&tiles), vec![at(43, 43)]);
}

#[test]
fn move_to_the_right_gives_a_corridor_of_two() {
    let g = grid16();
    let tiles = expand(&g, &vec![vec![17, 18]]).unwrap();
    assert_eq!(floors(&tiles), vec![at(4, 4), at(4, 5), at(4, 6), at(4, 7)]);
}

#[test]
fn move_to_the_left_gives_the_same_corridor() {
    let g = grid16();
    let tiles = expand(&g, &vec![vec![18, 17]]).unwrap();
    assert_eq!(floors(&tiles), vec![at(4, 4), at(4, 5), at(4, 6), at(4, 7)]);
}

#[test]
fn move_up_and_down_give_a_corridor_between_rows() {
    let g = grid16();
    let up = expand(&g, &vec![vec![17, 33]]).unwrap();
    assert_eq!(floors(&up), vec![at(4, 4), at(5, 4), at(6, 4), at(7, 4)]);
    let down = expand(&g, &vec![vec![33, 17]]).unwrap();
    assert_eq!(up, down);
}

#[test]
fn repeated_cell_is_drawn_once() {
    let g = grid16();
    let tiles = expand(&g, &vec![vec![17, 17, 18, 18]]).unwrap();
    assert_eq!(floors(&tiles), vec![at(4, 4), at(4, 5), at(4, 6), at(4, 7)]);
}

#[test]
fn branch_is_drawn_beside_the_critical_path() {
    let g = grid16();
    let tiles = expand(&g, &vec![vec![17, 18], vec![34, 18]]).unwrap();
    assert_eq!(
        floors(&tiles),
        vec![at(4, 4), at(4, 5), at(4, 6), at(4, 7), at(5, 7), at(6, 7), at(7, 7)]
    );
}

#[test]
fn number_that_is_no_cell_is_refused() {
    let g = grid16();
    assert_eq!(expand(&g, &vec![vec![17, 256]]), Err(ExpandError::OutOfGrid));
    assert_eq!(expand(&g, &vec![vec![usize::MAX]]), Err(ExpandError::OutOfGrid));
    assert!(expand(&g, &vec![vec![255]]).is_ok());
}

#[test]
fn move_between_distant_cells_is_refused() {
    let g = grid16();
    assert_eq!(expand(&g, &vec![vec![17, 19]]), Err(ExpandError::NotAdjacent));
    assert_eq!(expand(&g, &vec![vec![17, 34]]), Err(ExpandError::NotAdjacent));
    assert_eq!(expand(&g, &vec![vec![17, 18], vec![50, 18]]), Err(ExpandError::NotAdjacent));
}

#[test]
fn move_across_the_end_of_a_row_is_refused() {
    let g = grid16();
    assert_eq!(expand(&g, &vec![vec![31, 32]]), Err(ExpandError::NotAdjacent));
    assert_eq!(expand(&g, &vec![vec![32, 31]]), Err(ExpandError::NotAdjacent));
}

#[test]
fn number_that_is_no_cell_comes_first() {
    let g = grid16();
    assert_eq!(expand(&g, &vec![vec![17, 19], vec![999]]), Err(ExpandError::OutOfGrid));
    assert_eq!(expand(&g, &vec![vec![999], vec![17, 19]]), Err(ExpandError::OutOfGrid));
}

#[test]
fn linked_cells() {
    let g = grid16();
    assert!(is_linked(&g, 17, 17));
    assert!(is_linked(&g, 17, 18));
    assert!(is_linked(&g, 18, 17));
    assert!(is_linked(&g, 17, 33));
    assert!(is_linked(&g, 33, 17));
    assert!(!is_linked(&g, 17, 34));
    assert!(!is_linked(&g, 17, 19));
    assert!(!is_linked(&g, 15, 16));
    assert!(!is_linked(&g, 17, 49));
}

#[test]
fn segment_marks_three_tiles() {
    let g = grid16();
    let mut tiles = vec![TileType::Wall; 48 * 48];
    carve_segment(&g, &mut tiles, 35, 34);
    assert_eq!(floors(&tiles), vec![at(7, 7), at(7, 8), at(7, 9)]);
    let mut tiles = vec![TileType::Wall; 48 * 48];
    carve_segment(&g, &mut tiles, 35, 35);
    assert_eq!(floors(&tiles), vec![at(7, 10)]);
}

#[test]
fn drawing_a_path_twice_changes_nothing() {
    let g = grid16();
    let path = vec![17, 18, 34, 35, 19, 20];
    let mut once = vec![TileType::Wall; 48 * 48];
    carve_path(&g, &mut once, &path);
    let mut twice = once.clone();
    carve_path(&g, &mut twice, &path);
    assert_eq!(once, twice);
    assert_eq!(floors(&once).len(), 3 * 6 - 2);
}

#[test]
fn drawing_keeps_the_floor_that_is_there() {
    let g = grid16();
    let mut tiles = vec![TileType::Wall; 48 * 48];
    tiles[at(40, 40)] = TileType::Floor;
    carve_path(&g, &mut tiles, &vec![17, 18]);
    assert_eq!(floors(&tiles), vec![at(4, 4), at(4, 5), at(4, 6), at(4, 7), at(40, 40)]);
}

#[test]
fn expanding_twice_gives_identical_grids() {
    let g = grid16();
    let paths = vec![vec![17, 18, 19, 35, 51], vec![33, 34, 18], vec![50, 51]];
    let first = expand(&g, &paths).unwrap();
    let second = expand(&g, &paths).unwrap();
    assert_eq!(first, second);
    let mut over = first.clone();
    for path in &paths {
        carve_path(&g, &mut over, path);
    }
    assert_eq!(first, over);
}

#[test]
fn order_of_the_paths_does_not_change_the_grid() {
    let g = grid16();
    let a = expand(&g, &vec![vec![17, 18, 19], vec![34, 18]]).unwrap();
    let b = expand(&g, &vec![vec![34, 18], vec![17, 18, 19]]).unwrap();
    assert_eq!(a, b);
}

#[test]
fn border_ring_is_wall_even_for_paths_on_the_border() {
    let g = grid16();
    let mut top: Vec<usize> = (0..16).collect();
    top.extend((1..16).map(|row| row * 16 + 15));
    let tiles = expand(&g, &vec![top, vec![240, 224, 208], vec![255, 254]]).unwrap();
    for i in 0..48 {
        assert_eq!(tiles[at(0, i)], TileType::Wall);
        assert_eq!(tiles[at(47, i)], TileType::Wall);
        assert_eq!(tiles[at(i, 0)], TileType::Wall);
        assert_eq!(tiles[at(i, 47)], TileType::Wall);
    }
    assert_eq!(tiles[at(1, 1)], TileType::Floor);
    assert_eq!(tiles[at(46, 46)], TileType::Floor);
    assert_eq!(tiles[at(46, 1)], TileType::Floor);
}

#[test]
fn straight_walk_on_sixteen_by_sixteen() {
    let g = grid16();
    let mut dirs = vec![Direction::Left, Direction::Down];
    dirs.extend(vec![Direction::Right; 13]);
    dirs.push(Direction::Right);
    dirs.extend(vec![Direction::Up; 13]);
    let mut path = vec![g.start()];
    let mut steps = 0;
    for dir in &dirs {
        assert!(*path.last().unwrap() != g.end());
        advance_critical(&g, &mut path, &mut steps, *dir, 10_000);
    }
    assert_eq!(*path.last().unwrap(), g.end());
    assert_eq!(path[0], 17);
    assert_eq!(path.len(), 13 + 13 + 1);
    assert_eq!(steps, 26);
    let tiles = expand(&g, &vec![path]).unwrap();
    assert_eq!(tiles.len(), 48 * 48);
    assert_eq!(g.expanded_width(), 48);
    assert_eq!(g.expanded_height(), 48);
    assert_eq!(tiles[at(0, 0)], TileType::Wall);
    assert_eq!(tiles[at(4, 4)], TileType::Floor);
    assert_eq!(tiles[at(43, 43)], TileType::Floor);
    assert_eq!(tiles[at(4, 43)], TileType::Floor);
    assert_eq!(tiles[at(5, 4)], TileType::Wall);
    assert_eq!(floors(&tiles).len(), 3 * 27 - 2);
    for col in 4..=43 {
        assert_eq!(tiles[at(4, col)], TileType::Floor);
    }
    for row in 4..=43 {
        assert_eq!(tiles[at(row, 43)], TileType::Floor);
    }
}

#[test]
fn paths_in_and_out_of_the_grid() {
    let g = grid16();
    assert!(is_in_grid_path(&g, &Vec::new()));
    assert!(is_in_grid_path(&g, &vec![0, 17, 255]));
    assert!(!is_in_grid_path(&g, &vec![17, 256]));
    assert!(!is_in_grid_path(&g, &vec![usize::MAX, 17]));
}

#[test]
fn paths_with_and_without_gaps() {
    let g = grid16();
    assert!(is_linked_path(&g, &Vec::new()));
    assert!(is_linked_path(&g, &vec![17]));
    assert!(is_linked_path(&g, &vec![17, 18, 18, 34, 33, 17]));
    assert!(!is_linked_path(&g, &vec![17, 18, 20]));
    assert!(!is_linked_path(&g, &vec![17, 18, 35]));
}

#[test]
fn drawing_checked_paths_gives_the_same_grid() {
    let g = grid16();
    let paths = vec![vec![17, 18, 19, 35], vec![33, 34, 18]];
    assert_eq!(carve_all(&g, &paths), expand(&g, &paths).unwrap());
}
