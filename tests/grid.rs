use advent_code_25::erosion::{nb_neighboring_rolls, remove_accessible_rolls, remove_all_accessible_rolls, solve_for};
use advent_code_25::grid::{Grid, GridError};

fn new_grid(content: &[u8]) -> Grid {
    Grid::load(content).unwrap()
}

fn rolls(grid: &Grid) -> Vec<(usize, usize)> {
    let mut v = Vec::new();
    for y in 0..grid.height() {
        for x in 0..grid.width() {
            if grid.is_roll_at(x, y) {
                v.push((x, y));
            }
        }
    }
    v
}

#[test]
fn load_valid_grid() {
    let payload = b"..@@.@@@@.\n@@@.@.@.@@\n@.@.@@@.@.\n";
    let grid = Grid::load(payload).unwrap();
    assert_eq!(grid.width(), 10);
    assert_eq!(grid.height(), 3);
    assert!(!grid.is_roll_at(0, 0));
    assert!(grid.is_roll_at(2, 0));
    assert!(grid.is_roll_at(0, 1));
    assert!(grid.is_roll_at(1, 1));
    assert!(grid.is_roll_at(0, 2));
    assert!(!grid.is_roll_at(9, 2));
}

#[test]
fn single_accessible_roll() {
    let mut grid = new_grid(b"...\n.@.\n...\n");
    assert_eq!(remove_accessible_rolls(&mut grid), 1);
}

#[test]
fn corners_are_acessible() {
    let mut grid = new_grid(b"@.@\n.@.\n@.@\n");
    assert_eq!(remove_all_accessible_rolls(&mut grid), 5);
}

#[test]
fn no_neighbors() {
    let grid = new_grid(b"...\n.@.\n...\n");
    assert_eq!(nb_neighboring_rolls(&grid, 1, 1), 0);
}

#[test]
fn full_neighbors() {
    let grid = new_grid(b"@@@\n@@@\n@@@\n");
    assert_eq!(nb_neighboring_rolls(&grid, 1, 1), 8);
}

#[test]
fn borders() {
    let grid = new_grid(b"@@@\n@.@\n@@@\n");
    assert_eq!(nb_neighboring_rolls(&grid, 0, 0), 2);
    assert_eq!(nb_neighboring_rolls(&grid, 1, 0), 4);
    assert_eq!(nb_neighboring_rolls(&grid, 2, 0), 2);
    assert_eq!(nb_neighboring_rolls(&grid, 1, 0), 4);
    assert_eq!(nb_neighboring_rolls(&grid, 1, 2), 4);
    assert_eq!(nb_neighboring_rolls(&grid, 0, 2), 2);
    assert_eq!(nb_neighboring_rolls(&grid, 1, 2), 4);
    assert_eq!(nb_neighboring_rolls(&grid, 2, 2), 2);
}

#[test]
fn corners_single_pass_keeps_center() {
    let mut grid = new_grid(b"@.@\n.@.\n@.@\n");
    assert_eq!(nb_neighboring_rolls(&grid, 1, 1), 4);
    assert_eq!(remove_accessible_rolls(&mut grid), 4);
    assert_eq!(rolls(&grid), vec![(1, 1)]);
    assert_eq!(remove_accessible_rolls(&mut grid), 1);
    assert_eq!(remove_accessible_rolls(&mut grid), 0);
}

#[test]
fn full_grid_corners_go_first() {
    let mut grid = new_grid(b"@@@\n@@@\n@@@\n");
    assert_eq!(nb_neighboring_rolls(&grid, 0, 0), 3);
    assert_eq!(nb_neighboring_rolls(&grid, 2, 2), 3);
    assert_eq!(nb_neighboring_rolls(&grid, 1, 0), 5);
    assert_eq!(remove_accessible_rolls(&mut grid), 4);
    assert_eq!(rolls(&grid), vec![(1, 0), (0, 1), (1, 1), (2, 1), (1, 2)]);
    assert!(grid.is_roll_at(1, 1));
    assert_eq!(remove_all_accessible_rolls(&mut grid), 5);
}

#[test]
fn empty_grid_removes_nothing() {
    let mut grid = new_grid(b"...\n...\n");
    assert_eq!(remove_accessible_rolls(&mut grid), 0);
    assert_eq!(remove_all_accessible_rolls(&mut grid), 0);
}

#[test]
fn pass_after_fixed_point_removes_nothing() {
    let mut grid = new_grid(b"..@@.@@@@.\n@@@.@.@.@@\n@@@@@.@.@@\n@.@@@@..@.\n@@.@@@@.@@\n.@@@@@@@.@\n.@.@.@.@@@\n@.@@@.@@@@\n.@@@@@@@@.\n@.@.@@@.@.\n");
    assert_eq!(remove_all_accessible_rolls(&mut grid), 43);
    assert_eq!(remove_accessible_rolls(&mut grid), 0);
}

#[test]
fn example_first_pass() {
    let mut grid = new_grid(b"..@@.@@@@.\n@@@.@.@.@@\n@@@@@.@.@@\n@.@@@@..@.\n@@.@@@@.@@\n.@@@@@@@.@\n.@.@.@.@@@\n@.@@@.@@@@\n.@@@@@@@@.\n@.@.@@@.@.\n");
    assert_eq!(remove_accessible_rolls(&mut grid), 13);
}

#[test]
fn pass_only_removes_rolls() {
    let mut grid = new_grid(b"@@.@\n@@@@\n.@@.\n");
    let before = rolls(&grid);
    let removed = remove_accessible_rolls(&mut grid);
    let after = rolls(&grid);
    assert!(after.iter().all(|p| before.contains(p)));
    assert_eq!(before.len() - after.len(), removed);
}

#[test]
fn fixed_point_count_is_rolls_removed() {
    let mut grid = new_grid(b"@@@@\n@@@@\n@@@@\n@@@@\n@..@\n");
    let before = rolls(&grid).len();
    let removed = remove_all_accessible_rolls(&mut grid);
    assert_eq!(removed, before - rolls(&grid).len());
}

#[test]
fn solve_for_example() {
    let input = b"..@@.@@@@.\n@@@.@.@.@@\n@@@@@.@.@@\n@.@@@@..@.\n@@.@@@@.@@\n.@@@@@@@.@\n.@.@.@.@@@\n@.@@@.@@@@\n.@@@@@@@@.\n@.@.@@@.@.\n";
    assert_eq!(solve_for(input), Ok(43));
    assert_eq!(solve_for(b"@@\n@\n"), Err(GridError::Malformed));
}

#[test]
fn load_rejects_malformed_text() {
    assert!(matches!(Grid::load(b""), Err(GridError::Malformed)));
    assert!(matches!(Grid::load(b"\n"), Err(GridError::Malformed)));
    assert!(matches!(Grid::load(b"@.@"), Err(GridError::Malformed)));
    assert!(matches!(Grid::load(b"@.@\n@."), Err(GridError::Malformed)));
    assert!(matches!(Grid::load(b"@.@\n@.\n"), Err(GridError::Malformed)));
    assert!(matches!(Grid::load(b"@.@\n@x@\n"), Err(GridError::Malformed)));
    assert!(matches!(Grid::load(b"@.@\r\n@.@\r\n"), Err(GridError::Malformed)));
}

#[test]
fn load_single_tile() {
    let grid = Grid::load(b"@\n").unwrap();
    assert_eq!(grid.width(), 1);
    assert_eq!(grid.height(), 1);
    assert!(grid.is_roll_at(0, 0));
    let mut grid = grid;
    assert_eq!(nb_neighboring_rolls(&grid, 0, 0), 0);
    grid.remove_roll_at(0, 0);
    assert!(!grid.is_roll_at(0, 0));
}
