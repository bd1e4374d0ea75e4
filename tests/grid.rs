use rucman::grid::{Grid, GridPoint, GridPointError};
use rucman::point::Vector2;

/// Tests if the grid accepts valid positions.
#[test]
fn valid_pos() {
    let grid = Grid::new();
    assert!(grid.is_valid_pos(&Vector2((grid.get_width() - 2) as i32, (grid.get_height() - 2) as i32)));
    assert!(grid.is_valid_pos(&Vector2(1, 1)));
}

/// Tests if every handed-out position is valid.
#[test]
fn random_pos() {
    let mut grid = Grid::new();
    let n = grid.open_space_count();
    for _ in 0..n {
        let pos = grid.get_random_position();
        assert!(grid.is_valid_pos(&pos));
    }
}

/// Tests if the grid refuses invalid positions.
#[test]
fn invalid_pos() {
    let grid = Grid::new();
    assert!(!grid.is_valid_pos(&Vector2(0, 0)));
    assert!(!grid.is_valid_pos(&Vector2((grid.get_width()) as i32, (grid.get_height()) as i32)));
    assert!(!grid.is_valid_pos(&Vector2((grid.get_width() - 1) as i32, (grid.get_height() - 1) as i32)));
    assert!(!grid.is_valid_pos(&Vector2(-1, -1)));
}

/// Tests if eating returns the cell on valid positions.
#[test]
fn valid_eat() {
    let mut grid = Grid::new();
    assert_eq!(grid.eat(&Vector2(1, 1)), Ok(GridPoint::Pellet));
    assert_eq!(grid.pellets_left(), 233);
    assert_eq!(grid.eat(&Vector2(1, 3)), Ok(GridPoint::PowerPellet));
    assert_eq!(grid.pellets_left(), 232);
    assert_eq!(grid.eat(&Vector2(9, 9)), Ok(GridPoint::Empty));
}

/// Tests if eaten cells read as empty afterwards.
#[test]
fn check_eat_empty() {
    let mut grid = Grid::new();
    let _ = grid.eat(&Vector2(1, 1));
    assert_eq!(grid.eat(&Vector2(1, 1)), Ok(GridPoint::Empty));
    assert_eq!(grid.pellets_left(), 233);
    let _ = grid.eat(&Vector2(1, 3));
    assert_eq!(grid.eat(&Vector2(1, 3)), Ok(GridPoint::Empty));
    assert_eq!(grid.pellets_left(), 232);
    let _ = grid.eat(&Vector2(9, 9));
    assert_eq!(grid.eat(&Vector2(9, 9)), Ok(GridPoint::Empty));
    assert_eq!(grid.pellets_left(), 232);
}

/// Tests if eating reports errors on invalid positions.
#[test]
fn invalid_eat() {
    let mut grid = Grid::new();
    assert_eq!(grid.eat(&Vector2(0, 0)), Err(GridPointError::InconsumableError(GridPoint::Wall)));
    assert_eq!(
        grid.eat(&Vector2((grid.get_width()) as i32, (grid.get_height()) as i32)),
        Err(GridPointError::BadPosError)
    );
    assert_eq!(grid.eat(&Vector2(-1, -1)), Err(GridPointError::BadPosError));
    assert_eq!(
        grid.eat(&Vector2((grid.get_width() - 1) as i32, (grid.get_height() - 1) as i32)),
        Err(GridPointError::InconsumableError(GridPoint::Wall))
    );
}

const W: char = '\u{2588}';

fn small_maze() -> Grid {
    let rows: Vec<Vec<char>> = vec![
        vec![W, W, W, W, W],
        vec![W, '.', '*', '.', W],
        vec![W, '.', ' ', ' ', W],
        vec![W, '.', ' ', ' ', W],
        vec![W, W, W, W, W],
    ];
    Grid::from_rows(&rows).unwrap()
}

#[test]
fn bordered_maze_consumes_pellets_once() {
    let mut grid = small_maze();
    assert_eq!(grid.pellets_left(), 5);
    assert_eq!(grid.eat(&Vector2(1, 1)), Ok(GridPoint::Pellet));
    assert_eq!(grid.pellets_left(), 4);
    assert_eq!(grid.eat(&Vector2(1, 1)), Ok(GridPoint::Empty));
    assert_eq!(grid.pellets_left(), 4);
    assert_eq!(grid.eat(&Vector2(2, 1)), Ok(GridPoint::PowerPellet));
    assert_eq!(grid.pellets_left(), 3);
    assert_eq!(grid.get_maze()[1][2], GridPoint::Empty);
}

#[test]
fn consuming_a_wall_leaves_the_maze_alone() {
    let mut grid = small_maze();
    assert_eq!(grid.eat(&Vector2(0, 2)), Err(GridPointError::InconsumableError(GridPoint::Wall)));
    assert_eq!(grid.pellets_left(), 5);
    assert_eq!(grid.get_maze()[2][0], GridPoint::Wall);
    assert!(!grid.is_valid_pos(&Vector2(0, 2)));
}

#[test]
fn teleporter_reports_its_destination() {
    let mut grid = Grid::new();
    assert!(grid.is_valid_pos(&Vector2(0, 12)));
    assert_eq!(
        grid.eat(&Vector2(0, 12)),
        Err(GridPointError::InconsumableError(GridPoint::Teleporter(Vector2(26, 12))))
    );
    assert_eq!(
        grid.eat(&Vector2(26, 12)),
        Err(GridPointError::InconsumableError(GridPoint::Teleporter(Vector2(0, 12))))
    );
    assert_eq!(grid.get_maze()[12][0], GridPoint::Teleporter(Vector2(26, 12)));
}

#[test]
fn new_maze_dimensions_and_pickups() {
    let grid = Grid::new();
    assert_eq!(grid.get_width(), 27);
    assert_eq!(grid.get_height(), 28);
    assert_eq!(grid.pellets_left(), 234);
}

#[test]
fn open_positions_cycle_through_every_open_cell() {
    let mut grid = small_maze();
    let n = grid.open_space_count();
    assert_eq!(n, 9);
    let mut seen = Vec::new();
    for _ in 0..n {
        let p = grid.get_random_position();
        assert!(grid.is_valid_pos(&p));
        assert!(!seen.contains(&p));
        seen.push(p);
    }
    assert_eq!(grid.get_random_position(), seen[0]);
}

#[test]
fn from_rows_refuses_bad_layouts() {
    assert!(Grid::from_rows(&vec![]).is_none());
    assert!(Grid::from_rows(&vec![vec![]]).is_none());
    assert!(Grid::from_rows(&vec![vec![' ', ' '], vec![' ']]).is_none());
    assert!(Grid::from_rows(&vec![vec![' ', 'x']]).is_none());
    assert!(Grid::from_rows(&vec![vec![' ']]).is_some());
}

#[test]
fn symbols_map_both_ways() {
    for cell in [GridPoint::Pellet, GridPoint::PowerPellet, GridPoint::Wall, GridPoint::Empty] {
        assert_eq!(GridPoint::from_symbol(cell.to_symbol()), Some(cell));
    }
    assert_eq!(GridPoint::Teleporter(Vector2(1, 2)).to_symbol(), ' ');
    assert_eq!(GridPoint::from_symbol('?'), None);
}

#[test]
fn open_positions_are_shuffled() {
    let mut grid = Grid::new();
    let n = grid.open_space_count();
    let handed: Vec<Vector2> = (0..n).map(|_| grid.get_random_position()).collect();
    let mut row_major = Vec::new();
    for y in 0..grid.get_height() as i32 {
        for x in 0..grid.get_width() as i32 {
            if grid.is_valid_pos(&Vector2(x, y)) {
                row_major.push(Vector2(x, y));
            }
        }
    }
    let mut sorted = handed.clone();
    sorted.sort_by_key(|p| (p.1, p.0));
    assert_eq!(sorted, row_major);
    let backwards: Vec<Vector2> = row_major.iter().rev().cloned().collect();
    assert_ne!(handed, backwards);
}
