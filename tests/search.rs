use std::collections::VecDeque;

use rucman::a_star::a_star;
use rucman::grid::Grid;
use rucman::point::Vector2;

const W: char = '\u{2588}';

fn grid_of(rows: &[&str]) -> Grid {
    let rows: Vec<Vec<char>> = rows.iter().map(|r| r.chars().map(|c| if c == '#' { W } else { c }).collect()).collect();
    Grid::from_rows(&rows).unwrap()
}

/// Steps of a shortest route by breadth-first search, if any.
fn bfs(grid: &Grid, start: Vector2, goal: Vector2) -> Option<usize> {
    let mut dist = std::collections::HashMap::new();
    let mut queue = VecDeque::new();
    dist.insert(start, 0usize);
    queue.push_back(start);
    while let Some(p) = queue.pop_front() {
        if p == goal {
            return Some(dist[&p]);
        }
        for d in [Vector2(0, -1), Vector2(0, 1), Vector2(-1, 0), Vector2(1, 0)] {
            let q = p + d;
            if grid.is_valid_pos(&q) && !dist.contains_key(&q) {
                dist.insert(q, dist[&p] + 1);
                queue.push_back(q);
            }
        }
    }
    None
}

fn check_route(grid: &Grid, path: &[Vector2], start: Vector2, goal: Vector2) {
    assert_eq!(path[0], goal);
    assert_eq!(*path.last().unwrap(), start);
    for w in path.windows(2) {
        assert_eq!(Vector2::side_distance(w[0], w[1]), 1);
    }
    for p in &path[..path.len() - 1] {
        assert!(grid.is_valid_pos(p));
    }
}

#[test]
fn open_grid_path_has_manhattan_length() {
    let grid = grid_of(&["     "; 5]);
    let path = a_star(&grid, Vector2(0, 0), Vector2(4, 4), false).unwrap();
    assert_eq!(path.len(), 9);
    check_route(&grid, &path, Vector2(0, 0), Vector2(4, 4));
}

#[test]
fn already_on_start_drops_the_trailing_start() {
    let grid = grid_of(&["     ", " ### ", "   # ", "## # ", "     "]);
    let full = a_star(&grid, Vector2(0, 0), Vector2(0, 4), false).unwrap();
    let short = a_star(&grid, Vector2(0, 0), Vector2(0, 4), true).unwrap();
    assert_eq!(short.len() + 1, full.len());
    assert_eq!(*full.last().unwrap(), Vector2(0, 0));
    assert_eq!(&full[..full.len() - 1], &short[..]);
}

#[test]
fn start_on_goal_gives_the_start_alone() {
    let grid = grid_of(&["   "]);
    assert_eq!(a_star(&grid, Vector2(1, 0), Vector2(1, 0), false), Some(vec![Vector2(1, 0)]));
    assert_eq!(a_star(&grid, Vector2(1, 0), Vector2(1, 0), true), Some(vec![]));
}

#[test]
fn wall_goal_has_no_path() {
    let grid = grid_of(&["  #  "]);
    assert_eq!(a_star(&grid, Vector2(0, 0), Vector2(2, 0), true), None);
    assert_eq!(a_star(&grid, Vector2(0, 0), Vector2(7, 0), false), None);
}

#[test]
fn disconnected_regions_have_no_path() {
    let grid = grid_of(&["  #  ", "  #  ", "  #  "]);
    assert_eq!(a_star(&grid, Vector2(0, 0), Vector2(4, 2), false), None);
    assert_eq!(bfs(&grid, Vector2(0, 0), Vector2(4, 2)), None);
}

#[test]
fn a_star_matches_breadth_first_search() {
    let mazes: [&[&str]; 3] = [
        &["      ", " #### ", " #  # ", " # ## ", "      "],
        &["   #   ", " # # # ", " #   # ", " ##### ", "       "],
        &["  ", "# ", "  ", " #", "  "],
    ];
    for rows in mazes {
        let grid = grid_of(rows);
        let (w, h) = (grid.get_width() as i32, grid.get_height() as i32);
        for sy in 0..h {
            for sx in 0..w {
                for gy in 0..h {
                    for gx in 0..w {
                        let (s, g) = (Vector2(sx, sy), Vector2(gx, gy));
                        if !grid.is_valid_pos(&s) {
                            continue;
                        }
                        let found = a_star(&grid, s, g, false);
                        match bfs(&grid, s, g) {
                            Some(steps) => {
                                let path = found.unwrap();
                                check_route(&grid, &path, s, g);
                                assert_eq!(path.len(), steps + 1);
                            }
                            None => assert!(found.is_none()),
                        }
                    }
                }
            }
        }
    }
}

#[test]
fn start_outside_the_grid_next_to_an_open_cell() {
    let grid = grid_of(&["   "]);
    let path = a_star(&grid, Vector2(-1, 0), Vector2(2, 0), false).unwrap();
    assert_eq!(path, vec![Vector2(2, 0), Vector2(1, 0), Vector2(0, 0), Vector2(-1, 0)]);
}

#[test]
fn heuristic_never_exceeds_route_length_on_the_game_maze() {
    let grid = Grid::new();
    let starts = [Vector2(1, 1), Vector2(13, 20), Vector2(25, 25)];
    let goals = [Vector2(25, 1), Vector2(1, 25), Vector2(0, 12)];
    for s in starts {
        for g in goals {
            let path = a_star(&grid, s, g, false).unwrap();
            assert!(Vector2::side_distance(s, g) as usize <= path.len() - 1);
            assert_eq!(bfs(&grid, s, g), Some(path.len() - 1));
        }
    }
}
