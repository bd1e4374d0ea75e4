use rucman::character::{Character, CharacterData, GhostMode, Vulnerability};
use rucman::direction::Direction;
use rucman::grid::Grid;
use rucman::point::Vector2;

fn check_fresh(c: &CharacterData, who: Character, position: Vector2, scatter: Vector2) {
    assert_eq!(c.get_character(), who);
    assert_eq!(c.get_position(), position);
    assert_eq!(c.get_scatter_position(), scatter);
    assert!(c.get_nav_path().is_empty());
    assert_eq!(c.get_direction(), Direction::right());
    assert_eq!(c.get_vulnerability(), Vulnerability::Invulnerable);
    assert_eq!(c.get_mode(), GhostMode::Scatter);
}

/// Tests if character data creation works properly.
#[test]
fn test_character_data_creation() {
    check_fresh(&CharacterData::new(Character::Rucman), Character::Rucman, Vector2(13, 20), Vector2(0, 0));
    check_fresh(&CharacterData::new(Character::Inky), Character::Inky, Vector2(12, 11), Vector2(25, 25));
    check_fresh(&CharacterData::new(Character::Pinky), Character::Pinky, Vector2(13, 11), Vector2(1, 1));
    check_fresh(&CharacterData::new(Character::Blinky), Character::Blinky, Vector2(13, 9), Vector2(25, 1));
    check_fresh(&CharacterData::new(Character::Clyde), Character::Clyde, Vector2(14, 11), Vector2(1, 25));
}

/// Tests if character's position is set properly.
#[test]
fn test_set_position() {
    let mut test_char = CharacterData::new(Character::Rucman);
    test_char.set_position(Vector2(1, 1));
    assert_eq!(test_char.get_position(), Vector2(1, 1));
    test_char.set_position(Vector2(-1, -1));
    assert_eq!(test_char.get_position(), Vector2(-1, -1));
}

/// Tests if a character's direction is set properly.
#[test]
fn test_set_direction() {
    let mut test_char = CharacterData::new(Character::Rucman);
    assert_eq!(test_char.get_direction(), Direction::right());
    test_char.set_direction(Direction::up());
    assert_eq!(test_char.get_direction(), Direction::up());
    test_char.set_direction(Direction::down());
    assert_eq!(test_char.get_direction(), Direction::down());
    test_char.set_direction(Direction::left());
    assert_eq!(test_char.get_direction(), Direction::left());
    test_char.set_direction(Direction::right());
    assert_eq!(test_char.get_direction(), Direction::right());
}

/// Tests if calculate_facing_position follows the set direction.
#[test]
fn test_calculate_facing_direction() {
    let mut test_char = CharacterData::new(Character::Rucman);
    test_char.set_position(Vector2(0, 0));
    assert_eq!(test_char.calculate_facing_position(), Vector2(1, 0));
    test_char.set_direction(Direction::up());
    assert_eq!(test_char.calculate_facing_position(), Vector2(0, -1));
    test_char.set_direction(Direction::down());
    assert_eq!(test_char.calculate_facing_position(), Vector2(0, 1));
    test_char.set_direction(Direction::left());
    assert_eq!(test_char.calculate_facing_position(), Vector2(-1, 0));
}

fn open_grid(n: usize) -> Grid {
    let rows: Vec<Vec<char>> = (0..n).map(|_| vec![' '; n]).collect();
    Grid::from_rows(&rows).unwrap()
}

#[test]
fn set_vulnerable_scatters_and_drops_route() {
    let mut grid = open_grid(5);
    let mut ghost = CharacterData::new(Character::Blinky);
    ghost.set_position(Vector2(0, 0));
    ghost.set_chase_mode();
    ghost.ghost_move(&mut grid, Vector2(4, 4), Direction::right());
    assert!(!ghost.get_nav_path().is_empty());
    ghost.set_vulnerable();
    assert_eq!(ghost.get_mode(), GhostMode::Scatter);
    assert_eq!(ghost.get_vulnerability(), Vulnerability::Vulnerable);
    assert!(ghost.get_nav_path().is_empty());
    ghost.set_vulnerable();
    assert_eq!((ghost.get_mode(), ghost.get_vulnerability()), (GhostMode::Scatter, Vulnerability::Vulnerable));
}

#[test]
fn set_invulnerable_chases_and_drops_route() {
    let mut grid = open_grid(5);
    let mut ghost = CharacterData::new(Character::Pinky);
    ghost.set_position(Vector2(4, 4));
    ghost.ghost_move(&mut grid, Vector2(0, 0), Direction::left());
    ghost.set_invulnerable();
    assert_eq!(ghost.get_mode(), GhostMode::Chase);
    assert_eq!(ghost.get_vulnerability(), Vulnerability::Invulnerable);
    assert!(ghost.get_nav_path().is_empty());
}

#[test]
fn toggles_flip_mode_and_vulnerability() {
    let mut ghost = CharacterData::new(Character::Inky);
    ghost.toggle_ghost_mode();
    assert_eq!(ghost.get_mode(), GhostMode::Chase);
    ghost.toggle_ghost_mode();
    assert_eq!(ghost.get_mode(), GhostMode::Scatter);
    ghost.toggle_vulnerability();
    assert_eq!((ghost.get_mode(), ghost.get_vulnerability()), (GhostMode::Scatter, Vulnerability::Vulnerable));
    ghost.toggle_vulnerability();
    assert_eq!((ghost.get_mode(), ghost.get_vulnerability()), (GhostMode::Chase, Vulnerability::Invulnerable));
}

#[test]
fn direct_pursuer_closes_in_one_step_per_tick() {
    let mut grid = open_grid(5);
    let hunter = Vector2(4, 4);
    let mut ghost = CharacterData::new(Character::Blinky);
    ghost.set_position(Vector2(0, 0));
    ghost.set_chase_mode();
    let path = rucman::a_star::a_star(&grid, Vector2(0, 0), hunter, true).unwrap();
    assert_eq!(path.len(), 8);
    let mut dist = Vector2::side_distance(ghost.get_position(), hunter);
    assert_eq!(dist, 8);
    while dist > 1 {
        ghost.ghost_move(&mut grid, hunter, Direction::right());
        let now = Vector2::side_distance(ghost.get_position(), hunter);
        assert_eq!(now, dist - 1);
        dist = now;
    }
    assert_eq!(dist, 1);
}

#[test]
fn ambusher_near_the_hunter_targets_the_hunter() {
    let mut grid = open_grid(5);
    let mut ghost = CharacterData::new(Character::Inky);
    ghost.set_position(Vector2(2, 2));
    ghost.set_chase_mode();
    ghost.ghost_move(&mut grid, Vector2(3, 3), Direction::up());
    assert_eq!(ghost.get_nav_path()[0], Vector2(3, 3));
    assert_eq!(Vector2::side_distance(ghost.get_position(), Vector2(2, 2)), 1);
}

#[test]
fn ambusher_far_from_the_hunter_targets_the_cell_behind() {
    let mut grid = open_grid(5);
    let mut ghost = CharacterData::new(Character::Inky);
    ghost.set_position(Vector2(0, 0));
    ghost.set_chase_mode();
    ghost.ghost_move(&mut grid, Vector2(3, 3), Direction::up());
    assert_eq!(ghost.get_nav_path()[0], Vector2(3, 4));
}

#[test]
fn cutoff_targets_two_ahead_then_one_ahead_then_the_hunter() {
    let mut grid = open_grid(5);
    let mut ghost = CharacterData::new(Character::Pinky);
    ghost.set_position(Vector2(0, 4));
    ghost.set_chase_mode();
    ghost.ghost_move(&mut grid, Vector2(2, 2), Direction::up());
    assert_eq!(ghost.get_nav_path()[0], Vector2(2, 0));

    let mut ghost = CharacterData::new(Character::Pinky);
    ghost.set_position(Vector2(0, 4));
    ghost.set_chase_mode();
    ghost.ghost_move(&mut grid, Vector2(2, 1), Direction::up());
    assert_eq!(ghost.get_nav_path()[0], Vector2(2, 0));

    let mut ghost = CharacterData::new(Character::Pinky);
    ghost.set_position(Vector2(0, 4));
    ghost.set_chase_mode();
    ghost.ghost_move(&mut grid, Vector2(2, 0), Direction::up());
    assert_eq!(ghost.get_nav_path()[0], Vector2(2, 0));
    assert_eq!(ghost.get_nav_path().len(), 5);
}

#[test]
fn wanderer_paths_to_the_next_open_position() {
    let mut grid = open_grid(3);
    let n = grid.open_space_count();
    assert_eq!(n, 9);
    let mut ghost = CharacterData::new(Character::Clyde);
    ghost.set_position(Vector2(1, 1));
    ghost.set_chase_mode();
    ghost.ghost_move(&mut grid, Vector2(0, 0), Direction::left());
    // Handing out a full cycle more ends on the position the ghost drew.
    let mut drawn = Vector2(-1, -1);
    for _ in 0..n {
        drawn = grid.get_random_position();
    }
    if drawn == Vector2(1, 1) {
        assert!(ghost.get_nav_path().is_empty());
        assert_eq!(ghost.get_position(), Vector2(1, 1));
    } else {
        let route = ghost.get_nav_path();
        let goal = if route.is_empty() { ghost.get_position() } else { route[0] };
        assert_eq!(goal, drawn);
    }
}

#[test]
fn scatter_reaches_the_corner_then_chases() {
    let mut grid = open_grid(5);
    let mut ghost = CharacterData::new(Character::Pinky);
    ghost.set_position(Vector2(3, 1));
    assert_eq!(ghost.get_mode(), GhostMode::Scatter);
    ghost.ghost_move(&mut grid, Vector2(4, 4), Direction::right());
    assert_eq!(ghost.get_position(), Vector2(2, 1));
    assert_eq!(ghost.get_mode(), GhostMode::Scatter);
    ghost.ghost_move(&mut grid, Vector2(4, 4), Direction::right());
    assert_eq!(ghost.get_position(), Vector2(1, 1));
    assert_eq!(ghost.get_mode(), GhostMode::Chase);
    assert!(ghost.get_nav_path().is_empty());
}

#[test]
fn stale_long_route_is_kept_while_far() {
    let rows: Vec<Vec<char>> = (0..12).map(|_| vec![' '; 12]).collect();
    let mut grid = Grid::from_rows(&rows).unwrap();
    let mut ghost = CharacterData::new(Character::Blinky);
    ghost.set_position(Vector2(0, 0));
    ghost.set_chase_mode();
    ghost.ghost_move(&mut grid, Vector2(11, 11), Direction::right());
    let goal = ghost.get_nav_path()[0];
    assert_eq!(goal, Vector2(11, 11));
    // The hunter moves, but the route stays long and the hunter far.
    ghost.ghost_move(&mut grid, Vector2(11, 10), Direction::up());
    assert_eq!(ghost.get_nav_path()[0], Vector2(11, 11));
}

#[test]
fn walled_in_ghost_stalls() {
    let rows: Vec<Vec<char>> = vec![
        "\u{2588}\u{2588}\u{2588}\u{2588}\u{2588}".chars().collect(),
        "\u{2588} \u{2588} \u{2588}".chars().collect(),
        "\u{2588}\u{2588}\u{2588}\u{2588}\u{2588}".chars().collect(),
    ];
    let mut grid = Grid::from_rows(&rows).unwrap();
    let mut ghost = CharacterData::new(Character::Blinky);
    ghost.set_position(Vector2(1, 1));
    ghost.set_chase_mode();
    ghost.ghost_move(&mut grid, Vector2(3, 1), Direction::right());
    assert_eq!(ghost.get_position(), Vector2(1, 1));
    assert!(ghost.get_nav_path().is_empty());
}

#[test]
fn turning_into_a_wall_is_refused() {
    let grid = Grid::new();
    let mut rucman = CharacterData::new(Character::Rucman);
    rucman.set_direction_if_valid(Direction::up(), &grid);
    assert_eq!(rucman.get_direction(), Direction::right());
    rucman.set_direction_if_valid(Direction::left(), &grid);
    assert_eq!(rucman.get_direction(), Direction::left());
    rucman.rucman_move(&grid);
    assert_eq!(rucman.get_position(), Vector2(12, 20));
}

#[test]
fn symbols_show_vulnerability() {
    let mut ghost = CharacterData::new(Character::Inky);
    assert_eq!(ghost.symbol(), 'I');
    ghost.set_vulnerable();
    assert_eq!(ghost.symbol(), 'i');
    assert_eq!(CharacterData::new(Character::Rucman).symbol(), 'R');
    assert_eq!(Character::Clyde.letter(), 'C');
    assert_eq!(Character::Blinky.name(), "Blinky");
}
