use rucman::character::{Character, CharacterData, GhostMode, Vulnerability};
use rucman::game::{check_collision, reset_characters, reset_game};
use rucman::grid::Grid;
use rucman::managers::NumberManager;
use rucman::point::Vector2;

fn ghosts() -> Vec<CharacterData> {
    vec![
        CharacterData::new(Character::Inky),
        CharacterData::new(Character::Blinky),
        CharacterData::new(Character::Pinky),
        CharacterData::new(Character::Clyde),
    ]
}

#[test]
fn vulnerable_ghost_is_eaten_and_sent_home() {
    let mut rucman = CharacterData::new(Character::Rucman);
    let mut gs = ghosts();
    let mut n = NumberManager::new();
    rucman.set_position(Vector2(6, 4));
    gs[2].set_vulnerable();
    gs[2].set_position(Vector2(6, 4));
    assert_eq!(check_collision(&mut rucman, &mut gs, &mut n), None);
    assert_eq!(n.get_score(), 200);
    assert_eq!(gs[2].get_position(), Vector2(13, 11));
    assert_eq!(gs[2].get_vulnerability(), Vulnerability::Invulnerable);
    assert_eq!(gs[2].get_mode(), GhostMode::Scatter);
}

#[test]
fn invulnerable_ghost_costs_a_life() {
    let mut rucman = CharacterData::new(Character::Rucman);
    let mut gs = ghosts();
    let mut n = NumberManager::new();
    rucman.set_position(Vector2(6, 4));
    gs[0].set_vulnerable();
    gs[0].set_position(Vector2(6, 4));
    gs[1].set_position(Vector2(6, 4));
    gs[3].set_vulnerable();
    gs[3].set_position(Vector2(6, 4));
    assert_eq!(check_collision(&mut rucman, &mut gs, &mut n), Some(Character::Blinky));
    assert_eq!(n.get_lives(), 2);
    assert_eq!(n.get_score(), 50);
    assert_eq!(gs[0].get_position(), Vector2(12, 11));
    assert_eq!(gs[3].get_position(), Vector2(6, 4));
}

#[test]
fn resets_put_everyone_back() {
    let mut grid = Grid::new();
    let _ = grid.eat(&Vector2(1, 1));
    let mut rucman = CharacterData::new(Character::Rucman);
    let mut gs = ghosts();
    rucman.set_position(Vector2(1, 1));
    gs[1].set_vulnerable();
    gs[1].set_position(Vector2(2, 2));
    reset_characters(&mut rucman, &mut gs);
    assert_eq!(rucman.get_position(), Vector2(13, 20));
    assert_eq!(gs[1].get_position(), Vector2(13, 9));
    assert_eq!(gs[1].get_vulnerability(), Vulnerability::Invulnerable);
    reset_game(&mut grid, &mut rucman, &mut gs);
    assert_eq!(grid.pellets_left(), 234);
}
