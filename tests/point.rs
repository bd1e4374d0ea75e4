use rucman::direction::Direction;
use rucman::point::Vector2;

#[test]
fn test_add() {
    assert_eq!(Vector2(0, 0) + Vector2(1, 1), Vector2(1, 1));
    assert_eq!(Vector2(1, 1) + Vector2(0, 0), Vector2(1, 1));
    assert_eq!(Vector2(0, 0) + Vector2(-1, -1), Vector2(-1, -1));
    assert_eq!(Vector2(-1, -1) + Vector2(0, 0), Vector2(-1, -1));
    assert_eq!(Vector2(1, 1) + Vector2(-1, -1), Vector2(0, 0));
    assert_eq!(Vector2(-1, -1) + Vector2(1, 1), Vector2(0, 0));
}

#[test]
fn test_sub() {
    assert_eq!(Vector2(0, 0) - Vector2(1, 1), Vector2(-1, -1));
    assert_eq!(Vector2(1, 1) - Vector2(0, 0), Vector2(1, 1));
    assert_eq!(Vector2(0, 0) - Vector2(-1, -1), Vector2(1, 1));
    assert_eq!(Vector2(-1, -1) - Vector2(0, 0), Vector2(-1, -1));
    assert_eq!(Vector2(1, 1) - Vector2(-1, -1), Vector2(2, 2));
    assert_eq!(Vector2(-1, -1) - Vector2(1, 1), Vector2(-2, -2));
}

#[test]
fn test_forward() {
    let mut origin = Vector2(0, 0);
    origin = origin.forward(Direction::up());
    assert_eq!(origin, Vector2(0, -1));
    origin = origin.forward(Direction::left());
    assert_eq!(origin, Vector2(-1, -1));
    origin = origin.forward(Direction::down());
    assert_eq!(origin, Vector2(-1, 0));
    origin = origin.forward(Direction::right());
    assert_eq!(origin, Vector2(0, 0));
    origin = origin.forward(Direction::up()).forward(Direction::up());
    assert_eq!(origin, Vector2(0, -2));
}

#[test]
fn test_back() {
    let mut origin = Vector2(0, 0);
    origin = origin.back(Direction::up());
    assert_eq!(origin, Vector2(0, 1));
    origin = origin.back(Direction::left());
    assert_eq!(origin, Vector2(1, 1));
    origin = origin.back(Direction::down());
    assert_eq!(origin, Vector2(1, 0));
    origin = origin.back(Direction::right());
    assert_eq!(origin, Vector2(0, 0));
    origin = origin.back(Direction::up()).back(Direction::up());
    assert_eq!(origin, Vector2(0, 2));
}

#[test]
fn test_side_dist() {
    assert_eq!(Vector2::side_distance(Vector2(0, 0), Vector2(1, 1)), 2);
    assert_eq!(Vector2::side_distance(Vector2(1, 1), Vector2(0, 0)), 2);
    assert_eq!(Vector2::side_distance(Vector2(0, 0), Vector2(-1, -1)), 2);
    assert_eq!(Vector2::side_distance(Vector2(-1, -1), Vector2(0, 0)), 2);
    assert_eq!(Vector2::side_distance(Vector2(-2, 1), Vector2(2, 1)), 4);
    assert_eq!(Vector2::side_distance(Vector2(2, -1), Vector2(2, 1)), 2);
}

#[test]
fn distance_squared_matches_linear_distance() {
    assert_eq!(Vector2::distance_squared(Vector2(0, 0), Vector2(1, 1)), 2);
    assert_eq!(Vector2::distance_squared(Vector2(-2, 1), Vector2(2, 1)), 16);
    assert_eq!(Vector2::distance_squared(Vector2(2, -1), Vector2(2, 1)), 4);
    assert_eq!(
        Vector2::distance_squared(Vector2(i32::MIN, i32::MIN), Vector2(i32::MAX, i32::MAX)),
        2 * (u32::MAX as i128) * (u32::MAX as i128)
    );
}

#[test]
fn side_distance_of_far_points() {
    assert_eq!(Vector2::side_distance(Vector2(0, 0), Vector2(i32::MAX, 0)), i32::MAX);
    assert_eq!(Vector2::side_distance(Vector2(3, 7), Vector2(3, 7)), 0);
}

#[test]
fn directions_carry_unit_offsets_in_order() {
    let dirs = Direction::directions();
    assert_eq!(dirs, vec![Direction::up(), Direction::down(), Direction::left(), Direction::right()]);
    assert_eq!(Direction::up().delta(), Vector2(0, -1));
    assert_eq!(Direction::down().delta(), Vector2(0, 1));
    assert_eq!(Direction::left().delta(), Vector2(-1, 0));
    assert_eq!(Direction::right().delta(), Vector2(1, 0));
}
