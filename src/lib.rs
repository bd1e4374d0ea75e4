//! Pathfinding and pursuit engine for a maze chase: grid geometry, the maze
//! with its pickups, an A* search over it, and the per-pursuer state machine.

pub mod a_star;
pub mod character;
pub mod direction;
pub mod game;
pub mod grid;
pub mod managers;
pub mod point;
