use vstd::prelude::*;

use crate::point::Vector2;

verus! {

/// A direction an entity can face on the grid, carrying its unit offset.
#[derive(Debug, PartialEq, Eq, Structural, Clone, Copy)]
pub enum Direction {
    Up(Vector2),
    Down(Vector2),
    Left(Vector2),
    Right(Vector2),
}

impl Direction {
    /// The offset that the direction carries.
    pub open spec fn offset(self) -> Vector2 {
        match self {
            Direction::Up(v) => v,
            Direction::Down(v) => v,
            Direction::Left(v) => v,
            Direction::Right(v) => v,
        }
    }

    /// A well-formed direction carries the unit offset that its name says.
    pub open spec fn wf(self) -> bool {
        match self {
            Direction::Up(v) => v == Vector2(0i32, -1i32),
            Direction::Down(v) => v == Vector2(0i32, 1i32),
            Direction::Left(v) => v == Vector2(-1i32, 0i32),
            Direction::Right(v) => v == Vector2(1i32, 0i32),
        }
    }

    /// The offset that the direction carries.
    pub fn delta(&self) -> (r: Vector2)
        ensures
            r == self.offset(),
    {
        match *self {
            Direction::Up(v) | Direction::Down(v) | Direction::Left(v) | Direction::Right(v) => v,
        }
    }

    /// Returns a Direction with the Vector2 values of 0, -1.
    pub fn up() -> (r: Self)
        ensures
            r == Direction::Up(Vector2(0i32, -1i32)),
            r.wf(),
    {
        Self::Up(Vector2(0i32, -1i32))
    }

    /// Returns a Direction with the Vector2 values of 0, 1.
    pub fn down() -> (r: Self)
        ensures
            r == Direction::Down(Vector2(0i32, 1i32)),
            r.wf(),
    {
        Self::Down(Vector2(0i32, 1i32))
    }

    /// Returns a Direction with the Vector2 values of -1, 0.
    pub fn left() -> (r: Self)
        ensures
            r == Direction::Left(Vector2(-1i32, 0i32)),
            r.wf(),
    {
        Self::Left(Vector2(-1i32, 0i32))
    }

    /// Returns a Direction with the Vector2 values of 1, 0.
    pub fn right() -> (r: Self)
        ensures
            r == Direction::Right(Vector2(1i32, 0i32)),
            r.wf(),
    {
        Self::Right(Vector2(1i32, 0i32))
    }

    /// The four directions, in the order up, down, left, right.
    pub fn directions() -> (r: Vec<Self>)
        ensures
            r@ == seq![Direction::up_spec(), Direction::down_spec(), Direction::left_spec(), Direction::right_spec()],
    {
        vec![Direction::up(), Direction::down(), Direction::left(), Direction::right()]
    }

    pub open spec fn up_spec() -> Self {
        Direction::Up(Vector2(0i32, -1i32))
    }

    pub open spec fn down_spec() -> Self {
        Direction::Down(Vector2(0i32, 1i32))
    }

    pub open spec fn left_spec() -> Self {
        Direction::Left(Vector2(-1i32, 0i32))
    }

    pub open spec fn right_spec() -> Self {
        Direction::Right(Vector2(1i32, 0i32))
    }
}

} // verus!
