use vstd::prelude::*;

use crate::direction::Direction;

verus! {

/// Denotes an x, y pair. Increases in y go downwards on the grid.
#[derive(Debug, Clone, Copy, PartialEq, Eq, Structural, Hash)]
pub struct Vector2(pub i32, pub i32);

/// Absolute value of an integer.
pub open spec fn abs(x: int) -> int {
    if x < 0 {
        -x
    } else {
        x
    }
}

/// Manhattan distance between two positions.
pub open spec fn manhattan(a: Vector2, b: Vector2) -> int {
    abs(b.0 - a.0) + abs(b.1 - a.1)
}

/// Squared Euclidean distance between two positions.
pub open spec fn dist_squared(a: Vector2, b: Vector2) -> int {
    (b.0 - a.0) * (b.0 - a.0) + (b.1 - a.1) * (b.1 - a.1)
}

/// Whether a value fits in an `i32`.
pub open spec fn fits_i32(x: int) -> bool {
    i32::MIN <= x <= i32::MAX
}

/// The sum of two positions, when it has no overflow.
pub open spec fn plus(a: Vector2, b: Vector2) -> Vector2 {
    Vector2((a.0 + b.0) as i32, (a.1 + b.1) as i32)
}

/// The difference of two positions, when it has no overflow.
pub open spec fn minus(a: Vector2, b: Vector2) -> Vector2 {
    Vector2((a.0 - b.0) as i32, (a.1 - b.1) as i32)
}

/// Whether `a + b` can be computed without overflow.
pub open spec fn can_add(a: Vector2, b: Vector2) -> bool {
    fits_i32(a.0 + b.0) && fits_i32(a.1 + b.1)
}

/// Whether `a - b` can be computed without overflow.
pub open spec fn can_sub(a: Vector2, b: Vector2) -> bool {
    fits_i32(a.0 - b.0) && fits_i32(a.1 - b.1)
}

impl std::ops::Add for Vector2 {
    type Output = Self;

    fn add(self, rhs: Self) -> (r: Self::Output) {
        Vector2(self.0 + rhs.0, self.1 + rhs.1)
    }
}

/// `a + b` adds component-wise and asks that no component overflows.
impl vstd::std_specs::ops::AddSpecImpl for Vector2 {
    open spec fn obeys_add_spec() -> bool {
        true
    }

    open spec fn add_req(self, rhs: Self) -> bool {
        can_add(self, rhs)
    }

    open spec fn add_spec(self, rhs: Self) -> Self {
        plus(self, rhs)
    }
}

impl std::ops::Sub for Vector2 {
    type Output = Self;

    fn sub(self, rhs: Self) -> (r: Self::Output) {
        Vector2(self.0 - rhs.0, self.1 - rhs.1)
    }
}

/// `a - b` subtracts component-wise and asks that no component overflows.
impl vstd::std_specs::ops::SubSpecImpl for Vector2 {
    open spec fn obeys_sub_spec() -> bool {
        true
    }

    open spec fn sub_req(self, rhs: Self) -> bool {
        can_sub(self, rhs)
    }

    open spec fn sub_spec(self, rhs: Self) -> Self {
        minus(self, rhs)
    }
}

impl Vector2 {
    /// Squared linear distance between the start and end vectors. Comparing it
    /// with a squared radius decides whether two positions are within that radius.
    pub fn distance_squared(start: Vector2, end: Vector2) -> (r: i128)
        ensures
            r == dist_squared(start, end),
    {
        let dx: i128 = end.0 as i128 - start.0 as i128;
        let dy: i128 = end.1 as i128 - start.1 as i128;
        assert(dx * dx <= 0x1_0000_0000_0000_0000) by (nonlinear_arith)
            requires -0x1_0000_0000 <= dx <= 0x1_0000_0000;
        assert(dy * dy <= 0x1_0000_0000_0000_0000) by (nonlinear_arith)
            requires -0x1_0000_0000 <= dy <= 0x1_0000_0000;
        assert(dx * dx >= 0 && dy * dy >= 0) by (nonlinear_arith);
        dx * dx + dy * dy
    }

    /// A heuristic that measures the distance between the start and end vectors
    /// by adding the differences of x and of y.
    pub fn side_distance(start: Vector2, end: Vector2) -> (r: i32)
        requires
            manhattan(start, end) <= i32::MAX,
        ensures
            r == manhattan(start, end),
    {
        let dx: i64 = end.0 as i64 - start.0 as i64;
        let dy: i64 = end.1 as i64 - start.1 as i64;
        let ax: i64 = if dx < 0 { -dx } else { dx };
        let ay: i64 = if dy < 0 { -dy } else { dy };
        (ax + ay) as i32
    }

    /// The point one step forward of this vector along the provided direction.
    pub fn forward(&self, direction: Direction) -> (r: Vector2)
        requires
            can_add(*self, direction.offset()),
        ensures
            r == plus(*self, direction.offset()),
    {
        match direction {
            Direction::Up(pos) | Direction::Down(pos) | Direction::Left(pos) | Direction::Right(
                pos,
            ) => pos + *self,
        }
    }

    /// The point one step behind this vector relative to the provided direction.
    pub fn back(&self, direction: Direction) -> (r: Vector2)
        requires
            can_sub(*self, direction.offset()),
        ensures
            r == minus(*self, direction.offset()),
    {
        match direction {
            Direction::Up(pos) | Direction::Down(pos) | Direction::Left(pos) | Direction::Right(
                pos,
            ) => *self - pos,
        }
    }
}

} // verus!
