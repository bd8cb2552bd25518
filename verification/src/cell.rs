//! Cells of a grid, the four unit steps, and the distance that guides the search.

use vstd::prelude::*;

verus! {

/// A position on a grid: column `x`, row `y`, both counted from zero.
#[derive(Clone, Copy, Debug, PartialEq, Eq, Structural, Hash)]
pub struct Cell {
    pub x: i64,
    pub y: i64,
}

/// The distance between two integers.
pub open spec fn gap(a: int, b: int) -> nat {
    if a >= b {
        (a - b) as nat
    } else {
        (b - a) as nat
    }
}

/// Manhattan distance: the number of unit steps between two cells when nothing
/// is in the way.
pub open spec fn manhattan(a: Cell, b: Cell) -> nat {
    gap(a.x as int, b.x as int) + gap(a.y as int, b.y as int)
}

/// Two cells are adjacent when one unit step along one axis leads from one to
/// the other.
pub open spec fn adjacent(a: Cell, b: Cell) -> bool {
    manhattan(a, b) == 1
}

/// Number of directions in which a step can be taken.
pub const DIRECTIONS: u8 = 4;

impl Cell {
    pub fn new(x: i64, y: i64) -> (c: Cell)
        ensures
            c.x == x,
            c.y == y,
    {
        Cell { x, y }
    }

    /// Coordinates strictly inside the range of `i64`, so that a step in any
    /// direction stays representable.
    pub open spec fn interior(self) -> bool {
        &&& i64::MIN < self.x < i64::MAX
        &&& i64::MIN < self.y < i64::MAX
    }

    /// The cell one step away in direction `dir`.  Directions are tried in the
    /// fixed order down, right, up, left (`0` to `3`).
    pub open spec fn toward(self, dir: int) -> Cell {
        if dir == 0 {
            Cell { x: self.x, y: (self.y + 1) as i64 }
        } else if dir == 1 {
            Cell { x: (self.x + 1) as i64, y: self.y }
        } else if dir == 2 {
            Cell { x: self.x, y: (self.y - 1) as i64 }
        } else {
            Cell { x: (self.x - 1) as i64, y: self.y }
        }
    }

    /// Executable form of [`Cell::toward`].
    pub fn step(&self, dir: u8) -> (c: Cell)
        requires
            self.interior(),
            dir < DIRECTIONS,
        ensures
            c == self.toward(dir as int),
    {
        if dir == 0 {
            Cell { x: self.x, y: self.y + 1 }
        } else if dir == 1 {
            Cell { x: self.x + 1, y: self.y }
        } else if dir == 2 {
            Cell { x: self.x, y: self.y - 1 }
        } else {
            Cell { x: self.x - 1, y: self.y }
        }
    }
}

/// The estimate of remaining cost used by the search: the Manhattan distance
/// from `from` to `goal`.
pub fn heuristic(from: Cell, goal: Cell) -> (h: u64)
    requires
        manhattan(from, goal) <= u64::MAX,
    ensures
        h == manhattan(from, goal),
{
    let dx: i128 = from.x as i128 - goal.x as i128;
    let dy: i128 = from.y as i128 - goal.y as i128;
    let ax: i128 = if dx < 0 { -dx } else { dx };
    let ay: i128 = if dy < 0 { -dy } else { dy };
    (ax + ay) as u64
}

/// Every step leads to an adjacent cell.
pub proof fn lemma_toward_adjacent(c: Cell, dir: int)
    requires
        c.interior(),
        0 <= dir < 4,
    ensures
        adjacent(c, c.toward(dir)),
{
}

/// Every adjacent cell is reached by one of the four steps.
pub proof fn lemma_adjacent_toward(a: Cell, b: Cell) -> (dir: int)
    requires
        adjacent(a, b),
    ensures
        0 <= dir < 4,
        b == a.toward(dir),
{
    if b.y == a.y + 1 {
        0
    } else if b.x == a.x + 1 {
        1
    } else if b.y == a.y - 1 {
        2
    } else {
        3
    }
}

/// Triangle inequality of the distance.
pub proof fn lemma_manhattan_triangle(a: Cell, b: Cell, c: Cell)
    ensures
        manhattan(a, c) <= manhattan(a, b) + manhattan(b, c),
{
}

/// Consistency of the heuristic: across one step the estimate drops by at
/// most the cost of that step.
pub proof fn lemma_heuristic_consistent(a: Cell, b: Cell, goal: Cell)
    requires
        adjacent(a, b),
    ensures
        manhattan(a, goal) <= 1 + manhattan(b, goal),
{
    lemma_manhattan_triangle(a, b, goal);
}

} // verus!
