//! Integer points, axis-aligned boxes and the arena they live in.
//!
//! All coordinates are whole numbers of sub-units. A box is given by its
//! centre and its half extents; two boxes overlap when their interiors
//! intersect, so boxes that merely share an edge do not.

use vstd::prelude::*;

verus! {

/// A position or displacement on the integer grid.
#[derive(Clone, Copy, Debug, PartialEq, Eq, Structural)]
pub struct Point {
    pub x: i32,
    pub y: i32,
}

/// One of the four headings a character can face.
#[derive(Clone, Copy, Debug, PartialEq, Eq, Structural)]
pub enum Direction {
    Up,
    Down,
    Left,
    Right,
}

/// The fixed, axis-aligned playing field.
#[derive(Clone, Copy, Debug, PartialEq, Eq, Structural)]
pub struct Arena {
    pub min: Point,
    pub max: Point,
}

/// `v` limited to the closed interval from `lo` to `hi`.
pub open spec fn clamp_axis(v: int, lo: int, hi: int) -> int {
    if v < lo {
        lo
    } else if v > hi {
        hi
    } else {
        v
    }
}

/// The open intervals of half width `ha` around `a` and `hb` around `b` intersect.
pub open spec fn spans_overlap(a: int, ha: int, b: int, hb: int) -> bool {
    a - ha < b + hb && b - hb < a + ha
}

/// The interiors of the two boxes intersect.
pub open spec fn boxes_overlap(a: Point, a_half: Point, b: Point, b_half: Point) -> bool {
    spans_overlap(a.x as int, a_half.x as int, b.x as int, b_half.x as int) && spans_overlap(
        a.y as int,
        a_half.y as int,
        b.y as int,
        b_half.y as int,
    )
}

/// Exact box overlap test.
pub fn overlaps(a: Point, a_half: Point, b: Point, b_half: Point) -> (hit: bool)
    ensures
        hit == boxes_overlap(a, a_half, b, b_half),
{
    let ax: i64 = a.x as i64;
    let ay: i64 = a.y as i64;
    let bx: i64 = b.x as i64;
    let by: i64 = b.y as i64;
    let ahx: i64 = a_half.x as i64;
    let ahy: i64 = a_half.y as i64;
    let bhx: i64 = b_half.x as i64;
    let bhy: i64 = b_half.y as i64;
    ax - ahx < bx + bhx && bx - bhx < ax + ahx && ay - ahy < by + bhy && by - bhy < ay + ahy
}

impl Point {
    /// The point with the given coordinates.
    pub fn new(x: i32, y: i32) -> (p: Point)
        ensures
            p == (Point { x, y }),
    {
        Point { x, y }
    }
}

impl Direction {
    /// The horizontal component of the unit step in this direction.
    pub open spec fn dx(self) -> int {
        match self {
            Direction::Left => -1,
            Direction::Right => 1,
            _ => 0,
        }
    }

    /// The vertical component of the unit step in this direction.
    pub open spec fn dy(self) -> int {
        match self {
            Direction::Down => -1,
            Direction::Up => 1,
            _ => 0,
        }
    }

    /// The displacement of `magnitude` sub-units in this direction.
    pub open spec fn step(self, magnitude: u16) -> Point {
        Point { x: (self.dx() * magnitude) as i32, y: (self.dy() * magnitude) as i32 }
    }

    /// The displacement of `magnitude` sub-units in this direction.
    pub fn scaled(self, magnitude: u16) -> (p: Point)
        ensures
            p == self.step(magnitude),
            p.x == self.dx() * magnitude,
            p.y == self.dy() * magnitude,
    {
        let m: i32 = magnitude as i32;
        match self {
            Direction::Up => Point { x: 0, y: m },
            Direction::Down => Point { x: 0, y: -m },
            Direction::Left => Point { x: -m, y: 0 },
            Direction::Right => Point { x: m, y: 0 },
        }
    }
}

impl Arena {
    /// The bounds are ordered on both axes.
    pub open spec fn valid(self) -> bool {
        self.min.x <= self.max.x && self.min.y <= self.max.y
    }

    /// A box with these half extents fits between the bounds.
    pub open spec fn admits(self, half: Point) -> bool {
        &&& half.x >= 0
        &&& half.y >= 0
        &&& self.min.x + half.x <= self.max.x - half.x
        &&& self.min.y + half.y <= self.max.y - half.y
    }

    /// The box centred at `pos` lies within the bounds.
    pub open spec fn holds(self, pos: Point, half: Point) -> bool {
        &&& half.x >= 0
        &&& half.y >= 0
        &&& self.min.x + half.x <= pos.x <= self.max.x - half.x
        &&& self.min.y + half.y <= pos.y <= self.max.y - half.y
    }

    /// The box centred at `pos` reaches an edge of the arena.
    pub open spec fn at_edge(self, pos: Point, half: Point) -> bool {
        ||| pos.x - half.x <= self.min.x
        ||| pos.x + half.x >= self.max.x
        ||| pos.y - half.y <= self.min.y
        ||| pos.y + half.y >= self.max.y
    }

    /// The admissible centre nearest to `(x, y)` for a box with these half
    /// extents.
    pub open spec fn nearest(self, x: int, y: int, half: Point) -> Point {
        Point {
            x: clamp_axis(x, self.min.x + half.x, self.max.x - half.x) as i32,
            y: clamp_axis(y, self.min.y + half.y, self.max.y - half.y) as i32,
        }
    }

    /// Whether the bounds are ordered on both axes.
    pub fn is_valid(&self) -> (ok: bool)
        ensures
            ok == self.valid(),
    {
        self.min.x <= self.max.x && self.min.y <= self.max.y
    }

    /// Whether a box with these half extents fits between the bounds.
    pub fn can_admit(&self, half: Point) -> (ok: bool)
        ensures
            ok == self.admits(half),
    {
        half.x >= 0 && half.y >= 0 && self.min.x as i64 + half.x as i64 <= self.max.x as i64
            - half.x as i64 && self.min.y as i64 + half.y as i64 <= self.max.y as i64
            - half.y as i64
    }

    /// Whether the box centred at `pos` lies within the bounds.
    pub fn contains_box(&self, pos: Point, half: Point) -> (ok: bool)
        ensures
            ok == self.holds(pos, half),
    {
        half.x >= 0 && half.y >= 0 && self.min.x as i64 + half.x as i64 <= pos.x as i64
            && pos.x as i64 <= self.max.x as i64 - half.x as i64 && self.min.y as i64
            + half.y as i64 <= pos.y as i64 && pos.y as i64 <= self.max.y as i64 - half.y as i64
    }

    /// Whether the box centred at `pos` reaches an edge of the arena.
    pub fn touches_edge(&self, pos: Point, half: Point) -> (ok: bool)
        ensures
            ok == self.at_edge(pos, half),
    {
        pos.x as i64 - half.x as i64 <= self.min.x as i64 || pos.x as i64 + half.x as i64
            >= self.max.x as i64 || pos.y as i64 - half.y as i64 <= self.min.y as i64
            || pos.y as i64 + half.y as i64 >= self.max.y as i64
    }

    /// Clamps the centre `(x, y)` so that the box stays inside the arena.
    pub fn clamp(&self, x: i64, y: i64, half: Point) -> (p: Point)
        requires
            self.admits(half),
        ensures
            p == self.nearest(x as int, y as int, half),
            self.holds(p, half),
            p.x == clamp_axis(x as int, self.min.x + half.x, self.max.x - half.x),
            p.y == clamp_axis(y as int, self.min.y + half.y, self.max.y - half.y),
    {
        let lo_x: i64 = self.min.x as i64 + half.x as i64;
        let hi_x: i64 = self.max.x as i64 - half.x as i64;
        let lo_y: i64 = self.min.y as i64 + half.y as i64;
        let hi_y: i64 = self.max.y as i64 - half.y as i64;
        let cx: i64 = if x < lo_x {
            lo_x
        } else if x > hi_x {
            hi_x
        } else {
            x
        };
        let cy: i64 = if y < lo_y {
            lo_y
        } else if y > hi_y {
            hi_y
        } else {
            y
        };
        Point { x: cx as i32, y: cy as i32 }
    }
}

/// A clamped centre lies inside the arena, and a centre that already lies
/// inside is left where it is.
pub proof fn lemma_nearest(arena: Arena, x: int, y: int, half: Point)
    requires
        arena.admits(half),
    ensures
        arena.holds(arena.nearest(x, y, half), half),
        arena.min.x + half.x <= x <= arena.max.x - half.x && arena.min.y + half.y <= y
            <= arena.max.y - half.y ==> arena.nearest(x, y, half) == (Point {
            x: x as i32,
            y: y as i32,
        }),
{
}

} // verus!
