use vstd::prelude::*;

verus! {

/// A position on the grid. Coordinates may be negative; only coordinates
/// within a grid's size are valid cells of that grid.
#[derive(Clone, Copy, PartialEq, Eq, Structural, Debug)]
pub struct Coord {
    pub x: i32,
    pub y: i32,
}

/// The dimensions of a grid.
#[derive(Clone, Copy, PartialEq, Eq, Structural, Debug)]
pub struct Size {
    pub width: u32,
    pub height: u32,
}

impl Coord {
    pub open spec fn spec_is_valid(self, size: Size) -> bool {
        0 <= self.x < size.width && 0 <= self.y < size.height
    }

    /// Whether the coordinate lies inside a grid of the given size.
    pub fn is_valid(self, size: Size) -> (r: bool)
        ensures
            r == self.spec_is_valid(size),
    {
        self.x >= 0 && self.y >= 0 && (self.x as i64) < (size.width as i64) && (self.y as i64)
            < (size.height as i64)
    }
}

/// One of the four cardinal step directions. North decreases `y`, South
/// increases it; West decreases `x`, East increases it.
#[derive(Clone, Copy, PartialEq, Eq, Structural, Debug)]
pub enum CardinalDirection {
    North,
    East,
    South,
    West,
}

impl CardinalDirection {
    pub open spec fn spec_dx(self) -> int {
        match self {
            CardinalDirection::East => 1,
            CardinalDirection::West => -1,
            _ => 0,
        }
    }

    pub open spec fn spec_dy(self) -> int {
        match self {
            CardinalDirection::South => 1,
            CardinalDirection::North => -1,
            _ => 0,
        }
    }
}

/// The coordinate one step in direction `d` from `c`, as unbounded integers.
pub open spec fn spec_step(c: Coord, d: CardinalDirection) -> (int, int) {
    (c.x + d.spec_dx(), c.y + d.spec_dy())
}

/// The cell one step in direction `d` from `c`, if it lies inside a grid of
/// size `size`; `None` if the step would leave the grid.
pub fn step_in_bounds(c: Coord, d: CardinalDirection, size: Size) -> (r: Option<Coord>)
    requires
        size.width <= i32::MAX,
        size.height <= i32::MAX,
    ensures
        match r {
            Some(nc) => {
                &&& (nc.x as int, nc.y as int) == spec_step(c, d)
                &&& nc.spec_is_valid(size)
            },
            None => {
                let (nx, ny) = spec_step(c, d);
                !(0 <= nx < size.width && 0 <= ny < size.height)
            },
        },
{
    let dx: i64 = match d {
        CardinalDirection::East => 1,
        CardinalDirection::West => -1,
        _ => 0,
    };
    let dy: i64 = match d {
        CardinalDirection::South => 1,
        CardinalDirection::North => -1,
        _ => 0,
    };
    let nx: i64 = c.x as i64 + dx;
    let ny: i64 = c.y as i64 + dy;
    if nx >= 0 && ny >= 0 && nx < size.width as i64 && ny < size.height as i64 {
        Some(Coord { x: nx as i32, y: ny as i32 })
    } else {
        None
    }
}

} // verus!
