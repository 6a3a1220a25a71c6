use crate::geom::{CardinalDirection, Coord};
use vstd::prelude::*;

verus! {

/// The sequence of cardinal steps that the line generator yields for a
/// displacement of (`dx`, `dy`). It is a function of the displacement alone.
pub uninterp spec fn cardinal_line_steps(dx: int, dy: int) -> Seq<CardinalDirection>;

pub open spec fn spec_abs(v: int) -> int {
    if v < 0 {
        -v
    } else {
        v
    }
}

/// Relies on line_2d::CardinalStepIter: iterating it from a non-zero delta
/// yields |dx| + |dy| + 1 cardinal steps, a function of the delta alone.
/// It panics on a zero delta, and |dx|, |dy| overflow on the smallest i32,
/// so the contract keeps both out.
#[verifier::external_body]
fn line_cardinal_steps(dx: i32, dy: i32) -> (r: Vec<CardinalDirection>)
    requires
        dx != 0 || dy != 0,
        dx != i32::MIN,
        dy != i32::MIN,
    ensures
        r@ == cardinal_line_steps(dx as int, dy as int),
        r@.len() == spec_abs(dx as int) + spec_abs(dy as int) + 1,
{
    let delta = line_2d::Coord::new(dx, dy);
    line_2d::CardinalStepIter::new(delta)
        .map(|d| match d {
            line_2d::Direction::North => CardinalDirection::North,
            line_2d::Direction::East => CardinalDirection::East,
            line_2d::Direction::South => CardinalDirection::South,
            line_2d::Direction::West => CardinalDirection::West,
            // CardinalStepIter only ever yields the four cardinal
            // directions; the diagonals are mapped to a component to keep
            // the match total.
            line_2d::Direction::NorthEast => CardinalDirection::East,
            line_2d::Direction::SouthEast => CardinalDirection::East,
            line_2d::Direction::SouthWest => CardinalDirection::West,
            line_2d::Direction::NorthWest => CardinalDirection::West,
        })
        .collect()
}

/// The precomputed remaining path of a projectile: the cardinal steps from
/// its origin toward its target, consumed one per world tick.
#[derive(Debug)]
pub struct Trajectory {
    steps: Vec<CardinalDirection>,
    cursor: usize,
}

impl Trajectory {
    /// The steps not yet consumed.
    pub closed spec fn remaining(self) -> Seq<CardinalDirection> {
        self.steps@.skip(self.cursor as int)
    }

    #[verifier::type_invariant]
    closed spec fn type_inv(self) -> bool {
        self.cursor <= self.steps@.len()
    }

    /// Computes the step sequence from `origin` toward `target` once, at
    /// spawn time.
    pub fn new(origin: Coord, target: Coord) -> (r: Trajectory)
        requires
            origin.x >= 0,
            origin.y >= 0,
            target.x >= 0,
            target.y >= 0,
            origin != target,
        ensures
            r.remaining() == cardinal_line_steps(
                target.x - origin.x,
                target.y - origin.y,
            ),
            r.remaining().len() == spec_abs(target.x - origin.x) + spec_abs(target.y - origin.y)
                + 1,
    {
        let dx = target.x - origin.x;
        let dy = target.y - origin.y;
        let steps = line_cardinal_steps(dx, dy);
        let r = Trajectory { steps, cursor: 0 };
        proof {
            assert(r.remaining() =~= r.steps@);
        }
        r
    }

    /// Consumes and returns the next step, or `None` if the trajectory is
    /// exhausted.
    pub fn next(&mut self) -> (r: Option<CardinalDirection>)
        ensures
            old(self).remaining().len() == 0 ==> r is None && *final(self) == *old(self),
            old(self).remaining().len() > 0 ==> r == Some(old(self).remaining()[0])
                && final(self).remaining() == old(self).remaining().skip(1),
    {
        proof {
            use_type_invariant(&*self);
        }
        if self.cursor < self.steps.len() {
            let d = self.steps[self.cursor];
            self.cursor = self.cursor + 1;
            proof {
                assert(self.remaining() =~= old(self).remaining().skip(1));
            }
            Some(d)
        } else {
            None
        }
    }

}

} // verus!
