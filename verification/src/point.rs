use vstd::prelude::*;
use rand::Rng;

verus! {

/// A 2D coordinate on the board.
#[derive(Clone, Copy, Debug, PartialEq, Eq, Structural)]
pub struct Point {
    pub x: usize,
    pub y: usize,
}

impl Point {
    pub fn new(x: usize, y: usize) -> (p: Self)
        ensures
            p.x == x,
            p.y == y,
    {
        Self { x, y }
    }

    /// The neighbor candidate at the given offset, or nothing where the
    /// shifted coordinate would leave `usize` (no wraparound, no clamping).
    pub open spec fn neighbor_candidate(self, dx: int, dy: int) -> Seq<Point> {
        if 0 <= self.x + dx <= usize::MAX && 0 <= self.y + dy <= usize::MAX {
            seq![(Point { x: (self.x + dx) as usize, y: (self.y + dy) as usize })]
        } else {
            Seq::empty()
        }
    }

    /// The up-to-8 surrounding positions, in row-major offset order.
    /// Candidates whose coordinate would underflow are dropped; callers
    /// discard candidates at or beyond the board's width or height.
    pub open spec fn spec_neighbors(self) -> Seq<Point> {
        self.neighbor_candidate(-1, -1) + self.neighbor_candidate(-1, 0)
            + self.neighbor_candidate(-1, 1) + self.neighbor_candidate(0, -1)
            + self.neighbor_candidate(0, 1) + self.neighbor_candidate(1, -1)
            + self.neighbor_candidate(1, 0) + self.neighbor_candidate(1, 1)
    }

    /// The surrounding positions, excluding this one, as `spec_neighbors`
    /// lays them out.
    pub fn neighbors(&self) -> (r: Vec<Point>)
        ensures
            r@ == self.spec_neighbors(),
    {
        let x = self.x;
        let y = self.y;
        let mut result: Vec<Point> = Vec::new();
        if x > 0 {
            if y > 0 {
                result.push(Point { x: x - 1, y: y - 1 });
            }
            result.push(Point { x: x - 1, y });
            if y < usize::MAX {
                result.push(Point { x: x - 1, y: y + 1 });
            }
        }
        if y > 0 {
            result.push(Point { x, y: y - 1 });
        }
        if y < usize::MAX {
            result.push(Point { x, y: y + 1 });
        }
        if x < usize::MAX {
            if y > 0 {
                result.push(Point { x: x + 1, y: y - 1 });
            }
            result.push(Point { x: x + 1, y });
            if y < usize::MAX {
                result.push(Point { x: x + 1, y: y + 1 });
            }
        }
        proof {
            assert(result@ =~= self.spec_neighbors());
        }
        result
    }

    /// Draw a position uniformly at random with `x < x_bound` and
    /// `y < y_bound`, for mine placement.
    pub fn random(x_bound: usize, y_bound: usize) -> (p: Self)
        requires
            x_bound > 0,
            y_bound > 0,
        ensures
            p.x < x_bound,
            p.y < y_bound,
    {
        Self { x: rand_below(x_bound), y: rand_below(y_bound) }
    }
}

/// Relies on rand::Rng::gen_range over `0..bound` (on the generator that
/// rand::thread_rng returns): the sample lies in the given range, which must
/// not be empty.
#[verifier::external_body]
pub(crate) fn rand_below(bound: usize) -> (r: usize)
    requires
        bound > 0,
    ensures
        r < bound,
{
    rand::thread_rng().gen_range(0..bound)
}

} // verus!
