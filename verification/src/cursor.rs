use vstd::prelude::*;
use crate::board::Board;
use crate::point::Point;

verus! {

/// The player's cursor: a position kept inside the board, bounds taken
/// from the board at construction, and a lock that freezes it once the
/// game is decided.
pub struct Cursor {
    pub position: Point,
    pub max: Point,
    pub locked: bool,
}

/// A coordinate clamped to the closed range from 0 to `hi`.
pub open spec fn clamp_to(v: int, hi: int) -> int {
    if v < 0 {
        0
    } else if v > hi {
        hi
    } else {
        v
    }
}

impl Cursor {
    /// The cursor's range is never empty: both bounds are at least 1.
    pub open spec fn wf(self) -> bool {
        1 <= self.max.x && 1 <= self.max.y
    }

    /// A cursor for the given board: top-left corner, unlocked, bounded by
    /// the board's dimensions.
    pub fn new(board: &Board) -> (c: Cursor)
        requires
            board.width >= 1,
            board.height >= 1,
        ensures
            c.wf(),
            c.position.x == 0,
            c.position.y == 0,
            c.max.x == board.width,
            c.max.y == board.height,
            !c.locked,
    {
        Cursor { position: Point::new(0, 0), max: Point::new(board.width, board.height), locked: false }
    }

    /// One coordinate moved by a signed delta and clamped to [0, hi].
    fn step(cur: usize, delta: i32, hi: usize) -> (r: usize)
        ensures
            r as int == clamp_to(cur + delta, hi as int),
    {
        if delta >= 0 {
            let d = delta as usize;
            if cur >= hi {
                hi
            } else if d >= hi - cur {
                hi
            } else {
                cur + d
            }
        } else {
            let d = (-(delta as i64)) as usize;
            if d >= cur {
                0
            } else {
                let v = cur - d;
                if v > hi {
                    hi
                } else {
                    v
                }
            }
        }
    }

    /// Move the cursor by the given deltas, clamped to the board; a locked
    /// cursor does not move.
    pub fn mut_move(&mut self, x: i32, y: i32)
        requires
            old(self).wf(),
        ensures
            final(self).wf(),
            final(self).max == old(self).max,
            final(self).locked == old(self).locked,
            old(self).locked ==> final(self).position == old(self).position,
            !old(self).locked ==> final(self).position.x as int == clamp_to(
                old(self).position.x + x,
                old(self).max.x - 1,
            ) && final(self).position.y as int == clamp_to(
                old(self).position.y + y,
                old(self).max.y - 1,
            ),
    {
        if !self.locked {
            self.position.x = Self::step(self.position.x, x, self.max.x - 1);
            self.position.y = Self::step(self.position.y, y, self.max.y - 1);
        }
    }

    /// Freeze the cursor in place.
    pub fn lock(&mut self)
        ensures
            final(self).position == old(self).position,
            final(self).max == old(self).max,
            final(self).locked,
    {
        self.locked = true;
    }

    /// Let the cursor move again.
    pub fn unlock(&mut self)
        ensures
            final(self).position == old(self).position,
            final(self).max == old(self).max,
            !final(self).locked,
    {
        self.locked = false;
    }
}

} // verus!
