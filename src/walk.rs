//! The integer midpoint walk that the interactive demo animates one step per
//! frame: it starts on the positive x axis and climbs the first octant.
use vstd::prelude::*;

verus! {

/// Magnitude bound under which a step cannot overflow.
pub const WALK_LIMIT: i64 = 0x10_0000;

/// Position of the walk and its running error term.
#[derive(Clone, Copy, Debug, PartialEq, Eq)]
pub struct MidpointWalk {
    pub x: i64,
    pub y: i64,
    pub err: i64,
}

impl MidpointWalk {
    /// The values are small enough for one more step.
    pub open spec fn in_range(self) -> bool {
        -WALK_LIMIT <= self.x <= WALK_LIMIT && -WALK_LIMIT <= self.y <= WALK_LIMIT && -WALK_LIMIT
            * WALK_LIMIT <= self.err <= WALK_LIMIT * WALK_LIMIT
    }

    /// The walk at `(radius, 0)` with no error.
    pub fn start(radius: i64) -> (w: MidpointWalk)
        ensures
            w.x == radius,
            w.y == 0,
            w.err == 0,
    {
        MidpointWalk { x: radius, y: 0, err: 0 }
    }

    /// The walk is still inside its octant.
    pub fn is_active(&self) -> (r: bool)
        ensures
            r == (self.x >= self.y),
    {
        self.x >= self.y
    }

    /// One step up; when the error says the point has left the circle, one
    /// step left as well.
    pub fn advance(&mut self)
        requires
            old(self).in_range(),
        ensures
            final(self).y == old(self).y + 1,
            ({
                let e = old(self).err + 1 + 2 * (old(self).y + 1);
                if 2 * (e - old(self).x) + 1 > 0 {
                    final(self).x == old(self).x - 1 && final(self).err == e + 1 - 2 * (old(
                        self,
                    ).x - 1)
                } else {
                    final(self).x == old(self).x && final(self).err == e
                }
            }),
    {
        self.y = self.y + 1;
        self.err = self.err + 1 + 2 * self.y;
        if 2 * (self.err - self.x) + 1 > 0 {
            self.x = self.x - 1;
            self.err = self.err + 1 - 2 * self.x;
        }
    }
}

} // verus!
