//! Rectangles of the canvas.
use vstd::prelude::*;

use crate::layers::Rect;

verus! {

/// A rectangle of the canvas. The right and the bottom edge are outside of it.
#[derive(Clone, Copy, Debug, PartialEq, Eq, Structural)]
pub struct Bounds {
    pub x0: i32,
    pub y0: i32,
    pub x1: i32,
    pub y1: i32,
}

/// The smaller of two coordinates.
pub open spec fn lower(a: i32, b: i32) -> i32 {
    if a <= b {
        a
    } else {
        b
    }
}

/// The larger of two coordinates.
pub open spec fn upper(a: i32, b: i32) -> i32 {
    if a >= b {
        a
    } else {
        b
    }
}

/// The smaller of two coordinates.
fn lower_of(a: i32, b: i32) -> (r: i32)
    ensures
        r == lower(a, b),
{
    if a <= b {
        a
    } else {
        b
    }
}

/// The larger of two coordinates.
fn upper_of(a: i32, b: i32) -> (r: i32)
    ensures
        r == upper(a, b),
{
    if a >= b {
        a
    } else {
        b
    }
}

impl Bounds {
    /// Whether no point lies inside.
    pub open spec fn empty(self) -> bool {
        self.x0 >= self.x1 || self.y0 >= self.y1
    }

    /// Whether the point lies inside.
    pub open spec fn contains(self, x: int, y: int) -> bool {
        self.x0 <= x < self.x1 && self.y0 <= y < self.y1
    }

    /// The smallest rectangle that holds both, where an empty one counts for nothing.
    pub open spec fn joined(self, other: Bounds) -> Bounds {
        if self.empty() {
            other
        } else if other.empty() {
            self
        } else {
            Bounds {
                x0: lower(self.x0, other.x0),
                y0: lower(self.y0, other.y0),
                x1: upper(self.x1, other.x1),
                y1: upper(self.y1, other.y1),
            }
        }
    }

    /// The part that both have.
    pub open spec fn common(self, other: Bounds) -> Bounds {
        Bounds {
            x0: upper(self.x0, other.x0),
            y0: upper(self.y0, other.y0),
            x1: lower(self.x1, other.x1),
            y1: lower(self.y1, other.y1),
        }
    }

    /// The rectangle that a file records as `r`.
    pub open spec fn of(r: Rect) -> Bounds {
        Bounds { x0: r.left, y0: r.top, x1: r.right, y1: r.bottom }
    }

    /// The rectangle without a point at the origin.
    pub open spec fn none() -> Bounds {
        Bounds { x0: 0, y0: 0, x1: 0, y1: 0 }
    }

    /// Whether no point lies inside.
    pub fn is_empty(&self) -> (r: bool)
        ensures
            r == self.empty(),
    {
        self.x0 >= self.x1 || self.y0 >= self.y1
    }

    /// Whether row `y` crosses the rectangle from top to bottom.
    pub fn contains_row(&self, y: i32) -> (r: bool)
        ensures
            r == (self.y0 <= y < self.y1),
    {
        self.y0 <= y && y < self.y1
    }

    /// The smallest rectangle that holds both, where an empty one counts for nothing.
    pub fn union(self, other: Bounds) -> (r: Bounds)
        ensures
            r == self.joined(other),
    {
        if self.is_empty() {
            return other;
        }
        if other.is_empty() {
            return self;
        }
        Bounds {
            x0: lower_of(self.x0, other.x0),
            y0: lower_of(self.y0, other.y0),
            x1: upper_of(self.x1, other.x1),
            y1: upper_of(self.y1, other.y1),
        }
    }

    /// The part that both have.
    pub fn intersect(self, other: Bounds) -> (r: Bounds)
        ensures
            r == self.common(other),
    {
        Bounds {
            x0: upper_of(self.x0, other.x0),
            y0: upper_of(self.y0, other.y0),
            x1: lower_of(self.x1, other.x1),
            y1: lower_of(self.y1, other.y1),
        }
    }
}

impl Default for Bounds {
    /// The rectangle without a point at the origin.
    fn default() -> (r: Bounds)
        ensures
            r == Bounds::none(),
    {
        Bounds { x0: 0, y0: 0, x1: 0, y1: 0 }
    }
}

impl From<Rect> for Bounds {
    fn from(r: Rect) -> (b: Bounds) {
        Bounds { x0: r.left, y0: r.top, x1: r.right, y1: r.bottom }
    }
}

impl vstd::std_specs::convert::FromSpecImpl<Rect> for Bounds {
    open spec fn obeys_from_spec() -> bool {
        true
    }

    open spec fn from_spec(r: Rect) -> Bounds {
        Bounds::of(r)
    }
}

/// Joined rectangles hold every point of both, and are the smallest rectangle that does.
pub proof fn union_is_the_least_cover(a: Bounds, b: Bounds, other: Bounds)
    ensures
        forall|x: int, y: int| a.contains(x, y) ==> #[trigger] a.joined(b).contains(x, y),
        forall|x: int, y: int| b.contains(x, y) ==> #[trigger] a.joined(b).contains(x, y),
        (forall|x: int, y: int|
            a.contains(x, y) || b.contains(x, y) ==> #[trigger] other.contains(x, y)) ==> (forall|
            x: int,
            y: int,
        |
            a.joined(b).contains(x, y) ==> #[trigger] other.contains(x, y)),
{
    if forall|x: int, y: int|
        a.contains(x, y) || b.contains(x, y) ==> #[trigger] other.contains(x, y) {
        if !a.empty() {
            assert(other.contains(a.x0 as int, a.y0 as int));
            assert(other.contains(a.x1 - 1, a.y1 - 1));
        }
        if !b.empty() {
            assert(other.contains(b.x0 as int, b.y0 as int));
            assert(other.contains(b.x1 - 1, b.y1 - 1));
        }
    }
}

/// Joining does not depend on the order, but for which of two empty rectangles is left.
pub proof fn union_is_symmetric(a: Bounds, b: Bounds)
    requires
        !a.empty() || !b.empty(),
    ensures
        a.joined(b) == b.joined(a),
{
}

/// The common part holds exactly the points that both hold.
pub proof fn intersect_is_the_common_part(a: Bounds, b: Bounds, x: int, y: int)
    ensures
        a.common(b).contains(x, y) <==> a.contains(x, y) && b.contains(x, y),
{
}

} // verus!
