//! Points and rectangles on a pixel grid.

use vstd::prelude::*;

verus! {

/// A point.
#[derive(Clone, Copy, Debug, PartialEq, Eq, Structural)]
pub struct Point<N> {
    /// Distance from the left edge.
    pub x: N,
    /// Distance from the top edge.
    pub y: N,
}

/// A rectangle: from `min`, which belongs to it, up to `max`, which does not.
#[derive(Clone, Copy, Debug, PartialEq, Eq, Structural)]
pub struct Rect<N> {
    /// Top left corner.
    pub min: Point<N>,
    /// Bottom right corner.
    pub max: Point<N>,
}

/// A point from its coordinates.
pub fn point<N>(x: N, y: N) -> (p: Point<N>)
    ensures
        p == (Point { x, y }),
{
    Point { x, y }
}

impl Rect<i32> {
    /// Whether no side of the rectangle is negative or too long for an `i32`.
    pub open spec fn is_box(self) -> bool {
        &&& 0 <= self.max.x - self.min.x <= i32::MAX
        &&& 0 <= self.max.y - self.min.y <= i32::MAX
    }

    /// Horizontal extent.
    pub fn width(&self) -> (w: i32)
        requires
            i32::MIN <= self.max.x - self.min.x <= i32::MAX,
        ensures
            w == self.max.x - self.min.x,
    {
        self.max.x - self.min.x
    }

    /// Vertical extent.
    pub fn height(&self) -> (h: i32)
        requires
            i32::MIN <= self.max.y - self.min.y <= i32::MAX,
        ensures
            h == self.max.y - self.min.y,
    {
        self.max.y - self.min.y
    }

    /// The rectangle of the same size whose top left corner is `min`.
    pub fn moved_to(&self, min: Point<i32>) -> (moved: Rect<i32>)
        requires
            i32::MIN <= min.x - self.min.x <= i32::MAX,
            i32::MIN <= min.y - self.min.y <= i32::MAX,
            i32::MIN <= self.max.x + (min.x - self.min.x) <= i32::MAX,
            i32::MIN <= self.max.y + (min.y - self.min.y) <= i32::MAX,
        ensures
            moved.min == min,
            moved.max.x - moved.min.x == self.max.x - self.min.x,
            moved.max.y - moved.min.y == self.max.y - self.min.y,
    {
        let dx: i32 = min.x - self.min.x;
        let dy: i32 = min.y - self.min.y;
        Rect { min, max: point(self.max.x + dx, self.max.y + dy) }
    }
}

impl Rect<u32> {
    /// Whether a rectangle has a pixel of padding on every side to give up.
    pub open spec fn is_padded(self) -> bool {
        &&& self.min.x + 2 <= self.max.x
        &&& self.min.y + 2 <= self.max.y
    }

    /// The rectangle without its outermost pixels.
    pub open spec fn unpadded_spec(self) -> Rect<u32> {
        Rect {
            min: Point { x: (self.min.x + 1) as u32, y: (self.min.y + 1) as u32 },
            max: Point { x: (self.max.x - 1) as u32, y: (self.max.y - 1) as u32 },
        }
    }

    /// Whether a pixel lies in the rectangle.
    pub open spec fn has_pixel(self, x: int, y: int) -> bool {
        &&& self.min.x <= x < self.max.x
        &&& self.min.y <= y < self.max.y
    }

    /// The rectangle without its outermost pixels: a padded texture has 1 extra
    /// pixel on all sides.
    pub fn unpadded(self) -> (inner: Rect<u32>)
        requires
            self.min.x < u32::MAX,
            self.min.y < u32::MAX,
            0 < self.max.x,
            0 < self.max.y,
        ensures
            inner == self.unpadded_spec(),
    {
        Rect {
            min: point(self.min.x + 1, self.min.y + 1),
            max: point(self.max.x - 1, self.max.y - 1),
        }
    }
}

} // verus!
