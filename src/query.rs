//! Rectangle queries and the corner-anchored builder that produces them.

use vstd::prelude::*;

verus! {

/// One filled rectangle: an intensity, a size `(height, width)` and the
/// top-left corner `(y, x)` of the rectangle.
#[derive(Clone, Copy, Debug, PartialEq, Eq)]
pub struct Query {
    /// Intensity, from 0 (black) to 255 (white).
    pub color: u8,
    /// Size as `(height, width)`.
    pub diagonal: (i32, i32),
    /// Top-left corner as `(y, x)`.
    pub left_top: (i32, i32),
}

/// Intensity and size of a rectangle whose position is not fixed yet.
#[derive(Clone, Copy, Debug, PartialEq, Eq)]
pub struct QueryBuilder {
    pub color: u8,
    pub diagonal: (i32, i32),
}

/// The query of builder `b` whose top-left corner is `(y, x)`.
pub open spec fn anchored(b: QueryBuilder, y: int, x: int) -> Query {
    Query { color: b.color, diagonal: b.diagonal, left_top: (y as i32, x as i32) }
}

/// `v` is a value of `i32`.
pub open spec fn fits_i32(v: int) -> bool {
    i32::MIN <= v <= i32::MAX
}

impl Query {
    /// Starts a rectangle of the given intensity and size.
    pub fn query(color: u8, height: i32, width: i32) -> (r: QueryBuilder)
        ensures
            r == (QueryBuilder { color, diagonal: (height, width) }),
    {
        QueryBuilder { color, diagonal: (height, width) }
    }
}

impl QueryBuilder {
    /// The rectangle whose top-left corner is `(y, x)`.
    pub fn left_top(self, y: i32, x: i32) -> (r: Query)
        ensures
            r == anchored(self, y as int, x as int),
    {
        Query { color: self.color, diagonal: self.diagonal, left_top: (y, x) }
    }

    /// The rectangle whose bottom-left corner is `(y, x)`.
    pub fn left_bottom(self, y: i32, x: i32) -> (r: Query)
        requires
            fits_i32(y - self.diagonal.0),
        ensures
            r == anchored(self, y - self.diagonal.0, x as int),
    {
        Query { color: self.color, diagonal: self.diagonal, left_top: (y - self.diagonal.0, x) }
    }

    /// The rectangle whose top-right corner is `(y, x)`.
    pub fn right_top(self, y: i32, x: i32) -> (r: Query)
        requires
            fits_i32(x - self.diagonal.1),
        ensures
            r == anchored(self, y as int, x - self.diagonal.1),
    {
        Query { color: self.color, diagonal: self.diagonal, left_top: (y, x - self.diagonal.1) }
    }

    /// The rectangle whose bottom-right corner is `(y, x)`.
    pub fn right_bottom(self, y: i32, x: i32) -> (r: Query)
        requires
            fits_i32(y - self.diagonal.0),
            fits_i32(x - self.diagonal.1),
        ensures
            r == anchored(self, y - self.diagonal.0, x - self.diagonal.1),
    {
        Query {
            color: self.color,
            diagonal: self.diagonal,
            left_top: (y - self.diagonal.0, x - self.diagonal.1),
        }
    }
}

/// Naming any of the four corners of the same rectangle gives the same query:
/// for a size `(h, w)`, the top-left corner `(y, x)`, the bottom-left corner
/// `(y + h, x)`, the top-right corner `(y, x + w)` and the bottom-right corner
/// `(y + h, x + w)` all give the rectangle with origin `(y, x)`.
pub proof fn lemma_corners_agree(b: QueryBuilder, y: i32, x: i32)
    requires
        fits_i32(y + b.diagonal.0),
        fits_i32(x + b.diagonal.1),
    ensures
        anchored(b, (y + b.diagonal.0) - b.diagonal.0, x as int) == anchored(b, y as int, x as int),
        anchored(b, y as int, (x + b.diagonal.1) - b.diagonal.1) == anchored(b, y as int, x as int),
        anchored(b, (y + b.diagonal.0) - b.diagonal.0, (x + b.diagonal.1) - b.diagonal.1)
            == anchored(b, y as int, x as int),
        anchored(b, y as int, x as int).left_top == (y, x),
{
}

} // verus!
