//! Geometry value types shared by the atlas data model and the packers.

use vstd::prelude::*;

verus! {

/// An axis-aligned rectangle.
#[derive(Clone, Copy, Debug, PartialEq, Eq, Structural)]
pub struct Rect {
    /// The width dimension of the rectangle.
    pub width: u32,
    /// The height dimension of the rectangle.
    pub height: u32,
}

impl Rect {
    /// Builds a rectangle from its two dimensions.
    pub fn new(width: u32, height: u32) -> (r: Self)
        ensures
            r == (Rect { width, height }),
    {
        Rect { width, height }
    }
}

/// An axis-aligned rectangle that can be rotated.
#[derive(Clone, Copy, Debug, PartialEq, Eq, Structural)]
pub struct RotatableRect {
    /// The dimensions of the rectangle.
    pub rect: Rect,
    /// True if this rectangle is rotated 90 degrees clockwise.
    pub rotated: bool,
}

impl RotatableRect {
    /// Builds a rotatable rectangle from its dimensions and rotation flag.
    pub fn new(width: u32, height: u32, rotated: bool) -> (r: Self)
        ensures
            r == (RotatableRect { rect: Rect { width, height }, rotated }),
    {
        RotatableRect { rect: Rect { width, height }, rotated }
    }
}

/// The dimensions of `d` with width and height swapped iff `rotate` is set.
pub open spec fn rotate_rect(d: Rect, rotate: bool) -> Rect {
    if rotate {
        Rect { width: d.height, height: d.width }
    } else {
        d
    }
}

/// The orientation a packer fixes for an item: when rotation is allowed and
/// the height is strictly larger than the width, the two dimensions are
/// swapped so that the longer side is reported as the width; ties keep the
/// original orientation.
pub open spec fn orient(d: Rect, rotate: bool) -> RotatableRect {
    if rotate && d.height > d.width {
        RotatableRect { rect: rotate_rect(d, true), rotated: true }
    } else {
        RotatableRect { rect: d, rotated: false }
    }
}

/// The area of a rectangle, as an unbounded integer.
pub open spec fn rect_area(d: Rect) -> int {
    d.width * d.height
}

/// True iff the rectangle covers no pixels.
pub open spec fn rect_empty(d: Rect) -> bool {
    d.width == 0 || d.height == 0
}

} // verus!
