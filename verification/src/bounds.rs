//! Rectangles of pixels, and how a split divides one.
use crate::binary32::{at_most, difference, larger, less, product, sum, Binary32};
use vstd::prelude::*;

verus! {

/// The encoding of zero.
pub const ZERO: u32 = 0;

/// The encoding of two.
pub const TWO: u32 = 0x4000_0000;

pub open spec fn zero() -> Binary32 {
    Binary32 { bits: ZERO }
}

pub open spec fn two() -> Binary32 {
    Binary32 { bits: TWO }
}

/// Direction of a pane split.
#[derive(Copy, Clone, Debug, PartialEq, Eq, Structural)]
pub enum SplitDirection {
    Horizontal,
    Vertical,
}

impl SplitDirection {
    /// The name of the direction.
    pub fn to_string(&self) -> (r: String)
        ensures
            r@ == (match *self {
                SplitDirection::Vertical => "vertical"@,
                SplitDirection::Horizontal => "horizontal"@,
            }),
    {
        match self {
            SplitDirection::Vertical => "vertical".to_owned(),
            SplitDirection::Horizontal => "horizontal".to_owned(),
        }
    }
}

/// Bounds of a pane within the window, in pixels.
#[derive(Copy, Clone, Debug)]
pub struct PaneBounds {
    pub x: Binary32,
    pub y: Binary32,
    pub width: Binary32,
    pub height: Binary32,
}

impl Default for PaneBounds {
    fn default() -> (r: Self)
        ensures
            r.x.bits == ZERO,
            r.y.bits == ZERO,
            r.width.bits == ZERO,
            r.height.bits == ZERO,
    {
        PaneBounds {
            x: Binary32 { bits: ZERO },
            y: Binary32 { bits: ZERO },
            width: Binary32 { bits: ZERO },
            height: Binary32 { bits: ZERO },
        }
    }
}

/// Whether the point is inside: the left and top edges belong to the bounds,
/// the right and bottom edges do not.
#[verifier::opaque]
pub open spec fn inside(bounds: PaneBounds, px: Binary32, py: Binary32) -> bool {
    &&& at_most(bounds.x, px)
    &&& less(px, sum(bounds.x, bounds.width))
    &&& at_most(bounds.y, py)
    &&& less(py, sum(bounds.y, bounds.height))
}

/// An extent without the padding on both of its sides.
pub open spec fn padded_extent(extent: Binary32, padding: Binary32) -> Binary32 {
    larger(difference(extent, product(two(), padding)), zero())
}

/// The bounds without the padding on all sides.
pub open spec fn padded(bounds: PaneBounds, padding_x: Binary32, padding_y: Binary32) -> PaneBounds {
    PaneBounds {
        x: sum(bounds.x, padding_x),
        y: sum(bounds.y, padding_y),
        width: padded_extent(bounds.width, padding_x),
        height: padded_extent(bounds.height, padding_y),
    }
}

impl PaneBounds {
    /// Whether the point is inside of the bounds.
    pub fn contains(&self, px: Binary32, py: Binary32) -> (r: bool)
        ensures
            r == inside(*self, px, py),
    {
        reveal(inside);
        self.x.le(px) && px.lt(self.x.plus(self.width)) && self.y.le(py) && py.lt(
            self.y.plus(self.height),
        )
    }

    /// The bounds without the padding on all sides.
    pub fn pad(&self, padding_x: Binary32, padding_y: Binary32) -> (r: Self)
        ensures
            r == padded(*self, padding_x, padding_y),
    {
        let two = Binary32 { bits: TWO };
        let zero = Binary32 { bits: ZERO };
        PaneBounds {
            x: self.x.plus(padding_x),
            y: self.y.plus(padding_y),
            width: self.width.minus(two.times(padding_x)).max(zero),
            height: self.height.minus(two.times(padding_y)).max(zero),
        }
    }
}

/// What the first side of a split gets of an extent.
pub open spec fn first_share(extent: Binary32, ratio: Binary32, border: Binary32) -> Binary32 {
    product(difference(extent, border), ratio)
}

/// What is left of an extent for the second side, past the border.
pub open spec fn second_share(extent: Binary32, ratio: Binary32, border: Binary32) -> Binary32 {
    difference(difference(extent, first_share(extent, ratio, border)), border)
}

/// Where the second side begins.
pub open spec fn second_start(
    start: Binary32,
    extent: Binary32,
    ratio: Binary32,
    border: Binary32,
) -> Binary32 {
    sum(sum(start, first_share(extent, ratio, border)), border)
}

/// The bounds of the first side of a split: left, or top.
#[verifier::opaque]
pub open spec fn first_half(
    bounds: PaneBounds,
    direction: SplitDirection,
    ratio: Binary32,
    border: Binary32,
) -> PaneBounds {
    match direction {
        SplitDirection::Vertical => PaneBounds {
            width: first_share(bounds.width, ratio, border),
            ..bounds
        },
        SplitDirection::Horizontal => PaneBounds {
            height: first_share(bounds.height, ratio, border),
            ..bounds
        },
    }
}

/// The bounds of the second side of a split: right, or bottom.
#[verifier::opaque]
pub open spec fn second_half(
    bounds: PaneBounds,
    direction: SplitDirection,
    ratio: Binary32,
    border: Binary32,
) -> PaneBounds {
    match direction {
        SplitDirection::Vertical => PaneBounds {
            x: second_start(bounds.x, bounds.width, ratio, border),
            width: second_share(bounds.width, ratio, border),
            ..bounds
        },
        SplitDirection::Horizontal => PaneBounds {
            y: second_start(bounds.y, bounds.height, ratio, border),
            height: second_share(bounds.height, ratio, border),
            ..bounds
        },
    }
}

/// Divide bounds between the two sides of a split, with a border between them.
pub fn split_bounds(
    bounds: PaneBounds,
    direction: SplitDirection,
    ratio: Binary32,
    border_width: Binary32,
) -> (r: (PaneBounds, PaneBounds))
    ensures
        r.0 == first_half(bounds, direction, ratio, border_width),
        r.1 == second_half(bounds, direction, ratio, border_width),
{
    reveal(first_half);
    reveal(second_half);
    match direction {
        SplitDirection::Vertical => {
            let first_w = bounds.width.minus(border_width).times(ratio);
            let first = PaneBounds {
                x: bounds.x,
                y: bounds.y,
                width: first_w,
                height: bounds.height,
            };
            let second = PaneBounds {
                x: bounds.x.plus(first_w).plus(border_width),
                y: bounds.y,
                width: bounds.width.minus(first_w).minus(border_width),
                height: bounds.height,
            };
            (first, second)
        },
        SplitDirection::Horizontal => {
            let first_h = bounds.height.minus(border_width).times(ratio);
            let first = PaneBounds {
                x: bounds.x,
                y: bounds.y,
                width: bounds.width,
                height: first_h,
            };
            let second = PaneBounds {
                x: bounds.x,
                y: bounds.y.plus(first_h).plus(border_width),
                width: bounds.width,
                height: bounds.height.minus(first_h).minus(border_width),
            };
            (first, second)
        },
    }
}

} // verus!
