//! What bounds, sides and separators are, in terms of exact numbers.
use crate::binary32::{
    at_most, difference, larger, less, nan, opposite, product, sum, unsigned, Binary32,
};
use crate::bounds::{
    first_half, first_share, inside, padded, padded_extent, second_half, second_share,
    second_start, two, zero, PaneBounds, SplitDirection,
};
use crate::exact_laws::{
    apart, difference_has_sign, difference_is_rounded, product_is_rounded, representable,
    representable_is_kept, rounding_keeps_order, rounds, sum_is_rounded, unit,
};
use crate::layout::{dragged_ratio, has_room, on_separator, one, PaneLayout};
use crate::placement_laws::{
    area, areas, exact, finite_bounds, first_area, second_area, share, unrounded,
    unrounded_placement_is_exact, Area,
};
use crate::rounding::{lemma_magnitude_increases, magnitude};
use vstd::arithmetic::power2::{lemma2_to64, lemma_pow2_adds, lemma_pow2_pos};
use vstd::prelude::*;

verus! {

/// Whether the first side gets its ratio of what the border leaves of an extent,
/// each step rounded.
pub open spec fn takes_share(
    extent: Binary32,
    ratio: Binary32,
    border: Binary32,
    first: Binary32,
) -> bool {
    exists|room: Binary32|
        #![trigger rounds(room, exact(extent) - exact(border))]
        rounds(room, exact(extent) - exact(border)) && (room.is_finite() ==> rounds(
            first,
            exact(room) * share(ratio),
        ))
}

/// Whether the second side gets what the first side and the border leave.
pub open spec fn takes_rest(
    extent: Binary32,
    border: Binary32,
    first: Binary32,
    second: Binary32,
) -> bool {
    first.is_finite() ==> exists|rest: Binary32|
        #![trigger rounds(rest, exact(extent) - exact(first))]
        rounds(rest, exact(extent) - exact(first)) && (rest.is_finite() ==> rounds(
            second,
            exact(rest) - exact(border),
        ))
}

/// Whether the second side begins past the first side and the border.
pub open spec fn begins_past(
    start: Binary32,
    border: Binary32,
    first: Binary32,
    second: Binary32,
) -> bool {
    first.is_finite() ==> exists|edge: Binary32|
        #![trigger rounds(edge, exact(start) + exact(first))]
        rounds(edge, exact(start) + exact(first)) && (edge.is_finite() ==> rounds(
            second,
            exact(edge) + exact(border),
        ))
}

proof fn lemma_shares(start: Binary32, extent: Binary32, ratio: Binary32, border: Binary32)
    requires
        start.is_finite(),
        extent.is_finite(),
        ratio.is_finite(),
        border.is_finite(),
    ensures
        ({
            let first = first_share(extent, ratio, border);
            &&& takes_share(extent, ratio, border, first)
            &&& takes_rest(extent, border, first, second_share(extent, ratio, border))
            &&& begins_past(start, border, first, second_start(start, extent, ratio, border))
        }),
{
    let room = difference(extent, border);
    let first = first_share(extent, ratio, border);
    difference_is_rounded(extent, border);
    if room.is_finite() {
        product_is_rounded(room, ratio);
    }
    if first.is_finite() {
        let rest = difference(extent, first);
        difference_is_rounded(extent, first);
        if rest.is_finite() {
            difference_is_rounded(rest, border);
        }
        let edge = sum(start, first);
        sum_is_rounded(start, first);
        if edge.is_finite() {
            sum_is_rounded(edge, border);
        }
    }
}

/// A vertical split puts its sides beside each other, a horizontal one puts them
/// above each other. Along that direction the first side begins where the split
/// does and gets its ratio of what the border leaves; the second side begins past
/// it and the border, and gets the rest. Across it both sides have the whole.
pub proof fn split_divides_bounds(
    bounds: PaneBounds,
    direction: SplitDirection,
    ratio: Binary32,
    border: Binary32,
)
    requires
        finite_bounds(bounds),
        ratio.is_finite(),
        border.is_finite(),
    ensures
        ({
            let first = first_half(bounds, direction, ratio, border);
            let second = second_half(bounds, direction, ratio, border);
            &&& first.x == bounds.x
            &&& first.y == bounds.y
            &&& direction == SplitDirection::Vertical ==> {
                &&& first.height == bounds.height
                &&& second.y == bounds.y
                &&& second.height == bounds.height
                &&& takes_share(bounds.width, ratio, border, first.width)
                &&& takes_rest(bounds.width, border, first.width, second.width)
                &&& begins_past(bounds.x, border, first.width, second.x)
            }
            &&& direction == SplitDirection::Horizontal ==> {
                &&& first.width == bounds.width
                &&& second.x == bounds.x
                &&& second.width == bounds.width
                &&& takes_share(bounds.height, ratio, border, first.height)
                &&& takes_rest(bounds.height, border, first.height, second.height)
                &&& begins_past(bounds.y, border, first.height, second.y)
            }
        }),
{
    reveal(first_half);
    reveal(second_half);
    lemma_shares(bounds.x, bounds.width, ratio, border);
    lemma_shares(bounds.y, bounds.height, ratio, border);
}

/// What is rounded from a number between zero and another one is finite, and
/// between them.
proof fn lemma_rounds_below(r: Binary32, x: real, top: Binary32)
    requires
        rounds(r, x),
        top.is_finite(),
        0 as real <= x <= exact(top),
    ensures
        r.is_finite(),
        0 as real <= exact(r) <= exact(top),
{
    assert(zero().value() == 0) by {
        assert(magnitude(0) == 0);
    }
    assert(apart(exact(r), x) <= apart(exact(top), x));
    assert(apart(exact(r), x) <= apart(exact(zero()), x));
    lemma_magnitude_increases(0, r.code());
    lemma_magnitude_increases(0, top.code());
    if r.code() > top.code() {
        lemma_magnitude_increases(top.code(), r.code());
    }
}

/// A larger ratio never makes the first side smaller, where there is more than
/// the border to divide, and no more than some finite number.
pub proof fn larger_ratio_grows_first_side(
    bounds: PaneBounds,
    direction: SplitDirection,
    small: Binary32,
    large: Binary32,
    border: Binary32,
    top: Binary32,
)
    requires
        finite_bounds(bounds),
        small.is_finite(),
        large.is_finite(),
        border.is_finite(),
        top.is_finite(),
        at_most(small, large),
        direction == SplitDirection::Vertical ==> exact(border) < exact(bounds.width) <= exact(
            border,
        ) + exact(top),
        direction == SplitDirection::Horizontal ==> exact(border) < exact(bounds.height) <= exact(
            border,
        ) + exact(top),
    ensures
        direction == SplitDirection::Vertical ==> at_most(
            first_half(bounds, direction, small, border).width,
            first_half(bounds, direction, large, border).width,
        ),
        direction == SplitDirection::Horizontal ==> at_most(
            first_half(bounds, direction, small, border).height,
            first_half(bounds, direction, large, border).height,
        ),
{
    reveal(first_half);
    let extent = match direction {
        SplitDirection::Vertical => bounds.width,
        SplitDirection::Horizontal => bounds.height,
    };
    let room = difference(extent, border);
    difference_is_rounded(extent, border);
    lemma_rounds_below(room, exact(extent) - exact(border), top);
    product_is_rounded(room, small);
    product_is_rounded(room, large);
    lemma_unit();
    let (w, a, b, u) = (exact(room), exact(small), exact(large), unit());
    let (x, y) = (w * share(small), w * share(large));
    assert(share(small) == a / u && share(large) == b / u);
    assert(x <= y) by (nonlinear_arith)
        requires
            x == w * (a / u),
            y == w * (b / u),
            0 as real <= w,
            a <= b,
            u > 0 as real,
    ;
    if x < y {
        rounding_keeps_order(product(room, small), x, product(room, large), y);
    } else {
        let (p, q) = (product(room, small), product(room, large));
        lemma_same_share(room, small, large);
    }
}

/// Shares that are exactly equal are rounded alike.
proof fn lemma_same_share(room: Binary32, a: Binary32, b: Binary32)
    requires
        room.is_finite(),
        a.is_finite(),
        b.is_finite(),
        at_most(a, b),
        exact(room) * share(a) == exact(room) * share(b),
    ensures
        at_most(product(room, a), product(room, b)),
{
    lemma_unit();
    lemma_magnitude_increases(0, room.code());
    lemma_magnitude_increases(0, a.code());
    lemma_magnitude_increases(0, b.code());
    assert(magnitude(0) == 0);
    let (w, x, y, u) = (exact(room), exact(a), exact(b), unit());
    assert(w == 0 as real || x == y) by (nonlinear_arith)
        requires
            w * (x / u) == w * (y / u),
            u > 0 as real,
    ;
    product_is_rounded(room, a);
    product_is_rounded(room, b);
    if w == 0 as real {
        let (p, q) = (product(room, a), product(room, b));
        assert(w * (x / u) == 0 as real && w * (y / u) == 0 as real) by (nonlinear_arith)
            requires
                w == 0 as real,
        ;
        assert(zero().value() == 0);
        assert(representable(0 as real)) by {
            assert(zero().is_finite() && exact(zero()) == 0 as real);
        }
        representable_is_kept(p, 0 as real);
        representable_is_kept(q, 0 as real);
    } else {
        assert(a.value() == b.value());
        if a.code() < b.code() {
            lemma_magnitude_increases(a.code(), b.code());
        } else if b.code() < a.code() {
            lemma_magnitude_increases(b.code(), a.code());
        }
        if a.negative() != b.negative() {
            // Both are zero.
            assert(x == 0 as real && y == 0 as real);
            let (p, q) = (product(room, a), product(room, b));
            assert(w * (x / u) == 0 as real && w * (y / u) == 0 as real) by (nonlinear_arith)
                requires
                    x == 0 as real,
                    y == 0 as real,
                    u > 0 as real,
            ;
            assert(zero().value() == 0);
            assert(representable(0 as real)) by {
                assert(zero().is_finite() && exact(zero()) == 0 as real);
            }
            representable_is_kept(p, 0 as real);
            representable_is_kept(q, 0 as real);
        } else {
            assert(a.bits == b.bits);
        }
    }
}

/// One, as an exact number.
pub proof fn lemma_unit()
    ensures
        unit() > 0 as real,
        exact(one()) == unit(),
        exact(zero()) == 0 as real,
{
    assert(0x3f80_0000int / 0x80_0000 == 127 && 0x3f80_0000int % 0x80_0000 == 0);
    lemma_pow2_adds(23, 126);
    lemma2_to64();
    lemma_pow2_pos(149);
    assert(one().code() == 0x3f80_0000);
    assert(magnitude(0) == 0);
}

/// Whether every exact number on the way to the places of the panes, and their
/// edges, can be represented.
pub open spec fn places_representable(layout: PaneLayout, whole: Area, border: real) -> bool
    decreases layout,
{
    match layout {
        PaneLayout::Leaf(_) => representable(whole.x + whole.width) && representable(
            whole.y + whole.height,
        ),
        PaneLayout::Split { direction, ratio, first, second } => {
            let left = first_area(whole, direction, ratio, border);
            let right = second_area(whole, direction, ratio, border);
            let (start, extent, part) = match direction {
                SplitDirection::Vertical => (whole.x, whole.width, left.width),
                SplitDirection::Horizontal => (whole.y, whole.height, left.height),
            };
            &&& ratio.is_finite()
            &&& representable(extent - border)
            &&& representable(part)
            &&& representable(extent - part)
            &&& representable(extent - part - border)
            &&& representable(start + part)
            &&& representable(start + part + border)
            &&& places_representable(*first, left, border)
            &&& places_representable(*second, right, border)
        },
    }
}

proof fn lemma_exact_shares(start: Binary32, extent: Binary32, ratio: Binary32, border: Binary32)
    requires
        start.is_finite(),
        extent.is_finite(),
        ratio.is_finite(),
        border.is_finite(),
        ({
            let part = (exact(extent) - exact(border)) * share(ratio);
            &&& representable(exact(extent) - exact(border))
            &&& representable(part)
            &&& representable(exact(extent) - part)
            &&& representable(exact(extent) - part - exact(border))
            &&& representable(exact(start) + part)
            &&& representable(exact(start) + part + exact(border))
        }),
    ensures
        ({
            let part = (exact(extent) - exact(border)) * share(ratio);
            &&& first_share(extent, ratio, border).is_finite()
            &&& second_share(extent, ratio, border).is_finite()
            &&& second_start(start, extent, ratio, border).is_finite()
            &&& exact(first_share(extent, ratio, border)) == part
            &&& exact(second_share(extent, ratio, border)) == exact(extent) - part - exact(border)
            &&& exact(second_start(start, extent, ratio, border)) == exact(start) + part + exact(
                border,
            )
        }),
{
    let part = (exact(extent) - exact(border)) * share(ratio);
    let room = difference(extent, border);
    difference_is_rounded(extent, border);
    representable_is_kept(room, exact(extent) - exact(border));
    let first = product(room, ratio);
    product_is_rounded(room, ratio);
    representable_is_kept(first, part);
    let rest = difference(extent, first);
    difference_is_rounded(extent, first);
    representable_is_kept(rest, exact(extent) - part);
    difference_is_rounded(rest, border);
    representable_is_kept(difference(rest, border), exact(extent) - part - exact(border));
    let edge = sum(start, first);
    sum_is_rounded(start, first);
    representable_is_kept(edge, exact(start) + part);
    sum_is_rounded(edge, border);
    representable_is_kept(sum(edge, border), exact(start) + part + exact(border));
}

/// The sides of a split have their exact places, where these can be represented.
pub proof fn representable_sides_are_exact(
    bounds: PaneBounds,
    direction: SplitDirection,
    ratio: Binary32,
    border: Binary32,
)
    requires
        finite_bounds(bounds),
        ratio.is_finite(),
        border.is_finite(),
        ({
            let left = first_area(area(bounds), direction, ratio, exact(border));
            let (start, extent, part) = match direction {
                SplitDirection::Vertical => (exact(bounds.x), exact(bounds.width), left.width),
                SplitDirection::Horizontal => (exact(bounds.y), exact(bounds.height), left.height),
            };
            &&& representable(extent - exact(border))
            &&& representable(part)
            &&& representable(extent - part)
            &&& representable(extent - part - exact(border))
            &&& representable(start + part)
            &&& representable(start + part + exact(border))
        }),
    ensures
        finite_bounds(first_half(bounds, direction, ratio, border)),
        finite_bounds(second_half(bounds, direction, ratio, border)),
        area(first_half(bounds, direction, ratio, border)) == first_area(
            area(bounds),
            direction,
            ratio,
            exact(border),
        ),
        area(second_half(bounds, direction, ratio, border)) == second_area(
            area(bounds),
            direction,
            ratio,
            exact(border),
        ),
{
    reveal(first_half);
    reveal(second_half);
    match direction {
        SplitDirection::Vertical => {
            lemma_exact_shares(bounds.x, bounds.width, ratio, border);
        },
        SplitDirection::Horizontal => {
            lemma_exact_shares(bounds.y, bounds.height, ratio, border);
        },
    }
}

/// Where all exact numbers on the way can be represented, nothing is rounded,
/// and every pane is placed at its exact rectangle.
pub proof fn representable_placement_is_exact(
    layout: PaneLayout,
    bounds: PaneBounds,
    border: Binary32,
)
    requires
        finite_bounds(bounds),
        border.is_finite(),
        places_representable(layout, area(bounds), exact(border)),
    ensures
        unrounded(layout, bounds, border),
        ({
            let placed = layout.placed(bounds, border);
            let exact_areas = areas(layout, area(bounds), exact(border));
            &&& placed.len() == exact_areas.len()
            &&& forall|i: int|
                0 <= i < placed.len() ==> (#[trigger] placed[i]).0 == exact_areas[i].0 && area(
                    placed[i].1,
                ) == exact_areas[i].1
        }),
    decreases layout,
{
    match layout {
        PaneLayout::Leaf(_) => {
            sum_is_rounded(bounds.x, bounds.width);
            sum_is_rounded(bounds.y, bounds.height);
            representable_is_kept(
                sum(bounds.x, bounds.width),
                exact(bounds.x) + exact(bounds.width),
            );
            representable_is_kept(
                sum(bounds.y, bounds.height),
                exact(bounds.y) + exact(bounds.height),
            );
        },
        PaneLayout::Split { direction, ratio, first, second } => {
            representable_sides_are_exact(bounds, direction, ratio, border);
            representable_placement_is_exact(
                *first,
                first_half(bounds, direction, ratio, border),
                border,
            );
            representable_placement_is_exact(
                *second,
                second_half(bounds, direction, ratio, border),
                border,
            );
        },
    }
    unrounded_placement_is_exact(layout, bounds, border);
}

/// A point is inside bounds where it is not left of them nor above, and is left
/// of their right edge and above their bottom edge, both rounded.
pub proof fn inside_is_between_edges(bounds: PaneBounds, px: Binary32, py: Binary32)
    requires
        finite_bounds(bounds),
        !px.is_nan(),
        !py.is_nan(),
    ensures
        exists|right: Binary32, bottom: Binary32|
            #![trigger rounds(right, exact(bounds.x) + exact(bounds.width)), rounds(bottom, exact(bounds.y) + exact(bounds.height))]
            {
                &&& rounds(right, exact(bounds.x) + exact(bounds.width))
                &&& rounds(bottom, exact(bounds.y) + exact(bounds.height))
                &&& inside(bounds, px, py) <==> {
                    &&& exact(bounds.x) <= exact(px) < exact(right)
                    &&& exact(bounds.y) <= exact(py) < exact(bottom)
                }
            },
{
    reveal(inside);
    sum_is_rounded(bounds.x, bounds.width);
    sum_is_rounded(bounds.y, bounds.height);
    let (right, bottom) = (sum(bounds.x, bounds.width), sum(bounds.y, bounds.height));
    assert(rounds(right, exact(bounds.x) + exact(bounds.width)));
    assert(rounds(bottom, exact(bounds.y) + exact(bounds.height)));
}

/// Nothing is inside at a point that is no number.
pub proof fn nan_is_nowhere(bounds: PaneBounds, px: Binary32, py: Binary32)
    requires
        px.is_nan() || py.is_nan(),
    ensures
        !inside(bounds, px, py),
{
    reveal(inside);
}

/// Whether a coordinate is closer than the border's width to where a side ends,
/// each step rounded.
pub open spec fn close_to_end(
    p: Binary32,
    start: Binary32,
    extent: Binary32,
    border: Binary32,
    close: bool,
) -> bool {
    exists|edge: Binary32|
        #![trigger rounds(edge, exact(start) + exact(extent))]
        rounds(edge, exact(start) + exact(extent)) && (edge.is_finite() ==> exists|gap: Binary32|
            #![trigger rounds(gap, exact(p) - exact(edge))]
            rounds(gap, exact(p) - exact(edge)) && (close <==> -exact(border) < exact(gap) < exact(
                border,
            )))
}

/// Whether a coordinate is along a split, with the border's width to spare at
/// both ends, each step rounded.
pub open spec fn along_split(
    p: Binary32,
    start: Binary32,
    extent: Binary32,
    border: Binary32,
    along: bool,
) -> bool {
    exists|low: Binary32, end: Binary32|
        #![trigger rounds(low, exact(start) - exact(border)), rounds(end, exact(start) + exact(extent))]
        {
            &&& rounds(low, exact(start) - exact(border))
            &&& rounds(end, exact(start) + exact(extent))
            &&& end.is_finite() ==> exists|high: Binary32|
                #![trigger rounds(high, exact(end) + exact(border))]
                rounds(high, exact(end) + exact(border)) && (along <==> exact(low) <= exact(p)
                    < exact(high))
        }
}

proof fn lemma_close_to_end(p: Binary32, start: Binary32, extent: Binary32, border: Binary32)
    requires
        p.is_finite(),
        start.is_finite(),
        extent.is_finite(),
        border.is_finite(),
    ensures
        close_to_end(
            p,
            start,
            extent,
            border,
            less(unsigned(difference(p, sum(start, extent))), border),
        ),
{
    let edge = sum(start, extent);
    let gap = difference(p, edge);
    let size = unsigned(gap);
    sum_is_rounded(start, extent);
    assert(rounds(edge, exact(start) + exact(extent)));
    if edge.is_finite() {
        difference_is_rounded(p, edge);
        assert(rounds(gap, exact(p) - exact(edge)));
        assert(size.code() == gap.code() && !size.negative());
        lemma_magnitude_increases(0, gap.code());
        assert(less(size, border) <==> -exact(border) < exact(gap) < exact(border));
    }
}

proof fn lemma_along_split(p: Binary32, start: Binary32, extent: Binary32, border: Binary32)
    requires
        p.is_finite(),
        start.is_finite(),
        extent.is_finite(),
        border.is_finite(),
    ensures
        along_split(
            p,
            start,
            extent,
            border,
            at_most(difference(start, border), p) && less(p, sum(sum(start, extent), border)),
        ),
{
    let (low, end) = (difference(start, border), sum(start, extent));
    difference_is_rounded(start, border);
    sum_is_rounded(start, extent);
    assert(rounds(low, exact(start) - exact(border)));
    assert(rounds(end, exact(start) + exact(extent)));
    if end.is_finite() {
        let high = sum(end, border);
        sum_is_rounded(end, border);
        assert(rounds(high, exact(end) + exact(border)));
    }
}

/// A point is on the separator of a split where it is closer than the border's
/// width to where the first side ends, across the split, and not past its ends
/// by the border's width, along it. Across a vertical split is to the right.
pub proof fn separator_is_at_first_end(
    px: Binary32,
    py: Binary32,
    bounds: PaneBounds,
    first: PaneBounds,
    direction: SplitDirection,
    border: Binary32,
)
    requires
        px.is_finite(),
        py.is_finite(),
        finite_bounds(bounds),
        finite_bounds(first),
        border.is_finite(),
    ensures
        exists|close: bool, along: bool|
            #![trigger sees_separator(px, py, bounds, first, direction, border, close, along)]
            sees_separator(px, py, bounds, first, direction, border, close, along) && (on_separator(
                px,
                py,
                bounds,
                first,
                direction,
                border,
            ) <==> close && along),
{
    reveal(on_separator);
    match direction {
        SplitDirection::Vertical => {
            lemma_close_to_end(px, first.x, first.width, border);
            lemma_along_split(py, bounds.y, bounds.height, border);
            let close = less(unsigned(difference(px, sum(first.x, first.width))), border);
            let along = at_most(difference(bounds.y, border), py) && less(
                py,
                sum(sum(bounds.y, bounds.height), border),
            );
            assert(sees_separator(px, py, bounds, first, direction, border, close, along));
        },
        SplitDirection::Horizontal => {
            lemma_close_to_end(py, first.y, first.height, border);
            lemma_along_split(px, bounds.x, bounds.width, border);
            let close = less(unsigned(difference(py, sum(first.y, first.height))), border);
            let along = at_most(difference(bounds.x, border), px) && less(
                px,
                sum(sum(bounds.x, bounds.width), border),
            );
            assert(sees_separator(px, py, bounds, first, direction, border, close, along));
        },
    }
}

/// Whether a point is close to the end of the first side, and along the split.
pub open spec fn sees_separator(
    px: Binary32,
    py: Binary32,
    bounds: PaneBounds,
    first: PaneBounds,
    direction: SplitDirection,
    border: Binary32,
    close: bool,
    along: bool,
) -> bool {
    match direction {
        SplitDirection::Vertical => {
            &&& close_to_end(px, first.x, first.width, border, close)
            &&& along_split(py, bounds.y, bounds.height, border, along)
        },
        SplitDirection::Horizontal => {
            &&& close_to_end(py, first.y, first.height, border, close)
            &&& along_split(px, bounds.x, bounds.width, border, along)
        },
    }
}

/// There is room to drag a border where the split is larger than the border,
/// across the border.
pub proof fn room_is_more_than_border(
    bounds: PaneBounds,
    direction: SplitDirection,
    border: Binary32,
)
    requires
        finite_bounds(bounds),
        border.is_finite(),
    ensures
        direction == SplitDirection::Vertical ==> (has_room(bounds, direction, border)
            <==> exact(border) < exact(bounds.width)),
        direction == SplitDirection::Horizontal ==> (has_room(bounds, direction, border)
            <==> exact(border) < exact(bounds.height)),
{
    reveal(has_room);
    difference_has_sign(bounds.width, border);
    difference_has_sign(bounds.height, border);
}

/// Whether an extent loses the padding on both of its sides, each step rounded,
/// and is never negative.
pub open spec fn loses_padding(extent: Binary32, padding: Binary32, rest: Binary32) -> bool {
    exists|both: Binary32|
        #![trigger rounds(both, exact(padding) + exact(padding))]
        rounds(both, exact(padding) + exact(padding)) && (both.is_finite() ==> exists|left: Binary32|
            #![trigger rounds(left, exact(extent) - exact(both))]
            rounds(left, exact(extent) - exact(both)) && exact(rest) == if exact(left)
                < 0 as real {
                0 as real
            } else {
                exact(left)
            })
}

/// An extent loses the padding.
pub proof fn lemma_loses_padding(extent: Binary32, padding: Binary32)
    requires
        extent.is_finite(),
        padding.is_finite(),
    ensures
        loses_padding(extent, padding, padded_extent(extent, padding)),
        !padded_extent(extent, padding).is_nan(),
{
    let both = product(two(), padding);
    assert(0x4000_0000int / 0x80_0000 == 128 && 0x4000_0000int % 0x80_0000 == 0);
    assert(two().code() == 0x4000_0000);
    lemma_unit();
    lemma_pow2_adds(1, 149);
    lemma_pow2_adds(23, 127);
    lemma2_to64();
    assert(exact(two()) == unit() + unit());
    product_is_rounded(two(), padding);
    let (u, p) = (unit(), exact(padding));
    assert((u + u) * (p / u) == p + p) by (nonlinear_arith)
        requires
            u > 0 as real,
    ;
    assert(rounds(both, exact(padding) + exact(padding)));
    if both.is_finite() {
        let left = difference(extent, both);
        difference_is_rounded(extent, both);
        assert(rounds(left, exact(extent) - exact(both)));
        assert(larger(left, zero()) == padded_extent(extent, padding));
    } else {
        assert(both.is_infinite());
    }
}

/// Padding moves bounds in by its width from the left and right, and by its
/// height from the top and bottom.
pub proof fn padding_moves_bounds_in(bounds: PaneBounds, padding_x: Binary32, padding_y: Binary32)
    requires
        finite_bounds(bounds),
        padding_x.is_finite(),
        padding_y.is_finite(),
    ensures
        ({
            let inner = padded(bounds, padding_x, padding_y);
            &&& rounds(inner.x, exact(bounds.x) + exact(padding_x))
            &&& rounds(inner.y, exact(bounds.y) + exact(padding_y))
            &&& loses_padding(bounds.width, padding_x, inner.width)
            &&& loses_padding(bounds.height, padding_y, inner.height)
        }),
{
    sum_is_rounded(bounds.x, padding_x);
    sum_is_rounded(bounds.y, padding_y);
    lemma_loses_padding(bounds.width, padding_x);
    lemma_loses_padding(bounds.height, padding_y);
}

/// What is not a number does not count as too little room.
pub proof fn nan_extent_has_room(bounds: PaneBounds, direction: SplitDirection, border: Binary32)
    requires
        border.is_nan() || (direction == SplitDirection::Vertical && bounds.width.is_nan()) || (
        direction == SplitDirection::Horizontal && bounds.height.is_nan()),
    ensures
        has_room(bounds, direction, border),
{
    reveal(has_room);
    assert(nan().is_nan());
    assert(opposite(border).code() == border.code());
}

/// A point that is not a number is on no separator.
pub proof fn nan_is_on_no_separator(
    px: Binary32,
    py: Binary32,
    bounds: PaneBounds,
    first_bounds: PaneBounds,
    direction: SplitDirection,
    border: Binary32,
)
    requires
        px.is_nan() || py.is_nan(),
    ensures
        !on_separator(px, py, bounds, first_bounds, direction, border),
{
    reveal(on_separator);
    assert(nan().is_nan());
    assert(unsigned(nan()).is_nan());
}

/// A position that is not a number gives a ratio that is not one.
pub proof fn nan_position_gives_nan_ratio(
    position: Binary32,
    bounds: PaneBounds,
    along: SplitDirection,
    border: Binary32,
    min_extent: Binary32,
)
    requires
        position.is_nan(),
    ensures
        dragged_ratio(position, bounds, along, border, min_extent).is_nan(),
{
    reveal(dragged_ratio);
    assert(nan().is_nan());
}

/// Sides that are divided by what is not a number are none either.
pub proof fn nan_ratio_gives_nan_sides(
    bounds: PaneBounds,
    direction: SplitDirection,
    ratio: Binary32,
    border: Binary32,
)
    requires
        ratio.is_nan(),
    ensures
        ({
            let first = first_half(bounds, direction, ratio, border);
            let second = second_half(bounds, direction, ratio, border);
            &&& direction == SplitDirection::Vertical ==> first.width.is_nan()
                && second.width.is_nan() && second.x.is_nan()
            &&& direction == SplitDirection::Horizontal ==> first.height.is_nan()
                && second.height.is_nan() && second.y.is_nan()
        }),
{
    reveal(first_half);
    reveal(second_half);
    assert(nan().is_nan());
    assert(opposite(nan()).is_nan());
}

} // verus!
