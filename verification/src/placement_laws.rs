//! How the panes of a whole layout lie in the window.
use crate::binary32::{at_most, clamped, difference, less, quotient, sum, Binary32};
use crate::bounds::{first_half, inside, second_half, zero, PaneBounds, SplitDirection};
use crate::layout::{
    divided_extent, dragged_ratio, half, largest_ratio, lemma_limits, one, smallest_ratio,
    PaneId, PaneLayout,
};
use crate::layout_laws::{drag_keeps_smallest_share, smallest_ratio_has_limits};
use vstd::arithmetic::power2::{lemma2_to64, lemma_pow2_adds, lemma_pow2_pos, pow2};
use vstd::prelude::*;

verus! {

/// A rectangle with exact coordinates, in units of two to the power -149.
pub struct Area {
    pub x: real,
    pub y: real,
    pub width: real,
    pub height: real,
}

/// The exact value of a finite number.
pub open spec fn exact(a: Binary32) -> real {
    a.value() as real
}

/// The exact value of a ratio, as a part of one.
pub open spec fn share(ratio: Binary32) -> real {
    ratio.value() as real / pow2(149) as int as real
}

/// The rectangle of finite bounds.
pub open spec fn area(bounds: PaneBounds) -> Area {
    Area {
        x: exact(bounds.x),
        y: exact(bounds.y),
        width: exact(bounds.width),
        height: exact(bounds.height),
    }
}

/// The first side of a split, without rounding.
pub open spec fn first_area(
    whole: Area,
    direction: SplitDirection,
    ratio: Binary32,
    border: real,
) -> Area {
    match direction {
        SplitDirection::Vertical => Area { width: (whole.width - border) * share(ratio), ..whole },
        SplitDirection::Horizontal => Area {
            height: (whole.height - border) * share(ratio),
            ..whole
        },
    }
}

/// The second side of a split, without rounding.
pub open spec fn second_area(
    whole: Area,
    direction: SplitDirection,
    ratio: Binary32,
    border: real,
) -> Area {
    let first = first_area(whole, direction, ratio, border);
    match direction {
        SplitDirection::Vertical => Area {
            x: whole.x + first.width + border,
            width: whole.width - first.width - border,
            ..whole
        },
        SplitDirection::Horizontal => Area {
            y: whole.y + first.height + border,
            height: whole.height - first.height - border,
            ..whole
        },
    }
}

/// The rectangles of all panes, in depth-first order, without rounding.
pub open spec fn areas(layout: PaneLayout, whole: Area, border: real) -> Seq<(PaneId, Area)>
    decreases layout,
{
    match layout {
        PaneLayout::Leaf(id) => seq![(id, whole)],
        PaneLayout::Split { direction, ratio, first, second } => {
            areas(*first, first_area(whole, direction, ratio, border), border) + areas(
                *second,
                second_area(whole, direction, ratio, border),
                border,
            )
        },
    }
}

/// Whether every ratio of the layout is between zero and one, and every split
/// has room for its border.
pub open spec fn has_room_for_borders(layout: PaneLayout, whole: Area, border: real) -> bool
    decreases layout,
{
    match layout {
        PaneLayout::Leaf(_) => true,
        PaneLayout::Split { direction, ratio, first, second } => {
            &&& at_most(zero(), ratio)
            &&& at_most(ratio, one())
            &&& border <= match direction {
                SplitDirection::Vertical => whole.width,
                SplitDirection::Horizontal => whole.height,
            }
            &&& has_room_for_borders(
                *first,
                first_area(whole, direction, ratio, border),
                border,
            )
            &&& has_room_for_borders(
                *second,
                second_area(whole, direction, ratio, border),
                border,
            )
        },
    }
}

/// Whether a rectangle is not turned inside out, and lies inside another one.
pub open spec fn lies_in(part: Area, whole: Area) -> bool {
    &&& part.width >= 0 as real
    &&& part.height >= 0 as real
    &&& whole.x <= part.x
    &&& whole.y <= part.y
    &&& part.x + part.width <= whole.x + whole.width
    &&& part.y + part.height <= whole.y + whole.height
}

/// Whether the point is inside: the left and top edges belong to the rectangle,
/// the right and bottom edges do not.
pub open spec fn area_contains(area: Area, px: real, py: real) -> bool {
    &&& area.x <= px < area.x + area.width
    &&& area.y <= py < area.y + area.height
}

proof fn lemma_share(ratio: Binary32)
    requires
        at_most(zero(), ratio),
        at_most(ratio, one()),
    ensures
        0 as real <= share(ratio) <= 1 as real,
{
    assert(0x3f80_0000int / 0x80_0000 == 127 && 0x3f80_0000int % 0x80_0000 == 0);
    lemma_pow2_adds(23, 126);
    lemma2_to64();
    assert(one().code() == 0x3f80_0000);
    assert(zero().code() == 0);
    let unit = pow2(149) as int;
    lemma_pow2_pos(149);
    assert(one().value() == unit);
    let v = ratio.value();
    let (rv, ru) = (v as real, unit as real);
    assert(0 as real <= rv / ru <= 1 as real) by (nonlinear_arith)
        requires
            0 as real <= rv,
            rv <= ru,
            ru > 0 as real,
    ;
}

proof fn lemma_sides(whole: Area, direction: SplitDirection, ratio: Binary32, border: real)
    requires
        whole.width >= 0 as real,
        whole.height >= 0 as real,
        border >= 0 as real,
        at_most(zero(), ratio),
        at_most(ratio, one()),
        border <= match direction {
            SplitDirection::Vertical => whole.width,
            SplitDirection::Horizontal => whole.height,
        },
    ensures
        lies_in(first_area(whole, direction, ratio, border), whole),
        lies_in(second_area(whole, direction, ratio, border), whole),
        forall|px: real, py: real|
            !(#[trigger] area_contains(first_area(whole, direction, ratio, border), px, py)
                && area_contains(second_area(whole, direction, ratio, border), px, py)),
{
    lemma_share(ratio);
    let r = share(ratio);
    let rest = match direction {
        SplitDirection::Vertical => whole.width - border,
        SplitDirection::Horizontal => whole.height - border,
    };
    assert(0 as real <= rest * r <= rest) by (nonlinear_arith)
        requires
            0 as real <= rest,
            0 as real <= r <= 1 as real,
    ;
}

/// With exact arithmetic, the panes of a layout lie in the window, none of them
/// turned inside out, and no two of them overlap.
pub proof fn panes_lie_apart(layout: PaneLayout, whole: Area, border: real)
    requires
        whole.width >= 0 as real,
        whole.height >= 0 as real,
        border >= 0 as real,
        has_room_for_borders(layout, whole, border),
    ensures
        areas(layout, whole, border).len() == layout.ids().len(),
        forall|i: int|
            0 <= i < layout.ids().len() ==> (#[trigger] areas(layout, whole, border)[i]).0
                == layout.ids()[i] && lies_in(areas(layout, whole, border)[i].1, whole),
        forall|i: int, j: int, px: real, py: real|
            0 <= i < j < layout.ids().len() ==> !(#[trigger] area_contains(
                areas(layout, whole, border)[i].1,
                px,
                py,
            ) && #[trigger] area_contains(areas(layout, whole, border)[j].1, px, py)),
    decreases layout,
{
    if let PaneLayout::Split { direction, ratio, first, second } = layout {
        let left = first_area(whole, direction, ratio, border);
        let right = second_area(whole, direction, ratio, border);
        lemma_sides(whole, direction, ratio, border);
        panes_lie_apart(*first, left, border);
        panes_lie_apart(*second, right, border);
        let all = areas(layout, whole, border);
        let (in_left, in_right) = (areas(*first, left, border), areas(*second, right, border));
        let n = in_left.len() as int;
        assert forall|i: int| 0 <= i < layout.ids().len() implies (#[trigger] all[i]).0
            == layout.ids()[i] && lies_in(all[i].1, whole) by {
            if i < n {
                assert(all[i] == in_left[i]);
            } else {
                assert(all[i] == in_right[i - n]);
            }
        }
        assert forall|i: int, j: int, px: real, py: real|
            0 <= i < j < layout.ids().len() implies !(#[trigger] area_contains(all[i].1, px, py)
            && #[trigger] area_contains(all[j].1, px, py)) by {
            if j < n {
                assert(all[i] == in_left[i] && all[j] == in_left[j]);
            } else if i >= n {
                assert(all[i] == in_right[i - n] && all[j] == in_right[j - n]);
            } else {
                assert(all[i] == in_left[i] && all[j] == in_right[j - n]);
                if area_contains(all[i].1, px, py) && area_contains(all[j].1, px, py) {
                    assert(area_contains(left, px, py));
                    assert(area_contains(right, px, py));
                }
            }
        }
    }
}

/// Whether bounds are finite.
pub open spec fn finite_bounds(bounds: PaneBounds) -> bool {
    bounds.x.is_finite() && bounds.y.is_finite() && bounds.width.is_finite()
        && bounds.height.is_finite()
}

/// Whether the right and bottom edges of bounds are found without rounding.
pub open spec fn exact_edges(bounds: PaneBounds) -> bool {
    &&& finite_bounds(bounds)
    &&& exact(sum(bounds.x, bounds.width)) == exact(bounds.x) + exact(bounds.width)
    &&& exact(sum(bounds.y, bounds.height)) == exact(bounds.y) + exact(bounds.height)
}

/// Whether nothing is rounded when the panes of a layout are placed and their
/// edges are found.
pub open spec fn unrounded(layout: PaneLayout, bounds: PaneBounds, border: Binary32) -> bool
    decreases layout,
{
    match layout {
        PaneLayout::Leaf(_) => exact_edges(bounds),
        PaneLayout::Split { direction, ratio, first, second } => {
            let first_bounds = first_half(bounds, direction, ratio, border);
            let second_bounds = second_half(bounds, direction, ratio, border);
            &&& area(first_bounds) == first_area(area(bounds), direction, ratio, exact(border))
            &&& area(second_bounds) == second_area(area(bounds), direction, ratio, exact(border))
            &&& unrounded(*first, first_bounds, border)
            &&& unrounded(*second, second_bounds, border)
        },
    }
}

/// Where nothing is rounded, panes are placed at their exact rectangles.
pub proof fn unrounded_placement_is_exact(
    layout: PaneLayout,
    bounds: PaneBounds,
    border: Binary32,
)
    requires
        unrounded(layout, bounds, border),
    ensures
        ({
            let placed = layout.placed(bounds, border);
            let exact_areas = areas(layout, area(bounds), exact(border));
            &&& placed.len() == exact_areas.len()
            &&& forall|i: int|
                0 <= i < placed.len() ==> {
                    &&& (#[trigger] placed[i]).0 == exact_areas[i].0
                    &&& area(placed[i].1) == exact_areas[i].1
                    &&& exact_edges(placed[i].1)
                }
        }),
    decreases layout,
{
    if let PaneLayout::Split { direction, ratio, first, second } = layout {
        let first_bounds = first_half(bounds, direction, ratio, border);
        let second_bounds = second_half(bounds, direction, ratio, border);
        unrounded_placement_is_exact(*first, first_bounds, border);
        unrounded_placement_is_exact(*second, second_bounds, border);
        let placed = layout.placed(bounds, border);
        let in_first = first.placed(first_bounds, border);
        let in_second = second.placed(second_bounds, border);
        let n = in_first.len() as int;
        let exact_areas = areas(layout, area(bounds), exact(border));
        let left = areas(*first, area(first_bounds), exact(border));
        let right = areas(*second, area(second_bounds), exact(border));
        assert forall|i: int| 0 <= i < placed.len() implies {
            &&& (#[trigger] placed[i]).0 == exact_areas[i].0
            &&& area(placed[i].1) == exact_areas[i].1
            &&& exact_edges(placed[i].1)
        } by {
            if i < n {
                assert(placed[i] == in_first[i] && exact_areas[i] == left[i]);
            } else {
                assert(placed[i] == in_second[i - n] && exact_areas[i] == right[i - n]);
            }
        }
    }
}

proof fn lemma_inside_exact(bounds: PaneBounds, px: Binary32, py: Binary32)
    requires
        exact_edges(bounds),
        inside(bounds, px, py),
    ensures
        area_contains(area(bounds), exact(px), exact(py)),
{
    reveal(inside);
}

/// Where nothing is rounded, all ratios are between zero and one and every
/// split has room for its border, the placed panes of a layout lie in the
/// window, and no point is inside two of them.
pub proof fn placed_panes_lie_apart(
    layout: PaneLayout,
    bounds: PaneBounds,
    border: Binary32,
    i: int,
    j: int,
    px: Binary32,
    py: Binary32,
)
    requires
        unrounded(layout, bounds, border),
        has_room_for_borders(layout, area(bounds), exact(border)),
        at_most(zero(), border),
        at_most(zero(), bounds.width),
        at_most(zero(), bounds.height),
        0 <= i < j < layout.placed(bounds, border).len(),
    ensures
        lies_in(area(layout.placed(bounds, border)[i].1), area(bounds)),
        lies_in(area(layout.placed(bounds, border)[j].1), area(bounds)),
        !(inside(layout.placed(bounds, border)[i].1, px, py) && inside(
            layout.placed(bounds, border)[j].1,
            px,
            py,
        )),
{
    assert(zero().value() == 0);
    let whole = area(bounds);
    let placed = layout.placed(bounds, border);
    let all = areas(layout, whole, exact(border));
    unrounded_placement_is_exact(layout, bounds, border);
    panes_lie_apart(layout, whole, exact(border));
    assert(placed[i].0 == all[i].0 && placed[j].0 == all[j].0);
    if inside(placed[i].1, px, py) && inside(placed[j].1, px, py) {
        lemma_inside_exact(placed[i].1, px, py);
        lemma_inside_exact(placed[j].1, px, py);
        assert(area_contains(all[i].1, exact(px), exact(py)));
        assert(area_contains(all[j].1, exact(px), exact(py)));
    }
}

/// Where a side of a split begins, along the direction across its border.
pub open spec fn start_of(whole: Area, along: SplitDirection) -> real {
    match along {
        SplitDirection::Vertical => whole.x,
        SplitDirection::Horizontal => whole.y,
    }
}

/// How far it reaches.
pub open spec fn extent_of(whole: Area, along: SplitDirection) -> real {
    match along {
        SplitDirection::Vertical => whole.width,
        SplitDirection::Horizontal => whole.height,
    }
}

/// The ratio that a position asks for, before it is held between the limits.
pub open spec fn asked_ratio(
    position: Binary32,
    bounds: PaneBounds,
    along: SplitDirection,
    border: Binary32,
) -> Binary32 {
    let start = match along {
        SplitDirection::Vertical => bounds.x,
        SplitDirection::Horizontal => bounds.y,
    };
    quotient(difference(position, start), divided_extent(bounds, along, border))
}

/// Whether nothing is rounded when a border is dragged to a position and the
/// two sides take their new places.
pub open spec fn unrounded_drag(
    position: Binary32,
    bounds: PaneBounds,
    along: SplitDirection,
    border: Binary32,
    min_extent: Binary32,
) -> bool {
    let total = divided_extent(bounds, along, border);
    let smallest = smallest_ratio(min_extent, total);
    let asked = asked_ratio(position, bounds, along, border);
    let ratio = dragged_ratio(position, bounds, along, border, min_extent);
    let part = exact(total);
    &&& part == extent_of(area(bounds), along) - exact(border)
    &&& share(asked) * part == exact(position) - start_of(area(bounds), along)
    &&& share(quotient(min_extent, total)) * part == exact(min_extent)
    &&& share(largest_ratio(smallest)) <= 1 as real - share(smallest)
    &&& area(first_half(bounds, along, ratio, border)) == first_area(
        area(bounds),
        along,
        ratio,
        exact(border),
    )
    &&& area(second_half(bounds, along, ratio, border)) == second_area(
        area(bounds),
        along,
        ratio,
        exact(border),
    )
}

/// A drag moves the border to the position: where nothing is rounded and the
/// limits do not bind, the first side ends there.
pub proof fn drag_puts_border_at_position(
    position: Binary32,
    bounds: PaneBounds,
    along: SplitDirection,
    border: Binary32,
    min_extent: Binary32,
)
    requires
        unrounded_drag(position, bounds, along, border, min_extent),
        ({
            let smallest = smallest_ratio(min_extent, divided_extent(bounds, along, border));
            let asked = asked_ratio(position, bounds, along, border);
            at_most(smallest, asked) && at_most(asked, largest_ratio(smallest))
        }),
    ensures
        ({
            let ratio = dragged_ratio(position, bounds, along, border, min_extent);
            let first = area(first_half(bounds, along, ratio, border));
            let second = area(second_half(bounds, along, ratio, border));
            &&& start_of(first, along) + extent_of(first, along) == exact(position)
            &&& start_of(second, along) == exact(position) + exact(border)
        }),
{
    reveal(dragged_ratio);
    let asked = asked_ratio(position, bounds, along, border);
    assert(dragged_ratio(position, bounds, along, border, min_extent) == asked);
    let (a, b) = (share(asked), exact(divided_extent(bounds, along, border)));
    assert(a * b == b * a) by (nonlinear_arith);
}

/// A drag leaves both sides their smallest extent: where nothing is rounded, and
/// that extent is not more than half of what there is to divide, neither side is
/// smaller, wherever the border is dragged.
pub proof fn drag_keeps_smallest_extent(
    position: Binary32,
    bounds: PaneBounds,
    along: SplitDirection,
    border: Binary32,
    min_extent: Binary32,
)
    requires
        unrounded_drag(position, bounds, along, border, min_extent),
        less(zero(), divided_extent(bounds, along, border)),
        at_most(quotient(min_extent, divided_extent(bounds, along, border)), half()),
        !asked_ratio(position, bounds, along, border).is_nan(),
    ensures
        ({
            let ratio = dragged_ratio(position, bounds, along, border, min_extent);
            &&& extent_of(area(first_half(bounds, along, ratio, border)), along) >= exact(min_extent)
            &&& extent_of(area(second_half(bounds, along, ratio, border)), along) >= exact(
                min_extent,
            )
        }),
{
    let total = divided_extent(bounds, along, border);
    let smallest = smallest_ratio(min_extent, total);
    let wanted = quotient(min_extent, total);
    let asked = asked_ratio(position, bounds, along, border);
    let ratio = dragged_ratio(position, bounds, along, border, min_extent);
    assert(zero().value() == 0);
    lemma_limits();
    assert(!smallest.is_nan());
    smallest_ratio_has_limits(min_extent, total);
    drag_keeps_smallest_share(position, bounds, along, border, min_extent);
    assert(ratio == clamped(asked, smallest, largest_ratio(smallest))) by {
        reveal(dragged_ratio);
    }
    assert(!ratio.is_nan());
    lemma_share_order(wanted, smallest);
    lemma_share_order(smallest, ratio);
    lemma_share_order(ratio, largest_ratio(smallest));
    let part = exact(total);
    let (w, s, r) = (share(wanted), share(smallest), share(ratio));
    assert(part > 0 as real);
    assert(part * r >= w * part && part - part * r >= w * part) by (nonlinear_arith)
        requires
            part > 0 as real,
            w <= s,
            s <= r,
            r <= 1 as real - s,
    ;
}

/// Ratios are ordered as their exact values.
proof fn lemma_share_order(a: Binary32, b: Binary32)
    requires
        at_most(a, b),
    ensures
        share(a) <= share(b),
{
    lemma_pow2_pos(149);
    let (x, y, u) = (a.value() as real, b.value() as real, pow2(149) as int as real);
    assert(x / u <= y / u) by (nonlinear_arith)
        requires
            x <= y,
            u > 0 as real,
    ;
}

} // verus!
