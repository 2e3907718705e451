//! Where a drag leaves the borders and panes of a window.
use crate::binary32::{clamped, difference, product, quotient, Binary32};
use crate::bounds::{first_half, second_half, PaneBounds, SplitDirection};
use crate::exact_laws::{
    apart, difference_is_rounded, product_is_rounded, quotient_is_rounded, representable,
    representable_is_kept, rounding_keeps_order, rounds, unit,
};
use crate::geometry_laws::lemma_unit;
use crate::layout::{
    divided_extent, dragged_ratio, half, largest_ratio, lemma_contains_concat,
    lemma_split_around_holds, one, smallest_ratio, twentieth, PaneId, PaneLayout,
};
use crate::layout_laws::{every_pane_is_placed, lemma_sides_apart};
use crate::manager::{by_pane, drag_position, ManagerState};
use crate::manager_laws::lemma_by_pane;
use crate::path_laws::{
    bounds_at, drag_changes_innermost, draggable, dragged_at, innermost, innermost_is_unique,
    lemma_drag_needs_split, lemma_part_holds, node_at, with_ratio_at,
};
use crate::placement_laws::{area, exact, extent_of, finite_bounds, share, start_of};
use crate::rounding::{lemma_magnitude_increases, magnitude};
use crate::tree_laws::{
    held_between, leaf_is_placed_at_its_bounds, lemma_half, new_ratio_changes_one_split,
    new_ratio_keeps_own_bounds, same_but_at,
};
use vstd::arithmetic::power2::{lemma2_to64, lemma_pow2_adds, lemma_pow2_pos, pow2};
use vstd::prelude::*;

verus! {

/// The limits of ratios are one twentieth, rounded, and one half.
pub proof fn limits_are_twentieth_and_half()
    ensures
        rounds(twentieth(), unit() / 20 as real),
        twentieth().is_finite(),
        half().is_finite(),
        exact(half()) + exact(half()) == unit(),
        exact(one()) == unit(),
{
    lemma_unit();
    lemma_half();
    lemma_twentieth();
    let (h, u) = (exact(half()), unit());
    assert(share(half()) == h / u);
    assert(h + h == u) by (nonlinear_arith)
        requires
            h / u + h / u == 1 as real,
            u > 0 as real,
    ;
}

/// One twentieth, between the numbers next to it.
proof fn lemma_twentieth()
    ensures
        rounds(twentieth(), unit() / 20 as real),
{
    let t = twentieth();
    let code = t.code();
    assert(code == 0x3d4c_cccd && !t.negative());
    let s = pow2(121) as int;
    lemma_pow2_pos(121);
    lemma_pow2_adds(121, 28);
    lemma2_to64();
    assert(pow2(149) == s * 0x1000_0000);
    assert(code / 0x80_0000 == 122 && code % 0x80_0000 == 0x4c_cccd);
    assert((code + 1) / 0x80_0000 == 122 && (code + 1) % 0x80_0000 == 0x4c_ccce);
    assert((code - 1) / 0x80_0000 == 122 && (code - 1) % 0x80_0000 == 0x4c_cccc);
    assert(magnitude(code) == 0xcc_cccd * s);
    assert(magnitude(code + 1) == 0xcc_ccce * s);
    assert(magnitude(code - 1) == 0xcc_cccc * s);
    let x = unit() / 20 as real;
    let r = s as real;
    assert(unit() == r * 268435456 as real);
    assert(x * 20 as real == r * 268435456 as real);
    assert(exact(t) == r * 13421773 as real);
    assert forall|c: Binary32| !c.is_nan() implies apart(exact(t), x)
        <= #[trigger] apart(exact(c), x) by {
        lemma_magnitude_increases(0, c.code());
        assert(magnitude(0) == 0);
        if c.negative() {
            assert(exact(c) <= 0 as real);
        } else if c.code() > code {
            lemma_magnitude_increases(code + 1, c.code());
            assert(exact(c) >= r * 13421774 as real);
        } else if c.code() < code {
            lemma_magnitude_increases(c.code(), code - 1);
            assert(exact(c) <= r * 13421772 as real);
        } else {
            assert(exact(c) == exact(t));
        }
    }
}

/// Whether a ratio is the one that a position asks for: the offset from the start
/// as a part of what there is to divide, held between the ratio of the smallest
/// extent and what that leaves of one. That smallest ratio is itself held between
/// one twentieth and one half. Each step is rounded.
pub open spec fn puts_border_at(
    ratio: Binary32,
    position: Binary32,
    start: Binary32,
    extent: Binary32,
    border: Binary32,
    min_extent: Binary32,
) -> bool {
    exists|offset: Binary32, total: Binary32|
        #![trigger rounds(offset, exact(position) - exact(start)), rounds(total, exact(extent) - exact(border))]
        {
            &&& rounds(offset, exact(position) - exact(start))
            &&& rounds(total, exact(extent) - exact(border))
            &&& offset.is_finite() && total.is_finite() && exact(total) != 0 as real
                ==> is_held_quotient(ratio, offset, total, min_extent)
        }
}

/// Whether a ratio is an offset as a part of a total, held between its limits.
pub open spec fn is_held_quotient(
    ratio: Binary32,
    offset: Binary32,
    total: Binary32,
    min_extent: Binary32,
) -> bool {
    exists|asked: Binary32, wanted: Binary32, rest: Binary32|
        #![trigger is_held_by(ratio, offset, total, min_extent, asked, wanted, rest)]
        is_held_by(ratio, offset, total, min_extent, asked, wanted, rest)
}

/// The same, with the ratio that is asked for, the one that the smallest extent
/// wants, and what the smallest ratio leaves of one.
pub open spec fn is_held_by(
    ratio: Binary32,
    offset: Binary32,
    total: Binary32,
    min_extent: Binary32,
    asked: Binary32,
    wanted: Binary32,
    rest: Binary32,
) -> bool {
    let smallest = held_between(exact(wanted), exact(twentieth()), exact(half()));
    &&& rounds(asked, exact(offset) / exact(total) * unit())
    &&& rounds(wanted, exact(min_extent) / exact(total) * unit())
    &&& rounds(rest, unit() - smallest)
    &&& exact(ratio) == held_between(exact(asked), smallest, exact(rest))
}

/// A drag gives the split the ratio that the position asks for: by the left edge
/// and the width for a vertical split, by the top edge and the height for a
/// horizontal one.
pub proof fn drag_asks_by_position(
    position: Binary32,
    bounds: PaneBounds,
    along: SplitDirection,
    border: Binary32,
    min_extent: Binary32,
)
    requires
        finite_bounds(bounds),
        position.is_finite(),
        border.is_finite(),
        min_extent.is_finite(),
    ensures
        ({
            let ratio = dragged_ratio(position, bounds, along, border, min_extent);
            match along {
                SplitDirection::Vertical => puts_border_at(
                    ratio,
                    position,
                    bounds.x,
                    bounds.width,
                    border,
                    min_extent,
                ),
                SplitDirection::Horizontal => puts_border_at(
                    ratio,
                    position,
                    bounds.y,
                    bounds.height,
                    border,
                    min_extent,
                ),
            }
        }),
{
    reveal(dragged_ratio);
    let (start, extent) = match along {
        SplitDirection::Vertical => (bounds.x, bounds.width),
        SplitDirection::Horizontal => (bounds.y, bounds.height),
    };
    let offset = difference(position, start);
    let total = difference(extent, border);
    difference_is_rounded(position, start);
    difference_is_rounded(extent, border);
    if offset.is_finite() && total.is_finite() && exact(total) != 0 as real {
        lemma_held_quotient(offset, total, min_extent);
    }
    assert(puts_border_at(
        dragged_ratio(position, bounds, along, border, min_extent),
        position,
        start,
        extent,
        border,
        min_extent,
    ));
}

proof fn lemma_held_quotient(offset: Binary32, total: Binary32, min_extent: Binary32)
    requires
        offset.is_finite(),
        total.is_finite(),
        min_extent.is_finite(),
        exact(total) != 0 as real,
    ensures
        ({
            let smallest = smallest_ratio(min_extent, total);
            is_held_quotient(
                clamped(quotient(offset, total), smallest, largest_ratio(smallest)),
                offset,
                total,
                min_extent,
            )
        }),
{
    let smallest = smallest_ratio(min_extent, total);
    let rest = largest_ratio(smallest);
    let asked = quotient(offset, total);
    let wanted = quotient(min_extent, total);
    quotient_is_rounded(offset, total);
    quotient_is_rounded(min_extent, total);
    limits_are_twentieth_and_half();
    lemma_magnitude_increases(0, wanted.code());
    if wanted.is_infinite() {
        lemma_magnitude_increases(half().code(), wanted.code());
    }
    assert(smallest.is_finite());
    lemma_held(wanted, twentieth(), half());
    difference_is_rounded(one(), smallest);
    lemma_held(asked, smallest, rest);
    let ratio = clamped(asked, smallest, rest);
    assert(is_held_by(ratio, offset, total, min_extent, asked, wanted, rest));
}

proof fn lemma_held(a: Binary32, low: Binary32, high: Binary32)
    requires
        !a.is_nan(),
        !low.is_nan(),
        !high.is_nan(),
    ensures
        exact(clamped(a, low, high)) == held_between(exact(a), exact(low), exact(high)),
{
}

/// Whether nothing is rounded when the border of a split is dragged to a position,
/// and both sides keep their smallest extent there and at least one twentieth of
/// what there is to divide.
pub open spec fn free_drag(
    position: Binary32,
    bounds: PaneBounds,
    along: SplitDirection,
    border: Binary32,
    min_extent: Binary32,
) -> bool {
    let total = extent_of(area(bounds), along) - exact(border);
    let offset = exact(position) - start_of(area(bounds), along);
    &&& finite_bounds(bounds)
    &&& position.is_finite()
    &&& border.is_finite()
    &&& min_extent.is_finite()
    &&& total > 0 as real
    &&& representable(total)
    &&& representable(offset)
    &&& representable(offset / total * unit())
    &&& representable((total - offset) / total * unit())
    &&& exact(min_extent) <= offset
    &&& exact(min_extent) <= total - offset
    &&& total <= offset * 20 as real
    &&& total <= (total - offset) * 20 as real
}

/// What is rounded from no more than a number is no more than it.
proof fn lemma_rounds_at_most(r: Binary32, x: real, y: real)
    requires
        rounds(r, x),
        representable(y),
        x <= y,
    ensures
        exact(r) <= y,
{
    let c = choose|c: Binary32| c.is_finite() && #[trigger] exact(c) == y;
    if x < y {
        assert(rounds(c, y));
        rounding_keeps_order(r, x, c, y);
    } else {
        representable_is_kept(r, x);
    }
}

/// What is rounded from no less than a number is no less than it.
proof fn lemma_rounds_at_least(r: Binary32, x: real, y: real)
    requires
        rounds(r, x),
        representable(y),
        y <= x,
    ensures
        y <= exact(r),
{
    let c = choose|c: Binary32| c.is_finite() && #[trigger] exact(c) == y;
    if y < x {
        assert(rounds(c, y));
        rounding_keeps_order(c, y, r, x);
    } else {
        representable_is_kept(r, x);
    }
}

/// Parts of a positive whole.
proof fn lemma_parts(part: real, other: real, total: real, u: real)
    requires
        total > 0 as real,
        u > 0 as real,
    ensures
        total * (part / total * u / u) == part,
        part / total * u + (total - part) / total * u == u,
        other <= part ==> other / total * u <= part / total * u,
        total <= part * 20 as real ==> u / 20 as real <= part / total * u,
        part + part <= total ==> part / total * u + part / total * u <= u,
{
    let q = part / total;
    assert(q * total == part) by (nonlinear_arith)
        requires
            q == part / total,
            total > 0 as real,
    ;
    let v = q * u;
    assert(v / u == q) by (nonlinear_arith)
        requires
            v == q * u,
            u > 0 as real,
    ;
    assert(total * q == part) by (nonlinear_arith)
        requires
            q * total == part,
    ;
    let p = (total - part) / total;
    assert(p == 1 as real - q) by (nonlinear_arith)
        requires
            p == (total - part) / total,
            q == part / total,
            total > 0 as real,
    ;
    assert(q * u + p * u == u) by (nonlinear_arith)
        requires
            p == 1 as real - q,
    ;
    if other <= part {
        let o = other / total;
        assert(o <= q) by (nonlinear_arith)
            requires
                o == other / total,
                q == part / total,
                other <= part,
                total > 0 as real,
        ;
        assert(o * u <= q * u) by (nonlinear_arith)
            requires
                o <= q,
                u > 0 as real,
        ;
    }
    if total <= part * 20 as real {
        assert(1 as real <= q * 20 as real) by (nonlinear_arith)
            requires
                q * total == part,
                total <= part * 20 as real,
                total > 0 as real,
        ;
        assert(u <= q * u * 20 as real) by (nonlinear_arith)
            requires
                1 as real <= q * 20 as real,
                u > 0 as real,
        ;
    }
    if part + part <= total {
        assert(q + q <= 1 as real) by (nonlinear_arith)
            requires
                q * total == part,
                part + part <= total,
                total > 0 as real,
        ;
        assert(q * u + q * u <= u) by (nonlinear_arith)
            requires
                q + q <= 1 as real,
                u > 0 as real,
        ;
    }
}

/// The ratio of such a drag is the one that was asked for.
proof fn lemma_free_drag_ratio(
    position: Binary32,
    bounds: PaneBounds,
    along: SplitDirection,
    border: Binary32,
    min_extent: Binary32,
)
    requires
        free_drag(position, bounds, along, border, min_extent),
    ensures
        ({
            let total = extent_of(area(bounds), along) - exact(border);
            let offset = exact(position) - start_of(area(bounds), along);
            let ratio = dragged_ratio(position, bounds, along, border, min_extent);
            &&& ratio.is_finite()
            &&& exact(ratio) == offset / total * unit()
        }),
{
    let (start, extent) = match along {
        SplitDirection::Vertical => (bounds.x, bounds.width),
        SplitDirection::Horizontal => (bounds.y, bounds.height),
    };
    let total = exact(extent) - exact(border);
    let offset = exact(position) - exact(start);
    let part = difference(position, start);
    let room = difference(extent, border);
    difference_is_rounded(position, start);
    difference_is_rounded(extent, border);
    representable_is_kept(part, offset);
    representable_is_kept(room, total);
    limits_are_twentieth_and_half();
    lemma_unit();
    let u = unit();
    let asked = quotient(part, room);
    let wanted = quotient(min_extent, room);
    quotient_is_rounded(part, room);
    quotient_is_rounded(min_extent, room);
    let (a, b) = (offset / total * u, (total - offset) / total * u);
    representable_is_kept(asked, a);
    let least = exact(min_extent);
    lemma_parts(offset, least, total, u);
    lemma_parts(total - offset, least, total, u);
    lemma_parts(least, least, total, u);
    let w = exact(min_extent) / total * u;
    assert(w <= a && w <= b);
    lemma_rounds_at_most(wanted, w, a);
    lemma_rounds_at_most(wanted, w, b);
    lemma_rounds_at_most(twentieth(), u / 20 as real, a);
    lemma_rounds_at_most(twentieth(), u / 20 as real, b);
    assert(exact(wanted) <= exact(half()));
    let smallest = smallest_ratio(min_extent, room);
    assert(smallest.is_finite() && exact(smallest) <= a && exact(smallest) <= b) by {
        lemma_held(wanted, twentieth(), half());
        lemma_finite_between(wanted, twentieth(), half());
    }
    let largest = largest_ratio(smallest);
    difference_is_rounded(one(), smallest);
    lemma_rounds_at_least(largest, u - exact(smallest), a);
    assert(dragged_ratio(position, bounds, along, border, min_extent) == asked) by {
        reveal(dragged_ratio);
    }
}

proof fn lemma_finite_between(a: Binary32, low: Binary32, high: Binary32)
    requires
        !a.is_nan(),
        low.is_finite(),
        high.is_finite(),
        exact(low) <= exact(high),
    ensures
        clamped(a, low, high).is_finite(),
{
    lemma_magnitude_increases(0, a.code());
    lemma_magnitude_increases(0, low.code());
    lemma_magnitude_increases(0, high.code());
    if a.is_infinite() {
        lemma_magnitude_increases(high.code(), a.code());
        lemma_magnitude_increases(low.code(), a.code());
    }
}

/// A drag puts the end of the first side at the position: where nothing is rounded
/// and both sides keep their smallest extent, the first side ends there.
pub proof fn free_drag_puts_border_at_position(
    position: Binary32,
    bounds: PaneBounds,
    along: SplitDirection,
    border: Binary32,
    min_extent: Binary32,
)
    requires
        free_drag(position, bounds, along, border, min_extent),
    ensures
        ({
            let ratio = dragged_ratio(position, bounds, along, border, min_extent);
            let first = first_half(bounds, along, ratio, border);
            match along {
                SplitDirection::Vertical => exact(first.x) + exact(first.width) == exact(position),
                SplitDirection::Horizontal => exact(first.y) + exact(first.height) == exact(
                    position,
                ),
            }
        }),
{
    lemma_free_drag_ratio(position, bounds, along, border, min_extent);
    lemma_unit();
    let ratio = dragged_ratio(position, bounds, along, border, min_extent);
    let (start, extent) = match along {
        SplitDirection::Vertical => (bounds.x, bounds.width),
        SplitDirection::Horizontal => (bounds.y, bounds.height),
    };
    let total = exact(extent) - exact(border);
    let offset = exact(position) - exact(start);
    let room = difference(extent, border);
    difference_is_rounded(extent, border);
    representable_is_kept(room, total);
    product_is_rounded(room, ratio);
    lemma_parts(offset, offset, total, unit());
    assert(share(ratio) == exact(ratio) / unit());
    representable_is_kept(product(room, ratio), offset);
    reveal(first_half);
}

/// After a drag of a border to a point, the first side of the innermost split of
/// its direction around the pane ends there: at `px` for a vertical border, at
/// `py` for a horizontal one. This holds in the window as a whole, for a split at
/// any depth, where nothing is rounded and both sides keep their smallest extent.
/// All other parts of the layout stay as they are.
pub proof fn drag_puts_border_at_pointer<P>(
    state: ManagerState<P>,
    target: PaneId,
    direction: SplitDirection,
    px: Binary32,
    py: Binary32,
    path: Seq<bool>,
)
    requires
        state.layout.ids().no_duplicates(),
        innermost(state.layout, path, target, direction, state.window, state.border),
        ({
            let own = bounds_at(state.layout, path, state.window, state.border);
            match direction {
                SplitDirection::Vertical => free_drag(
                    px,
                    own,
                    direction,
                    state.border,
                    state.min_extent.0,
                ),
                SplitDirection::Horizontal => free_drag(
                    py,
                    own,
                    direction,
                    state.border,
                    state.min_extent.1,
                ),
            }
        }),
    ensures
        ({
            let after = state.after_drag(target, direction, px, py);
            let first = bounds_at(after.layout, path.push(false), after.window, after.border);
            &&& after == (ManagerState { layout: after.layout, ..state })
            &&& same_but_at(state.layout, after.layout, path)
            &&& direction == SplitDirection::Vertical ==> exact(first.x) + exact(first.width)
                == exact(px)
            &&& direction == SplitDirection::Horizontal ==> exact(first.y) + exact(first.height)
                == exact(py)
        }),
{
    let (position, min_extent) = match direction {
        SplitDirection::Vertical => (px, state.min_extent.0),
        SplitDirection::Horizontal => (py, state.min_extent.1),
    };
    let own = bounds_at(state.layout, path, state.window, state.border);
    let ratio = dragged_ratio(position, own, direction, state.border, min_extent);
    let after = state.after_drag(target, direction, px, py);
    lemma_drag_at(state, target, direction, px, py, path);
    new_ratio_changes_one_split(state.layout, path, ratio);
    new_ratio_keeps_own_bounds(state.layout, path, ratio, state.window, state.border);
    lemma_bounds_below(after.layout, path, state.window, state.border);
    free_drag_puts_border_at_position(position, own, direction, state.border, min_extent);
}

/// A drag replaces the ratio of the innermost split.
proof fn lemma_drag_at<P>(
    state: ManagerState<P>,
    target: PaneId,
    direction: SplitDirection,
    px: Binary32,
    py: Binary32,
    path: Seq<bool>,
)
    requires
        state.layout.ids().no_duplicates(),
        innermost(state.layout, path, target, direction, state.window, state.border),
    ensures
        ({
            let own = bounds_at(state.layout, path, state.window, state.border);
            let (position, min_extent) = match direction {
                SplitDirection::Vertical => (px, state.min_extent.0),
                SplitDirection::Horizontal => (py, state.min_extent.1),
            };
            let ratio = dragged_ratio(position, own, direction, state.border, min_extent);
            state.after_drag(target, direction, px, py) == (ManagerState {
                layout: with_ratio_at(state.layout, path, ratio),
                ..state
            })
        }),
{
    let (layout, window, border) = (state.layout, state.window, state.border);
    let (position, min_extent) = match direction {
        SplitDirection::Vertical => (px, state.min_extent.0),
        SplitDirection::Horizontal => (py, state.min_extent.1),
    };
    drag_changes_innermost(layout, target, direction, position, window, border, min_extent);
    let dragged = state.dragged(target, direction, px, py);
    assert(dragged == layout.with_drag(target, direction, position, window, border, min_extent));
    assert(dragged is Some);
    let other = choose|other: Seq<bool>| #[trigger]
        dragged_at(
            layout,
            dragged->0,
            other,
            target,
            direction,
            position,
            window,
            border,
            min_extent,
        );
    innermost_is_unique(layout, path, other, target, direction, window, border);
    innermost_is_unique(layout, other, path, target, direction, window, border);
    assert(other =~= path);
}

/// A drag gives the innermost split of the direction around the pane, at any depth
/// of the window, the ratio that the point asks for: by `px`, the widths and the
/// smallest width of a pane for a vertical border, by `py` and the heights for a
/// horizontal one. All other parts of the layout stay as they are.
pub proof fn drag_sets_ratio_by_pointer<P>(
    state: ManagerState<P>,
    target: PaneId,
    direction: SplitDirection,
    px: Binary32,
    py: Binary32,
    path: Seq<bool>,
)
    requires
        state.layout.ids().no_duplicates(),
        innermost(state.layout, path, target, direction, state.window, state.border),
        finite_bounds(bounds_at(state.layout, path, state.window, state.border)),
        state.border.is_finite(),
        direction == SplitDirection::Vertical ==> px.is_finite() && state.min_extent.0.is_finite(),
        direction == SplitDirection::Horizontal ==> py.is_finite() && state.min_extent.1.is_finite(),
    ensures
        ({
            let after = state.after_drag(target, direction, px, py);
            let own = bounds_at(state.layout, path, state.window, state.border);
            let before = node_at(state.layout, path)->0;
            &&& after == (ManagerState { layout: after.layout, ..state })
            &&& same_but_at(state.layout, after.layout, path)
            &&& match node_at(after.layout, path) {
                Some(PaneLayout::Split { direction: along, ratio, first, second }) => {
                    &&& along == direction
                    &&& first == before->first
                    &&& second == before->second
                    &&& direction == SplitDirection::Vertical ==> puts_border_at(
                        ratio,
                        px,
                        own.x,
                        own.width,
                        state.border,
                        state.min_extent.0,
                    )
                    &&& direction == SplitDirection::Horizontal ==> puts_border_at(
                        ratio,
                        py,
                        own.y,
                        own.height,
                        state.border,
                        state.min_extent.1,
                    )
                },
                _ => false,
            }
        }),
{
    let (position, min_extent) = match direction {
        SplitDirection::Vertical => (px, state.min_extent.0),
        SplitDirection::Horizontal => (py, state.min_extent.1),
    };
    let own = bounds_at(state.layout, path, state.window, state.border);
    let ratio = dragged_ratio(position, own, direction, state.border, min_extent);
    lemma_drag_at(state, target, direction, px, py, path);
    new_ratio_changes_one_split(state.layout, path, ratio);
    drag_asks_by_position(position, own, direction, state.border, min_extent);
}

/// The bounds of the first side of the split at the end of a path.
proof fn lemma_bounds_below(
    layout: PaneLayout,
    path: Seq<bool>,
    bounds: PaneBounds,
    border: Binary32,
)
    requires
        node_at(layout, path) is Some,
        node_at(layout, path)->0 is Split,
    ensures
        ({
            let node = node_at(layout, path)->0;
            let own = bounds_at(layout, path, bounds, border);
            bounds_at(layout, path.push(false), bounds, border) == first_half(
                own,
                node->direction,
                node->ratio,
                border,
            )
        }),
    decreases path.len(),
{
    if path.len() == 0 {
        assert(path.push(false).drop_first() =~= Seq::empty());
        assert(bounds_at(
            *layout->first,
            Seq::empty(),
            first_half(bounds, layout->direction, layout->ratio, border),
            border,
        ) == first_half(bounds, layout->direction, layout->ratio, border));
    } else if let PaneLayout::Split { direction, ratio, first, second } = layout {
        let rest = path.drop_first();
        assert(path.push(false).drop_first() =~= rest.push(false));
        if path[0] {
            lemma_bounds_below(*second, rest, second_half(bounds, direction, ratio, border), border);
        } else {
            lemma_bounds_below(*first, rest, first_half(bounds, direction, ratio, border), border);
        }
    }
}

/// The bounds of a pane are those of its leaf.
pub proof fn pane_has_bounds_of_its_leaf<P>(state: ManagerState<P>, path: Seq<bool>, id: PaneId)
    requires
        state.layout.ids().no_duplicates(),
        node_at(state.layout, path) == Some(PaneLayout::Leaf(id)),
    ensures
        state.bounds().contains_key(id.0),
        state.bounds()[id.0] == bounds_at(state.layout, path, state.window, state.border),
{
    let placed = state.layout.placed(state.window, state.border);
    let own = bounds_at(state.layout, path, state.window, state.border);
    leaf_is_placed_at_its_bounds(state.layout, path, id, state.window, state.border);
    every_pane_is_placed(state.layout, state.window, state.border);
    let i = placed.index_of((id, own));
    assert(placed[i].0 == id && state.layout.ids()[i] == id);
    lemma_by_pane(placed, id);
    let j = choose|j: int|
        0 <= j < placed.len() && #[trigger] placed[j] == (id, by_pane(placed)[id.0]);
    assert(state.layout.ids()[j] == id);
}

/// After a drag of a border whose first side is a single pane, that pane ends at
/// the point.
pub proof fn dragged_pane_ends_at_pointer<P>(
    state: ManagerState<P>,
    target: PaneId,
    direction: SplitDirection,
    px: Binary32,
    py: Binary32,
    path: Seq<bool>,
    id: PaneId,
)
    requires
        state.layout.ids().no_duplicates(),
        innermost(state.layout, path, target, direction, state.window, state.border),
        *(node_at(state.layout, path)->0)->first == PaneLayout::Leaf(id),
        ({
            let own = bounds_at(state.layout, path, state.window, state.border);
            match direction {
                SplitDirection::Vertical => free_drag(
                    px,
                    own,
                    direction,
                    state.border,
                    state.min_extent.0,
                ),
                SplitDirection::Horizontal => free_drag(
                    py,
                    own,
                    direction,
                    state.border,
                    state.min_extent.1,
                ),
            }
        }),
    ensures
        ({
            let after = state.after_drag(target, direction, px, py);
            let own = after.bounds()[id.0];
            &&& after.bounds().contains_key(id.0)
            &&& direction == SplitDirection::Vertical ==> exact(own.x) + exact(own.width) == exact(
                px,
            )
            &&& direction == SplitDirection::Horizontal ==> exact(own.y) + exact(own.height)
                == exact(py)
        }),
{
    let after = state.after_drag(target, direction, px, py);
    drag_puts_border_at_pointer(state, target, direction, px, py, path);
    let (position, min_extent) = match direction {
        SplitDirection::Vertical => (px, state.min_extent.0),
        SplitDirection::Horizontal => (py, state.min_extent.1),
    };
    let own = bounds_at(state.layout, path, state.window, state.border);
    let ratio = dragged_ratio(position, own, direction, state.border, min_extent);
    lemma_drag_at(state, target, direction, px, py, path);
    new_ratio_changes_one_split(state.layout, path, ratio);
    lemma_ratio_keeps_ids(state.layout, path, ratio);
    lemma_first_at(after.layout, path);
    pane_has_bounds_of_its_leaf(after, path.push(false), id);
}

proof fn lemma_ratio_keeps_ids(layout: PaneLayout, path: Seq<bool>, ratio: Binary32)
    ensures
        with_ratio_at(layout, path, ratio).ids() == layout.ids(),
    decreases layout,
{
    if path.len() > 0 {
        if let PaneLayout::Split { first, second, .. } = layout {
            lemma_ratio_keeps_ids(*first, path.drop_first(), ratio);
            lemma_ratio_keeps_ids(*second, path.drop_first(), ratio);
        }
    }
}

proof fn lemma_first_at(layout: PaneLayout, path: Seq<bool>)
    requires
        node_at(layout, path) is Some,
        node_at(layout, path)->0 is Split,
    ensures
        node_at(layout, path.push(false)) == Some(*(node_at(layout, path)->0)->first),
    decreases path.len(),
{
    if path.len() == 0 {
        assert(path.push(false).drop_first() =~= Seq::empty());
        assert(node_at(*layout->first, Seq::empty()) == Some(*layout->first));
    } else if let PaneLayout::Split { first, second, .. } = layout {
        assert(path.push(false).drop_first() =~= path.drop_first().push(false));
        lemma_first_at(if path[0] { *second } else { *first }, path.drop_first());
    }
}

/// Without a split of the direction around the pane that has room, a drag changes
/// nothing.
pub proof fn drag_without_room_changes_nothing<P>(
    state: ManagerState<P>,
    target: PaneId,
    direction: SplitDirection,
    px: Binary32,
    py: Binary32,
)
    requires
        forall|path: Seq<bool>| !#[trigger]
            draggable(state.layout, path, target, direction, state.window, state.border),
    ensures
        state.dragged(target, direction, px, py) is None,
        state.after_drag(target, direction, px, py) == state,
{
    lemma_nothing_to_drag(
        state.layout,
        target,
        direction,
        drag_position(direction, px, py),
        state.window,
        state.border,
        state.min_across(direction),
    );
}

proof fn lemma_nothing_to_drag(
    layout: PaneLayout,
    target: PaneId,
    along: SplitDirection,
    position: Binary32,
    bounds: PaneBounds,
    border: Binary32,
    min_extent: Binary32,
)
    requires
        forall|path: Seq<bool>| !#[trigger]
            draggable(layout, path, target, along, bounds, border),
    ensures
        layout.with_drag(target, along, position, bounds, border, min_extent) is None,
{
    drag_changes_innermost(layout, target, along, position, bounds, border, min_extent);
    let dragged = layout.with_drag(target, along, position, bounds, border, min_extent);
    if dragged is Some {
        let path = choose|path: Seq<bool>| #[trigger]
            dragged_at(
                layout,
                dragged->0,
                path,
                target,
                along,
                position,
                bounds,
                border,
                min_extent,
            );
        assert(draggable(layout, path, target, along, bounds, border));
    }
}

/// A drag that moves nothing has no limits to miss.
proof fn lemma_unmoved_has_limits(
    layout: PaneLayout,
    target: PaneId,
    along: SplitDirection,
    position: Binary32,
    bounds: PaneBounds,
    border: Binary32,
    min_extent: Binary32,
)
    requires
        layout.with_drag(target, along, position, bounds, border, min_extent) is None,
    ensures
        layout.drag_has_limits(target, along, position, bounds, border, min_extent),
    decreases layout,
{
    if let PaneLayout::Split { direction, ratio, first, second } = layout {
        let first_bounds = first_half(bounds, direction, ratio, border);
        let second_bounds = second_half(bounds, direction, ratio, border);
        lemma_unmoved_has_limits(*first, target, along, position, first_bounds, border, min_extent);
        lemma_unmoved_has_limits(
            *second,
            target,
            along,
            position,
            second_bounds,
            border,
            min_extent,
        );
    }
}

/// What can be dragged in one side of a split.
proof fn lemma_draggable_below(
    layout: PaneLayout,
    step: bool,
    path: Seq<bool>,
    target: PaneId,
    along: SplitDirection,
    bounds: PaneBounds,
    border: Binary32,
)
    requires
        layout is Split,
    ensures
        draggable(layout, seq![step] + path, target, along, bounds, border) == (if step {
            draggable(
                *layout->second,
                path,
                target,
                along,
                second_half(bounds, layout->direction, layout->ratio, border),
                border,
            )
        } else {
            draggable(
                *layout->first,
                path,
                target,
                along,
                first_half(bounds, layout->direction, layout->ratio, border),
                border,
            )
        }),
{
    assert((seq![step] + path).drop_first() =~= path);
    assert((seq![step] + path)[0] == step);
}

/// The innermost split of a layout that is not at its root is the innermost one
/// of that side.
proof fn lemma_innermost_below(
    layout: PaneLayout,
    path: Seq<bool>,
    target: PaneId,
    along: SplitDirection,
    bounds: PaneBounds,
    border: Binary32,
)
    requires
        layout is Split,
        path.len() > 0,
        innermost(layout, path, target, along, bounds, border),
    ensures
        ({
            let (side, own) = if path[0] {
                (
                    *layout->second,
                    second_half(bounds, layout->direction, layout->ratio, border),
                )
            } else {
                (*layout->first, first_half(bounds, layout->direction, layout->ratio, border))
            };
            innermost(side, path.drop_first(), target, along, own, border)
        }),
{
    let (side, own) = if path[0] {
        (*layout->second, second_half(bounds, layout->direction, layout->ratio, border))
    } else {
        (*layout->first, first_half(bounds, layout->direction, layout->ratio, border))
    };
    let rest = path.drop_first();
    assert(seq![path[0]] + rest =~= path);
    lemma_draggable_below(layout, path[0], rest, target, along, bounds, border);
    assert forall|longer: Seq<bool>|
        rest.is_prefix_of(longer) && longer != rest implies !#[trigger] draggable(
        side,
        longer,
        target,
        along,
        own,
        border,
    ) by {
        let whole = seq![path[0]] + longer;
        lemma_draggable_below(layout, path[0], longer, target, along, bounds, border);
        assert(path.is_prefix_of(whole)) by {
            assert(whole.take(path.len() as int) =~= path);
        }
        assert(whole != path) by {
            if whole == path {
                assert(longer =~= whole.drop_first());
            }
        }
    }
}

/// A drag has limits where the smallest extent of a pane, as a part of what the
/// innermost split has to divide, is a number.
pub proof fn drag_has_limits_of_innermost(
    layout: PaneLayout,
    target: PaneId,
    along: SplitDirection,
    position: Binary32,
    bounds: PaneBounds,
    border: Binary32,
    min_extent: Binary32,
    path: Seq<bool>,
)
    requires
        layout.ids().no_duplicates(),
        innermost(layout, path, target, along, bounds, border),
    ensures
        ({
            let own = bounds_at(layout, path, bounds, border);
            let extent = match along {
                SplitDirection::Vertical => own.width,
                SplitDirection::Horizontal => own.height,
            };
            layout.drag_has_limits(target, along, position, bounds, border, min_extent)
                <==> !quotient(min_extent, difference(extent, border)).is_nan()
        }),
    decreases layout,
{
    if let PaneLayout::Split { direction, ratio, first, second } = layout {
        let first_bounds = first_half(bounds, direction, ratio, border);
        let second_bounds = second_half(bounds, direction, ratio, border);
        lemma_contains_concat(first.ids(), second.ids(), target);
        lemma_sides_apart(first.ids(), second.ids());
        if path.len() == 0 {
            assert forall|longer: Seq<bool>| !#[trigger] draggable(
                *first,
                longer,
                target,
                along,
                first_bounds,
                border,
            ) by {
                lemma_draggable_below(layout, false, longer, target, along, bounds, border);
                assert(path.is_prefix_of(seq![false] + longer));
            }
            assert forall|longer: Seq<bool>| !#[trigger] draggable(
                *second,
                longer,
                target,
                along,
                second_bounds,
                border,
            ) by {
                lemma_draggable_below(layout, true, longer, target, along, bounds, border);
                assert(path.is_prefix_of(seq![true] + longer));
            }
            lemma_nothing_to_drag(
                *first,
                target,
                along,
                position,
                first_bounds,
                border,
                min_extent,
            );
            lemma_nothing_to_drag(
                *second,
                target,
                along,
                position,
                second_bounds,
                border,
                min_extent,
            );
            lemma_unmoved_has_limits(
                *first,
                target,
                along,
                position,
                first_bounds,
                border,
                min_extent,
            );
            lemma_unmoved_has_limits(
                *second,
                target,
                along,
                position,
                second_bounds,
                border,
                min_extent,
            );
            lemma_smallest_is_number(min_extent, divided_extent(bounds, along, border));
        } else {
            let rest = path.drop_first();
            lemma_innermost_below(layout, path, target, along, bounds, border);
            if path[0] {
                lemma_part_holds(*second, rest, target);
                assert(!first.holds(target)) by {
                    assert(first.ids().contains(target) ==> !second.ids().contains(target));
                }
                lemma_split_around_holds(*first, target, along);
                lemma_drag_needs_split(
                    *first,
                    target,
                    along,
                    position,
                    first_bounds,
                    border,
                    min_extent,
                );
                drag_has_limits_of_innermost(
                    *second,
                    target,
                    along,
                    position,
                    second_bounds,
                    border,
                    min_extent,
                    rest,
                );
                drag_changes_innermost(
                    *second,
                    target,
                    along,
                    position,
                    second_bounds,
                    border,
                    min_extent,
                );
            } else {
                drag_has_limits_of_innermost(
                    *first,
                    target,
                    along,
                    position,
                    first_bounds,
                    border,
                    min_extent,
                    rest,
                );
                drag_changes_innermost(
                    *first,
                    target,
                    along,
                    position,
                    first_bounds,
                    border,
                    min_extent,
                );
            }
        }
    }
}

proof fn lemma_smallest_is_number(min_extent: Binary32, total: Binary32)
    ensures
        smallest_ratio(min_extent, total).is_nan() <==> quotient(min_extent, total).is_nan(),
{
    limits_are_twentieth_and_half();
}

} // verus!
