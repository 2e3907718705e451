//! What holds of layouts across their operations.
use crate::binary32::{
    at_most, clamped, difference, encoded, lemma_rest_of_one, less, opposite, quotient, sum,
    Binary32,
};
use crate::bounds::{first_half, inside, second_half, zero, PaneBounds, SplitDirection};
use crate::layout::{
    divided_extent, dragged_ratio, first_hit, half, has_room, largest_ratio,
    lemma_contains_concat, lemma_ids_not_empty, lemma_limits, lemma_split_around_holds,
    on_separator, one, smallest_ratio, twentieth, PaneId, PaneLayout, HALF, ONE, TWENTIETH,
};
use crate::rounding::{
    lemma_magnitude_increases, lemma_nearest_at_least, lemma_nearest_at_most,
    lemma_nearest_increases, lemma_nearest_rounds, magnitude, nearest, INFINITE,
};
use vstd::arithmetic::power2::{lemma2_to64, lemma_pow2_adds, lemma_pow2_pos, pow2};
use vstd::prelude::*;

verus! {

/// A split puts the new pane right behind the pane that was split, and changes
/// nothing else in the order of the panes. `i` is the first place of that pane.
pub proof fn split_inserts_behind(
    layout: PaneLayout,
    target: PaneId,
    new_pane: PaneId,
    direction: SplitDirection,
    i: int,
)
    requires
        0 <= i < layout.ids().len(),
        layout.ids()[i] == target,
        forall|j: int| 0 <= j < i ==> layout.ids()[j] != target,
    ensures
        layout.with_split(target, new_pane, direction).ids() == layout.ids().insert(
            i + 1,
            new_pane,
        ),
    decreases layout,
{
    let ids = layout.ids();
    let after = layout.with_split(target, new_pane, direction).ids();
    match layout {
        PaneLayout::Leaf(id) => {
            reveal_with_fuel(PaneLayout::ids, 2);
            assert(after =~= ids.insert(i + 1, new_pane));
        },
        PaneLayout::Split { first, second, .. } => {
            let n = first.ids().len() as int;
            if i < n {
                assert(first.ids()[i] == target);
                assert forall|j: int| 0 <= j < i implies first.ids()[j] != target by {
                    assert(first.ids()[j] == ids[j]);
                }
                split_inserts_behind(*first, target, new_pane, direction, i);
            } else {
                assert(!first.holds(target)) by {
                    assert forall|j: int| 0 <= j < n implies first.ids()[j] != target by {
                        assert(first.ids()[j] == ids[j]);
                    }
                }
                assert(second.ids()[i - n] == ids[i]);
                assert forall|j: int| 0 <= j < i - n implies second.ids()[j] != target by {
                    assert(second.ids()[j] == ids[j + n]);
                }
                split_inserts_behind(*second, target, new_pane, direction, i - n);
            }
            assert(after =~= ids.insert(i + 1, new_pane));
        },
    }
}

/// Splitting at a pane that is not in the layout leaves the layout as it is.
pub proof fn split_needs_target(
    layout: PaneLayout,
    target: PaneId,
    new_pane: PaneId,
    direction: SplitDirection,
)
    requires
        !layout.holds(target),
    ensures
        layout.with_split(target, new_pane, direction) == layout,
    decreases layout,
{
    match layout {
        PaneLayout::Leaf(id) => {
            assert(layout.ids()[0] == id);
        },
        PaneLayout::Split { first, second, .. } => {
            lemma_contains_concat(first.ids(), second.ids(), target);
            split_needs_target(*second, target, new_pane, direction);
        },
    }
}

/// Closing a pane of a split layout removes one place of that pane, and keeps
/// the other panes in their order.
pub proof fn close_removes_one(layout: PaneLayout, target: PaneId)
    requires
        layout is Split,
        layout.holds(target),
    ensures
        exists|i: int|
            0 <= i < layout.ids().len() && layout.ids()[i] == target && #[trigger] layout.ids().remove(
                i,
            ) == layout.without(target).ids(),
    decreases layout,
{
    let ids = layout.ids();
    let after = layout.without(target).ids();
    if let PaneLayout::Split { first, second, .. } = layout {
        let n = first.ids().len() as int;
        lemma_contains_concat(first.ids(), second.ids(), target);
        if *first == PaneLayout::Leaf(target) {
            assert(ids[0] == first.ids()[0]);
            assert(ids.remove(0) =~= after);
        } else if *second == PaneLayout::Leaf(target) {
            assert(ids[n] == second.ids()[0]);
            assert(ids.remove(n) =~= after);
        } else if first.holds(target) {
            lemma_leaf_holds(*first, target);
            close_removes_one(*first, target);
            let i = choose|i: int|
                0 <= i < first.ids().len() && first.ids()[i] == target
                    && #[trigger] first.ids().remove(i) == first.without(target).ids();
            assert(ids[i] == target);
            assert(ids.remove(i) =~= after);
        } else {
            lemma_leaf_holds(*second, target);
            close_removes_one(*second, target);
            let i = choose|i: int|
                0 <= i < second.ids().len() && second.ids()[i] == target
                    && #[trigger] second.ids().remove(i) == second.without(target).ids();
            assert(ids[i + n] == target);
            assert(ids.remove(i + n) =~= after);
        }
    }
}

/// A leaf holds its own pane only.
proof fn lemma_leaf_holds(layout: PaneLayout, target: PaneId)
    ensures
        layout is Leaf && layout.holds(target) ==> layout == PaneLayout::Leaf(target),
{
    if let PaneLayout::Leaf(id) = layout {
        assert(layout.ids() =~= seq![id]);
    }
}

/// Where no pane is twice in a layout, closing one removes that pane, and only
/// that one.
pub proof fn close_removes_target(layout: PaneLayout, target: PaneId)
    requires
        layout is Split,
        layout.holds(target),
        layout.ids().no_duplicates(),
    ensures
        layout.without(target).ids().no_duplicates(),
        layout.without(target).ids().len() == layout.ids().len() - 1,
        forall|id: PaneId| #[trigger]
            layout.without(target).holds(id) <==> layout.holds(id) && id != target,
{
    close_removes_one(layout, target);
    let ids = layout.ids();
    let after = layout.without(target).ids();
    let i = choose|i: int|
        0 <= i < ids.len() && ids[i] == target && #[trigger] ids.remove(i) == after;
    assert forall|id: PaneId| #[trigger] layout.without(target).holds(id) <==> layout.holds(id) && id
        != target by {
        if after.contains(id) {
            let k = choose|k: int| 0 <= k < after.len() && after[k] == id;
            if k < i {
                assert(ids[k] == id);
            } else {
                assert(ids[k + 1] == id);
            }
        }
        if ids.contains(id) && id != target {
            let k = choose|k: int| 0 <= k < ids.len() && ids[k] == id;
            if k < i {
                assert(after[k] == id);
            } else {
                assert(after[k - 1] == id);
            }
        }
    }
    assert forall|a: int, b: int| 0 <= a < after.len() && 0 <= b < after.len() && a != b implies after[a]
        != after[b] by {
        let x = if a < i { a } else { a + 1 };
        let y = if b < i { b } else { b + 1 };
        assert(after[a] == ids[x] && after[b] == ids[y]);
    }
}

/// Closing a pane that is not in a layout leaves the layout as it is.
pub proof fn close_needs_target(layout: PaneLayout, target: PaneId)
    requires
        !layout.holds(target),
    ensures
        layout.without(target) == layout,
    decreases layout,
{
    if let PaneLayout::Split { first, second, .. } = layout {
        lemma_contains_concat(first.ids(), second.ids(), target);
        if *first == PaneLayout::Leaf(target) {
            assert(first.ids()[0] == target);
        }
        if *second == PaneLayout::Leaf(target) {
            assert(second.ids()[0] == target);
        }
        close_needs_target(*second, target);
    }
}

/// Closing a pane right after it was split off gives the layout back.
pub proof fn close_undoes_split(
    layout: PaneLayout,
    target: PaneId,
    new_pane: PaneId,
    direction: SplitDirection,
)
    requires
        layout.holds(target),
        !layout.holds(new_pane),
    ensures
        layout.with_split(target, new_pane, direction).without(new_pane) == layout,
    decreases layout,
{
    match layout {
        PaneLayout::Leaf(id) => {
            lemma_leaf_holds(layout, target);
            assert(layout.ids()[0] == id);
        },
        PaneLayout::Split { direction: own, ratio, first, second } => {
            lemma_contains_concat(first.ids(), second.ids(), target);
            lemma_contains_concat(first.ids(), second.ids(), new_pane);
            lemma_leaf_holds(*first, target);
            lemma_leaf_holds(*second, target);
            if *first == PaneLayout::Leaf(new_pane) {
                assert(first.ids()[0] == new_pane);
            }
            if *second == PaneLayout::Leaf(new_pane) {
                assert(second.ids()[0] == new_pane);
            }
            if first.holds(target) {
                close_undoes_split(*first, target, new_pane, direction);
                lemma_split_holds_new(*first, target, new_pane, direction);
            } else {
                close_undoes_split(*second, target, new_pane, direction);
                lemma_split_holds_new(*second, target, new_pane, direction);
            }
        },
    }
}

proof fn lemma_split_holds_new(
    layout: PaneLayout,
    target: PaneId,
    new_pane: PaneId,
    direction: SplitDirection,
)
    requires
        layout.holds(target),
    ensures
        layout.with_split(target, new_pane, direction).holds(new_pane),
        layout.with_split(target, new_pane, direction) is Split,
    decreases layout,
{
    match layout {
        PaneLayout::Leaf(id) => {
            lemma_leaf_holds(layout, target);
            reveal_with_fuel(PaneLayout::ids, 2);
            assert(layout.with_split(target, new_pane, direction).ids()[1] == new_pane);
        },
        PaneLayout::Split { first, second, .. } => {
            lemma_contains_concat(first.ids(), second.ids(), target);
            if first.holds(target) {
                let changed = first.with_split(target, new_pane, direction);
                lemma_split_holds_new(*first, target, new_pane, direction);
                lemma_contains_concat(changed.ids(), second.ids(), new_pane);
            } else {
                let changed = second.with_split(target, new_pane, direction);
                lemma_split_holds_new(*second, target, new_pane, direction);
                lemma_contains_concat(first.ids(), changed.ids(), new_pane);
            }
        },
    }
}

/// Navigation leads to a pane of the layout. It leads nowhere from a pane that
/// is not in a split layout, and only from there.
pub proof fn navigation_stays_inside(layout: PaneLayout, current: PaneId, along: SplitDirection)
    ensures
        layout.neighbor(current, along) is None <==> layout is Split && !layout.holds(current),
        layout.neighbor(current, along) matches Some(next) ==> layout.holds(next),
    decreases layout,
{
    match layout {
        PaneLayout::Leaf(id) => {
            assert(layout.ids()[0] == id);
        },
        PaneLayout::Split { first, second, .. } => {
            navigation_stays_inside(*first, current, along);
            navigation_stays_inside(*second, current, along);
            lemma_ids_not_empty(*first);
            lemma_ids_not_empty(*second);
            lemma_contains_concat(first.ids(), second.ids(), current);
            assert(first.holds(first.ids().last()));
            assert(second.holds(second.ids().first()));
            if let Some(next) = layout.neighbor(current, along) {
                lemma_contains_concat(first.ids(), second.ids(), next);
            }
        },
    }
}

/// Where no pane is twice in a layout, navigation from one of its panes leads
/// to another one exactly where a split of that direction has the pane below
/// it. Otherwise it stays.
pub proof fn navigation_crosses_splits(layout: PaneLayout, current: PaneId, along: SplitDirection)
    requires
        layout.holds(current),
        layout.ids().no_duplicates(),
    ensures
        layout.neighbor(current, along) is Some,
        layout.neighbor(current, along) == Some(current) <==> !layout.has_split_around(
            current,
            along,
        ),
    decreases layout,
{
    match layout {
        PaneLayout::Leaf(_) => {
            lemma_leaf_holds(layout, current);
        },
        PaneLayout::Split { first, second, .. } => {
            lemma_contains_concat(first.ids(), second.ids(), current);
            lemma_sides_apart(first.ids(), second.ids());
            lemma_ids_not_empty(*first);
            lemma_ids_not_empty(*second);
            lemma_split_around_holds(*first, current, along);
            lemma_split_around_holds(*second, current, along);
            assert(first.holds(first.ids().last()));
            assert(second.holds(second.ids().first()));
            if first.holds(current) {
                navigation_crosses_splits(*first, current, along);
            } else {
                navigation_crosses_splits(*second, current, along);
            }
        },
    }
}

/// Where nothing is twice in two sequences together, they have nothing in common.
pub proof fn lemma_sides_apart(a: Seq<PaneId>, b: Seq<PaneId>)
    requires
        (a + b).no_duplicates(),
    ensures
        a.no_duplicates(),
        b.no_duplicates(),
        forall|id: PaneId| !(#[trigger] a.contains(id) && b.contains(id)),
{
    let c = a + b;
    assert forall|i: int, j: int| 0 <= i < a.len() && 0 <= j < a.len() && i != j implies a[i]
        != a[j] by {
        assert(c[i] == a[i] && c[j] == a[j]);
    }
    assert forall|i: int, j: int| 0 <= i < b.len() && 0 <= j < b.len() && i != j implies b[i]
        != b[j] by {
        assert(c[i + a.len()] == b[i] && c[j + a.len()] == b[j]);
    }
    assert forall|id: PaneId| !(#[trigger] a.contains(id) && b.contains(id)) by {
        if a.contains(id) && b.contains(id) {
            let i = choose|i: int| 0 <= i < a.len() && a[i] == id;
            let j = choose|j: int| 0 <= j < b.len() && b[j] == id;
            assert(c[i] == c[j + a.len()]);
        }
    }
}

/// The encoding of nineteen twentieths: what one twentieth leaves of one.
pub const NINETEEN_TWENTIETHS: u32 = 0x3f73_3333;

pub open spec fn nineteen_twentieths() -> Binary32 {
    Binary32 { bits: NINETEEN_TWENTIETHS }
}

/// Whether two layouts differ in one ratio at most: the panes, the splits and
/// their directions are the same, and so are all ratios but one, which is an
/// accepted one.
pub open spec fn one_ratio_moved(
    before: PaneLayout,
    after: PaneLayout,
    accepted: spec_fn(Binary32) -> bool,
) -> bool
    decreases before,
{
    match (before, after) {
        (
            PaneLayout::Split { direction: da, ratio: ra, first: fa, second: sa },
            PaneLayout::Split { direction: db, ratio: rb, first: fb, second: sb },
        ) => {
            &&& da == db
            &&& {
                ||| fa == fb && sa == sb && accepted(rb)
                ||| ra == rb && sa == sb && one_ratio_moved(*fa, *fb, accepted)
                ||| ra == rb && fa == fb && one_ratio_moved(*sa, *sb, accepted)
            }
        },
        _ => false,
    }
}

/// Moving a ratio keeps the panes and their order.
pub proof fn moved_ratio_keeps_panes(
    before: PaneLayout,
    after: PaneLayout,
    accepted: spec_fn(Binary32) -> bool,
)
    requires
        one_ratio_moved(before, after, accepted),
    ensures
        after.ids() == before.ids(),
    decreases before,
{
    if let PaneLayout::Split { first: fa, second: sa, .. } = before {
        if let PaneLayout::Split { first: fb, second: sb, .. } = after {
            if one_ratio_moved(*fa, *fb, accepted) {
                moved_ratio_keeps_panes(*fa, *fb, accepted);
            }
            if one_ratio_moved(*sa, *sb, accepted) {
                moved_ratio_keeps_panes(*sa, *sb, accepted);
            }
        }
    }
}

/// Whether a ratio is between two limits. A ratio that is NaN has none.
pub open spec fn between(low: Binary32, high: Binary32) -> spec_fn(Binary32) -> bool {
    |ratio: Binary32| ratio.is_nan() || (at_most(low, ratio) && at_most(ratio, high))
}

/// A number that was moved between two limits is between them.
proof fn lemma_clamped_between(a: Binary32, low: Binary32, high: Binary32)
    requires
        at_most(low, high),
    ensures
        between(low, high)(clamped(a, low, high)),
{
}

/// A resize moves one ratio, and leaves it between the two limits.
pub proof fn resize_moves_one_ratio(
    layout: PaneLayout,
    target: PaneId,
    along: SplitDirection,
    amount: Binary32,
    low: Binary32,
    high: Binary32,
)
    requires
        layout.has_split_around(target, along),
        at_most(low, high),
    ensures
        one_ratio_moved(
            layout,
            layout.with_resize(target, along, amount, low, high),
            between(low, high),
        ),
    decreases layout,
{
    if let PaneLayout::Split { ratio, first, second, .. } = layout {
        lemma_clamped_between(sum(ratio, amount), low, high);
        lemma_clamped_between(difference(ratio, amount), low, high);
        if first.has_split_around(target, along) {
            resize_moves_one_ratio(*first, target, along, amount, low, high);
        }
        if second.has_split_around(target, along) {
            resize_moves_one_ratio(*second, target, along, amount, low, high);
        }
    }
}

/// Without a split of the direction around the pane, a resize leaves the layout
/// as it is.
pub proof fn resize_needs_split(
    layout: PaneLayout,
    target: PaneId,
    along: SplitDirection,
    amount: Binary32,
    low: Binary32,
    high: Binary32,
)
    requires
        !layout.has_split_around(target, along),
    ensures
        layout.with_resize(target, along, amount, low, high) == layout,
{
}

/// What a smallest ratio leaves of one is not below it, and at most nineteen
/// twentieths.
proof fn lemma_largest_ratio(smallest: Binary32)
    requires
        at_most(twentieth(), smallest),
        at_most(smallest, half()),
    ensures
        at_most(smallest, largest_ratio(smallest)),
        at_most(largest_ratio(smallest), nineteen_twentieths()),
{
    lemma_limits();
    assert(!less(smallest, twentieth()));
    assert(!smallest.negative());
    lemma_rest_of_one(smallest);
    let unit = pow2(121) as int;
    lemma_pow2_adds(121, 5);
    lemma_pow2_adds(121, 4);
    lemma2_to64();
    let k = NINETEEN_TWENTIETHS as int;
    assert(ONE as int / 0x80_0000 == 127 && ONE as int % 0x80_0000 == 0);
    assert(TWENTIETH as int / 0x80_0000 == 122 && TWENTIETH as int % 0x80_0000 == 0x4c_cccd);
    assert(k / 0x80_0000 == 126 && k % 0x80_0000 == 0x73_3333);
    assert((k + 1) / 0x80_0000 == 126 && (k + 1) % 0x80_0000 == 0x73_3334);
    assert(one().code() == ONE && twentieth().code() == TWENTIETH && nineteen_twentieths().code()
        == k);
    assert(one().value() == 0x1000_0000 * unit);
    assert(twentieth().value() == 0xcc_cccd * unit);
    assert(magnitude(k) == 0xf33_3330 * unit);
    assert(magnitude(k + 1) == 0xf33_3340 * unit);
    lemma_pow2_pos(121);
    let exact = one().value() - smallest.value();
    lemma_magnitude_increases(HALF as int, ONE as int);
    assert(half().code() == HALF);
    assert(exact > 0);
    lemma_nearest_rounds(exact, 1);
    let c = nearest(exact, 1);
    if c > k {
        lemma_magnitude_increases(k, c - 1);
        lemma_magnitude_increases(k + 1, c);
    }
    let rest = opposite(smallest);
    assert(rest.negative() && rest.code() == smallest.code());
    let r = largest_ratio(smallest);
    assert(r == encoded(false, c));
    assert(r.code() == c && !r.negative());
    lemma_magnitude_increases(c, k);
}

/// The smallest ratio is between one twentieth and one half, and what it leaves
/// of one is between it and nineteen twentieths: no drag moves a border out of
/// reach.
pub proof fn smallest_ratio_has_limits(min_extent: Binary32, total: Binary32)
    requires
        !smallest_ratio(min_extent, total).is_nan(),
    ensures
        at_most(twentieth(), smallest_ratio(min_extent, total)),
        at_most(smallest_ratio(min_extent, total), half()),
        at_most(
            smallest_ratio(min_extent, total),
            largest_ratio(smallest_ratio(min_extent, total)),
        ),
        at_most(largest_ratio(smallest_ratio(min_extent, total)), nineteen_twentieths()),
{
    lemma_limits();
    lemma_largest_ratio(smallest_ratio(min_extent, total));
}

/// A drag that moves a border moves one ratio, and leaves it between one
/// twentieth and nineteen twentieths.
pub proof fn drag_moves_one_ratio(
    layout: PaneLayout,
    target: PaneId,
    along: SplitDirection,
    position: Binary32,
    bounds: PaneBounds,
    border: Binary32,
    min_extent: Binary32,
)
    requires
        layout.drag_has_limits(target, along, position, bounds, border, min_extent),
        layout.with_drag(target, along, position, bounds, border, min_extent) is Some,
    ensures
        one_ratio_moved(
            layout,
            layout.with_drag(target, along, position, bounds, border, min_extent)->0,
            between(twentieth(), nineteen_twentieths()),
        ),
        layout.has_split_around(target, along),
    decreases layout,
{
    if let PaneLayout::Split { direction, ratio, first, second } = layout {
        let first_bounds = first_half(bounds, direction, ratio, border);
        let second_bounds = second_half(bounds, direction, ratio, border);
        lemma_contains_concat(first.ids(), second.ids(), target);
        if first.with_drag(target, along, position, first_bounds, border, min_extent) is Some {
            drag_moves_one_ratio(*first, target, along, position, first_bounds, border, min_extent);
        } else if second.with_drag(
            target,
            along,
            position,
            second_bounds,
            border,
            min_extent,
        ) is Some {
            drag_moves_one_ratio(*second, target, along, position, second_bounds, border, min_extent);
        } else {
            smallest_ratio_has_limits(min_extent, divided_extent(bounds, along, border));
            drag_keeps_smallest_share(position, bounds, along, border, min_extent);
            let r = dragged_ratio(position, bounds, along, border, min_extent);
            assert(between(twentieth(), nineteen_twentieths())(r));
        }
    }
}

/// A drag leaves both sides of a split the share of the smallest extent, unless
/// that is more than half of what there is to divide: the ratio is between that
/// share and what it leaves of one.
pub proof fn drag_keeps_smallest_share(
    position: Binary32,
    bounds: PaneBounds,
    along: SplitDirection,
    border: Binary32,
    min_extent: Binary32,
)
    requires
        !smallest_ratio(min_extent, divided_extent(bounds, along, border)).is_nan(),
    ensures
        ({
            let total = divided_extent(bounds, along, border);
            let share = quotient(min_extent, total);
            let smallest = smallest_ratio(min_extent, total);
            &&& at_most(share, half()) ==> at_most(share, smallest)
            &&& between(smallest, largest_ratio(smallest))(
                dragged_ratio(position, bounds, along, border, min_extent),
            )
        }),
{
    reveal(dragged_ratio);
    let total = divided_extent(bounds, along, border);
    let smallest = smallest_ratio(min_extent, total);
    let start = match along {
        SplitDirection::Horizontal => bounds.y,
        SplitDirection::Vertical => bounds.x,
    };
    smallest_ratio_has_limits(min_extent, total);
    lemma_clamped_between(
        quotient(difference(position, start), total),
        smallest,
        largest_ratio(smallest),
    );
}

/// A resize goes to the innermost split: one with a matching split around the
/// pane on one side keeps its own ratio, and its other side.
pub proof fn resize_prefers_inner_split(
    layout: PaneLayout,
    target: PaneId,
    along: SplitDirection,
    amount: Binary32,
    low: Binary32,
    high: Binary32,
)
    requires
        layout is Split,
        layout.ids().no_duplicates(),
        layout->first.has_split_around(target, along) || layout->second.has_split_around(
            target,
            along,
        ),
    ensures
        ({
            let after = layout.with_resize(target, along, amount, low, high);
            &&& after is Split
            &&& after->ratio == layout->ratio
            &&& layout->first.has_split_around(target, along) ==> after->second == layout->second
            &&& layout->second.has_split_around(target, along) ==> after->first == layout->first
        }),
{
    if let PaneLayout::Split { first, second, .. } = layout {
        lemma_sides_apart(first.ids(), second.ids());
        lemma_split_around_holds(*first, target, along);
        lemma_split_around_holds(*second, target, along);
    }
}

/// A resize keeps the panes and their order.
pub proof fn resize_keeps_panes(
    layout: PaneLayout,
    target: PaneId,
    along: SplitDirection,
    amount: Binary32,
    low: Binary32,
    high: Binary32,
)
    ensures
        layout.with_resize(target, along, amount, low, high).ids() == layout.ids(),
    decreases layout,
{
    if let PaneLayout::Split { first, second, .. } = layout {
        resize_keeps_panes(*first, target, along, amount, low, high);
        resize_keeps_panes(*second, target, along, amount, low, high);
    }
}

/// A drag keeps the panes and their order.
pub proof fn drag_keeps_panes(
    layout: PaneLayout,
    target: PaneId,
    along: SplitDirection,
    position: Binary32,
    bounds: PaneBounds,
    border: Binary32,
    min_extent: Binary32,
)
    ensures
        layout.with_drag(target, along, position, bounds, border, min_extent) matches Some(after)
            ==> after.ids() == layout.ids(),
    decreases layout,
{
    if let PaneLayout::Split { direction, ratio, first, second } = layout {
        let first_bounds = first_half(bounds, direction, ratio, border);
        let second_bounds = second_half(bounds, direction, ratio, border);
        drag_keeps_panes(*first, target, along, position, first_bounds, border, min_extent);
        drag_keeps_panes(*second, target, along, position, second_bounds, border, min_extent);
    }
}

/// A split adds no pane but the new one.
pub proof fn split_adds_new_only(
    layout: PaneLayout,
    target: PaneId,
    new_pane: PaneId,
    direction: SplitDirection,
    id: PaneId,
)
    requires
        layout.with_split(target, new_pane, direction).holds(id),
    ensures
        layout.holds(id) || id == new_pane,
    decreases layout,
{
    match layout {
        PaneLayout::Leaf(own) => {
            reveal_with_fuel(PaneLayout::ids, 2);
            assert(layout.ids()[0] == own);
        },
        PaneLayout::Split { first, second, .. } => {
            let (one, other) = (
                first.with_split(target, new_pane, direction),
                second.with_split(target, new_pane, direction),
            );
            lemma_contains_concat(first.ids(), second.ids(), id);
            lemma_contains_concat(one.ids(), second.ids(), id);
            lemma_contains_concat(first.ids(), other.ids(), id);
            if one.holds(id) {
                split_adds_new_only(*first, target, new_pane, direction, id);
            }
            if other.holds(id) {
                split_adds_new_only(*second, target, new_pane, direction, id);
            }
        },
    }
}

/// Closing adds no pane.
pub proof fn close_adds_none(layout: PaneLayout, target: PaneId, id: PaneId)
    requires
        layout.without(target).holds(id),
    ensures
        layout.holds(id),
    decreases layout,
{
    if let PaneLayout::Split { first, second, .. } = layout {
        let (one, other) = (first.without(target), second.without(target));
        lemma_contains_concat(first.ids(), second.ids(), id);
        lemma_contains_concat(one.ids(), second.ids(), id);
        lemma_contains_concat(first.ids(), other.ids(), id);
        if one.holds(id) {
            close_adds_none(*first, target, id);
        }
        if other.holds(id) {
            close_adds_none(*second, target, id);
        }
    }
}

/// Every pane is placed, in the order of the layout.
pub proof fn every_pane_is_placed(layout: PaneLayout, bounds: PaneBounds, border: Binary32)
    ensures
        layout.placed(bounds, border).len() == layout.ids().len(),
        forall|i: int|
            0 <= i < layout.ids().len() ==> (#[trigger] layout.placed(bounds, border)[i]).0
                == layout.ids()[i],
    decreases layout,
{
    if let PaneLayout::Split { direction, ratio, first, second } = layout {
        let first_bounds = first_half(bounds, direction, ratio, border);
        let second_bounds = second_half(bounds, direction, ratio, border);
        every_pane_is_placed(*first, first_bounds, border);
        every_pane_is_placed(*second, second_bounds, border);
        let n = first.ids().len() as int;
        assert forall|i: int| 0 <= i < layout.ids().len() implies (#[trigger] layout.placed(
            bounds,
            border,
        )[i]).0 == layout.ids()[i] by {
            if i < n {
                assert(layout.placed(bounds, border)[i] == first.placed(first_bounds, border)[i]);
            } else {
                assert(layout.placed(bounds, border)[i] == second.placed(second_bounds, border)[i
                    - n]);
            }
        }
    }
}

/// A hit test finds a pane whose bounds contain the point, and finds none only
/// where no pane's bounds do.
pub proof fn hit_test_is_sound(placed: Seq<(PaneId, PaneBounds)>, px: Binary32, py: Binary32)
    ensures
        first_hit(placed, px, py) is None <==> forall|i: int|
            0 <= i < placed.len() ==> !inside((#[trigger] placed[i]).1, px, py),
        first_hit(placed, px, py) matches Some(id) ==> exists|i: int|
            0 <= i < placed.len() && (#[trigger] placed[i]).0 == id && inside(placed[i].1, px, py),
    decreases placed.len(),
{
    if placed.len() > 0 {
        let rest = placed.drop_first();
        hit_test_is_sound(rest, px, py);
        if inside(placed[0].1, px, py) {
            assert(placed[0].0 == first_hit(placed, px, py)->0);
        } else {
            if let Some(id) = first_hit(rest, px, py) {
                let i = choose|i: int|
                    0 <= i < rest.len() && (#[trigger] rest[i]).0 == id && inside(rest[i].1, px, py);
                assert(placed[i + 1] == rest[i]);
            } else {
                assert forall|i: int| 0 <= i < placed.len() implies !inside(
                    (#[trigger] placed[i]).1,
                    px,
                    py,
                ) by {
                    if i > 0 {
                        assert(placed[i] == rest[i - 1]);
                    }
                }
            }
        }
    }
}

/// A hit test finds panes of the layout only.
pub proof fn hit_test_stays_inside(
    layout: PaneLayout,
    px: Binary32,
    py: Binary32,
    bounds: PaneBounds,
    border: Binary32,
)
    ensures
        first_hit(layout.placed(bounds, border), px, py) matches Some(id) ==> layout.holds(id),
{
    let placed = layout.placed(bounds, border);
    every_pane_is_placed(layout, bounds, border);
    hit_test_is_sound(placed, px, py);
    if let Some(id) = first_hit(placed, px, py) {
        let i = choose|i: int|
            0 <= i < placed.len() && (#[trigger] placed[i]).0 == id && inside(placed[i].1, px, py);
        assert(layout.ids()[i] == id);
    }
}

/// Whatever border is found near a point, a split of its direction is around
/// the pane that names it: there is a border to drag.
pub proof fn found_border_has_split(
    layout: PaneLayout,
    px: Binary32,
    py: Binary32,
    bounds: PaneBounds,
    border: Binary32,
)
    ensures
        layout.border_near(px, py, bounds, border) matches Some((id, along)) ==> layout.holds(id)
            && layout.has_split_around(id, along),
    decreases layout,
{
    if let PaneLayout::Split { direction, ratio, first, second } = layout {
        found_border_has_split(*first, px, py, first_half(bounds, direction, ratio, border), border);
        found_border_has_split(
            *second,
            px,
            py,
            second_half(bounds, direction, ratio, border),
            border,
        );
        lemma_ids_not_empty(*first);
        assert(first.holds(first.ids().first()));
        if let Some((id, along)) = layout.border_near(px, py, bounds, border) {
            lemma_split_around_holds(*first, id, along);
            lemma_split_around_holds(*second, id, along);
            lemma_contains_concat(first.ids(), second.ids(), id);
        }
    }
}

/// The same holds of every border found at a corner.
pub proof fn found_corners_have_splits(
    layout: PaneLayout,
    px: Binary32,
    py: Binary32,
    bounds: PaneBounds,
    border: Binary32,
)
    ensures
        forall|i: int|
            0 <= i < layout.corners(px, py, bounds, border).len() ==> {
                let (id, along) = #[trigger] layout.corners(px, py, bounds, border)[i];
                layout.holds(id) && layout.has_split_around(id, along)
            },
    decreases layout,
{
    if let PaneLayout::Split { direction, ratio, first, second } = layout {
        let first_bounds = first_half(bounds, direction, ratio, border);
        let second_bounds = second_half(bounds, direction, ratio, border);
        let corners = layout.corners(px, py, bounds, border);
        let in_first = first.corners(px, py, first_bounds, border);
        let in_second = second.corners(px, py, second_bounds, border);
        found_corners_have_splits(*first, px, py, first_bounds, border);
        found_corners_have_splits(*second, px, py, second_bounds, border);
        lemma_ids_not_empty(*first);
        assert(first.holds(first.ids().first()));
        assert forall|i: int| 0 <= i < corners.len() implies {
            let (id, along) = #[trigger] corners[i];
            layout.holds(id) && layout.has_split_around(id, along)
        } by {
            let (id, along) = corners[i];
            lemma_contains_concat(first.ids(), second.ids(), id);
            let own: int = if on_separator(px, py, bounds, first_bounds, direction, border) {
                1
            } else {
                0
            };
            if i < own {
            } else if i - own < in_first.len() && corners[i] == in_first[i - own] {
            } else if own == 1 || inside(first_bounds, px, py) {
                assert(corners[i] == in_second[i - own - in_first.len()]);
            } else {
                assert(corners[i] == in_second[i - own]);
            }
        }
    }
}

/// Where no border is found near a point, no corner is found there.
pub proof fn corner_needs_border(
    layout: PaneLayout,
    px: Binary32,
    py: Binary32,
    bounds: PaneBounds,
    border: Binary32,
)
    requires
        layout.border_near(px, py, bounds, border) is None,
    ensures
        layout.corners(px, py, bounds, border).len() == 0,
    decreases layout,
{
    if let PaneLayout::Split { direction, ratio, first, second } = layout {
        let first_bounds = first_half(bounds, direction, ratio, border);
        let second_bounds = second_half(bounds, direction, ratio, border);
        corner_needs_border(*first, px, py, first_bounds, border);
        corner_needs_border(*second, px, py, second_bounds, border);
    }
}

/// What is added to a number without a sign does not make it smaller.
proof fn lemma_sum_grows(a: Binary32, b: Binary32)
    requires
        at_most(zero(), b),
        !sum(a, b).is_nan(),
    ensures
        at_most(a, sum(a, b)),
{
    lemma_magnitude_increases(0, a.code());
    lemma_magnitude_increases(0, b.code());
    assert(magnitude(0) == 0);
    if a.is_finite() && b.is_finite() {
        let exact = a.value() + b.value();
        assert(exact >= a.value());
        if exact > 0 {
            let c = nearest(exact, 1);
            lemma_nearest_rounds(exact, 1);
            if !a.negative() {
                lemma_nearest_at_least(exact, 1, a.code());
                lemma_magnitude_increases(a.code(), c);
            } else {
                lemma_magnitude_increases(0, c);
            }
            let r = encoded(false, c);
            assert(r.code() == c && !r.negative());
        } else if exact < 0 {
            let c = nearest(-exact, 1);
            lemma_nearest_rounds(-exact, 1);
            lemma_nearest_at_most(-exact, 1, a.code());
            lemma_magnitude_increases(c, a.code());
            let r = encoded(true, c);
            assert(r.code() == c && r.negative());
        } else {
            let r = encoded(a.negative() && b.negative(), 0);
            assert(r.code() == 0);
        }
    } else if b.is_infinite() && a.is_finite() {
        lemma_magnitude_increases(a.code(), b.code());
    }
}

/// The two sides of a split do not overlap: no point is inside both.
pub proof fn sides_do_not_overlap(
    bounds: PaneBounds,
    direction: SplitDirection,
    ratio: Binary32,
    border: Binary32,
    px: Binary32,
    py: Binary32,
)
    requires
        at_most(zero(), border),
    ensures
        !(inside(first_half(bounds, direction, ratio, border), px, py) && inside(
            second_half(bounds, direction, ratio, border),
            px,
            py,
        )),
{
    reveal(first_half);
    reveal(second_half);
    reveal(inside);
    let first_bounds = first_half(bounds, direction, ratio, border);
    let second_bounds = second_half(bounds, direction, ratio, border);
    if inside(first_bounds, px, py) && inside(second_bounds, px, py) {
        match direction {
            SplitDirection::Vertical => {
                lemma_sum_grows(sum(first_bounds.x, first_bounds.width), border);
            },
            SplitDirection::Horizontal => {
                lemma_sum_grows(sum(first_bounds.y, first_bounds.height), border);
            },
        }
    }
}

/// Codes order the numbers that they encode.
proof fn lemma_encoded_order(a_negative: bool, a: int, b_negative: bool, b: int)
    requires
        0 <= a <= INFINITE,
        0 <= b <= INFINITE,
        a_negative ==> (b_negative ==> b <= a),
        !a_negative ==> !b_negative && a <= b,
    ensures
        at_most(encoded(a_negative, a), encoded(b_negative, b)),
{
    let x = encoded(a_negative, a);
    let y = encoded(b_negative, b);
    assert(x.code() == a && x.negative() == a_negative);
    assert(y.code() == b && y.negative() == b_negative);
    lemma_magnitude_increases(0, a);
    lemma_magnitude_increases(0, b);
    if a <= b {
        lemma_magnitude_increases(a, b);
    } else {
        lemma_magnitude_increases(b, a);
    }
}

/// Subtracting the same number keeps the order of two numbers.
proof fn lemma_difference_increases(a: Binary32, b: Binary32, c: Binary32)
    requires
        at_most(a, b),
        !difference(a, c).is_nan(),
        !difference(b, c).is_nan(),
    ensures
        at_most(difference(a, c), difference(b, c)),
{
    let d = opposite(c);
    assert(d.code() == c.code());
    lemma_magnitude_increases(0, a.code());
    lemma_magnitude_increases(0, b.code());
    lemma_magnitude_increases(0, d.code());
    let x = sum(a, d);
    let y = sum(b, d);
    lemma_magnitude_increases(0, x.code());
    lemma_magnitude_increases(0, y.code());
    if x.code() <= INFINITE {
        lemma_magnitude_increases(x.code(), INFINITE as int);
    }
    if y.code() <= INFINITE {
        lemma_magnitude_increases(y.code(), INFINITE as int);
    }
    if a.is_finite() && b.is_finite() && d.is_finite() {
        let p = a.value() + d.value();
        let q = b.value() + d.value();
        if p > 0 {
            lemma_nearest_increases(p, q, 1);
        } else if q < 0 {
            lemma_nearest_increases(-q, -p, 1);
        }
        if p != 0 {
            lemma_nearest_rounds(if p > 0 { p } else { -p }, 1);
        }
        if q != 0 {
            lemma_nearest_rounds(if q > 0 { q } else { -q }, 1);
        }
        lemma_sum_parts(a, d);
        lemma_sum_parts(b, d);
        if p > 0 {
            lemma_encoded_order(false, nearest(p, 1), false, nearest(q, 1));
        } else if q < 0 {
            lemma_encoded_order(true, nearest(-p, 1), true, nearest(-q, 1));
        }
    } else if a.code() <= b.code() {
        lemma_magnitude_increases(a.code(), b.code());
    } else {
        lemma_magnitude_increases(b.code(), a.code());
    }
}

/// The sign and code of a sum of finite numbers.
proof fn lemma_sum_parts(a: Binary32, b: Binary32)
    requires
        a.is_finite(),
        b.is_finite(),
    ensures
        ({
            let exact = a.value() + b.value();
            let r = sum(a, b);
            &&& exact > 0 ==> !r.negative() && r.value() >= 0
            &&& exact < 0 ==> r.negative() && r.value() <= 0
            &&& exact == 0 ==> r.value() == 0
            &&& !r.is_nan()
        }),
{
    let exact = a.value() + b.value();
    let r = sum(a, b);
    if exact > 0 {
        lemma_nearest_rounds(exact, 1);
        assert(r.code() == nearest(exact, 1));
    } else if exact < 0 {
        lemma_nearest_rounds(-exact, 1);
        assert(r.code() == nearest(-exact, 1));
    } else {
        assert(r.code() == 0);
        assert(magnitude(0) == 0);
    }
    lemma_magnitude_increases(0, r.code());
}

/// Dividing by the same positive number keeps the order of two numbers.
proof fn lemma_quotient_increases(a: Binary32, b: Binary32, t: Binary32)
    requires
        at_most(a, b),
        less(zero(), t),
        !quotient(a, t).is_nan(),
        !quotient(b, t).is_nan(),
    ensures
        at_most(quotient(a, t), quotient(b, t)),
{
    assert(magnitude(0) == 0);
    lemma_magnitude_increases(0, a.code());
    lemma_magnitude_increases(0, b.code());
    lemma_magnitude_increases(0, t.code());
    assert(!t.negative() && t.code() > 0);
    if a.code() <= b.code() {
        lemma_magnitude_increases(a.code(), b.code());
    } else {
        lemma_magnitude_increases(b.code(), a.code());
    }
    let x = quotient(a, t);
    let y = quotient(b, t);
    if t.is_infinite() {
        assert(x.code() == 0 && y.code() == 0);
        assert(x.value() == 0 && y.value() == 0);
    } else {
        let s = pow2(149) as int;
        lemma_pow2_pos(149);
        let (p, q) = (a.size() * s, b.size() * s);
        assert(p >= 0 && q >= 0 && (a.size() <= b.size() ==> p <= q) && (b.size() <= a.size() ==> q
            <= p)) by (nonlinear_arith)
            requires
                p == a.size() * s,
                q == b.size() * s,
                a.size() >= 0,
                b.size() >= 0,
                s > 0,
        ;
        lemma_nearest_rounds(p, t.size());
        lemma_nearest_rounds(q, t.size());
        let c = if a.is_infinite() { INFINITE as int } else { nearest(p, t.size()) };
        let d = if b.is_infinite() { INFINITE as int } else { nearest(q, t.size()) };
        assert(x == encoded(a.negative(), c));
        assert(y == encoded(b.negative(), d));
        if a.is_finite() && b.is_finite() {
            if p <= q {
                lemma_nearest_increases(p, q, t.size());
            }
            if q <= p {
                lemma_nearest_increases(q, p, t.size());
            }
        }
        if a.negative() == b.negative() || a.negative() {
            lemma_encoded_order(a.negative(), c, b.negative(), d);
        } else {
            // Both are zero.
            assert(p == 0 && q == 0) by (nonlinear_arith)
                requires
                    p == a.size() * s,
                    q == b.size() * s,
                    a.size() == 0,
                    b.size() == 0,
            ;
            lemma_nearest_at_most(0, t.size(), 0);
            assert(x.code() == 0 && y.code() == 0);
        }
    }
}

/// What is divided, or divided by, is not NaN where the quotient is not.
proof fn lemma_quotient_of_nan(a: Binary32, b: Binary32)
    ensures
        !quotient(a, b).is_nan() ==> !a.is_nan() && !b.is_nan(),
{
}

/// Limits neither make nor remove NaN.
proof fn lemma_clamped_nan(a: Binary32, low: Binary32, high: Binary32)
    requires
        at_most(low, high),
    ensures
        clamped(a, low, high).is_nan() <==> a.is_nan(),
{
}

/// Limits keep the order of two numbers.
proof fn lemma_clamped_increases(a: Binary32, b: Binary32, low: Binary32, high: Binary32)
    requires
        at_most(a, b),
        at_most(low, high),
    ensures
        at_most(clamped(a, low, high), clamped(b, low, high)),
{
}

/// Where there is a smallest ratio, there is something to divide by.
proof fn lemma_smallest_needs_total(min_extent: Binary32, total: Binary32)
    requires
        !smallest_ratio(min_extent, total).is_nan(),
    ensures
        !total.is_nan(),
        !at_most(total, zero()) ==> less(zero(), total),
{
    lemma_limits();
    lemma_clamped_nan(quotient(min_extent, total), twentieth(), half());
    lemma_quotient_of_nan(min_extent, total);
}

/// The ratio of a position follows the position.
proof fn lemma_ratio_follows(
    p: Binary32,
    q: Binary32,
    start: Binary32,
    total: Binary32,
    low: Binary32,
    high: Binary32,
)
    requires
        at_most(p, q),
        at_most(low, high),
        less(zero(), total),
        !clamped(quotient(difference(p, start), total), low, high).is_nan(),
        !clamped(quotient(difference(q, start), total), low, high).is_nan(),
    ensures
        at_most(
            clamped(quotient(difference(p, start), total), low, high),
            clamped(quotient(difference(q, start), total), low, high),
        ),
{
    let (a, b) = (difference(p, start), difference(q, start));
    lemma_clamped_nan(quotient(a, total), low, high);
    lemma_clamped_nan(quotient(b, total), low, high);
    lemma_quotient_of_nan(a, total);
    lemma_quotient_of_nan(b, total);
    lemma_difference_increases(p, q, start);
    lemma_quotient_increases(a, b, total);
    lemma_clamped_increases(quotient(a, total), quotient(b, total), low, high);
}

/// Dragging a border further moves it further, or leaves it where it is.
pub proof fn drag_follows_pointer(
    p: Binary32,
    q: Binary32,
    bounds: PaneBounds,
    along: SplitDirection,
    border: Binary32,
    min_extent: Binary32,
)
    requires
        at_most(p, q),
        has_room(bounds, along, border),
        !smallest_ratio(min_extent, divided_extent(bounds, along, border)).is_nan(),
        !dragged_ratio(p, bounds, along, border, min_extent).is_nan(),
        !dragged_ratio(q, bounds, along, border, min_extent).is_nan(),
    ensures
        at_most(
            dragged_ratio(p, bounds, along, border, min_extent),
            dragged_ratio(q, bounds, along, border, min_extent),
        ),
{
    reveal(has_room);
    reveal(dragged_ratio);
    let total = divided_extent(bounds, along, border);
    let start = match along {
        SplitDirection::Horizontal => bounds.y,
        SplitDirection::Vertical => bounds.x,
    };
    let smallest = smallest_ratio(min_extent, total);
    smallest_ratio_has_limits(min_extent, total);
    lemma_smallest_needs_total(min_extent, total);
    lemma_ratio_follows(p, q, start, total, smallest, largest_ratio(smallest));
}

} // verus!
