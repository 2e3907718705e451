//! What the operations on a window change, and what they leave.
use crate::binary32::{difference, from_whole, product, quotient, Binary32};
use crate::bounds::{inside, two, PaneBounds, SplitDirection};
use crate::config::PaneConfig;
use crate::drag_laws::{limits_are_twentieth_and_half, pane_has_bounds_of_its_leaf};
use crate::exact_laws::{
    difference_is_rounded, product_is_rounded, quotient_is_rounded, rounds, unit,
    whole_is_rounded,
};
use crate::geometry_laws::lemma_unit;
use crate::layout::{
    first_hit, half, largest_ratio, lemma_ids_not_empty, one, smallest_ratio, twentieth, PaneId,
    PaneLayout,
};
use crate::layout_laws::{every_pane_is_placed, lemma_sides_apart};
use crate::manager::{by_pane, grab_width, lookup, ManagerState};
use crate::manager_laws::{found_pane_contains_point, lemma_by_pane, placed_panes_have_bounds};
use crate::path_laws::{bounds_at, node_at};
use crate::placement_laws::{exact, share};
use crate::size::{fitted, whole_window, SizeInfo, TerminalResize};
use crate::tree_laws::{
    close_leaves_sibling, held_between, hit_test_finds_first, lemma_leaf_held, lemma_leaf_of,
    lemma_sibling_held, moved_ratio, resize_moves_innermost, same_but_at, sibling_at,
    split_replaces_first_leaf, splits_along,
};
use vstd::arithmetic::power2::{lemma2_to64, lemma_pow2_adds};
use vstd::prelude::*;

verus! {

/// Whether an extent is that many cells, each step rounded.
pub open spec fn is_cells(extent: Binary32, count: int, cell: Binary32) -> bool {
    exists|number: Binary32|
        #![trigger rounds(number, count as real * unit())]
        rounds(number, count as real * unit()) && (number.is_finite() ==> rounds(
            extent,
            exact(number) * share(cell),
        ))
}

/// A new window has one pane, which has focus and the whole window. Its borders
/// are as wide as the configuration says, and its panes at least as many cells
/// wide and high.
pub proof fn new_window_has_one_pane<P>(pane: P, config: PaneConfig, size: SizeInfo)
    requires
        size.cell_width.is_finite(),
        size.cell_height.is_finite(),
    ensures
        ({
            let state = ManagerState::initial(pane, config, size);
            &&& state.layout == PaneLayout::Leaf(state.active)
            &&& state.active.0 == 0
            &&& state.next_id == 1
            &&& forall|key: u64| #[trigger] state.panes.contains_key(key) <==> key == state.active.0
            &&& state.panes[state.active.0] == pane
            &&& state.window == whole_window(size)
            &&& state.bounds().contains_key(state.active.0)
            &&& state.bounds()[state.active.0] == whole_window(size)
            &&& state.pending is None
            &&& state.saved is None
            &&& rounds(state.border, config.border_width as real * unit())
            &&& is_cells(state.min_extent.0, config.min_width as int, size.cell_width)
            &&& is_cells(state.min_extent.1, config.min_height as int, size.cell_height)
        }),
{
    let state = ManagerState::initial(pane, config, size);
    whole_is_rounded(config.border_width as int);
    lemma_cells(config.min_width as int, size.cell_width);
    lemma_cells(config.min_height as int, size.cell_height);
    assert(state.layout.ids() =~= seq![state.active]);
    pane_has_bounds_of_its_leaf(state, Seq::empty(), state.active);
}

proof fn lemma_cells(count: int, cell: Binary32)
    requires
        cell.is_finite(),
        count >= 0,
    ensures
        is_cells(product(from_whole(count), cell), count, cell),
{
    let number = from_whole(count);
    whole_is_rounded(count);
    if number.is_finite() {
        product_is_rounded(number, cell);
    }
}

/// Where no pane is twice in a layout, there is one way to its leaf.
pub proof fn lemma_one_leaf(layout: PaneLayout, a: Seq<bool>, b: Seq<bool>, target: PaneId)
    requires
        layout.ids().no_duplicates(),
        node_at(layout, a) == Some(PaneLayout::Leaf(target)),
        node_at(layout, b) == Some(PaneLayout::Leaf(target)),
    ensures
        a == b,
    decreases layout,
{
    match layout {
        PaneLayout::Leaf(_) => {
            assert(a =~= b);
        },
        PaneLayout::Split { first, second, .. } => {
            let (p, q) = (a.drop_first(), b.drop_first());
            lemma_sides_apart(first.ids(), second.ids());
            lemma_leaf_held(if a[0] { *second } else { *first }, p, target);
            lemma_leaf_held(if b[0] { *second } else { *first }, q, target);
            assert(first.ids().contains(target) ==> !second.ids().contains(target));
            assert(a[0] == b[0]);
            lemma_one_leaf(if a[0] { *second } else { *first }, p, q, target);
            assert(a =~= seq![a[0]] + p);
            assert(b =~= seq![b[0]] + q);
        },
    }
}

/// Whether in the second layout the leaf of a pane has become a split of the
/// direction, with the pane first and the new one second, each with one half, and
/// everything else is the same.
pub open spec fn split_beside(
    before: PaneLayout,
    after: PaneLayout,
    path: Seq<bool>,
    target: PaneId,
    new_pane: PaneId,
    direction: SplitDirection,
) -> bool {
    &&& same_but_at(before, after, path)
    &&& match node_at(after, path) {
        Some(PaneLayout::Split { direction: own, ratio, first, second }) => {
            &&& own == direction
            &&& share(ratio) + share(ratio) == 1 as real
            &&& *first == PaneLayout::Leaf(target)
            &&& *second == PaneLayout::Leaf(new_pane)
        },
        _ => false,
    }
}

proof fn lemma_split_beside(
    layout: PaneLayout,
    path: Seq<bool>,
    target: PaneId,
    new_pane: PaneId,
    direction: SplitDirection,
)
    requires
        layout.ids().no_duplicates(),
        node_at(layout, path) == Some(PaneLayout::Leaf(target)),
    ensures
        split_beside(
            layout,
            layout.with_split(target, new_pane, direction),
            path,
            target,
            new_pane,
            direction,
        ),
{
    assert forall|q: Seq<bool>| #[trigger]
        node_at(layout, q) == Some(PaneLayout::Leaf(target)) implies q == path by {
        lemma_one_leaf(layout, path, q, target);
    }
    split_replaces_first_leaf(layout, target, new_pane, direction, path);
}

/// A split puts the new pane beside the active one, in the layout that is shown
/// and, while the window is zoomed, also in the one that it goes back to. The
/// new pane gets the next identifier. Focus, the other panes and all else stay.
pub proof fn split_puts_pane_beside_active<P>(
    state: ManagerState<P>,
    pane: P,
    direction: SplitDirection,
    path: Seq<bool>,
    saved_path: Seq<bool>,
)
    requires
        state.consistent(),
        state.next_id < u64::MAX,
        node_at(state.layout, path) == Some(PaneLayout::Leaf(state.active)),
        state.saved is Some ==> node_at(state.saved->0, saved_path) == Some(
            PaneLayout::Leaf(state.active),
        ),
    ensures
        ({
            let after = state.after_split(pane, direction);
            let new_pane = PaneId(state.next_id);
            &&& split_beside(state.layout, after.layout, path, state.active, new_pane, direction)
            &&& match (state.saved, after.saved) {
                (Some(before), Some(saved)) => split_beside(
                    before,
                    saved,
                    saved_path,
                    state.active,
                    new_pane,
                    direction,
                ),
                (None, None) => true,
                _ => false,
            }
            &&& after.panes.contains_key(state.next_id)
            &&& after.panes[state.next_id] == pane
            &&& forall|key: u64|
                key != state.next_id ==> (#[trigger] after.panes.contains_key(key)
                    <==> state.panes.contains_key(key)) && after.panes[key] == state.panes[key]
            &&& after.next_id == state.next_id + 1
            &&& after.active == state.active
            &&& after.window == state.window
            &&& after.border == state.border
            &&& after.min_extent == state.min_extent
            &&& after.pending == state.pending
        }),
{
    let new_pane = PaneId(state.next_id);
    lemma_leaf_held(state.layout, path, state.active);
    lemma_split_beside(state.layout, path, state.active, new_pane, direction);
    if let Some(saved) = state.saved {
        lemma_split_beside(saved, saved_path, state.active, new_pane, direction);
    }
}

/// Whether closing a pane has put the other child of its split in the place of
/// that split, as it was, and everything else is the same.
pub open spec fn closed_at(
    before: PaneLayout,
    after: PaneLayout,
    path: Seq<bool>,
    sibling: PaneLayout,
) -> bool {
    node_at(after, path) == Some(sibling) && same_but_at(before, after, path)
}

/// The path to the first leaf: always the first side.
pub open spec fn first_path(layout: PaneLayout) -> Seq<bool>
    decreases layout,
{
    match layout {
        PaneLayout::Leaf(_) => Seq::empty(),
        PaneLayout::Split { first, .. } => seq![false] + first_path(*first),
    }
}

proof fn lemma_first_path(layout: PaneLayout)
    ensures
        node_at(layout, first_path(layout)) == Some(PaneLayout::Leaf(layout.ids().first())),
    decreases layout,
{
    lemma_ids_not_empty(layout);
    match layout {
        PaneLayout::Leaf(id) => {
            assert(layout.ids() =~= seq![id]);
        },
        PaneLayout::Split { first, second, .. } => {
            lemma_first_path(*first);
            lemma_ids_not_empty(*first);
            assert(first_path(layout).drop_first() =~= first_path(*first));
            assert(layout.ids()[0] == first.ids()[0]);
        },
    }
}

/// Whether a pane is gone, and focus is at the first leaf of what is left. The
/// other panes and all else are the same.
pub open spec fn pane_is_gone<P>(
    before: ManagerState<P>,
    after: ManagerState<P>,
    target: PaneId,
) -> bool {
    &&& forall|key: u64| #[trigger]
        after.panes.contains_key(key) <==> before.panes.contains_key(key) && key != target.0
    &&& forall|key: u64| #[trigger]
        after.panes.contains_key(key) ==> after.panes[key] == before.panes[key]
    &&& node_at(after.layout, first_path(after.layout)) == Some(PaneLayout::Leaf(after.active))
    &&& after.next_id == before.next_id
    &&& after.window == before.window
    &&& after.border == before.border
    &&& after.min_extent == before.min_extent
    &&& after.pending == before.pending
}

/// Closing a pane collapses its split in the layout that is shown and, while the
/// window is zoomed, also in the one that it goes back to.
pub proof fn close_takes_pane_out<P>(
    state: ManagerState<P>,
    target: PaneId,
    path: Seq<bool>,
    sibling: PaneLayout,
    saved_path: Seq<bool>,
    saved_sibling: PaneLayout,
)
    requires
        state.consistent(),
        sibling_at(state.layout, path, target, sibling),
        state.saved is Some ==> sibling_at(state.saved->0, saved_path, target, saved_sibling),
    ensures
        ({
            let after = state.after_close(target);
            &&& state.can_close(target)
            &&& closed_at(state.layout, after.layout, path, sibling)
            &&& match (state.saved, after.saved) {
                (Some(before), Some(saved)) => closed_at(
                    before,
                    saved,
                    saved_path,
                    saved_sibling,
                ),
                (None, None) => true,
                _ => false,
            }
            &&& pane_is_gone(state, after, target)
        }),
{
    lemma_closes(state.layout, path, target, sibling);
    close_leaves_sibling(state.layout, target, path, sibling);
    if let Some(saved) = state.saved {
        close_leaves_sibling(saved, target, saved_path, saved_sibling);
    }
    lemma_first_path(state.layout.without(target));
}

proof fn lemma_closes(layout: PaneLayout, path: Seq<bool>, target: PaneId, sibling: PaneLayout)
    requires
        sibling_at(layout, path, target, sibling),
    ensures
        layout is Split,
        layout.holds(target),
        layout.ids().len() > 1,
{
    lemma_sibling_held(layout, path, target, sibling);
    if let PaneLayout::Split { first, second, .. } = layout {
        lemma_ids_not_empty(*first);
        lemma_ids_not_empty(*second);
    }
}

/// Closing does nothing to the last pane of a layout, nor to one that is not in
/// it.
pub proof fn close_spares_last_pane<P>(state: ManagerState<P>, target: PaneId)
    requires
        state.layout is Leaf || forall|path: Seq<bool>| #[trigger]
            node_at(state.layout, path) != Some(PaneLayout::Leaf(target)),
    ensures
        !state.can_close(target),
        state.after_close(target) == state,
{
    if let PaneLayout::Leaf(id) = state.layout {
        assert(state.layout.ids() =~= seq![id]);
    } else if state.layout.holds(target) {
        let path = lemma_leaf_of(state.layout, target);
        assert(node_at(state.layout, path) == Some(PaneLayout::Leaf(target)));
    }
}

/// Closing the active pane of a window that is zoomed to it goes back to the full
/// layout, and collapses its split there.
pub proof fn close_of_zoomed_pane_restores<P>(
    state: ManagerState<P>,
    path: Seq<bool>,
    sibling: PaneLayout,
)
    requires
        state.consistent(),
        state.saved is Some,
        state.layout is Leaf,
        sibling_at(state.saved->0, path, state.active, sibling),
    ensures
        ({
            let after = state.after_close_active();
            &&& state.can_close_active()
            &&& after.saved is None
            &&& closed_at(state.saved->0, after.layout, path, sibling)
            &&& pane_is_gone(state, after, state.active)
        }),
{
    let open = state.after_zoom();
    if let PaneLayout::Leaf(id) = state.layout {
        assert(state.layout.ids() =~= seq![id]);
    }
    assert(!state.can_close(state.active));
    assert(open.full_layout() == state.full_layout());
    close_takes_pane_out(open, state.active, path, sibling, path, sibling);
}

/// Closing the active pane of any other window collapses its split in the layout
/// that is shown.
pub proof fn close_of_active_pane_takes_it_out<P>(
    state: ManagerState<P>,
    path: Seq<bool>,
    sibling: PaneLayout,
)
    requires
        state.consistent(),
        sibling_at(state.layout, path, state.active, sibling),
    ensures
        state.can_close_active(),
        state.after_close_active() == state.after_close(state.active),
{
    lemma_closes(state.layout, path, state.active, sibling);
}

/// Focus can be asked for a pane that exists: the switch is queued, in place of
/// an earlier one, and nothing else changes. For another pane nothing changes.
pub proof fn request_queues_focus<P>(state: ManagerState<P>, target: PaneId)
    ensures
        ({
            let after = state.after_request(target);
            &&& state.panes.contains_key(target.0) ==> after.pending == Some(target)
            &&& !state.panes.contains_key(target.0) ==> after.pending == state.pending
            &&& after.active == state.active
            &&& after.layout == state.layout
            &&& after.saved == state.saved
            &&& after.panes == state.panes
            &&& after.next_id == state.next_id
            &&& after.window == state.window
            &&& after.border == state.border
            &&& after.min_extent == state.min_extent
        }),
{
}

/// A queued switch moves focus, where its pane still exists; either way the queue
/// is empty then, and nothing else changes.
pub proof fn queued_focus_is_applied<P>(state: ManagerState<P>)
    ensures
        ({
            let after = state.after_apply();
            &&& state.can_apply() <==> state.pending is Some && state.panes.contains_key(
                (state.pending->0).0,
            )
            &&& match state.pending {
                Some(target) => if state.panes.contains_key(target.0) {
                    after.active == target
                } else {
                    after.active == state.active
                },
                None => after.active == state.active,
            }
            &&& after.pending is None
            &&& after.layout == state.layout
            &&& after.saved == state.saved
            &&& after.panes == state.panes
            &&& after.next_id == state.next_id
            &&& after.window == state.window
            &&& after.border == state.border
            &&& after.min_extent == state.min_extent
        }),
{
}

/// Zoom shows the active pane alone and keeps the layout; the next one shows the
/// layout that was kept. Nothing else changes.
pub proof fn zoom_shows_active_pane<P>(state: ManagerState<P>)
    ensures
        ({
            let after = state.after_zoom();
            &&& match state.saved {
                Some(layout) => after.layout == layout && after.saved is None,
                None => {
                    &&& after.layout == PaneLayout::Leaf(state.active)
                    &&& after.saved == Some(state.layout)
                },
            }
            &&& after.active == state.active
            &&& after.pending == state.pending
            &&& after.panes == state.panes
            &&& after.next_id == state.next_id
            &&& after.window == state.window
            &&& after.border == state.border
            &&& after.min_extent == state.min_extent
        }),
{
}

/// Whether a ratio is the smallest one of a window: the smallest extent of a pane
/// as a part of what the border leaves of the extent of the window, held between
/// one twentieth and one half. Each step is rounded.
#[verifier::opaque]
pub open spec fn is_smallest_ratio(
    ratio: Binary32,
    min_extent: Binary32,
    extent: Binary32,
    border: Binary32,
) -> bool {
    exists|total: Binary32|
        #![trigger rounds(total, exact(extent) - exact(border))]
        rounds(total, exact(extent) - exact(border)) && (total.is_finite() && exact(total)
            != 0 as real ==> exists|wanted: Binary32|
            #![trigger rounds(wanted, exact(min_extent) / exact(total) * unit())]
            rounds(wanted, exact(min_extent) / exact(total) * unit()) && exact(ratio)
                == held_between(exact(wanted), exact(twentieth()), exact(half())))
}

proof fn lemma_smallest_ratio(min_extent: Binary32, extent: Binary32, border: Binary32)
    requires
        min_extent.is_finite(),
        extent.is_finite(),
        border.is_finite(),
    ensures
        is_smallest_ratio(
            smallest_ratio(min_extent, difference(extent, border)),
            min_extent,
            extent,
            border,
        ),
{
    reveal(is_smallest_ratio);
    let total = difference(extent, border);
    difference_is_rounded(extent, border);
    if total.is_finite() && exact(total) != 0 as real {
        quotient_is_rounded(min_extent, total);
        limits_are_twentieth_and_half();
        let wanted = quotient(min_extent, total);
        assert(rounds(wanted, exact(min_extent) / exact(total) * unit()));
        assert(exact(smallest_ratio(min_extent, total)) == held_between(
            exact(wanted),
            exact(twentieth()),
            exact(half()),
        ));
    }
}

/// The smallest ratio of a window goes by the width of the window and of a pane
/// for vertical splits, and by the heights for horizontal ones.
pub proof fn smallest_ratio_goes_by_window<P>(state: ManagerState<P>, direction: SplitDirection)
    requires
        state.border.is_finite(),
        state.window.width.is_finite(),
        state.window.height.is_finite(),
        state.min_extent.0.is_finite(),
        state.min_extent.1.is_finite(),
    ensures
        ({
            let ratio = state.min_ratio(direction);
            match direction {
                SplitDirection::Vertical => is_smallest_ratio(
                    ratio,
                    state.min_extent.0,
                    state.window.width,
                    state.border,
                ),
                SplitDirection::Horizontal => is_smallest_ratio(
                    ratio,
                    state.min_extent.1,
                    state.window.height,
                    state.border,
                ),
            }
        }),
{
    match direction {
        SplitDirection::Vertical => {
            lemma_smallest_ratio(state.min_extent.0, state.window.width, state.border);
        },
        SplitDirection::Horizontal => {
            lemma_smallest_ratio(state.min_extent.1, state.window.height, state.border);
        },
    }
}

/// A resize by a step moves the border of the innermost split of the direction
/// above the pane, so that a positive step makes the side of the pane larger. The
/// ratio stays between the smallest one and what that leaves of one. Nothing else
/// changes.
pub proof fn step_moves_innermost_border<P>(
    state: ManagerState<P>,
    target: PaneId,
    direction: SplitDirection,
    amount: Binary32,
    path: Seq<bool>,
    k: int,
)
    requires
        state.layout.ids().no_duplicates(),
        node_at(state.layout, path) == Some(PaneLayout::Leaf(target)),
        0 <= k < path.len(),
        splits_along(state.layout, path.take(k), direction),
        forall|j: int|
            k < j < path.len() ==> !splits_along(
                state.layout,
                #[trigger] path.take(j),
                direction,
            ),
        amount.is_finite(),
        (node_at(state.layout, path.take(k))->0)->ratio.is_finite(),
        state.min_ratio(direction).is_finite(),
    ensures
        ({
            let after = state.after_resize(target, direction, amount);
            let before = node_at(state.layout, path.take(k))->0;
            let low = state.min_ratio(direction);
            &&& after == (ManagerState { layout: after.layout, ..state })
            &&& same_but_at(state.layout, after.layout, path.take(k))
            &&& match node_at(after.layout, path.take(k)) {
                Some(PaneLayout::Split { direction: own, ratio, first, second }) => {
                    &&& own == direction
                    &&& first == before->first
                    &&& second == before->second
                    &&& exists|high: Binary32| #[trigger]
                        rounds(high, unit() - exact(low)) && moved_ratio(
                            before->ratio,
                            ratio,
                            amount,
                            !path[k],
                            low,
                            high,
                        )
                },
                _ => false,
            }
        }),
{
    let low = state.min_ratio(direction);
    let high = largest_ratio(low);
    lemma_unit();
    difference_is_rounded(one(), low);
    assert(rounds(high, unit() - exact(low)));
    resize_moves_innermost(state.layout, target, direction, amount, low, high, path, k);
}

/// A border is grabbed within twice its width.
pub proof fn grab_width_is_twice_border(border: Binary32)
    requires
        border.is_finite(),
    ensures
        rounds(grab_width(border), exact(border) + exact(border)),
{
    lemma_unit();
    assert(0x4000_0000int / 0x80_0000 == 128 && 0x4000_0000int % 0x80_0000 == 0);
    assert(two().code() == 0x4000_0000);
    lemma_pow2_adds(1, 149);
    lemma_pow2_adds(23, 127);
    lemma2_to64();
    assert(exact(two()) == unit() + unit());
    product_is_rounded(border, two());
    let (b, u, t) = (exact(border), unit(), exact(two()));
    assert(b * (t / u) == b + b) by (nonlinear_arith)
        requires
            t == u + u,
            u > 0 as real,
    ;
}

/// A pane is found at a point exactly where the point is inside the bounds of
/// some pane that is shown.
pub proof fn point_in_pane_finds_pane<P>(state: ManagerState<P>, px: Binary32, py: Binary32)
    requires
        state.consistent(),
    ensures
        first_hit(state.layout.placed(state.window, state.border), px, py) is Some <==> exists|
            key: u64,
        | #[trigger]
            state.bounds().contains_key(key) && inside(state.bounds()[key], px, py),
{
    let placed = state.layout.placed(state.window, state.border);
    hit_test_finds_first(placed, px, py);
    every_pane_is_placed(state.layout, state.window, state.border);
    if let Some(id) = first_hit(placed, px, py) {
        found_pane_contains_point(state, px, py);
        assert(state.bounds().contains_key(id.0));
    } else {
        assert forall|key: u64| #[trigger] state.bounds().contains_key(key) implies !inside(
            state.bounds()[key],
            px,
            py,
        ) by {
            lemma_by_pane(placed, PaneId(key));
            let j = choose|j: int|
                0 <= j < placed.len() && #[trigger] placed[j] == (
                    PaneId(key),
                    state.bounds()[key],
                );
            assert(!inside(placed[j].1, px, py));
        }
    }
}

/// A lookup gives what is there.
pub proof fn lookup_gives_value<T>(map: Map<u64, T>, id: PaneId)
    ensures
        map.contains_key(id.0) ==> lookup(map, id) == Some(map[id.0]),
        !map.contains_key(id.0) ==> lookup(map, id) is None,
{
}

/// The terminals that follow a change of the window are those of all panes that
/// are shown but the active one, each with the size that fits the bounds of its
/// leaf.
pub proof fn other_terminals_follow_window<P>(
    state: ManagerState<P>,
    list: Seq<(PaneId, TerminalResize)>,
    size: SizeInfo,
    path: Seq<bool>,
    id: PaneId,
)
    requires
        state.consistent(),
        state.resized_terminals(list, size),
        node_at(state.layout, path) == Some(PaneLayout::Leaf(id)),
    ensures
        ({
            let own = bounds_at(state.layout, path, state.window, state.border);
            id != state.active ==> list.contains((id, fitted(own, size)))
        }),
        forall|i: int| 0 <= i < list.len() ==> (#[trigger] list[i]).0 != state.active,
        forall|i: int|
            0 <= i < list.len() ==> state.layout.holds((#[trigger] list[i]).0),
        forall|i: int, j: int|
            0 <= i < j < list.len() ==> (#[trigger] list[i]).0 != (#[trigger] list[j]).0,
{
    lemma_leaf_held(state.layout, path, id);
    pane_has_bounds_of_its_leaf(state, path, id);
    assert(state.full_layout().holds(id));
    if id != state.active {
        assert(state.resizes(id));
        let i = choose|i: int| 0 <= i < list.len() && #[trigger] list[i].0 == id;
        assert(list[i] == (id, fitted(state.bounds()[id.0], size)));
    }
    assert forall|i: int| 0 <= i < list.len() implies state.layout.holds(
        (#[trigger] list[i]).0,
    ) by {
        assert(state.resizes(list[i].0));
        placed_panes_have_bounds(state, list[i].0);
    }
}

/// Of the places of a pane the last one counts.
pub proof fn last_place_of_pane_counts(placed: Seq<(PaneId, PaneBounds)>, i: int)
    requires
        0 <= i < placed.len(),
        forall|j: int| i < j < placed.len() ==> (#[trigger] placed[j]).0 != placed[i].0,
    ensures
        by_pane(placed).contains_key(placed[i].0.0),
        by_pane(placed)[placed[i].0.0] == placed[i].1,
    decreases placed.len(),
{
    let n = placed.len() - 1;
    if i < n {
        let rest = placed.drop_last();
        assert(forall|j: int| 0 <= j < rest.len() ==> #[trigger] rest[j] == placed[j]);
        last_place_of_pane_counts(rest, i);
        assert(placed[n].0 != placed[i].0);
    }
}

} // verus!
