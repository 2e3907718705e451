//! Which splits of a layout its operations find.
use crate::binary32::Binary32;
use crate::bounds::{first_half, inside, second_half, PaneBounds, SplitDirection};
use crate::layout::{
    dragged_ratio, has_room, lemma_contains_concat, on_separator, PaneId, PaneLayout,
};
use crate::layout_laws::lemma_sides_apart;
use vstd::prelude::*;

verus! {

/// The part of a layout at the end of a path: at each split, whether to go on
/// with its second side.
pub open spec fn node_at(layout: PaneLayout, path: Seq<bool>) -> Option<PaneLayout>
    decreases path.len(),
{
    if path.len() == 0 {
        Some(layout)
    } else {
        match layout {
            PaneLayout::Leaf(_) => None,
            PaneLayout::Split { first, second, .. } => if path[0] {
                node_at(*second, path.drop_first())
            } else {
                node_at(*first, path.drop_first())
            },
        }
    }
}

/// The bounds of that part.
pub open spec fn bounds_at(
    layout: PaneLayout,
    path: Seq<bool>,
    bounds: PaneBounds,
    border: Binary32,
) -> PaneBounds
    decreases path.len(),
{
    if path.len() == 0 {
        bounds
    } else {
        match layout {
            PaneLayout::Leaf(_) => bounds,
            PaneLayout::Split { direction, ratio, first, second } => if path[0] {
                bounds_at(
                    *second,
                    path.drop_first(),
                    second_half(bounds, direction, ratio, border),
                    border,
                )
            } else {
                bounds_at(
                    *first,
                    path.drop_first(),
                    first_half(bounds, direction, ratio, border),
                    border,
                )
            },
        }
    }
}

/// The layout with the ratio of the split at the end of a path replaced.
pub open spec fn with_ratio_at(layout: PaneLayout, path: Seq<bool>, new_ratio: Binary32) -> PaneLayout
    decreases path.len(),
{
    match layout {
        PaneLayout::Leaf(_) => layout,
        PaneLayout::Split { direction, ratio, first, second } => if path.len() == 0 {
            PaneLayout::Split { direction, ratio: new_ratio, first, second }
        } else if path[0] {
            PaneLayout::Split {
                direction,
                ratio,
                first,
                second: Box::new(with_ratio_at(*second, path.drop_first(), new_ratio)),
            }
        } else {
            PaneLayout::Split {
                direction,
                ratio,
                first: Box::new(with_ratio_at(*first, path.drop_first(), new_ratio)),
                second,
            }
        },
    }
}

/// Whether a split of the given direction around the pane is at the end of the
/// path, and has room.
pub open spec fn draggable(
    layout: PaneLayout,
    path: Seq<bool>,
    target: PaneId,
    along: SplitDirection,
    bounds: PaneBounds,
    border: Binary32,
) -> bool {
    match node_at(layout, path) {
        Some(node) => {
            &&& node is Split
            &&& node->direction == along
            &&& node.holds(target)
            &&& has_room(bounds_at(layout, path, bounds, border), along, border)
        },
        None => false,
    }
}

/// Whether that split is an innermost one.
pub open spec fn innermost(
    layout: PaneLayout,
    path: Seq<bool>,
    target: PaneId,
    along: SplitDirection,
    bounds: PaneBounds,
    border: Binary32,
) -> bool {
    &&& draggable(layout, path, target, along, bounds, border)
    &&& forall|longer: Seq<bool>|
        path.is_prefix_of(longer) && longer != path ==> !#[trigger] draggable(
            layout,
            longer,
            target,
            along,
            bounds,
            border,
        )
}

/// Whether `after` is the layout with the border at the end of the path dragged
/// to the position, and this is an innermost one.
pub open spec fn dragged_at(
    layout: PaneLayout,
    after: PaneLayout,
    path: Seq<bool>,
    target: PaneId,
    along: SplitDirection,
    position: Binary32,
    bounds: PaneBounds,
    border: Binary32,
    min_extent: Binary32,
) -> bool {
    &&& innermost(layout, path, target, along, bounds, border)
    &&& after == with_ratio_at(
        layout,
        path,
        dragged_ratio(position, bounds_at(layout, path, bounds, border), along, border, min_extent),
    )
}

/// A drag changes the ratio of an innermost split of the direction around the
/// pane that has room, and nothing else. It does nothing where no such split
/// has room.
pub proof fn drag_changes_innermost(
    layout: PaneLayout,
    target: PaneId,
    along: SplitDirection,
    position: Binary32,
    bounds: PaneBounds,
    border: Binary32,
    min_extent: Binary32,
)
    ensures
        match layout.with_drag(target, along, position, bounds, border, min_extent) {
            Some(after) => exists|path: Seq<bool>| #[trigger]
                dragged_at(
                    layout,
                    after,
                    path,
                    target,
                    along,
                    position,
                    bounds,
                    border,
                    min_extent,
                ),
            None => forall|path: Seq<bool>| !#[trigger]
                draggable(layout, path, target, along, bounds, border),
        },
    decreases layout,
{
    match layout {
        PaneLayout::Leaf(_) => {},
        PaneLayout::Split { direction, ratio, first, second } => {
            let first_bounds = first_half(bounds, direction, ratio, border);
            let second_bounds = second_half(bounds, direction, ratio, border);
            drag_changes_innermost(
                *first,
                target,
                along,
                position,
                first_bounds,
                border,
                min_extent,
            );
            drag_changes_innermost(
                *second,
                target,
                along,
                position,
                second_bounds,
                border,
                min_extent,
            );
            let in_first = first.with_drag(
                target,
                along,
                position,
                first_bounds,
                border,
                min_extent,
            );
            let in_second = second.with_drag(
                target,
                along,
                position,
                second_bounds,
                border,
                min_extent,
            );
            if let Some(changed) = in_first {
                let end = choose|path: Seq<bool>| #[trigger]
                    dragged_at(
                        *first,
                        changed,
                        path,
                        target,
                        along,
                        position,
                        first_bounds,
                        border,
                        min_extent,
                    );
                lemma_path_below(layout, false, end, target, along, bounds, border);
                let path = seq![false] + end;
                assert(path.drop_first() =~= end);
                let after = layout.with_drag(target, along, position, bounds, border, min_extent)->0;
                assert(dragged_at(
                    layout,
                    after,
                    path,
                    target,
                    along,
                    position,
                    bounds,
                    border,
                    min_extent,
                ));
            } else if let Some(changed) = in_second {
                let end = choose|path: Seq<bool>| #[trigger]
                    dragged_at(
                        *second,
                        changed,
                        path,
                        target,
                        along,
                        position,
                        second_bounds,
                        border,
                        min_extent,
                    );
                lemma_path_below(layout, true, end, target, along, bounds, border);
                let path = seq![true] + end;
                assert(path.drop_first() =~= end);
                let after = layout.with_drag(target, along, position, bounds, border, min_extent)->0;
                assert(dragged_at(
                    layout,
                    after,
                    path,
                    target,
                    along,
                    position,
                    bounds,
                    border,
                    min_extent,
                ));
            } else {
                let own = direction == along && layout.holds(target) && has_room(
                    bounds,
                    along,
                    border,
                );
                let root = Seq::<bool>::empty();
                assert forall|path: Seq<bool>| path.len() > 0 implies !#[trigger] draggable(
                    layout,
                    path,
                    target,
                    along,
                    bounds,
                    border,
                ) by {
                    let side = if path[0] { *second } else { *first };
                    let side_bounds = if path[0] { second_bounds } else { first_bounds };
                    assert(!draggable(
                        side,
                        path.drop_first(),
                        target,
                        along,
                        side_bounds,
                        border,
                    ));
                }
                assert forall|path: Seq<bool>| path.len() == 0 implies #[trigger] draggable(
                    layout,
                    path,
                    target,
                    along,
                    bounds,
                    border,
                ) == own by {}
                if own {
                    let after = layout.with_drag(
                        target,
                        along,
                        position,
                        bounds,
                        border,
                        min_extent,
                    )->0;
                    assert forall|longer: Seq<bool>|
                        root.is_prefix_of(longer) && longer != root implies !#[trigger] draggable(
                        layout,
                        longer,
                        target,
                        along,
                        bounds,
                        border,
                    ) by {
                        if longer.len() == 0 {
                            assert(longer =~= root);
                        }
                    }
                    assert(dragged_at(
                        layout,
                        after,
                        root,
                        target,
                        along,
                        position,
                        bounds,
                        border,
                        min_extent,
                    ));
                }
            }
        },
    }
}

/// An innermost split of one side of a split is one of the whole.
proof fn lemma_path_below(
    layout: PaneLayout,
    side: bool,
    end: Seq<bool>,
    target: PaneId,
    along: SplitDirection,
    bounds: PaneBounds,
    border: Binary32,
)
    requires
        layout is Split,
        ({
            let (part, part_bounds) = if side {
                (*layout->second, second_half(bounds, layout->direction, layout->ratio, border))
            } else {
                (*layout->first, first_half(bounds, layout->direction, layout->ratio, border))
            };
            innermost(part, end, target, along, part_bounds, border)
        }),
    ensures
        innermost(layout, seq![side] + end, target, along, bounds, border),
{
    let path = seq![side] + end;
    let (part, part_bounds) = if side {
        (*layout->second, second_half(bounds, layout->direction, layout->ratio, border))
    } else {
        (*layout->first, first_half(bounds, layout->direction, layout->ratio, border))
    };
    assert(path.drop_first() =~= end);
    assert(draggable(part, end, target, along, part_bounds, border));
    assert(draggable(layout, path, target, along, bounds, border));
    assert forall|longer: Seq<bool>|
        path.is_prefix_of(longer) && longer != path implies !#[trigger] draggable(
        layout,
        longer,
        target,
        along,
        bounds,
        border,
    ) by {
        let rest = longer.drop_first();
        assert(longer[0] == longer.subrange(0, path.len() as int)[0]);
        assert(longer[0] == side);
        assert(end =~= rest.subrange(0, end.len() as int)) by {
            assert forall|i: int| 0 <= i < end.len() implies end[i] == rest[i] by {
                assert(path[i + 1] == longer.subrange(0, path.len() as int)[i + 1]);
            }
        }
        if rest == end {
            assert(longer =~= path);
        }
        assert(!draggable(part, rest, target, along, part_bounds, border));
    }
}

/// Where no pane is twice in a layout, there is one innermost split: every other
/// one of the direction around the pane that has room is around it.
pub proof fn innermost_is_unique(
    layout: PaneLayout,
    path: Seq<bool>,
    other: Seq<bool>,
    target: PaneId,
    along: SplitDirection,
    bounds: PaneBounds,
    border: Binary32,
)
    requires
        layout.ids().no_duplicates(),
        innermost(layout, path, target, along, bounds, border),
        draggable(layout, other, target, along, bounds, border),
    ensures
        other.is_prefix_of(path),
{
    lemma_one_way_to_pane(layout, path, other, target);
}

/// Where no pane is twice in a layout, of two parts with the same pane one is
/// inside the other.
proof fn lemma_one_way_to_pane(layout: PaneLayout, a: Seq<bool>, b: Seq<bool>, target: PaneId)
    requires
        layout.ids().no_duplicates(),
        node_at(layout, a) is Some,
        node_at(layout, b) is Some,
        node_at(layout, a)->0.holds(target),
        node_at(layout, b)->0.holds(target),
    ensures
        a.is_prefix_of(b) || b.is_prefix_of(a),
    decreases layout,
{
    if a.len() == 0 {
        assert(a =~= b.subrange(0, 0));
    } else if b.len() == 0 {
        assert(b =~= a.subrange(0, 0));
    } else if let PaneLayout::Split { first, second, .. } = layout {
        let (x, y) = (a.drop_first(), b.drop_first());
        lemma_sides_apart(first.ids(), second.ids());
        lemma_part_holds(if a[0] { *second } else { *first }, x, target);
        lemma_part_holds(if b[0] { *second } else { *first }, y, target);
        assert(first.ids().contains(target) ==> !second.ids().contains(target));
        lemma_one_way_to_pane(if a[0] { *second } else { *first }, x, y, target);
        if x.is_prefix_of(y) {
            assert forall|i: int| 0 <= i < a.len() implies a[i] == b[i] by {
                if i > 0 {
                    assert(x[i - 1] == y.subrange(0, x.len() as int)[i - 1]);
                }
            }
            assert(a =~= b.subrange(0, a.len() as int));
        } else {
            assert forall|i: int| 0 <= i < b.len() implies a[i] == b[i] by {
                if i > 0 {
                    assert(y[i - 1] == x.subrange(0, y.len() as int)[i - 1]);
                }
            }
            assert(b =~= a.subrange(0, b.len() as int));
        }
    }
}

/// What a part of a layout holds, the layout holds.
pub proof fn lemma_part_holds(layout: PaneLayout, path: Seq<bool>, target: PaneId)
    requires
        node_at(layout, path) is Some,
        node_at(layout, path)->0.holds(target),
    ensures
        layout.holds(target),
    decreases path.len(),
{
    if path.len() > 0 {
        if let PaneLayout::Split { first, second, .. } = layout {
            lemma_part_holds(
                if path[0] {
                    *second
                } else {
                    *first
                },
                path.drop_first(),
                target,
            );
            lemma_contains_concat(first.ids(), second.ids(), target);
        }
    }
}

/// Whether the innermost split of the direction around the pane has room.
pub open spec fn innermost_has_room(
    layout: PaneLayout,
    target: PaneId,
    along: SplitDirection,
    bounds: PaneBounds,
    border: Binary32,
) -> bool
    decreases layout,
{
    match layout {
        PaneLayout::Leaf(_) => false,
        PaneLayout::Split { direction, ratio, first, second } => if first.has_split_around(
            target,
            along,
        ) {
            innermost_has_room(
                *first,
                target,
                along,
                first_half(bounds, direction, ratio, border),
                border,
            )
        } else if second.has_split_around(target, along) {
            innermost_has_room(
                *second,
                target,
                along,
                second_half(bounds, direction, ratio, border),
                border,
            )
        } else {
            direction == along && layout.holds(target) && has_room(bounds, along, border)
        },
    }
}

/// Without a split of the direction around the pane there is nothing to drag.
pub proof fn lemma_drag_needs_split(
    layout: PaneLayout,
    target: PaneId,
    along: SplitDirection,
    position: Binary32,
    bounds: PaneBounds,
    border: Binary32,
    min_extent: Binary32,
)
    requires
        !layout.has_split_around(target, along),
    ensures
        layout.with_drag(target, along, position, bounds, border, min_extent) is None,
        layout.drag_has_limits(target, along, position, bounds, border, min_extent),
    decreases layout,
{
    if let PaneLayout::Split { direction, ratio, first, second } = layout {
        let first_bounds = first_half(bounds, direction, ratio, border);
        let second_bounds = second_half(bounds, direction, ratio, border);
        lemma_drag_needs_split(*first, target, along, position, first_bounds, border, min_extent);
        lemma_drag_needs_split(*second, target, along, position, second_bounds, border, min_extent);
        lemma_contains_concat(first.ids(), second.ids(), target);
    }
}

/// Where the innermost split of the direction around the pane has room, a drag
/// moves a border, and repeating it changes nothing more.
pub proof fn repeated_drag_changes_nothing(
    layout: PaneLayout,
    target: PaneId,
    along: SplitDirection,
    position: Binary32,
    bounds: PaneBounds,
    border: Binary32,
    min_extent: Binary32,
)
    requires
        innermost_has_room(layout, target, along, bounds, border),
    ensures
        match layout.with_drag(target, along, position, bounds, border, min_extent) {
            Some(after) => {
                &&& after.with_drag(target, along, position, bounds, border, min_extent) == Some(
                    after,
                )
                &&& layout.drag_has_limits(target, along, position, bounds, border, min_extent)
                    ==> after.drag_has_limits(
                    target,
                    along,
                    position,
                    bounds,
                    border,
                    min_extent,
                )
            },
            None => false,
        },
    decreases layout,
{
    if let PaneLayout::Split { direction, ratio, first, second } = layout {
        let first_bounds = first_half(bounds, direction, ratio, border);
        let second_bounds = second_half(bounds, direction, ratio, border);
        lemma_contains_concat(first.ids(), second.ids(), target);
        if first.has_split_around(target, along) {
            repeated_drag_changes_nothing(
                *first,
                target,
                along,
                position,
                first_bounds,
                border,
                min_extent,
            );
        } else {
            lemma_drag_needs_split(
                *first,
                target,
                along,
                position,
                first_bounds,
                border,
                min_extent,
            );
            if second.has_split_around(target, along) {
                repeated_drag_changes_nothing(
                    *second,
                    target,
                    along,
                    position,
                    second_bounds,
                    border,
                    min_extent,
                );
            } else {
                lemma_drag_needs_split(
                    *second,
                    target,
                    along,
                    position,
                    second_bounds,
                    border,
                    min_extent,
                );
                let now = dragged_ratio(position, bounds, along, border, min_extent);
                lemma_drag_needs_split(
                    *first,
                    target,
                    along,
                    position,
                    first_half(bounds, direction, now, border),
                    border,
                    min_extent,
                );
                lemma_drag_needs_split(
                    *second,
                    target,
                    along,
                    position,
                    second_half(bounds, direction, now, border),
                    border,
                    min_extent,
                );
            }
        }
    }
}

/// Whether the point is on the separator of the split at the end of the path.
#[verifier::opaque]
pub open spec fn border_on(
    layout: PaneLayout,
    path: Seq<bool>,
    px: Binary32,
    py: Binary32,
    bounds: PaneBounds,
    border: Binary32,
) -> bool {
    match node_at(layout, path) {
        Some(PaneLayout::Split { direction, ratio, .. }) => {
            let own = bounds_at(layout, path, bounds, border);
            on_separator(px, py, own, first_half(own, direction, ratio, border), direction, border)
        },
        _ => false,
    }
}

/// How the border of the split at the end of the path is named: by the first
/// pane on its first side, and its direction.
#[verifier::opaque]
pub open spec fn border_name(layout: PaneLayout, path: Seq<bool>) -> (PaneId, SplitDirection) {
    let node = node_at(layout, path)->0;
    (node->first.ids().first(), node->direction)
}

/// Whether the border at the end of the path is at the point, and has the name.
pub open spec fn named_border_on(
    layout: PaneLayout,
    path: Seq<bool>,
    name: (PaneId, SplitDirection),
    px: Binary32,
    py: Binary32,
    bounds: PaneBounds,
    border: Binary32,
) -> bool {
    border_on(layout, path, px, py, bounds, border) && border_name(layout, path) == name
}

/// The border at the root of a layout.
pub proof fn lemma_border_at_root(
    layout: PaneLayout,
    px: Binary32,
    py: Binary32,
    bounds: PaneBounds,
    border: Binary32,
)
    ensures
        layout is Leaf ==> !border_on(layout, Seq::empty(), px, py, bounds, border),
        layout is Split ==> border_on(layout, Seq::empty(), px, py, bounds, border)
            == on_separator(
            px,
            py,
            bounds,
            first_half(bounds, layout->direction, layout->ratio, border),
            layout->direction,
            border,
        ),
        layout is Split ==> border_name(layout, Seq::empty()) == (
            layout->first.ids().first(),
            layout->direction,
        ),
{
    reveal(border_on);
    reveal(border_name);
}

/// A path that begins with a step into one side of a split.
pub proof fn lemma_border_below(
    layout: PaneLayout,
    path: Seq<bool>,
    px: Binary32,
    py: Binary32,
    bounds: PaneBounds,
    border: Binary32,
)
    requires
        path.len() > 0,
    ensures
        layout is Leaf ==> !border_on(layout, path, px, py, bounds, border),
        layout is Split && path[0] ==> {
            let part_bounds = second_half(bounds, layout->direction, layout->ratio, border);
            let end = path.drop_first();
            &&& border_on(layout, path, px, py, bounds, border) == border_on(
                *layout->second,
                end,
                px,
                py,
                part_bounds,
                border,
            )
            &&& border_name(layout, path) == border_name(*layout->second, end)
        },
        layout is Split && !path[0] ==> {
            let part_bounds = first_half(bounds, layout->direction, layout->ratio, border);
            let end = path.drop_first();
            &&& border_on(layout, path, px, py, bounds, border) == border_on(
                *layout->first,
                end,
                px,
                py,
                part_bounds,
                border,
            )
            &&& border_name(layout, path) == border_name(*layout->first, end)
        },
{
    reveal(border_on);
    reveal(border_name);
}

/// The border that is found at a point is one on whose separator the point
/// lies. None is found only where there is no such border.
pub proof fn border_search_is_exact(
    layout: PaneLayout,
    px: Binary32,
    py: Binary32,
    bounds: PaneBounds,
    border: Binary32,
)
    ensures
        match layout.border_near(px, py, bounds, border) {
            Some(name) => exists|path: Seq<bool>| #[trigger]
                named_border_on(layout, path, name, px, py, bounds, border),
            None => forall|path: Seq<bool>| !#[trigger]
                border_on(layout, path, px, py, bounds, border),
        },
    decreases layout,
{
    match layout {
        PaneLayout::Leaf(_) => {
            assert(layout.border_near(px, py, bounds, border) is None);
            assert forall|path: Seq<bool>| !#[trigger] border_on(
                layout,
                path,
                px,
                py,
                bounds,
                border,
            ) by {
                reveal(border_on);
            }
        },
        PaneLayout::Split { direction, ratio, first, second } => {
            let first_bounds = first_half(bounds, direction, ratio, border);
            let second_bounds = second_half(bounds, direction, ratio, border);
            border_search_is_exact(*first, px, py, first_bounds, border);
            border_search_is_exact(*second, px, py, second_bounds, border);
            let found = layout.border_near(px, py, bounds, border);
            let root = Seq::<bool>::empty();
            lemma_border_at_root(layout, px, py, bounds, border);
            if on_separator(px, py, bounds, first_bounds, direction, border) {
                assert(named_border_on(layout, root, found->0, px, py, bounds, border));
            } else if let Some(name) = first.border_near(px, py, first_bounds, border) {
                let end = choose|path: Seq<bool>| #[trigger]
                    named_border_on(*first, path, name, px, py, first_bounds, border);
                let path = seq![false] + end;
                assert(path.drop_first() =~= end);
                lemma_border_below(layout, path, px, py, bounds, border);
                assert(found == Some(name));
                assert(named_border_on(layout, path, found->0, px, py, bounds, border));
            } else if let Some(name) = second.border_near(px, py, second_bounds, border) {
                let end = choose|path: Seq<bool>| #[trigger]
                    named_border_on(*second, path, name, px, py, second_bounds, border);
                let path = seq![true] + end;
                assert(path.drop_first() =~= end);
                lemma_border_below(layout, path, px, py, bounds, border);
                assert(found == Some(name));
                assert(named_border_on(layout, path, found->0, px, py, bounds, border));
            } else {
                assert(found is None);
                assert forall|path: Seq<bool>| !#[trigger] border_on(
                    layout,
                    path,
                    px,
                    py,
                    bounds,
                    border,
                ) by {
                    if path.len() > 0 {
                        lemma_border_below(layout, path, px, py, bounds, border);
                    } else {
                        assert(path =~= root);
                    }
                }
            }
        },
    }
}

/// Whether the paths lead to different splits on whose separators the point
/// lies, and the names are those of their borders.
pub open spec fn borders_on(
    layout: PaneLayout,
    paths: Seq<Seq<bool>>,
    names: Seq<(PaneId, SplitDirection)>,
    px: Binary32,
    py: Binary32,
    bounds: PaneBounds,
    border: Binary32,
) -> bool {
    &&& paths.no_duplicates()
    &&& paths.len() == names.len()
    &&& forall|i: int|
        0 <= i < paths.len() ==> named_border_on(
            layout,
            #[trigger] paths[i],
            names[i],
            px,
            py,
            bounds,
            border,
        )
}

/// Each border that is found at a corner is that of another split, on whose
/// separator the point lies. There are fewer of them than panes.
pub proof fn corners_are_different_borders(
    layout: PaneLayout,
    px: Binary32,
    py: Binary32,
    bounds: PaneBounds,
    border: Binary32,
)
    ensures
        layout.corners(px, py, bounds, border).len() < layout.ids().len(),
        exists|paths: Seq<Seq<bool>>| #[trigger]
            borders_on(
                layout,
                paths,
                layout.corners(px, py, bounds, border),
                px,
                py,
                bounds,
                border,
            ),
    decreases layout,
{
    let corners = layout.corners(px, py, bounds, border);
    match layout {
        PaneLayout::Leaf(_) => {
            assert(borders_on(layout, Seq::empty(), corners, px, py, bounds, border));
        },
        PaneLayout::Split { direction, ratio, first, second } => {
            let first_bounds = first_half(bounds, direction, ratio, border);
            let second_bounds = second_half(bounds, direction, ratio, border);
            corners_are_different_borders(*first, px, py, first_bounds, border);
            corners_are_different_borders(*second, px, py, second_bounds, border);
            let separator = on_separator(px, py, bounds, first_bounds, direction, border);
            let in_first = if separator || inside(first_bounds, px, py) {
                first.corners(px, py, first_bounds, border)
            } else {
                Seq::empty()
            };
            let in_second = if separator || inside(second_bounds, px, py) {
                second.corners(px, py, second_bounds, border)
            } else {
                Seq::empty()
            };
            let below_first = if in_first.len() > 0 {
                choose|paths: Seq<Seq<bool>>| #[trigger]
                    borders_on(*first, paths, in_first, px, py, first_bounds, border)
            } else {
                Seq::empty()
            };
            let below_second = if in_second.len() > 0 {
                choose|paths: Seq<Seq<bool>>| #[trigger]
                    borders_on(*second, paths, in_second, px, py, second_bounds, border)
            } else {
                Seq::empty()
            };
            assert(borders_on(*first, below_first, in_first, px, py, first_bounds, border));
            assert(borders_on(*second, below_second, in_second, px, py, second_bounds, border));
            let root: Seq<Seq<bool>> = if separator {
                seq![Seq::empty()]
            } else {
                Seq::empty()
            };
            let own = if separator {
                seq![(first.ids().first(), direction)]
            } else {
                Seq::empty()
            };
            assert(corners == own + in_first + in_second);
            let left = Seq::new(below_first.len(), |i: int| seq![false] + below_first[i]);
            let right = Seq::new(below_second.len(), |i: int| seq![true] + below_second[i]);
            let paths = root + left + right;
            lemma_border_at_root(layout, px, py, bounds, border);
            let (n, m) = (root.len() as int, left.len() as int);
            assert forall|i: int| 0 <= i < paths.len() implies named_border_on(
                layout,
                #[trigger] paths[i],
                corners[i],
                px,
                py,
                bounds,
                border,
            ) by {
                if i < n {
                } else if i < n + m {
                    let end = below_first[i - n];
                    assert(paths[i] == seq![false] + end);
                    assert(paths[i].drop_first() =~= end);
                    lemma_border_below(layout, paths[i], px, py, bounds, border);
                    assert(named_border_on(
                        *first,
                        end,
                        in_first[i - n],
                        px,
                        py,
                        first_bounds,
                        border,
                    ));
                } else {
                    let end = below_second[i - n - m];
                    assert(paths[i] == seq![true] + end);
                    assert(paths[i].drop_first() =~= end);
                    lemma_border_below(layout, paths[i], px, py, bounds, border);
                    assert(named_border_on(
                        *second,
                        end,
                        in_second[i - n - m],
                        px,
                        py,
                        second_bounds,
                        border,
                    ));
                }
            }
            assert forall|i: int, j: int|
                0 <= i < paths.len() && 0 <= j < paths.len() && i != j implies paths[i]
                != paths[j] by {
                if n <= i < n + m && n <= j < n + m {
                    let (a, b) = (below_first[i - n], below_first[j - n]);
                    assert(paths[i].drop_first() =~= a && paths[j].drop_first() =~= b);
                } else if n + m <= i && n + m <= j {
                    let (a, b) = (below_second[i - n - m], below_second[j - n - m]);
                    assert(paths[i].drop_first() =~= a && paths[j].drop_first() =~= b);
                } else if i < n || j < n {
                    assert(paths[i].len() != paths[j].len());
                } else {
                    assert(paths[i][0] != paths[j][0]);
                }
            }
            assert(borders_on(layout, paths, corners, px, py, bounds, border));
        },
    }
}

} // verus!
