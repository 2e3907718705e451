//! What the operations on a layout do to its parts.
use crate::binary32::{clamped, difference, sum, Binary32};
use crate::bounds::{first_half, inside, second_half, PaneBounds, SplitDirection};
use crate::exact_laws::{difference_is_rounded, rounds, sum_is_rounded, unit};
use crate::geometry_laws::lemma_unit;
use crate::layout::{
    first_hit, half, lemma_contains_concat, lemma_split_around_holds, PaneId, PaneLayout,
};
use crate::layout_laws::lemma_sides_apart;
use crate::path_laws::{bounds_at, node_at, with_ratio_at};
use crate::placement_laws::{exact, share};
use vstd::arithmetic::power2::{lemma2_to64, lemma_pow2_adds};
use vstd::prelude::*;

verus! {

/// Whether a part is met before another one when a layout is walked from its
/// root, the first side of each split before the second.
pub open spec fn precedes(p: Seq<bool>, q: Seq<bool>) -> bool
    decreases p.len(),
{
    if q.len() == 0 {
        false
    } else if p.len() == 0 {
        true
    } else if p[0] == q[0] {
        precedes(p.drop_first(), q.drop_first())
    } else {
        !p[0]
    }
}

/// Whether two paths part ways.
pub open spec fn diverges(p: Seq<bool>, q: Seq<bool>) -> bool {
    exists|k: int| 0 <= k < p.len() && k < q.len() && #[trigger] p[k] != q[k]
}

/// Whether two layouts have splits of the same direction and ratio at a path.
pub open spec fn same_split_at(before: PaneLayout, after: PaneLayout, path: Seq<bool>) -> bool {
    match (node_at(before, path), node_at(after, path)) {
        (
            Some(PaneLayout::Split { direction: da, ratio: ra, .. }),
            Some(PaneLayout::Split { direction: db, ratio: rb, .. }),
        ) => da == db && ra == rb,
        _ => false,
    }
}

/// Whether two layouts are the same but for the part at a path: every part that
/// is not on the way to it or below it is the same, and so are the directions
/// and ratios of the splits on the way.
pub open spec fn same_but_at(before: PaneLayout, after: PaneLayout, path: Seq<bool>) -> bool {
    &&& forall|q: Seq<bool>| #[trigger]
        diverges(path, q) ==> node_at(after, q) == node_at(before, q)
    &&& forall|k: int|
        0 <= k < path.len() ==> same_split_at(before, after, #[trigger] path.take(k))
}

/// The same of one side of a split.
proof fn lemma_same_below(before: PaneLayout, after: PaneLayout, path: Seq<bool>)
    requires
        path.len() > 0,
        before is Split,
        after is Split,
        before->direction == after->direction,
        before->ratio == after->ratio,
        path[0] ==> before->first == after->first && same_but_at(
            *before->second,
            *after->second,
            path.drop_first(),
        ),
        !path[0] ==> before->second == after->second && same_but_at(
            *before->first,
            *after->first,
            path.drop_first(),
        ),
    ensures
        same_but_at(before, after, path),
{
    let rest = path.drop_first();
    assert forall|q: Seq<bool>| #[trigger] diverges(path, q) implies node_at(after, q) == node_at(
        before,
        q,
    ) by {
        let k = choose|k: int| 0 <= k < path.len() && k < q.len() && #[trigger] path[k] != q[k];
        if q[0] == path[0] {
            let below = q.drop_first();
            assert(k > 0);
            assert(rest[k - 1] != below[k - 1]);
            assert(diverges(rest, below));
        }
    }
    assert forall|k: int| 0 <= k < path.len() implies same_split_at(
        before,
        after,
        #[trigger] path.take(k),
    ) by {
        if k > 0 {
            assert(path.take(k).drop_first() =~= rest.take(k - 1));
            assert(path.take(k)[0] == path[0]);
            let (a, b) = if path[0] {
                (*before->second, *after->second)
            } else {
                (*before->first, *after->first)
            };
            assert(same_split_at(a, b, rest.take(k - 1)));
        }
    }
}

/// What a layout holds is at one of its leaves.
pub proof fn lemma_leaf_of(layout: PaneLayout, target: PaneId) -> (path: Seq<bool>)
    requires
        layout.holds(target),
    ensures
        node_at(layout, path) == Some(PaneLayout::Leaf(target)),
    decreases layout,
{
    match layout {
        PaneLayout::Leaf(id) => {
            assert(layout.ids() =~= seq![id]);
            Seq::empty()
        },
        PaneLayout::Split { first, second, .. } => {
            lemma_contains_concat(first.ids(), second.ids(), target);
            if first.holds(target) {
                let end = lemma_leaf_of(*first, target);
                let path = seq![false] + end;
                assert(path.drop_first() =~= end);
                path
            } else {
                let end = lemma_leaf_of(*second, target);
                let path = seq![true] + end;
                assert(path.drop_first() =~= end);
                path
            }
        },
    }
}

/// What is at a leaf is in the layout.
pub proof fn lemma_leaf_held(layout: PaneLayout, path: Seq<bool>, target: PaneId)
    requires
        node_at(layout, path) == Some(PaneLayout::Leaf(target)),
    ensures
        layout.holds(target),
    decreases path.len(),
{
    if path.len() == 0 {
        assert(layout.ids()[0] == target);
    } else if let PaneLayout::Split { first, second, .. } = layout {
        lemma_leaf_held(if path[0] { *second } else { *first }, path.drop_first(), target);
        lemma_contains_concat(first.ids(), second.ids(), target);
    }
}

/// A split puts the new pane beside the first leaf of the target, however deep
/// and on whichever side that leaf is: in its place there is a split of the asked
/// direction, in the middle, with the target first and the new pane second.
/// Every other part of the layout is unchanged.
pub proof fn split_replaces_first_leaf(
    layout: PaneLayout,
    target: PaneId,
    new_pane: PaneId,
    direction: SplitDirection,
    path: Seq<bool>,
)
    requires
        node_at(layout, path) == Some(PaneLayout::Leaf(target)),
        forall|q: Seq<bool>| #[trigger]
            node_at(layout, q) == Some(PaneLayout::Leaf(target)) ==> q == path || precedes(path, q),
    ensures
        ({
            let after = layout.with_split(target, new_pane, direction);
            &&& node_at(after, path) is Some
            &&& match node_at(after, path)->0 {
                PaneLayout::Split { direction: own, ratio, first, second } => {
                    &&& own == direction
                    &&& ratio.is_finite()
                    &&& share(ratio) + share(ratio) == 1 as real
                    &&& *first == PaneLayout::Leaf(target)
                    &&& *second == PaneLayout::Leaf(new_pane)
                },
                PaneLayout::Leaf(_) => false,
            }
            &&& same_but_at(layout, after, path)
        }),
    decreases layout,
{
    let after = layout.with_split(target, new_pane, direction);
    match layout {
        PaneLayout::Leaf(_) => {
            assert(path.len() == 0);
            lemma_half();
        },
        PaneLayout::Split { first, second, .. } => {
            let rest = path.drop_first();
            if path[0] {
                if first.holds(target) {
                    let end = lemma_leaf_of(*first, target);
                    let q = seq![false] + end;
                    assert(q.drop_first() =~= end);
                    assert(node_at(layout, q) == Some(PaneLayout::Leaf(target)));
                    assert(q[0] != path[0]);
                }
                assert forall|q: Seq<bool>| #[trigger]
                    node_at(*second, q) == Some(PaneLayout::Leaf(target)) implies q == rest
                    || precedes(rest, q) by {
                    let whole = seq![true] + q;
                    assert(whole.drop_first() =~= q);
                    assert(node_at(layout, whole) == Some(PaneLayout::Leaf(target)));
                }
                split_replaces_first_leaf(*second, target, new_pane, direction, rest);
            } else {
                lemma_leaf_held(*first, rest, target);
                assert forall|q: Seq<bool>| #[trigger]
                    node_at(*first, q) == Some(PaneLayout::Leaf(target)) implies q == rest
                    || precedes(rest, q) by {
                    let whole = seq![false] + q;
                    assert(whole.drop_first() =~= q);
                    assert(node_at(layout, whole) == Some(PaneLayout::Leaf(target)));
                }
                split_replaces_first_leaf(*first, target, new_pane, direction, rest);
            }
            lemma_same_below(layout, after, path);
        },
    }
}

/// One half, as a ratio.
pub proof fn lemma_half()
    ensures
        half().is_finite(),
        share(half()) + share(half()) == 1 as real,
{
    assert(0x3f00_0000int / 0x80_0000 == 126 && 0x3f00_0000int % 0x80_0000 == 0);
    assert(half().code() == 0x3f00_0000);
    lemma_pow2_adds(23, 125);
    lemma_pow2_adds(1, 148);
    lemma2_to64();
    lemma_unit();
    let (h, u) = (half().value() as real, unit());
    assert(h + h == u);
    assert(h / u + h / u == 1 as real) by (nonlinear_arith)
        requires
            h + h == u,
            u > 0 as real,
    ;
}

/// Whether the split at a path has the leaf of the pane as a child, and what the
/// other child is.
pub open spec fn sibling_at(
    layout: PaneLayout,
    path: Seq<bool>,
    target: PaneId,
    sibling: PaneLayout,
) -> bool {
    match node_at(layout, path) {
        Some(PaneLayout::Split { first, second, .. }) => {
            ||| *first == PaneLayout::Leaf(target) && *second == sibling
            ||| *second == PaneLayout::Leaf(target) && *first == sibling
        },
        _ => false,
    }
}

/// Closing a pane puts in the place of the split that has its leaf as a child
/// the other child, exactly as it was. Every other part is unchanged.
pub proof fn close_leaves_sibling(
    layout: PaneLayout,
    target: PaneId,
    path: Seq<bool>,
    sibling: PaneLayout,
)
    requires
        layout.ids().no_duplicates(),
        sibling_at(layout, path, target, sibling),
    ensures
        node_at(layout.without(target), path) == Some(sibling),
        same_but_at(layout, layout.without(target), path),
    decreases layout,
{
    let after = layout.without(target);
    if let PaneLayout::Split { first, second, .. } = layout {
        let rest = path.drop_first();
        lemma_sides_apart(first.ids(), second.ids());
        if *first == PaneLayout::Leaf(target) {
            assert(first.ids()[0] == target);
            assert(first.holds(target));
        }
        if *second == PaneLayout::Leaf(target) {
            assert(second.ids()[0] == target);
            assert(second.holds(target));
        }
        if path.len() > 0 {
            let side = if path[0] { *second } else { *first };
            lemma_sibling_held(side, rest, target, sibling);
            assert(first.ids().contains(target) ==> !second.ids().contains(target));
            close_leaves_sibling(side, target, rest, sibling);
            lemma_same_below(layout, after, path);
        }
    }
}

/// What has a split for its leaf is in the layout.
pub proof fn lemma_sibling_held(
    layout: PaneLayout,
    path: Seq<bool>,
    target: PaneId,
    sibling: PaneLayout,
)
    requires
        sibling_at(layout, path, target, sibling),
    ensures
        layout.holds(target),
        layout is Split,
    decreases path.len(),
{
    if let PaneLayout::Split { first, second, .. } = layout {
        lemma_contains_concat(first.ids(), second.ids(), target);
        if path.len() == 0 {
            if *first == PaneLayout::Leaf(target) {
                assert(first.ids()[0] == target);
            } else {
                assert(second.ids()[0] == target);
            }
        } else {
            let side = if path[0] { *second } else { *first };
            lemma_sibling_held(side, path.drop_first(), target, sibling);
        }
    }
}

/// Every pane of a split layout has a split with its leaf as a child, and closing
/// the pane collapses such a split into its other child, exactly as it was, and
/// changes nothing else.
pub proof fn close_collapses_split(layout: PaneLayout, target: PaneId)
    requires
        layout is Split,
        layout.holds(target),
    ensures
        exists|path: Seq<bool>, sibling: PaneLayout|
            #![trigger sibling_at(layout, path, target, sibling)]
            {
                &&& sibling_at(layout, path, target, sibling)
                &&& node_at(layout.without(target), path) == Some(sibling)
                &&& same_but_at(layout, layout.without(target), path)
            },
    decreases layout,
{
    let after = layout.without(target);
    if let PaneLayout::Split { first, second, .. } = layout {
        lemma_contains_concat(first.ids(), second.ids(), target);
        let root = Seq::<bool>::empty();
        if *first == PaneLayout::Leaf(target) {
            assert(sibling_at(layout, root, target, *second));
        } else if *second == PaneLayout::Leaf(target) {
            assert(sibling_at(layout, root, target, *first));
        } else {
            let in_first = first.holds(target);
            let side = if in_first { *first } else { *second };
            if let PaneLayout::Leaf(id) = side {
                assert(side.ids() =~= seq![id]);
            }
            close_collapses_split(side, target);
            let (end, sibling) = choose|path: Seq<bool>, sibling: PaneLayout|
                #![trigger sibling_at(side, path, target, sibling)]
                {
                    &&& sibling_at(side, path, target, sibling)
                    &&& node_at(side.without(target), path) == Some(sibling)
                    &&& same_but_at(side, side.without(target), path)
                };
            let path = seq![!in_first] + end;
            assert(path.drop_first() =~= end);
            assert(sibling_at(layout, path, target, sibling));
            lemma_same_below(layout, after, path);
        }
    }
}

/// The panes are the leaves of the layout, in the order of a walk from its root:
/// each leaf once.
pub proof fn panes_are_leaves_in_order(layout: PaneLayout)
    ensures
        exists|paths: Seq<Seq<bool>>| #[trigger] leaves_in_order(layout, paths),
    decreases layout,
{
    match layout {
        PaneLayout::Leaf(id) => {
            let paths = seq![Seq::<bool>::empty()];
            assert forall|q: Seq<bool>|
                #![trigger node_at(layout, q)]
                node_at(layout, q) is Some && node_at(layout, q)->0 is Leaf implies paths.contains(
                q,
            ) by {
                assert(q =~= paths[0]);
            }
            assert(leaves_in_order(layout, paths));
        },
        PaneLayout::Split { first, second, .. } => {
            panes_are_leaves_in_order(*first);
            panes_are_leaves_in_order(*second);
            let a = choose|paths: Seq<Seq<bool>>| #[trigger] leaves_in_order(*first, paths);
            let b = choose|paths: Seq<Seq<bool>>| #[trigger] leaves_in_order(*second, paths);
            let left = Seq::new(a.len(), |i: int| seq![false] + a[i]);
            let right = Seq::new(b.len(), |i: int| seq![true] + b[i]);
            let paths = left + right;
            let n = a.len() as int;
            assert forall|i: int| 0 <= i < paths.len() implies node_at(
                layout,
                #[trigger] paths[i],
            ) == Some(PaneLayout::Leaf(layout.ids()[i])) by {
                if i < n {
                    assert(paths[i].drop_first() =~= a[i]);
                } else {
                    assert(paths[i].drop_first() =~= b[i - n]);
                }
            }
            assert forall|i: int, j: int| 0 <= i < j < paths.len() implies precedes(
                #[trigger] paths[i],
                #[trigger] paths[j],
            ) by {
                if j < n {
                    assert(paths[i].drop_first() =~= a[i] && paths[j].drop_first() =~= a[j]);
                } else if i >= n {
                    assert(paths[i].drop_first() =~= b[i - n] && paths[j].drop_first() =~= b[j
                        - n]);
                } else {
                    assert(!paths[i][0] && paths[j][0]);
                }
            }
            assert forall|q: Seq<bool>|
                #![trigger node_at(layout, q)]
                node_at(layout, q) is Some && node_at(layout, q)->0 is Leaf implies paths.contains(
                q,
            ) by {
                let end = q.drop_first();
                if q[0] {
                    assert(node_at(*second, end) is Some);
                    let i = b.index_of(end);
                    assert(paths[n + i] =~= q);
                } else {
                    assert(node_at(*first, end) is Some);
                    let i = a.index_of(end);
                    assert(paths[i] =~= q);
                }
            }
            assert(leaves_in_order(layout, paths));
        },
    }
}

/// Whether the paths lead to all leaves, in order, and these are the panes.
pub open spec fn leaves_in_order(layout: PaneLayout, paths: Seq<Seq<bool>>) -> bool {
    &&& paths.len() == layout.ids().len()
    &&& forall|i: int|
        0 <= i < paths.len() ==> node_at(layout, #[trigger] paths[i]) == Some(
            PaneLayout::Leaf(layout.ids()[i]),
        )
    &&& forall|i: int, j: int|
        0 <= i < j < paths.len() ==> precedes(#[trigger] paths[i], #[trigger] paths[j])
    &&& forall|q: Seq<bool>|
        #![trigger node_at(layout, q)]
        node_at(layout, q) is Some && node_at(layout, q)->0 is Leaf ==> paths.contains(q)
}

/// Whether the split at a path has the given direction.
pub open spec fn splits_along(layout: PaneLayout, path: Seq<bool>, along: SplitDirection) -> bool {
    match node_at(layout, path) {
        Some(PaneLayout::Split { direction, .. }) => direction == along,
        _ => false,
    }
}

/// Navigation crosses the outermost split of the direction above the pane: from
/// its first side to the first pane of its second side, and from its second side
/// to the last pane of its first side. `k` is how deep that split is on the way
/// to the pane.
pub proof fn navigation_crosses_outermost(
    layout: PaneLayout,
    current: PaneId,
    along: SplitDirection,
    path: Seq<bool>,
    k: int,
)
    requires
        layout.ids().no_duplicates(),
        node_at(layout, path) == Some(PaneLayout::Leaf(current)),
        0 <= k < path.len(),
        splits_along(layout, path.take(k), along),
        forall|j: int| 0 <= j < k ==> !splits_along(layout, #[trigger] path.take(j), along),
    ensures
        ({
            let node = node_at(layout, path.take(k))->0;
            layout.neighbor(current, along) == Some(
                if path[k] {
                    node->first.ids().last()
                } else {
                    node->second.ids().first()
                },
            )
        }),
    decreases layout,
{
    if let PaneLayout::Split { direction, first, second, .. } = layout {
        let rest = path.drop_first();
        let side = if path[0] { *second } else { *first };
        lemma_leaf_held(side, rest, current);
        lemma_sides_apart(first.ids(), second.ids());
        assert(first.ids().contains(current) ==> !second.ids().contains(current));
        if k == 0 {
            assert(path.take(0) =~= Seq::empty());
        } else {
            assert(path.take(0) =~= Seq::empty());
            assert(!splits_along(layout, path.take(0), along));
            assert(path.take(k).drop_first() =~= rest.take(k - 1));
            assert(path.take(k)[0] == path[0]);
            assert forall|j: int| 0 <= j < k - 1 implies !splits_along(
                side,
                #[trigger] rest.take(j),
                along,
            ) by {
                assert(path.take(j + 1).drop_first() =~= rest.take(j));
                assert(path.take(j + 1)[0] == path[0]);
                assert(!splits_along(layout, path.take(j + 1), along));
            }
            navigation_crosses_outermost(side, current, along, rest, k - 1);
        }
    }
}

/// Without a split of the direction above the pane, navigation stays.
pub proof fn navigation_stays_without_split(
    layout: PaneLayout,
    current: PaneId,
    along: SplitDirection,
    path: Seq<bool>,
)
    requires
        layout.ids().no_duplicates(),
        node_at(layout, path) == Some(PaneLayout::Leaf(current)),
        forall|j: int| 0 <= j < path.len() ==> !splits_along(layout, #[trigger] path.take(j), along),
    ensures
        layout.neighbor(current, along) == Some(current),
    decreases layout,
{
    if path.len() > 0 {
        if let PaneLayout::Split { direction, first, second, .. } = layout {
            let rest = path.drop_first();
            let side = if path[0] { *second } else { *first };
            lemma_leaf_held(side, rest, current);
            lemma_sides_apart(first.ids(), second.ids());
            assert(first.ids().contains(current) ==> !second.ids().contains(current));
            assert(path.take(0) =~= Seq::empty());
            assert(!splits_along(layout, path.take(0), along));
            assert forall|j: int| 0 <= j < rest.len() implies !splits_along(
                side,
                #[trigger] rest.take(j),
                along,
            ) by {
                assert(path.take(j + 1).drop_first() =~= rest.take(j));
                assert(path.take(j + 1)[0] == path[0]);
                assert(!splits_along(layout, path.take(j + 1), along));
            }
            navigation_stays_without_split(side, current, along, rest);
        }
    }
}

/// A split that has the pane on both sides is not crossed: navigation goes on in
/// its first side.
pub proof fn navigation_enters_first_of_both_sides(
    layout: PaneLayout,
    current: PaneId,
    along: SplitDirection,
)
    requires
        layout is Split,
        layout->first.holds(current),
        layout->second.holds(current),
    ensures
        layout.neighbor(current, along) == layout->first.neighbor(current, along),
{
}

/// A layout with one ratio replaced is the same everywhere else, and the split
/// itself keeps its direction and its sides.
pub proof fn new_ratio_changes_one_split(layout: PaneLayout, path: Seq<bool>, ratio: Binary32)
    requires
        node_at(layout, path) is Some,
        node_at(layout, path)->0 is Split,
    ensures
        ({
            let before = node_at(layout, path)->0;
            let after = with_ratio_at(layout, path, ratio);
            &&& node_at(after, path) is Some
            &&& node_at(after, path)->0 is Split
            &&& (node_at(after, path)->0)->ratio == ratio
            &&& (node_at(after, path)->0)->direction == before->direction
            &&& (node_at(after, path)->0)->first == before->first
            &&& (node_at(after, path)->0)->second == before->second
            &&& same_but_at(layout, after, path)
        }),
    decreases layout,
{
    if path.len() > 0 {
        if let PaneLayout::Split { first, second, .. } = layout {
            let rest = path.drop_first();
            let side = if path[0] { *second } else { *first };
            new_ratio_changes_one_split(side, rest, ratio);
            lemma_same_below(layout, with_ratio_at(layout, path, ratio), path);
        }
    }
}

/// The bounds of a split do not depend on its own ratio, nor on anything below
/// it.
pub proof fn new_ratio_keeps_own_bounds(
    layout: PaneLayout,
    path: Seq<bool>,
    ratio: Binary32,
    bounds: PaneBounds,
    border: Binary32,
)
    requires
        node_at(layout, path) is Some,
        node_at(layout, path)->0 is Split,
    ensures
        bounds_at(with_ratio_at(layout, path, ratio), path, bounds, border) == bounds_at(
            layout,
            path,
            bounds,
            border,
        ),
    decreases layout,
{
    if path.len() > 0 {
        if let PaneLayout::Split { direction, ratio: own, first, second } = layout {
            let rest = path.drop_first();
            if path[0] {
                new_ratio_keeps_own_bounds(
                    *second,
                    rest,
                    ratio,
                    second_half(bounds, direction, own, border),
                    border,
                );
            } else {
                new_ratio_keeps_own_bounds(
                    *first,
                    rest,
                    ratio,
                    first_half(bounds, direction, own, border),
                    border,
                );
            }
        }
    }
}

/// A ratio moved by an amount, up or down, before rounding.
pub open spec fn moved_by(before: Binary32, amount: Binary32, up: bool) -> real {
    if up {
        exact(before) + exact(amount)
    } else {
        exact(before) - exact(amount)
    }
}

/// A number held between two limits.
pub open spec fn held_between(x: real, low: real, high: real) -> real {
    if x < low {
        low
    } else if high < x {
        high
    } else {
        x
    }
}

/// Whether a ratio is another one, moved by an amount up or down, rounded, and
/// held between two limits.
pub open spec fn moved_ratio(
    before: Binary32,
    after: Binary32,
    amount: Binary32,
    up: bool,
    low: Binary32,
    high: Binary32,
) -> bool {
    exists|free: Binary32| #[trigger]
        rounds(free, moved_by(before, amount, up)) && exact(after) == held_between(
            exact(free),
            exact(low),
            exact(high),
        )
}

proof fn lemma_moved_ratio(
    ratio: Binary32,
    amount: Binary32,
    up: bool,
    low: Binary32,
    high: Binary32,
)
    requires
        amount.is_finite(),
        ratio.is_finite(),
        !low.is_nan(),
        !high.is_nan(),
    ensures
        ({
            let free = if up {
                sum(ratio, amount)
            } else {
                difference(ratio, amount)
            };
            moved_ratio(ratio, clamped(free, low, high), amount, up, low, high)
        }),
{
    sum_is_rounded(ratio, amount);
    difference_is_rounded(ratio, amount);
    let free = if up {
        sum(ratio, amount)
    } else {
        difference(ratio, amount)
    };
    assert(rounds(free, moved_by(ratio, amount, up)));
    assert(exact(clamped(free, low, high)) == held_between(
        exact(free),
        exact(low),
        exact(high),
    ));
}

/// A resize moves the ratio of the innermost split of the direction above the
/// pane, and nothing else: up by the amount where the pane is on its first side,
/// and down where it is on its second, so that a positive amount makes the side
/// of the pane larger. `k` is how deep that split is on the way to the pane.
pub proof fn resize_moves_innermost(
    layout: PaneLayout,
    target: PaneId,
    along: SplitDirection,
    amount: Binary32,
    low: Binary32,
    high: Binary32,
    path: Seq<bool>,
    k: int,
)
    requires
        layout.ids().no_duplicates(),
        node_at(layout, path) == Some(PaneLayout::Leaf(target)),
        0 <= k < path.len(),
        splits_along(layout, path.take(k), along),
        forall|j: int|
            k < j < path.len() ==> !splits_along(layout, #[trigger] path.take(j), along),
        amount.is_finite(),
        (node_at(layout, path.take(k))->0)->ratio.is_finite(),
        !low.is_nan(),
        !high.is_nan(),
    ensures
        ({
            let after = layout.with_resize(target, along, amount, low, high);
            let before = node_at(layout, path.take(k))->0;
            &&& same_but_at(layout, after, path.take(k))
            &&& node_at(after, path.take(k)) is Some
            &&& match node_at(after, path.take(k))->0 {
                PaneLayout::Split { direction, ratio, first, second } => {
                    &&& direction == along
                    &&& first == before->first
                    &&& second == before->second
                    &&& moved_ratio(before->ratio, ratio, amount, !path[k], low, high)
                },
                PaneLayout::Leaf(_) => false,
            }
        }),
    decreases layout,
{
    if let PaneLayout::Split { direction, ratio, first, second } = layout {
        let rest = path.drop_first();
        let side = if path[0] { *second } else { *first };
        lemma_leaf_held(side, rest, target);
        lemma_sides_apart(first.ids(), second.ids());
        assert(first.ids().contains(target) ==> !second.ids().contains(target));
        lemma_split_around_holds(*first, target, along);
        lemma_split_around_holds(*second, target, along);
        assert forall|j: int| 0 <= j < rest.len() && k <= j implies !splits_along(
            side,
            #[trigger] rest.take(j),
            along,
        ) by {
            assert(path.take(j + 1).drop_first() =~= rest.take(j));
            assert(path.take(j + 1)[0] == path[0]);
            assert(!splits_along(layout, path.take(j + 1), along));
        }
        let after = layout.with_resize(target, along, amount, low, high);
        if k == 0 {
            assert(path.take(0) =~= Seq::empty());
            lemma_no_split_around(side, target, along, rest);
            lemma_moved_ratio(ratio, amount, !path[0], low, high);
        } else {
            assert(path.take(k).drop_first() =~= rest.take(k - 1));
            assert(path.take(k)[0] == path[0]);
            assert(splits_along(side, rest.take(k - 1), along));
            lemma_split_around(side, target, along, rest, k - 1);
            resize_moves_innermost(side, target, along, amount, low, high, rest, k - 1);
            lemma_same_below(layout, after, path.take(k));
        }
    }
}

proof fn lemma_no_split_around(
    layout: PaneLayout,
    target: PaneId,
    along: SplitDirection,
    path: Seq<bool>,
)
    requires
        layout.ids().no_duplicates(),
        node_at(layout, path) == Some(PaneLayout::Leaf(target)),
        forall|j: int| 0 <= j < path.len() ==> !splits_along(layout, #[trigger] path.take(j), along),
    ensures
        !layout.has_split_around(target, along),
    decreases layout,
{
    if let PaneLayout::Split { direction, first, second, .. } = layout {
        let rest = path.drop_first();
        let side = if path[0] { *second } else { *first };
        lemma_leaf_held(side, rest, target);
        lemma_sides_apart(first.ids(), second.ids());
        assert(first.ids().contains(target) ==> !second.ids().contains(target));
        lemma_split_around_holds(*first, target, along);
        lemma_split_around_holds(*second, target, along);
        assert(path.take(0) =~= Seq::empty());
        assert(!splits_along(layout, path.take(0), along));
        assert forall|j: int| 0 <= j < rest.len() implies !splits_along(
            side,
            #[trigger] rest.take(j),
            along,
        ) by {
            assert(path.take(j + 1).drop_first() =~= rest.take(j));
            assert(path.take(j + 1)[0] == path[0]);
            assert(!splits_along(layout, path.take(j + 1), along));
        }
        lemma_no_split_around(side, target, along, rest);
    }
}

proof fn lemma_split_around(
    layout: PaneLayout,
    target: PaneId,
    along: SplitDirection,
    path: Seq<bool>,
    k: int,
)
    requires
        node_at(layout, path) == Some(PaneLayout::Leaf(target)),
        0 <= k < path.len(),
        splits_along(layout, path.take(k), along),
    ensures
        layout.has_split_around(target, along),
    decreases layout,
{
    if let PaneLayout::Split { first, second, .. } = layout {
        let rest = path.drop_first();
        let side = if path[0] { *second } else { *first };
        lemma_leaf_held(side, rest, target);
        if k == 0 {
            assert(path.take(0) =~= Seq::empty());
        } else {
            assert(path.take(k).drop_first() =~= rest.take(k - 1));
            assert(path.take(k)[0] == path[0]);
            lemma_split_around(side, target, along, rest, k - 1);
        }
    }
}

/// A pane can be resized exactly where a split of the direction is above it.
pub proof fn resize_needs_split_above(
    layout: PaneLayout,
    target: PaneId,
    along: SplitDirection,
    path: Seq<bool>,
)
    requires
        layout.ids().no_duplicates(),
        node_at(layout, path) == Some(PaneLayout::Leaf(target)),
    ensures
        layout.has_split_around(target, along) <==> exists|k: int|
            0 <= k < path.len() && splits_along(layout, #[trigger] path.take(k), along),
{
    if exists|k: int| 0 <= k < path.len() && splits_along(layout, #[trigger] path.take(k), along) {
        let k = choose|k: int|
            0 <= k < path.len() && splits_along(layout, #[trigger] path.take(k), along);
        lemma_split_around(layout, target, along, path, k);
    } else {
        lemma_no_split_around(layout, target, along, path);
    }
}

/// Each leaf is placed at its own bounds.
pub proof fn leaf_is_placed_at_its_bounds(
    layout: PaneLayout,
    path: Seq<bool>,
    id: PaneId,
    bounds: PaneBounds,
    border: Binary32,
)
    requires
        node_at(layout, path) == Some(PaneLayout::Leaf(id)),
    ensures
        layout.placed(bounds, border).contains((id, bounds_at(layout, path, bounds, border))),
    decreases layout,
{
    let placed = layout.placed(bounds, border);
    if path.len() == 0 {
        assert(placed[0] == (id, bounds));
    } else if let PaneLayout::Split { direction, ratio, first, second } = layout {
        let rest = path.drop_first();
        let first_bounds = first_half(bounds, direction, ratio, border);
        let second_bounds = second_half(bounds, direction, ratio, border);
        let (a, b) = (first.placed(first_bounds, border), second.placed(second_bounds, border));
        if path[0] {
            leaf_is_placed_at_its_bounds(*second, rest, id, second_bounds, border);
            let i = b.index_of((id, bounds_at(layout, path, bounds, border)));
            assert(placed[a.len() + i] == b[i]);
        } else {
            leaf_is_placed_at_its_bounds(*first, rest, id, first_bounds, border);
            let i = a.index_of((id, bounds_at(layout, path, bounds, border)));
            assert(placed[i] == a[i]);
        }
    }
}

/// A hit test finds the first pane, in the order of the layout, whose bounds
/// contain the point.
pub proof fn hit_test_finds_first(placed: Seq<(PaneId, PaneBounds)>, px: Binary32, py: Binary32)
    ensures
        first_hit(placed, px, py) is None <==> forall|i: int|
            0 <= i < placed.len() ==> !inside((#[trigger] placed[i]).1, px, py),
        forall|i: int|
            0 <= i < placed.len() && inside((#[trigger] placed[i]).1, px, py) && (forall|j: int|
                0 <= j < i ==> !inside((#[trigger] placed[j]).1, px, py)) ==> first_hit(
                placed,
                px,
                py,
            ) == Some(placed[i].0),
    decreases placed.len(),
{
    if placed.len() > 0 {
        let rest = placed.drop_first();
        hit_test_finds_first(rest, px, py);
        assert(forall|i: int| 0 <= i < rest.len() ==> #[trigger] rest[i] == placed[i + 1]);
        assert forall|i: int|
            0 <= i < placed.len() && inside((#[trigger] placed[i]).1, px, py) && (forall|j: int|
                0 <= j < i ==> !inside((#[trigger] placed[j]).1, px, py)) implies first_hit(
            placed,
            px,
            py,
        ) == Some(placed[i].0) by {
            if i > 0 {
                assert(!inside(placed[0].1, px, py));
                assert(rest[i - 1] == placed[i]);
            }
        }
        if first_hit(placed, px, py) is None {
            assert forall|i: int| 0 <= i < placed.len() implies !inside(
                (#[trigger] placed[i]).1,
                px,
                py,
            ) by {
                if i > 0 {
                    assert(rest[i - 1] == placed[i]);
                }
            }
        } else if !inside(placed[0].1, px, py) {
            let i = choose|i: int| 0 <= i < rest.len() && inside((#[trigger] rest[i]).1, px, py);
            assert(inside(placed[i + 1].1, px, py));
        }
    }
}

} // verus!
