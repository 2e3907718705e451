//! Which borders are found at a point, and in which order.
use crate::binary32::Binary32;
use crate::bounds::{first_half, inside, second_half, PaneBounds, SplitDirection};
use crate::layout::{on_separator, PaneId, PaneLayout};
use crate::path_laws::{
    border_name, border_on, border_search_is_exact, borders_on, bounds_at, lemma_border_at_root,
    lemma_border_below, named_border_on,
};
use crate::tree_laws::precedes;
use vstd::prelude::*;

verus! {

/// Whether the point leads on from a split of the path to the next part: it is
/// on the separator of that split, or inside the side that the path takes.
pub open spec fn leads_on(
    layout: PaneLayout,
    path: Seq<bool>,
    k: int,
    px: Binary32,
    py: Binary32,
    bounds: PaneBounds,
    border: Binary32,
) -> bool {
    ||| border_on(layout, path.take(k), px, py, bounds, border)
    ||| inside(bounds_at(layout, path.take(k + 1), bounds, border), px, py)
}

/// Whether the point leads on at every split on the way to a part.
pub open spec fn leads_to(
    layout: PaneLayout,
    path: Seq<bool>,
    px: Binary32,
    py: Binary32,
    bounds: PaneBounds,
    border: Binary32,
) -> bool {
    forall|k: int|
        0 <= k < path.len() ==> #[trigger] leads_on(layout, path, k, px, py, bounds, border)
}

/// What it takes to be led to a part of one side of a split.
proof fn lemma_leads_below(
    layout: PaneLayout,
    path: Seq<bool>,
    px: Binary32,
    py: Binary32,
    bounds: PaneBounds,
    border: Binary32,
)
    requires
        layout is Split,
        path.len() > 0,
    ensures
        ({
            let (direction, ratio) = (layout->direction, layout->ratio);
            let first_bounds = first_half(bounds, direction, ratio, border);
            let (side, own) = if path[0] {
                (*layout->second, second_half(bounds, direction, ratio, border))
            } else {
                (*layout->first, first_bounds)
            };
            leads_to(layout, path, px, py, bounds, border) <==> (on_separator(
                px,
                py,
                bounds,
                first_bounds,
                direction,
                border,
            ) || inside(own, px, py)) && leads_to(side, path.drop_first(), px, py, own, border)
        }),
{
    let (direction, ratio) = (layout->direction, layout->ratio);
    let first_bounds = first_half(bounds, direction, ratio, border);
    let (side, own) = if path[0] {
        (*layout->second, second_half(bounds, direction, ratio, border))
    } else {
        (*layout->first, first_bounds)
    };
    let rest = path.drop_first();
    lemma_border_at_root(layout, px, py, bounds, border);
    assert(path.take(0) =~= Seq::empty());
    assert(path.take(1).drop_first() =~= Seq::empty());
    assert(path.take(1)[0] == path[0]);
    assert(bounds_at(side, Seq::empty(), own, border) == own);
    assert(leads_on(layout, path, 0, px, py, bounds, border) == (on_separator(
        px,
        py,
        bounds,
        first_bounds,
        direction,
        border,
    ) || inside(own, px, py)));
    assert forall|k: int| 0 <= k < rest.len() implies #[trigger] leads_on(
        side,
        rest,
        k,
        px,
        py,
        own,
        border,
    ) == leads_on(layout, path, k + 1, px, py, bounds, border) by {
        assert(path.take(k + 1).drop_first() =~= rest.take(k));
        assert(path.take(k + 2).drop_first() =~= rest.take(k + 1));
        assert(path.take(k + 1)[0] == path[0] && path.take(k + 2)[0] == path[0]);
        lemma_border_below(layout, path.take(k + 1), px, py, bounds, border);
    }
    if leads_to(layout, path, px, py, bounds, border) {
        assert(leads_on(layout, path, 0, px, py, bounds, border));
        assert forall|k: int| 0 <= k < rest.len() implies #[trigger] leads_on(
            side,
            rest,
            k,
            px,
            py,
            own,
            border,
        ) by {
            assert(leads_on(layout, path, k + 1, px, py, bounds, border));
        }
    }
    if leads_on(layout, path, 0, px, py, bounds, border) && leads_to(
        side,
        rest,
        px,
        py,
        own,
        border,
    ) {
        assert forall|k: int| 0 <= k < path.len() implies #[trigger] leads_on(
            layout,
            path,
            k,
            px,
            py,
            bounds,
            border,
        ) by {
            if k > 0 {
                assert(leads_on(side, rest, k - 1, px, py, own, border));
            }
        }
    }
}

/// Whether the paths are in the order of a walk from the root.
pub open spec fn in_order(paths: Seq<Seq<bool>>) -> bool {
    forall|i: int, j: int|
        0 <= i < j < paths.len() ==> precedes(#[trigger] paths[i], #[trigger] paths[j])
}

/// Whether the paths lead to all the borders at a point to which the point leads.
pub open spec fn all_borders(
    layout: PaneLayout,
    paths: Seq<Seq<bool>>,
    px: Binary32,
    py: Binary32,
    bounds: PaneBounds,
    border: Binary32,
) -> bool {
    forall|path: Seq<bool>| #[trigger]
        border_on(layout, path, px, py, bounds, border) ==> (paths.contains(path) <==> leads_to(
            layout,
            path,
            px,
            py,
            bounds,
            border,
        ))
}

/// Whether the names are those of all borders at the point to which the point
/// leads, each once, in the order of a walk from the root.
pub open spec fn are_the_borders(
    layout: PaneLayout,
    paths: Seq<Seq<bool>>,
    names: Seq<(PaneId, SplitDirection)>,
    px: Binary32,
    py: Binary32,
    bounds: PaneBounds,
    border: Binary32,
) -> bool {
    &&& borders_on(layout, paths, names, px, py, bounds, border)
    &&& in_order(paths)
    &&& all_borders(layout, paths, px, py, bounds, border)
}

proof fn lemma_no_borders(
    layout: PaneLayout,
    px: Binary32,
    py: Binary32,
    bounds: PaneBounds,
    border: Binary32,
)
    requires
        layout is Leaf,
    ensures
        are_the_borders(layout, Seq::empty(), Seq::empty(), px, py, bounds, border),
{
    assert forall|path: Seq<bool>| !#[trigger] border_on(layout, path, px, py, bounds, border) by {
        lemma_border_at_root(layout, px, py, bounds, border);
        if path.len() > 0 {
            lemma_border_below(layout, path, px, py, bounds, border);
        } else {
            assert(path =~= Seq::empty());
        }
    }
}

/// The borders of a split and of its sides.
proof fn lemma_join_borders(
    layout: PaneLayout,
    below_first: Seq<Seq<bool>>,
    below_second: Seq<Seq<bool>>,
    in_first: Seq<(PaneId, SplitDirection)>,
    in_second: Seq<(PaneId, SplitDirection)>,
    px: Binary32,
    py: Binary32,
    bounds: PaneBounds,
    border: Binary32,
) -> (paths: Seq<Seq<bool>>)
    requires
        layout is Split,
        ({
            let (direction, ratio) = (layout->direction, layout->ratio);
            let first_bounds = first_half(bounds, direction, ratio, border);
            let second_bounds = second_half(bounds, direction, ratio, border);
            let separator = on_separator(px, py, bounds, first_bounds, direction, border);
            &&& if separator || inside(first_bounds, px, py) {
                are_the_borders(
                    *layout->first,
                    below_first,
                    in_first,
                    px,
                    py,
                    first_bounds,
                    border,
                )
            } else {
                below_first.len() == 0 && in_first.len() == 0
            }
            &&& if separator || inside(second_bounds, px, py) {
                are_the_borders(
                    *layout->second,
                    below_second,
                    in_second,
                    px,
                    py,
                    second_bounds,
                    border,
                )
            } else {
                below_second.len() == 0 && in_second.len() == 0
            }
        }),
    ensures
        ({
            let (direction, ratio) = (layout->direction, layout->ratio);
            let first_bounds = first_half(bounds, direction, ratio, border);
            let own = if on_separator(px, py, bounds, first_bounds, direction, border) {
                seq![(layout->first.ids().first(), direction)]
            } else {
                Seq::empty()
            };
            are_the_borders(layout, paths, own + in_first + in_second, px, py, bounds, border)
        }),
{
    let (direction, ratio) = (layout->direction, layout->ratio);
    let (first, second) = (*layout->first, *layout->second);
    let first_bounds = first_half(bounds, direction, ratio, border);
    let second_bounds = second_half(bounds, direction, ratio, border);
    let separator = on_separator(px, py, bounds, first_bounds, direction, border);
    let root: Seq<Seq<bool>> = if separator {
        seq![Seq::empty()]
    } else {
        Seq::empty()
    };
    let own = if separator {
        seq![(first.ids().first(), direction)]
    } else {
        Seq::empty()
    };
    let names = own + in_first + in_second;
    let left = Seq::new(below_first.len(), |i: int| seq![false] + below_first[i]);
    let right = Seq::new(below_second.len(), |i: int| seq![true] + below_second[i]);
    let paths = root + left + right;
    lemma_border_at_root(layout, px, py, bounds, border);
    let (n, m) = (root.len() as int, left.len() as int);
    assert forall|i: int| n <= i < n + m implies {
        &&& (#[trigger] paths[i]).len() > 0
        &&& !paths[i][0]
        &&& paths[i].drop_first() == below_first[i - n]
    } by {
        assert(paths[i] == seq![false] + below_first[i - n]);
        assert(paths[i].drop_first() =~= below_first[i - n]);
    }
    assert forall|i: int| n + m <= i < paths.len() implies {
        &&& (#[trigger] paths[i]).len() > 0
        &&& paths[i][0]
        &&& paths[i].drop_first() == below_second[i - n - m]
    } by {
        assert(paths[i] == seq![true] + below_second[i - n - m]);
        assert(paths[i].drop_first() =~= below_second[i - n - m]);
    }
    assert forall|i: int| 0 <= i < paths.len() implies named_border_on(
        layout,
        #[trigger] paths[i],
        names[i],
        px,
        py,
        bounds,
        border,
    ) by {
        if i >= n {
            lemma_border_below(layout, paths[i], px, py, bounds, border);
            if i < n + m {
                assert(named_border_on(
                    first,
                    below_first[i - n],
                    in_first[i - n],
                    px,
                    py,
                    first_bounds,
                    border,
                ));
            } else {
                assert(named_border_on(
                    second,
                    below_second[i - n - m],
                    in_second[i - n - m],
                    px,
                    py,
                    second_bounds,
                    border,
                ));
            }
        }
    }
    assert forall|i: int, j: int| 0 <= i < j < paths.len() implies precedes(
        #[trigger] paths[i],
        #[trigger] paths[j],
    ) by {
        if i >= n && j < n + m {
            assert(precedes(below_first[i - n], below_first[j - n]));
        } else if i >= n + m {
            assert(precedes(below_second[i - n - m], below_second[j - n - m]));
        }
    }
    assert(paths.no_duplicates()) by {
        assert forall|i: int, j: int|
            0 <= i < paths.len() && 0 <= j < paths.len() && i != j implies paths[i]
            != paths[j] by {
            lemma_precedes_itself(paths[i]);
            if i < j {
                assert(precedes(paths[i], paths[j]));
            } else {
                assert(precedes(paths[j], paths[i]));
            }
        }
    }
    assert forall|path: Seq<bool>| #[trigger]
        border_on(layout, path, px, py, bounds, border) implies (paths.contains(path) <==> leads_to(
        layout,
        path,
        px,
        py,
        bounds,
        border,
    )) by {
        if path.len() == 0 {
            assert(path =~= Seq::empty());
            assert(separator);
            assert(paths[0] == path);
        } else {
            let rest = path.drop_first();
            lemma_border_below(layout, path, px, py, bounds, border);
            lemma_leads_below(layout, path, px, py, bounds, border);
            if paths.contains(path) {
                let i = paths.index_of(path);
                assert(i >= n);
                if i < n + m {
                    assert(below_first[i - n] == rest);
                    assert(below_first.contains(rest));
                } else {
                    assert(below_second[i - n - m] == rest);
                    assert(below_second.contains(rest));
                }
            }
            if leads_to(layout, path, px, py, bounds, border) {
                if path[0] {
                    assert(below_second.contains(rest));
                    let i = below_second.index_of(rest);
                    assert(right[i] =~= path);
                    assert(paths[n + m + i] == path);
                } else {
                    assert(below_first.contains(rest));
                    let i = below_first.index_of(rest);
                    assert(left[i] =~= path);
                    assert(paths[n + i] == path);
                }
            }
        }
    }
    paths
}

proof fn lemma_precedes_itself(path: Seq<bool>)
    ensures
        !precedes(path, path),
    decreases path.len(),
{
    if path.len() > 0 {
        lemma_precedes_itself(path.drop_first());
    }
}

/// A corner search finds exactly the borders at the point to which the point
/// leads: at each split above them the point is on that split's separator, or
/// inside the side that the way to them takes. They are named in the order of a
/// walk from the root.
pub proof fn corner_search_is_exact(
    layout: PaneLayout,
    px: Binary32,
    py: Binary32,
    bounds: PaneBounds,
    border: Binary32,
)
    ensures
        exists|paths: Seq<Seq<bool>>| #[trigger]
            are_the_borders(
                layout,
                paths,
                layout.corners(px, py, bounds, border),
                px,
                py,
                bounds,
                border,
            ),
    decreases layout,
{
    let corners = layout.corners(px, py, bounds, border);
    match layout {
        PaneLayout::Leaf(_) => {
            lemma_no_borders(layout, px, py, bounds, border);
            assert(corners =~= Seq::empty());
        },
        PaneLayout::Split { direction, ratio, first, second } => {
            let first_bounds = first_half(bounds, direction, ratio, border);
            let second_bounds = second_half(bounds, direction, ratio, border);
            corner_search_is_exact(*first, px, py, first_bounds, border);
            corner_search_is_exact(*second, px, py, second_bounds, border);
            let separator = on_separator(px, py, bounds, first_bounds, direction, border);
            let (below_first, in_first) = if separator || inside(first_bounds, px, py) {
                let names = first.corners(px, py, first_bounds, border);
                (
                    choose|paths: Seq<Seq<bool>>| #[trigger]
                        are_the_borders(*first, paths, names, px, py, first_bounds, border),
                    names,
                )
            } else {
                (Seq::empty(), Seq::empty())
            };
            let (below_second, in_second) = if separator || inside(second_bounds, px, py) {
                let names = second.corners(px, py, second_bounds, border);
                (
                    choose|paths: Seq<Seq<bool>>| #[trigger]
                        are_the_borders(*second, paths, names, px, py, second_bounds, border),
                    names,
                )
            } else {
                (Seq::empty(), Seq::empty())
            };
            let paths = lemma_join_borders(
                layout,
                below_first,
                below_second,
                in_first,
                in_second,
                px,
                py,
                bounds,
                border,
            );
            let own = if separator {
                seq![(first.ids().first(), direction)]
            } else {
                Seq::empty()
            };
            assert(corners =~= own + in_first + in_second);
            assert(are_the_borders(layout, paths, corners, px, py, bounds, border));
        },
    }
}

/// Every border on whose separator the point lies, and to which the point leads
/// through either side of each split above it, is among the corners.
pub proof fn corner_search_is_complete(
    layout: PaneLayout,
    path: Seq<bool>,
    px: Binary32,
    py: Binary32,
    bounds: PaneBounds,
    border: Binary32,
)
    requires
        border_on(layout, path, px, py, bounds, border),
        leads_to(layout, path, px, py, bounds, border),
    ensures
        layout.corners(px, py, bounds, border).contains(border_name(layout, path)),
{
    corner_search_is_exact(layout, px, py, bounds, border);
    let names = layout.corners(px, py, bounds, border);
    let paths = choose|paths: Seq<Seq<bool>>| #[trigger]
        are_the_borders(layout, paths, names, px, py, bounds, border);
    let i = paths.index_of(path);
    assert(named_border_on(layout, paths[i], names[i], px, py, bounds, border));
}

/// A point inside one side of a split finds every border that this side alone
/// finds there, whichever side it is.
pub proof fn corner_search_enters_sides(
    layout: PaneLayout,
    step: bool,
    px: Binary32,
    py: Binary32,
    bounds: PaneBounds,
    border: Binary32,
)
    requires
        layout is Split,
        inside(bounds_at(layout, seq![step], bounds, border), px, py),
    ensures
        ({
            let found = layout.corners(px, py, bounds, border);
            let own = bounds_at(layout, seq![step], bounds, border);
            let side = if step {
                *layout->second
            } else {
                *layout->first
            };
            forall|name: (PaneId, SplitDirection)| #[trigger]
                side.corners(px, py, own, border).contains(name) ==> found.contains(name)
        }),
{
    let found = layout.corners(px, py, bounds, border);
    let own = bounds_at(layout, seq![step], bounds, border);
    let (side, half) = if step {
        (*layout->second, second_half(bounds, layout->direction, layout->ratio, border))
    } else {
        (*layout->first, first_half(bounds, layout->direction, layout->ratio, border))
    };
    assert(seq![step].drop_first() =~= Seq::empty());
    assert(bounds_at(side, Seq::empty(), half, border) == half);
    assert(own == half);
    corner_search_is_exact(side, px, py, own, border);
    let names = side.corners(px, py, own, border);
    let paths = choose|paths: Seq<Seq<bool>>| #[trigger]
        are_the_borders(side, paths, names, px, py, own, border);
    assert forall|name: (PaneId, SplitDirection)| #[trigger]
        names.contains(name) implies found.contains(name) by {
        let i = names.index_of(name);
        let path = seq![step] + paths[i];
        assert(path.drop_first() =~= paths[i]);
        assert(named_border_on(side, paths[i], names[i], px, py, own, border));
        assert(paths.contains(paths[i]));
        lemma_border_below(layout, path, px, py, bounds, border);
        lemma_leads_below(layout, path, px, py, bounds, border);
        corner_search_is_complete(layout, path, px, py, bounds, border);
    }
}

/// Whether the border at the end of the path is the first one at the point, in
/// the order of a walk from the root, and has the name.
pub open spec fn first_border_on(
    layout: PaneLayout,
    path: Seq<bool>,
    name: (PaneId, SplitDirection),
    px: Binary32,
    py: Binary32,
    bounds: PaneBounds,
    border: Binary32,
) -> bool {
    &&& named_border_on(layout, path, name, px, py, bounds, border)
    &&& forall|q: Seq<bool>| #[trigger]
        border_on(layout, q, px, py, bounds, border) ==> q == path || precedes(path, q)
}

/// The border that is found at a point is the first one there: that of an outer
/// split before those inside it, and those of a first side before those of the
/// second. None is found only where there is none.
pub proof fn border_search_finds_first(
    layout: PaneLayout,
    px: Binary32,
    py: Binary32,
    bounds: PaneBounds,
    border: Binary32,
)
    ensures
        match layout.border_near(px, py, bounds, border) {
            Some(name) => exists|path: Seq<bool>| #[trigger]
                first_border_on(layout, path, name, px, py, bounds, border),
            None => forall|path: Seq<bool>| !#[trigger]
                border_on(layout, path, px, py, bounds, border),
        },
    decreases layout,
{
    let found = layout.border_near(px, py, bounds, border);
    match layout {
        PaneLayout::Leaf(_) => {
            lemma_no_borders(layout, px, py, bounds, border);
            border_search_is_exact(layout, px, py, bounds, border);
        },
        PaneLayout::Split { direction, ratio, first, second } => {
            let first_bounds = first_half(bounds, direction, ratio, border);
            let second_bounds = second_half(bounds, direction, ratio, border);
            border_search_finds_first(*first, px, py, first_bounds, border);
            border_search_finds_first(*second, px, py, second_bounds, border);
            let root = Seq::<bool>::empty();
            lemma_border_at_root(layout, px, py, bounds, border);
            let separator = on_separator(px, py, bounds, first_bounds, direction, border);
            let (in_first, in_second) = (
                first.border_near(px, py, first_bounds, border),
                second.border_near(px, py, second_bounds, border),
            );
            let path = if separator {
                root
            } else if in_first is Some {
                seq![false] + choose|path: Seq<bool>| #[trigger]
                    first_border_on(*first, path, in_first->0, px, py, first_bounds, border)
            } else {
                seq![true] + choose|path: Seq<bool>| #[trigger]
                    first_border_on(*second, path, in_second->0, px, py, second_bounds, border)
            };
            if path.len() > 0 {
                lemma_border_below(layout, path, px, py, bounds, border);
                if in_first is Some {
                    let end = choose|path: Seq<bool>| #[trigger]
                        first_border_on(*first, path, in_first->0, px, py, first_bounds, border);
                    assert(path.drop_first() =~= end);
                } else {
                    let end = choose|path: Seq<bool>| #[trigger]
                        first_border_on(*second, path, in_second->0, px, py, second_bounds, border);
                    assert(path.drop_first() =~= end);
                }
            }
            assert forall|q: Seq<bool>| #[trigger]
                border_on(layout, q, px, py, bounds, border) implies found is Some && (q == path
                || precedes(path, q)) by {
                if q.len() > 0 {
                    lemma_border_below(layout, q, px, py, bounds, border);
                } else {
                    assert(q =~= root);
                }
            }
            if found is Some {
                assert(named_border_on(layout, path, found->0, px, py, bounds, border));
                assert(first_border_on(layout, path, found->0, px, py, bounds, border));
            }
        },
    }
}

} // verus!
