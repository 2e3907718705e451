//! The binary tree that divides a window between its panes.
use crate::binary32::{
    at_most, clamped, difference, lemma_rest_of_one, less, quotient, sum, unsigned, Binary32,
};
use crate::bounds::{
    first_half, inside, second_half, split_bounds, zero, PaneBounds, SplitDirection, ZERO,
};
use crate::rounding::lemma_magnitude_increases;
use vstd::prelude::*;

verus! {

/// The encoding of one half.
pub const HALF: u32 = 0x3f00_0000;

/// The encoding of one.
pub const ONE: u32 = 0x3f80_0000;

/// The encoding of one twentieth: no side of a split is dragged below it.
pub const TWENTIETH: u32 = 0x3d4c_cccd;

pub open spec fn half() -> Binary32 {
    Binary32 { bits: HALF }
}

pub open spec fn one() -> Binary32 {
    Binary32 { bits: ONE }
}

pub open spec fn twentieth() -> Binary32 {
    Binary32 { bits: TWENTIETH }
}

/// Unique identifier for a pane.
#[derive(Copy, Clone, Debug, PartialEq, Eq, Hash, Structural)]
pub struct PaneId(pub u64);

impl PaneId {
    pub fn new(id: u64) -> (r: Self)
        ensures
            r == PaneId(id),
    {
        PaneId(id)
    }
}

/// Binary tree layout for pane splits.
#[derive(Debug)]
pub enum PaneLayout {
    Leaf(PaneId),
    Split {
        direction: SplitDirection,
        ratio: Binary32,
        first: Box<PaneLayout>,
        second: Box<PaneLayout>,
    },
}

/// What a drag would do.
#[derive(Copy, Clone, Debug, PartialEq, Eq, Structural)]
pub struct DragCheck {
    /// It moves a border.
    pub moves: bool,
    /// The split that it would adjust, if any, has a smallest ratio.
    pub has_limits: bool,
}

impl Clone for PaneLayout {
    fn clone(&self) -> (r: Self)
        ensures
            r == *self,
        decreases self,
    {
        match self {
            PaneLayout::Leaf(id) => PaneLayout::Leaf(*id),
            PaneLayout::Split { direction, ratio, first, second } => PaneLayout::Split {
                direction: *direction,
                ratio: *ratio,
                first: Box::new((&**first).clone()),
                second: Box::new((&**second).clone()),
            },
        }
    }
}

/// The placeholder that stands in for a layout while it is being moved.
impl Default for PaneLayout {
    fn default() -> (r: Self)
        ensures
            r == PaneLayout::Leaf(PaneId(u64::MAX)),
    {
        PaneLayout::Leaf(PaneId::new(u64::MAX))
    }
}

impl PaneLayout {
    /// The panes in depth-first order.
    pub open spec fn ids(self) -> Seq<PaneId>
        decreases self,
    {
        match self {
            PaneLayout::Leaf(id) => seq![id],
            PaneLayout::Split { first, second, .. } => first.ids() + second.ids(),
        }
    }

    /// Whether the pane is in this layout.
    pub open spec fn holds(self, target: PaneId) -> bool {
        self.ids().contains(target)
    }

    /// The layout with the first leaf of `target` split in two, and the new
    /// pane on its second side.
    pub open spec fn with_split(
        self,
        target: PaneId,
        new_pane: PaneId,
        new_direction: SplitDirection,
    ) -> Self
        decreases self,
    {
        match self {
            PaneLayout::Leaf(id) => if id == target {
                PaneLayout::Split {
                    direction: new_direction,
                    ratio: half(),
                    first: Box::new(PaneLayout::Leaf(id)),
                    second: Box::new(PaneLayout::Leaf(new_pane)),
                }
            } else {
                self
            },
            PaneLayout::Split { direction, ratio, first, second } => if first.holds(target) {
                PaneLayout::Split {
                    direction,
                    ratio,
                    first: Box::new(first.with_split(target, new_pane, new_direction)),
                    second,
                }
            } else {
                PaneLayout::Split {
                    direction,
                    ratio,
                    first,
                    second: Box::new(second.with_split(target, new_pane, new_direction)),
                }
            },
        }
    }

    /// The layout without the pane: the split that held its leaf gives way to
    /// its other side. A leaf that is directly below a split is found before
    /// one that is deeper. A layout that is a single leaf stays as it is.
    pub open spec fn without(self, target: PaneId) -> Self
        decreases self,
    {
        match self {
            PaneLayout::Leaf(_) => self,
            PaneLayout::Split { direction, ratio, first, second } => if *first == PaneLayout::Leaf(
                target,
            ) {
                *second
            } else if *second == PaneLayout::Leaf(target) {
                *first
            } else if first.holds(target) {
                PaneLayout::Split {
                    direction,
                    ratio,
                    first: Box::new(first.without(target)),
                    second,
                }
            } else {
                PaneLayout::Split {
                    direction,
                    ratio,
                    first,
                    second: Box::new(second.without(target)),
                }
            },
        }
    }

    /// The pane that focus moves to from `current`. The outermost split of the
    /// given direction that has `current` on one side is crossed: from its
    /// first side to the first pane of its second side, and from its second
    /// side to the last pane of its first side. Without such a split focus
    /// stays; outside of the layout there is nothing to move from.
    pub open spec fn neighbor(self, current: PaneId, along: SplitDirection) -> Option<PaneId>
        decreases self,
    {
        match self {
            PaneLayout::Leaf(id) => Some(id),
            PaneLayout::Split { direction, first, second, .. } => {
                let in_first = first.holds(current);
                let in_second = second.holds(current);
                if direction == along && in_first && !in_second {
                    Some(second.ids().first())
                } else if direction == along && in_second && !in_first {
                    Some(first.ids().last())
                } else if in_first {
                    first.neighbor(current, along)
                } else if in_second {
                    second.neighbor(current, along)
                } else {
                    None
                }
            },
        }
    }

    /// Whether a split of the given direction has the pane below it.
    pub open spec fn has_split_around(self, target: PaneId, along: SplitDirection) -> bool
        decreases self,
    {
        match self {
            PaneLayout::Leaf(_) => false,
            PaneLayout::Split { direction, first, second, .. } => {
                ||| direction == along && (first.holds(target) || second.holds(target))
                ||| first.has_split_around(target, along)
                ||| second.has_split_around(target, along)
            },
        }
    }

    /// The layout with the ratio of the innermost split of the given direction
    /// around `target` moved by `amount` away from the pane, and held between
    /// the two limits.
    pub open spec fn with_resize(
        self,
        target: PaneId,
        along: SplitDirection,
        amount: Binary32,
        low: Binary32,
        high: Binary32,
    ) -> Self
        decreases self,
    {
        match self {
            PaneLayout::Leaf(_) => self,
            PaneLayout::Split { direction, ratio, first, second } => if first.has_split_around(
                target,
                along,
            ) {
                PaneLayout::Split {
                    direction,
                    ratio,
                    first: Box::new(first.with_resize(target, along, amount, low, high)),
                    second,
                }
            } else if direction == along && first.holds(target) {
                PaneLayout::Split {
                    direction,
                    ratio: clamped(sum(ratio, amount), low, high),
                    first,
                    second,
                }
            } else if second.has_split_around(target, along) {
                PaneLayout::Split {
                    direction,
                    ratio,
                    first,
                    second: Box::new(second.with_resize(target, along, amount, low, high)),
                }
            } else if direction == along && second.holds(target) {
                PaneLayout::Split {
                    direction,
                    ratio: clamped(difference(ratio, amount), low, high),
                    first,
                    second,
                }
            } else {
                self
            },
        }
    }

    /// The layout after the border of the innermost split of the given
    /// direction around `target` was dragged to `position`, or nothing where no
    /// such split has room. `bounds` are those of this layout.
    pub open spec fn with_drag(
        self,
        target: PaneId,
        along: SplitDirection,
        position: Binary32,
        bounds: PaneBounds,
        border: Binary32,
        min_extent: Binary32,
    ) -> Option<Self>
        decreases self,
    {
        match self {
            PaneLayout::Leaf(_) => None,
            PaneLayout::Split { direction, ratio, first, second } => {
                let in_first = first.with_drag(
                    target,
                    along,
                    position,
                    first_half(bounds, direction, ratio, border),
                    border,
                    min_extent,
                );
                let in_second = second.with_drag(
                    target,
                    along,
                    position,
                    second_half(bounds, direction, ratio, border),
                    border,
                    min_extent,
                );
                if let Some(changed) = in_first {
                    Some(PaneLayout::Split { direction, ratio, first: Box::new(changed), second })
                } else if let Some(changed) = in_second {
                    Some(PaneLayout::Split { direction, ratio, first, second: Box::new(changed) })
                } else if direction == along && self.holds(target) && has_room(
                    bounds,
                    along,
                    border,
                ) {
                    Some(
                        PaneLayout::Split {
                            direction,
                            ratio: dragged_ratio(position, bounds, along, border, min_extent),
                            first,
                            second,
                        },
                    )
                } else {
                    None
                }
            },
        }
    }

    /// Whether the split that a drag adjusts has a smallest ratio. It has none
    /// where the smallest extent, divided by what there is to divide, is NaN.
    pub open spec fn drag_has_limits(
        self,
        target: PaneId,
        along: SplitDirection,
        position: Binary32,
        bounds: PaneBounds,
        border: Binary32,
        min_extent: Binary32,
    ) -> bool
        decreases self,
    {
        match self {
            PaneLayout::Leaf(_) => true,
            PaneLayout::Split { direction, ratio, first, second } => {
                let first_bounds = first_half(bounds, direction, ratio, border);
                let second_bounds = second_half(bounds, direction, ratio, border);
                &&& first.drag_has_limits(
                    target,
                    along,
                    position,
                    first_bounds,
                    border,
                    min_extent,
                )
                &&& {
                    ||| first.with_drag(
                        target,
                        along,
                        position,
                        first_bounds,
                        border,
                        min_extent,
                    ) is Some
                    ||| {
                        &&& second.drag_has_limits(
                            target,
                            along,
                            position,
                            second_bounds,
                            border,
                            min_extent,
                        )
                        &&& {
                            ||| second.with_drag(
                                target,
                                along,
                                position,
                                second_bounds,
                                border,
                                min_extent,
                            ) is Some
                            ||| direction == along && self.holds(target) && has_room(
                                bounds,
                                along,
                                border,
                            ) ==> !smallest_ratio(
                                min_extent,
                                divided_extent(bounds, along, border),
                            ).is_nan()
                        }
                    }
                }
            },
        }
    }

    /// The bounds of all panes, in depth-first order.
    pub open spec fn placed(self, bounds: PaneBounds, border: Binary32) -> Seq<
        (PaneId, PaneBounds),
    >
        decreases self,
    {
        match self {
            PaneLayout::Leaf(id) => seq![(id, bounds)],
            PaneLayout::Split { direction, ratio, first, second } => {
                first.placed(first_half(bounds, direction, ratio, border), border) + second.placed(
                    second_half(bounds, direction, ratio, border),
                    border,
                )
            },
        }
    }

    /// The borders that can be dragged at a point, each named by the first pane
    /// on its first side and its direction, from the root down. A child that
    /// does not contain the point is searched only from a split on whose
    /// separator the point lies.
    pub open spec fn corners(
        self,
        px: Binary32,
        py: Binary32,
        bounds: PaneBounds,
        border: Binary32,
    ) -> Seq<(PaneId, SplitDirection)>
        decreases self,
    {
        match self {
            PaneLayout::Leaf(_) => Seq::empty(),
            PaneLayout::Split { direction, ratio, first, second } => {
                let first_bounds = first_half(bounds, direction, ratio, border);
                let second_bounds = second_half(bounds, direction, ratio, border);
                let separator = on_separator(px, py, bounds, first_bounds, direction, border);
                let own = if separator {
                    seq![(first.ids().first(), direction)]
                } else {
                    Seq::empty()
                };
                let in_first = if separator || inside(first_bounds, px, py) {
                    first.corners(px, py, first_bounds, border)
                } else {
                    Seq::empty()
                };
                let in_second = if separator || inside(second_bounds, px, py) {
                    second.corners(px, py, second_bounds, border)
                } else {
                    Seq::empty()
                };
                own + in_first + in_second
            },
        }
    }

    /// The outermost border that can be dragged at a point, named as in
    /// `corners`, and searched for on the first side before the second.
    pub open spec fn border_near(
        self,
        px: Binary32,
        py: Binary32,
        bounds: PaneBounds,
        border: Binary32,
    ) -> Option<(PaneId, SplitDirection)>
        decreases self,
    {
        match self {
            PaneLayout::Leaf(_) => None,
            PaneLayout::Split { direction, ratio, first, second } => {
                let first_bounds = first_half(bounds, direction, ratio, border);
                let second_bounds = second_half(bounds, direction, ratio, border);
                if on_separator(px, py, bounds, first_bounds, direction, border) {
                    Some((first.ids().first(), direction))
                } else if let Some(found) = first.border_near(px, py, first_bounds, border) {
                    Some(found)
                } else {
                    second.border_near(px, py, second_bounds, border)
                }
            },
        }
    }

    pub fn new(pane_id: PaneId) -> (r: Self)
        ensures
            r == PaneLayout::Leaf(pane_id),
    {
        PaneLayout::Leaf(pane_id)
    }

    /// Split an existing leaf pane, creating a new leaf alongside it.
    pub fn split(&mut self, target: PaneId, new_pane: PaneId, direction: SplitDirection) -> (r: bool)
        ensures
            r == old(self).holds(target),
            *final(self) == old(self).with_split(target, new_pane, direction),
            !r ==> *final(self) == *old(self),
        decreases *old(self),
    {
        match self {
            PaneLayout::Leaf(id) => {
                let leaf = *id;
                if leaf == target {
                    assert(old(self).ids()[0] == target);
                    *self = PaneLayout::Split {
                        direction,
                        ratio: Binary32 { bits: HALF },
                        first: Box::new(PaneLayout::Leaf(leaf)),
                        second: Box::new(PaneLayout::Leaf(new_pane)),
                    };
                    true
                } else {
                    false
                }
            },
            PaneLayout::Split { first, second, .. } => {
                proof {
                    lemma_contains_concat(first.ids(), second.ids(), target);
                }
                first.split(target, new_pane, direction) || second.split(
                    target,
                    new_pane,
                    direction,
                )
            },
        }
    }

    /// Whether this is the leaf of the pane.
    fn is_leaf_of(&self, target: PaneId) -> (r: bool)
        ensures
            r == (*self == PaneLayout::Leaf(target)),
    {
        match self {
            PaneLayout::Leaf(id) => *id == target,
            PaneLayout::Split { .. } => false,
        }
    }

    /// Close a pane by its id, collapsing the tree.
    pub fn close(&mut self, target: PaneId) -> (r: bool)
        ensures
            r == old(self).holds(target),
            *final(self) == old(self).without(target),
            !r ==> *final(self) == *old(self),
        decreases *old(self),
    {
        match self {
            PaneLayout::Leaf(id) => {
                assert(old(self).ids()[0] == *id);
                *id == target
            },
            PaneLayout::Split { first, second, .. } => {
                proof {
                    lemma_contains_concat(first.ids(), second.ids(), target);
                }
                if first.is_leaf_of(target) {
                    assert(first.ids()[0] == target);
                    let mut taken: Box<PaneLayout> = Box::new(PaneLayout::default());
                    std::mem::swap(&mut taken, second);
                    *self = *taken;
                    return true;
                }
                if second.is_leaf_of(target) {
                    assert(second.ids()[0] == target);
                    let mut taken: Box<PaneLayout> = Box::new(PaneLayout::default());
                    std::mem::swap(&mut taken, first);
                    *self = *taken;
                    return true;
                }
                first.close(target) || second.close(target)
            },
        }
    }

    /// Navigate from the current pane in a direction.
    pub fn navigate(&self, current: PaneId, direction: SplitDirection) -> (r: Option<PaneId>)
        ensures
            r == self.neighbor(current, direction),
        decreases self,
    {
        match self {
            PaneLayout::Leaf(id) => Some(*id),
            PaneLayout::Split { direction: dir, first, second, .. } => {
                let in_first = contains_pane(first, current);
                let in_second = contains_pane(second, current);
                if *dir == direction && in_first && !in_second {
                    first_leaf(second)
                } else if *dir == direction && in_second && !in_first {
                    last_leaf(first)
                } else if in_first {
                    first.navigate(current, direction)
                } else if in_second {
                    second.navigate(current, direction)
                } else {
                    None
                }
            },
        }
    }

    /// Whether a split of the given direction has the pane below it.
    pub fn can_resize(&self, target: PaneId, direction: SplitDirection) -> (r: bool)
        ensures
            r == self.has_split_around(target, direction),
        decreases self,
    {
        match self {
            PaneLayout::Leaf(_) => false,
            PaneLayout::Split { direction: dir, first, second, .. } => {
                *dir == direction && (contains_pane(first, target) || contains_pane(second, target))
                    || first.can_resize(target, direction) || second.can_resize(target, direction)
            },
        }
    }

    /// Resize a split by adjusting the ratio.
    ///
    /// Recurses into child splits to find the innermost matching split;
    /// only adjusts the current split if no deeper match exists.
    /// `min_ratio`/`max_ratio` clamp the ratio for the split that is adjusted.
    pub fn resize(
        &mut self,
        target: PaneId,
        direction: SplitDirection,
        amount: Binary32,
        min_ratio: Binary32,
        max_ratio: Binary32,
    ) -> (r: bool)
        requires
            old(self).has_split_around(target, direction) ==> at_most(min_ratio, max_ratio),
        ensures
            r == old(self).has_split_around(target, direction),
            *final(self) == old(self).with_resize(target, direction, amount, min_ratio, max_ratio),
            !r ==> *final(self) == *old(self),
        decreases *old(self),
    {
        match self {
            PaneLayout::Leaf(_) => false,
            PaneLayout::Split { direction: dir, ratio, first, second } => {
                let in_first = contains_pane(first, target);
                let in_second = contains_pane(second, target);
                proof {
                    lemma_split_around_holds(**first, target, direction);
                    lemma_split_around_holds(**second, target, direction);
                }
                if *dir == direction {
                    if in_first {
                        // Try a more specific (inner) split first.
                        if first.resize(target, direction, amount, min_ratio, max_ratio) {
                            return true;
                        }
                        *ratio = ratio.plus(amount).clamp(min_ratio, max_ratio);
                        return true;
                    }
                    if in_second {
                        if second.resize(target, direction, amount, min_ratio, max_ratio) {
                            return true;
                        }
                        *ratio = ratio.minus(amount).clamp(min_ratio, max_ratio);
                        return true;
                    }
                }
                // The direction doesn't match: only a child can hold the split.

                in_first && first.resize(target, direction, amount, min_ratio, max_ratio)
                    || in_second && second.resize(target, direction, amount, min_ratio, max_ratio)
            },
        }
    }

    /// Resize by dragging a split border to a new pixel position.
    ///
    /// `subtree_bounds` are the bounds of the current subtree (the split node
    /// itself), computed from its parent via `split_bounds`. The root call
    /// passes the bounds of the window. `min_pane_dim` is the pixel width (for
    /// vertical) or height (for horizontal) that each side must have at minimum.
    pub fn resize_drag(
        &mut self,
        target: PaneId,
        direction: SplitDirection,
        new_pixel_pos: Binary32,
        subtree_bounds: &PaneBounds,
        border_width: Binary32,
        min_pane_dim: Binary32,
    ) -> (r: bool)
        requires
            old(self).drag_has_limits(
                target,
                direction,
                new_pixel_pos,
                *subtree_bounds,
                border_width,
                min_pane_dim,
            ),
        ensures
            ({
                let dragged = old(self).with_drag(
                    target,
                    direction,
                    new_pixel_pos,
                    *subtree_bounds,
                    border_width,
                    min_pane_dim,
                );
                &&& r == dragged is Some
                &&& *final(self) == (match dragged {
                    Some(layout) => layout,
                    None => *old(self),
                })
            }),
        decreases *old(self),
    {
        match self {
            PaneLayout::Leaf(_) => false,
            PaneLayout::Split { direction: dir, ratio, first, second } => {
                let (first_bounds, second_bounds) = split_bounds(
                    *subtree_bounds,
                    *dir,
                    *ratio,
                    border_width,
                );
                let in_first = contains_pane(first, target);
                let in_second = contains_pane(second, target);
                proof {
                    lemma_contains_concat(first.ids(), second.ids(), target);
                    lemma_drag_misses(
                        **first,
                        target,
                        direction,
                        new_pixel_pos,
                        first_bounds,
                        border_width,
                        min_pane_dim,
                    );
                    lemma_drag_misses(
                        **second,
                        target,
                        direction,
                        new_pixel_pos,
                        second_bounds,
                        border_width,
                        min_pane_dim,
                    );
                }
                // Try deeper splits first (innermost match wins).
                if in_first && first.resize_drag(
                    target,
                    direction,
                    new_pixel_pos,
                    &first_bounds,
                    border_width,
                    min_pane_dim,
                ) {
                    return true;
                }
                if in_second && second.resize_drag(
                    target,
                    direction,
                    new_pixel_pos,
                    &second_bounds,
                    border_width,
                    min_pane_dim,
                ) {
                    return true;
                }
                proof {
                    reveal(has_room);
                    reveal(dragged_ratio);
                }
                // Only adjust this split if the direction matches and target is a child.
                if *dir == direction && (in_first || in_second) {
                    let total = match direction {
                        SplitDirection::Horizontal => subtree_bounds.height.minus(border_width),
                        SplitDirection::Vertical => subtree_bounds.width.minus(border_width),
                    };
                    if total.le(Binary32 { bits: ZERO }) {
                        return false;
                    }
                    let offset = match direction {
                        SplitDirection::Horizontal => new_pixel_pos.minus(subtree_bounds.y),
                        SplitDirection::Vertical => new_pixel_pos.minus(subtree_bounds.x),
                    };
                    proof {
                        lemma_limits();
                    }
                    let min_ratio = min_pane_dim.over(total).clamp(
                        Binary32 { bits: TWENTIETH },
                        Binary32 { bits: HALF },
                    );
                    proof {
                        lemma_rest_of_one(min_ratio);
                    }
                    let max_ratio = Binary32 { bits: ONE }.minus(min_ratio);
                    *ratio = offset.over(total).clamp(min_ratio, max_ratio);
                    return true;
                }
                false
            },
        }
    }

    /// Check a drag before it is made: whether it moves a border, and whether
    /// the split that it would adjust has a smallest ratio.
    pub fn check_drag(
        &self,
        target: PaneId,
        direction: SplitDirection,
        new_pixel_pos: Binary32,
        subtree_bounds: &PaneBounds,
        border_width: Binary32,
        min_pane_dim: Binary32,
    ) -> (r: DragCheck)
        ensures
            r.moves == self.with_drag(
                target,
                direction,
                new_pixel_pos,
                *subtree_bounds,
                border_width,
                min_pane_dim,
            ) is Some,
            r.has_limits == self.drag_has_limits(
                target,
                direction,
                new_pixel_pos,
                *subtree_bounds,
                border_width,
                min_pane_dim,
            ),
            !r.moves ==> r.has_limits,
        decreases self,
    {
        match self {
            PaneLayout::Leaf(_) => DragCheck { moves: false, has_limits: true },
            PaneLayout::Split { direction: dir, ratio, first, second } => {
                let (first_bounds, second_bounds) = split_bounds(
                    *subtree_bounds,
                    *dir,
                    *ratio,
                    border_width,
                );
                let in_first = first.check_drag(
                    target,
                    direction,
                    new_pixel_pos,
                    &first_bounds,
                    border_width,
                    min_pane_dim,
                );
                if in_first.moves {
                    return in_first;
                }
                let in_second = second.check_drag(
                    target,
                    direction,
                    new_pixel_pos,
                    &second_bounds,
                    border_width,
                    min_pane_dim,
                );
                if in_second.moves {
                    return in_second;
                }
                let total = match direction {
                    SplitDirection::Horizontal => subtree_bounds.height.minus(border_width),
                    SplitDirection::Vertical => subtree_bounds.width.minus(border_width),
                };
                proof {
                    reveal(has_room);
                }
                let moves = *dir == direction && contains_pane(self, target) && !total.le(
                    Binary32 { bits: ZERO },
                );
                if moves {
                    proof {
                        lemma_limits();
                    }
                    let min_ratio = min_pane_dim.over(total).clamp(
                        Binary32 { bits: TWENTIETH },
                        Binary32 { bits: HALF },
                    );
                    DragCheck { moves, has_limits: min_ratio.le(min_ratio) }
                } else {
                    DragCheck { moves, has_limits: true }
                }
            },
        }
    }

    /// Get the pane ID at a specific pixel position (for hit-testing).
    pub fn pane_at(
        &self,
        px: Binary32,
        py: Binary32,
        bounds: &PaneBounds,
        border_width: Binary32,
    ) -> (r: Option<PaneId>)
        ensures
            r == first_hit(self.placed(*bounds, border_width), px, py),
        decreases self,
    {
        match self {
            PaneLayout::Leaf(id) => {
                proof {
                    reveal_with_fuel(first_hit, 2);
                }
                if bounds.contains(px, py) {
                    Some(*id)
                } else {
                    None
                }
            },
            PaneLayout::Split { direction, ratio, first, second } => {
                let (first_bounds, second_bounds) = split_bounds(
                    *bounds,
                    *direction,
                    *ratio,
                    border_width,
                );
                proof {
                    lemma_first_hit_concat(
                        first.placed(first_bounds, border_width),
                        second.placed(second_bounds, border_width),
                        px,
                        py,
                    );
                }
                match first.pane_at(px, py, &first_bounds, border_width) {
                    Some(id) => Some(id),
                    None => second.pane_at(px, py, &second_bounds, border_width),
                }
            },
        }
    }

    /// Find all draggable borders at a pixel position (for corner detection).
    pub fn corners_at(
        &self,
        px: Binary32,
        py: Binary32,
        bounds: &PaneBounds,
        border_width: Binary32,
    ) -> (r: Vec<(PaneId, SplitDirection)>)
        ensures
            r@ == self.corners(px, py, *bounds, border_width),
        decreases self,
    {
        match self {
            PaneLayout::Leaf(_) => Vec::new(),
            PaneLayout::Split { direction, ratio, first, second } => {
                let (first_bounds, second_bounds) = split_bounds(
                    *bounds,
                    *direction,
                    *ratio,
                    border_width,
                );
                let mut result: Vec<(PaneId, SplitDirection)> = Vec::new();
                let separator = is_on_separator(
                    px,
                    py,
                    bounds,
                    &first_bounds,
                    *direction,
                    border_width,
                );
                if separator {
                    if let Some(id) = first_leaf(first) {
                        result.push((id, *direction));
                    }
                }
                // When the point is on this node's separator it sits between both children,
                // so both are searched to pick up perpendicular borders at the corner.
                // Otherwise only the child that contains the point is.

                if separator || first_bounds.contains(px, py) {
                    let mut found = first.corners_at(px, py, &first_bounds, border_width);
                    result.append(&mut found);
                }
                if separator || second_bounds.contains(px, py) {
                    let mut found = second.corners_at(px, py, &second_bounds, border_width);
                    result.append(&mut found);
                }
                assert(result@ =~= self.corners(px, py, *bounds, border_width));
                result
            },
        }
    }

    /// Find a draggable border at a pixel position.
    pub fn border_at(
        &self,
        px: Binary32,
        py: Binary32,
        bounds: &PaneBounds,
        border_width: Binary32,
    ) -> (r: Option<(PaneId, SplitDirection)>)
        ensures
            r == self.border_near(px, py, *bounds, border_width),
        decreases self,
    {
        match self {
            PaneLayout::Leaf(_) => None,
            PaneLayout::Split { direction, ratio, first, second } => {
                let (first_bounds, second_bounds) = split_bounds(
                    *bounds,
                    *direction,
                    *ratio,
                    border_width,
                );
                let separator = is_on_separator(
                    px,
                    py,
                    bounds,
                    &first_bounds,
                    *direction,
                    border_width,
                );
                if separator {
                    // The first pane on the first side is the anchor for a resize.
                    match first_leaf(first) {
                        Some(id) => Some((id, *direction)),
                        None => None,
                    }
                } else {
                    match first.border_at(px, py, &first_bounds, border_width) {
                        Some(found) => Some(found),
                        None => second.border_at(px, py, &second_bounds, border_width),
                    }
                }
            },
        }
    }

    /// Compute pixel bounds for all panes.
    pub fn compute_bounds(&self, window_bounds: PaneBounds, border_width: Binary32) -> (r: Vec<
        (PaneId, PaneBounds),
    >)
        ensures
            r@ == self.placed(window_bounds, border_width),
    {
        let mut result: Vec<(PaneId, PaneBounds)> = Vec::new();
        self.compute_bounds_recursive(window_bounds, border_width, &mut result);
        result
    }

    fn compute_bounds_recursive(
        &self,
        bounds: PaneBounds,
        border_width: Binary32,
        result: &mut Vec<(PaneId, PaneBounds)>,
    )
        ensures
            final(result)@ == old(result)@ + self.placed(bounds, border_width),
        decreases self,
    {
        match self {
            PaneLayout::Leaf(id) => {
                result.push((*id, bounds));
            },
            PaneLayout::Split { direction, ratio, first, second } => {
                let (first_bounds, second_bounds) = split_bounds(
                    bounds,
                    *direction,
                    *ratio,
                    border_width,
                );
                first.compute_bounds_recursive(first_bounds, border_width, result);
                second.compute_bounds_recursive(second_bounds, border_width, result);
            },
        }
    }

    /// Collect all pane IDs in depth-first order.
    pub fn pane_ids(&self) -> (r: Vec<PaneId>)
        ensures
            r@ == self.ids(),
    {
        let mut ids: Vec<PaneId> = Vec::new();
        self.collect_ids(&mut ids);
        ids
    }

    fn collect_ids(&self, ids: &mut Vec<PaneId>)
        ensures
            final(ids)@ == old(ids)@ + self.ids(),
        decreases self,
    {
        match self {
            PaneLayout::Leaf(id) => {
                ids.push(*id);
            },
            PaneLayout::Split { first, second, .. } => {
                first.collect_ids(ids);
                second.collect_ids(ids);
            },
        }
    }

    /// Count the total panes.
    pub fn count(&self) -> (r: usize)
        ensures
            r == self.ids().len(),
    {
        self.pane_ids().len()
    }
}

/// What the two sides of a split of the given direction have to share.
pub open spec fn divided_extent(
    bounds: PaneBounds,
    along: SplitDirection,
    border: Binary32,
) -> Binary32 {
    match along {
        SplitDirection::Horizontal => difference(bounds.height, border),
        SplitDirection::Vertical => difference(bounds.width, border),
    }
}

/// Whether there is anything to share.
#[verifier::opaque]
pub open spec fn has_room(bounds: PaneBounds, along: SplitDirection, border: Binary32) -> bool {
    !at_most(divided_extent(bounds, along, border), zero())
}

/// The smallest ratio that leaves a side its smallest extent, held between one
/// twentieth and one half.
pub open spec fn smallest_ratio(min_extent: Binary32, total: Binary32) -> Binary32 {
    clamped(quotient(min_extent, total), twentieth(), half())
}

/// The largest ratio: what the smallest one leaves of the whole.
pub open spec fn largest_ratio(smallest: Binary32) -> Binary32 {
    difference(one(), smallest)
}

/// The ratio that puts the border of a split at a position, as far as both
/// sides keep their smallest extent.
#[verifier::opaque]
pub open spec fn dragged_ratio(
    position: Binary32,
    bounds: PaneBounds,
    along: SplitDirection,
    border: Binary32,
    min_extent: Binary32,
) -> Binary32 {
    let total = divided_extent(bounds, along, border);
    let start = match along {
        SplitDirection::Horizontal => bounds.y,
        SplitDirection::Vertical => bounds.x,
    };
    let smallest = smallest_ratio(min_extent, total);
    clamped(quotient(difference(position, start), total), smallest, largest_ratio(smallest))
}

/// Whether a point is closer than the border's width to the line on which the
/// first side ends.
pub open spec fn near_line(
    px: Binary32,
    py: Binary32,
    first_bounds: PaneBounds,
    direction: SplitDirection,
    border: Binary32,
) -> bool {
    match direction {
        SplitDirection::Vertical => less(
            unsigned(difference(px, sum(first_bounds.x, first_bounds.width))),
            border,
        ),
        SplitDirection::Horizontal => less(
            unsigned(difference(py, sum(first_bounds.y, first_bounds.height))),
            border,
        ),
    }
}

/// Whether a point is near that line and along the split, with the border's
/// width to spare at both ends.
#[verifier::opaque]
pub open spec fn on_separator(
    px: Binary32,
    py: Binary32,
    bounds: PaneBounds,
    first_bounds: PaneBounds,
    direction: SplitDirection,
    border: Binary32,
) -> bool {
    &&& near_line(px, py, first_bounds, direction, border)
    &&& match direction {
        SplitDirection::Vertical => at_most(difference(bounds.y, border), py) && less(
            py,
            sum(sum(bounds.y, bounds.height), border),
        ),
        SplitDirection::Horizontal => at_most(difference(bounds.x, border), px) && less(
            px,
            sum(sum(bounds.x, bounds.width), border),
        ),
    }
}

/// Segment-based separator check with border_width tolerance on the
/// perpendicular axis to account for the overdraw zone at corners.
fn is_on_separator(
    px: Binary32,
    py: Binary32,
    bounds: &PaneBounds,
    first_bounds: &PaneBounds,
    direction: SplitDirection,
    border_width: Binary32,
) -> (r: bool)
    ensures
        r == on_separator(px, py, *bounds, *first_bounds, direction, border_width),
{
    reveal(on_separator);
    match direction {
        SplitDirection::Vertical => {
            let sep_x = first_bounds.x.plus(first_bounds.width);
            px.minus(sep_x).abs().lt(border_width) && bounds.y.minus(border_width).le(py) && py.lt(
                bounds.y.plus(bounds.height).plus(border_width),
            )
        },
        SplitDirection::Horizontal => {
            let sep_y = first_bounds.y.plus(first_bounds.height);
            py.minus(sep_y).abs().lt(border_width) && bounds.x.minus(border_width).le(px) && px.lt(
                bounds.x.plus(bounds.width).plus(border_width),
            )
        },
    }
}

/// The first of the placed panes that contains the point.
pub open spec fn first_hit(placed: Seq<(PaneId, PaneBounds)>, px: Binary32, py: Binary32) -> Option<
    PaneId,
>
    decreases placed.len(),
{
    if placed.len() == 0 {
        None
    } else if inside(placed[0].1, px, py) {
        Some(placed[0].0)
    } else {
        first_hit(placed.drop_first(), px, py)
    }
}

proof fn lemma_first_hit_concat(
    a: Seq<(PaneId, PaneBounds)>,
    b: Seq<(PaneId, PaneBounds)>,
    px: Binary32,
    py: Binary32,
)
    ensures
        first_hit(a + b, px, py) == (match first_hit(a, px, py) {
            Some(id) => Some(id),
            None => first_hit(b, px, py),
        }),
    decreases a.len(),
{
    if a.len() == 0 {
        assert(a + b =~= b);
    } else {
        assert((a + b).drop_first() =~= a.drop_first() + b);
        lemma_first_hit_concat(a.drop_first(), b, px, py);
    }
}

/// One twentieth is positive and below one half, and what is not below it has
/// no sign.
pub proof fn lemma_limits()
    ensures
        at_most(twentieth(), half()),
        twentieth().value() > 0,
        forall|a: Binary32| !a.is_nan() && !#[trigger] less(a, twentieth()) ==> !a.negative(),
{
    lemma_magnitude_increases(0, TWENTIETH as int);
    lemma_magnitude_increases(TWENTIETH as int, HALF as int);
    assert forall|a: Binary32| !a.is_nan() && !#[trigger] less(a, twentieth()) implies !a.negative() by {
        lemma_magnitude_increases(0, a.code());
    }
}

/// A drag does nothing to a layout without the pane.
proof fn lemma_drag_misses(
    layout: PaneLayout,
    target: PaneId,
    along: SplitDirection,
    position: Binary32,
    bounds: PaneBounds,
    border: Binary32,
    min_extent: Binary32,
)
    ensures
        !layout.holds(target) ==> layout.with_drag(
            target,
            along,
            position,
            bounds,
            border,
            min_extent,
        ) is None,
        !layout.holds(target) ==> layout.drag_has_limits(
            target,
            along,
            position,
            bounds,
            border,
            min_extent,
        ),
    decreases layout,
{
    match layout {
        PaneLayout::Leaf(_) => {},
        PaneLayout::Split { direction, ratio, first, second } => {
            lemma_contains_concat(first.ids(), second.ids(), target);
            let first_bounds = first_half(bounds, direction, ratio, border);
            let second_bounds = second_half(bounds, direction, ratio, border);
            lemma_drag_misses(*first, target, along, position, first_bounds, border, min_extent);
            lemma_drag_misses(*second, target, along, position, second_bounds, border, min_extent);
        },
    }
}

/// Whether the pane is in the layout.
pub fn contains_pane(layout: &PaneLayout, target: PaneId) -> (r: bool)
    ensures
        r == layout.holds(target),
    decreases layout,
{
    match layout {
        PaneLayout::Leaf(id) => {
            assert(layout.ids()[0] == *id);
            *id == target
        },
        PaneLayout::Split { first, second, .. } => {
            proof {
                lemma_contains_concat(first.ids(), second.ids(), target);
            }
            contains_pane(first, target) || contains_pane(second, target)
        },
    }
}

/// The first pane of a layout: the leftmost, or topmost.
pub fn first_leaf(layout: &PaneLayout) -> (r: Option<PaneId>)
    ensures
        r == Some(layout.ids().first()),
    decreases layout,
{
    match layout {
        PaneLayout::Leaf(id) => Some(*id),
        PaneLayout::Split { first, .. } => {
            proof {
                lemma_ids_not_empty(**first);
            }
            first_leaf(first)
        },
    }
}

/// The last pane of a layout: the rightmost, or bottommost.
pub fn last_leaf(layout: &PaneLayout) -> (r: Option<PaneId>)
    ensures
        r == Some(layout.ids().last()),
    decreases layout,
{
    match layout {
        PaneLayout::Leaf(id) => Some(*id),
        PaneLayout::Split { second, .. } => {
            proof {
                lemma_ids_not_empty(**second);
            }
            last_leaf(second)
        },
    }
}

/// A layout has at least one pane.
pub proof fn lemma_ids_not_empty(layout: PaneLayout)
    ensures
        layout.ids().len() > 0,
    decreases layout,
{
    match layout {
        PaneLayout::Leaf(_) => {},
        PaneLayout::Split { first, .. } => {
            lemma_ids_not_empty(*first);
        },
    }
}

/// A pane that has a split around it is in the layout.
pub proof fn lemma_split_around_holds(layout: PaneLayout, target: PaneId, along: SplitDirection)
    ensures
        layout.has_split_around(target, along) ==> layout.holds(target),
    decreases layout,
{
    match layout {
        PaneLayout::Leaf(_) => {},
        PaneLayout::Split { first, second, .. } => {
            lemma_split_around_holds(*first, target, along);
            lemma_split_around_holds(*second, target, along);
            lemma_contains_concat(first.ids(), second.ids(), target);
        },
    }
}

/// Two sequences hold together what one of them holds.
pub proof fn lemma_contains_concat(a: Seq<PaneId>, b: Seq<PaneId>, x: PaneId)
    ensures
        (a + b).contains(x) <==> a.contains(x) || b.contains(x),
{
    let c = a + b;
    if a.contains(x) {
        let i = choose|i: int| 0 <= i < a.len() && a[i] == x;
        assert(c[i] == x);
    }
    if b.contains(x) {
        let i = choose|i: int| 0 <= i < b.len() && b[i] == x;
        assert(c[a.len() + i] == x);
    }
}

} // verus!
