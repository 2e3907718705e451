//! The panes of one window: their layout, the focused one, and the one that is
//! zoomed.
use crate::binary32::{from_whole, lemma_rest_of_one, product, Binary32};
use crate::bounds::{two, PaneBounds, SplitDirection, TWO};
use crate::config::PaneConfig;
use crate::layout::{
    contains_pane, divided_extent, first_hit, largest_ratio, lemma_ids_not_empty, lemma_limits, smallest_ratio,
    DragCheck, PaneId, PaneLayout, HALF, ONE, TWENTIETH,
};
use crate::manager_laws::{
    active_pane_exists, close_keeps_consistent, drag_keeps_consistent,
    failed_split_keeps_consistent, focus_keeps_consistent, new_content_keeps_consistent,
    new_is_consistent, new_size_keeps_consistent, resize_keeps_consistent, several_panes_close,
    split_keeps_consistent, zoom_keeps_consistent,
};
use crate::size::{fit_terminal, fitted, whole_window, SizeInfo, TerminalResize};
use std::collections::hash_map::Entry;
use std::collections::HashMap;
use vstd::prelude::*;

verus! {

broadcast use vstd::std_specs::hash::group_hash_axioms;

/// Manages all panes within a single window. What a pane consists of (its
/// terminal and the program in it) is up to the caller: `P`.
pub struct PaneManager<P> {
    /// Binary tree layout of panes.
    layout: PaneLayout,
    /// All panes keyed by ID.
    panes: HashMap<u64, P>,
    /// ID of the currently focused pane.
    active_pane: PaneId,
    /// Next pane ID to assign.
    next_id: u64,
    /// Window-level bounds (computed from window size).
    window_bounds: PaneBounds,
    /// Pane bounds cache (computed from layout).
    pane_bounds: HashMap<u64, PaneBounds>,
    /// Border width for layout.
    border_width: Binary32,
    /// Minimum pane dimensions in pixels (width, height).
    min_pane_px: (Binary32, Binary32),
    /// Focus switch queued during event processing.
    pending_focus: Option<PaneId>,
    /// Saved layout for pane zoom toggle.
    saved_layout: Option<PaneLayout>,
}

/// Why the active pane could not be split.
#[derive(Debug)]
pub enum SplitError<E> {
    /// The terminal of the new pane could not be created.
    Terminal(E),
    /// The active pane is not in the layout.
    ActiveNotInLayout,
}

/// What a manager holds. The bounds of the panes are not part of it: they
/// follow from the layout.
#[verifier::ext_equal]
pub struct ManagerState<P> {
    pub layout: PaneLayout,
    pub panes: Map<u64, P>,
    pub active: PaneId,
    pub next_id: u64,
    pub window: PaneBounds,
    pub border: Binary32,
    pub min_extent: (Binary32, Binary32),
    pub pending: Option<PaneId>,
    pub saved: Option<PaneLayout>,
}

/// The bounds of each pane. Of a pane that is placed twice the last one counts.
pub open spec fn by_pane(placed: Seq<(PaneId, PaneBounds)>) -> Map<u64, PaneBounds>
    decreases placed.len(),
{
    if placed.len() == 0 {
        Map::empty()
    } else {
        by_pane(placed.drop_last()).insert(placed.last().0.0, placed.last().1)
    }
}

impl<P> ManagerState<P> {
    /// The bounds of each pane of the layout.
    pub open spec fn bounds(self) -> Map<u64, PaneBounds> {
        by_pane(self.layout.placed(self.window, self.border))
    }

    /// The smallest extent of a pane across a split of the given direction.
    pub open spec fn min_across(self, direction: SplitDirection) -> Binary32 {
        match direction {
            SplitDirection::Vertical => self.min_extent.0,
            SplitDirection::Horizontal => self.min_extent.1,
        }
    }

    /// The smallest ratio of a split of the given direction, measured by the
    /// whole window.
    pub open spec fn min_ratio(self, direction: SplitDirection) -> Binary32 {
        smallest_ratio(
            self.min_across(direction),
            divided_extent(self.window, direction, self.border),
        )
    }

    /// A window with its first pane.
    pub open spec fn initial(pane: P, config: PaneConfig, size: SizeInfo) -> Self {
        ManagerState {
            layout: PaneLayout::Leaf(PaneId(0)),
            panes: Map::empty().insert(0, pane),
            active: PaneId(0),
            next_id: 1,
            window: whole_window(size),
            border: from_whole(config.border_width as int),
            min_extent: (
                product(from_whole(config.min_width as int), size.cell_width),
                product(from_whole(config.min_height as int), size.cell_height),
            ),
            pending: None,
            saved: None,
        }
    }

    /// The layout with all panes, also while a zoomed window shows only some.
    pub open spec fn full_layout(self) -> PaneLayout {
        match self.saved {
            Some(layout) => layout,
            None => self.layout,
        }
    }

    /// The full layout has every pane once, and no others; the active pane is
    /// one of them; their identifiers are all used up; and a zoomed window shows
    /// some of them, each once.
    pub open spec fn consistent(self) -> bool {
        &&& self.full_layout().ids().no_duplicates()
        &&& forall|id: PaneId| #[trigger]
            self.full_layout().holds(id) <==> self.panes.contains_key(id.0)
        &&& forall|id: PaneId| #[trigger] self.full_layout().holds(id) ==> id.0 < self.next_id
        &&& self.full_layout().holds(self.active)
        &&& self.layout.ids().no_duplicates()
        &&& forall|id: PaneId| #[trigger]
            self.layout.holds(id) ==> self.full_layout().holds(id)
    }

    /// An identifier was used up.
    pub open spec fn after_id(self) -> Self {
        ManagerState { next_id: (self.next_id + 1) as u64, ..self }
    }

    /// A new pane was put beside the active one, also in the layout that a zoomed
    /// window goes back to. Where the active pane is not in the layout, the new
    /// pane is dropped again.
    pub open spec fn after_split(self, pane: P, direction: SplitDirection) -> Self {
        if self.layout.holds(self.active) {
            ManagerState {
                layout: self.layout.with_split(self.active, PaneId(self.next_id), direction),
                panes: self.panes.insert(self.next_id, pane),
                saved: match self.saved {
                    Some(saved) => Some(
                        saved.with_split(self.active, PaneId(self.next_id), direction),
                    ),
                    None => None,
                },
                ..self.after_id()
            }
        } else {
            ManagerState { panes: self.panes.remove(self.next_id), ..self.after_id() }
        }
    }

    /// Whether closing the pane does anything: it is in the layout, and not as
    /// the last one.
    pub open spec fn can_close(self, target: PaneId) -> bool {
        self.layout.ids().len() > 1 && self.layout.holds(target)
    }

    /// The pane was closed, also in the layout that a zoomed window goes back to,
    /// and the first one that is left has focus.
    pub open spec fn after_close(self, target: PaneId) -> Self {
        if self.can_close(target) {
            let layout = self.layout.without(target);
            ManagerState {
                layout,
                panes: self.panes.remove(target.0),
                active: layout.ids().first(),
                saved: match self.saved {
                    Some(saved) => Some(saved.without(target)),
                    None => None,
                },
                ..self
            }
        } else {
            self
        }
    }

    /// The window in which the active pane is closed. One that is zoomed to it
    /// shows no other pane, and is restored first.
    pub open spec fn before_close(self) -> Self {
        if self.saved is Some && !self.can_close(self.active) {
            self.after_zoom()
        } else {
            self
        }
    }

    /// Whether closing the active pane does anything.
    pub open spec fn can_close_active(self) -> bool {
        self.before_close().can_close(self.active)
    }

    /// The active pane was closed.
    pub open spec fn after_close_active(self) -> Self {
        if self.can_close_active() {
            self.before_close().after_close(self.active)
        } else {
            self
        }
    }

    /// Focus was asked for. Only a pane that exists can get it.
    pub open spec fn after_request(self, target: PaneId) -> Self {
        if self.panes.contains_key(target.0) {
            ManagerState { pending: Some(target), ..self }
        } else {
            self
        }
    }

    /// Whether there is a queued focus switch to a pane that still exists.
    pub open spec fn can_apply(self) -> bool {
        self.pending is Some && self.panes.contains_key((self.pending->0).0)
    }

    /// The queued focus switch was applied, or dropped where the pane is gone.
    pub open spec fn after_apply(self) -> Self {
        ManagerState {
            active: if self.can_apply() {
                self.pending->0
            } else {
                self.active
            },
            pending: None,
            ..self
        }
    }

    /// The active pane was zoomed to the whole window, or the layout restored.
    pub open spec fn after_zoom(self) -> Self {
        match self.saved {
            Some(layout) => ManagerState { layout, saved: None, ..self },
            None => ManagerState {
                layout: PaneLayout::Leaf(self.active),
                saved: Some(self.layout),
                ..self
            },
        }
    }

    /// The pane was resized by a step.
    pub open spec fn after_resize(
        self,
        target: PaneId,
        direction: SplitDirection,
        amount: Binary32,
    ) -> Self {
        let low = self.min_ratio(direction);
        ManagerState {
            layout: self.layout.with_resize(target, direction, amount, low, largest_ratio(low)),
            ..self
        }
    }

    /// The layout that a drag of a border gives, if it moves any.
    pub open spec fn dragged(
        self,
        target: PaneId,
        direction: SplitDirection,
        px: Binary32,
        py: Binary32,
    ) -> Option<PaneLayout> {
        self.layout.with_drag(
            target,
            direction,
            drag_position(direction, px, py),
            self.window,
            self.border,
            self.min_across(direction),
        )
    }

    /// Whether the split that a drag of a border adjusts has a smallest ratio.
    pub open spec fn drag_has_limits(
        self,
        target: PaneId,
        direction: SplitDirection,
        px: Binary32,
        py: Binary32,
    ) -> bool {
        self.layout.drag_has_limits(
            target,
            direction,
            drag_position(direction, px, py),
            self.window,
            self.border,
            self.min_across(direction),
        )
    }

    /// Whether the terminal of the pane follows a change of the window: it is
    /// placed, it exists, and it is not the active one.
    pub open spec fn resizes(self, id: PaneId) -> bool {
        id != self.active && self.bounds().contains_key(id.0) && self.panes.contains_key(id.0)
    }

    /// Whether the list has the new size of the terminal of each pane that
    /// follows a change of the window, once, and nothing else.
    pub open spec fn resized_terminals(
        self,
        list: Seq<(PaneId, TerminalResize)>,
        size: SizeInfo,
    ) -> bool {
        &&& forall|i: int, j: int| 0 <= i < j < list.len() ==> list[i].0 != list[j].0
        &&& forall|i: int|
            0 <= i < list.len() ==> self.resizes(#[trigger] list[i].0) && list[i].1 == fitted(
                self.bounds()[list[i].0.0],
                size,
            )
        &&& forall|id: PaneId| #[trigger]
            self.resizes(id) ==> exists|i: int| 0 <= i < list.len() && #[trigger] list[i].0 == id
    }

    /// The border was dragged.
    pub open spec fn after_drag(
        self,
        target: PaneId,
        direction: SplitDirection,
        px: Binary32,
        py: Binary32,
    ) -> Self {
        match self.dragged(target, direction, px, py) {
            Some(layout) => ManagerState { layout, ..self },
            None => self,
        }
    }
}

/// How close to a border a point grabs it.
pub open spec fn grab_width(border: Binary32) -> Binary32 {
    product(border, two())
}

/// The coordinate that moves the border of a split of the given direction.
pub open spec fn drag_position(direction: SplitDirection, px: Binary32, py: Binary32) -> Binary32 {
    match direction {
        SplitDirection::Vertical => px,
        SplitDirection::Horizontal => py,
    }
}

/// What a lookup of a key gives.
pub open spec fn lookup<T>(map: Map<u64, T>, id: PaneId) -> Option<T> {
    if map.contains_key(id.0) {
        Some(map[id.0])
    } else {
        None
    }
}

/// The keys of a map, each once and in no particular order.
fn keys_of<T>(map: &HashMap<u64, T>) -> (r: Vec<u64>)
    ensures
        r@.no_duplicates(),
        r@.to_set() == map@.dom(),
{
    let mut keys: Vec<u64> = Vec::new();
    for key in iter: map.keys()
        invariant
            iter.seq().no_duplicates(),
            iter.seq().unref().to_set() == map@.dom(),
            keys@ == iter.seq().unref().take(iter.index() as int),
            iter.index() == iter.seq().len() ==> keys@ == iter.seq().unref(),
    {
        keys.push(*key);
    }
    keys
}

/// Whether closing a pane of the layout does anything.
fn closes_in(layout: &PaneLayout, target: PaneId) -> (r: bool)
    ensures
        r == (layout.ids().len() > 1 && layout.holds(target)),
{
    layout.count() > 1 && contains_pane(layout, target)
}

impl<P> View for PaneManager<P> {
    type V = ManagerState<P>;

    closed spec fn view(&self) -> ManagerState<P> {
        ManagerState {
            layout: self.layout,
            panes: self.panes@,
            active: self.active_pane,
            next_id: self.next_id,
            window: self.window_bounds,
            border: self.border_width,
            min_extent: self.min_pane_px,
            pending: self.pending_focus,
            saved: self.saved_layout,
        }
    }
}

impl<P> PaneManager<P> {
    /// The panes and the layout agree, and the cached bounds are those of the
    /// layout.
    pub closed spec fn wf(&self) -> bool {
        self.is_cached() && self@.consistent()
    }

    closed spec fn is_cached(&self) -> bool {
        self.pane_bounds@ == self@.bounds()
    }

    /// Every manager is consistent.
    pub proof fn wf_is_consistent(&self)
        requires
            self.wf(),
        ensures
            self@.consistent(),
            self@.panes.contains_key(self@.active.0),
    {
        active_pane_exists(self@);
    }

    /// Create a new pane manager with an initial pane.
    pub fn new(pane: P, config: &PaneConfig, size: &SizeInfo) -> (r: Self)
        ensures
            r.wf(),
            r@ == ManagerState::initial(pane, *config, *size),
    {
        let pane_id = PaneId::new(0);
        let mut panes: HashMap<u64, P> = HashMap::new();
        panes.insert(0, pane);
        let border_width = Binary32::from_usize(config.border_width);
        let min_pane_px = (
            Binary32::from_usize(config.min_width).times(size.cell_width),
            Binary32::from_usize(config.min_height).times(size.cell_height),
        );
        let mut manager = PaneManager {
            layout: PaneLayout::new(pane_id),
            panes,
            active_pane: pane_id,
            next_id: 1,
            window_bounds: size.window_bounds(),
            pane_bounds: HashMap::new(),
            border_width,
            min_pane_px,
            pending_focus: None,
            saved_layout: None,
        };
        manager.recompute_bounds();
        proof {
            new_is_consistent(pane, *config, *size);
        }
        assert(manager@ =~= ManagerState::initial(pane, *config, *size));
        manager
    }

    /// Get the active (focused) pane ID.
    pub fn active_pane_id(&self) -> (r: PaneId)
        ensures
            r == self@.active,
    {
        self.active_pane
    }

    /// Get a reference to the active pane.
    pub fn active_pane(&self) -> (r: Option<&P>)
        ensures
            r is Some <==> self@.panes.contains_key(self@.active.0),
            r matches Some(pane) ==> *pane == self@.panes[self@.active.0],
    {
        self.panes.get(&self.active_pane.0)
    }

    /// Get a mutable reference to a specific pane.
    pub fn pane_mut(&mut self, id: PaneId) -> (r: Option<&mut P>)
        requires
            old(self).wf(),
        ensures
            final(self).wf(),
            r is Some <==> old(self)@.panes.contains_key(id.0),
            match r {
                Some(pane) => {
                    &&& *pane == old(self)@.panes[id.0]
                    &&& final(self)@ == (ManagerState {
                        panes: old(self)@.panes.insert(id.0, *final(pane)),
                        ..old(self)@
                    })
                },
                None => final(self)@ == old(self)@,
            },
    {
        proof {
            assert forall|pane: P| old(self)@.panes.contains_key(id.0) implies (ManagerState {
                panes: #[trigger] old(self)@.panes.insert(id.0, pane),
                ..old(self)@
            }).consistent() by {
                new_content_keeps_consistent(old(self)@, id, pane);
            }
        }
        match self.panes.entry(id.0) {
            Entry::Occupied(entry) => Some(entry.into_mut()),
            Entry::Vacant(_) => None,
        }
    }

    /// Get a reference to a specific pane.
    pub fn pane(&self, id: PaneId) -> (r: Option<&P>)
        ensures
            r is Some <==> self@.panes.contains_key(id.0),
            r matches Some(pane) ==> *pane == self@.panes[id.0],
    {
        self.panes.get(&id.0)
    }

    /// Get all panes.
    pub fn panes(&self) -> (r: &HashMap<u64, P>)
        ensures
            r@ == self@.panes,
    {
        &self.panes
    }

    /// Get pane bounds for a specific pane.
    pub fn pane_bounds(&self, id: PaneId) -> (r: Option<PaneBounds>)
        requires
            self.wf(),
        ensures
            r == lookup(self@.bounds(), id),
    {
        match self.pane_bounds.get(&id.0) {
            Some(bounds) => Some(*bounds),
            None => None,
        }
    }

    /// The identifier that the next new pane gets.
    pub fn next_pane_id(&self) -> (r: PaneId)
        ensures
            r == PaneId(self@.next_id),
    {
        PaneId::new(self.next_id)
    }

    /// Split the active pane in the given direction. `created` is the new pane,
    /// made for `next_pane_id`, or the reason why it could not be made.
    pub fn split_active<E>(
        &mut self,
        created: Result<P, E>,
        direction: SplitDirection,
    ) -> (r: Result<PaneId, SplitError<E>>)
        requires
            old(self).wf(),
            old(self)@.next_id < u64::MAX,
        ensures
            final(self).wf(),
            match created {
                Ok(pane) => {
                    &&& final(self)@ == old(self)@.after_split(pane, direction)
                    &&& r == (if old(self)@.layout.holds(old(self)@.active) {
                        Ok::<PaneId, SplitError<E>>(PaneId(old(self)@.next_id))
                    } else {
                        Err(SplitError::ActiveNotInLayout)
                    })
                },
                Err(error) => {
                    &&& final(self)@ == old(self)@.after_id()
                    &&& r == Err::<PaneId, SplitError<E>>(SplitError::Terminal(error))
                },
            },
    {
        proof {
            failed_split_keeps_consistent(self@);
            if created is Ok {
                split_keeps_consistent(self@, created->Ok_0, direction);
            }
        }
        let new_id = PaneId::new(self.next_id);
        self.next_id = self.next_id + 1;
        let pane = match created {
            Ok(pane) => pane,
            Err(error) => {
                return Err(SplitError::Terminal(error));
            },
        };
        self.panes.insert(new_id.0, pane);
        if !self.layout.split(self.active_pane, new_id, direction) {
            // Should never happen, but handle gracefully.
            self.panes.remove(&new_id.0);
            assert(self@.panes =~= old(self)@.panes.remove(new_id.0));
            return Err(SplitError::ActiveNotInLayout);
        }
        // A zoomed pane is split in the layout to go back to as well.
        if let Some(saved) = &mut self.saved_layout {
            saved.split(self.active_pane, new_id, direction);
        }
        self.recompute_bounds();
        Ok(new_id)
    }

    /// The pane whose program has to be told to shut down before `target` is
    /// closed: none while the layout has a single pane.
    pub fn pane_to_shut_down(&self, target: PaneId) -> (r: Option<&P>)
        ensures
            r is Some <==> self@.layout.ids().len() > 1 && self@.panes.contains_key(target.0),
            r matches Some(pane) ==> *pane == self@.panes[target.0],
    {
        if self.layout.count() <= 1 {
            None
        } else {
            self.panes.get(&target.0)
        }
    }

    /// Close a pane by ID.
    pub fn close_pane(&mut self, target: PaneId) -> (r: bool)
        requires
            old(self).wf(),
        ensures
            final(self).wf(),
            final(self)@ == old(self)@.after_close(target),
            r == old(self)@.can_close(target),
    {
        proof {
            close_keeps_consistent(self@, target);
        }
        if self.layout.count() <= 1 {
            return false;  // Can't close the last pane
        }
        if !self.layout.close(target) {
            return false;
        }
        self.panes.remove(&target.0);
        // The layout that a zoomed window goes back to loses the pane as well.
        if let Some(saved) = &mut self.saved_layout {
            saved.close(target);
        }
        // Focus the first available pane.
        let ids = self.layout.pane_ids();
        proof {
            lemma_ids_not_empty(self.layout);
        }
        if ids.len() > 0 {
            self.active_pane = ids[0];
        }
        self.recompute_bounds();
        true
    }

    /// Whether closing the active pane does anything: it is not the only one.
    fn closes_active(&self) -> (r: bool)
        ensures
            r == self@.can_close_active(),
    {
        if closes_in(&self.layout, self.active_pane) {
            return true;
        }
        match &self.saved_layout {
            Some(saved) => closes_in(saved, self.active_pane),
            None => false,
        }
    }

    /// The pane whose program has to be told to shut down before the active pane
    /// is closed: none where nothing will be closed.
    pub fn active_to_shut_down(&self) -> (r: Option<&P>)
        ensures
            r is Some <==> self@.can_close_active() && self@.panes.contains_key(self@.active.0),
            r matches Some(pane) ==> *pane == self@.panes[self@.active.0],
    {
        if self.closes_active() {
            self.panes.get(&self.active_pane.0)
        } else {
            None
        }
    }

    /// Close the active pane. A window that is zoomed to it is restored first.
    pub fn close_active(&mut self) -> (r: bool)
        requires
            old(self).wf(),
        ensures
            final(self).wf(),
            final(self)@ == old(self)@.after_close_active(),
            r == old(self)@.can_close_active(),
            r == (old(self)@.panes.len() > 1),
            !r ==> *final(self) == *old(self),
    {
        proof {
            several_panes_close(self@);
        }
        let target = self.active_pane;
        if !self.closes_active() {
            return false;
        }
        if closes_in(&self.layout, target) {
            return self.close_pane(target);
        }
        self.toggle_zoom();
        self.close_pane(target)
    }

    /// Queue a focus switch during event processing.
    pub fn request_focus(&mut self, target: PaneId) -> (r: bool)
        requires
            old(self).wf(),
        ensures
            final(self).wf(),
            final(self)@ == old(self)@.after_request(target),
            r == old(self)@.panes.contains_key(target.0),
    {
        proof {
            focus_keeps_consistent(self@, target);
        }
        if !self.panes.contains_key(&target.0) {
            return false;
        }
        self.pending_focus = Some(target);
        true
    }

    /// Get the queued focus target, if any.
    pub fn pending_focus(&self) -> (r: Option<PaneId>)
        ensures
            r == self@.pending,
    {
        self.pending_focus
    }

    /// Apply a queued focus switch.
    pub fn apply_pending_focus(&mut self) -> (r: bool)
        requires
            old(self).wf(),
        ensures
            final(self).wf(),
            final(self)@ == old(self)@.after_apply(),
            r == old(self)@.can_apply(),
    {
        proof {
            focus_keeps_consistent(self@, self@.active);
        }
        let target = match self.pending_focus.take() {
            Some(target) => target,
            None => {
                return false;
            },
        };
        if !self.panes.contains_key(&target.0) {
            return false;
        }
        self.active_pane = target;
        true
    }

    /// Navigate focus in a direction.
    pub fn navigate_focus(&mut self, direction: SplitDirection) -> (r: bool)
        requires
            old(self).wf(),
        ensures
            final(self).wf(),
            match old(self)@.layout.neighbor(old(self)@.active, direction) {
                Some(next) => {
                    &&& final(self)@ == old(self)@.after_request(next)
                    &&& r == old(self)@.panes.contains_key(next.0)
                },
                None => final(self)@ == old(self)@ && !r,
            },
    {
        match self.layout.navigate(self.active_pane, direction) {
            Some(next) => self.request_focus(next),
            None => false,
        }
    }

    /// The smallest ratio of a split of the given direction. It is NaN where the
    /// size of the window gives none, and then no pane can be resized.
    pub fn min_ratio(&self, direction: SplitDirection) -> (r: Binary32)
        ensures
            r == self@.min_ratio(direction),
    {
        let window_span = match direction {
            SplitDirection::Vertical => self.window_bounds.width.minus(self.border_width),
            SplitDirection::Horizontal => self.window_bounds.height.minus(self.border_width),
        };
        let dim = match direction {
            SplitDirection::Vertical => self.min_pane_px.0,
            SplitDirection::Horizontal => self.min_pane_px.1,
        };
        proof {
            lemma_limits();
        }
        dim.over(window_span).clamp(Binary32 { bits: TWENTIETH }, Binary32 { bits: HALF })
    }

    /// Check a resize before it is made: where there is a split to adjust, it
    /// needs a smallest ratio.
    pub fn resize_has_limits(&self, target: PaneId, direction: SplitDirection) -> (r: bool)
        ensures
            r == (self@.layout.has_split_around(target, direction) ==> !self@.min_ratio(
                direction,
            ).is_nan()),
    {
        let min_ratio = self.min_ratio(direction);
        min_ratio.le(min_ratio) || !self.layout.can_resize(target, direction)
    }

    /// Resize a pane border.
    pub fn resize_pane(
        &mut self,
        target: PaneId,
        direction: SplitDirection,
        amount: Binary32,
    ) -> (r: bool)
        requires
            old(self).wf(),
            old(self)@.layout.has_split_around(target, direction) ==> !old(self)@.min_ratio(
                direction,
            ).is_nan(),
        ensures
            final(self).wf(),
            final(self)@ == old(self)@.after_resize(target, direction, amount),
            r == old(self)@.layout.has_split_around(target, direction),
    {
        proof {
            lemma_limits();
        }
        let min_ratio = self.min_ratio(direction);
        proof {
            resize_keeps_consistent(self@, target, direction, amount);
            if !min_ratio.is_nan() {
                lemma_rest_of_one(min_ratio);
            }
        }
        let max_ratio = Binary32 { bits: ONE }.minus(min_ratio);
        let result = self.layout.resize(target, direction, amount, min_ratio, max_ratio);
        if result {
            self.recompute_bounds();
        }
        result
    }

    /// Check a drag before it is made: whether it moves a border, and whether
    /// the split that it would adjust has a smallest ratio.
    pub fn check_drag(
        &self,
        target: PaneId,
        direction: SplitDirection,
        px: Binary32,
        py: Binary32,
    ) -> (r: DragCheck)
        ensures
            r.moves == self@.dragged(target, direction, px, py) is Some,
            r.has_limits == self@.drag_has_limits(target, direction, px, py),
    {
        let pos = match direction {
            SplitDirection::Vertical => px,
            SplitDirection::Horizontal => py,
        };
        let dim = match direction {
            SplitDirection::Vertical => self.min_pane_px.0,
            SplitDirection::Horizontal => self.min_pane_px.1,
        };
        self.layout.check_drag(
            target,
            direction,
            pos,
            &self.window_bounds,
            self.border_width,
            dim,
        )
    }

    /// Resize by dragging a border to a pixel position.
    pub fn resize_drag(
        &mut self,
        target: PaneId,
        direction: SplitDirection,
        px: Binary32,
        py: Binary32,
    ) -> (r: bool)
        requires
            old(self).wf(),
            old(self)@.drag_has_limits(target, direction, px, py),
        ensures
            final(self).wf(),
            final(self)@ == old(self)@.after_drag(target, direction, px, py),
            r == (old(self)@.dragged(target, direction, px, py) is Some),
    {
        proof {
            drag_keeps_consistent(self@, target, direction, px, py);
        }
        let pos = match direction {
            SplitDirection::Vertical => px,
            SplitDirection::Horizontal => py,
        };
        let dim = match direction {
            SplitDirection::Vertical => self.min_pane_px.0,
            SplitDirection::Horizontal => self.min_pane_px.1,
        };
        let result = self.layout.resize_drag(
            target,
            direction,
            pos,
            &self.window_bounds,
            self.border_width,
            dim,
        );
        if result {
            self.recompute_bounds();
        }
        result
    }

    /// Toggle pane zoom (maximize/restore the active pane).
    pub fn toggle_zoom(&mut self)
        requires
            old(self).wf(),
        ensures
            final(self).wf(),
            final(self)@ == old(self)@.after_zoom(),
    {
        proof {
            zoom_keeps_consistent(self@);
        }
        match self.saved_layout.take() {
            Some(saved) => {
                // Restore the saved layout.
                self.layout = saved;
            },
            None => {
                // Save current layout and replace with just the active pane.
                let mut zoomed = PaneLayout::Leaf(self.active_pane);
                std::mem::swap(&mut zoomed, &mut self.layout);
                self.saved_layout = Some(zoomed);
            },
        }
        self.recompute_bounds();
    }

    /// Whether the active pane is currently zoomed.
    pub fn is_zoomed(&self) -> (r: bool)
        ensures
            r == self@.saved is Some,
    {
        self.saved_layout.is_some()
    }

    /// Update window size and recompute all pane bounds.
    pub fn update_window_size(&mut self, size: &SizeInfo)
        requires
            old(self).wf(),
        ensures
            final(self).wf(),
            final(self)@ == (ManagerState { window: whole_window(*size), ..old(self)@ }),
    {
        proof {
            new_size_keeps_consistent(self@, whole_window(*size));
        }
        self.window_bounds = size.window_bounds();
        self.recompute_bounds();
    }

    /// Get border width.
    pub fn border_width(&self) -> (r: Binary32)
        ensures
            r == self@.border,
    {
        self.border_width
    }

    /// Find pane at pixel coordinates.
    pub fn pane_at(&self, px: Binary32, py: Binary32) -> (r: Option<PaneId>)
        ensures
            r == first_hit(self@.layout.placed(self@.window, self@.border), px, py),
    {
        self.layout.pane_at(px, py, &self.window_bounds, self.border_width)
    }

    /// Find a draggable border at pixel coordinates.
    pub fn border_at(&self, px: Binary32, py: Binary32) -> (r: Option<(PaneId, SplitDirection)>)
        ensures
            r == self@.layout.border_near(px, py, self@.window, grab_width(self@.border)),
    {
        let two = Binary32 { bits: TWO };
        self.layout.border_at(px, py, &self.window_bounds, self.border_width.times(two))
    }

    /// Find all draggable borders at a pixel position (for corner detection).
    pub fn corners_at(&self, px: Binary32, py: Binary32) -> (r: Vec<(PaneId, SplitDirection)>)
        ensures
            r@ == self@.layout.corners(px, py, self@.window, grab_width(self@.border)),
    {
        let two = Binary32 { bits: TWO };
        self.layout.corners_at(px, py, &self.window_bounds, self.border_width.times(two))
    }

    /// Number of panes.
    pub fn len(&self) -> (r: usize)
        ensures
            r == self@.panes.len(),
    {
        self.panes.len()
    }

    /// Get the IDs of all panes, also of those that a zoomed one hides, each once
    /// and in no particular order.
    pub fn all_pane_ids(&self) -> (r: Vec<PaneId>)
        ensures
            r@.no_duplicates(),
            r@.len() == self@.panes.len(),
            forall|id: PaneId| #[trigger] r@.contains(id) <==> self@.panes.contains_key(id.0),
    {
        let keys = keys_of(&self.panes);
        let mut ids: Vec<PaneId> = Vec::new();
        let mut i: usize = 0;
        while i < keys.len()
            invariant
                i <= keys.len(),
                ids@ == Seq::new(i as nat, |k: int| PaneId(keys@[k])),
            decreases keys.len() - i,
        {
            ids.push(PaneId::new(keys[i]));
            i = i + 1;
        }
        proof {
            keys@.unique_seq_to_set();
            assert forall|id: PaneId| #[trigger] ids@.contains(id) <==> self@.panes.contains_key(
                id.0,
            ) by {
                if self@.panes.contains_key(id.0) {
                    assert(keys@.to_set().contains(id.0));
                    let k = keys@.index_of(id.0);
                    assert(ids@[k] == id);
                }
                if ids@.contains(id) {
                    let k = ids@.index_of(id);
                    assert(keys@.to_set().contains(keys@[k]));
                }
            }
        }
        ids
    }

    /// Get pane IDs in layout order.
    pub fn pane_ids(&self) -> (r: Vec<PaneId>)
        ensures
            r@ == self@.layout.ids(),
    {
        self.layout.pane_ids()
    }

    /// The new sizes of all pane terminals except the active one, each pane
    /// once and in no particular order.
    pub fn resize_terminals_except_active(&self, size: &SizeInfo) -> (r: Vec<
        (PaneId, TerminalResize),
    >)
        requires
            self.wf(),
        ensures
            self@.resized_terminals(r@, *size),
    {
        let keys = keys_of(&self.pane_bounds);
        let mut result: Vec<(PaneId, TerminalResize)> = Vec::new();
        let mut n: usize = 0;
        while n < keys.len()
            invariant
                self.wf(),
                n <= keys.len(),
                keys@.no_duplicates(),
                keys@.to_set() == self@.bounds().dom(),
                forall|i: int, j: int| 0 <= i < j < result@.len() ==> result@[i].0 != result@[j].0,
                forall|i: int|
                    0 <= i < result@.len() ==> self@.resizes(#[trigger] result@[i].0)
                        && result@[i].1 == fitted(self@.bounds()[result@[i].0.0], *size),
                forall|i: int|
                    0 <= i < result@.len() ==> keys@.take(n as int).contains(
                        (#[trigger] result@[i]).0.0,
                    ),
                forall|k: int|
                    0 <= k < n && self@.resizes(PaneId(#[trigger] keys@[k])) ==> exists|i: int|
                        0 <= i < result@.len() && #[trigger] result@[i].0 == PaneId(keys@[k]),
            decreases keys.len() - n,
        {
            let key: u64 = keys[n];
            let id = PaneId::new(key);
            let ghost before = result@;
            assert(keys@.to_set().contains(key));
            assert(keys@.take(n + 1) =~= keys@.take(n as int).push(key));
            assert(!keys@.take(n as int).contains(key));
            assert(forall|k: u64| #[trigger]
                keys@.take(n as int).contains(k) ==> keys@.take(n + 1).contains(k)) by {
                assert forall|k: u64| #[trigger] keys@.take(n as int).contains(k) implies keys@.take(
                    n + 1,
                ).contains(k) by {
                    let m = keys@.take(n as int).index_of(k);
                    assert(keys@.take(n + 1)[m] == k);
                }
            }
            assert(keys@.take(n + 1)[n as int] == key);
            if id != self.active_pane && self.panes.contains_key(&key) {
                if let Some(bounds) = self.pane_bounds.get(&key) {
                    result.push((id, fit_terminal(bounds, size)));
                    assert(result@ == before.push(result@.last()));
                }
            }
            assert forall|k: int|
                0 <= k < n + 1 && self@.resizes(PaneId(#[trigger] keys@[k])) implies exists|i: int|
                0 <= i < result@.len() && #[trigger] result@[i].0 == PaneId(keys@[k]) by {
                if k < n {
                    let i = choose|i: int|
                        0 <= i < before.len() && #[trigger] before[i].0 == PaneId(keys@[k]);
                    assert(result@[i].0 == PaneId(keys@[k]));
                } else {
                    assert(result@.last().0 == PaneId(keys@[k]));
                }
            }
            n = n + 1;
        }
        assert forall|id: PaneId| #[trigger] self@.resizes(id) implies exists|i: int|
            0 <= i < result@.len() && #[trigger] result@[i].0 == id by {
            assert(keys@.to_set().contains(id.0));
            let k = keys@.index_of(id.0);
            assert(PaneId(keys@[k]) == id);
        }
        result
    }

    /// The new size of the active pane's terminal, if the pane is in the layout.
    pub fn resize_active_terminal(&self, size: &SizeInfo) -> (r: Option<TerminalResize>)
        requires
            self.wf(),
        ensures
            r == (match lookup(self@.bounds(), self@.active) {
                Some(bounds) => Some(fitted(bounds, *size)),
                None => None,
            }),
    {
        match self.pane_bounds.get(&self.active_pane.0) {
            Some(bounds) => Some(fit_terminal(bounds, size)),
            None => None,
        }
    }

    /// Recompute all pane bounds from the layout tree.
    fn recompute_bounds(&mut self)
        ensures
            final(self).is_cached(),
            final(self)@ == old(self)@,
    {
        self.pane_bounds.clear();
        let entries = self.layout.compute_bounds(self.window_bounds, self.border_width);
        let mut i: usize = 0;
        while i < entries.len()
            invariant
                i <= entries.len(),
                entries@ == self@.layout.placed(self@.window, self@.border),
                self.pane_bounds@ == by_pane(entries@.take(i as int)),
                self@ == old(self)@,
            decreases entries.len() - i,
        {
            let (id, bounds) = entries[i];
            self.pane_bounds.insert(id.0, bounds);
            assert(entries@.take(i + 1).drop_last() =~= entries@.take(i as int));
            i = i + 1;
        }
        assert(entries@.take(i as int) =~= entries@);
    }
}

} // verus!
