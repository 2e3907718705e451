//! What holds of the panes of a window across all operations.
use crate::binary32::Binary32;
use crate::bounds::{inside, PaneBounds, SplitDirection};
use crate::config::PaneConfig;
use crate::layout::{first_hit, largest_ratio, lemma_ids_not_empty, PaneId, PaneLayout};
use crate::layout_laws::{
    close_adds_none, close_removes_target, close_undoes_split, drag_keeps_panes,
    every_pane_is_placed, hit_test_is_sound, navigation_crosses_splits, navigation_stays_inside,
    resize_keeps_panes, split_adds_new_only, split_inserts_behind,
};
use crate::manager::{by_pane, drag_position, lookup, ManagerState};
use crate::size::{SizeInfo, TerminalResize};
use vstd::prelude::*;

verus! {

/// A new window is consistent.
pub proof fn new_is_consistent<P>(pane: P, config: PaneConfig, size: SizeInfo)
    ensures
        ManagerState::initial(pane, config, size).consistent(),
{
    let state = ManagerState::initial(pane, config, size);
    assert(state.layout.ids() =~= seq![PaneId(0)]);
    assert(state.layout.ids()[0] == PaneId(0));
    assert forall|id: PaneId| #[trigger] state.full_layout().holds(id) <==> state.panes.contains_key(
        id.0,
    ) by {
        if id.0 == 0 {
            assert(id == PaneId(0));
        }
    }
}

/// A failed split uses up an identifier, and keeps a window consistent.
pub proof fn failed_split_keeps_consistent<P>(state: ManagerState<P>)
    requires
        state.consistent(),
        state.next_id < u64::MAX,
    ensures
        state.after_id().consistent(),
{
    let after = state.after_id();
    assert(after.full_layout() == state.full_layout());
}

/// A split keeps a window consistent, zoomed or not.
pub proof fn split_keeps_consistent<P>(state: ManagerState<P>, pane: P, direction: SplitDirection)
    requires
        state.consistent(),
        state.next_id < u64::MAX,
    ensures
        state.after_split(pane, direction).consistent(),
{
    let after = state.after_split(pane, direction);
    let new_pane = PaneId(state.next_id);
    new_pane_is_unknown(state);
    if state.layout.holds(state.active) {
        lemma_split_distinct(state.layout, state.active, new_pane, direction);
        lemma_split_distinct(state.full_layout(), state.active, new_pane, direction);
        assert(after.full_layout() == state.full_layout().with_split(
            state.active,
            new_pane,
            direction,
        ));
        assert forall|id: PaneId| #[trigger] after.full_layout().holds(id)
            <==> after.panes.contains_key(id.0) by {
            assert(state.full_layout().holds(id) <==> state.panes.contains_key(id.0));
            if id.0 == new_pane.0 {
                assert(id == new_pane);
            }
        }
        assert forall|id: PaneId| #[trigger] after.full_layout().holds(id) implies id.0
            < after.next_id by {
            if id != new_pane {
                assert(state.full_layout().holds(id));
            }
        }
        assert forall|id: PaneId| #[trigger] after.layout.holds(id) implies after.full_layout().holds(
            id,
        ) by {
            if id != new_pane {
                assert(state.layout.holds(id));
            }
        }
    } else {
        assert(after.full_layout() == state.full_layout());
        assert(after.panes =~= state.panes);
    }
}

/// The next identifier of a consistent window is not in use.
proof fn new_pane_is_unknown<P>(state: ManagerState<P>)
    requires
        state.consistent(),
    ensures
        !state.panes.contains_key(state.next_id),
        !state.full_layout().holds(PaneId(state.next_id)),
        !state.layout.holds(PaneId(state.next_id)),
{
    let new_pane = PaneId(state.next_id);
    if state.panes.contains_key(state.next_id) {
        assert(state.full_layout().holds(new_pane));
    }
    if state.layout.holds(new_pane) {
        assert(state.full_layout().holds(new_pane));
    }
}

/// A split of a layout without duplicates, off to a pane that is not in it.
proof fn lemma_split_distinct(
    layout: PaneLayout,
    target: PaneId,
    new_pane: PaneId,
    direction: SplitDirection,
)
    requires
        layout.ids().no_duplicates(),
        layout.holds(target),
        !layout.holds(new_pane),
    ensures
        ({
            let after = layout.with_split(target, new_pane, direction);
            &&& after.ids().no_duplicates()
            &&& after.ids().len() == layout.ids().len() + 1
            &&& forall|id: PaneId| #[trigger]
                after.holds(id) <==> layout.holds(id) || id == new_pane
        }),
{
    let ids = layout.ids();
    let after = layout.with_split(target, new_pane, direction);
    let i = ids.index_of(target);
    assert forall|j: int| 0 <= j < i implies ids[j] != target by {}
    split_inserts_behind(layout, target, new_pane, direction, i);
    lemma_insert_distinct(ids, i + 1, new_pane);
    assert forall|id: PaneId| #[trigger] after.holds(id) <==> layout.holds(id) || id
        == new_pane by {
        lemma_inserted(ids, i + 1, new_pane, id);
    }
}

proof fn lemma_inserted(ids: Seq<PaneId>, i: int, new_pane: PaneId, id: PaneId)
    requires
        0 <= i <= ids.len(),
    ensures
        ids.insert(i, new_pane).contains(id) <==> ids.contains(id) || id == new_pane,
{
    let now = ids.insert(i, new_pane);
    assert(now[i] == new_pane);
    if now.contains(id) {
        let k = choose|k: int| 0 <= k < now.len() && now[k] == id;
        if k < i {
            assert(ids[k] == id);
        } else if k > i {
            assert(ids[k - 1] == id);
        }
    }
    if ids.contains(id) {
        let k = choose|k: int| 0 <= k < ids.len() && ids[k] == id;
        if k < i {
            assert(now[k] == id);
        } else {
            assert(now[k + 1] == id);
        }
    }
}

proof fn lemma_insert_distinct(ids: Seq<PaneId>, i: int, new_pane: PaneId)
    requires
        0 <= i <= ids.len(),
        ids.no_duplicates(),
        !ids.contains(new_pane),
    ensures
        ids.insert(i, new_pane).no_duplicates(),
{
    let now = ids.insert(i, new_pane);
    assert forall|a: int, b: int| 0 <= a < now.len() && 0 <= b < now.len() && a != b implies now[a]
        != now[b] by {
        let x = if a < i { a } else { a - 1 };
        let y = if b < i { b } else { b - 1 };
        assert(a != i ==> now[a] == ids[x]);
        assert(b != i ==> now[b] == ids[y]);
    }
}

/// Closing a pane keeps a window consistent, zoomed or not.
pub proof fn close_keeps_consistent<P>(state: ManagerState<P>, target: PaneId)
    requires
        state.consistent(),
    ensures
        state.after_close(target).consistent(),
        state.can_close(target) ==> state.after_close(target).full_layout()
            == state.full_layout().without(target),
{
    if state.can_close(target) {
        let after = state.after_close(target);
        lemma_shown_is_part(state);
        assert(state.layout is Split);
        assert(state.full_layout() is Split);
        close_removes_target(state.layout, target);
        close_removes_target(state.full_layout(), target);
        assert(after.full_layout() == state.full_layout().without(target));
        lemma_ids_not_empty(after.layout);
        assert(after.layout.holds(after.layout.ids().first()));
        assert forall|id: PaneId| #[trigger] after.layout.holds(id) implies after.full_layout().holds(
            id,
        ) by {
            assert(state.layout.holds(id));
        }
        assert forall|id: PaneId| #[trigger] after.full_layout().holds(id)
            <==> after.panes.contains_key(id.0) by {
            assert(state.full_layout().holds(id) <==> state.panes.contains_key(id.0));
            if id.0 == target.0 {
                assert(id == target);
            }
        }
        assert forall|id: PaneId| #[trigger] after.full_layout().holds(id) implies id.0
            < after.next_id by {
            assert(state.full_layout().holds(id));
        }
    }
}

/// What a zoomed window shows is not more than what it has.
proof fn lemma_shown_is_part<P>(state: ManagerState<P>)
    requires
        state.consistent(),
    ensures
        state.layout.ids().len() > 1 ==> state.layout is Split && state.full_layout() is Split
            && state.full_layout().ids().len() > 1,
{
    let ids = state.layout.ids();
    if ids.len() > 1 {
        if state.layout is Leaf {
            assert(ids.len() == 1);
        }
        assert(state.layout.holds(ids[0]) && state.layout.holds(ids[1]));
        assert(ids[0] != ids[1]);
        assert(state.full_layout().holds(ids[0]) && state.full_layout().holds(ids[1]));
        if let PaneLayout::Leaf(id) = state.full_layout() {
            assert(state.full_layout().ids() =~= seq![id]);
        }
        let full = state.full_layout().ids();
        let (i, j) = (full.index_of(ids[0]), full.index_of(ids[1]));
        assert(full[i] != full[j]);
    }
}

/// Asking for focus, and giving it, keeps a window consistent.
pub proof fn focus_keeps_consistent<P>(state: ManagerState<P>, target: PaneId)
    requires
        state.consistent(),
    ensures
        state.after_request(target).consistent(),
        state.after_apply().consistent(),
{
    assert(state.after_request(target).full_layout() == state.full_layout());
    assert(state.after_apply().full_layout() == state.full_layout());
}

/// Zooming, and restoring, keeps a window consistent.
pub proof fn zoom_keeps_consistent<P>(state: ManagerState<P>)
    requires
        state.consistent(),
    ensures
        state.after_zoom().consistent(),
{
    let after = state.after_zoom();
    assert(after.full_layout() == state.full_layout());
    if state.saved is None {
        assert(after.layout.ids() =~= seq![state.active]);
    }
}

/// A resize keeps a window consistent.
pub proof fn resize_keeps_consistent<P>(
    state: ManagerState<P>,
    target: PaneId,
    direction: SplitDirection,
    amount: Binary32,
)
    requires
        state.consistent(),
    ensures
        state.after_resize(target, direction, amount).consistent(),
{
    let low = state.min_ratio(direction);
    resize_keeps_panes(state.layout, target, direction, amount, low, largest_ratio(low));
    lemma_same_panes(state, state.after_resize(target, direction, amount));
}

/// A drag keeps a window consistent.
pub proof fn drag_keeps_consistent<P>(
    state: ManagerState<P>,
    target: PaneId,
    direction: SplitDirection,
    px: Binary32,
    py: Binary32,
)
    requires
        state.consistent(),
    ensures
        state.after_drag(target, direction, px, py).consistent(),
{
    drag_keeps_panes(
        state.layout,
        target,
        direction,
        drag_position(direction, px, py),
        state.window,
        state.border,
        state.min_across(direction),
    );
    lemma_same_panes(state, state.after_drag(target, direction, px, py));
}

/// A layout with the same panes.
proof fn lemma_same_panes<P>(state: ManagerState<P>, after: ManagerState<P>)
    requires
        state.consistent(),
        after == (ManagerState { layout: after.layout, ..state }),
        after.layout.ids() == state.layout.ids(),
    ensures
        after.consistent(),
{
    assert(after.full_layout().ids() == state.full_layout().ids());
    assert forall|id: PaneId| #[trigger] after.full_layout().holds(id) <==> state.full_layout().holds(
        id,
    ) by {}
    assert forall|id: PaneId| #[trigger] after.layout.holds(id) implies after.full_layout().holds(
        id,
    ) by {
        assert(state.layout.holds(id));
    }
}

/// A change of the window's size keeps a window consistent.
pub proof fn new_size_keeps_consistent<P>(state: ManagerState<P>, window: PaneBounds)
    requires
        state.consistent(),
    ensures
        (ManagerState { window, ..state }).consistent(),
{
    assert((ManagerState { window, ..state }).full_layout() == state.full_layout());
}

/// Replacing what a pane consists of keeps a window consistent.
pub proof fn new_content_keeps_consistent<P>(state: ManagerState<P>, id: PaneId, pane: P)
    requires
        state.consistent(),
        state.panes.contains_key(id.0),
    ensures
        (ManagerState { panes: state.panes.insert(id.0, pane), ..state }).consistent(),
{
    let after = ManagerState { panes: state.panes.insert(id.0, pane), ..state };
    assert(after.full_layout() == state.full_layout());
    assert forall|other: PaneId| #[trigger] after.full_layout().holds(other)
        <==> after.panes.contains_key(other.0) by {
        assert(state.full_layout().holds(other) <==> state.panes.contains_key(other.0));
    }
}

/// The active pane of a consistent window exists.
pub proof fn active_pane_exists<P>(state: ManagerState<P>)
    requires
        state.consistent(),
    ensures
        state.panes.contains_key(state.active.0),
{
    assert(state.full_layout().holds(state.active));
}

/// A consistent window that is not zoomed can always be split, and the new pane
/// gets an identifier that no pane has.
pub proof fn split_succeeds<P>(state: ManagerState<P>, pane: P, direction: SplitDirection)
    requires
        state.consistent(),
        state.saved is None,
    ensures
        state.layout.holds(state.active),
        !state.panes.contains_key(state.next_id),
        !state.layout.holds(PaneId(state.next_id)),
        state.after_split(pane, direction).panes == state.panes.insert(state.next_id, pane),
{
    new_pane_is_unknown(state);
}

/// What is split off in a zoomed window is there after it is restored, and what
/// is closed in it is gone.
pub proof fn zoomed_changes_stay<P>(
    state: ManagerState<P>,
    pane: P,
    direction: SplitDirection,
    target: PaneId,
)
    requires
        state.consistent(),
        state.saved is Some,
    ensures
        state.layout.holds(state.active) ==> state.after_split(pane, direction).after_zoom().layout
            == state.after_zoom().layout.with_split(state.active, PaneId(state.next_id), direction),
        state.can_close(target) ==> state.after_close(target).after_zoom().layout
            == state.after_zoom().layout.without(target),
{
}

/// Closing a pane right after it was split off gives the layout and the panes
/// back, zoomed or not. Focus goes to the first pane that is shown.
pub proof fn close_undoes_split_of_window<P>(
    state: ManagerState<P>,
    pane: P,
    direction: SplitDirection,
)
    requires
        state.consistent(),
        state.layout.holds(state.active),
        state.next_id < u64::MAX,
    ensures
        state.after_split(pane, direction).can_close(PaneId(state.next_id)),
        state.after_split(pane, direction).after_close(PaneId(state.next_id)) == (ManagerState {
            active: state.layout.ids().first(),
            ..state.after_id()
        }),
{
    let new_pane = PaneId(state.next_id);
    new_pane_is_unknown(state);
    lemma_ids_not_empty(state.layout);
    lemma_split_distinct(state.layout, state.active, new_pane, direction);
    close_undoes_split(state.layout, state.active, new_pane, direction);
    close_undoes_split(state.full_layout(), state.active, new_pane, direction);
    assert(state.after_split(pane, direction).layout.holds(new_pane));
    assert(state.panes.insert(state.next_id, pane).remove(state.next_id) =~= state.panes);
}

/// The last pane of a window can not be closed.
pub proof fn last_pane_stays<P>(state: ManagerState<P>, target: PaneId)
    requires
        state.layout.ids().len() == 1,
    ensures
        !state.can_close(target),
        state.after_close(target) == state,
{
}

/// In a consistent window that is not zoomed, every pane but a last one can be
/// closed.
pub proof fn every_other_pane_closes<P>(state: ManagerState<P>, target: PaneId)
    requires
        state.consistent(),
        state.saved is None,
        state.layout.ids().len() > 1,
    ensures
        state.can_close(target) <==> state.panes.contains_key(target.0),
        state.can_close(target) ==> !state.after_close(target).layout.holds(target)
            && !state.after_close(target).panes.contains_key(target.0),
{
    assert(state.full_layout().holds(target) <==> state.panes.contains_key(target.0));
    if state.can_close(target) {
        if state.layout is Leaf {
            assert(state.layout.ids().len() == 1);
        }
        close_removes_target(state.layout, target);
    }
}

/// Zooming twice gives the window back.
pub proof fn zoom_undoes_zoom<P>(state: ManagerState<P>)
    requires
        state.saved is None,
    ensures
        state.after_zoom().after_zoom() == state,
{
}

/// A zoomed pane has the whole window.
pub proof fn zoom_fills_window<P>(state: ManagerState<P>)
    requires
        state.saved is None,
    ensures
        state.after_zoom().bounds() == Map::<u64, PaneBounds>::empty().insert(
            state.active.0,
            state.window,
        ),
{
    let placed = state.after_zoom().layout.placed(state.window, state.border);
    assert(placed =~= seq![(state.active, state.window)]);
    assert(placed.drop_last() =~= Seq::empty());
    reveal_with_fuel(by_pane, 2);
}

/// Focus that was asked for is given to a pane that exists, and no later switch
/// is left in the queue.
pub proof fn requested_focus_is_given<P>(state: ManagerState<P>, target: PaneId)
    requires
        state.panes.contains_key(target.0),
    ensures
        state.after_request(target).can_apply(),
        state.after_request(target).after_apply() == (ManagerState {
            active: target,
            pending: None,
            ..state
        }),
{
}

/// A queued switch to a pane that is closed before is dropped.
pub proof fn focus_skips_closed_pane<P>(state: ManagerState<P>, target: PaneId)
    requires
        state.can_close(target),
        state.pending == Some(target),
    ensures
        !state.after_close(target).can_apply(),
        state.after_close(target).after_apply().active == state.after_close(target).active,
{
}

/// In a consistent window that is not zoomed, navigation always asks for focus
/// for a pane that exists; it is another one exactly where a split of that
/// direction is around the active pane.
pub proof fn navigation_finds_pane<P>(state: ManagerState<P>, direction: SplitDirection)
    requires
        state.consistent(),
        state.saved is None,
    ensures
        ({
            let next = state.layout.neighbor(state.active, direction);
            &&& next is Some
            &&& state.panes.contains_key((next->0).0)
            &&& next == Some(state.active) <==> !state.layout.has_split_around(
                state.active,
                direction,
            )
        }),
{
    navigation_stays_inside(state.layout, state.active, direction);
    navigation_crosses_splits(state.layout, state.active, direction);
    let next = state.layout.neighbor(state.active, direction)->0;
    assert(state.full_layout().holds(next));
}

/// Closing the active pane keeps a window consistent.
pub proof fn close_active_keeps_consistent<P>(state: ManagerState<P>)
    requires
        state.consistent(),
    ensures
        state.after_close_active().consistent(),
{
    zoom_keeps_consistent(state);
    close_keeps_consistent(state.before_close(), state.active);
}

/// In a consistent window the active pane can be closed exactly where there is
/// more than one. It is gone then, from the panes and from the layout, and no
/// other pane is.
pub proof fn several_panes_close<P>(state: ManagerState<P>)
    requires
        state.consistent(),
    ensures
        state.can_close_active() <==> state.panes.len() > 1,
        state.can_close_active() ==> {
            let after = state.after_close_active();
            &&& after.full_layout() == state.full_layout().without(state.active)
            &&& !after.full_layout().holds(state.active)
            &&& after.panes == state.panes.remove(state.active.0)
            &&& after.panes.len() == state.panes.len() - 1
            &&& after.panes.contains_key(after.active.0)
        },
{
    let shown = state.before_close();
    panes_are_counted(state);
    zoom_keeps_consistent(state);
    lemma_shown_is_part(shown);
    assert(shown.full_layout() == state.full_layout());
    if shown.saved is Some {
        assert(state.can_close(state.active));
        lemma_shown_is_part(state);
    }
    if state.can_close_active() {
        let after = state.after_close_active();
        close_keeps_consistent(shown, state.active);
        close_removes_target(state.full_layout(), state.active);
        active_pane_exists(after);
        panes_are_counted(after);
    }
}

/// Of a drag only the coordinate across the border counts: with the same one
/// there, two drags do the same. Where a drag moves no border nothing changes.
pub proof fn drag_ignores_other_coordinate<P>(
    state: ManagerState<P>,
    target: PaneId,
    direction: SplitDirection,
    px: Binary32,
    py: Binary32,
    qx: Binary32,
    qy: Binary32,
)
    requires
        direction == SplitDirection::Vertical ==> px == qx,
        direction == SplitDirection::Horizontal ==> py == qy,
    ensures
        state.dragged(target, direction, px, py) == state.dragged(target, direction, qx, qy),
        state.drag_has_limits(target, direction, px, py) == state.drag_has_limits(
            target,
            direction,
            qx,
            qy,
        ),
        state.after_drag(target, direction, px, py) == state.after_drag(target, direction, qx, qy),
        state.after_drag(target, direction, px, py).bounds() == state.after_drag(
            target,
            direction,
            qx,
            qy,
        ).bounds(),
        state.dragged(target, direction, px, py) is None ==> state.after_drag(
            target,
            direction,
            px,
            py,
        ) == state,
{
}

/// What can happen to the panes of a window.
pub enum Operation<P> {
    FailedSplit,
    Split(P, SplitDirection),
    Close(PaneId),
    CloseActive,
    RequestFocus(PaneId),
    ApplyFocus,
    Zoom,
    Resize(PaneId, SplitDirection, Binary32),
    Drag(PaneId, SplitDirection, Binary32, Binary32),
    NewSize(PaneBounds),
    NewContent(PaneId, P),
}

impl<P> Operation<P> {
    /// Whether the operation uses up an identifier.
    pub open spec fn uses_identifier(self) -> bool {
        self is FailedSplit || self is Split
    }
}

impl<P> ManagerState<P> {
    /// The operation was carried out.
    pub open spec fn after(self, operation: Operation<P>) -> Self {
        match operation {
            Operation::FailedSplit => self.after_id(),
            Operation::Split(pane, direction) => self.after_split(pane, direction),
            Operation::Close(target) => self.after_close(target),
            Operation::CloseActive => self.after_close_active(),
            Operation::RequestFocus(target) => self.after_request(target),
            Operation::ApplyFocus => self.after_apply(),
            Operation::Zoom => self.after_zoom(),
            Operation::Resize(target, direction, amount) => self.after_resize(
                target,
                direction,
                amount,
            ),
            Operation::Drag(target, direction, px, py) => self.after_drag(
                target,
                direction,
                px,
                py,
            ),
            Operation::NewSize(window) => ManagerState { window, ..self },
            Operation::NewContent(id, pane) => if self.panes.contains_key(id.0) {
                ManagerState { panes: self.panes.insert(id.0, pane), ..self }
            } else {
                self
            },
        }
    }

    /// Whether an identifier is left, where the operation uses one up.
    pub open spec fn permits(self, operation: Operation<P>) -> bool {
        operation.uses_identifier() ==> self.next_id < u64::MAX
    }

    /// The operations were carried out one after the other.
    pub open spec fn run(self, operations: Seq<Operation<P>>) -> Self
        decreases operations.len(),
    {
        if operations.len() == 0 {
            self
        } else {
            self.run(operations.drop_last()).after(operations.last())
        }
    }

    /// Whether each of them is permitted when its turn comes.
    pub open spec fn permits_run(self, operations: Seq<Operation<P>>) -> bool {
        forall|i: int|
            0 <= i < operations.len() ==> #[trigger] self.run(operations.take(i)).permits(
                operations[i],
            )
    }

    /// Every pane, wherever it is mentioned, has an identifier that is used up.
    pub open spec fn numbered(self) -> bool {
        &&& self.active.0 < self.next_id
        &&& forall|k: u64| #[trigger] self.panes.contains_key(k) ==> k < self.next_id
        &&& forall|id: PaneId| #[trigger] self.layout.holds(id) ==> id.0 < self.next_id
        &&& self.saved matches Some(layout) ==> forall|id: PaneId| #[trigger]
            layout.holds(id) ==> id.0 < self.next_id
    }
}

/// The panes of a new window are numbered.
pub proof fn new_is_numbered<P>(pane: P, config: PaneConfig, size: SizeInfo)
    ensures
        ManagerState::initial(pane, config, size).numbered(),
{
    let state = ManagerState::initial(pane, config, size);
    assert(state.layout.ids() =~= seq![PaneId(0)]);
}

/// Every operation keeps the panes numbered, in every window, and gives no
/// identifier back.
pub proof fn operation_keeps_numbered<P>(state: ManagerState<P>, operation: Operation<P>)
    requires
        state.numbered(),
        state.permits(operation),
    ensures
        state.after(operation).numbered(),
        state.after(operation).next_id == state.next_id + if operation.uses_identifier() {
            1int
        } else {
            0
        },
{
    let after = state.after(operation);
    match operation {
        Operation::Split(_, direction) => {
            let new_pane = PaneId(state.next_id);
            assert forall|id: PaneId| #[trigger] after.layout.holds(id) implies id.0
                < after.next_id by {
                if state.layout.holds(state.active) {
                    split_adds_new_only(state.layout, state.active, new_pane, direction, id);
                }
            }
            if let Some(layout) = after.saved {
                assert forall|id: PaneId| #[trigger] layout.holds(id) implies id.0
                    < after.next_id by {
                    if state.layout.holds(state.active) {
                        split_adds_new_only(
                            state.saved->0,
                            state.active,
                            new_pane,
                            direction,
                            id,
                        );
                    }
                }
            }
        },
        Operation::Close(target) => {
            lemma_close_keeps_numbered(state, target);
        },
        Operation::CloseActive => {
            assert(state.after_zoom().numbered()) by {
                lemma_zoom_keeps_numbered(state);
            }
            lemma_close_keeps_numbered(state.before_close(), state.active);
        },
        Operation::Zoom => {
            lemma_zoom_keeps_numbered(state);
        },
        Operation::Resize(target, direction, amount) => {
            let low = state.min_ratio(direction);
            resize_keeps_panes(state.layout, target, direction, amount, low, largest_ratio(low));
            assert forall|id: PaneId| #[trigger] after.layout.holds(id) implies id.0
                < after.next_id by {
                assert(state.layout.holds(id));
            }
        },
        Operation::Drag(target, direction, px, py) => {
            drag_keeps_panes(
                state.layout,
                target,
                direction,
                drag_position(direction, px, py),
                state.window,
                state.border,
                state.min_across(direction),
            );
            assert forall|id: PaneId| #[trigger] after.layout.holds(id) implies id.0
                < after.next_id by {
                assert(state.layout.holds(id));
            }
        },
        _ => {},
    }
}

proof fn lemma_zoom_keeps_numbered<P>(state: ManagerState<P>)
    requires
        state.numbered(),
    ensures
        state.after_zoom().numbered(),
{
    if state.saved is None {
        assert(state.after_zoom().layout.ids() =~= seq![state.active]);
    }
}

proof fn lemma_close_keeps_numbered<P>(state: ManagerState<P>, target: PaneId)
    requires
        state.numbered(),
    ensures
        state.after_close(target).numbered(),
{
    if state.can_close(target) {
        let after = state.after_close(target);
        assert forall|id: PaneId| #[trigger] after.layout.holds(id) implies id.0 < after.next_id by {
            close_adds_none(state.layout, target, id);
        }
        if let Some(layout) = after.saved {
            assert forall|id: PaneId| #[trigger] layout.holds(id) implies id.0 < after.next_id by {
                close_adds_none(state.saved->0, target, id);
            }
        }
        lemma_ids_not_empty(after.layout);
        assert(after.layout.holds(after.layout.ids().first()));
    }
}

/// However a window came about, its panes are numbered.
pub proof fn every_window_is_numbered<P>(
    pane: P,
    config: PaneConfig,
    size: SizeInfo,
    operations: Seq<Operation<P>>,
)
    requires
        ManagerState::initial(pane, config, size).permits_run(operations),
    ensures
        ManagerState::initial(pane, config, size).run(operations).numbered(),
{
    let state = ManagerState::initial(pane, config, size);
    new_is_numbered(pane, config, size);
    lemma_run_keeps_numbered(state, operations);
}

/// Every operation keeps a window consistent.
pub proof fn operation_keeps_consistent<P>(state: ManagerState<P>, operation: Operation<P>)
    requires
        state.consistent(),
        state.permits(operation),
    ensures
        state.after(operation).consistent(),
{
    match operation {
        Operation::FailedSplit => failed_split_keeps_consistent(state),
        Operation::Split(pane, direction) => split_keeps_consistent(state, pane, direction),
        Operation::Close(target) => close_keeps_consistent(state, target),
        Operation::CloseActive => close_active_keeps_consistent(state),
        Operation::RequestFocus(target) => focus_keeps_consistent(state, target),
        Operation::ApplyFocus => focus_keeps_consistent(state, state.active),
        Operation::Zoom => zoom_keeps_consistent(state),
        Operation::Resize(target, direction, amount) => {
            resize_keeps_consistent(state, target, direction, amount)
        },
        Operation::Drag(target, direction, px, py) => {
            drag_keeps_consistent(state, target, direction, px, py)
        },
        Operation::NewSize(window) => new_size_keeps_consistent(state, window),
        Operation::NewContent(id, pane) => {
            if state.panes.contains_key(id.0) {
                new_content_keeps_consistent(state, id, pane);
            }
        },
    }
}

/// However a window came about, it is consistent, and its active pane can be
/// closed unless it is the only one.
pub proof fn every_window_is_consistent<P>(
    pane: P,
    config: PaneConfig,
    size: SizeInfo,
    operations: Seq<Operation<P>>,
)
    requires
        ManagerState::initial(pane, config, size).permits_run(operations),
    ensures
        ManagerState::initial(pane, config, size).run(operations).consistent(),
        !ManagerState::initial(pane, config, size).run(operations).can_close_active()
            ==> ManagerState::initial(pane, config, size).run(operations).panes.len() <= 1,
{
    let state = ManagerState::initial(pane, config, size);
    new_is_consistent(pane, config, size);
    lemma_run_keeps_consistent(state, operations);
    several_panes_close(state.run(operations));
}

proof fn lemma_run_keeps_consistent<P>(state: ManagerState<P>, operations: Seq<Operation<P>>)
    requires
        state.consistent(),
        state.permits_run(operations),
    ensures
        state.run(operations).consistent(),
    decreases operations.len(),
{
    if operations.len() > 0 {
        let rest = operations.drop_last();
        let n = operations.len() - 1;
        lemma_run_permits_part(state, operations, n);
        assert(operations.take(n) =~= rest);
        lemma_run_keeps_consistent(state, rest);
        assert(state.run(operations.take(n)).permits(operations[n]));
        operation_keeps_consistent(state.run(rest), operations.last());
    }
}

proof fn lemma_run_keeps_numbered<P>(state: ManagerState<P>, operations: Seq<Operation<P>>)
    requires
        state.numbered(),
        state.permits_run(operations),
    ensures
        state.run(operations).numbered(),
        state.run(operations).next_id >= state.next_id,
    decreases operations.len(),
{
    if operations.len() > 0 {
        let rest = operations.drop_last();
        let n = operations.len() - 1;
        lemma_run_permits_part(state, operations, n);
        assert(operations.take(n) =~= rest);
        lemma_run_keeps_numbered(state, rest);
        assert(state.run(operations.take(n)).permits(operations[n]));
        operation_keeps_numbered(state.run(rest), operations.last());
    }
}

proof fn lemma_run_permits_part<P>(state: ManagerState<P>, operations: Seq<Operation<P>>, n: int)
    requires
        0 <= n <= operations.len(),
        state.permits_run(operations),
    ensures
        state.permits_run(operations.take(n)),
{
    let part = operations.take(n);
    assert forall|i: int| 0 <= i < part.len() implies #[trigger] state.run(part.take(i)).permits(
        part[i],
    ) by {
        assert(part.take(i) =~= operations.take(i));
        assert(state.run(operations.take(i)).permits(operations[i]));
    }
}

/// Identifiers are never given twice: whatever happens in between, a later
/// split gets a larger one than an earlier split has used up, failed or not.
pub proof fn identifiers_are_not_reused<P>(
    state: ManagerState<P>,
    operations: Seq<Operation<P>>,
    i: int,
    j: int,
)
    requires
        state.numbered(),
        state.permits_run(operations),
        0 <= i < j < operations.len(),
        operations[i].uses_identifier(),
    ensures
        state.run(operations.take(i)).next_id < state.run(operations.take(j)).next_id,
    decreases j,
{
    let before = operations.take(j - 1);
    assert(operations.take(j).drop_last() =~= before);
    assert(operations.take(j).last() == operations[j - 1]);
    lemma_run_permits_part(state, operations, j - 1);
    lemma_run_keeps_numbered(state, before);
    assert(state.run(before).permits(operations[j - 1]));
    operation_keeps_numbered(state.run(before), operations[j - 1]);
    if i < j - 1 {
        identifiers_are_not_reused(state, operations, i, j - 1);
    }
}

/// The identifier that a new pane gets is not in use.
pub proof fn new_identifier_is_unused<P>(state: ManagerState<P>)
    requires
        state.numbered(),
    ensures
        !state.panes.contains_key(state.next_id),
        !state.layout.holds(PaneId(state.next_id)),
        state.saved matches Some(layout) ==> !layout.holds(PaneId(state.next_id)),
{
}

/// A split whose terminal could not be created changes nothing but the next
/// identifier: not the panes, their places, the focus or the zoom.
pub proof fn failed_split_uses_identifier_only<P>(state: ManagerState<P>)
    ensures
        state.after_id().panes == state.panes,
        state.after_id().layout == state.layout,
        state.after_id().bounds() == state.bounds(),
        state.after_id().active == state.active,
        state.after_id().pending == state.pending,
        state.after_id().saved == state.saved,
{
}

/// A split that is refused, since the active pane is not in the layout, changes
/// no more than one that failed.
pub proof fn refused_split_uses_identifier_only<P>(
    state: ManagerState<P>,
    pane: P,
    direction: SplitDirection,
)
    requires
        state.numbered(),
        !state.layout.holds(state.active),
    ensures
        state.after_split(pane, direction) == state.after_id(),
{
    new_identifier_is_unused(state);
    assert(state.panes.remove(state.next_id) =~= state.panes);
}

/// A pane has bounds where it is placed, and these are of one of its places.
pub proof fn lemma_by_pane(placed: Seq<(PaneId, PaneBounds)>, id: PaneId)
    ensures
        by_pane(placed).contains_key(id.0) <==> exists|i: int|
            0 <= i < placed.len() && (#[trigger] placed[i]).0 == id,
        by_pane(placed).contains_key(id.0) ==> exists|i: int|
            0 <= i < placed.len() && #[trigger] placed[i] == (id, by_pane(placed)[id.0]),
    decreases placed.len(),
{
    if placed.len() > 0 {
        let rest = placed.drop_last();
        let n = placed.len() - 1;
        lemma_by_pane(rest, id);
        if placed[n].0.0 == id.0 {
            assert(placed[n] == (id, by_pane(placed)[id.0]));
        } else if by_pane(rest).contains_key(id.0) {
            let i = choose|i: int|
                0 <= i < rest.len() && #[trigger] rest[i] == (id, by_pane(rest)[id.0]);
            assert(placed[i] == (id, by_pane(placed)[id.0]));
        } else {
            assert forall|i: int| 0 <= i < placed.len() implies (#[trigger] placed[i]).0 != id by {
                if i < n {
                    assert(placed[i] == rest[i]);
                }
            }
        }
    }
}

/// The panes of the layout are those that have bounds.
pub proof fn placed_panes_have_bounds<P>(state: ManagerState<P>, id: PaneId)
    ensures
        state.bounds().contains_key(id.0) <==> state.layout.holds(id),
{
    let placed = state.layout.placed(state.window, state.border);
    lemma_by_pane(placed, id);
    every_pane_is_placed(state.layout, state.window, state.border);
    if state.layout.holds(id) {
        let i = state.layout.ids().index_of(id);
        assert(placed[i].0 == id);
    }
    if state.bounds().contains_key(id.0) {
        let i = choose|i: int| 0 <= i < placed.len() && (#[trigger] placed[i]).0 == id;
        assert(state.layout.ids()[i] == id);
    }
}

/// The pane that is found at a point is one whose bounds contain the point.
pub proof fn found_pane_contains_point<P>(state: ManagerState<P>, px: Binary32, py: Binary32)
    requires
        state.consistent(),
    ensures
        first_hit(state.layout.placed(state.window, state.border), px, py) matches Some(id) ==> {
            &&& state.bounds().contains_key(id.0)
            &&& inside(state.bounds()[id.0], px, py)
            &&& state.panes.contains_key(id.0)
        },
{
    let placed = state.layout.placed(state.window, state.border);
    hit_test_is_sound(placed, px, py);
    every_pane_is_placed(state.layout, state.window, state.border);
    if let Some(id) = first_hit(placed, px, py) {
        let i = choose|i: int|
            0 <= i < placed.len() && (#[trigger] placed[i]).0 == id && inside(placed[i].1, px, py);
        assert(state.layout.ids()[i] == id);
        lemma_by_pane(placed, id);
        let j = choose|j: int|
            0 <= j < placed.len() && #[trigger] placed[j] == (id, by_pane(placed)[id.0]);
        assert(state.layout.ids()[j] == id);
        assert(state.layout.ids().no_duplicates());
        assert(i == j);
        placed_pane_exists(state, id);
    }
}

/// Every placed pane of a consistent window exists.
pub proof fn placed_pane_exists<P>(state: ManagerState<P>, id: PaneId)
    requires
        state.consistent(),
        state.layout.holds(id),
    ensures
        state.panes.contains_key(id.0),
{
    assert(state.full_layout().holds(id));
}

/// When a consistent window changes its size, the terminal of every placed pane
/// does: the active one, and all others once.
pub proof fn every_placed_terminal_resizes<P>(
    state: ManagerState<P>,
    list: Seq<(PaneId, TerminalResize)>,
    size: SizeInfo,
    id: PaneId,
)
    requires
        state.consistent(),
        state.resized_terminals(list, size),
        state.layout.holds(id),
    ensures
        id == state.active ==> lookup(state.bounds(), id) is Some,
        id != state.active ==> exists|i: int| 0 <= i < list.len() && #[trigger] list[i].0 == id,
{
    placed_panes_have_bounds(state, id);
    placed_pane_exists(state, id);
    if id != state.active {
        assert(state.resizes(id));
    }
}

/// The number of panes is the number of places in the layout.
pub proof fn panes_are_counted<P>(state: ManagerState<P>)
    requires
        state.consistent(),
    ensures
        state.panes.len() == state.full_layout().ids().len(),
{
    let ids = state.full_layout().ids();
    let keys = ids.map_values(|id: PaneId| id.0);
    assert(keys.no_duplicates()) by {
        assert forall|a: int, b: int|
            0 <= a < keys.len() && 0 <= b < keys.len() && a != b implies keys[a] != keys[b] by {
            assert(ids[a] != ids[b]);
        }
    }
    keys.unique_seq_to_set();
    assert(keys.to_set() =~= state.panes.dom()) by {
        assert forall|k: u64| #[trigger] keys.to_set().contains(k) <==> state.panes.dom().contains(
            k,
        ) by {
            assert(state.full_layout().holds(PaneId(k)) <==> state.panes.contains_key(PaneId(k).0));
            if ids.contains(PaneId(k)) {
                let i = ids.index_of(PaneId(k));
                assert(keys[i] == k);
            }
            if keys.contains(k) {
                let i = keys.index_of(k);
                assert(ids[i] == PaneId(k));
            }
        }
    }
}

} // verus!
