//! What holds of a window across the steps of its event loop.
use crate::layout::PaneId;
use crate::manager_laws::{
    active_pane_exists, focus_keeps_consistent, new_content_keeps_consistent,
    placed_panes_have_bounds,
};
use crate::window_context::{with_session, FocusChange, Pane, WindowContext};
use vstd::prelude::*;

verus! {

impl<E, T, S> WindowContext<E, T, S> {
    /// The panes of the window are consistent.
    pub open spec fn consistent(&self) -> bool {
        self.pane_manager matches Some(pm) ==> pm@.consistent()
    }
}

/// Every window is consistent.
pub proof fn wf_window_is_consistent<E, T, S>(window: WindowContext<E, T, S>)
    requires
        window.wf(),
    ensures
        window.consistent(),
{
    if let Some(pm) = window.pane_manager {
        pm.wf_is_consistent();
    }
}

/// A consistent window has a terminal to show.
pub proof fn window_shows_terminal<E, T, S>(window: WindowContext<E, T, S>)
    requires
        window.consistent(),
    ensures
        window.has_active_pane(),
{
    if let Some(pm) = window.pane_manager {
        active_pane_exists(pm@);
    }
}

/// Settling the focus keeps a window consistent, and leaves no switch queued.
pub proof fn settling_keeps_consistent<E, T: Clone, S: Clone>(
    before: WindowContext<E, T, S>,
    after: WindowContext<E, T, S>,
    dirty: bool,
)
    requires
        before.consistent(),
        before.settled_after(&after, dirty),
    ensures
        after.consistent(),
        after.pane_manager matches Some(pm) ==> pm@.pending is None,
{
    if let Some(old_pm) = before.pane_manager {
        let new_pm = after.pane_manager->0;
        let state = old_pm@;
        active_pane_exists(state);
        let saved = new_pm@.panes[state.active.0].session;
        let pane = state.panes[state.active.0];
        new_content_keeps_consistent(
            state,
            state.active,
            Pane { terminal: pane.terminal, session: saved },
        );
        focus_keeps_consistent(with_session(state, state.active, saved), state.active);
    }
}

/// A settled window follows the terminal that it shows.
pub proof fn settled_window_follows<E, T: Clone, S: Clone>(
    before: WindowContext<E, T, S>,
    after: WindowContext<E, T, S>,
    dirty: bool,
)
    requires
        before.consistent(),
        before.settled_after(&after, dirty),
    ensures
        cloned(after.shown(), after.terminal),
{
    settling_keeps_consistent(before, after, dirty);
    window_shows_terminal(after);
}

/// Without a queued switch, settling the focus moves it nowhere.
pub proof fn settling_alone_keeps_focus<E, T: Clone, S: Clone>(
    before: WindowContext<E, T, S>,
    after: WindowContext<E, T, S>,
    dirty: bool,
)
    requires
        before.settled_after(&after, dirty),
        before.pane_manager matches Some(pm) ==> pm@.pending is None,
    ensures
        after.active_id() == before.active_id(),
        !after.focus_moved(before.change_to(&after)),
{
}

/// What the user was doing in a pane is there again when focus comes back to
/// it, whatever they did in another pane meanwhile: it was copied to the pane,
/// and from there to the window.
pub proof fn session_comes_back<E, T: Clone, S: Clone>(
    start: WindowContext<E, T, S>,
    away: WindowContext<E, T, S>,
    working: WindowContext<E, T, S>,
    back: WindowContext<E, T, S>,
    home: PaneId,
    other: PaneId,
    first_dirty: bool,
    second_dirty: bool,
)
    requires
        start.pane_manager is Some,
        start.pane_manager->0@.active == home,
        start.pane_manager->0@.pending == Some(other),
        start.pane_manager->0@.panes.contains_key(home.0),
        start.pane_manager->0@.panes.contains_key(other.0),
        home != other,
        start.settled_after(&away, first_dirty),
        working.pane_manager is Some,
        working.pane_manager->0@ == away.pane_manager->0@.after_request(home),
        working.settled_after(&back, second_dirty),
    ensures
        away.active_id() == Some(other),
        back.active_id() == Some(home),
        exists|saved: S| #[trigger]
            cloned(start.session, saved) && cloned(saved, back.session),
{
    let state = start.pane_manager->0@;
    let moved = away.pane_manager->0@;
    let saved = moved.panes[home.0].session;
    assert(cloned(start.session, saved));
    let again = back.pane_manager->0@;
    assert(again.panes[home.0] == moved.panes[home.0]);
    assert(cloned(saved, back.session));
}

/// Settling the focus gives it to the pane of a queued switch, where that pane
/// exists, and else leaves it. The session goes to the pane that was active, and
/// that of the pane that is active then comes from it. The mouse counts from where
/// the active pane begins, where it is shown. Terminals, layout and identifiers
/// stay as they are.
pub proof fn settling_moves_sessions<E, T: Clone, S: Clone>(
    before: WindowContext<E, T, S>,
    after: WindowContext<E, T, S>,
    dirty: bool,
)
    requires
        before.consistent(),
        before.settled_after(&after, dirty),
        before.pane_manager is Some,
    ensures
        after.pane_manager is Some,
        ({
            let (old_state, state) = (before.pane_manager->0@, after.pane_manager->0@);
            let (left, active) = (old_state.active, state.active);
            &&& active == match old_state.pending {
                Some(target) => if old_state.panes.contains_key(target.0) {
                    target
                } else {
                    left
                },
                None => left,
            }
            &&& state.pending is None
            &&& forall|key: u64| #[trigger]
                state.panes.contains_key(key) <==> old_state.panes.contains_key(key)
            &&& forall|key: u64| #[trigger]
                state.panes.contains_key(key) ==> state.panes[key].terminal
                    == old_state.panes[key].terminal
            &&& forall|key: u64| #[trigger]
                state.panes.contains_key(key) && key != left.0 ==> state.panes[key]
                    == old_state.panes[key]
            &&& cloned(before.session, state.panes[left.0].session)
            &&& cloned(state.panes[active.0].session, after.session)
            &&& cloned(state.panes[active.0].terminal, after.terminal)
            &&& state.layout.holds(active) ==> state.bounds().contains_key(active.0)
                && after.pane_origin == (
                state.bounds()[active.0].x,
                state.bounds()[active.0].y,
            )
            &&& !state.layout.holds(active) ==> after.pane_origin == before.pane_origin
            &&& state.layout == old_state.layout
            &&& state.saved == old_state.saved
            &&& state.next_id == old_state.next_id
            &&& state.window == old_state.window
            &&& state.border == old_state.border
            &&& state.min_extent == old_state.min_extent
        }),
{
    let (old_state, state) = (before.pane_manager->0@, after.pane_manager->0@);
    active_pane_exists(old_state);
    settling_keeps_consistent(before, after, dirty);
    active_pane_exists(state);
    placed_panes_have_bounds(state, state.active);
    let saved = state.panes[old_state.active.0].session;
    let pane = old_state.panes[old_state.active.0];
    assert(state.panes =~= old_state.panes.insert(
        old_state.active.0,
        Pane { terminal: pane.terminal, session: saved },
    ));
}

/// A window without panes of its own keeps its terminal and session.
pub proof fn settling_keeps_single_terminal<E, T: Clone, S: Clone>(
    before: WindowContext<E, T, S>,
    after: WindowContext<E, T, S>,
    dirty: bool,
)
    requires
        before.settled_after(&after, dirty),
        before.pane_manager is None,
    ensures
        after.pane_manager is None,
        after.terminal == before.terminal,
        after.session == before.session,
        after.pane_origin == before.pane_origin,
        after.shown() == before.shown(),
{
}

/// Settling the focus touches nothing that waits or that decides about drawing.
pub proof fn settling_keeps_the_rest<E, T: Clone, S: Clone>(
    before: WindowContext<E, T, S>,
    after: WindowContext<E, T, S>,
    dirty: bool,
)
    requires
        before.settled_after(&after, dirty),
    ensures
        after.dirty == dirty,
        after.event_queue == before.event_queue,
        after.cursor_blink_timed_out == before.cursor_blink_timed_out,
        after.occluded == before.occluded,
        after.preserve_title == before.preserve_title,
{
}

/// The window shows the terminal of its active pane, and its own where it has no
/// panes. Focus has moved where the active pane before and after are two different
/// ones.
pub proof fn window_shows_active_pane<E, T, S>(
    window: WindowContext<E, T, S>,
    change: FocusChange,
)
    requires
        window.consistent(),
    ensures
        window.pane_manager matches Some(pm) ==> window.active_id() == Some(pm@.active)
            && pm@.panes.contains_key(pm@.active.0) && window.shown()
            == pm@.panes[pm@.active.0].terminal,
        window.pane_manager is None ==> window.active_id() is None && window.shown()
            == window.terminal,
        window.focus_moved(change) <==> window.pane_manager is Some && change.old is Some
            && change.new is Some && change.old->0 != change.new->0,
{
    window_shows_terminal(window);
}

} // verus!
