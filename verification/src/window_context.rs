//! What one window decides: which terminal it shows, what it keeps for each
//! pane, and when it has to be redrawn.
use crate::binary32::Binary32;
use crate::config_update::{config_update, plan_config_update, ConfigChange, ConfigUpdate};
use crate::cursor::{blink_plan, plan_blink, BlinkPlan, CursorState};
use crate::layout::PaneId;
use crate::manager::{lookup, ManagerState, PaneManager};
use crate::manager_laws::several_panes_close;
use crate::ref_test::{config_text, recorded_config, recorded_size, size_text, RecordedFile};
use crate::size::{fitted, whole_window, SizeInfo, TerminalResize};
use vstd::prelude::*;

verus! {

/// A single terminal pane within a window.
pub struct Pane<T, S> {
    /// The terminal, and the program in it.
    pub terminal: T,
    /// What the user was doing in the pane: searches, suggestions, history.
    pub session: S,
}

/// Event context for one individual window. `E` is an event, `T` a handle to a
/// terminal and `S` what the user is doing in the active pane.
pub struct WindowContext<E, T, S> {
    /// Whether the window has to be drawn again.
    pub dirty: bool,
    /// Events that wait to be processed.
    pub event_queue: Vec<E>,
    /// The terminal of the active pane.
    pub terminal: T,
    pub pane_manager: Option<PaneManager<Pane<T, S>>>,
    pub cursor_blink_timed_out: bool,
    pub session: S,
    /// Where the active pane begins, for the mouse.
    pub pane_origin: (Binary32, Binary32),
    pub occluded: bool,
    pub preserve_title: bool,
}

/// An event, as far as it decides when events are processed.
pub enum WindowInput<E> {
    AboutToWait,
    RedrawRequested,
    Other(E),
}

/// The active pane before and after a focus switch was applied.
#[derive(Copy, Clone, Debug, PartialEq, Eq, Structural)]
pub struct FocusChange {
    pub old: Option<PaneId>,
    pub new: Option<PaneId>,
}

/// How to draw a window.
pub struct DrawPlan<T> {
    /// The terminal to draw.
    pub terminal: T,
    /// Request another redraw at once.
    pub request_redraw: bool,
}

/// What follows when the waiting events were processed.
#[derive(Copy, Clone, Debug, PartialEq, Eq, Structural)]
pub enum NextStep {
    /// Update the display; `display_updated` follows, then the hints.
    UpdateDisplay,
    /// Look up the highlighted hints; `hints_updated` follows.
    UpdateHints,
    /// Draw the terminal that the window shows.
    Draw(FocusChange),
}

/// The new sizes of the terminals after the window has changed.
pub struct DisplayResize {
    /// Those of all panes but the active one.
    pub others: Vec<(PaneId, TerminalResize)>,
    /// That of the active pane.
    pub active: Option<TerminalResize>,
}

impl<E, T, S> WindowContext<E, T, S> {
    /// The state of the panes is well formed: the active pane is among them.
    pub open spec fn wf(&self) -> bool {
        self.pane_manager matches Some(pm) ==> pm.wf()
    }

    /// The active pane exists.
    pub open spec fn has_active_pane(&self) -> bool {
        self.pane_manager matches Some(pm) ==> pm@.panes.contains_key(pm@.active.0)
    }

    /// The terminal that the window shows.
    pub open spec fn shown(&self) -> T {
        match self.pane_manager {
            Some(pm) => pm@.panes[pm@.active.0].terminal,
            None => self.terminal,
        }
    }

    /// The active pane.
    pub open spec fn active_id(&self) -> Option<PaneId> {
        match self.pane_manager {
            Some(pm) => Some(pm@.active),
            None => None,
        }
    }

    /// The active pane before and after.
    pub open spec fn change_to(&self, after: &Self) -> FocusChange {
        FocusChange { old: self.active_id(), new: after.active_id() }
    }

    /// Nothing but the waiting events differs.
    pub open spec fn same_but_queue(&self, other: &Self) -> bool {
        &&& self.dirty == other.dirty
        &&& self.terminal == other.terminal
        &&& self.pane_manager == other.pane_manager
        &&& self.cursor_blink_timed_out == other.cursor_blink_timed_out
        &&& self.session == other.session
        &&& self.pane_origin == other.pane_origin
        &&& self.occluded == other.occluded
        &&& self.preserve_title == other.preserve_title
    }

    /// Nothing but the need to draw differs.
    pub open spec fn same_but_dirty(&self, other: &Self) -> bool {
        &&& self.event_queue == other.event_queue
        &&& self.terminal == other.terminal
        &&& self.pane_manager == other.pane_manager
        &&& self.cursor_blink_timed_out == other.cursor_blink_timed_out
        &&& self.session == other.session
        &&& self.pane_origin == other.pane_origin
        &&& self.occluded == other.occluded
        &&& self.preserve_title == other.preserve_title
    }

    /// Whether focus has moved between two panes, to one that exists.
    pub open spec fn focus_moved(&self, change: FocusChange) -> bool {
        &&& change.old is Some
        &&& change.new is Some
        &&& change.old != change.new
        &&& self.pane_manager is Some
        &&& self.has_active_pane()
    }
}

/// Whether the list has the terminal of every pane, each pane once.
pub open spec fn lists_terminals<T, S>(list: Seq<T>, panes: Map<u64, Pane<T, S>>) -> bool {
    exists|ids: Seq<PaneId>| #[trigger] lists_terminals_of(list, panes, ids)
}

/// The same, in the order of the given panes.
pub open spec fn lists_terminals_of<T, S>(
    list: Seq<T>,
    panes: Map<u64, Pane<T, S>>,
    ids: Seq<PaneId>,
) -> bool {
    &&& ids.no_duplicates()
    &&& forall|id: PaneId| #[trigger] ids.contains(id) <==> panes.contains_key(id.0)
    &&& list == Seq::new(ids.len(), |i: int| panes[ids[i].0].terminal)
}

/// The panes with the session of one of them replaced.
pub open spec fn with_session<T, S>(
    state: ManagerState<Pane<T, S>>,
    id: PaneId,
    session: S,
) -> ManagerState<Pane<T, S>> {
    match lookup(state.panes, id) {
        Some(pane) => ManagerState {
            panes: state.panes.insert(id.0, Pane { terminal: pane.terminal, session }),
            ..state
        },
        None => state,
    }
}

/// The panes after the session of the active one was saved and a queued focus
/// switch applied.
pub open spec fn refocused<T, S>(
    state: ManagerState<Pane<T, S>>,
    saved: S,
) -> ManagerState<Pane<T, S>> {
    with_session(state, state.active, saved).after_apply()
}

impl<E, T: Clone, S: Clone> WindowContext<E, T, S> {
    /// The window follows its active pane: it has its terminal and its
    /// session, and the mouse counts from where it begins.
    pub open spec fn follows_active(&self, before: &Self) -> bool {
        match self.pane_manager {
            Some(pm) => match lookup(pm@.panes, pm@.active) {
                Some(pane) => {
                    &&& cloned(pane.terminal, self.terminal)
                    &&& cloned(pane.session, self.session)
                    &&& self.pane_origin == (match lookup(pm@.bounds(), pm@.active) {
                        Some(bounds) => (bounds.x, bounds.y),
                        None => before.pane_origin,
                    })
                },
                None => {
                    &&& self.terminal == before.terminal
                    &&& self.session == before.session
                    &&& self.pane_origin == before.pane_origin
                },
            },
            None => {
                &&& self.terminal == before.terminal
                &&& self.session == before.session
                &&& self.pane_origin == before.pane_origin
            },
        }
    }

    /// What settling the focus makes of a window: the session is saved with the
    /// pane that was active, a queued focus switch is applied, and the window
    /// follows the pane that is active then.
    pub open spec fn settled(&self, after: &Self) -> bool {
        self.settled_after(after, self.dirty)
    }

    /// The same, with the need to draw as given.
    pub open spec fn settled_after(&self, after: &Self, dirty: bool) -> bool {
        &&& match (self.pane_manager, after.pane_manager) {
            (Some(old_pm), Some(new_pm)) => {
                if old_pm@.panes.contains_key(old_pm@.active.0) {
                    let saved = new_pm@.panes[old_pm@.active.0].session;
                    cloned(self.session, saved) && new_pm@ == refocused(old_pm@, saved)
                } else {
                    new_pm@ == old_pm@.after_apply()
                }
            },
            (None, None) => true,
            _ => false,
        }
        &&& after.follows_active(self)
        &&& after.dirty == dirty
        &&& after.event_queue == self.event_queue
        &&& after.cursor_blink_timed_out == self.cursor_blink_timed_out
        &&& after.occluded == self.occluded
        &&& after.preserve_title == self.preserve_title
    }
}

impl<E, T: Clone, S: Clone> WindowContext<E, T, S> {
    /// Create a new terminal window context around its panes.
    pub fn new(
        pane_manager: PaneManager<Pane<T, S>>,
        session: S,
        pane_origin: (Binary32, Binary32),
        preserve_title: bool,
    ) -> (r: Self)
        requires
            pane_manager.wf(),
        ensures
            r.wf(),
            r.has_active_pane(),
            r.pane_manager == Some(pane_manager),
            cloned(pane_manager@.panes[pane_manager@.active.0].terminal, r.terminal),
            r.session == session,
            r.pane_origin == pane_origin,
            r.preserve_title == preserve_title,
            r.event_queue@.len() == 0,
            !r.dirty,
            !r.cursor_blink_timed_out,
            !r.occluded,
    {
        proof {
            pane_manager.wf_is_consistent();
        }
        let terminal = pane_manager.active_pane().unwrap().terminal.clone();
        WindowContext {
            dirty: false,
            event_queue: Vec::new(),
            terminal,
            pane_manager: Some(pane_manager),
            cursor_blink_timed_out: false,
            session,
            pane_origin,
            occluded: false,
            preserve_title,
        }
    }

    /// The terminal that the window shows: that of the active pane.
    pub fn shown_terminal(&self) -> (r: &T)
        requires
            self.wf(),
        ensures
            *r == self.shown(),
    {
        match &self.pane_manager {
            Some(pm) => {
                proof {
                    pm.wf_is_consistent();
                }
                &pm.active_pane().unwrap().terminal
            },
            None => &self.terminal,
        }
    }

    /// The terminals of all panes, also of those that a zoomed one hides, each
    /// pane once and in no particular order. They all follow a change of the
    /// configuration, and are shut down with the window.
    pub fn terminals(&self) -> (r: Vec<&T>)
        ensures
            match self.pane_manager {
                Some(pm) => {
                    &&& lists_terminals(r@.unref(), pm@.panes)
                    &&& r@.len() == pm@.panes.len()
                    &&& forall|k: u64| #[trigger]
                        pm@.panes.contains_key(k) ==> exists|i: int|
                            0 <= i < r@.len() && *(#[trigger] r@[i]) == pm@.panes[k].terminal
                },
                None => r@.unref() == seq![self.terminal],
            },
    {
        let mut result: Vec<&T> = Vec::new();
        match &self.pane_manager {
            Some(pm) => {
                let ids = pm.all_pane_ids();
                let mut i: usize = 0;
                while i < ids.len()
                    invariant
                        i <= ids.len(),
                        forall|id: PaneId| #[trigger]
                            ids@.contains(id) <==> pm@.panes.contains_key(id.0),
                        result@.len() == i,
                        forall|k: int|
                            0 <= k < i ==> *(#[trigger] result@[k]) == pm@.panes[ids@[k].0].terminal,
                    decreases ids.len() - i,
                {
                    assert(ids@.contains(ids@[i as int]));
                    result.push(&pm.pane(ids[i]).unwrap().terminal);
                    i = i + 1;
                }
                proof {
                    assert(result@.unref() =~= Seq::new(
                        ids@.len(),
                        |k: int| pm@.panes[ids@[k].0].terminal,
                    ));
                    assert(lists_terminals_of(result@.unref(), pm@.panes, ids@));
                    assert forall|k: u64| #[trigger] pm@.panes.contains_key(k) implies exists|j: int|
                        0 <= j < result@.len() && *(#[trigger] result@[j])
                            == pm@.panes[k].terminal by {
                        assert(ids@.contains(PaneId(k)));
                        let j = ids@.index_of(PaneId(k));
                        assert(*result@[j] == pm@.panes[k].terminal);
                    }
                }
            },
            None => {
                result.push(&self.terminal);
                assert(result@.unref() =~= seq![self.terminal]);
            },
        }
        result
    }

    /// The terminal that has to be told to shut down before the active pane is
    /// closed.
    pub fn closing_terminal(&self) -> (r: Option<&T>)
        requires
            self.wf(),
        ensures
            match self.pane_manager {
                Some(pm) => {
                    &&& r is Some <==> pm@.panes.len() > 1
                    &&& r matches Some(terminal) ==> *terminal == self.shown()
                },
                None => r is None,
            },
    {
        match &self.pane_manager {
            Some(pm) => {
                proof {
                    pm.wf_is_consistent();
                    several_panes_close(pm@);
                }
                match pm.active_to_shut_down() {
                    Some(pane) => Some(&pane.terminal),
                    None => None,
                }
            },
            None => None,
        }
    }

    /// Close the active pane in this window. One that is zoomed to it is restored
    /// first.
    ///
    /// Returns true if a pane was closed, false if there was only one pane.
    pub fn close_active_pane(&mut self) -> (r: bool)
        requires
            old(self).wf(),
        ensures
            final(self).wf(),
            r == (old(self).pane_manager is Some && old(self).pane_manager->0@.panes.len() > 1),
            r ==> {
                let state = old(self).pane_manager->0@.after_close_active();
                &&& final(self).pane_manager is Some
                &&& final(self).pane_manager->0@ == state
                &&& state.panes == old(self).pane_manager->0@.panes.remove(
                    old(self).pane_manager->0@.active.0,
                )
                &&& state.panes.len() == old(self).pane_manager->0@.panes.len() - 1
                &&& cloned(state.panes[state.active.0].terminal, final(self).terminal)
            },
            !r ==> *final(self) == *old(self),
            final(self).session == old(self).session,
            final(self).pane_origin == old(self).pane_origin,
            final(self).dirty == old(self).dirty,
            final(self).event_queue == old(self).event_queue,
            final(self).cursor_blink_timed_out == old(self).cursor_blink_timed_out,
            final(self).occluded == old(self).occluded,
            final(self).preserve_title == old(self).preserve_title,
    {
        match &mut self.pane_manager {
            Some(pm) => {
                proof {
                    pm.wf_is_consistent();
                    several_panes_close(pm@);
                }
                if !pm.close_active() {
                    return false;
                }
                // Sync window context terminal to the new active pane.
                if let Some(active) = pm.active_pane() {
                    self.terminal = active.terminal.clone();
                }
                true
            },
            None => false,
        }
    }

    /// Process an event for this window. Events wait until the window system is
    /// about to wait or asks for a redraw. The answer is the events to process
    /// then, in the order in which they came; `events_processed` follows.
    pub fn handle_event(&mut self, input: WindowInput<E>) -> (r: Option<Vec<E>>)
        ensures
            match input {
                WindowInput::Other(event) => {
                    &&& r is None
                    &&& final(self).event_queue@ == old(self).event_queue@.push(event)
                },
                _ => {
                    &&& r is Some <==> old(self).event_queue@.len() > 0
                    &&& r matches Some(events) ==> events@ == old(self).event_queue@
                    &&& final(self).event_queue@.len() == 0
                },
            },
            final(self).same_but_queue(old(self)),
    {
        match input {
            WindowInput::AboutToWait | WindowInput::RedrawRequested => {
                // Skip further event handling with no staged updates.
                if self.event_queue.len() == 0 {
                    return None;
                }
                let mut events: Vec<E> = Vec::new();
                std::mem::swap(&mut events, &mut self.event_queue);
                Some(events)
            },
            WindowInput::Other(event) => {
                self.event_queue.push(event);
                None
            },
        }
    }

    /// The waiting events were processed. The answer is what follows: a changed
    /// display is updated first, then hints are looked up again where they may
    /// have changed, and then focus is settled and the window drawn.
    pub fn events_processed(
        &mut self,
        display_dirty: bool,
        hint_highlight_dirty: bool,
    ) -> (r: NextStep)
        requires
            old(self).wf(),
        ensures
            final(self).wf(),
            if display_dirty {
                r == NextStep::UpdateDisplay && *final(self) == *old(self)
            } else if old(self).dirty || hint_highlight_dirty {
                r == NextStep::UpdateHints && *final(self) == *old(self)
            } else {
                &&& old(self).settled(final(self))
                &&& r == NextStep::Draw(old(self).change_to(final(self)))
            },
    {
        if display_dirty {
            NextStep::UpdateDisplay
        } else if self.dirty || hint_highlight_dirty {
            NextStep::UpdateHints
        } else {
            NextStep::Draw(self.settle_focus())
        }
    }

    /// The display has changed: the window is drawn again, and its panes take
    /// their new places. The hints are looked up next.
    pub fn display_updated(&mut self, size: &SizeInfo) -> (r: DisplayResize)
        requires
            old(self).wf(),
        ensures
            final(self).wf(),
            final(self).dirty,
            match old(self).pane_manager {
                Some(pm) => {
                    let state = ManagerState { window: whole_window(*size), ..pm@ };
                    &&& final(self).pane_manager is Some
                    &&& final(self).pane_manager->0@ == state
                    &&& state.resized_terminals(r.others@, *size)
                    &&& r.active == (match lookup(state.bounds(), state.active) {
                        Some(bounds) => Some(fitted(bounds, *size)),
                        None => None,
                    })
                },
                None => {
                    &&& final(self).pane_manager is None
                    &&& r.others@.len() == 0
                    &&& r.active is None
                },
            },
            final(self).terminal == old(self).terminal,
            final(self).session == old(self).session,
            final(self).pane_origin == old(self).pane_origin,
            final(self).event_queue == old(self).event_queue,
            final(self).cursor_blink_timed_out == old(self).cursor_blink_timed_out,
            final(self).occluded == old(self).occluded,
            final(self).preserve_title == old(self).preserve_title,
    {
        self.dirty = true;
        // Update pane geometry on window resize.
        match &mut self.pane_manager {
            Some(pm) => {
                pm.update_window_size(size);
                DisplayResize {
                    others: pm.resize_terminals_except_active(size),
                    active: pm.resize_active_terminal(size),
                }
            },
            None => DisplayResize { others: Vec::new(), active: None },
        }
    }

    /// Save the session with the pane that is active, apply a queued focus
    /// switch, and follow the pane that is active then.
    pub fn settle_focus(&mut self) -> (r: FocusChange)
        requires
            old(self).wf(),
        ensures
            final(self).wf(),
            old(self).settled(final(self)),
            r == old(self).change_to(final(self)),
    {
        match &mut self.pane_manager {
            Some(pm) => {
                let old_id = pm.active_pane_id();
                let ghost state = pm@;
                // Save per-pane state for the pane we're switching away from.
                let saved = self.session.clone();
                if let Some(pane) = pm.pane_mut(old_id) {
                    pane.session = saved;
                }
                pm.apply_pending_focus();
                let new_id = pm.active_pane_id();
                if let Some(active) = pm.active_pane() {
                    self.terminal = active.terminal.clone();
                    // Restore per-pane state for the newly active pane.
                    self.session = active.session.clone();
                    // Coordinate transforms of the mouse use the new pane's offset.
                    if let Some(bounds) = pm.pane_bounds(new_id) {
                        self.pane_origin = (bounds.x, bounds.y);
                    }
                }
                FocusChange { old: Some(old_id), new: Some(new_id) }
            },
            None => FocusChange { old: None, new: None },
        }
    }

    /// Update the window to a new configuration. The answer is what to do about
    /// the change. `blink_event` makes the cursor follow the new configuration.
    pub fn update_config(&mut self, change: &ConfigChange, blink_event: E) -> (r: ConfigUpdate)
        ensures
            r == config_update(*change, old(self).preserve_title),
            final(self).dirty,
            final(self).event_queue@ == old(self).event_queue@.push(blink_event),
            final(self).terminal == old(self).terminal,
            final(self).pane_manager == old(self).pane_manager,
            final(self).cursor_blink_timed_out == old(self).cursor_blink_timed_out,
            final(self).session == old(self).session,
            final(self).pane_origin == old(self).pane_origin,
            final(self).occluded == old(self).occluded,
            final(self).preserve_title == old(self).preserve_title,
    {
        let update = plan_config_update(change, self.preserve_title);
        // Update cursor blinking.
        self.event_queue.push(blink_event);
        self.dirty = true;
        update
    }

    /// Draw the window. The answer is what to draw: an occluded window is left
    /// alone. While the visual bell rings, drawing goes on: the next redraw is
    /// requested at once, or without a frame the window is marked dirty instead,
    /// since a redraw by the system bypasses frame throttling.
    pub fn draw(&mut self, bell_completed: bool, has_frame: bool) -> (r: Option<DrawPlan<T>>)
        requires
            old(self).wf(),
        ensures
            final(self).wf(),
            r is Some <==> !old(self).occluded,
            match r {
                Some(plan) => {
                    &&& cloned(old(self).shown(), plan.terminal)
                    &&& plan.request_redraw == (!bell_completed && has_frame)
                    &&& final(self).dirty == (!bell_completed && !has_frame)
                },
                None => final(self).dirty == old(self).dirty,
            },
            final(self).same_but_dirty(old(self)),
    {
        if self.occluded {
            return None;
        }
        self.dirty = !bell_completed && !has_frame;
        let terminal = self.shown_terminal().clone();
        Some(DrawPlan { terminal, request_redraw: !bell_completed && has_frame })
    }

    /// The highlighted hints were looked up, and may have changed. Focus is
    /// settled then, so that the right terminal is drawn.
    pub fn hints_updated(&mut self, changed: bool) -> (r: FocusChange)
        requires
            old(self).wf(),
        ensures
            final(self).wf(),
            old(self).settled_after(final(self), old(self).dirty || changed),
            r == old(self).change_to(final(self)),
    {
        self.dirty = self.dirty || changed;
        self.settle_focus()
    }

    /// Whether to request a redraw after events were processed. While a redraw
    /// is being answered `dirty` stands for the current frame, and a request
    /// would be for the next one.
    pub fn wants_redraw(&self, has_frame: bool, answers_redraw: bool) -> (r: bool)
        ensures
            r == (self.dirty && has_frame && !self.occluded && !answers_redraw),
    {
        self.dirty && has_frame && !self.occluded && !answers_redraw
    }

    /// Write the ref test results: the files to write, in order. `grid` is the
    /// serialized grid of the terminal; it and the count of lines in its history
    /// are taken when the grid is initialized and truncated.
    pub fn write_ref_test_results(
        &self,
        grid: String,
        history_size: usize,
        columns: usize,
        screen_lines: usize,
    ) -> (r: Vec<RecordedFile>)
        ensures
            r@.len() == 3,
            r@[0].path@ == "./grid.json"@,
            r@[0].content@ == grid@,
            r@[1].path@ == "./size.json"@,
            r@[1].content@ == size_text(columns as nat, screen_lines as nat),
            r@[2].path@ == "./config.json"@,
            r@[2].content@ == config_text(history_size as nat),
    {
        let mut files: Vec<RecordedFile> = Vec::new();
        files.push(RecordedFile { path: "./grid.json".to_owned(), content: grid });
        files.push(
            RecordedFile {
                path: "./size.json".to_owned(),
                content: recorded_size(columns, screen_lines),
            },
        );
        files.push(
            RecordedFile {
                path: "./config.json".to_owned(),
                content: recorded_config(history_size),
            },
        );
        files
    }

    /// Reset the cursor when focus has switched to a different pane. Nothing is
    /// left to do where it has not; otherwise both blink timers are stopped, the
    /// cursor is shown, and the plan says whether to start them again.
    pub fn reset_cursor(&mut self, change: &FocusChange, cursor: &CursorState) -> (r: Option<
        BlinkPlan,
    >)
        ensures
            r is Some <==> old(self).focus_moved(*change),
            r matches Some(plan) ==> plan == blink_plan(*cursor),
            match r {
                Some(_) => {
                    &&& final(self).dirty
                    &&& !final(self).cursor_blink_timed_out
                },
                None => {
                    &&& final(self).dirty == old(self).dirty
                    &&& final(self).cursor_blink_timed_out == old(self).cursor_blink_timed_out
                },
            },
            final(self).event_queue == old(self).event_queue,
            final(self).terminal == old(self).terminal,
            final(self).pane_manager == old(self).pane_manager,
            final(self).session == old(self).session,
            final(self).pane_origin == old(self).pane_origin,
            final(self).occluded == old(self).occluded,
            final(self).preserve_title == old(self).preserve_title,
    {
        let moved = match (change.old, change.new) {
            (Some(old_id), Some(new_id)) => old_id != new_id,
            _ => false,
        };
        if !moved {
            return None;
        }
        let exists_active = match &self.pane_manager {
            Some(pm) => pm.active_pane().is_some(),
            None => false,
        };
        if !exists_active {
            return None;
        }
        self.cursor_blink_timed_out = false;
        self.dirty = true;
        Some(plan_blink(cursor))
    }
}

} // verus!
