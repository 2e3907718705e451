use alacritty_panes::binary32::Binary32;
use alacritty_panes::bounds::SplitDirection;
use alacritty_panes::config::PaneConfig;
use alacritty_panes::config_update::{plan_config_update, ConfigChange, ConfigUpdate};
use alacritty_panes::cursor::CursorState;
use alacritty_panes::layout::PaneId;
use alacritty_panes::manager::PaneManager;
use alacritty_panes::ref_test::{recorded_config, recorded_size};
use alacritty_panes::size::SizeInfo;
use alacritty_panes::window_context::{
    FocusChange, NextStep, Pane, WindowContext, WindowInput,
};

type Window = WindowContext<u32, &'static str, String>;

fn num(value: f32) -> Binary32 {
    Binary32::from_bits(value.to_bits())
}

fn float(value: Binary32) -> f32 {
    f32::from_bits(value.to_bits())
}

fn size(width: f32, height: f32) -> SizeInfo {
    SizeInfo {
        width: num(width),
        height: num(height),
        cell_width: num(10.),
        cell_height: num(20.),
        padding_x: num(0.),
        padding_y: num(0.),
    }
}

fn pane(terminal: &'static str) -> Pane<&'static str, String> {
    Pane { terminal, session: format!("new in {}", terminal) }
}

fn window() -> Window {
    let manager = PaneManager::new(pane("shell"), &PaneConfig::default(), &size(802., 602.));
    WindowContext::new(manager, String::new(), (num(0.), num(0.)), false)
}

fn two_panes() -> Window {
    let mut window = window();
    let created: Result<Pane<&'static str, String>, ()> = Ok(pane("editor"));
    let manager = window.pane_manager.as_mut().expect("panes");
    manager.split_active(created, SplitDirection::Vertical).expect("active pane is placed");
    window
}

fn ask_focus(window: &mut Window, id: u64) {
    assert!(window.pane_manager.as_mut().expect("panes").request_focus(PaneId::new(id)));
}

const CURSOR: CursorState = CursorState {
    style_override: Some(true),
    vi_style_override: None,
    vi_mode: false,
    show_cursor: true,
    terminal_blinking: false,
    composing: false,
    timeout: 0,
};

#[test]
fn new_window_shows_first_pane() {
    let window = window();
    assert_eq!(window.terminal, "shell");
    assert_eq!(*window.shown_terminal(), "shell");
    assert!(!window.dirty && !window.occluded && !window.cursor_blink_timed_out);
    assert!(window.event_queue.is_empty());
}

#[test]
fn window_without_panes_has_its_own_terminal() {
    let mut window = window();
    window.pane_manager = None;
    assert_eq!(*window.shown_terminal(), "shell");
    assert_eq!(window.terminals(), vec![&"shell"]);
    assert_eq!(window.closing_terminal(), None);
    assert!(!window.close_active_pane());
    let change = window.settle_focus();
    assert_eq!(change, FocusChange { old: None, new: None });
    assert!(window.reset_cursor(&change, &CURSOR).is_none());
    let resize = window.display_updated(&size(100., 100.));
    assert!(resize.others.is_empty() && resize.active.is_none());
}

#[test]
fn events_wait_in_order() {
    let mut window = window();
    assert!(window.handle_event(WindowInput::AboutToWait).is_none());
    assert!(window.handle_event(WindowInput::Other(1)).is_none());
    assert!(window.handle_event(WindowInput::Other(2)).is_none());
    assert_eq!(window.handle_event(WindowInput::RedrawRequested), Some(vec![1, 2]));
    assert!(window.handle_event(WindowInput::RedrawRequested).is_none());
    assert!(window.handle_event(WindowInput::Other(3)).is_none());
    assert_eq!(window.handle_event(WindowInput::AboutToWait), Some(vec![3]));
}

#[test]
fn processed_events_lead_to_next_step() {
    let mut window = two_panes();
    assert_eq!(window.events_processed(true, false), NextStep::UpdateDisplay);
    assert_eq!(window.events_processed(false, true), NextStep::UpdateHints);
    let stay = FocusChange { old: Some(PaneId::new(0)), new: Some(PaneId::new(0)) };
    assert_eq!(window.events_processed(false, false), NextStep::Draw(stay));
    window.dirty = true;
    assert_eq!(window.events_processed(false, false), NextStep::UpdateHints);
    assert_eq!(window.hints_updated(false), stay);
    assert!(window.dirty);
    window.dirty = false;
    window.hints_updated(true);
    assert!(window.dirty);
}

#[test]
fn session_comes_back_with_focus() {
    let mut window = two_panes();
    window.session = "searching".to_owned();
    ask_focus(&mut window, 1);
    let change = window.settle_focus();
    assert_eq!(change, FocusChange { old: Some(PaneId::new(0)), new: Some(PaneId::new(1)) });
    assert_eq!(window.terminal, "editor");
    assert_eq!(window.session, "new in editor");
    assert_eq!(float(window.pane_origin.0), 402.);
    window.session = "something else".to_owned();
    ask_focus(&mut window, 0);
    window.settle_focus();
    assert_eq!(window.session, "searching");
    assert_eq!(window.terminal, "shell");
    assert_eq!(float(window.pane_origin.0), 0.);
    ask_focus(&mut window, 1);
    window.settle_focus();
    assert_eq!(window.session, "something else");
    // Without a queued switch nothing moves.
    let stay = window.settle_focus();
    assert_eq!(stay.old, stay.new);
    assert_eq!(window.session, "something else");
}

#[test]
fn cursor_is_reset_when_focus_moves() {
    let mut window = two_panes();
    window.cursor_blink_timed_out = true;
    let stay = window.settle_focus();
    assert!(window.reset_cursor(&stay, &CURSOR).is_none());
    assert!(window.cursor_blink_timed_out && !window.dirty);
    ask_focus(&mut window, 1);
    let change = window.settle_focus();
    let plan = window.reset_cursor(&change, &CURSOR).expect("focus has moved");
    assert!(plan.blink && !plan.stop_after_timeout);
    assert!(!window.cursor_blink_timed_out && window.dirty);
    window.dirty = false;
    let steady = CursorState { style_override: Some(false), ..CURSOR };
    let plan = window.reset_cursor(&change, &steady).expect("focus has moved");
    assert!(!plan.blink);
    assert!(window.dirty);
}

fn listed(window: &Window) -> Vec<&'static str> {
    let mut terminals: Vec<&'static str> = window.terminals().into_iter().copied().collect();
    terminals.sort();
    terminals
}

#[test]
fn active_pane_is_closed() {
    let mut window = two_panes();
    assert_eq!(listed(&window), vec!["editor", "shell"]);
    assert_eq!(window.closing_terminal(), Some(&"shell"));
    assert!(window.close_active_pane());
    assert_eq!(window.terminal, "editor");
    assert_eq!(*window.shown_terminal(), "editor");
    assert_eq!(listed(&window), vec!["editor"]);
    // The last pane stays.
    assert_eq!(window.closing_terminal(), None);
    assert!(!window.close_active_pane());
    assert_eq!(listed(&window), vec!["editor"]);
}

#[test]
fn zoomed_pane_is_closed() {
    let mut window = two_panes();
    window.pane_manager.as_mut().expect("panes").toggle_zoom();
    assert_eq!(window.closing_terminal(), Some(&"shell"));
    assert!(window.close_active_pane());
    assert_eq!(window.terminal, "editor");
    let manager = window.pane_manager.as_ref().expect("panes");
    assert!(!manager.is_zoomed());
    assert_eq!(manager.len(), 1);
    assert!(manager.pane(PaneId::new(0)).is_none());
    assert_eq!(manager.pane_ids(), vec![PaneId::new(1)]);
    // A single pane stays, zoomed or not.
    window.pane_manager.as_mut().expect("panes").toggle_zoom();
    assert_eq!(window.closing_terminal(), None);
    assert!(!window.close_active_pane());
    assert!(window.pane_manager.as_ref().expect("panes").is_zoomed());
}

#[test]
fn every_pane_closes_in_turn() {
    let mut window = two_panes();
    let manager = window.pane_manager.as_mut().expect("panes");
    manager.toggle_zoom();
    let created: Result<Pane<&'static str, String>, ()> = Ok(pane("logs"));
    manager.split_active(created, SplitDirection::Vertical).expect("active pane is placed");
    assert!(manager.close_pane(PaneId::new(0)));
    assert_eq!(listed(&window), vec!["editor", "logs"]);
    assert_eq!(window.closing_terminal(), Some(&"logs"));
    assert!(window.close_active_pane());
    assert_eq!(window.terminal, "editor");
    assert_eq!(listed(&window), vec!["editor"]);
    assert_eq!(window.closing_terminal(), None);
    assert!(!window.close_active_pane());
}

#[test]
fn hidden_panes_are_listed() {
    let mut window = two_panes();
    window.pane_manager.as_mut().expect("panes").toggle_zoom();
    assert_eq!(window.pane_manager.as_ref().expect("panes").pane_ids().len(), 1);
    assert_eq!(listed(&window), vec!["editor", "shell"]);
}

#[test]
fn new_display_resizes_all_terminals() {
    let mut window = two_panes();
    let resize = window.display_updated(&size(402., 200.));
    assert!(window.dirty);
    let active = resize.active.expect("active pane is placed");
    assert_eq!((active.dimensions.columns, active.dimensions.lines), (20, 10));
    assert_eq!(resize.others, vec![(PaneId::new(1), active)]);
}

#[test]
fn occluded_window_is_not_drawn() {
    let mut window = window();
    window.dirty = true;
    window.occluded = true;
    assert!(window.draw(true, true).is_none());
    assert!(window.dirty);
    assert!(!window.wants_redraw(true, false));
    window.occluded = false;
    assert!(window.wants_redraw(true, false));
    assert!(!window.wants_redraw(false, false));
    assert!(!window.wants_redraw(true, true));
    let plan = window.draw(true, true).expect("visible");
    assert_eq!(plan.terminal, "shell");
    assert!(!plan.request_redraw && !window.dirty);
    assert!(!window.wants_redraw(true, false));
}

#[test]
fn visual_bell_keeps_drawing() {
    let mut window = window();
    let plan = window.draw(false, true).expect("visible");
    assert!(plan.request_redraw && !window.dirty);
    let plan = window.draw(false, false).expect("visible");
    assert!(!plan.request_redraw && window.dirty);
}

fn no_change() -> ConfigChange {
    ConfigChange {
        old_thickness: num(0.15),
        new_thickness: num(0.15),
        font_changed: false,
        font_size: num(16.5),
        configured_font_size: num(16.5),
        old_padding: (num(1.), num(2.)),
        new_padding: (num(1.), num(2.)),
        dynamic_padding_changed: false,
        resize_increments_changed: false,
        dynamic_title: true,
        current_title: "vim".to_owned(),
        old_title: "Alacritty".to_owned(),
        opacity: num(1.),
    }
}

const NOTHING: ConfigUpdate = ConfigUpdate {
    reload_cursor: false,
    reset_font_size: false,
    set_font: false,
    update_display: false,
    set_title: false,
    transparent: false,
};

#[test]
fn unchanged_configuration_asks_for_nothing() {
    let mut window = window();
    assert_eq!(window.update_config(&no_change(), 9), NOTHING);
    // The cursor is told, and the window drawn, in any case.
    assert_eq!(window.event_queue, vec![9]);
    assert!(window.dirty);
}

#[test]
fn changed_configuration_is_applied() {
    let plan = |change: ConfigChange| plan_config_update(&change, false);
    assert_eq!(
        plan(ConfigChange { new_thickness: num(0.2), ..no_change() }),
        ConfigUpdate { reload_cursor: true, ..NOTHING }
    );
    // A difference below the smallest step is none.
    let close = ConfigChange {
        old_thickness: num(0.5),
        new_thickness: num(0.5 + f32::EPSILON / 2.),
        ..no_change()
    };
    assert_eq!(plan(close), NOTHING);
    assert_eq!(
        plan(ConfigChange { font_changed: true, ..no_change() }),
        ConfigUpdate { set_font: true, reset_font_size: true, ..NOTHING }
    );
    // A size that was changed at runtime stays.
    assert_eq!(
        plan(ConfigChange { font_changed: true, font_size: num(17.), ..no_change() }),
        ConfigUpdate { set_font: true, ..NOTHING }
    );
    let dirty = ConfigUpdate { update_display: true, ..NOTHING };
    assert_eq!(plan(ConfigChange { new_padding: (num(1.), num(3.)), ..no_change() }), dirty);
    assert_eq!(plan(ConfigChange { new_padding: (num(0.), num(2.)), ..no_change() }), dirty);
    assert_eq!(plan(ConfigChange { dynamic_padding_changed: true, ..no_change() }), dirty);
    assert_eq!(plan(ConfigChange { resize_increments_changed: true, ..no_change() }), dirty);
    let zeros = ConfigChange {
        old_padding: (num(0.), num(2.)),
        new_padding: (num(-0.), num(2.)),
        ..no_change()
    };
    assert_eq!(plan(zeros), NOTHING);
    assert_eq!(
        plan(ConfigChange { opacity: num(0.9), ..no_change() }),
        ConfigUpdate { transparent: true, ..NOTHING }
    );
    assert!(plan(ConfigChange { opacity: num(f32::NAN), ..no_change() }).transparent);
}

#[test]
fn title_follows_configuration_unless_set_elsewhere() {
    let sets = |preserve: bool, dynamic_title: bool, current: &str| {
        let change =
            ConfigChange { dynamic_title, current_title: current.to_owned(), ..no_change() };
        plan_config_update(&change, preserve).set_title
    };
    for dynamic in [true, false] {
        for current in ["Alacritty", "vim"] {
            assert!(!sets(true, dynamic, current));
        }
    }
    assert!(sets(false, true, "Alacritty"));
    assert!(!sets(false, true, "vim"));
    assert!(sets(false, false, "Alacritty"));
    assert!(sets(false, false, "vim"));
}

#[test]
fn recordings_are_json() {
    assert_eq!(recorded_config(0), "{\"history_size\":0}");
    assert_eq!(recorded_config(10_000), "{\"history_size\":10000}");
    assert_eq!(recorded_size(80, 24), "{\"columns\":80,\"screen_lines\":24}");
    for n in [0, 7, 10, 99, 1234567890, usize::MAX] {
        assert_eq!(recorded_config(n), format!("{{\"history_size\":{}}}", n));
        assert_eq!(
            recorded_size(n, n / 3),
            format!("{{\"columns\":{},\"screen_lines\":{}}}", n, n / 3)
        );
    }
}

#[test]
fn recording_has_three_files() {
    let files = window().write_ref_test_results("{}".to_owned(), 5, 80, 24);
    let written: Vec<(&str, &str)> =
        files.iter().map(|file| (file.path.as_str(), file.content.as_str())).collect();
    assert_eq!(
        written,
        vec![
            ("./grid.json", "{}"),
            ("./size.json", "{\"columns\":80,\"screen_lines\":24}"),
            ("./config.json", "{\"history_size\":5}"),
        ]
    );
}
