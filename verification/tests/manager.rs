use alacritty_panes::binary32::Binary32;
use alacritty_panes::bounds::SplitDirection;
use alacritty_panes::config::PaneConfig;
use alacritty_panes::layout::PaneId;
use alacritty_panes::manager::{PaneManager, SplitError};
use alacritty_panes::size::{SizeInfo, TermDimensions, TerminalResize, WindowSize};

fn num(value: f32) -> Binary32 {
    Binary32::from_bits(value.to_bits())
}

fn float(value: Binary32) -> f32 {
    f32::from_bits(value.to_bits())
}

fn size(width: f32, height: f32) -> SizeInfo {
    SizeInfo {
        width: num(width),
        height: num(height),
        cell_width: num(8.),
        cell_height: num(16.),
        padding_x: num(2.),
        padding_y: num(4.),
    }
}

fn manager() -> PaneManager<&'static str> {
    PaneManager::new("shell", &PaneConfig::default(), &size(802., 602.))
}

fn split(manager: &mut PaneManager<&'static str>, pane: &'static str) -> PaneId {
    let created: Result<&'static str, ()> = Ok(pane);
    manager.split_active(created, SplitDirection::Vertical).expect("active pane is placed")
}

fn focus(manager: &mut PaneManager<&'static str>, id: PaneId) {
    assert!(manager.request_focus(id));
    assert!(manager.apply_pending_focus());
}

fn bounds_of(manager: &PaneManager<&'static str>, id: PaneId) -> Option<(f32, f32, f32, f32)> {
    manager.pane_bounds(id).map(|b| (float(b.x), float(b.y), float(b.width), float(b.height)))
}

#[test]
fn new_manager_has_one_pane() {
    let manager = manager();
    assert_eq!(manager.active_pane_id(), PaneId::new(0));
    assert_eq!(manager.active_pane(), Some(&"shell"));
    assert_eq!(manager.len(), 1);
    assert_eq!(manager.pane_ids(), vec![PaneId::new(0)]);
    assert_eq!(manager.next_pane_id(), PaneId::new(1));
    assert_eq!(float(manager.border_width()), 2.);
    assert_eq!(bounds_of(&manager, PaneId::new(0)), Some((0., 0., 802., 602.)));
    assert!(!manager.is_zoomed());
    assert_eq!(manager.pending_focus(), None);
    // 20 columns of 8 pixels, in 800 pixels without the border.
    assert_eq!(float(manager.min_ratio(SplitDirection::Vertical)), 0.2);
    // 3 lines of 16 pixels, in 600 pixels.
    assert_eq!(float(manager.min_ratio(SplitDirection::Horizontal)), 48. / 600.);
}

#[test]
fn split_adds_pane_beside_active_one() {
    let mut manager = manager();
    assert_eq!(split(&mut manager, "editor"), PaneId::new(1));
    assert_eq!(manager.len(), 2);
    assert_eq!(manager.pane_ids(), vec![PaneId::new(0), PaneId::new(1)]);
    // Focus stays.
    assert_eq!(manager.active_pane_id(), PaneId::new(0));
    assert_eq!(manager.pane(PaneId::new(1)), Some(&"editor"));
    assert_eq!(manager.pane(PaneId::new(2)), None);
    assert_eq!(manager.panes().len(), 2);
    assert_eq!(bounds_of(&manager, PaneId::new(0)), Some((0., 0., 400., 602.)));
    assert_eq!(bounds_of(&manager, PaneId::new(1)), Some((402., 0., 400., 602.)));
}

#[test]
fn failed_split_uses_up_identifier() {
    let mut manager = manager();
    let created: Result<&'static str, &'static str> = Err("no pty");
    match manager.split_active(created, SplitDirection::Vertical) {
        Err(SplitError::Terminal(reason)) => assert_eq!(reason, "no pty"),
        other => panic!("unexpected {:?}", other),
    }
    assert_eq!(manager.len(), 1);
    assert_eq!(split(&mut manager, "editor"), PaneId::new(2));
}

#[test]
fn split_needs_active_pane_in_layout() {
    let mut manager = manager();
    split(&mut manager, "editor");
    manager.toggle_zoom();
    focus(&mut manager, PaneId::new(1));
    let created: Result<&'static str, ()> = Ok("lost");
    match manager.split_active(created, SplitDirection::Vertical) {
        Err(SplitError::ActiveNotInLayout) => {},
        other => panic!("unexpected {:?}", other),
    }
    assert_eq!(manager.len(), 2);
    assert_eq!(manager.next_pane_id(), PaneId::new(3));
}

#[test]
fn panes_can_be_changed_in_place() {
    let mut manager = manager();
    *manager.pane_mut(PaneId::new(0)).expect("first pane") = "changed";
    assert_eq!(manager.active_pane(), Some(&"changed"));
    assert!(manager.pane_mut(PaneId::new(7)).is_none());
}

#[test]
fn close_gives_window_back_after_split() {
    let mut manager = manager();
    split(&mut manager, "editor");
    focus(&mut manager, PaneId::new(1));
    let new = split(&mut manager, "logs");
    assert_eq!(manager.pane_to_shut_down(new), Some(&"logs"));
    assert!(manager.close_pane(new));
    assert_eq!(manager.pane_ids(), vec![PaneId::new(0), PaneId::new(1)]);
    assert_eq!(manager.len(), 2);
    // The first pane has focus.
    assert_eq!(manager.active_pane_id(), PaneId::new(0));
    assert_eq!(bounds_of(&manager, new), None);
    // Its identifier is not given again.
    assert_eq!(split(&mut manager, "again"), PaneId::new(3));
    assert!(!manager.close_pane(PaneId::new(9)));
    assert_eq!(manager.pane_to_shut_down(PaneId::new(9)), None);
}

#[test]
fn active_pane_closes_while_zoomed() {
    let mut manager = manager();
    split(&mut manager, "editor");
    split(&mut manager, "logs");
    focus(&mut manager, PaneId::new(2));
    manager.toggle_zoom();
    assert_eq!(manager.all_pane_ids().len(), 3);
    assert_eq!(manager.active_to_shut_down(), Some(&"logs"));
    assert!(manager.close_active());
    assert!(!manager.is_zoomed());
    assert_eq!(manager.pane_ids(), vec![PaneId::new(0), PaneId::new(1)]);
    assert_eq!(manager.active_pane_id(), PaneId::new(0));
    assert!(manager.close_active());
    assert_eq!(manager.active_pane(), Some(&"editor"));
    // The last pane stays, and stays zoomed.
    manager.toggle_zoom();
    assert_eq!(manager.active_to_shut_down(), None);
    assert!(!manager.close_active());
    assert!(manager.is_zoomed());
}

#[test]
fn refused_split_changes_nothing_else() {
    let mut manager = manager();
    split(&mut manager, "editor");
    manager.toggle_zoom();
    focus(&mut manager, PaneId::new(1));
    manager.request_focus(PaneId::new(0));
    let before = bounds_of(&manager, PaneId::new(0));
    let created: Result<&'static str, ()> = Ok("lost");
    assert!(manager.split_active(created, SplitDirection::Vertical).is_err());
    assert_eq!(manager.pane_ids(), vec![PaneId::new(0)]);
    assert_eq!(manager.len(), 2);
    assert_eq!(manager.active_pane_id(), PaneId::new(1));
    assert_eq!(manager.pending_focus(), Some(PaneId::new(0)));
    assert!(manager.is_zoomed());
    assert_eq!(bounds_of(&manager, PaneId::new(0)), before);
    manager.toggle_zoom();
    // The identifier is used up.
    assert_eq!(split(&mut manager, "kept"), PaneId::new(3));
}

#[test]
fn last_pane_stays_open() {
    let mut manager = manager();
    assert!(!manager.close_pane(PaneId::new(0)));
    assert_eq!(manager.pane_to_shut_down(PaneId::new(0)), None);
    assert_eq!(manager.len(), 1);
    split(&mut manager, "editor");
    assert!(manager.close_pane(PaneId::new(0)));
    assert!(!manager.close_pane(PaneId::new(1)));
    assert_eq!(manager.active_pane(), Some(&"editor"));
}

#[test]
fn requested_focus_waits_until_applied() {
    let mut manager = manager();
    split(&mut manager, "editor");
    assert!(manager.request_focus(PaneId::new(1)));
    assert_eq!(manager.pending_focus(), Some(PaneId::new(1)));
    assert_eq!(manager.active_pane_id(), PaneId::new(0));
    assert!(manager.apply_pending_focus());
    assert_eq!(manager.active_pane_id(), PaneId::new(1));
    assert_eq!(manager.pending_focus(), None);
    assert!(!manager.apply_pending_focus());
    assert!(!manager.request_focus(PaneId::new(9)));
    assert_eq!(manager.pending_focus(), None);
}

#[test]
fn queued_focus_skips_closed_pane() {
    let mut manager = manager();
    split(&mut manager, "editor");
    assert!(manager.request_focus(PaneId::new(1)));
    assert!(manager.close_pane(PaneId::new(1)));
    assert!(!manager.apply_pending_focus());
    assert_eq!(manager.active_pane_id(), PaneId::new(0));
    assert_eq!(manager.pending_focus(), None);
}

#[test]
fn navigation_asks_for_focus() {
    let mut manager = manager();
    split(&mut manager, "editor");
    assert!(manager.navigate_focus(SplitDirection::Vertical));
    assert_eq!(manager.pending_focus(), Some(PaneId::new(1)));
    assert!(manager.apply_pending_focus());
    // Without a horizontal split focus stays.
    assert!(manager.navigate_focus(SplitDirection::Horizontal));
    assert_eq!(manager.pending_focus(), Some(PaneId::new(1)));
}

#[test]
fn zoom_twice_gives_window_back() {
    let mut manager = manager();
    split(&mut manager, "editor");
    let before = bounds_of(&manager, PaneId::new(1));
    manager.toggle_zoom();
    assert!(manager.is_zoomed());
    assert_eq!(manager.pane_ids(), vec![PaneId::new(0)]);
    assert_eq!(bounds_of(&manager, PaneId::new(0)), Some((0., 0., 802., 602.)));
    assert_eq!(bounds_of(&manager, PaneId::new(1)), None);
    // A zoomed pane is the only one that is placed.
    assert!(!manager.close_pane(PaneId::new(0)));
    assert_eq!(manager.len(), 2);
    manager.toggle_zoom();
    assert!(!manager.is_zoomed());
    assert_eq!(manager.pane_ids(), vec![PaneId::new(0), PaneId::new(1)]);
    assert_eq!(bounds_of(&manager, PaneId::new(1)), before);
}

#[test]
fn split_while_zoomed_stays() {
    let mut manager = manager();
    split(&mut manager, "editor");
    manager.toggle_zoom();
    assert_eq!(split(&mut manager, "logs"), PaneId::new(2));
    assert_eq!(manager.pane_ids(), vec![PaneId::new(0), PaneId::new(2)]);
    manager.toggle_zoom();
    assert_eq!(manager.pane_ids(), vec![PaneId::new(0), PaneId::new(2), PaneId::new(1)]);
    assert_eq!(manager.len(), 3);
}

#[test]
fn close_while_zoomed_stays() {
    let mut manager = manager();
    split(&mut manager, "editor");
    manager.toggle_zoom();
    split(&mut manager, "logs");
    assert!(manager.close_pane(PaneId::new(0)));
    assert_eq!(manager.pane_ids(), vec![PaneId::new(2)]);
    assert_eq!(manager.active_pane(), Some(&"logs"));
    assert!(manager.is_zoomed());
    assert_eq!(manager.len(), 2);
    // The zoomed window shows one pane of two: it is restored to close that one.
    assert_eq!(manager.active_to_shut_down(), Some(&"logs"));
    assert!(manager.close_active());
    assert!(!manager.is_zoomed());
    assert_eq!(manager.pane_ids(), vec![PaneId::new(1)]);
    assert_eq!(manager.active_pane(), Some(&"editor"));
    assert_eq!(manager.active_to_shut_down(), None);
    assert!(!manager.close_active());
}

#[test]
fn split_and_close_while_zoomed_change_nothing() {
    let mut manager = manager();
    split(&mut manager, "editor");
    let before = (bounds_of(&manager, PaneId::new(0)), bounds_of(&manager, PaneId::new(1)));
    manager.toggle_zoom();
    let new = split(&mut manager, "logs");
    assert!(manager.close_pane(new));
    assert_eq!(manager.pane_ids(), vec![PaneId::new(0)]);
    manager.toggle_zoom();
    assert_eq!(manager.pane_ids(), vec![PaneId::new(0), PaneId::new(1)]);
    assert_eq!(
        (bounds_of(&manager, PaneId::new(0)), bounds_of(&manager, PaneId::new(1))),
        before
    );
}

#[test]
fn drag_ends_first_side_at_pointer() {
    let config = PaneConfig { min_width: 25, ..PaneConfig::default() };
    let mut manager: PaneManager<u8> = PaneManager::new(1, &config, &size(802., 602.));
    let created: Result<u8, ()> = Ok(2);
    manager.split_active(created, SplitDirection::Vertical).expect("active pane is placed");
    let drag = |manager: &mut PaneManager<u8>, x: f32| {
        assert!(manager.resize_drag(PaneId::new(0), SplitDirection::Vertical, num(x), num(0.)));
        let first = manager.pane_bounds(PaneId::new(0)).expect("placed");
        let second = manager.pane_bounds(PaneId::new(1)).expect("placed");
        (float(first.width), float(second.x), float(second.width))
    };
    assert_eq!(drag(&mut manager, 300.), (300., 302., 500.));
    assert_eq!(drag(&mut manager, 500.), (500., 502., 300.));
    // Both sides keep 25 columns of 8 pixels.
    assert_eq!(drag(&mut manager, 10.), (200., 202., 600.));
    assert_eq!(drag(&mut manager, 790.), (600., 602., 200.));
}

#[test]
fn resize_steps_have_limits() {
    let mut manager = manager();
    split(&mut manager, "editor");
    assert!(manager.resize_pane(PaneId::new(0), SplitDirection::Vertical, num(0.25)));
    assert_eq!(bounds_of(&manager, PaneId::new(0)), Some((0., 0., 600., 602.)));
    assert!(manager.resize_pane(PaneId::new(1), SplitDirection::Vertical, num(0.9)));
    let (_, _, width, _) = bounds_of(&manager, PaneId::new(0)).expect("placed");
    assert_eq!(width, 800. * 0.2);
    assert!(!manager.resize_pane(PaneId::new(0), SplitDirection::Horizontal, num(0.1)));
    assert!(!manager.resize_pane(PaneId::new(7), SplitDirection::Vertical, num(0.1)));
    assert_eq!(manager.len(), 2);
}

#[test]
fn window_without_room_has_no_smallest_ratio() {
    let config = PaneConfig { min_width: 0, ..PaneConfig::default() };
    let mut manager: PaneManager<u8> = PaneManager::new(1, &config, &size(2., 602.));
    assert!(float(manager.min_ratio(SplitDirection::Vertical)).is_nan());
    // Nothing is there to resize.
    assert!(manager.resize_has_limits(PaneId::new(0), SplitDirection::Vertical));
    assert!(!manager.resize_pane(PaneId::new(0), SplitDirection::Vertical, num(0.1)));
}

#[test]
fn resize_needs_limits() {
    let config = PaneConfig { min_width: 0, ..PaneConfig::default() };
    let mut manager: PaneManager<u8> = PaneManager::new(1, &config, &size(2., 602.));
    let created: Result<u8, ()> = Ok(2);
    manager.split_active(created, SplitDirection::Vertical).expect("active pane is placed");
    assert!(!manager.resize_has_limits(PaneId::new(0), SplitDirection::Vertical));
    assert!(manager.resize_has_limits(PaneId::new(0), SplitDirection::Horizontal));
    assert!(manager.resize_has_limits(PaneId::new(5), SplitDirection::Vertical));
    manager.update_window_size(&size(802., 602.));
    assert!(manager.resize_has_limits(PaneId::new(0), SplitDirection::Vertical));
}

#[test]
fn drag_moves_border_to_pointer() {
    let mut manager = manager();
    split(&mut manager, "editor");
    let check = manager.check_drag(PaneId::new(0), SplitDirection::Vertical, num(600.), num(9.));
    assert!(check.moves && check.has_limits);
    assert!(manager.resize_drag(PaneId::new(0), SplitDirection::Vertical, num(600.), num(9.)));
    assert_eq!(bounds_of(&manager, PaneId::new(0)), Some((0., 0., 600., 602.)));
    // Only the coordinate across the border counts.
    assert!(manager.resize_drag(PaneId::new(0), SplitDirection::Vertical, num(600.), num(-7.)));
    assert_eq!(bounds_of(&manager, PaneId::new(0)), Some((0., 0., 600., 602.)));
    assert!(!manager.resize_drag(PaneId::new(0), SplitDirection::Horizontal, num(9.), num(9.)));
    let check = manager.check_drag(PaneId::new(0), SplitDirection::Horizontal, num(9.), num(9.));
    assert!(!check.moves && check.has_limits);
}

#[test]
fn points_find_panes_and_borders() {
    let mut manager = manager();
    split(&mut manager, "editor");
    assert_eq!(manager.pane_at(num(10.), num(10.)), Some(PaneId::new(0)));
    assert_eq!(manager.pane_at(num(500.), num(10.)), Some(PaneId::new(1)));
    assert_eq!(manager.pane_at(num(401.), num(10.)), None);
    // Borders are grabbed within twice their width.
    let border = Some((PaneId::new(0), SplitDirection::Vertical));
    assert_eq!(manager.border_at(num(396.), num(10.)), border);
    assert_eq!(manager.border_at(num(394.), num(10.)), None);
    assert_eq!(manager.corners_at(num(396.), num(10.)).len(), 1);
    assert_eq!(manager.corners_at(num(10.), num(10.)).len(), 0);
}

#[test]
fn window_size_moves_all_panes() {
    let mut manager = manager();
    split(&mut manager, "editor");
    let new_size = size(402., 302.);
    manager.update_window_size(&new_size);
    assert_eq!(bounds_of(&manager, PaneId::new(0)), Some((0., 0., 200., 302.)));
    assert_eq!(bounds_of(&manager, PaneId::new(1)), Some((202., 0., 200., 302.)));
    // 196 pixels hold 24 columns, 294 hold 18 lines.
    let expected = TerminalResize {
        dimensions: TermDimensions::new(24, 18),
        window_size: WindowSize { num_cols: 24, num_lines: 18, cell_width: 8, cell_height: 16 },
    };
    assert_eq!(manager.resize_active_terminal(&new_size), Some(expected));
    assert_eq!(
        manager.resize_terminals_except_active(&new_size),
        vec![(PaneId::new(1), expected)]
    );
    // A zoomed window has no other terminal to resize.
    manager.toggle_zoom();
    assert!(manager.resize_terminals_except_active(&new_size).is_empty());
    focus(&mut manager, PaneId::new(1));
    assert_eq!(manager.resize_active_terminal(&new_size), None);
}
