use alacritty_panes::binary32::Binary32;
use alacritty_panes::bounds::PaneBounds;
use alacritty_panes::config::{PaneConfig, Rgb};
use alacritty_panes::cursor::{plan_blink, BlinkPlan, CursorState};
use alacritty_panes::search::{search_scroll, search_view, SearchView};
use alacritty_panes::size::{fit_terminal, SizeInfo, TermDimensions};

fn num(value: f32) -> Binary32 {
    Binary32::from_bits(value.to_bits())
}

fn rect(width: f32, height: f32) -> PaneBounds {
    PaneBounds { x: num(0.), y: num(0.), width: num(width), height: num(height) }
}

#[test]
fn default_configuration() {
    let config = PaneConfig::default();
    assert_eq!(config.border_width, 2);
    assert_eq!(config.border_color, Rgb::new(0x66, 0x66, 0x66));
    assert_eq!(config.active_border_color, Rgb { r: 0xcc, g: 0xcc, b: 0xcc });
    assert_eq!(config.min_width, 20);
    assert_eq!(config.min_height, 3);
    assert_eq!(config.clone(), config);
}

#[test]
fn terminals_fit_their_panes() {
    let size = SizeInfo {
        width: num(0.),
        height: num(0.),
        cell_width: num(7.5),
        cell_height: num(15.9),
        padding_x: num(5.),
        padding_y: num(10.),
    };
    let fitted = fit_terminal(&rect(100., 100.), &size);
    assert_eq!(fitted.dimensions, TermDimensions::new(12, 5));
    assert_eq!(fitted.window_size.num_cols, 12);
    assert_eq!(fitted.window_size.num_lines, 5);
    assert_eq!(fitted.window_size.cell_width, 7);
    assert_eq!(fitted.window_size.cell_height, 15);
    // There is always room for one cell.
    let tiny = fit_terminal(&rect(3., -7.), &size);
    assert_eq!(tiny.dimensions, TermDimensions::new(1, 1));
    // The program in the terminal is told the low 16 bits.
    let huge = fit_terminal(&rect(7.5 * 65540. + 10., 100.), &size);
    assert_eq!(huge.dimensions.columns, 65540);
    assert_eq!(huge.window_size.num_cols, 4);
}

#[test]
fn dimensions_have_no_history() {
    let dimensions = TermDimensions::new(80, 24);
    assert_eq!(dimensions.columns(), 80);
    assert_eq!(dimensions.screen_lines(), 24);
    assert_eq!(dimensions.total_lines(), 24);
}

const STEADY: CursorState = CursorState {
    style_override: None,
    vi_style_override: None,
    vi_mode: false,
    show_cursor: true,
    terminal_blinking: false,
    composing: false,
    timeout: 0,
};

#[test]
fn cursor_blinks_by_style() {
    let blinks = |cursor: CursorState| plan_blink(&cursor).blink;
    assert!(!blinks(STEADY));
    assert!(blinks(CursorState { terminal_blinking: true, ..STEADY }));
    assert!(blinks(CursorState { style_override: Some(true), ..STEADY }));
    assert!(!blinks(CursorState {
        style_override: Some(false),
        terminal_blinking: true,
        ..STEADY
    }));
    // The style for vi mode is in force there only.
    let vi = CursorState { vi_style_override: Some(Some(true)), ..STEADY };
    assert!(!blinks(vi));
    assert!(blinks(CursorState { vi_mode: true, ..vi }));
    assert!(!blinks(CursorState {
        vi_mode: true,
        style_override: Some(true),
        vi_style_override: Some(None),
        ..STEADY
    }));
    assert!(blinks(CursorState { vi_mode: true, style_override: Some(true), ..STEADY }));
    // A hidden cursor blinks in vi mode only, and never while text is composed.
    let hidden = CursorState { style_override: Some(true), show_cursor: false, ..STEADY };
    assert!(!blinks(hidden));
    assert!(blinks(CursorState { vi_mode: true, ..hidden }));
    assert!(!blinks(CursorState { vi_mode: true, composing: true, ..hidden }));
}

#[test]
fn blinking_stops_after_timeout() {
    let blinking = CursorState { terminal_blinking: true, ..STEADY };
    assert_eq!(plan_blink(&blinking), BlinkPlan { blink: true, stop_after_timeout: false });
    assert_eq!(
        plan_blink(&CursorState { timeout: 5, ..blinking }),
        BlinkPlan { blink: true, stop_after_timeout: true }
    );
    assert_eq!(
        plan_blink(&CursorState { timeout: 5, ..STEADY }),
        BlinkPlan { blink: false, stop_after_timeout: false }
    );
}

#[test]
fn search_knows_the_bottom_line() {
    assert_eq!(
        search_view(24, 23, false, 0, true),
        SearchView { cursor_at_bottom: true, origin_at_bottom: true }
    );
    assert_eq!(
        search_view(24, 22, false, 23, false),
        SearchView { cursor_at_bottom: false, origin_at_bottom: false }
    );
    assert_eq!(
        search_view(24, 0, true, 23, false),
        SearchView { cursor_at_bottom: false, origin_at_bottom: true }
    );
    // The count wraps as a line number does.
    assert!(search_view(0, -1, false, 0, false).cursor_at_bottom);
    assert!(search_view(0xffff_ffff, -2, false, 0, false).cursor_at_bottom);
}

#[test]
fn search_start_keeps_origin_visible() {
    let at = |cursor_at_bottom, origin_at_bottom| SearchView { cursor_at_bottom, origin_at_bottom };
    assert_eq!(search_scroll(false, true, 0, &at(true, false)), Some(1));
    assert_eq!(search_scroll(false, true, 0, &at(true, true)), None);
    assert_eq!(search_scroll(false, true, 0, &at(false, false)), None);
    assert_eq!(search_scroll(false, true, 3, &at(false, true)), Some(-1));
    assert_eq!(search_scroll(false, true, 3, &at(true, false)), None);
    // Only the start of a search scrolls.
    assert_eq!(search_scroll(true, true, 0, &at(true, false)), None);
    assert_eq!(search_scroll(false, false, 0, &at(true, false)), None);
    assert_eq!(search_scroll(true, false, 3, &at(false, true)), None);
}
