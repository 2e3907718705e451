//! Keeping the origin of a search in view.
use vstd::prelude::*;

verus! {

/// A count as a line number: its low 32 bits, with the highest as the sign.
pub open spec fn as_line(count: int) -> int {
    let low = count % 0x1_0000_0000;
    if low < 0x8000_0000 {
        low
    } else {
        low - 0x1_0000_0000
    }
}

fn line_number(count: usize) -> (r: i32)
    ensures
        r == as_line(count as int),
{
    let low: i64 = (count as u64 % 0x1_0000_0000) as i64;
    if low < 0x8000_0000 {
        low as i32
    } else {
        (low - 0x1_0000_0000) as i32
    }
}

/// Where the cursor and the origin of a search are before a display update.
#[derive(Copy, Clone, Debug, PartialEq, Eq, Structural)]
pub struct SearchView {
    pub cursor_at_bottom: bool,
    pub origin_at_bottom: bool,
}

/// Compute the positions of the cursor and of the origin. In vi mode a search
/// starts from its own cursor; otherwise it starts at the bottom when it goes
/// backwards.
pub fn search_view(
    num_lines: usize,
    cursor_line: i32,
    vi_mode: bool,
    vi_cursor_line: i32,
    search_left: bool,
) -> (r: SearchView)
    requires
        cursor_line < i32::MAX,
        vi_mode ==> num_lines > 0,
    ensures
        r.cursor_at_bottom == (cursor_line + 1 == as_line(num_lines as int)),
        r.origin_at_bottom == (if vi_mode {
            vi_cursor_line == as_line(num_lines - 1)
        } else {
            search_left
        }),
{
    SearchView {
        cursor_at_bottom: cursor_line + 1 == line_number(num_lines),
        origin_at_bottom: if vi_mode {
            vi_cursor_line == line_number(num_lines - 1)
        } else {
            search_left
        },
    }
}

/// How many lines to scroll after a display update. Only the start of a search
/// scrolls, to make sure that the origin is visible with minimal viewport
/// motion: the bar takes the bottom line.
pub open spec fn scroll_lines(
    was_searching: bool,
    is_searching: bool,
    display_offset: usize,
    view: SearchView,
) -> Option<i32> {
    if was_searching || !is_searching {
        None
    } else if display_offset == 0 && view.cursor_at_bottom && !view.origin_at_bottom {
        Some(1i32)
    } else if display_offset != 0 && view.origin_at_bottom {
        Some(-1i32)
    } else {
        None
    }
}

/// Determine how many lines to scroll after a display update.
pub fn search_scroll(
    was_searching: bool,
    is_searching: bool,
    display_offset: usize,
    view: &SearchView,
) -> (r: Option<i32>)
    ensures
        r == scroll_lines(was_searching, is_searching, display_offset, *view),
{
    if !was_searching && is_searching {
        if display_offset == 0 && view.cursor_at_bottom && !view.origin_at_bottom {
            return Some(1);
        } else if display_offset != 0 && view.origin_at_bottom {
            return Some(-1);
        }
    }
    None
}

} // verus!
