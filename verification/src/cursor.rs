//! Whether the cursor of a newly focused pane blinks.
use vstd::prelude::*;

verus! {

/// What decides whether a cursor blinks.
#[derive(Copy, Clone, Debug)]
pub struct CursorState {
    /// Whether the configured style forces blinking on or off.
    pub style_override: Option<bool>,
    /// The same of the style for vi mode, where there is one.
    pub vi_style_override: Option<Option<bool>>,
    /// Whether the terminal is in vi mode.
    pub vi_mode: bool,
    /// Whether the terminal shows its cursor.
    pub show_cursor: bool,
    /// Whether the style that the terminal asks for blinks.
    pub terminal_blinking: bool,
    /// Whether an input method is composing text.
    pub composing: bool,
    /// How long blinking lasts, in nanoseconds; 0 is without end.
    pub timeout: u128,
}

/// What to do about a cursor that was just reset.
#[derive(Copy, Clone, Debug, PartialEq, Eq, Structural)]
pub struct BlinkPlan {
    /// Start to blink.
    pub blink: bool,
    /// Stop blinking after the timeout.
    pub stop_after_timeout: bool,
}

/// Whether the style in force blinks. In vi mode its own style is in force,
/// where there is one; a style that forces nothing leaves it to the terminal.
pub open spec fn style_blinks(cursor: CursorState) -> bool {
    let in_force = if cursor.vi_mode && cursor.vi_style_override is Some {
        cursor.vi_style_override->0
    } else {
        cursor.style_override
    };
    match in_force {
        Some(forced) => forced,
        None => cursor.terminal_blinking,
    }
}

/// A cursor blinks where its style does, while it is visible and nothing is
/// being composed.
pub open spec fn blink_plan(cursor: CursorState) -> BlinkPlan {
    let blink = style_blinks(cursor) && (cursor.vi_mode || cursor.show_cursor)
        && !cursor.composing;
    BlinkPlan { blink, stop_after_timeout: blink && cursor.timeout != 0 }
}

/// Determine if a cursor should blink.
pub fn plan_blink(cursor: &CursorState) -> (r: BlinkPlan)
    ensures
        r == blink_plan(*cursor),
{
    let mut style = cursor.style_override;
    if cursor.vi_mode {
        style = cursor.vi_style_override.unwrap_or(style);
    }
    let mut blinking = style.unwrap_or(cursor.terminal_blinking);
    blinking = blinking && (cursor.vi_mode || cursor.show_cursor) && !cursor.composing;
    BlinkPlan { blink: blinking, stop_after_timeout: blinking && cursor.timeout != 0 }
}

} // verus!
