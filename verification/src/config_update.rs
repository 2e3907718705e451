//! What a new configuration changes about a window.
use crate::binary32::{at_most, difference, equal, less, unsigned, Binary32};
use crate::layout::{one, ONE};
use vstd::prelude::*;

verus! {

/// The encoding of two to the power -23: the distance from one to the next
/// larger number.
pub const EPSILON: u32 = 0x3400_0000;

/// What differs between the old and the new configuration of a window, as far
/// as the window has to act on it.
pub struct ConfigChange {
    pub old_thickness: Binary32,
    pub new_thickness: Binary32,
    /// Whether the fonts differ.
    pub font_changed: bool,
    /// The size of the font in use.
    pub font_size: Binary32,
    /// The size that the old configuration gives it, scaled as the window is.
    pub configured_font_size: Binary32,
    pub old_padding: (Binary32, Binary32),
    pub new_padding: (Binary32, Binary32),
    pub dynamic_padding_changed: bool,
    pub resize_increments_changed: bool,
    /// Whether the new configuration lets programs set the title.
    pub dynamic_title: bool,
    pub current_title: String,
    pub old_title: String,
    /// The opacity that the new configuration gives.
    pub opacity: Binary32,
}

/// What to do about it.
#[derive(Copy, Clone, Debug, PartialEq, Eq, Structural)]
pub struct ConfigUpdate {
    /// Reload the cursor.
    pub reload_cursor: bool,
    /// Take the size of the font from the new configuration.
    pub reset_font_size: bool,
    /// Set the font.
    pub set_font: bool,
    /// Update the display.
    pub update_display: bool,
    /// Set the title to the one in the new configuration.
    pub set_title: bool,
    /// Make the window transparent.
    pub transparent: bool,
}

/// A title is kept where the command line has set it, and where a program may
/// set it and has.
pub open spec fn sets_title(
    preserved: bool,
    dynamic: bool,
    current: Seq<char>,
    configured: Seq<char>,
) -> bool {
    !preserved && (!dynamic || current == configured)
}

/// The actions that a change asks for. A font size that was changed at runtime
/// stays.
pub open spec fn config_update(change: ConfigChange, preserve_title: bool) -> ConfigUpdate {
    ConfigUpdate {
        reload_cursor: less(
            Binary32 { bits: EPSILON },
            unsigned(difference(change.old_thickness, change.new_thickness)),
        ),
        reset_font_size: change.font_changed && equal(
            change.font_size,
            change.configured_font_size,
        ),
        set_font: change.font_changed,
        update_display: !equal(change.old_padding.0, change.new_padding.0) || !equal(
            change.old_padding.1,
            change.new_padding.1,
        ) || change.dynamic_padding_changed || change.resize_increments_changed,
        set_title: sets_title(
            preserve_title,
            change.dynamic_title,
            change.current_title@,
            change.old_title@,
        ),
        transparent: !at_most(one(), change.opacity),
    }
}

/// Determine what a change of the configuration asks for.
pub fn plan_config_update(change: &ConfigChange, preserve_title: bool) -> (r: ConfigUpdate)
    ensures
        r == config_update(*change, preserve_title),
{
    // Reload cursor if its thickness has changed.
    let thickness = change.old_thickness.minus(change.new_thickness).abs();
    let reload_cursor = Binary32 { bits: EPSILON }.lt(thickness);
    // Update display if either padding options or resize increments were changed.
    let same_padding = change.old_padding.0.eq(change.new_padding.0) && change.old_padding.1.eq(
        change.new_padding.1,
    );
    // Do not update font size if it has been changed at runtime.
    let font_size_configured = change.font_size.eq(change.configured_font_size);
    let set_title = !preserve_title && (!change.dynamic_title || change.current_title
        == change.old_title);
    let opaque = Binary32 { bits: ONE }.le(change.opacity);
    ConfigUpdate {
        reload_cursor,
        reset_font_size: change.font_changed && font_size_configured,
        set_font: change.font_changed,
        update_display: !same_padding || change.dynamic_padding_changed
            || change.resize_increments_changed,
        set_title,
        transparent: !opaque,
    }
}

} // verus!
