//! Configuration for terminal panes.
use vstd::prelude::*;

verus! {

/// A color, by its red, green and blue parts.
#[derive(Copy, Clone, Debug, PartialEq, Eq, Structural)]
pub struct Rgb {
    pub r: u8,
    pub g: u8,
    pub b: u8,
}

impl Rgb {
    pub fn new(r: u8, g: u8, b: u8) -> (color: Self)
        ensures
            color == (Rgb { r, g, b }),
    {
        Rgb { r, g, b }
    }
}

/// Configuration for terminal panes.
#[derive(Debug, PartialEq, Structural)]
pub struct PaneConfig {
    /// Width of the border between panes in pixels.
    pub border_width: usize,
    /// Color of inactive pane borders.
    pub border_color: Rgb,
    /// Color of the active (focused) pane border.
    pub active_border_color: Rgb,
    /// Minimum width of a pane in columns.
    pub min_width: usize,
    /// Minimum height of a pane in lines.
    pub min_height: usize,
}

impl Clone for PaneConfig {
    fn clone(&self) -> (r: Self)
        ensures
            r == *self,
    {
        PaneConfig {
            border_width: self.border_width,
            border_color: self.border_color,
            active_border_color: self.active_border_color,
            min_width: self.min_width,
            min_height: self.min_height,
        }
    }
}

impl Default for PaneConfig {
    fn default() -> (r: Self)
        ensures
            r.border_width == 2,
            r.border_color == (Rgb { r: 0x66, g: 0x66, b: 0x66 }),
            r.active_border_color == (Rgb { r: 0xcc, g: 0xcc, b: 0xcc }),
            r.min_width == 20,
            r.min_height == 3,
    {
        PaneConfig {
            border_width: 2,
            border_color: Rgb::new(0x66, 0x66, 0x66),
            active_border_color: Rgb::new(0xcc, 0xcc, 0xcc),
            min_width: 20,
            min_height: 3,
        }
    }
}

} // verus!
