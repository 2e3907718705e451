//! The sizes of the window, of its cells and of the terminals in its panes.
use crate::binary32::{quotient, whole, Binary32};
use crate::bounds::{padded, zero, PaneBounds, ZERO};
use vstd::prelude::*;

verus! {

/// Size of the window and of a cell, in pixels.
#[derive(Copy, Clone, Debug)]
pub struct SizeInfo {
    pub width: Binary32,
    pub height: Binary32,
    pub cell_width: Binary32,
    pub cell_height: Binary32,
    pub padding_x: Binary32,
    pub padding_y: Binary32,
}

/// The whole window.
pub open spec fn whole_window(size: SizeInfo) -> PaneBounds {
    PaneBounds { x: zero(), y: zero(), width: size.width, height: size.height }
}

impl SizeInfo {
    /// The bounds of the whole window.
    pub fn window_bounds(&self) -> (r: PaneBounds)
        ensures
            r == whole_window(*self),
    {
        PaneBounds {
            x: Binary32 { bits: ZERO },
            y: Binary32 { bits: ZERO },
            width: self.width,
            height: self.height,
        }
    }
}

/// Simpler dimensions for terminal resizing.
#[derive(Copy, Clone, Debug, PartialEq, Eq, Structural)]
pub struct TermDimensions {
    pub columns: usize,
    pub lines: usize,
}

impl TermDimensions {
    pub fn new(columns: usize, lines: usize) -> (r: Self)
        ensures
            r == (TermDimensions { columns, lines }),
    {
        TermDimensions { columns, lines }
    }

    /// Total number of lines in the buffer: those on the screen.
    pub fn total_lines(&self) -> (r: usize)
        ensures
            r == self.lines,
    {
        self.lines
    }

    /// Height of the viewport in lines.
    pub fn screen_lines(&self) -> (r: usize)
        ensures
            r == self.lines,
    {
        self.lines
    }

    /// Width of the terminal in columns.
    pub fn columns(&self) -> (r: usize)
        ensures
            r == self.columns,
    {
        self.columns
    }
}

/// The size that the program in a terminal is told.
#[derive(Copy, Clone, Debug, PartialEq, Eq, Structural)]
pub struct WindowSize {
    pub num_lines: u16,
    pub num_cols: u16,
    pub cell_width: u16,
    pub cell_height: u16,
}

/// A new size for the terminal of a pane.
#[derive(Copy, Clone, Debug, PartialEq, Eq, Structural)]
pub struct TerminalResize {
    pub dimensions: TermDimensions,
    pub window_size: WindowSize,
}

/// How many whole cells fit into an extent, and at least one.
pub open spec fn cells(extent: Binary32, cell: Binary32) -> int {
    let count = whole(quotient(extent, cell), usize::MAX as int);
    if count < 1 {
        1
    } else {
        count
    }
}

/// The terminal that fits into the bounds of a pane. The program in it is told
/// the low 16 bits of the counts.
pub open spec fn fitted(bounds: PaneBounds, size: SizeInfo) -> TerminalResize {
    let inner = padded(bounds, size.padding_x, size.padding_y);
    let columns = cells(inner.width, size.cell_width);
    let lines = cells(inner.height, size.cell_height);
    TerminalResize {
        dimensions: TermDimensions { columns: columns as usize, lines: lines as usize },
        window_size: WindowSize {
            num_lines: (lines % 0x1_0000) as u16,
            num_cols: (columns % 0x1_0000) as u16,
            cell_width: whole(size.cell_width, u16::MAX as int) as u16,
            cell_height: whole(size.cell_height, u16::MAX as int) as u16,
        },
    }
}

/// Fit a terminal into the bounds of a pane.
pub fn fit_terminal(bounds: &PaneBounds, size: &SizeInfo) -> (r: TerminalResize)
    ensures
        r == fitted(*bounds, *size),
        r.dimensions.columns >= 1,
        r.dimensions.lines >= 1,
{
    let inner = bounds.pad(size.padding_x, size.padding_y);
    let cols: usize = inner.width.over(size.cell_width).to_usize();
    let cols: usize = if cols < 1 {
        1
    } else {
        cols
    };
    let lines: usize = inner.height.over(size.cell_height).to_usize();
    let lines: usize = if lines < 1 {
        1
    } else {
        lines
    };
    TerminalResize {
        dimensions: TermDimensions::new(cols, lines),
        window_size: WindowSize {
            num_lines: (lines % 0x1_0000) as u16,
            num_cols: (cols % 0x1_0000) as u16,
            cell_width: size.cell_width.to_u16(),
            cell_height: size.cell_height.to_u16(),
        },
    }
}

} // verus!
