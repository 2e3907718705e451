//! What fits into a window and its panes, in terms of exact numbers.
use crate::binary32::{quotient, whole, Binary32};
use crate::bounds::{padded_extent, zero, PaneBounds};
use crate::exact_laws::{is_whole_part, quotient_is_rounded, rounds, unit, whole_cuts_off};
use crate::geometry_laws::{lemma_loses_padding, lemma_unit, loses_padding};
use crate::placement_laws::{exact, finite_bounds};
use crate::rounding::{lemma_magnitude_increases, magnitude, INFINITE};
use crate::size::{cells, fitted, whole_window, SizeInfo};
use vstd::arithmetic::div_mod::lemma_div_multiples_vanish;
use vstd::arithmetic::power2::{lemma2_to64, lemma_pow2_adds, lemma_pow2_pos, pow2};
use vstd::prelude::*;

verus! {

/// The whole window begins at zero and has the size of the window.
pub proof fn window_begins_at_zero(size: SizeInfo)
    ensures
        exact(whole_window(size).x) == 0 as real,
        exact(whole_window(size).y) == 0 as real,
        whole_window(size).x.is_finite(),
        whole_window(size).y.is_finite(),
        whole_window(size).width == size.width,
        whole_window(size).height == size.height,
{
    lemma_unit();
}

/// Whether a count is that of the cells that fit into an extent, and one where
/// less than one does.
pub open spec fn counts_cells(count: int, extent: Binary32, cell: Binary32) -> bool {
    exists|parts: Binary32|
        #![trigger rounds(parts, exact(extent) / exact(cell) * unit())]
        rounds(parts, exact(extent) / exact(cell) * unit()) && if exact(parts) < unit() {
            count == 1
        } else {
            is_whole_part(count, parts, usize::MAX as int)
        }
}

proof fn lemma_cells(extent: Binary32, cell: Binary32)
    requires
        extent.is_finite(),
        cell.is_finite(),
        exact(cell) != 0 as real,
    ensures
        counts_cells(cells(extent, cell), extent, cell),
        1 <= cells(extent, cell) <= usize::MAX,
{
    let parts = quotient(extent, cell);
    quotient_is_rounded(extent, cell);
    lemma_unit();
    reveal(is_whole_part);
    whole_cuts_off(parts, usize::MAX as int);
    let count = whole(parts, usize::MAX as int);
    let (c, u) = (count as real, unit());
    if exact(parts) < u {
        assert(count < 1) by {
            if count >= 1 {
                assert(c * u >= u) by (nonlinear_arith)
                    requires
                        c >= 1 as real,
                        u > 0 as real,
                ;
            }
        }
    } else {
        assert(count >= 1) by {
            if count < 1 {
                assert((count + 1) as real * u <= u) by (nonlinear_arith)
                    requires
                        count == 0,
                        u > 0 as real,
                ;
            }
        }
    }
}

/// Whether a count is that of the cells that fit into an extent without its
/// padding.
#[verifier::opaque]
pub open spec fn fits_cells(
    count: int,
    extent: Binary32,
    padding: Binary32,
    cell: Binary32,
) -> bool {
    exists|rest: Binary32| #[trigger]
        loses_padding(extent, padding, rest) && (rest.is_finite() ==> counts_cells(
            count,
            rest,
            cell,
        ))
}

/// Whether a count is the whole part of a size, as far as 16 bits go, and zero
/// for a negative one.
#[verifier::opaque]
pub open spec fn tells_size(count: int, size: Binary32) -> bool {
    if exact(size) < 0 as real {
        count == 0
    } else {
        is_whole_part(count, size, u16::MAX as int)
    }
}

/// A terminal has as many columns as whole cells fit into the width of its pane
/// without the padding, and as many lines as fit into the height. The program in
/// it is told the same counts, as far as 16 bits go, and the whole part of the
/// size of a cell.
#[verifier::spinoff_prover]
#[verifier::rlimit(40)]
pub proof fn terminal_fits_pane(bounds: PaneBounds, size: SizeInfo)
    requires
        finite_bounds(bounds),
        size.padding_x.is_finite(),
        size.padding_y.is_finite(),
        size.cell_width.is_finite(),
        size.cell_height.is_finite(),
        exact(size.cell_width) != 0 as real,
        exact(size.cell_height) != 0 as real,
    ensures
        ({
            let terminal = fitted(bounds, size);
            let (columns, lines) = (terminal.dimensions.columns, terminal.dimensions.lines);
            let told = terminal.window_size;
            &&& columns >= 1
            &&& lines >= 1
            &&& fits_cells(columns as int, bounds.width, size.padding_x, size.cell_width)
            &&& fits_cells(lines as int, bounds.height, size.padding_y, size.cell_height)
            &&& (columns - told.num_cols) % 0x1_0000 == 0
            &&& (lines - told.num_lines) % 0x1_0000 == 0
            &&& tells_size(told.cell_width as int, size.cell_width)
            &&& tells_size(told.cell_height as int, size.cell_height)
        }),
{
    let columns = cells(padded_extent(bounds.width, size.padding_x), size.cell_width);
    let lines = cells(padded_extent(bounds.height, size.padding_y), size.cell_height);
    lemma_fits(bounds.width, size.padding_x, size.cell_width);
    lemma_fits(bounds.height, size.padding_y, size.cell_height);
    lemma_told(size.cell_width);
    lemma_told(size.cell_height);
    lemma_fitted(bounds, size);
    lemma_low_bits(columns);
    lemma_low_bits(lines);
}

proof fn lemma_low_bits(n: int)
    ensures
        (n - n % 0x1_0000) % 0x1_0000 == 0,
{
}

proof fn lemma_fitted(bounds: PaneBounds, size: SizeInfo)
    requires
        1 <= cells(padded_extent(bounds.width, size.padding_x), size.cell_width) <= usize::MAX,
        1 <= cells(padded_extent(bounds.height, size.padding_y), size.cell_height) <= usize::MAX,
        0 <= whole(size.cell_width, u16::MAX as int) <= u16::MAX,
        0 <= whole(size.cell_height, u16::MAX as int) <= u16::MAX,
    ensures
        ({
            let terminal = fitted(bounds, size);
            let columns = cells(padded_extent(bounds.width, size.padding_x), size.cell_width);
            let lines = cells(padded_extent(bounds.height, size.padding_y), size.cell_height);
            &&& terminal.dimensions.columns == columns
            &&& terminal.dimensions.lines == lines
            &&& terminal.window_size.num_cols == columns % 0x1_0000
            &&& terminal.window_size.num_lines == lines % 0x1_0000
            &&& terminal.window_size.cell_width == whole(size.cell_width, u16::MAX as int)
            &&& terminal.window_size.cell_height == whole(size.cell_height, u16::MAX as int)
        }),
{
}

proof fn lemma_fits(extent: Binary32, padding: Binary32, cell: Binary32)
    requires
        extent.is_finite(),
        padding.is_finite(),
        cell.is_finite(),
        exact(cell) != 0 as real,
    ensures
        fits_cells(cells(padded_extent(extent, padding), cell), extent, padding, cell),
        1 <= cells(padded_extent(extent, padding), cell) <= usize::MAX,
{
    reveal(fits_cells);
    let rest = padded_extent(extent, padding);
    lemma_loses_padding(extent, padding);
    if rest.is_finite() {
        lemma_cells(rest, cell);
    }
    assert(loses_padding(extent, padding, rest));
}

proof fn lemma_told(cell: Binary32)
    requires
        cell.is_finite(),
    ensures
        tells_size(whole(cell, u16::MAX as int), cell),
        0 <= whole(cell, u16::MAX as int) <= u16::MAX,
{
    whole_cuts_off(cell, u16::MAX as int);
    reveal(tells_size);
    reveal(is_whole_part);
}

/// Cells without a size fit into an extent without end; none of them fill no
/// extent.
pub proof fn cells_without_size_fill_any_extent(extent: Binary32)
    requires
        !extent.is_nan(),
    ensures
        exact(extent) > 0 as real ==> cells(extent, zero()) == usize::MAX,
        exact(extent) <= 0 as real ==> cells(extent, zero()) == 1,
{
    lemma_unit();
    lemma_magnitude_increases(0, extent.code());
    assert(magnitude(0) == 0);
    let parts = quotient(extent, zero());
    if exact(extent) > 0 as real {
        assert(!extent.negative() && extent.code() > 0);
        assert(parts.code() == INFINITE && !parts.negative());
        lemma_infinite_is_large();
    } else {
        assert(parts.is_nan() || parts.negative());
    }
}

/// An infinity is larger than every count.
proof fn lemma_infinite_is_large()
    ensures
        magnitude(INFINITE as int) / pow2(149) as int > usize::MAX,
{
    assert(INFINITE as int / 0x80_0000 == 255 && INFINITE as int % 0x80_0000 == 0);
    lemma2_to64();
    lemma_pow2_adds(23, 254);
    lemma_pow2_adds(149, 128);
    lemma_pow2_adds(64, 64);
    lemma_pow2_pos(149);
    lemma_pow2_pos(64);
    let (s, q) = (pow2(149) as int, pow2(128) as int);
    assert(magnitude(INFINITE as int) == q * s) by (nonlinear_arith)
        requires
            magnitude(INFINITE as int) == pow2(277) as int,
            pow2(277) == pow2(149) * pow2(128),
            s == pow2(149) as int,
            q == pow2(128) as int,
    ;
    lemma_div_multiples_vanish(q, s);
    assert(s * q == q * s) by (nonlinear_arith);
    let w = pow2(64) as int;
    assert(q > w) by (nonlinear_arith)
        requires
            q == w * w,
            w > 1,
    ;
}

} // verus!
