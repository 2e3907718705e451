//! What the window decides about cursors, configurations, searches and
//! recordings.
use crate::binary32::{difference, unsigned, Binary32};
use crate::config_update::{config_update, ConfigChange, EPSILON};
use crate::cursor::{blink_plan, CursorState};
use crate::exact_laws::{apart, difference_is_rounded, rounds, unit};
use crate::geometry_laws::lemma_unit;
use crate::layout::one;
use crate::placement_laws::exact;
use crate::ref_test::{decimal, digit};
use crate::rounding::{lemma_magnitude_increases, magnitude};
use crate::search::{as_line, scroll_lines, SearchView};
use vstd::arithmetic::power2::{lemma2_to64, lemma_pow2_adds};
use vstd::prelude::*;

verus! {

/// A cursor that cannot be seen does not blink, and none does while text is being
/// composed.
pub proof fn hidden_cursor_does_not_blink(cursor: CursorState)
    requires
        cursor.composing || (!cursor.vi_mode && !cursor.show_cursor),
    ensures
        !blink_plan(cursor).blink,
        !blink_plan(cursor).stop_after_timeout,
{
}

/// Otherwise its style decides: in vi mode the style for that mode, where there
/// is one, and else the ordinary one. A style that forces nothing leaves it to
/// the terminal.
pub proof fn style_decides_blinking(cursor: CursorState)
    requires
        !cursor.composing,
        cursor.vi_mode || cursor.show_cursor,
    ensures
        ({
            let blinks = blink_plan(cursor).blink;
            let own = cursor.vi_mode && cursor.vi_style_override is Some;
            &&& own && cursor.vi_style_override == Some(Some(true)) ==> blinks
            &&& own && cursor.vi_style_override == Some(Some(false)) ==> !blinks
            &&& own && cursor.vi_style_override == Some(None::<bool>) ==> blinks
                == cursor.terminal_blinking
            &&& !own && cursor.style_override == Some(true) ==> blinks
            &&& !own && cursor.style_override == Some(false) ==> !blinks
            &&& !own && cursor.style_override is None ==> blinks == cursor.terminal_blinking
        }),
{
}

/// Blinking stops after the timeout, where there is one.
pub proof fn blinking_stops_after_timeout(cursor: CursorState)
    ensures
        blink_plan(cursor).blink && cursor.timeout > 0 ==> blink_plan(cursor).stop_after_timeout,
        cursor.timeout == 0 ==> !blink_plan(cursor).stop_after_timeout,
        !blink_plan(cursor).blink ==> !blink_plan(cursor).stop_after_timeout,
{
}

/// The cursor is reloaded where its thickness has changed by more than two to the
/// power -23, up to rounding.
pub proof fn new_thickness_reloads_cursor(change: ConfigChange, preserve_title: bool)
    requires
        change.old_thickness.is_finite(),
        change.new_thickness.is_finite(),
    ensures
        exists|by: Binary32|
            #![trigger rounds(by, exact(change.old_thickness) - exact(change.new_thickness))]
            {
                &&& rounds(by, exact(change.old_thickness) - exact(change.new_thickness))
                &&& config_update(change, preserve_title).reload_cursor <==> unit() < apart(
                    exact(by),
                    0 as real,
                ) * 8388608 as real
            },
{
    let by = difference(change.old_thickness, change.new_thickness);
    difference_is_rounded(change.old_thickness, change.new_thickness);
    lemma_magnitude_increases(0, by.code());
    assert(magnitude(0) == 0);
    let limit = Binary32 { bits: EPSILON };
    assert(limit.code() == 0x3400_0000);
    assert(0x3400_0000int / 0x80_0000 == 104 && 0x3400_0000int % 0x80_0000 == 0);
    lemma_pow2_adds(23, 103);
    lemma_pow2_adds(23, 126);
    lemma2_to64();
    assert(exact(limit) * 8388608 as real == unit());
    assert(unsigned(by).code() == by.code() && !unsigned(by).negative());
    assert(exact(unsigned(by)) == apart(exact(by), 0 as real));
    assert(rounds(by, exact(change.old_thickness) - exact(change.new_thickness)));
}

/// The font is set where it has changed. Its size follows the configuration only
/// where it is the configured one: a size that was changed at runtime stays.
pub proof fn runtime_font_size_stays(change: ConfigChange, preserve_title: bool)
    requires
        !change.font_size.is_nan(),
        !change.configured_font_size.is_nan(),
    ensures
        ({
            let update = config_update(change, preserve_title);
            let runtime = exact(change.font_size) != exact(change.configured_font_size);
            &&& update.set_font == change.font_changed
            &&& runtime ==> !update.reset_font_size
            &&& !runtime && change.font_changed ==> update.reset_font_size
            &&& !change.font_changed ==> !update.reset_font_size
        }),
{
}

/// The display is updated where the padding has changed in either direction, or
/// what goes with it.
pub proof fn new_padding_updates_display(change: ConfigChange, preserve_title: bool)
    requires
        !change.old_padding.0.is_nan(),
        !change.old_padding.1.is_nan(),
        !change.new_padding.0.is_nan(),
        !change.new_padding.1.is_nan(),
    ensures
        ({
            let update = config_update(change, preserve_title);
            let same_x = exact(change.old_padding.0) == exact(change.new_padding.0);
            let same_y = exact(change.old_padding.1) == exact(change.new_padding.1);
            &&& !same_x ==> update.update_display
            &&& !same_y ==> update.update_display
            &&& change.dynamic_padding_changed ==> update.update_display
            &&& change.resize_increments_changed ==> update.update_display
            &&& same_x && same_y && !change.dynamic_padding_changed
                && !change.resize_increments_changed ==> !update.update_display
        }),
{
}

/// A title from the command line stays, and so does one that a program may set
/// and has set. Otherwise the title follows the configuration.
pub proof fn title_follows_configuration(change: ConfigChange, preserve_title: bool)
    ensures
        ({
            let update = config_update(change, preserve_title);
            let own = change.current_title@ != change.old_title@;
            &&& preserve_title ==> !update.set_title
            &&& change.dynamic_title && own ==> !update.set_title
            &&& !preserve_title && !change.dynamic_title ==> update.set_title
            &&& !preserve_title && !own ==> update.set_title
        }),
{
}

/// A window is transparent where its opacity is below one.
pub proof fn low_opacity_is_transparent(change: ConfigChange, preserve_title: bool)
    requires
        !change.opacity.is_nan(),
    ensures
        config_update(change, preserve_title).transparent <==> exact(change.opacity) < unit(),
{
    lemma_unit();
    assert(!one().is_nan());
}

/// A count taken as a line number differs from it by a multiple of two to the
/// power 32, and is in the range of 32 bits with a sign.
pub proof fn line_number_keeps_low_bits(count: int)
    requires
        count >= 0,
    ensures
        i32::MIN <= as_line(count) <= i32::MAX,
        (count - as_line(count)) % 0x1_0000_0000 == 0,
        count <= i32::MAX ==> as_line(count) == count,
{
}

/// Only the start of a search scrolls.
pub proof fn only_start_of_search_scrolls(display_offset: usize, view: SearchView)
    ensures
        scroll_lines(true, true, display_offset, view) is None,
        scroll_lines(true, false, display_offset, view) is None,
        scroll_lines(false, false, display_offset, view) is None,
{
}

/// The start of a search scrolls by one line, to keep its origin in view above
/// the bar: into the history where the view is at its end, the cursor is at the
/// bottom and the origin is not; and back where the view is inside the history
/// and the origin is at the bottom.
pub proof fn start_of_search_keeps_origin_in_view(display_offset: usize, view: SearchView)
    ensures
        ({
            let lines = scroll_lines(false, true, display_offset, view);
            &&& display_offset == 0 && view.cursor_at_bottom && !view.origin_at_bottom ==> lines
                == Some(1i32)
            &&& display_offset == 0 && (!view.cursor_at_bottom || view.origin_at_bottom)
                ==> lines is None
            &&& display_offset > 0 && view.origin_at_bottom ==> lines == Some(-1i32)
            &&& display_offset > 0 && !view.origin_at_bottom ==> lines is None
        }),
{
}

/// The number that a text of decimal digits stands for.
pub open spec fn number(text: Seq<char>) -> int
    decreases text.len(),
{
    if text.len() == 0 {
        0
    } else {
        number(text.drop_last()) * 10 + (text.last() as int - '0' as int)
    }
}

/// A number in decimal is a text of digits that stands for the number. It has no
/// leading zero, but where it is a single digit.
pub proof fn decimal_stands_for_number(n: nat)
    ensures
        number(decimal(n)) == n,
        decimal(n).len() > 0,
        forall|i: int|
            0 <= i < decimal(n).len() ==> '0' as int <= #[trigger] decimal(n)[i] as int
                <= '9' as int,
        decimal(n).len() > 1 ==> decimal(n)[0] != '0',
    decreases n,
{
    reveal_with_fuel(number, 2);
    let text = decimal(n);
    if n < 10 {
        assert(text =~= seq![digit(n as int)]);
        assert(text.drop_last() =~= Seq::empty());
    } else {
        let before = decimal(n / 10);
        decimal_stands_for_number(n / 10);
        assert(text =~= before.push(digit((n % 10) as int)));
        assert(text.drop_last() =~= before);
        if before.len() == 1 {
            assert(before.drop_last() =~= Seq::empty());
            assert(number(before) == before[0] as int - '0' as int);
        }
    }
}

} // verus!
