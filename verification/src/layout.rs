//! Screen geometry from `ratatui`: rectangles and layout splits.

use vstd::prelude::*;
use crate::types::Rect;
use ratatui::layout::{Constraint, Direction, Layout};

verus! {

/// The rectangle `ratatui::layout::Rect::new` builds: its width and height
/// cut so that its right and bottom edges stay within `u16`.
pub open spec fn rect_clamped(x: u16, y: u16, width: u16, height: u16) -> Rect {
    Rect {
        x,
        y,
        width: if width <= u16::MAX - x { width } else { (u16::MAX - x) as u16 },
        height: if height <= u16::MAX - y { height } else { (u16::MAX - y) as u16 },
    }
}

/// Calls `ratatui::layout::Rect::new`, whose documentation and source clamp
/// the width and height so that the right and bottom edges stay within
/// `u16`; the contract states that clamping.
#[verifier::external_body]
pub(crate) fn rect_new(x: u16, y: u16, width: u16, height: u16) -> (r: Rect)
    ensures
        r == rect_clamped(x, y, width, height),
{
    let r = ratatui::layout::Rect::new(x, y, width, height);
    Rect { x: r.x, y: r.y, width: r.width, height: r.height }
}

/// The middle part of `area` when `ratatui`'s layout splits it, top to
/// bottom where `vertical` holds and left to right otherwise, into three
/// parts of `outer`, `middle` and `outer` percent that add up to 100.
pub uninterp spec fn middle_of_split(area: Rect, vertical: bool, outer: u16, middle: u16) -> Rect;

/// Calls `ratatui::layout::Layout::split` with three percentage
/// constraints and gives the middle part; the result is named
/// `middle_of_split` of the arguments. The percentages must add up to 100:
/// the constraints then agree and fix one layout, where conflicting ones
/// leave the solver's choice open.
#[verifier::external_body]
pub(crate) fn split_middle(area: Rect, vertical: bool, outer: u16, middle: u16) -> (r: Rect)
    requires
        2 * outer + middle == 100,
    ensures
        r == middle_of_split(area, vertical, outer, middle),
{
    let direction = if vertical { Direction::Vertical } else { Direction::Horizontal };
    let parts = Layout::default()
        .direction(direction)
        .constraints([Constraint::Percentage(outer), Constraint::Percentage(middle), Constraint::Percentage(outer)])
        .split(ratatui::layout::Rect { x: area.x, y: area.y, width: area.width, height: area.height });
    Rect { x: parts[1].x, y: parts[1].y, width: parts[1].width, height: parts[1].height }
}


/// The text `chrono` gives for the UTC time `secs` seconds after the Unix
/// epoch written with the format string `fmt`, or `None` where `chrono` has
/// no such time.
pub uninterp spec fn utc_formatted(secs: i64, fmt: Seq<char>) -> Option<Seq<char>>;

/// The characters of an optional string.
pub open spec fn opt_chars(o: Option<String>) -> Option<Seq<char>> {
    match o {
        Some(s) => Some(s@),
        None => None,
    }
}

/// Whether every `%` in a format string starts one of the specifiers `%Y`,
/// `%m`, `%d`, `%H`, `%M` or `%S`. `chrono` formats these for every date
/// and time; an unknown specifier makes its formatting fail, and turning
/// the failed formatting into a string panics.
pub open spec fn plain_time_format(fmt: Seq<char>) -> bool {
    forall|i: int|
        0 <= i < fmt.len() && #[trigger] fmt[i] == '%' ==> i + 1 < fmt.len() && {
            let c = fmt[i + 1];
            c == 'Y' || c == 'm' || c == 'd' || c == 'H' || c == 'M' || c == 'S'
        }
}

/// The two decimal digits of `n`, for `n` below 100.
pub open spec fn two_digits(n: int) -> Seq<char> {
    seq![((48 + n / 10) as u8) as char, ((48 + n % 10) as u8) as char]
}

/// The UTC time of day `secs` seconds after the Unix epoch, written
/// `HH:MM:SS` with zero-padded hours, minutes and seconds.
pub open spec fn clock_time(secs: int) -> Seq<char> {
    let t = secs % 86400;
    two_digits(t / 3600) + seq![':'] + two_digits((t % 3600) / 60) + seq![':'] + two_digits(t % 60)
}

/// Calls `chrono::DateTime::from_timestamp(secs, 0)` and, where it gives a
/// time, its `format(fmt)` as a string; the result is named
/// `utc_formatted`. For the format `%H:%M:%S` the contract also states the
/// text: the time of day of `secs` (which counts from midnight UTC, day
/// after day), with the zero-padded hour, minute and second that `%H`, `%M`
/// and `%S` write.
#[verifier::external_body]
pub(crate) fn format_utc(secs: i64, fmt: &str) -> (r: Option<String>)
    requires
        plain_time_format(fmt@),
    ensures
        opt_chars(r) == utc_formatted(secs, fmt@),
        fmt@ == "%H:%M:%S"@ ==> (r matches Some(t) ==> t@ == clock_time(secs as int)),
{
    match chrono::DateTime::from_timestamp(secs, 0) {
        Some(dt) => Some(dt.format(fmt).to_string()),
        None => None,
    }
}

} // verus!
