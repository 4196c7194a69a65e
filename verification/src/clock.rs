//! The clock that makes the caret blink.

use vstd::prelude::*;

verus! {

/// How long the caret is shown, and then hidden, in milliseconds.
pub const CURSOR_BLINK_RATE: u128 = 500;

/// Whether the blinking caret is shown at the time `time_ms`: during every
/// other interval, the first included.
pub open spec fn visible_at(time_ms: u128) -> bool {
    (time_ms / CURSOR_BLINK_RATE) % 2 == 0
}

/// Whether the blinking caret is shown at the time `time_ms`.
pub fn cursor_visible(time_ms: u128) -> (r: bool)
    ensures
        r == visible_at(time_ms),
{
    (time_ms / CURSOR_BLINK_RATE) % 2 == 0
}

/// `instant::now`: the time of the system clock in milliseconds since the
/// Unix epoch, as a whole number. Nothing is claimed of it: two calls may
/// give any two times. It does not return if the clock stands before 1970.
#[verifier::external_body]
pub(crate) fn now_ms() -> (time_ms: u128) {
    instant::now() as u128
}

/// Whether the blinking caret is shown now.
pub fn caret_shown() -> (r: bool) {
    cursor_visible(now_ms())
}

} // verus!
