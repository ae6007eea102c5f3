//! Per-tick session decisions.
//!
//! The render loop itself performs terminal I/O and therefore lives outside
//! the library; it feeds every polled key event and the queried terminal
//! size through these functions, so that the decisions that drive the loop
//! are verified.

use vstd::prelude::*;

verus! {

/// The one key that ends a session; no other key has any effect.
pub const QUIT_KEY: char = 'q';

/// Width of the fallback viewport used when the terminal size query fails.
pub const FALLBACK_WIDTH: u16 = 80;

/// Height of the fallback viewport used when the terminal size query fails.
pub const FALLBACK_HEIGHT: u16 = 24;

/// Milliseconds between two ticks: the animation's sole timing source.
pub const TICK_MILLIS: u64 = 150;

/// Milliseconds the scroll loop waits on its per-tick input poll.
pub const POLL_MILLIS: u64 = 50;

/// Milliseconds the slideshow loop waits on its per-frame input poll.
pub const FRAME_POLL_MILLIS: u64 = 100;

/// Seconds the one-time instructional message stays on screen.
pub const INTRO_PAUSE_SECS: u64 = 2;

/// Decides whether a polled key event ends the session: exactly the events
/// carrying the designated quit character do.
pub fn quit_requested(key: Option<char>) -> (quit: bool)
    ensures
        quit <==> key == Some(QUIT_KEY),
{
    match key {
        Some(c) => c == QUIT_KEY,
        None => false,
    }
}

/// The viewport for a session: the queried size when one is available, the
/// fixed fallback otherwise.
pub fn viewport_or_default(size: Option<(u16, u16)>) -> (vp: (u16, u16))
    ensures
        size is Some ==> vp == size->Some_0,
        size is None ==> vp == (FALLBACK_WIDTH, FALLBACK_HEIGHT),
{
    match size {
        Some(s) => s,
        None => (FALLBACK_WIDTH, FALLBACK_HEIGHT),
    }
}

} // verus!
