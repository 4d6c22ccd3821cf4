//! The thin scrollbar pickers draw over their list: it shows when the list scrolls, stays a second, then
//! fades out over the next 400 ms.

use vstd::prelude::*;
use std::time::{Duration, Instant};

verus! {

#[verifier::external_type_specification]
#[verifier::external_body]
pub struct ExInstant(Instant);

/// How long the bar stays fully shown, in nanoseconds.
pub const HIDE_DELAY_NANOS: u128 = 1_000_000_000;

/// How long it then takes to fade out, in nanoseconds.
pub const FADE_NANOS: u128 = 400_000_000;

/// `Instant::now()`. Nothing is claimed of the reading: it is the machine's clock.
#[verifier::external_body]
fn now() -> Instant {
    Instant::now()
}

/// `Instant::elapsed`. Nothing is claimed of the reading: it depends on the clock.
#[verifier::external_body]
fn elapsed_since(t: &Instant) -> Duration {
    t.elapsed()
}

/// What `Duration::as_nanos` gives: the whole duration in nanoseconds.
pub uninterp spec fn duration_total_nanos(d: Duration) -> u128;

/// `Duration::as_nanos`: the whole duration in nanoseconds, named `duration_total_nanos`.
#[verifier::external_body]
fn as_nanos(d: &Duration) -> (r: u128)
    ensures
        r == duration_total_nanos(*d),
{
    d.as_nanos()
}

/// How long ago `t` was, in whole nanoseconds.
fn nanos_since(t: &Instant) -> u128 {
    let d = elapsed_since(t);
    as_nanos(&d)
}

/// When the bar was last shown, if ever.
pub struct ScrollbarReveal {
    shown_at: Option<Instant>,
}

impl View for ScrollbarReveal {
    /// Whether the bar has been shown.
    type V = bool;

    closed spec fn view(&self) -> bool {
        self.shown_at is Some
    }
}

impl Default for ScrollbarReveal {
    fn default() -> (r: ScrollbarReveal)
        ensures
            !r@,
    {
        ScrollbarReveal { shown_at: None }
    }
}

/// A bar shown `elapsed` nanoseconds ago is still on screen: shown or fading.
pub open spec fn on_screen_after(elapsed: u128) -> bool {
    elapsed < HIDE_DELAY_NANOS + FADE_NANOS
}

/// Whether a bar shown `elapsed` nanoseconds ago is still on screen.
pub fn still_on_screen(elapsed: u128) -> (r: bool)
    ensures
        r == on_screen_after(elapsed),
{
    elapsed < HIDE_DELAY_NANOS + FADE_NANOS
}

impl ScrollbarReveal {
    /// Show the bar from now on.
    pub fn reveal_now(&mut self)
        ensures
            final(self)@,
    {
        self.shown_at = Some(now());
    }

    /// Whether the bar is shown or still fading, so the list must be drawn again. Never before the first
    /// `reveal_now`; afterwards, whether the time since then is under the delay and the fade together.
    pub fn is_animating(&self) -> (r: bool)
        ensures
            r ==> self@,
    {
        match &self.shown_at {
            Some(t) => still_on_screen(nanos_since(t)),
            None => false,
        }
    }

    /// How long ago the bar was shown, in nanoseconds; `None` before the first `reveal_now`.
    pub fn shown_for_nanos(&self) -> (r: Option<u128>)
        ensures
            r is Some <==> self@,
    {
        match &self.shown_at {
            Some(t) => Some(nanos_since(t)),
            None => None,
        }
    }
}

} // verus!
