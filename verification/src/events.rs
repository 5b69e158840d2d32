//! The decisions of the message loop and of the overlay's timers.
use vstd::prelude::*;

verus! {

/// The message that asks the message loop to end (`WM_APP + 1`).
pub const EXIT_MESSAGE: u32 = 0x8001;

/// The message that a window timer sends (`WM_TIMER`).
pub const TIMER_MESSAGE: u32 = 0x0113;

/// The timer that hides the overlay when animations are off.
pub const HIDE_TIMER_ID: usize = 1;

/// The timer that drives the overlay's fade animation.
pub const ANIMATION_TIMER_ID: usize = 2;

/// What the message loop does with a message.
pub enum LoopStep {
    /// Leave the loop.
    Quit,
    /// Hand the timer to the overlay window, and go on to the next message.
    OverlayTimer,
    /// Dispatch the message, then handle the hotkey and menu events.
    Dispatch,
}

/// Decides what the message loop does with `message`; `for_overlay` says
/// whether the message is addressed to the overlay window.
pub fn message_step(message: u32, for_overlay: bool) -> (r: LoopStep)
    ensures
        message == EXIT_MESSAGE ==> r is Quit,
        message != EXIT_MESSAGE && message == TIMER_MESSAGE && for_overlay ==> r is OverlayTimer,
        message != EXIT_MESSAGE && !(message == TIMER_MESSAGE && for_overlay) ==> r is Dispatch,
{
    if message == EXIT_MESSAGE {
        LoopStep::Quit
    } else if message == TIMER_MESSAGE && for_overlay {
        LoopStep::OverlayTimer
    } else {
        LoopStep::Dispatch
    }
}

/// What the overlay does when one of its timers fires.
pub enum TimerStep {
    Hide,
    Animate,
    Ignore,
}

/// Decides what the overlay does when the timer `timer_id` fires.
pub fn timer_step(timer_id: usize) -> (r: TimerStep)
    ensures
        timer_id == HIDE_TIMER_ID ==> r is Hide,
        timer_id == ANIMATION_TIMER_ID ==> r is Animate,
        timer_id != HIDE_TIMER_ID && timer_id != ANIMATION_TIMER_ID ==> r is Ignore,
{
    if timer_id == HIDE_TIMER_ID {
        TimerStep::Hide
    } else if timer_id == ANIMATION_TIMER_ID {
        TimerStep::Animate
    } else {
        TimerStep::Ignore
    }
}

/// Whether a hotkey event toggles muting: it must be a press of the
/// registered hotkey.
pub fn hotkey_event_toggles(event_id: u32, hotkey_id: u32, pressed: bool) -> (r: bool)
    ensures
        r == (event_id == hotkey_id && pressed),
{
    event_id == hotkey_id && pressed
}

/// Half of `x`, rounded toward zero as integer division does.
pub open spec fn half_toward_zero(x: int) -> int {
    if x >= 0 {
        x / 2
    } else {
        -((-x) / 2)
    }
}

/// The sum of two `i32`s as a release build computes it: wrapped into the
/// range of `i32`.
pub open spec fn wrapped_i32_sum(a: i32, b: i32) -> int {
    if a + b > i32::MAX {
        a + b - 0x1_0000_0000
    } else if a + b < i32::MIN {
        a + b + 0x1_0000_0000
    } else {
        a + b
    }
}

/// The centre of a window's rectangle: each pair of edges summed (wrapping
/// as a release build does) and halved, rounded toward zero.
pub fn window_center(left: i32, top: i32, right: i32, bottom: i32) -> (r: (i32, i32))
    ensures
        r.0 == half_toward_zero(wrapped_i32_sum(left, right)),
        r.1 == half_toward_zero(wrapped_i32_sum(top, bottom)),
{
    (half_of_wrapped_sum(left, right), half_of_wrapped_sum(top, bottom))
}

fn half_of_wrapped_sum(a: i32, b: i32) -> (r: i32)
    ensures
        r == half_toward_zero(wrapped_i32_sum(a, b)),
{
    let wide = a as i64 + b as i64;
    let sum: i64 = if wide > i32::MAX as i64 {
        wide - 0x1_0000_0000
    } else if wide < i32::MIN as i64 {
        wide + 0x1_0000_0000
    } else {
        wide
    };
    let sum = sum as i32;
    sum / 2
}

} // verus!
