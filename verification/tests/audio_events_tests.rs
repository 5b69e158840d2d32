use muteapp::audio::{classify_session, next_mute_state, SessionCheck};
use muteapp::events::{hotkey_event_toggles, window_center, message_step, timer_step, LoopStep, TimerStep, ANIMATION_TIMER_ID, EXIT_MESSAGE, HIDE_TIMER_ID, TIMER_MESSAGE};

#[test]
fn sessions_are_classified() {
    assert!(matches!(classify_session(true, 1), SessionCheck::Skip));
    assert!(matches!(classify_session(true, -1), SessionCheck::Skip));
    assert!(matches!(classify_session(false, 0), SessionCheck::Skip));
    assert!(matches!(classify_session(false, 1), SessionCheck::CheckProcess));
    assert!(matches!(classify_session(false, -2147467259), SessionCheck::Fail));
}

#[test]
fn toggle_mutes_unless_all_muted() {
    assert_eq!(next_mute_state(&vec![]), None);
    assert_eq!(next_mute_state(&vec![false]), Some(true));
    assert_eq!(next_mute_state(&vec![true, false]), Some(true));
    assert_eq!(next_mute_state(&vec![true, true]), Some(false));
}

#[test]
fn second_toggle_reverses_first() {
    let first = next_mute_state(&vec![true, false, true]).unwrap();
    let second = next_mute_state(&vec![first; 3]).unwrap();
    assert_eq!(second, !first);
    let third = next_mute_state(&vec![second; 3]).unwrap();
    assert_eq!(third, first);
}

#[test]
fn message_loop_steps() {
    assert!(matches!(message_step(EXIT_MESSAGE, false), LoopStep::Quit));
    assert!(matches!(message_step(EXIT_MESSAGE, true), LoopStep::Quit));
    assert!(matches!(message_step(TIMER_MESSAGE, true), LoopStep::OverlayTimer));
    assert!(matches!(message_step(TIMER_MESSAGE, false), LoopStep::Dispatch));
    assert!(matches!(message_step(0x0312, true), LoopStep::Dispatch));
}

#[test]
fn timer_steps() {
    assert!(matches!(timer_step(HIDE_TIMER_ID), TimerStep::Hide));
    assert!(matches!(timer_step(ANIMATION_TIMER_ID), TimerStep::Animate));
    assert!(matches!(timer_step(3), TimerStep::Ignore));
}

#[test]
fn only_presses_of_the_hotkey_toggle() {
    assert!(hotkey_event_toggles(7, 7, true));
    assert!(!hotkey_event_toggles(7, 7, false));
    assert!(!hotkey_event_toggles(7, 8, true));
}

#[test]
fn window_center_rounds_toward_zero() {
    assert_eq!(window_center(0, 0, 101, 50), (50, 25));
    assert_eq!(window_center(-101, -3, 0, 0), (-50, -1));
    assert_eq!(window_center(i32::MIN, i32::MAX, i32::MAX, i32::MIN), (0, 0));
    // Sums out of range wrap as in a release build.
    assert_eq!(window_center(i32::MAX, 0, 1, 0), (i32::MIN / 2, 0));
    assert_eq!(window_center(i32::MIN, 0, -2, 0), ((i32::MAX - 1) / 2, 0));
}
