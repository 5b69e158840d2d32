//! The decisions of the mute toggle: which audio sessions belong to the
//! focused application, and which mute state they are all switched to.
use vstd::prelude::*;

verus! {

/// What the toggle does with one audio session while it looks for those of
/// a process.
pub enum SessionCheck {
    /// The session is passed over: it has expired, or it is the system
    /// sounds session.
    Skip,
    /// Asking whether it is the system sounds session failed.
    Fail,
    /// The session counts if it belongs to the process.
    CheckProcess,
}

/// The check for a session, given whether it has expired and the status
/// that asking whether it is the system sounds session returned (`0`: it
/// is; positive: it is not; negative: the request failed).
pub open spec fn session_check_of(expired: bool, system_sounds_status: i32) -> SessionCheck {
    if expired {
        SessionCheck::Skip
    } else if system_sounds_status == 0 {
        SessionCheck::Skip
    } else if system_sounds_status < 0 {
        SessionCheck::Fail
    } else {
        SessionCheck::CheckProcess
    }
}

/// Decides what to do with an audio session.
pub fn classify_session(expired: bool, system_sounds_status: i32) -> (r: SessionCheck)
    ensures
        r == session_check_of(expired, system_sounds_status),
{
    if expired {
        SessionCheck::Skip
    } else if system_sounds_status == 0 {
        SessionCheck::Skip
    } else if system_sounds_status < 0 {
        SessionCheck::Fail
    } else {
        SessionCheck::CheckProcess
    }
}

/// The mute state that the sessions of an application are all switched to:
/// unmuted when every one of them is muted, muted otherwise; none when the
/// application has no session.
pub open spec fn toggled_mute(states: Seq<bool>) -> Option<bool> {
    if states.len() == 0 {
        None
    } else {
        Some(!(forall|i: int| 0 <= i < states.len() ==> #[trigger] states[i]))
    }
}

/// The mute state to switch to, given the mute states of the sessions, read
/// in order; reading may stop at the first unmuted session.
pub fn next_mute_state(states: &Vec<bool>) -> (r: Option<bool>)
    ensures
        r == toggled_mute(states@),
{
    if states.len() == 0 {
        return None;
    }
    let mut i: usize = 0;
    while i < states.len()
        invariant
            0 <= i <= states.len(),
            forall|j: int| 0 <= j < i ==> states@[j],
        decreases states.len() - i,
    {
        if !states[i] {
            return Some(true);
        }
        i += 1;
    }
    Some(false)
}

/// Pressing the hotkey a second time undoes the first press: once every
/// session has been switched to the new state, the next toggle switches
/// them all to the opposite one.
pub proof fn lemma_second_toggle_reverses(states: Seq<bool>)
    requires
        states.len() > 0,
    ensures
        ({
            let first = toggled_mute(states)->0;
            toggled_mute(Seq::new(states.len(), |i: int| first)) == Some(!first)
        }),
{
    lemma_toggle_flips_agreeing_sessions(states.len(), toggled_mute(states)->0);
}

/// Sessions that agree are all switched to the opposite state.
pub proof fn lemma_toggle_flips_agreeing_sessions(n: nat, muted: bool)
    requires
        n > 0,
    ensures
        toggled_mute(Seq::new(n, |i: int| muted)) == Some(!muted),
{
    let s = Seq::new(n, |i: int| muted);
    assert(s[0] == muted);
}

/// If any session, wherever it stands, is unmuted, the toggle mutes them
/// all.
pub proof fn lemma_toggle_mutes_when_any_unmuted(states: Seq<bool>, i: int)
    requires
        0 <= i < states.len(),
        !states[i],
    ensures
        toggled_mute(states) == Some(true),
{
}

/// If every session is muted, the toggle unmutes them all.
pub proof fn lemma_toggle_unmutes_when_all_muted(states: Seq<bool>)
    requires
        states.len() > 0,
        forall|i: int| 0 <= i < states.len() ==> states[i],
    ensures
        toggled_mute(states) == Some(false),
{
}

} // verus!
