//! The engine's instance lock and its session-aware update gate: an update never replaces the
//! running binary while a session is in progress.

use vstd::prelude::*;

verus! {

/// Why the instance lock was not taken.
#[derive(Debug, Clone, Copy, PartialEq, Eq, Structural)]
pub enum LockError {
    /// The pipe name already exists: another engine is running. Exit without side effects.
    EngineAlreadyRunning,
    Unsupported,
}

/// The instance lock on this platform: there is no implementation here, so it is always
/// unsupported.
pub fn platform_lock(installation_id: &str) -> (r: Result<(), LockError>)
    ensures
        r == Err::<(), LockError>(LockError::Unsupported),
{
    Err(LockError::Unsupported)
}

/// The session states the update gate reads.
#[derive(Debug, Clone, Copy, PartialEq, Eq, Structural, Hash)]
pub enum State {
    Idle,
    Candidate,
    Arming,
    Recording,
    Paused,
    Ending,
    Finalizing,
    Completed,
    Discarded,
    Interrupted,
    Failed,
}

/// A finished session: completed, discarded or failed. An interrupted session is not finished:
/// it proceeds to finalizing on recovery.
pub open spec fn is_terminal_spec(s: State) -> bool {
    s == State::Completed || s == State::Discarded || s == State::Failed
}

/// A session in progress: anything but idle (no session) and the terminal states.
pub open spec fn non_terminal_spec(s: State) -> bool {
    s != State::Idle && !is_terminal_spec(s)
}

impl State {
    /// Whether the session is finished.
    pub fn is_terminal(self) -> (r: bool)
        ensures
            r == is_terminal_spec(self),
    {
        match self {
            State::Completed | State::Discarded | State::Failed => true,
            _ => false,
        }
    }
}

fn session_is_non_terminal(state: State) -> (r: bool)
    ensures
        r == non_terminal_spec(state),
{
    state != State::Idle && !state.is_terminal()
}

/// A staged update.
#[derive(Debug, Clone, PartialEq, Eq)]
pub struct UpdateOffer {
    pub version: String,
    pub staged_path: String,
}

/// What happens to an offered update.
#[derive(Debug, Clone, Copy, PartialEq, Eq, Structural)]
pub enum UpdateDisposition {
    /// The running binary stays in place; the offer is kept and re-evaluated at the next terminal
    /// transition.
    Deferred { until_session_terminal: bool },
    Apply,
}

/// The engine-side update gate.
#[derive(Debug)]
pub struct Supervisor {
    pub session_state: State,
    pub pending_update: Option<UpdateOffer>,
    pub applied: Vec<UpdateOffer>,
}

impl Default for Supervisor {
    fn default() -> (s: Supervisor)
        ensures
            s.session_state == State::Idle,
            s.pending_update is None,
            s.applied@.len() == 0,
    {
        Supervisor { session_state: State::Idle, pending_update: None, applied: Vec::new() }
    }
}

impl Supervisor {
    /// An update is applied only when no session is in progress; otherwise it waits, replacing
    /// any offer that was already waiting.
    pub fn offer_update(&mut self, offer: UpdateOffer) -> (d: UpdateDisposition)
        ensures
            final(self).session_state == old(self).session_state,
            non_terminal_spec(old(self).session_state) ==> d == (UpdateDisposition::Deferred {
                until_session_terminal: true,
            }) && final(self).pending_update == Some(offer) && final(self).applied@ == old(
                self,
            ).applied@,
            !non_terminal_spec(old(self).session_state) ==> d == UpdateDisposition::Apply
                && final(self).pending_update == old(self).pending_update && final(self).applied@
                == old(self).applied@.push(offer),
    {
        if session_is_non_terminal(self.session_state) {
            self.pending_update = Some(offer);
            UpdateDisposition::Deferred { until_session_terminal: true }
        } else {
            self.applied.push(offer);
            UpdateDisposition::Apply
        }
    }

    /// Called on every session transition; a waiting offer applies once no session is in
    /// progress.
    pub fn on_transition(&mut self, to: State) -> (d: Option<UpdateDisposition>)
        ensures
            final(self).session_state == to,
            (!non_terminal_spec(to) && old(self).pending_update is Some) ==> d == Some(
                UpdateDisposition::Apply,
            ) && final(self).pending_update is None && final(self).applied@ == old(
                self,
            ).applied@.push(old(self).pending_update->0),
            !(!non_terminal_spec(to) && old(self).pending_update is Some) ==> d is None
                && final(self).pending_update == old(self).pending_update && final(self).applied@
                == old(self).applied@,
    {
        self.session_state = to;
        if !session_is_non_terminal(to) {
            if let Some(offer) = self.pending_update.take() {
                self.applied.push(offer);
                return Some(UpdateDisposition::Apply);
            }
        }
        None
    }
}

} // verus!
