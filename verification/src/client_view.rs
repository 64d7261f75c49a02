//! What the user-interface client renders and when it reconnects. Every rendered field comes from
//! the engine: the countdown from its ticks, the session state from its snapshots and
//! transitions; local time passing changes nothing.

use crate::protocol::Capability;
use crate::text::same_text;
use vstd::prelude::*;

verus! {

/// The capabilities the client declares at the handshake.
pub const CLIENT_CAPABILITIES: [Capability; 2] = [Capability::Indicator, Capability::Cancel];

/// Reconnect delays after consecutive failures, the last repeated.
pub const BACKOFF_MS: [u64; 6] = [500, 1_000, 2_000, 4_000, 8_000, 16_000];

/// Where the client stands with the engine.
#[derive(Debug, Clone, Copy, PartialEq, Eq, Structural)]
pub enum Phase {
    Disconnected { next_attempt_ms: u64, attempts: u32 },
    Handshaking,
    Connected,
    /// A gap or a disconnect notice: nothing is rendered until the snapshot arrives.
    Resyncing,
}

/// Everything the frontend may render. Every field comes from the engine.
#[derive(Debug, Clone, PartialEq, Eq)]
pub struct ViewState {
    pub connected: bool,
    pub session_state: Option<String>,
    pub session_id: Option<String>,
    /// From the latest `arming.tick`; `None` when the engine is not arming.
    pub countdown_remaining_ms: Option<u64>,
    pub recording: bool,
    pub last_error: Option<String>,
}

impl Default for ViewState {
    fn default() -> (v: ViewState)
        ensures
            !v.connected,
            v.session_state is None,
            v.session_id is None,
            v.countdown_remaining_ms is None,
            !v.recording,
            v.last_error is None,
    {
        ViewState {
            connected: false,
            session_state: None,
            session_id: None,
            countdown_remaining_ms: None,
            recording: false,
            last_error: None,
        }
    }
}

/// The delay before the next attempt after `failed_attempts` consecutive failures.
pub open spec fn backoff_spec(failed_attempts: u32) -> u64 {
    let i = if failed_attempts - 1 < 5 {
        failed_attempts - 1
    } else {
        5
    };
    if i == 0 {
        500
    } else if i == 1 {
        1_000
    } else if i == 2 {
        2_000
    } else if i == 3 {
        4_000
    } else if i == 4 {
        8_000
    } else {
        16_000
    }
}

/// The delay before the next attempt after `failed_attempts` (at least one) consecutive failures.
pub fn backoff_delay(failed_attempts: u32) -> (d: u64)
    requires
        failed_attempts >= 1,
    ensures
        d == backoff_spec(failed_attempts),
{
    let i: usize = if ((failed_attempts - 1) as usize) < BACKOFF_MS.len() - 1 {
        (failed_attempts - 1) as usize
    } else {
        BACKOFF_MS.len() - 1
    };
    BACKOFF_MS[i]
}

/// The phase after a disconnect at `now_ms` that brings the failure count to `failed_attempts`.
pub fn disconnected(failed_attempts: u32, now_ms: u64) -> (p: Phase)
    requires
        failed_attempts >= 1,
        now_ms <= u64::MAX - 16_000,
    ensures
        p == (Phase::Disconnected {
            next_attempt_ms: (now_ms + backoff_spec(failed_attempts)) as u64,
            attempts: failed_attempts,
        }),
{
    Phase::Disconnected { next_attempt_ms: now_ms + backoff_delay(failed_attempts), attempts: failed_attempts }
}

/// Whether a reconnect attempt is due.
pub fn reconnect_due(phase: Phase, now_ms: u64) -> (r: bool)
    ensures
        r == (phase matches Phase::Disconnected { next_attempt_ms, .. } && now_ms >= next_attempt_ms),
{
    match phase {
        Phase::Disconnected { next_attempt_ms, .. } => now_ms >= next_attempt_ms,
        _ => false,
    }
}

/// A session state that counts as recording for the indicator.
pub open spec fn is_recording_state(s: Option<Seq<char>>) -> bool {
    s == Some("recording"@) || s == Some("ending"@)
}

/// `Some` of an owned string's characters.
pub open spec fn opt_chars(o: Option<String>) -> Option<Seq<char>> {
    match o {
        Some(s) => Some(s@),
        None => None,
    }
}

fn state_is(s: &Option<String>, name: &str) -> (r: bool)
    ensures
        r == (opt_chars(*s) == Some(name@)),
{
    match s {
        Some(t) => same_text(t.as_str(), name),
        None => false,
    }
}

impl ViewState {
    /// Render an engine snapshot's state and session id: connected, recording for `recording`
    /// and `ending`, and the countdown kept only while arming.
    pub fn render_snapshot(&mut self, state: Option<String>, session_id: Option<String>)
        ensures
            final(self).connected,
            final(self).recording == is_recording_state(opt_chars(state)),
            final(self).countdown_remaining_ms == (if opt_chars(state) == Some("arming"@) {
                old(self).countdown_remaining_ms
            } else {
                None
            }),
            final(self).session_state == state,
            final(self).session_id == session_id,
            final(self).last_error == old(self).last_error,
    {
        self.connected = true;
        self.recording = state_is(&state, "recording") || state_is(&state, "ending");
        if !state_is(&state, "arming") {
            self.countdown_remaining_ms = None;
        }
        self.session_state = state;
        self.session_id = session_id;
    }

    /// Render a transition event to `to`.
    pub fn render_transition(&mut self, to: Option<String>)
        ensures
            final(self).recording == is_recording_state(opt_chars(to)),
            final(self).countdown_remaining_ms == (if opt_chars(to) == Some("arming"@) {
                old(self).countdown_remaining_ms
            } else {
                None
            }),
            final(self).session_state == to,
            final(self).connected == old(self).connected,
            final(self).session_id == old(self).session_id,
            final(self).last_error == old(self).last_error,
    {
        self.recording = state_is(&to, "recording") || state_is(&to, "ending");
        if !state_is(&to, "arming") {
            self.countdown_remaining_ms = None;
        }
        self.session_state = to;
    }

    /// Render an arming tick: the countdown is exactly what the engine says remains.
    pub fn render_tick(&mut self, remaining_ms: Option<u64>)
        ensures
            *final(self) == (ViewState { countdown_remaining_ms: remaining_ms, ..*old(self) }),
    {
        self.countdown_remaining_ms = remaining_ms;
    }

    /// Local state discarded while a snapshot is awaited: nothing about the session is shown.
    pub fn clear_session(&mut self)
        ensures
            final(self).session_state is None,
            final(self).session_id is None,
            final(self).countdown_remaining_ms is None,
            !final(self).recording,
            final(self).connected == old(self).connected,
            final(self).last_error == old(self).last_error,
    {
        self.session_state = None;
        self.session_id = None;
        self.countdown_remaining_ms = None;
        self.recording = false;
    }
}

} // verus!
