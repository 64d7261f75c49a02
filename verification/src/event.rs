//! The closed event set (engine to UI). Every event carries a strictly increasing
//! per-connection sequence number.

use crate::dispatch::TransitionCause;
use vstd::prelude::*;

verus! {

/// The wire names of the closed event set.
pub const EVENT_NAMES: [&'static str; 6] = [
    "session.transition",
    "capture.level",
    "capture.degraded",
    "arming.tick",
    "detector.decision",
    "error",
];

/// One published event and its sequence number on its connection.
#[derive(Debug, Clone, PartialEq, Eq)]
pub struct Event {
    pub seq: u64,
    pub body: EventBody,
}

/// What an event says.
#[derive(Debug, Clone, PartialEq, Eq)]
pub enum EventBody {
    /// A session state change; `from` and `to` are snake_case state names.
    SessionTransition { from: String, to: String, cause: TransitionCause },
    /// `rms` in dBFS.
    CaptureLevel { track: String, rms: i16 },
    CaptureDegraded { reason: String },
    ArmingTick { remaining_ms: u64 },
    DetectorDecision { outcome: String, evidence: Vec<String> },
    Error { code: i64, message: String },
}

/// The closed set of event names.
pub open spec fn event_names() -> Seq<Seq<char>> {
    seq![
        "session.transition"@,
        "capture.level"@,
        "capture.degraded"@,
        "arming.tick"@,
        "detector.decision"@,
        "error"@,
    ]
}

/// The position of each event's name in the closed set.
pub open spec fn event_index(b: EventBody) -> int {
    match b {
        EventBody::SessionTransition { .. } => 0,
        EventBody::CaptureLevel { .. } => 1,
        EventBody::CaptureDegraded { .. } => 2,
        EventBody::ArmingTick { .. } => 3,
        EventBody::DetectorDecision { .. } => 4,
        EventBody::Error { .. } => 5,
    }
}

impl EventBody {
    /// The event's wire name.
    pub fn name(&self) -> (r: &'static str)
        ensures
            r@ == event_names()[event_index(*self)],
    {
        match self {
            EventBody::SessionTransition { .. } => "session.transition",
            EventBody::CaptureLevel { .. } => "capture.level",
            EventBody::CaptureDegraded { .. } => "capture.degraded",
            EventBody::ArmingTick { .. } => "arming.tick",
            EventBody::DetectorDecision { .. } => "detector.decision",
            EventBody::Error { .. } => "error",
        }
    }

    /// Whether the event is a session transition, which is never dropped.
    pub fn is_transition(&self) -> (r: bool)
        ensures
            r == (*self is SessionTransition),
    {
        match self {
            EventBody::SessionTransition { .. } => true,
            _ => false,
        }
    }

    /// Whether the event may be dropped under back-pressure: only level meters are.
    pub fn is_droppable(&self) -> (r: bool)
        ensures
            r == (*self is CaptureLevel),
    {
        match self {
            EventBody::CaptureLevel { .. } => true,
            _ => false,
        }
    }
}

} // verus!
