//! The closed method set (UI to engine). Every method's effect is observable in a later snapshot.

use crate::ids::{ArtifactId, MeetingId};
use crate::protocol::Hello;
use crate::text::same_text;
use vstd::prelude::*;

verus! {

/// The wire names of the closed method set, in schema order.
pub const METHOD_NAMES: [&'static str; 14] = [
    "engine.hello",
    "session.snapshot",
    "session.start",
    "session.stop",
    "session.pause",
    "session.resume",
    "session.discard",
    "session.cancel_arming",
    "session.extend_hysteresis",
    "mode.set",
    "artifact.edit",
    "meeting.delete",
    "diagnostics.export",
    "engine.shutdown",
];

/// Wire form of a capture mode.
#[derive(Debug, Clone, Copy, PartialEq, Eq, Structural, Hash)]
pub enum ModeName {
    Auto,
    Ask,
    Manual,
}

/// Wire form of an application class.
#[derive(Debug, Clone, Copy, PartialEq, Eq, Structural, Hash)]
pub enum AppClassName {
    Desktop,
    Browser,
}

/// What a mode setting applies to.
#[derive(Debug, Clone, PartialEq, Eq)]
pub enum ModeScope {
    Global,
    Class { class: AppClassName },
    Adapter { adapter_id: String },
}

/// One request of the closed set.
#[derive(Debug, Clone, PartialEq, Eq)]
pub enum Method {
    EngineHello(Hello),
    SessionSnapshot,
    SessionStart,
    SessionStop,
    SessionPause,
    SessionResume,
    SessionDiscard,
    SessionCancelArming,
    SessionExtendHysteresis { extend: bool },
    ModeSet { scope: ModeScope, mode: ModeName },
    ArtifactEdit { artifact_id: ArtifactId, edit_revision: u32 },
    MeetingDelete { meeting_id: MeetingId },
    DiagnosticsExport,
    EngineShutdown,
}

/// The closed set of method names, in schema order.
pub open spec fn method_names() -> Seq<Seq<char>> {
    seq![
        "engine.hello"@,
        "session.snapshot"@,
        "session.start"@,
        "session.stop"@,
        "session.pause"@,
        "session.resume"@,
        "session.discard"@,
        "session.cancel_arming"@,
        "session.extend_hysteresis"@,
        "mode.set"@,
        "artifact.edit"@,
        "meeting.delete"@,
        "diagnostics.export"@,
        "engine.shutdown"@,
    ]
}

/// The position of each method's name in the closed set.
pub open spec fn method_index(m: Method) -> int {
    match m {
        Method::EngineHello(_) => 0,
        Method::SessionSnapshot => 1,
        Method::SessionStart => 2,
        Method::SessionStop => 3,
        Method::SessionPause => 4,
        Method::SessionResume => 5,
        Method::SessionDiscard => 6,
        Method::SessionCancelArming => 7,
        Method::SessionExtendHysteresis { .. } => 8,
        Method::ModeSet { .. } => 9,
        Method::ArtifactEdit { .. } => 10,
        Method::MeetingDelete { .. } => 11,
        Method::DiagnosticsExport => 12,
        Method::EngineShutdown => 13,
    }
}

impl Method {
    /// The method's wire name.
    pub fn name(&self) -> (r: &'static str)
        ensures
            r@ == method_names()[method_index(*self)],
    {
        match self {
            Method::EngineHello(_) => "engine.hello",
            Method::SessionSnapshot => "session.snapshot",
            Method::SessionStart => "session.start",
            Method::SessionStop => "session.stop",
            Method::SessionPause => "session.pause",
            Method::SessionResume => "session.resume",
            Method::SessionDiscard => "session.discard",
            Method::SessionCancelArming => "session.cancel_arming",
            Method::SessionExtendHysteresis { .. } => "session.extend_hysteresis",
            Method::ModeSet { .. } => "mode.set",
            Method::ArtifactEdit { .. } => "artifact.edit",
            Method::MeetingDelete { .. } => "meeting.delete",
            Method::DiagnosticsExport => "diagnostics.export",
            Method::EngineShutdown => "engine.shutdown",
        }
    }
}

/// Whether a request's method name is in the closed set; an unknown name is a typed error,
/// never a no-op.
pub fn is_method_name(name: &str) -> (r: bool)
    ensures
        r == method_names().contains(name@),
{
    let mut i: usize = 0;
    while i < 14
        invariant
            i <= 14,
            forall|k: int| 0 <= k < i ==> method_names()[k] != name@,
        decreases 14 - i,
    {
        if same_text(METHOD_NAMES[i], name) {
            proof {
                assert(METHOD_NAMES[i as int]@ == method_names()[i as int]) by {
                    reveal_strlit("engine.hello");
                    reveal_strlit("session.snapshot");
                    reveal_strlit("session.start");
                    reveal_strlit("session.stop");
                    reveal_strlit("session.pause");
                    reveal_strlit("session.resume");
                    reveal_strlit("session.discard");
                    reveal_strlit("session.cancel_arming");
                    reveal_strlit("session.extend_hysteresis");
                    reveal_strlit("mode.set");
                    reveal_strlit("artifact.edit");
                    reveal_strlit("meeting.delete");
                    reveal_strlit("diagnostics.export");
                    reveal_strlit("engine.shutdown");
                }
            }
            return true;
        }
        proof {
            assert(METHOD_NAMES[i as int]@ == method_names()[i as int]) by {
                reveal_strlit("engine.hello");
                reveal_strlit("session.snapshot");
                reveal_strlit("session.start");
                reveal_strlit("session.stop");
                reveal_strlit("session.pause");
                reveal_strlit("session.resume");
                reveal_strlit("session.discard");
                reveal_strlit("session.cancel_arming");
                reveal_strlit("session.extend_hysteresis");
                reveal_strlit("mode.set");
                reveal_strlit("artifact.edit");
                reveal_strlit("meeting.delete");
                reveal_strlit("diagnostics.export");
                reveal_strlit("engine.shutdown");
            }
        }
        i += 1;
    }
    false
}

/// Every method's name is in the closed set, and distinct kinds of method have distinct names.
pub proof fn law_method_names_closed(m: Method, n: Method)
    ensures
        method_names().contains(method_names()[method_index(m)]),
        method_index(m) != method_index(n) ==> method_names()[method_index(m)]
            != method_names()[method_index(n)],
{
    assert(0 <= method_index(m) < 14);
    reveal_strlit("engine.hello");
    reveal_strlit("session.snapshot");
    reveal_strlit("session.start");
    reveal_strlit("session.stop");
    reveal_strlit("session.pause");
    reveal_strlit("session.resume");
    reveal_strlit("session.discard");
    reveal_strlit("session.cancel_arming");
    reveal_strlit("session.extend_hysteresis");
    reveal_strlit("mode.set");
    reveal_strlit("artifact.edit");
    reveal_strlit("meeting.delete");
    reveal_strlit("diagnostics.export");
    reveal_strlit("engine.shutdown");
    if method_index(m) != method_index(n) {
        let a = method_names()[method_index(m)];
        let b = method_names()[method_index(n)];
        assert(a.len() != b.len() || a[a.len() - 1] != b[b.len() - 1] || a[0] != b[0] || a[8]
            != b[8] || a[9] != b[9] || a[10] != b[10]);
    }
}

} // verus!
