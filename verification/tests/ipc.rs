use meeting_assistant::authz::{
    authorize_client, same_path, verify_server, AuthzError, BuildChannel, ClientContext, ServerImage,
    SignatureStatus,
};
use meeting_assistant::dispatch::{
    admission, route, Admission, ClientAction, CloseReason, ConnectionState, EventQueue,
    ResyncState, Route, TransitionCause, GENERAL_QUEUE, TRANSITION_RESERVE,
};
use meeting_assistant::event::EventBody;
use meeting_assistant::method::{is_method_name, Method, METHOD_NAMES};
use meeting_assistant::protocol::{protocol_version, Capability, ErrorCode, Hello, ProtocolVersion};
use meeting_assistant::transport::{close_reason_for, TransportError};

const SID: &str = "S-1-5-21-1-2-3-1001";

fn transition(from: &str, to: &str) -> EventBody {
    EventBody::SessionTransition {
        from: from.into(),
        to: to.into(),
        cause: TransitionCause { kind: "command".into(), refs: vec![] },
    }
}

fn hello(version: &str) -> Method {
    Method::EngineHello(Hello {
        client_protocol: ProtocolVersion::parse(version).unwrap(),
        client_capabilities: vec![Capability::Indicator, Capability::Cancel],
    })
}

#[test]
fn handshake_major_mismatch_refused() {
    let mut conn = EventQueue::new();
    assert_eq!(route(conn.state(), &hello("2.0.0")), Route::Mismatch);
    assert_eq!(conn.state(), ConnectionState::Handshaking, "no partial operation on mismatch");
    assert_eq!(route(conn.state(), &Method::SessionStart), Route::NotHandshaken);
    // a compatible minor bump is fine
    assert_eq!(route(conn.state(), &hello("1.7.0")), Route::Handshake);
    conn.open();
    assert_eq!(conn.state(), ConnectionState::Open);
    assert_eq!(route(conn.state(), &hello("1.0.0")), Route::AlreadyHandshaken);
    assert_eq!(route(conn.state(), &Method::SessionSnapshot), Route::Snapshot);
    assert_eq!(route(conn.state(), &Method::SessionStart), Route::Apply);
    assert_eq!(protocol_version().to_text(), "1.0.0");
}

#[test]
fn stalled_client_resyncs() {
    // A client that stops reading while transitions pile up is cut off with ClientTooSlow;
    // levels are dropped oldest-first, never blocking.
    let mut conn = EventQueue::new();
    conn.open();
    for _ in 0..(GENERAL_QUEUE + 40) {
        assert!(!conn.publish(EventBody::CaptureLevel { track: "mic".into(), rms: -20 }));
    }
    assert!(conn.dropped_levels() > 0, "levels are dropped oldest-first, never blocking");
    assert_eq!(conn.state(), ConnectionState::Open);
    for _ in 0..TRANSITION_RESERVE {
        assert!(!conn.publish(transition("idle", "recording")));
    }
    assert_eq!(conn.state(), ConnectionState::Open, "the reserve holds exactly the reserved count");
    assert!(conn.publish(transition("recording", "ending")));
    assert_eq!(
        conn.state(),
        ConnectionState::Closed(CloseReason::ClientTooSlow),
        "transitions are never dropped; the client is"
    );
    // the client sees the disconnect and renders nothing until it re-snapshots
    let mut client = ResyncState::new();
    client.on_snapshot(Some(0));
    assert_eq!(client.on_too_slow(), ClientAction::Disconnected(CloseReason::ClientTooSlow));
    assert!(client.needs_snapshot && !client.rendering);
    assert_eq!(client.on_event(7), ClientAction::Suppressed { seq: 7 });

    // Second path: a gap without a disconnect forces a re-snapshot.
    let mut conn = EventQueue::new();
    conn.open();
    for _ in 0..(GENERAL_QUEUE + 10) {
        conn.publish(EventBody::CaptureLevel { track: "mic".into(), rms: -20 });
    }
    let mut client = ResyncState::new();
    client.on_snapshot(Some(0));
    let mut gap = None;
    while let Some(event) = conn.front() {
        let seq = event.seq;
        conn.pop_front();
        if let ClientAction::ResnapshotRequired { expected, got } = client.on_event(seq) {
            gap = Some((expected, got));
            break;
        }
    }
    assert_eq!(gap, Some((1, 11)), "the dropped levels leave a seq gap the client must notice");
    assert!(!client.rendering);
    // whatever is still in flight is suppressed; only the snapshot restores rendering
    while let Some(event) = conn.front() {
        let seq = event.seq;
        conn.pop_front();
        assert_eq!(client.on_event(seq), ClientAction::Suppressed { seq });
    }
    client.on_snapshot(Some(conn.last_seq()));
    assert!(client.rendering && !client.needs_snapshot);
    assert_eq!(client.last_seq, Some(GENERAL_QUEUE as u64 + 10));
}

#[test]
fn authz_foreign_sid_rejected_before_dispatch() {
    for foreign in [Some("S-1-5-21-9-9-9-1002"), None] {
        assert_eq!(admission(ConnectionState::Handshaking, SID, foreign), Admission::Refuse, "{foreign:?}");
    }
    assert_eq!(admission(ConnectionState::Handshaking, SID, Some(SID)), Admission::Proceed);
    assert_eq!(admission(ConnectionState::Closed(CloseReason::Shutdown), SID, Some(SID)), Admission::Skip);
    assert_eq!(authorize_client(SID, Some(SID)), Ok(()));
    assert_eq!(
        authorize_client(SID, Some("S-1-5-21-9-9-9-1002")),
        Err(AuthzError::SidMismatch { sid: "S-1-5-21-9-9-9-1002".into() })
    );
    assert_eq!(authorize_client(SID, None), Err(AuthzError::ImpersonationFailed));
}

#[test]
fn authz_build_channel_carveout() {
    let ctx = ClientContext {
        installed_engine_path: r"C:\Program Files\MeetingAssistant\ma-engine.exe".into(),
        own_target_dir: r"C:\src\meeting-assistant\target".into(),
    };
    let unsigned_dev = ServerImage {
        image_path: r"C:\src\meeting-assistant\target\debug\ma-engine.exe".into(),
        same_user_sid: true,
        signature: SignatureStatus::Unsigned,
    };
    let unsigned_elsewhere = ServerImage {
        image_path: r"C:\Users\x\Downloads\ma-engine.exe".into(),
        same_user_sid: true,
        signature: SignatureStatus::Unsigned,
    };
    let other_user_dev = ServerImage { same_user_sid: false, ..unsigned_dev.clone() };
    let installed_signed = ServerImage {
        image_path: ctx.installed_engine_path.clone(),
        same_user_sid: true,
        signature: SignatureStatus::ValidPinnedSigner,
    };
    let installed_unsigned = ServerImage { signature: SignatureStatus::Unsigned, ..installed_signed.clone() };
    let installed_unverifiable = ServerImage { signature: SignatureStatus::Unverifiable, ..installed_signed.clone() };
    // release: only the signed installed engine
    assert!(verify_server(BuildChannel::Release, &installed_signed, &ctx).is_ok());
    assert!(
        verify_server(BuildChannel::Release, &unsigned_dev, &ctx).is_err(),
        "release refuses an unsigned same-user server at a non-installed path"
    );
    assert!(verify_server(BuildChannel::Release, &installed_unsigned, &ctx).is_err());
    assert!(
        verify_server(BuildChannel::Release, &installed_unverifiable, &ctx).is_err(),
        "unverifiable is a mismatch, not a pass"
    );
    // development: own build tree, same user; an installed path still needs a signature
    assert!(verify_server(BuildChannel::Development, &unsigned_dev, &ctx).is_ok());
    assert!(verify_server(BuildChannel::Development, &unsigned_elsewhere, &ctx).is_err());
    assert!(verify_server(BuildChannel::Development, &other_user_dev, &ctx).is_err());
    assert!(verify_server(BuildChannel::Development, &installed_unsigned, &ctx).is_err());
    assert!(verify_server(BuildChannel::Development, &installed_signed, &ctx).is_ok());
    // no runtime input flips the channel
    assert_eq!(BuildChannel::compiled(), BuildChannel::Release);
    let warning = verify_server(BuildChannel::Release, &unsigned_dev, &ctx).unwrap_err();
    assert_eq!(warning.channel, BuildChannel::Release);
    assert_eq!(warning.image_path, unsigned_dev.image_path);
}

#[test]
fn unknown_method_is_typed_and_malformed_frame_closes_with_byte_count_only() {
    assert!(!is_method_name("session.teleport"));
    for name in METHOD_NAMES {
        assert!(is_method_name(name), "{name}");
    }
    assert_eq!(ErrorCode::MethodNotFound.code(), -32601);
    let payload = b"{\"jsonrpc\":\"2.0\",\"id\":6,\"method\":\"session.start\",\"params\":\"ZZ-SECRET-ZZ";
    let reason = close_reason_for(TransportError::Malformed { bytes: payload.len() });
    assert_eq!(reason, CloseReason::MalformedFrame { bytes: payload.len() });
    assert!(!format!("{reason:?}").contains("ZZ-SECRET"));
    assert_eq!(close_reason_for(TransportError::Closed), CloseReason::PeerClosed);
}

#[test]
fn versions_parse_as_semver_triples() {
    assert_eq!(ProtocolVersion::parse("1.0.0"), Some(ProtocolVersion { major: 1, minor: 0, patch: 0 }));
    assert_eq!(ProtocolVersion::parse("+1.02.3"), Some(ProtocolVersion { major: 1, minor: 2, patch: 3 }));
    for bad in ["", "1", "1.0", "1.0.0.0", "1..0", "a.b.c", "1.0.-1", "18446744073709551616.0.0"] {
        assert_eq!(ProtocolVersion::parse(bad), None, "{bad:?}");
    }
    let v = ProtocolVersion { major: 18446744073709551615, minor: 7, patch: 10 };
    assert_eq!(ProtocolVersion::parse(&v.to_text()), Some(v));
}

#[test]
fn error_codes_round_trip() {
    for code in [
        ErrorCode::ParseError,
        ErrorCode::InvalidRequest,
        ErrorCode::MethodNotFound,
        ErrorCode::InvalidParams,
        ErrorCode::ProtocolMismatch,
        ErrorCode::ClientTooSlow,
        ErrorCode::Unauthorized,
        ErrorCode::NotHandshaken,
        ErrorCode::Rejected,
        ErrorCode::NotImplemented,
    ] {
        assert_eq!(ErrorCode::from_code(code.code()), Some(code));
    }
    assert_eq!(ErrorCode::from_code(-1), None);
    assert_eq!(ErrorCode::NotImplemented.code(), -32006);
}

#[test]
fn event_and_method_names() {
    assert_eq!(transition("a", "b").name(), "session.transition");
    assert!(transition("a", "b").is_transition());
    assert!(EventBody::CaptureLevel { track: "mic".into(), rms: -1 }.is_droppable());
    assert!(!EventBody::ArmingTick { remaining_ms: 1 }.is_droppable());
    assert_eq!(EventBody::ArmingTick { remaining_ms: 1 }.name(), "arming.tick");
    assert_eq!(Method::SessionCancelArming.name(), "session.cancel_arming");
    assert_eq!(Method::SessionExtendHysteresis { extend: true }.name(), "session.extend_hysteresis");
}

#[test]
fn the_installed_path_is_compared_by_components() {
    let installed = r"C:\Program Files\MeetingAssistant\ma-engine.exe";
    assert!(same_path(installed, r"C:\Program Files\MeetingAssistant\ma-engine.exe"));
    assert!(same_path(installed, "C:/Program Files/MeetingAssistant/ma-engine.exe"));
    assert!(same_path(installed, r"C:\Program Files\\MeetingAssistant\.\ma-engine.exe\"));
    assert!(!same_path(installed, r"C:\Program Files\MeetingAssistant\..\ma-engine.exe"));
    assert!(!same_path(installed, r"\C:\Program Files\MeetingAssistant\ma-engine.exe"));
    assert!(!same_path("./a", "a"));
    assert!(same_path("a/./b", "a/b"));
    let ctx = ClientContext {
        installed_engine_path: installed.into(),
        own_target_dir: r"C:\src\meeting-assistant\target".into(),
    };
    let signed = ServerImage {
        image_path: "C:/Program Files/MeetingAssistant/ma-engine.exe".into(),
        same_user_sid: true,
        signature: SignatureStatus::ValidPinnedSigner,
    };
    assert!(verify_server(BuildChannel::Release, &signed, &ctx).is_ok());
}
