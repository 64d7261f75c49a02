use meeting_assistant::detector::{Authority, SignalKind};
use meeting_assistant::ext_auth::{EndpointDescriptor, RejectReason, Token};
use meeting_assistant::ext_server::{
    Clock, Request, Response, Server, ServerConfig, FRESHNESS_WINDOW_MS, MAX_MESSAGES_PER_SECOND,
    MAX_QUEUED_SIGNALS,
};
use std::cell::Cell;
use std::rc::Rc;

#[derive(Clone)]
struct FakeClock {
    mono_ns: Rc<Cell<u64>>,
    wall_ms: Rc<Cell<i64>>,
}
impl Clock for FakeClock {
    fn monotonic_ns(&self) -> u64 {
        self.mono_ns.get()
    }
    fn wall_utc_ms(&self) -> i64 {
        self.wall_ms.get()
    }
}

fn server() -> (Server<FakeClock>, FakeClock) {
    let clock = FakeClock { mono_ns: Rc::new(Cell::new(1_000_000_000)), wall_ms: Rc::new(Cell::new(1_756_857_600_000)) };
    (
        Server::start(&ServerConfig { pinned_extension_id: "abcdefghijklmnopabcdefghijklmnop".into() }, clock.clone()),
        clock,
    )
}
const ORIGIN: &str = "chrome-extension://abcdefghijklmnopabcdefghijklmnop";
fn body(seq: u64, observed_at_ms: i64) -> Vec<u8> {
    body_for("inst-a", seq, observed_at_ms, true, true)
}
fn body_for(instance: &str, seq: u64, observed_at_ms: i64, audible: bool, meeting_present: bool) -> Vec<u8> {
    format!(r#"{{"instance_id":"{instance}","seq":{seq},"observed_at_ms":{observed_at_ms},"host":"meet.example.test","tab_key":"tab-17","audible":{audible},"meeting_present":{meeting_present}}}"#).into_bytes()
}
fn good(server: &Server<FakeClock>, clock: &FakeClock, seq: u64) -> Request {
    Request {
        connection_id: 1,
        origin: Some(ORIGIN.into()),
        token: Some(server.authenticator().token().to_hex()),
        body: body(seq, clock.wall_utc_ms()),
        peer_process_tree_root_pid: None,
    }
}

#[test]
fn request_without_token_rejected() {
    let (mut s, c) = server();
    let mut r = good(&s, &c, 1);
    r.token = None;
    assert_eq!(s.handle(r), Response { status: 401 });
    let mut r = good(&s, &c, 1);
    r.token = Some("00".repeat(32));
    assert_eq!(s.handle(r), Response { status: 401 });
    assert!(s.drain().is_empty(), "no signal from an unauthenticated request");
    assert_eq!(s.counters().rejected_for(RejectReason::MissingToken), 1);
    assert_eq!(s.counters().rejected_for(RejectReason::WrongToken), 1);
}

#[test]
fn web_origin_rejected() {
    let (mut s, c) = server();
    for origin in ["https://evil.example.test", "http://127.0.0.1:4242", "chrome-extension://someotherextensionidentifier0"] {
        let mut r = good(&s, &c, 1);
        r.origin = Some(origin.into());
        assert_eq!(s.handle(r).status, 403, "{origin}");
    }
    let mut r = good(&s, &c, 1);
    r.origin = None;
    assert_eq!(s.handle(r).status, 403, "no origin is not the pinned origin");
    assert!(s.drain().is_empty());
    assert_eq!(s.counters().rejected_for(RejectReason::WebOrigin), 2);
    assert_eq!(s.counters().rejected_for(RejectReason::OriginMismatch), 2);
}

#[test]
fn stale_sequence_rejected() {
    let (mut s, c) = server();
    assert_eq!(s.handle(good(&s, &c, 5)), Response::accepted());
    assert_eq!(s.handle(good(&s, &c, 5)).status, 409, "replay of the same seq");
    assert_eq!(s.handle(good(&s, &c, 4)).status, 409, "older seq");
    let mut old = good(&s, &c, 6);
    old.body = body(6, c.wall_utc_ms() - FRESHNESS_WINDOW_MS - 1);
    assert_eq!(s.handle(old).status, 409, "observation older than the freshness window");
    assert_eq!(s.handle(good(&s, &c, 6)), Response::accepted());
    let signals = s.drain();
    assert_eq!(signals.len(), 4, "two accepted messages, two signals each");
    assert_eq!(s.counters().rejected_for(RejectReason::StaleSequence), 2);
    assert_eq!(s.counters().rejected_for(RejectReason::StaleObservation), 1);
}

#[test]
fn sequence_is_per_instance_and_a_restart_is_not_a_replay() {
    let (mut s, c) = server();
    let mut a = good(&s, &c, 500);
    a.body = body_for("inst-a", 500, c.wall_utc_ms(), true, true);
    assert_eq!(s.handle(a), Response::accepted());
    // the browser restarts: instance b starts at seq 1 and must not be treated as stale
    let mut b = good(&s, &c, 1);
    b.body = body_for("inst-b", 1, c.wall_utc_ms(), true, true);
    assert_eq!(s.handle(b), Response::accepted());
    let mut a_replay = good(&s, &c, 500);
    a_replay.body = body_for("inst-a", 500, c.wall_utc_ms(), true, true);
    assert_eq!(s.handle(a_replay).status, 409, "a replay within the same instance is still stale");
    let mut bad = good(&s, &c, 2);
    bad.body = body_for("bad id!", 2, c.wall_utc_ms(), true, true);
    assert_eq!(s.handle(bad).status, 400);
}

#[test]
fn keep_alive_and_inaudible_reports_cannot_corroborate() {
    let (mut s, c) = server();
    let mut r = good(&s, &c, 1);
    r.body = body_for("inst-a", 1, c.wall_utc_ms(), false, false);
    assert_eq!(s.handle(r), Response::accepted());
    assert!(s.drain().is_empty(), "a landing page report yields no signal at all");
    let mut r = good(&s, &c, 2);
    r.body = body_for("inst-a", 2, c.wall_utc_ms(), true, false);
    assert_eq!(s.handle(r), Response::accepted());
    let signals = s.drain();
    assert_eq!(
        signals.iter().map(|x| x.kind).collect::<Vec<_>>(),
        [SignalKind::TabAudible],
        "audible without a meeting is not tab_meeting_present"
    );
}

#[test]
fn accepted_message_carries_host_and_tab_key_only() {
    let (mut s, c) = server();
    assert_eq!(s.handle(good(&s, &c, 1)), Response::accepted());
    let signals = s.drain();
    for signal in &signals {
        assert_eq!(signal.authority, Authority::Extension);
        assert_eq!(signal.host, "meet.example.test");
        assert_eq!(signal.tab_key, "tab-17");
        assert_eq!(signal.audible, Some(true));
        assert_eq!(signal.source_id, "ext.tabs");
        let text = format!("{signal:?}");
        assert!(!text.contains("://") && !text.contains("title"), "{text}");
    }
    assert_eq!(signals.iter().map(|s| s.kind).collect::<Vec<_>>(), [SignalKind::TabMeetingPresent, SignalKind::TabAudible]);
}

#[test]
fn descriptor_is_owner_only_and_token_rotates_per_start() {
    let (a, _) = server();
    let (b, _) = server();
    assert_ne!(a.authenticator().token().to_hex(), b.authenticator().token().to_hex());
    let descriptor = EndpointDescriptor { port: 49_152, token: a.authenticator().token().to_hex() };
    assert_eq!(descriptor.token.len(), 64);
    let path = EndpointDescriptor::path_under("/home/u/AppData/Local");
    assert!(path.ends_with("MeetingAssistant/ext/endpoint.json"));
    assert_eq!(path, "/home/u/AppData/Local/MeetingAssistant/ext/endpoint.json");
}

#[test]
fn flood_is_rate_limited_and_backlog_drops_oldest() {
    let (mut s, c) = server();
    let mut accepted = 0;
    for seq in 1..=25 {
        if s.handle(good(&s, &c, seq)) == Response::accepted() {
            accepted += 1;
        }
    }
    assert_eq!(accepted, MAX_MESSAGES_PER_SECOND);
    assert_eq!(s.counters().rejected_for(RejectReason::RateLimited), 5);
    let mut seq = 100;
    for _ in 0..7 {
        c.mono_ns.set(c.mono_ns.get() + 1_000_000_000);
        for _ in 0..MAX_MESSAGES_PER_SECOND {
            seq += 1;
            s.handle(good(&s, &c, seq));
        }
    }
    assert_eq!(s.queued(), MAX_QUEUED_SIGNALS);
    assert!(s.counters().dropped_oldest > 0);
}

#[test]
fn reconnecting_does_not_bypass_the_server_wide_rate_limit() {
    let (mut s, c) = server();
    for seq in 1..=MAX_MESSAGES_PER_SECOND as u64 {
        let mut request = good(&s, &c, seq);
        request.connection_id = seq as u32;
        assert_eq!(s.handle(request), Response::accepted());
    }
    let mut request = good(&s, &c, MAX_MESSAGES_PER_SECOND as u64 + 1);
    request.connection_id = 10_000;
    assert_eq!(s.handle(request).status, 429);
    assert_eq!(s.recent_requests(), MAX_MESSAGES_PER_SECOND);
}

#[test]
fn tab_signals_carry_the_peer_process_tree_root() {
    let (mut s, c) = server();
    let mut r = good(&s, &c, 1);
    r.peer_process_tree_root_pid = Some(4242);
    assert_eq!(s.handle(r), Response::accepted());
    let signals = s.drain();
    assert_eq!(signals.iter().map(|s| s.kind).collect::<Vec<_>>(), [SignalKind::TabMeetingPresent, SignalKind::TabAudible]);
    assert!(signals.iter().all(|s| s.process_tree_root_pid == Some(4242)));
    // the wire message itself is unchanged: the pid comes from the transport, never from the body
    assert_eq!(s.handle(good(&s, &c, 2)), Response::accepted());
    assert!(s.drain().iter().all(|s| s.process_tree_root_pid.is_none()));
}

#[test]
fn token_hex_and_rejection_statuses() {
    let token = Token::from_bytes([0xab; 32]);
    assert_eq!(token.to_hex(), "ab".repeat(32));
    assert_eq!(Response::for_rejection(RejectReason::Malformed).status, 400);
    assert_eq!(Response::for_rejection(RejectReason::RateLimited).status, 429);
    assert_eq!(Response::accepted().status, 204);
}

#[test]
fn handle_at_uses_the_given_readings() {
    let (mut s, c) = server();
    let wall = c.wall_utc_ms();
    let r = good(&s, &c, 1);
    assert_eq!(s.handle_at(r, 77, wall + FRESHNESS_WINDOW_MS), Response::accepted());
    let signals = s.drain();
    assert!(signals.iter().all(|x| x.monotonic_ns == 77 && x.wall_utc_ms == wall + FRESHNESS_WINDOW_MS));
    let r = good(&s, &c, 2);
    assert_eq!(s.handle_at(r, 78, wall + FRESHNESS_WINDOW_MS + 1).status, 409, "just past the window");
}
