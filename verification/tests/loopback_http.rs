use meeting_assistant::ext_server::Response;
use meeting_assistant::loopback_http::{
    classify_header, is_report_request, peer_root, reply, resolve_peer_root, HeadStep, HeaderLine,
    NoPeerResolver, PeerResolver, RequestHead, MAX_BODY, MAX_HEADERS,
};
use meeting_assistant::process_tree::ProcessRecord;
use meeting_assistant::transport::{Lane, TransportError};

#[test]
fn request_line_must_be_post_report() {
    assert!(is_report_request("POST /report HTTP/1.1\r\n"));
    assert!(is_report_request("  POST\t/report\n"));
    assert!(is_report_request("POST /report"));
    assert!(!is_report_request("GET /report HTTP/1.1\r\n"));
    assert!(!is_report_request("POST /reports HTTP/1.1\r\n"));
    assert!(!is_report_request("post /report HTTP/1.1\r\n"));
    assert!(!is_report_request("POST\r\n"));
    assert!(!is_report_request(""));
}

#[test]
fn header_lines_are_read_by_name_without_case() {
    assert_eq!(
        classify_header("Origin: chrome-extension://abc \r\n"),
        HeaderLine::Origin("chrome-extension://abc".to_string())
    );
    assert_eq!(classify_header("X-MA-Token:  deadbeef\r\n"), HeaderLine::Token("deadbeef".to_string()));
    assert_eq!(classify_header("content-length: 12\r\n"), HeaderLine::ContentLength(12));
    assert_eq!(classify_header("Content-Length: +7\n"), HeaderLine::ContentLength(7));
    assert_eq!(classify_header("Content-Length: x\r\n"), HeaderLine::Malformed);
    assert_eq!(classify_header("Content-Length:\r\n"), HeaderLine::Malformed);
    assert_eq!(classify_header("Host: 127.0.0.1\r\n"), HeaderLine::Other);
    assert_eq!(classify_header("no colon here\r\n"), HeaderLine::Malformed);
    assert_eq!(classify_header("\r\n"), HeaderLine::End);
    assert_eq!(classify_header(" \t\r\n"), HeaderLine::End);
    assert_eq!(classify_header("Origin:a:b\r\n"), HeaderLine::Origin("a:b".to_string()));
}

#[test]
fn head_ends_at_the_blank_line_with_the_last_values() {
    let mut head = RequestHead::new();
    assert_eq!(head.accept("Origin: first\r\n"), HeadStep::More);
    assert_eq!(head.accept("Origin: second\r\n"), HeadStep::More);
    assert_eq!(head.accept("X-MA-Token: t\r\n"), HeadStep::More);
    assert_eq!(head.accept("Content-Length: 5\r\n"), HeadStep::More);
    assert_eq!(head.accept("\r\n"), HeadStep::Body(5));
    assert_eq!(head.origin.as_deref(), Some("second"));
    assert_eq!(head.token.as_deref(), Some("t"));
}

#[test]
fn body_over_the_bound_is_malformed() {
    let mut head = RequestHead::new();
    let line = format!("Content-Length: {}\r\n", MAX_BODY + 1);
    assert_eq!(head.accept(&line), HeadStep::More);
    assert_eq!(head.accept("\r\n"), HeadStep::Malformed);
    let mut head = RequestHead::new();
    let line = format!("Content-Length: {}\r\n", MAX_BODY);
    assert_eq!(head.accept(&line), HeadStep::More);
    assert_eq!(head.accept("\r\n"), HeadStep::Body(MAX_BODY));
}

#[test]
fn too_many_header_lines_are_malformed() {
    let mut head = RequestHead::new();
    for _ in 0..MAX_HEADERS - 1 {
        assert_eq!(head.accept("X-Other: 1\r\n"), HeadStep::More);
    }
    assert_eq!(head.accept("X-Other: 1\r\n"), HeadStep::Malformed);
    assert_eq!(head.accept("\r\n"), HeadStep::Malformed);
    let mut head = RequestHead::new();
    for _ in 0..MAX_HEADERS - 1 {
        assert_eq!(head.accept("X-Other: 1\r\n"), HeadStep::More);
    }
    assert_eq!(head.accept("\r\n"), HeadStep::Body(0));
}

#[test]
fn malformed_header_ends_the_request() {
    let mut head = RequestHead::new();
    assert_eq!(head.accept("garbage\r\n"), HeadStep::Malformed);
}

fn rec(pid: u32, parent_pid: u32, image: &str) -> ProcessRecord {
    ProcessRecord { pid, parent_pid, image_name: image.to_string() }
}

#[test]
fn peer_is_placed_at_its_tree_root() {
    let snapshot = vec![rec(10, 1, "browser.exe"), rec(11, 10, "Browser.EXE"), rec(12, 11, "browser.exe")];
    assert_eq!(peer_root(None, &snapshot), None);
    assert_eq!(peer_root(Some(12), &snapshot), Some(10));
    assert_eq!(peer_root(Some(99), &snapshot), Some(99));
    let mut none = NoPeerResolver;
    assert_eq!(none.peer_pid(4000), None);
    assert_eq!(resolve_peer_root(&mut none, 4000, &snapshot), None);
}

struct Fixed(u32);
impl PeerResolver for Fixed {
    fn peer_pid(&mut self, _peer_port: u16) -> Option<u32> {
        Some(self.0)
    }
}

#[test]
fn a_resolved_peer_is_climbed() {
    let snapshot = vec![rec(10, 1, "browser.exe"), rec(11, 10, "browser.exe")];
    assert_eq!(resolve_peer_root(&mut Fixed(11), 5000, &snapshot), Some(10));
}

#[test]
fn replies_carry_status_and_reason_only() {
    assert_eq!(
        reply(Response { status: 204 }),
        "HTTP/1.1 204 No Content\r\nContent-Length: 0\r\nConnection: close\r\n\r\n"
    );
    assert_eq!(
        reply(Response { status: 429 }),
        "HTTP/1.1 429 Too Many Requests\r\nContent-Length: 0\r\nConnection: close\r\n\r\n"
    );
    assert_eq!(reply(Response { status: 400 }).lines().next(), Some("HTTP/1.1 400 Bad Request"));
    assert_eq!(reply(Response { status: 401 }).lines().next(), Some("HTTP/1.1 401 Unauthorized"));
    assert_eq!(reply(Response { status: 403 }).lines().next(), Some("HTTP/1.1 403 Forbidden"));
    assert_eq!(reply(Response { status: 409 }).lines().next(), Some("HTTP/1.1 409 Conflict"));
    assert_eq!(reply(Response { status: 418 }).lines().next(), Some("HTTP/1.1 418 Status"));
}

#[test]
fn lane_blocks_a_stalled_reader_at_the_window() {
    let mut lane = Lane::new();
    assert_eq!(lane.offer(false, 2, vec![1]), Ok(()));
    assert_eq!(lane.offer(false, 2, vec![2]), Ok(()));
    assert_eq!(lane.offer(false, 2, vec![3]), Err(TransportError::WouldBlock));
    assert_eq!(lane.pending(), 2);
    assert_eq!(lane.receive(), Ok(Some(vec![1])));
    assert_eq!(lane.offer(false, 2, vec![3]), Ok(()));
    assert_eq!(lane.receive(), Ok(Some(vec![2])));
    assert_eq!(lane.receive(), Ok(Some(vec![3])));
    assert_eq!(lane.receive(), Ok(None));
}

#[test]
fn lane_closed_on_either_side_refuses_and_ends() {
    let mut lane = Lane::new();
    assert_eq!(lane.offer(true, 4, vec![1]), Err(TransportError::Closed));
    assert_eq!(lane.pending(), 0);
    lane.inject(vec![9, 9]);
    lane.close();
    assert_eq!(lane.offer(false, 4, vec![1]), Err(TransportError::Closed));
    assert_eq!(lane.receive(), Ok(Some(vec![9, 9])));
    assert_eq!(lane.receive(), Err(TransportError::Closed));
}
