use meeting_assistant::client_view::{backoff_delay, disconnected, reconnect_due, Phase, ViewState, BACKOFF_MS, CLIENT_CAPABILITIES};
use meeting_assistant::diag_session::{decisions_path, labels_path};
use meeting_assistant::process_tree::{process_tree_root, ProcessRecord};
use meeting_assistant::protocol::Capability;
use meeting_assistant::recovery::{chunk_entry, rebuilt_manifest};
use meeting_assistant::supervisor::{platform_lock, LockError, State, Supervisor, UpdateDisposition, UpdateOffer};

fn offer() -> UpdateOffer {
    UpdateOffer { version: "0.2.0".into(), staged_path: "staged/ma-engine.exe".into() }
}

#[test]
fn update_deferred_while_session_non_terminal() {
    let mut s = Supervisor::default();
    for state in [
        State::Candidate,
        State::Arming,
        State::Recording,
        State::Paused,
        State::Ending,
        State::Finalizing,
        State::Interrupted,
    ] {
        s.session_state = state;
        assert_eq!(
            s.offer_update(offer()),
            UpdateDisposition::Deferred { until_session_terminal: true },
            "{state:?}"
        );
        assert!(s.applied.is_empty(), "the running binary stays in place during {state:?}");
    }
    assert_eq!(s.on_transition(State::Ending), None, "still non-terminal");
    assert_eq!(s.on_transition(State::Completed), Some(UpdateDisposition::Apply));
    assert_eq!(s.applied.len(), 1);
    let mut idle = Supervisor::default();
    assert_eq!(idle.offer_update(offer()), UpdateDisposition::Apply);
}

#[test]
fn terminal_states_and_the_lock() {
    for state in [State::Completed, State::Discarded, State::Failed] {
        assert!(state.is_terminal());
    }
    for state in [State::Idle, State::Interrupted, State::Recording] {
        assert!(!state.is_terminal());
    }
    assert_eq!(platform_lock("inst-01"), Err(LockError::Unsupported));
}

#[test]
fn tree_root_follows_same_image_parents() {
    let snap = vec![
        ProcessRecord { pid: 4, parent_pid: 0, image_name: "system".into() },
        ProcessRecord { pid: 200, parent_pid: 4, image_name: "example-browser.exe".into() },
        ProcessRecord { pid: 201, parent_pid: 200, image_name: "example-browser.exe".into() },
    ];
    assert_eq!(process_tree_root(&snap, 201), Some(200));
    assert_eq!(process_tree_root(&snap, 200), Some(200));
    assert_eq!(process_tree_root(&snap, 999), None);
}

#[test]
fn tree_root_ignores_ascii_case_and_stops_at_self_parents() {
    let snap = vec![
        ProcessRecord { pid: 10, parent_pid: 10, image_name: "Example-Browser.EXE".into() },
        ProcessRecord { pid: 11, parent_pid: 10, image_name: "example-browser.exe".into() },
    ];
    assert_eq!(process_tree_root(&snap, 11), Some(10));
    assert_eq!(process_tree_root(&snap, 10), Some(10));
}

#[test]
fn sidecars_sit_next_to_the_timeline() {
    assert_eq!(decisions_path("/tmp/diag/run-1.jsonl"), "/tmp/diag/run-1.decisions.json");
    assert_eq!(labels_path("/tmp/diag/run-1.jsonl"), "/tmp/diag/run-1.labels.json");
    assert_eq!(labels_path("run.v2.jsonl"), "run.v2.labels.json");
    assert_eq!(labels_path("dir/.hidden"), "dir/.hidden.labels.json");
    assert_eq!(decisions_path("noext"), "noext.decisions.json");
}

#[test]
fn chunk_directory_entries_are_classified() {
    assert_eq!(chunk_entry("000042.wav"), Some((42, false)));
    assert_eq!(chunk_entry("000007.wav.part"), Some((7, true)));
    assert_eq!(chunk_entry("track-index.json"), None);
    assert_eq!(chunk_entry("x.wav"), None);
    assert_eq!(chunk_entry("4294967296.wav"), None);
    assert_eq!(chunk_entry(".wav"), None);
}

#[test]
fn a_rebuilt_manifest_takes_its_id_and_format_from_the_directory() {
    let id = "018f4d2e-7b1a-7c3d-9a1e-0123456789ab";
    let m = rebuilt_manifest(id, Some((48_000, 2)), 77);
    assert_eq!(m.track.to_string(), id);
    assert_eq!(m.role, "recovered");
    assert_eq!((m.origin.sample_rate, m.origin.channels), (48_000, 2));
    assert_eq!(m.events.len(), 1);
    assert_eq!(m.events[0].at_ms, 77);
    let m = rebuilt_manifest("not-an-id", None, 1);
    assert_eq!((m.origin.sample_rate, m.origin.channels), (16_000, 1));
    assert_eq!((m.track.as_u128() >> 76) & 0xf, 7);
}

#[test]
fn the_client_renders_only_what_the_engine_says() {
    assert_eq!(CLIENT_CAPABILITIES, [Capability::Indicator, Capability::Cancel]);
    let mut view = ViewState::default();
    view.render_snapshot(Some("arming".into()), Some("01990ce0-1000-7000-8000-000000000042".into()));
    assert!(view.connected && !view.recording);
    view.render_tick(Some(7_000));
    assert_eq!(view.countdown_remaining_ms, Some(7_000));
    view.render_transition(Some("recording".into()));
    assert!(view.recording);
    assert_eq!(view.countdown_remaining_ms, None, "the countdown ends with arming");
    view.clear_session();
    assert_eq!(view.session_state, None);
    assert!(!view.recording);
}

#[test]
fn reconnects_back_off_exponentially() {
    assert_eq!((1..=8).map(backoff_delay).collect::<Vec<_>>(), [500, 1_000, 2_000, 4_000, 8_000, 16_000, 16_000, 16_000]);
    assert_eq!(BACKOFF_MS[5], 16_000);
    let phase = disconnected(2, 10_000);
    assert_eq!(phase, Phase::Disconnected { next_attempt_ms: 11_000, attempts: 2 });
    assert!(!reconnect_due(phase, 10_999));
    assert!(reconnect_due(phase, 11_000));
    assert!(!reconnect_due(Phase::Connected, u64::MAX));
}

#[test]
fn countdown_is_driven_by_engine_events() {
    let mut view = ViewState::default();
    view.render_snapshot(Some("arming".into()), None);
    assert_eq!(view.session_state.as_deref(), Some("arming"));
    assert_eq!(view.countdown_remaining_ms, None, "no tick yet, no number");
    view.render_tick(Some(10_000));
    assert_eq!(view.countdown_remaining_ms, Some(10_000));
    // local time passing renders nothing: there is no local timer to drive the view
    assert_eq!(view.countdown_remaining_ms, Some(10_000), "local time changes nothing");
    view.render_tick(Some(7_000));
    assert_eq!(view.countdown_remaining_ms, Some(7_000));
    // the engine's transition after a cancel clears the countdown
    view.render_transition(Some("idle".into()));
    assert_eq!(view.session_state.as_deref(), Some("idle"));
    assert_eq!(view.countdown_remaining_ms, None);
    assert!(!view.recording);
}

#[test]
fn renders_only_engine_state_and_resnapshots_after_gap() {
    let mut view = ViewState::default();
    view.render_snapshot(Some("recording".into()), None);
    assert!(view.recording);
    // a sequence gap: local state is discarded until the snapshot arrives
    view.clear_session();
    assert_eq!(view.session_state, None, "nothing rendered from local inference");
    assert!(!view.recording);
    view.render_snapshot(Some("recording".into()), None);
    assert_eq!(view.session_state.as_deref(), Some("recording"));
    assert!(view.recording);
}

#[test]
fn reconnects_with_backoff_after_disconnect() {
    let phase = disconnected(1, 10_000);
    assert!(matches!(phase, Phase::Disconnected { next_attempt_ms: 10_500, attempts: 1 }), "{phase:?}");
    assert_eq!(ViewState::default(), ViewState::default(), "stale state is not rendered while disconnected");
    assert!(!reconnect_due(phase, 10_400));
    assert!(reconnect_due(phase, 10_500));
    // the engine stays down: every failed attempt backs off further, measured on the real clock
    let mut expected_delay = BACKOFF_MS[1];
    let mut now = 10_500;
    for attempt in 2..=7u32 {
        let Phase::Disconnected { next_attempt_ms, attempts } = disconnected(attempt, now) else { panic!() };
        assert_eq!(attempts, attempt);
        assert_eq!(next_attempt_ms, now + expected_delay, "attempt {attempt}");
        now = next_attempt_ms;
        expected_delay = BACKOFF_MS[(attempt as usize).min(BACKOFF_MS.len() - 1)];
    }
    // after a successful handshake the count restarts: the next failure is the first again
    assert!(matches!(disconnected(1, now + 1), Phase::Disconnected { attempts: 1, .. }));
}
