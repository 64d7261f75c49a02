use meeting_assistant::chunk_writer::SAMPLE_RATE;
use meeting_assistant::timeline::{CaptureMode, ContaminationRisk};
use meeting_assistant::wasapi::{
    activate_loopback, after_process, after_system, check_format, downmix, endpoint_choice_label, endpoint_selection_evidence,
    on_activation_loss, track_origin, ActivationError, ActivationOutcome, EndpointChoice, EndpointFollower,
    EndpointSelection, FakeActivationBackend, FakeStream, LoopbackTarget, LossAction, StreamFormat,
};

fn fmt(sample_rate: u32, channels: u16) -> StreamFormat {
    StreamFormat { sample_rate, channels }
}

#[test]
fn formats_outside_the_pin_are_unsupported() {
    assert_eq!(check_format(fmt(48_000, 0)), Err(ActivationError::UnsupportedFormat(fmt(48_000, 0))));
    assert_eq!(check_format(fmt(7_999, 1)), Err(ActivationError::UnsupportedFormat(fmt(7_999, 1))));
    assert_eq!(check_format(fmt(384_001, 2)), Err(ActivationError::UnsupportedFormat(fmt(384_001, 2))));
    assert_eq!(check_format(fmt(8_000, 1)), Ok(()));
    assert_eq!(check_format(fmt(384_000, 8)), Ok(()));
    assert_eq!(check_format(fmt(48_000, 2)), Ok(()));
}

#[test]
fn downmix_averages_frames_toward_zero_and_drops_a_partial_frame() {
    assert_eq!(downmix(2, &[1, 3, -1, -2, 5]), vec![2, -1]);
    assert_eq!(downmix(1, &[7, -7, 0]), vec![7, -7, 0]);
    assert_eq!(downmix(3, &[i16::MIN, i16::MIN, i16::MIN, i16::MAX, i16::MAX, i16::MAX]), vec![i16::MIN, i16::MAX]);
    assert_eq!(downmix(2, &[i16::MIN, i16::MAX]), vec![0]);
    assert_eq!(downmix(4, &[1, 2, 3]), Vec::<i16>::new());
}

#[test]
fn origin_is_pinned_to_the_track_rate_and_mono() {
    let o = track_origin(CaptureMode::SystemLoopback, ContaminationRisk::PossibleOtherApps, 1_756_857_600_000, 42);
    assert_eq!(o.start_wall_utc_ms, 1_756_857_600_000);
    assert_eq!(o.start_monotonic_ns, 42);
    assert_eq!(o.sample_rate, SAMPLE_RATE);
    assert_eq!(o.channels, 1);
    assert_eq!(o.capture_mode, CaptureMode::SystemLoopback);
    assert_eq!(o.contamination_risk, ContaminationRisk::PossibleOtherApps);
}

#[test]
fn device_loss_ends_and_loopback_loss_reopens() {
    assert_eq!(on_activation_loss(CaptureMode::Device), LossAction::End);
    assert_eq!(on_activation_loss(CaptureMode::ProcessLoopback), LossAction::ReopenSystemLoopback);
    assert_eq!(on_activation_loss(CaptureMode::SystemLoopback), LossAction::ReopenSystemLoopback);
}

fn stream() -> FakeStream {
    FakeStream::new(fmt(48_000, 2))
}

const TARGET: LoopbackTarget = LoopbackTarget { pid: 4242, include_process_tree: true };

#[test]
fn process_loopback_when_it_activates() {
    let mut backend = FakeActivationBackend::default().process_loopback(Ok(stream()));
    let a = activate_loopback(&mut backend, TARGET).unwrap();
    assert_eq!(a.mode, CaptureMode::ProcessLoopback);
    assert_eq!(a.risk, ContaminationRisk::NoOtherApps);
    assert_eq!(a.outcome, ActivationOutcome::Activated);
    assert_eq!(backend.process_activations, vec![TARGET]);
    assert_eq!(backend.system_activations, 0);
}

#[test]
fn falls_back_to_system_loopback_with_the_reason() {
    let mut backend = FakeActivationBackend::default()
        .process_loopback(Err(ActivationError::Failed { code: -5 }))
        .system_loopback(Ok(stream()));
    let a = activate_loopback(&mut backend, TARGET).unwrap();
    assert_eq!(a.mode, CaptureMode::SystemLoopback);
    assert_eq!(a.risk, ContaminationRisk::PossibleOtherApps);
    assert_eq!(a.outcome, ActivationOutcome::Fallback { reason: ActivationError::Failed { code: -5 } });
    assert_eq!(backend.system_activations, 1);
}

#[test]
fn fails_only_when_neither_activation_succeeds() {
    let mut backend = FakeActivationBackend::default()
        .process_loopback(Err(ActivationError::Unavailable))
        .system_loopback(Err(ActivationError::NoEndpoint));
    assert!(matches!(activate_loopback(&mut backend, TARGET), Err(ActivationError::NoEndpoint)));
}

fn supplied(id: &str) -> EndpointChoice {
    EndpointChoice::Supplied(id.to_string())
}

#[test]
fn hints_coalesce_to_the_latest_before_a_read() {
    let mut f = EndpointFollower::opened_on(EndpointChoice::SystemDefault);
    assert_eq!(f.selection().history, vec![EndpointChoice::SystemDefault]);
    f.update_hint(Some("endpoint-a"));
    f.update_hint(Some("endpoint-b"));
    assert_eq!(f.selection().coalesced_hints, 1);
    f.update_hint(Some("endpoint-b"));
    assert_eq!(f.selection().coalesced_hints, 1, "repeating the waiting hint is not a new hint");
    assert_eq!(f.take_pending(), Some(supplied("endpoint-b")));
    assert_eq!(f.take_pending(), None);
    f.switched(supplied("endpoint-b"));
    assert_eq!(f.selection().opened, supplied("endpoint-b"));
    assert_eq!(f.selection().history, vec![EndpointChoice::SystemDefault, supplied("endpoint-b")]);
}

#[test]
fn a_hint_for_the_open_endpoint_cancels_the_waiting_one() {
    let mut f = EndpointFollower::opened_on(supplied("endpoint-a"));
    f.update_hint(Some("endpoint-a"));
    assert_eq!(f.selection().coalesced_hints, 0);
    assert_eq!(f.take_pending(), None);
    f.update_hint(None);
    f.update_hint(Some("endpoint-a"));
    assert_eq!(f.selection().coalesced_hints, 1);
    assert_eq!(f.take_pending(), None);
    f.update_hint(Some(""));
    assert_eq!(f.take_pending(), Some(EndpointChoice::SystemDefault), "an empty hint is the system default");
}

#[test]
fn a_failed_switch_keeps_the_current_endpoint() {
    let mut f = EndpointFollower::opened_on(supplied("endpoint-a"));
    f.update_hint(Some("endpoint-b"));
    assert_eq!(f.take_pending(), Some(supplied("endpoint-b")));
    f.switch_failed();
    assert_eq!(f.selection().failed_switches, 1);
    assert_eq!(f.selection().opened, supplied("endpoint-a"));
    assert_eq!(f.selection().history, vec![supplied("endpoint-a")]);
}

#[test]
fn selection_evidence_names_each_choice() {
    assert_eq!(endpoint_choice_label(&EndpointChoice::SystemDefault), "system-default");
    assert_eq!(endpoint_choice_label(&supplied("endpoint-a")), "endpoint-a");
    let selection = EndpointSelection {
        opened: supplied("endpoint-b"),
        history: vec![EndpointChoice::SystemDefault, supplied("endpoint-a"), supplied("endpoint-b")],
        coalesced_hints: 2,
        failed_switches: 1,
    };
    let e = endpoint_selection_evidence(&selection);
    assert_eq!(e.opened_endpoint, "endpoint-b");
    assert_eq!(e.selection_history, ["system-default", "endpoint-a", "endpoint-b"]);
    assert_eq!(e.coalesced_hints, 2);
    assert_eq!(e.failed_switches, 1);
}

#[test]
fn each_activation_answer_leads_to_its_record() {
    let a = after_process::<u32>(Ok(7)).unwrap();
    assert_eq!((a.stream, a.mode, a.risk, a.outcome), (7, CaptureMode::ProcessLoopback, ContaminationRisk::NoOtherApps, ActivationOutcome::Activated));
    assert!(matches!(after_process::<u32>(Err(ActivationError::Failed { code: -5 })), Err(ActivationError::Failed { code: -5 })));
    let reason = ActivationError::Unavailable;
    let b = after_system::<u32>(reason, Ok(9)).unwrap();
    assert_eq!(
        (b.stream, b.mode, b.risk, b.outcome),
        (9, CaptureMode::SystemLoopback, ContaminationRisk::PossibleOtherApps, ActivationOutcome::Fallback { reason })
    );
    assert!(matches!(after_system::<u32>(reason, Err(ActivationError::NoEndpoint)), Err(ActivationError::NoEndpoint)));
}
