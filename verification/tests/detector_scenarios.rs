//! Detector scenarios over hand-built signal rounds: what the registry matched for each signal is
//! given directly.

use meeting_assistant::decision::{Decision, DetectorOutput, DECISION_NAMESPACE};
use meeting_assistant::detector::{
    decide, AdapterMatch, Authority, Corroboration, DetectorConfig, DetectorSignal, MatchKind,
    SignalKind, SignalRound,
};
use meeting_assistant::ids::SignalId;
use meeting_assistant::outcome::{Outcome, Phase, SuppressionReason};

fn id(n: u128) -> SignalId {
    SignalId::from_u128(0x0199_0cdf_8800_7000_8000_0000_0000_0000 + n)
}

fn signal(n: u128, kind: SignalKind, authority: Authority, subject: &str, at: u64, root: Option<u32>) -> DetectorSignal {
    DetectorSignal {
        signal_id: id(n),
        kind,
        authority,
        subject_key: subject.to_string(),
        monotonic_ns: at,
        process_tree_root_pid: root,
        restart_resync: false,
    }
}

fn desktop(adapter: &str) -> AdapterMatch {
    AdapterMatch {
        adapter_id: adapter.to_string(),
        kind: MatchKind::Process,
        evidence_weight: 2,
        corroboration: Corroboration { microphone: true, tab: false },
    }
}

fn browser(kind: MatchKind) -> AdapterMatch {
    AdapterMatch {
        adapter_id: "browser-x".to_string(),
        kind,
        evidence_weight: 1,
        corroboration: Corroboration { microphone: true, tab: true },
    }
}

fn round(signal: DetectorSignal, matched: Vec<AdapterMatch>) -> SignalRound {
    SignalRound { signal, matched, disabled: vec![] }
}

fn starts(out: &DetectorOutput) -> Vec<&meeting_assistant::decision::Decision> {
    out.decisions.iter().filter(|d| d.outcome.is_determinate_start()).collect()
}

#[test]
fn desktop_meeting_starts_on_microphone_and_ends_on_its_stop() {
    let desk = "process:example-desk.exe";
    let rounds = vec![
        round(signal(1, SignalKind::ProcessStarted, Authority::Os, desk, 1_000, None), vec![desktop("desk-a")]),
        round(signal(2, SignalKind::MicCaptureStarted, Authority::Os, desk, 2_000, None), vec![desktop("desk-a")]),
        round(signal(3, SignalKind::MicCaptureStopped, Authority::Os, desk, 9_000, None), vec![desktop("desk-a")]),
    ];
    let out = decide(&rounds, &DetectorConfig::default(), 1);
    assert_eq!(out.adapter_table_version, 1);
    assert_eq!(out.decisions.len(), 3);
    assert_eq!(out.decisions[0].outcome, Outcome::Inconclusive);
    assert_eq!(out.decisions[0].rule_id, "corroboration-missing");
    let s = starts(&out);
    assert_eq!(s.len(), 1);
    assert_eq!(s[0].adapter_id.as_deref(), Some("desk-a"));
    assert_eq!(s[0].rule_id, "adapter-match");
    assert_eq!(s[0].evidence, vec![id(2)]);
    assert_eq!(s[0].produced_at_monotonic, 2_000);
    let end = &out.decisions[2];
    assert_eq!(end.outcome, Outcome::Determinate { phase: Phase::End });
    assert_eq!(end.rule_id, "end");
    assert_eq!(end.evidence, vec![id(2), id(3)]);
    for d in &out.decisions {
        assert!(!d.evidence.is_empty(), "every decision cites evidence");
    }
}

#[test]
fn replaying_the_same_rounds_gives_the_same_decisions() {
    let desk = "process:example-desk.exe";
    let rounds = || {
        vec![
            round(signal(1, SignalKind::MicCaptureStarted, Authority::Os, desk, 2_000, None), vec![desktop("desk-a")]),
            round(signal(2, SignalKind::MicCaptureStopped, Authority::Os, desk, 3_000, None), vec![desktop("desk-a")]),
        ]
    };
    let first = decide(&rounds(), &DetectorConfig::default(), 1);
    for _ in 0..10 {
        assert_eq!(decide(&rounds(), &DetectorConfig::default(), 1), first);
    }
}

#[test]
fn a_tab_alone_is_inconclusive_and_a_same_tree_microphone_starts() {
    let tab = "tab:meet.example.test:tab-17";
    let proc_key = "process:example-browser.exe";
    let alone = vec![round(
        signal(1, SignalKind::TabMeetingPresent, Authority::Extension, tab, 1_000, Some(6300)),
        vec![browser(MatchKind::Tab)],
    )];
    let out = decide(&alone, &DetectorConfig::default(), 1);
    assert!(starts(&out).is_empty());
    assert!(out.decisions.iter().any(|d| d.outcome == Outcome::Inconclusive && d.rule_id == "extension-alone"));

    let mut with_mic = alone;
    with_mic.push(round(
        signal(2, SignalKind::MicCaptureStarted, Authority::Os, proc_key, 2_000, Some(6300)),
        vec![browser(MatchKind::Process)],
    ));
    let out = decide(&with_mic, &DetectorConfig::default(), 1);
    let s = starts(&out);
    assert_eq!(s.len(), 1);
    assert_eq!(s[0].adapter_id.as_deref(), Some("browser-x"));
    assert_eq!(s[0].evidence, vec![id(1), id(2)], "cites the tab and the microphone signal");
}

#[test]
fn a_microphone_from_another_tree_does_not_corroborate() {
    let rounds = vec![
        round(
            signal(1, SignalKind::TabMeetingPresent, Authority::Extension, "tab:meet.example.test:tab-17", 1_000, Some(6300)),
            vec![browser(MatchKind::Tab)],
        ),
        round(
            signal(2, SignalKind::MicCaptureStarted, Authority::Os, "process:example-browser.exe", 2_000, Some(7100)),
            vec![browser(MatchKind::Process)],
        ),
    ];
    let out = decide(&rounds, &DetectorConfig::default(), 1);
    assert!(out.decisions.iter().all(|d| !matches!(d.outcome, Outcome::Determinate { .. })));
    let mismatch = out.decisions.iter().find(|d| d.rule_id == "process-tree-mismatch").expect("named");
    assert_eq!(mismatch.outcome, Outcome::Inconclusive);
    assert_eq!(mismatch.evidence, vec![id(1), id(2)]);
}

#[test]
fn a_tab_without_a_tree_root_is_inconclusive() {
    let rounds = vec![
        round(
            signal(1, SignalKind::TabMeetingPresent, Authority::Extension, "tab:meet.example.test:tab-17", 1_000, None),
            vec![browser(MatchKind::Tab)],
        ),
        round(
            signal(2, SignalKind::MicCaptureStarted, Authority::Os, "process:example-browser.exe", 2_000, Some(6300)),
            vec![browser(MatchKind::Process)],
        ),
    ];
    let out = decide(&rounds, &DetectorConfig::default(), 1);
    assert!(starts(&out).is_empty());
    assert!(out.decisions.iter().any(|d| d.rule_id == "process-tree-root-absent"));
}

#[test]
fn an_unclaimed_microphone_is_unknown_not_a_start() {
    let rounds = vec![round(
        signal(1, SignalKind::MicCaptureStarted, Authority::Os, "process:unlisted-app.exe", 2_000, None),
        vec![],
    )];
    let out = decide(&rounds, &DetectorConfig::default(), 1);
    assert_eq!(out.decisions.len(), 1);
    assert_eq!(out.decisions[0].outcome, Outcome::Unknown);
    assert_eq!(out.decisions[0].rule_id, "no-adapter");
    assert_eq!(out.decisions[0].adapter_id, None);
    let generic = decide(&rounds, &DetectorConfig { generic_detection_enabled: true }, 1);
    assert_eq!(generic.decisions[0].rule_id, "generic-candidate");
    assert!(starts(&generic).is_empty());
}

#[test]
fn concurrent_candidates_yield_one_meeting() {
    let rounds = vec![
        round(signal(1, SignalKind::MicCaptureStarted, Authority::Os, "process:example-desk.exe", 1_000, None), vec![desktop("desk-a")]),
        round(signal(2, SignalKind::MicCaptureStarted, Authority::Os, "process:example-other.exe", 2_000, None), vec![desktop("desk-b")]),
    ];
    let out = decide(&rounds, &DetectorConfig::default(), 1);
    let s = starts(&out);
    assert_eq!(s.len(), 1, "exactly one meeting becomes active");
    assert_eq!(s[0].adapter_id.as_deref(), Some("desk-a"), "earliest start wins at equal weight");
    let suppressed = &out.decisions[1];
    assert_eq!(
        suppressed.outcome,
        Outcome::Conflicting { suppressed: SuppressionReason::LowerPrecedence { active_adapter_id: "desk-a".into() } }
    );
    assert_eq!(suppressed.adapter_id.as_deref(), Some("desk-b"));
    assert_eq!(suppressed.rule_id, "precedence");
}

#[test]
fn a_disabled_adapter_is_a_diagnostic_not_a_failure() {
    let desk = "process:example-desk.exe";
    let rounds = vec![SignalRound {
        signal: signal(1, SignalKind::MicCaptureStarted, Authority::Os, desk, 2_000, None),
        matched: vec![desktop("desk-a")],
        disabled: vec!["panicking".to_string()],
    }];
    let out = decide(&rounds, &DetectorConfig::default(), 1);
    assert_eq!(out.diagnostics.len(), 1);
    assert_eq!(out.diagnostics[0].adapter_id, "panicking");
    assert_eq!(starts(&out).len(), 1, "the pipeline still detects the meeting");
}

#[test]
fn a_resync_report_never_arms() {
    let mut s = signal(1, SignalKind::MicCaptureStarted, Authority::Os, "process:example-desk.exe", 2_000, None);
    s.restart_resync = true;
    let out = decide(&vec![round(s, vec![desktop("desk-a")])], &DetectorConfig::default(), 1);
    assert!(starts(&out).is_empty());
    assert_eq!(out.decisions[0].rule_id, "resync-no-autostart");
}

#[test]
fn decision_id_hashes_the_escaped_suppressing_adapter() {
    let evidence = SignalId::from_u128(0x0123_4567_89ab_cdef_0123_4567_89ab_cdef);
    let outcome = Outcome::Conflicting {
        suppressed: SuppressionReason::LowerPrecedence { active_adapter_id: "desk \"a\"\n".into() },
    };
    let d = Decision::derive(1, outcome, Some("zoom".into()), None, "r1", vec![evidence], 5);
    let material = format!(
        "1|r1|{{\"outcome\":\"conflicting\",\"suppressed\":{{\"lower_precedence\":{{\"active_adapter_id\":\"desk \\\"a\\\"\\n\"}}}}}}|{}|5|zoom",
        uuid::Uuid::from_u128(evidence.as_u128()).hyphenated()
    );
    let expected = uuid::Uuid::new_v5(&uuid::Uuid::from_u128(DECISION_NAMESPACE), material.as_bytes());
    assert_eq!(d.decision_id.as_u128(), expected.as_u128());
}
