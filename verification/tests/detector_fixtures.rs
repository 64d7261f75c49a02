//! The detector's fixture scenarios, each timeline written out as signal rounds: what the
//! adapter table (desktop adapters `desk-a`, `desk-b`, `desk-c` and the browser adapter
//! `browser-x` for `example-browser.exe` and `meet.example.test`) matched for each signal is
//! given with the signal.

use meeting_assistant::decision::{Decision, DetectorOutput};
use meeting_assistant::detector::{
    decide, AdapterMatch, Authority, Corroboration, DetectorConfig, DetectorSignal, MatchKind,
    SignalKind, SignalRound,
};
use meeting_assistant::ids::SignalId;
use meeting_assistant::outcome::{Outcome, Phase, SuppressionReason};

const DESK: &str = "process:example-desk.exe";
const OTHER: &str = "process:example-other.exe";
const BROWSER: &str = "process:example-browser.exe";
const TAB: &str = "tab:meet.example.test:tab-17";

fn fid(n: u128) -> SignalId {
    SignalId::from_u128(0x0199_0cdf_8800_7000_8000_0000_0000_0000 + n)
}

fn uuid(text: &str) -> SignalId {
    SignalId::from_u128(u128::from_str_radix(&text.replace('-', ""), 16).unwrap())
}

fn sig(id: SignalId, kind: SignalKind, authority: Authority, subject: &str, at_ms: u64, root: Option<u32>) -> DetectorSignal {
    DetectorSignal {
        signal_id: id,
        kind,
        authority,
        subject_key: subject.to_string(),
        monotonic_ns: at_ms * 1_000_000,
        process_tree_root_pid: root,
        restart_resync: false,
    }
}

fn desktop(adapter: &str) -> AdapterMatch {
    AdapterMatch {
        adapter_id: adapter.to_string(),
        kind: MatchKind::Process,
        evidence_weight: 2,
        corroboration: Corroboration { microphone: true, tab: false },
    }
}

fn browser(kind: MatchKind) -> AdapterMatch {
    AdapterMatch {
        adapter_id: "browser-x".to_string(),
        kind,
        evidence_weight: 1,
        corroboration: Corroboration { microphone: true, tab: true },
    }
}

/// The round of a signal with what the table matched for its subject.
fn round(signal: DetectorSignal) -> SignalRound {
    let matched = if signal.subject_key == DESK {
        vec![desktop("desk-a")]
    } else if signal.subject_key == OTHER {
        vec![desktop("desk-b")]
    } else if signal.subject_key == BROWSER {
        vec![browser(MatchKind::Process)]
    } else if signal.subject_key.starts_with("tab:meet.example.test:") {
        vec![browser(MatchKind::Tab)]
    } else {
        vec![]
    };
    SignalRound { signal, matched, disabled: vec![] }
}

fn start_end(subject: &str) -> Vec<SignalRound> {
    vec![
        round(sig(fid(1), SignalKind::ProcessStarted, Authority::Os, subject, 1_000, None)),
        round(sig(fid(2), SignalKind::MicCaptureStarted, Authority::Os, subject, 2_000, None)),
        round(sig(fid(3), SignalKind::MicCaptureStopped, Authority::Os, subject, 9_000, None)),
        round(sig(fid(4), SignalKind::ProcessStopped, Authority::Os, subject, 10_000, None)),
    ]
}

fn resync() -> Vec<SignalRound> {
    let mut s = sig(fid(11), SignalKind::MicCaptureStarted, Authority::Os, DESK, 2_000, None);
    s.restart_resync = true;
    vec![round(s)]
}

fn concurrent() -> Vec<SignalRound> {
    vec![
        round(sig(fid(21), SignalKind::MicCaptureStarted, Authority::Os, DESK, 1_000, None)),
        round(sig(fid(22), SignalKind::MicCaptureStarted, Authority::Os, OTHER, 2_000, None)),
        round(sig(fid(23), SignalKind::MicCaptureStopped, Authority::Os, DESK, 5_000, None)),
    ]
}

fn tab_only() -> Vec<SignalRound> {
    vec![round(sig(fid(31), SignalKind::TabMeetingPresent, Authority::Extension, TAB, 1_000, Some(6300)))]
}

fn tab_with_mic() -> Vec<SignalRound> {
    vec![
        round(sig(fid(41), SignalKind::TabAudible, Authority::Extension, TAB, 500, Some(6300))),
        round(sig(fid(42), SignalKind::TabMeetingPresent, Authority::Extension, TAB, 1_000, Some(6300))),
        round(sig(fid(43), SignalKind::MicCaptureStarted, Authority::Os, BROWSER, 2_000, Some(6300))),
    ]
}

fn tab_forged() -> Vec<SignalRound> {
    vec![
        round(sig(fid(51), SignalKind::ProcessStarted, Authority::Os, BROWSER, 500, Some(6300))),
        round(sig(fid(52), SignalKind::TabMeetingPresent, Authority::Extension, TAB, 1_000, Some(6300))),
        round(sig(fid(53), SignalKind::TabMeetingPresent, Authority::Extension, TAB, 1_500, Some(6300))),
        round(sig(fid(54), SignalKind::TabMeetingPresent, Authority::Extension, TAB, 2_000, Some(6300))),
    ]
}

fn tab_cross_tree() -> Vec<SignalRound> {
    vec![
        round(sig(fid(61), SignalKind::TabMeetingPresent, Authority::Extension, TAB, 1_000, Some(6300))),
        round(sig(fid(62), SignalKind::MicCaptureStarted, Authority::Os, BROWSER, 2_000, Some(7100))),
    ]
}

fn run(rounds: &Vec<SignalRound>) -> DetectorOutput {
    decide(rounds, &DetectorConfig::default(), 1)
}

fn ids(rounds: &[SignalRound]) -> Vec<SignalId> {
    rounds.iter().map(|r| r.signal.signal_id).collect()
}

fn any_start(out: &DetectorOutput) -> bool {
    out.decisions.iter().any(|d| d.outcome.is_determinate_start())
}

#[test]
fn same_process_tree_mic_and_tab_corroborate() {
    let rounds = tab_with_mic();
    let out = run(&rounds);
    let start = out.decisions.iter().find(|d| d.outcome.is_determinate_start()).expect("same tree corroborates");
    assert_eq!(start.adapter_id.as_deref(), Some("browser-x"));
    assert_eq!(start.rule_id, "adapter-match");
    assert_eq!(start.evidence.len(), 2, "cites the tab and the microphone signal");
    let roots: Vec<Option<u32>> = rounds
        .iter()
        .filter(|r| start.evidence.contains(&r.signal.signal_id))
        .map(|r| r.signal.process_tree_root_pid)
        .collect();
    assert_eq!(roots, vec![Some(6300), Some(6300)]);
    assert!(out
        .decisions
        .iter()
        .all(|d| d.rule_id != "process-tree-mismatch" && d.rule_id != "process-tree-root-absent"));
}

#[test]
fn another_browser_tree_cannot_end_the_active_meeting() {
    let foreign_stop = "01990cdf-882c-7000-8000-1b3152f0cc00";
    let joined_stop = "01990cdf-882d-7000-9000-1bcf5480dd00";
    let mut rounds = tab_with_mic();
    rounds.push(round(sig(uuid(foreign_stop), SignalKind::MicCaptureStopped, Authority::Os, BROWSER, 3_000, Some(7100))));
    rounds.push(round(sig(uuid(joined_stop), SignalKind::MicCaptureStopped, Authority::Os, BROWSER, 4_000, Some(6300))));
    let out = run(&rounds);
    let ends: Vec<&Decision> =
        out.decisions.iter().filter(|d| matches!(d.outcome, Outcome::Determinate { phase: Phase::End })).collect();
    assert_eq!(ends.len(), 1, "only the joined tree ends the meeting: {out:?}");
    assert!(ends[0].evidence.iter().any(|id| *id == uuid(joined_stop)));
    assert!(ends[0].evidence.iter().all(|id| *id != uuid(foreign_stop)));
}

#[test]
fn mic_use_from_a_different_process_tree_does_not_corroborate() {
    let out = run(&tab_cross_tree());
    assert!(
        out.decisions.iter().all(|d| !matches!(d.outcome, Outcome::Determinate { .. })),
        "never a determinate decision: {out:?}"
    );
    let mismatch = out.decisions.iter().find(|d| d.rule_id == "process-tree-mismatch").expect("the mismatch is named");
    assert!(matches!(mismatch.outcome, Outcome::Inconclusive));
    assert_eq!(mismatch.adapter_id.as_deref(), Some("browser-x"));
    assert_eq!(mismatch.evidence.len(), 2, "cites both sides of the failed join");
}

#[test]
fn stopped_tab_tree_is_not_reused_by_a_later_microphone() {
    let mut rounds = tab_cross_tree();
    rounds.push(round(sig(uuid("01990ce6-0004-7000-8000-000006cfd75c"), SignalKind::ProcessStopped, Authority::Os, BROWSER, 3_000, Some(6300))));
    rounds.push(round(sig(uuid("01990ce6-0005-7000-9000-00000883c32b"), SignalKind::MicCaptureStarted, Authority::Os, BROWSER, 3_500, Some(6300))));
    let out = run(&rounds);
    assert!(
        out.decisions.iter().all(|decision| !decision.outcome.is_determinate_start()),
        "stopped tab evidence must not corroborate a later microphone: {out:?}"
    );
}

#[test]
fn stopped_microphone_tree_is_not_reused_by_a_later_tab() {
    let mut rounds = tab_cross_tree();
    rounds.push(round(sig(uuid("01990ce6-0006-7000-a000-00000a37af1a"), SignalKind::MicCaptureStopped, Authority::Os, BROWSER, 3_000, Some(7100))));
    rounds.push(round(sig(uuid("01990ce6-0007-7000-b000-00000beb9b09"), SignalKind::TabMeetingPresent, Authority::Extension, "tab:meet.example.test:tab-18", 3_500, Some(7100))));
    let out = run(&rounds);
    assert!(
        out.decisions.iter().all(|decision| !decision.outcome.is_determinate_start()),
        "stopped microphone evidence must not corroborate a later tab: {out:?}"
    );
}

#[test]
fn foreign_tree_stop_retains_both_candidate_sides() {
    let mut rounds = tab_cross_tree();
    rounds.push(round(sig(uuid("01990ce6-0008-7000-8000-00000d9f86f8"), SignalKind::ProcessStopped, Authority::Os, BROWSER, 3_000, Some(8100))));
    rounds.push(round(sig(uuid("01990ce6-0009-7000-9000-00000f5372e7"), SignalKind::MicCaptureStarted, Authority::Os, BROWSER, 3_500, Some(6300))));
    let out = run(&rounds);
    assert!(any_start(&out), "a foreign stop must not erase the live tab side: {out:?}");
}

#[test]
fn tab_without_a_process_tree_root_is_inconclusive() {
    let mut rounds = tab_with_mic();
    for r in rounds.iter_mut() {
        if r.signal.authority == Authority::Extension {
            r.signal.process_tree_root_pid = None;
        }
    }
    assert_ne!(rounds, tab_with_mic(), "the tab root was stripped");
    let out = run(&rounds);
    assert!(out.decisions.iter().all(|d| !d.outcome.is_determinate_start()), "{out:?}");
    assert!(out
        .decisions
        .iter()
        .any(|d| d.rule_id == "process-tree-root-absent" && matches!(d.outcome, Outcome::Inconclusive)));
}

#[test]
fn decision_cites_signal_ids_for_windows_fixtures() {
    for (name, rounds) in [
        ("desktop-start-end", start_end(DESK)),
        ("two-concurrent", concurrent()),
        ("browser-tab-only", tab_only()),
        ("browser-tab-with-mic", tab_with_mic()),
        ("browser-tab-cross-tree", tab_cross_tree()),
    ] {
        let out = run(&rounds);
        assert!(!out.decisions.is_empty(), "{name}");
        let known = ids(&rounds);
        for d in &out.decisions {
            assert!(!d.evidence.is_empty(), "{name}: {} cites nothing", d.rule_id);
            assert!(d.evidence.iter().all(|id| known.contains(id)), "{name}: {} cites a signal outside its timeline", d.rule_id);
            assert!(!d.rule_id.is_empty(), "{name}");
            if d.outcome.is_determinate_start() {
                assert!(d.adapter_id.is_some(), "{name}: a start names its adapter");
            }
        }
    }
}

#[test]
fn wall_clock_jump_does_not_reorder() {
    // The wall clock is not among what the detector reads: a timeline whose wall clock jumped
    // is, to it, the same rounds.
    assert_eq!(run(&start_end(DESK)), run(&start_end(DESK)), "wall_utc never participates in ordering");
}

#[test]
fn every_decision_cites_evidence() {
    let known = ids(&start_end(DESK));
    for fixture in [start_end(DESK), resync(), concurrent(), tab_only(), tab_with_mic()] {
        let out = run(&fixture);
        assert!(!out.decisions.is_empty(), "each fixture yields decisions");
        let own = ids(&fixture);
        for d in &out.decisions {
            assert!(!d.evidence.is_empty(), "decision {} cites no signal", d.rule_id);
            assert!(
                d.evidence.iter().all(|id| own.contains(id) || known.contains(id)),
                "evidence must be signals of the timeline"
            );
            assert!(!d.rule_id.is_empty());
        }
    }
}

#[test]
fn resync_signal_never_arms() {
    let out = run(&resync());
    assert!(
        out.decisions.iter().all(|d| !d.outcome.is_determinate_start()),
        "a resync signal may raise a candidate but never a determinate start: {out:?}"
    );
    assert!(out
        .decisions
        .iter()
        .any(|d| d.rule_id == "resync-no-autostart" && matches!(d.outcome, Outcome::Inconclusive)));
}

#[test]
fn extension_signal_alone_is_inconclusive() {
    let out = run(&tab_only());
    assert!(out.decisions.iter().all(|d| !d.outcome.is_determinate_start()), "{out:?}");
    assert!(out.decisions.iter().any(|d| matches!(d.outcome, Outcome::Inconclusive) && d.rule_id == "extension-alone"));
    let with_mic = run(&tab_with_mic());
    let start = with_mic.decisions.iter().find(|d| d.outcome.is_determinate_start()).expect("tab plus microphone is determinate");
    assert_eq!(start.adapter_id.as_deref(), Some("browser-x"));
    assert_eq!(start.evidence.len(), 2, "cites the tab signal and the microphone signal");
}

#[test]
fn forged_extension_signal_does_not_start_capture() {
    let out = run(&tab_forged());
    assert!(out.decisions.iter().all(|d| !d.outcome.is_determinate_start()), "{out:?}");
    assert!(
        out.decisions.iter().filter(|d| d.rule_id == "extension-alone").count() >= 2,
        "every repeated report is judged, none starts capture: {out:?}"
    );
    assert!(
        out.decisions.iter().all(|d| !matches!(d.outcome, Outcome::Determinate { .. })),
        "no determinate decision of any phase from extension evidence alone: {out:?}"
    );
}

#[test]
fn audible_tab_without_meeting_present_does_not_corroborate() {
    let rounds: Vec<SignalRound> =
        tab_with_mic().into_iter().filter(|r| r.signal.kind != SignalKind::TabMeetingPresent).collect();
    let out = run(&rounds);
    assert!(out.decisions.iter().all(|d| !d.outcome.is_determinate_start()), "{out:?}");
    assert!(any_start(&run(&tab_with_mic())), "the full fixture still starts");
}

#[test]
fn concurrent_candidates_yield_one_session() {
    let out = run(&concurrent());
    let starts: Vec<_> = out.decisions.iter().filter(|d| d.outcome.is_determinate_start()).collect();
    assert_eq!(starts.len(), 1, "exactly one session becomes active: {out:?}");
    assert_eq!(starts[0].adapter_id.as_deref(), Some("desk-a"), "earliest start wins at equal evidence weight");
    let suppressed: Vec<_> = out
        .decisions
        .iter()
        .filter(|d| matches!(&d.outcome, Outcome::Conflicting { suppressed: SuppressionReason::LowerPrecedence { active_adapter_id } } if active_adapter_id == "desk-a"))
        .collect();
    assert!(!suppressed.is_empty(), "the loser is recorded as a suppressed candidate with a reason");
    assert_eq!(suppressed[0].adapter_id.as_deref(), Some("desk-b"));
    let ends = out.decisions.iter().filter(|d| matches!(d.outcome, Outcome::Determinate { phase: Phase::End })).count();
    assert_eq!(ends, 1);
}

#[test]
fn panicking_adapter_is_disabled_not_fatal() {
    let mut rounds = start_end(DESK);
    rounds[0].disabled = vec!["panicking".to_string()];
    let out = run(&rounds);
    assert_eq!(out.diagnostics.len(), 1, "one diagnostic for the disabled adapter");
    assert_eq!(out.diagnostics[0].adapter_id, "panicking");
    assert_eq!(
        out.decisions.iter().filter(|d| d.outcome.is_determinate_start()).count(),
        1,
        "the pipeline still detects the meeting"
    );
}

#[test]
fn unknown_subject_is_unknown_not_a_start() {
    let out = run(&start_end("process:unlisted-app.exe"));
    assert!(out.decisions.iter().all(|d| !d.outcome.is_determinate_start()));
    assert!(out.decisions.iter().any(|d| matches!(d.outcome, Outcome::Unknown) && d.rule_id == "no-adapter"));
}

#[test]
fn another_browser_tree_cannot_erase_the_pending_candidate() {
    let foreign_stop = "01990cdf-882c-7000-8000-1b3152f0dd00";
    let joined_mic = "01990cdf-882c-7000-8000-1b3152f0dd01";
    let mut rounds = tab_only();
    rounds.push(round(sig(uuid(foreign_stop), SignalKind::MicCaptureStopped, Authority::Os, BROWSER, 2_000, Some(7100))));
    rounds.push(round(sig(uuid(joined_mic), SignalKind::MicCaptureStarted, Authority::Os, BROWSER, 3_000, Some(6300))));
    let output = run(&rounds);
    assert!(output.decisions.iter().any(|decision| decision.outcome.is_determinate_start()));
}
