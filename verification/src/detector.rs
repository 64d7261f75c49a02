//! `decide`: fold a signal timeline into evidence-citing decisions.
//!
//! The adapter registry is asked, signal by signal, which adapters recognise the subject; the
//! fold reads those answers ([`SignalRound`]) and is a pure function of them, so a replay of the
//! same timeline is byte-identical. Per adapter it keeps a candidate (the evidence gathered so
//! far) and it keeps at most one active meeting.

use crate::chunk_manifest::append_str;
use crate::decision::{
    copy_ids, copy_opt, derived, opt_view, Decision, DecisionView, DetectorOutput, Diagnostic,
};
use crate::ids::{uuid_string, uuid_text, SignalId};
use crate::outcome::{partition, Outcome, OutcomeView, Phase, SuppressionReason};
use vstd::prelude::*;

verus! {

/// What a signal reports.
#[derive(Debug, Clone, Copy, PartialEq, Eq, Structural, Hash)]
pub enum SignalKind {
    ProcessStarted,
    ProcessStopped,
    MicCaptureStarted,
    MicCaptureStopped,
    AudioSessionDestroyed,
    TabAudible,
    TabMeetingPresent,
}

/// Who vouches for a signal.
#[derive(Debug, Clone, Copy, PartialEq, Eq, Structural, Hash)]
pub enum Authority {
    Os,
    Extension,
}

/// How an adapter recognised a subject.
#[derive(Debug, Clone, Copy, PartialEq, Eq, Structural, Hash)]
pub enum MatchKind {
    Process,
    Tab,
}

/// Which kinds of evidence an adapter needs before a meeting may start.
#[derive(Debug, Clone, Copy, PartialEq, Eq, Structural, Hash)]
pub struct Corroboration {
    pub microphone: bool,
    pub tab: bool,
}

/// Whether an unmatched subject with microphone use is surfaced as a generic candidate.
#[derive(Debug, Clone, Copy, PartialEq, Eq, Structural)]
pub struct DetectorConfig {
    pub generic_detection_enabled: bool,
}

impl Default for DetectorConfig {
    fn default() -> (c: DetectorConfig)
        ensures
            !c.generic_detection_enabled,
    {
        DetectorConfig { generic_detection_enabled: false }
    }
}

/// One observed signal as the detector reads it.
#[derive(Debug, PartialEq, Eq)]
pub struct DetectorSignal {
    pub signal_id: SignalId,
    pub kind: SignalKind,
    pub authority: Authority,
    /// The subject's key (process image or tab host and key).
    pub subject_key: String,
    pub monotonic_ns: u64,
    /// `process_tree_root_pid` from the signal's payload.
    pub process_tree_root_pid: Option<u32>,
    /// `restart_resync` from the signal's payload.
    pub restart_resync: bool,
}

/// An adapter that recognised a signal's subject, with what the adapter declares.
#[derive(Debug, PartialEq, Eq)]
pub struct AdapterMatch {
    pub adapter_id: String,
    pub kind: MatchKind,
    pub evidence_weight: u8,
    pub corroboration: Corroboration,
}

/// One signal of the timeline with the registry's answers for it: the adapters that matched, in
/// registration order, and the adapters that failed while matching and are now disabled.
#[derive(Debug, PartialEq, Eq)]
pub struct SignalRound {
    pub signal: DetectorSignal,
    pub matched: Vec<AdapterMatch>,
    pub disabled: Vec<String>,
}

/// Evidence gathered for one adapter's candidate meeting.
pub struct CandidateView {
    pub adapter_id: Seq<char>,
    pub subject_key: Option<Seq<char>>,
    pub microphone: Option<SignalId>,
    pub microphone_subject_key: Option<Seq<char>>,
    pub tab: Option<SignalId>,
    pub tab_subject_key: Option<Seq<char>>,
    pub microphone_tree_root: Option<u32>,
    pub tab_tree_root: Option<u32>,
    pub resync: bool,
}

/// The active meeting.
pub struct ActiveView {
    pub adapter_id: Seq<char>,
    pub subject_key: Option<Seq<char>>,
    pub started_at: u64,
    pub weight: u8,
    pub evidence: Seq<SignalId>,
    pub tree_root: Option<u32>,
}

/// The fold's state between signals.
pub struct DetectState {
    pub candidates: Seq<CandidateView>,
    pub active: Option<ActiveView>,
}

/// A diagnostic as a value.
pub struct DiagnosticView {
    pub adapter_id: Seq<char>,
    pub message: Seq<char>,
}

pub open spec fn diagnostic_view(d: Diagnostic) -> DiagnosticView {
    DiagnosticView { adapter_id: d.adapter_id@, message: d.message@ }
}

/// The note recorded for an adapter disabled while matching `signal`.
pub open spec fn disabled_note(adapter_id: Seq<char>, signal: SignalId) -> DiagnosticView {
    DiagnosticView {
        adapter_id,
        message: "adapter panicked while matching signal "@ + uuid_text(signal.0)
            + " and is disabled for the remainder of the process"@,
    }
}

pub open spec fn default_candidate(adapter_id: Seq<char>) -> CandidateView {
    CandidateView {
        adapter_id,
        subject_key: None,
        microphone: None,
        microphone_subject_key: None,
        tab: None,
        tab_subject_key: None,
        microphone_tree_root: None,
        tab_tree_root: None,
        resync: false,
    }
}

/// The first index at or after `i` of the candidate for `adapter_id`, or -1.
pub open spec fn find_candidate(cs: Seq<CandidateView>, adapter_id: Seq<char>, i: int) -> int
    decreases cs.len() - i,
{
    if i < 0 || i >= cs.len() {
        -1
    } else if cs[i].adapter_id == adapter_id {
        i
    } else {
        find_candidate(cs, adapter_id, i + 1)
    }
}

pub open spec fn candidate_of(cs: Seq<CandidateView>, adapter_id: Seq<char>) -> CandidateView {
    let i = find_candidate(cs, adapter_id, 0);
    if i >= 0 {
        cs[i]
    } else {
        default_candidate(adapter_id)
    }
}

pub open spec fn put_candidate(cs: Seq<CandidateView>, c: CandidateView) -> Seq<CandidateView> {
    let i = find_candidate(cs, c.adapter_id, 0);
    if i >= 0 {
        cs.update(i, c)
    } else {
        cs.push(c)
    }
}

pub open spec fn drop_candidate(cs: Seq<CandidateView>, adapter_id: Seq<char>) -> Seq<
    CandidateView,
> {
    let i = find_candidate(cs, adapter_id, 0);
    if i >= 0 {
        cs.remove(i)
    } else {
        cs
    }
}

/// Whether evidence from process tree `candidate_tree` belongs to the ending tree: evidence
/// without a tree is always affected, evidence with a tree only by the same tree.
pub open spec fn same_tree_spec(candidate_tree: Option<u32>, ending_tree: Option<u32>) -> bool {
    match (candidate_tree, ending_tree) {
        (Some(a), Some(b)) => a == b,
        (Some(_), None) => false,
        (None, _) => true,
    }
}

pub open spec fn is_end_kind(kind: SignalKind) -> bool {
    kind == SignalKind::MicCaptureStopped || kind == SignalKind::ProcessStopped || kind
        == SignalKind::AudioSessionDestroyed
}

/// The candidate after an ending signal of `kind` from `ending_tree`: process teardown clears
/// the tab and microphone sides of its tree, microphone or audio-session teardown only the
/// microphone side; the subject key falls back to what remains.
pub open spec fn cleared(c: CandidateView, kind: SignalKind, ending_tree: Option<u32>) -> CandidateView {
    let c1 = if kind == SignalKind::ProcessStopped && same_tree_spec(c.tab_tree_root, ending_tree) {
        CandidateView { tab: None, tab_tree_root: None, tab_subject_key: None, ..c }
    } else {
        c
    };
    let c2 = if is_end_kind(kind) && same_tree_spec(c1.microphone_tree_root, ending_tree) {
        CandidateView {
            microphone: None,
            microphone_tree_root: None,
            microphone_subject_key: None,
            resync: false,
            ..c1
        }
    } else {
        c1
    };
    CandidateView {
        subject_key: if c2.tab_subject_key is Some {
            c2.tab_subject_key
        } else {
            c2.microphone_subject_key
        },
        ..c2
    }
}

/// The candidate after a starting signal: only an OS microphone report on a process match or
/// an extension meeting-present report on a tab match adds evidence.
pub open spec fn absorbed(c: CandidateView, s: DetectorSignal, kind: MatchKind) -> CandidateView {
    let key = s.subject_key@;
    if s.kind == SignalKind::MicCaptureStarted && s.authority == Authority::Os && kind
        == MatchKind::Process {
        CandidateView {
            microphone: Some(s.signal_id),
            microphone_subject_key: Some(key),
            microphone_tree_root: s.process_tree_root_pid,
            subject_key: if c.subject_key is Some {
                c.subject_key
            } else {
                Some(key)
            },
            resync: c.resync || s.restart_resync,
            ..c
        }
    } else if s.kind == SignalKind::TabMeetingPresent && s.authority == Authority::Extension
        && kind == MatchKind::Tab {
        CandidateView {
            tab: Some(s.signal_id),
            tab_subject_key: Some(key),
            tab_tree_root: s.process_tree_root_pid,
            subject_key: if c.subject_key is Some {
                c.subject_key
            } else {
                Some(key)
            },
            ..c
        }
    } else {
        c
    }
}

/// The process-tree join for adapters that need both tab and microphone evidence: `None` when
/// both sides carry the same tree root, else the rule that names the failure.
pub open spec fn tree_join_spec(c: CandidateView) -> Option<Seq<char>> {
    match (c.tab_tree_root, c.microphone_tree_root) {
        (Some(tab), Some(mic)) => if tab == mic {
            None
        } else {
            Some("process-tree-mismatch"@)
        },
        _ => Some("process-tree-root-absent"@),
    }
}

/// The evidence a candidate cites: its tab signal, then its microphone signal.
pub open spec fn cited_spec(c: CandidateView) -> Seq<SignalId> {
    (if c.tab is Some {
        seq![c.tab->0]
    } else {
        Seq::empty()
    }) + (if c.microphone is Some {
        seq![c.microphone->0]
    } else {
        Seq::empty()
    })
}

pub open spec fn corroborated(c: CandidateView, needs: Corroboration) -> bool {
    (!needs.microphone || c.microphone is Some) && (!needs.tab || c.tab is Some)
}

/// The meeting that starts for candidate `c`.
pub open spec fn started(c: CandidateView, m: AdapterMatch, now: u64, cited: Seq<SignalId>) -> ActiveView {
    ActiveView {
        adapter_id: m.adapter_id@,
        subject_key: c.subject_key,
        started_at: now,
        weight: m.evidence_weight,
        evidence: cited,
        tree_root: if m.corroboration.tab && m.corroboration.microphone {
            c.tab_tree_root
        } else {
            None
        },
    }
}

/// An ending signal: the adapter's candidate loses the evidence of the ending tree (and goes
/// when nothing is left), and the active meeting of the adapter ends when the signal is about
/// its subject (or a process match) from its tree.
pub open spec fn end_step(version: u32, st: DetectState, s: DetectorSignal, m: AdapterMatch) -> (
    DetectState,
    Seq<DecisionView>,
) {
    let id = m.adapter_id@;
    let i = find_candidate(st.candidates, id, 0);
    let cands = if i >= 0 {
        let c = cleared(st.candidates[i], s.kind, s.process_tree_root_pid);
        if c.tab is None && c.microphone is None {
            st.candidates.remove(i)
        } else {
            st.candidates.update(i, c)
        }
    } else {
        st.candidates
    };
    match st.active {
        Some(a) => if a.adapter_id == id && (a.subject_key == Some(s.subject_key@) || m.kind
            == MatchKind::Process) && same_tree_spec(a.tree_root, s.process_tree_root_pid) {
            (
                DetectState { candidates: cands, active: None },
                seq![
                    derived(
                        version,
                        OutcomeView::Determinate(Phase::End),
                        Some(id),
                        a.subject_key,
                        "end"@,
                        a.evidence.push(s.signal_id),
                        s.monotonic_ns,
                    ),
                ],
            )
        } else {
            (DetectState { candidates: cands, active: st.active }, Seq::empty())
        },
        None => (DetectState { candidates: cands, active: None }, Seq::empty()),
    }
}

/// Continuing evidence for the adapter's active meeting.
pub open spec fn continue_step(version: u32, a: ActiveView, cands: Seq<CandidateView>, s: DetectorSignal) -> (
    DetectState,
    Seq<DecisionView>,
) {
    (
        DetectState {
            candidates: cands,
            active: Some(ActiveView { evidence: a.evidence.push(s.signal_id), ..a }),
        },
        seq![
            derived(
                version,
                OutcomeView::Determinate(Phase::Continue),
                Some(a.adapter_id),
                a.subject_key,
                "continue"@,
                seq![s.signal_id],
                s.monotonic_ns,
            ),
        ],
    )
}

/// The judgement of a candidate `c` that has absorbed the signal and passed the tree join;
/// `cands` already holds `c`.
pub open spec fn judge_step(
    version: u32,
    active: Option<ActiveView>,
    cands: Seq<CandidateView>,
    c: CandidateView,
    s: DetectorSignal,
    m: AdapterMatch,
) -> (DetectState, Seq<DecisionView>) {
    let id = m.adapter_id@;
    let now = s.monotonic_ns;
    let needs = m.corroboration;
    let cited0 = cited_spec(c);
    let cited = if cited0.len() == 0 {
        seq![s.signal_id]
    } else {
        cited0
    };
    if !corroborated(c, needs) {
        let rule = if needs.tab && c.tab is Some && c.microphone is None {
            "extension-alone"@
        } else {
            "corroboration-missing"@
        };
        (
            DetectState { candidates: cands, active },
            seq![derived(version, OutcomeView::Inconclusive, Some(id), c.subject_key, rule, cited, now)],
        )
    } else {
        match active {
            None => if c.resync {
                (
                    DetectState { candidates: cands, active: None },
                    seq![
                        derived(
                            version,
                            OutcomeView::Inconclusive,
                            Some(id),
                            c.subject_key,
                            "resync-no-autostart"@,
                            cited,
                            now,
                        ),
                    ],
                )
            } else {
                (
                    DetectState {
                        candidates: drop_candidate(cands, id),
                        active: Some(started(c, m, now, cited)),
                    },
                    seq![
                        derived(
                            version,
                            OutcomeView::Determinate(Phase::Start),
                            Some(id),
                            c.subject_key,
                            "adapter-match"@,
                            cited,
                            now,
                        ),
                    ],
                )
            },
            Some(a) => if m.evidence_weight > a.weight {
                (
                    DetectState {
                        candidates: drop_candidate(cands, id),
                        active: Some(started(c, m, now, cited)),
                    },
                    seq![
                        derived(
                            version,
                            OutcomeView::Conflicting(id),
                            Some(a.adapter_id),
                            a.subject_key,
                            "precedence"@,
                            a.evidence,
                            now,
                        ),
                        derived(
                            version,
                            OutcomeView::Determinate(Phase::Start),
                            Some(id),
                            c.subject_key,
                            "adapter-match"@,
                            cited,
                            now,
                        ),
                    ],
                )
            } else {
                (
                    DetectState { candidates: cands, active },
                    seq![
                        derived(
                            version,
                            OutcomeView::Conflicting(a.adapter_id),
                            Some(id),
                            c.subject_key,
                            "precedence"@,
                            cited,
                            now,
                        ),
                    ],
                )
            },
        }
    }
}

/// A starting signal for an adapter without an active meeting: the candidate absorbs its
/// evidence; a browser-class candidate whose tab and microphone come from different (or
/// unknown) process trees is inconclusive; otherwise it is judged.
pub open spec fn evidence_step(version: u32, st: DetectState, s: DetectorSignal, m: AdapterMatch) -> (
    DetectState,
    Seq<DecisionView>,
) {
    let id = m.adapter_id@;
    let needs = m.corroboration;
    let c = absorbed(candidate_of(st.candidates, id), s, m.kind);
    let cands = put_candidate(st.candidates, c);
    if corroborated(c, needs) && needs.tab && needs.microphone && tree_join_spec(c) is Some {
        (
            DetectState { candidates: cands, active: st.active },
            seq![
                derived(
                    version,
                    OutcomeView::Inconclusive,
                    Some(id),
                    c.subject_key,
                    tree_join_spec(c)->0,
                    cited_spec(c),
                    s.monotonic_ns,
                ),
            ],
        )
    } else {
        judge_step(version, st.active, cands, c, s, m)
    }
}

/// One adapter's match of one signal: the next state and the decisions it records.
pub open spec fn match_step(version: u32, st: DetectState, s: DetectorSignal, m: AdapterMatch) -> (
    DetectState,
    Seq<DecisionView>,
) {
    if is_end_kind(s.kind) {
        end_step(version, st, s, m)
    } else if st.active is Some && st.active->0.adapter_id == m.adapter_id@ {
        continue_step(version, st.active->0, st.candidates, s)
    } else {
        evidence_step(version, st, s, m)
    }
}


/// The first `n` matches of one signal, folded in order.
pub open spec fn matches_fold(
    version: u32,
    st: DetectState,
    s: DetectorSignal,
    ms: Seq<AdapterMatch>,
    n: nat,
) -> (DetectState, Seq<DecisionView>)
    decreases n,
{
    if n == 0 || n > ms.len() {
        (st, Seq::empty())
    } else {
        let (st1, d1) = matches_fold(version, st, s, ms, (n - 1) as nat);
        let (st2, d2) = match_step(version, st1, s, ms[n - 1]);
        (st2, d1 + d2)
    }
}

/// One signal: notes for adapters disabled while matching it, then either the unmatched rule
/// (an OS microphone start nobody claims is an unknown) or the fold over its matches.
pub open spec fn round_step(version: u32, config: DetectorConfig, st: DetectState, r: SignalRound) -> (
    DetectState,
    Seq<DecisionView>,
    Seq<DiagnosticView>,
) {
    let s = r.signal;
    let notes = r.disabled@.map_values(|a: String| disabled_note(a@, s.signal_id));
    if r.matched@.len() == 0 {
        let ds = if s.kind == SignalKind::MicCaptureStarted && s.authority == Authority::Os {
            seq![
                derived(
                    version,
                    OutcomeView::Unknown,
                    None,
                    Some(s.subject_key@),
                    if config.generic_detection_enabled {
                        "generic-candidate"@
                    } else {
                        "no-adapter"@
                    },
                    seq![s.signal_id],
                    s.monotonic_ns,
                ),
            ]
        } else {
            Seq::empty()
        };
        (st, ds, notes)
    } else {
        let (st2, ds) = matches_fold(version, st, s, r.matched@, r.matched@.len());
        (st2, ds, notes)
    }
}

pub open spec fn initial_state() -> DetectState {
    DetectState { candidates: Seq::empty(), active: None }
}

/// The first `n` rounds of a timeline, folded from the empty state.
pub open spec fn timeline_fold(
    version: u32,
    config: DetectorConfig,
    rounds: Seq<SignalRound>,
    n: nat,
) -> (DetectState, Seq<DecisionView>, Seq<DiagnosticView>)
    decreases n,
{
    if n == 0 || n > rounds.len() {
        (initial_state(), Seq::empty(), Seq::empty())
    } else {
        let (st1, d1, g1) = timeline_fold(version, config, rounds, (n - 1) as nat);
        let (st2, d2, g2) = round_step(version, config, st1, rounds[n - 1]);
        (st2, d1 + d2, g1 + g2)
    }
}

pub open spec fn decisions_view(ds: Seq<Decision>) -> Seq<DecisionView> {
    ds.map_values(|d: Decision| d@)
}

pub open spec fn diagnostics_view(ds: Seq<Diagnostic>) -> Seq<DiagnosticView> {
    ds.map_values(|d: Diagnostic| diagnostic_view(d))
}

} // verus!

verus! {

/// The evidence gathered for one adapter.
struct Candidate {
    adapter_id: String,
    subject_key: Option<String>,
    microphone: Option<SignalId>,
    microphone_subject_key: Option<String>,
    tab: Option<SignalId>,
    tab_subject_key: Option<String>,
    /// `process_tree_root_pid` carried by the microphone signal, for the browser join.
    microphone_tree_root: Option<u32>,
    /// `process_tree_root_pid` carried by the tab signal, for the browser join.
    tab_tree_root: Option<u32>,
    resync: bool,
}

impl View for Candidate {
    type V = CandidateView;

    closed spec fn view(&self) -> CandidateView {
        CandidateView {
            adapter_id: self.adapter_id@,
            subject_key: opt_view(self.subject_key),
            microphone: self.microphone,
            microphone_subject_key: opt_view(self.microphone_subject_key),
            tab: self.tab,
            tab_subject_key: opt_view(self.tab_subject_key),
            microphone_tree_root: self.microphone_tree_root,
            tab_tree_root: self.tab_tree_root,
            resync: self.resync,
        }
    }
}

/// The meeting in progress.
struct Active {
    adapter_id: String,
    subject_key: Option<String>,
    started_at: u64,
    weight: u8,
    evidence: Vec<SignalId>,
    /// The browser process tree the meeting was joined on (browser-class adapters only), so an
    /// end signal from another tree cannot end it: the end path mirrors the start join.
    tree_root: Option<u32>,
}

impl View for Active {
    type V = ActiveView;

    closed spec fn view(&self) -> ActiveView {
        ActiveView {
            adapter_id: self.adapter_id@,
            subject_key: opt_view(self.subject_key),
            started_at: self.started_at,
            weight: self.weight,
            evidence: self.evidence@,
            tree_root: self.tree_root,
        }
    }
}

spec fn cands_view(v: Seq<Candidate>) -> Seq<CandidateView> {
    v.map_values(|c: Candidate| c@)
}

spec fn active_view(a: Option<Active>) -> Option<ActiveView> {
    match a {
        Some(x) => Some(x@),
        None => None,
    }
}

spec fn state_of(cands: Seq<Candidate>, active: Option<Active>) -> DetectState {
    DetectState { candidates: cands_view(cands), active: active_view(active) }
}

/// Whether ending evidence from `ending_tree` reaches evidence from `candidate_tree`.
fn same_tree(candidate_tree: Option<u32>, ending_tree: Option<u32>) -> (r: bool)
    ensures
        r == same_tree_spec(candidate_tree, ending_tree),
{
    match (candidate_tree, ending_tree) {
        (Some(a), Some(b)) => a == b,
        (Some(_), None) => false,
        (None, _) => true,
    }
}

/// The process-tree join for adapters that require both tab and microphone evidence:
/// corroboration holds only when both sides carry a tree root and the roots are equal.
fn tree_join(candidate: &Candidate) -> (r: Result<(), &'static str>)
    ensures
        match r {
            Ok(()) => tree_join_spec(candidate@) is None,
            Err(rule) => tree_join_spec(candidate@) == Some(rule@),
        },
{
    match (candidate.tab_tree_root, candidate.microphone_tree_root) {
        (Some(tab), Some(mic)) => if tab == mic {
            Ok(())
        } else {
            Err("process-tree-mismatch")
        },
        _ => Err("process-tree-root-absent"),
    }
}

fn is_end(kind: SignalKind) -> (r: bool)
    ensures
        r == is_end_kind(kind),
{
    match kind {
        SignalKind::MicCaptureStopped | SignalKind::ProcessStopped
        | SignalKind::AudioSessionDestroyed => true,
        _ => false,
    }
}

/// Clear only the evidence slot owned by the ending signal. Process teardown can invalidate both
/// slots on its tree; audio-session/microphone teardown invalidates only microphone evidence.
/// Returns true when the candidate has no corroborating evidence left.
fn clear_candidate_evidence(candidate: &mut Candidate, kind: SignalKind, ending_tree: Option<u32>) -> (r: bool)
    ensures
        final(candidate)@ == cleared(old(candidate)@, kind, ending_tree),
        r == (final(candidate)@.tab is None && final(candidate)@.microphone is None),
{
    if kind == SignalKind::ProcessStopped && same_tree(candidate.tab_tree_root, ending_tree) {
        candidate.tab = None;
        candidate.tab_tree_root = None;
        candidate.tab_subject_key = None;
    }
    if is_end(kind) && same_tree(candidate.microphone_tree_root, ending_tree) {
        candidate.microphone = None;
        candidate.microphone_tree_root = None;
        candidate.microphone_subject_key = None;
        candidate.resync = false;
    }
    candidate.subject_key = match &candidate.tab_subject_key {
        Some(k) => Some(k.clone()),
        None => copy_opt(&candidate.microphone_subject_key),
    };
    candidate.tab.is_none() && candidate.microphone.is_none()
}

/// The evidence a candidate cites: its tab signal, then its microphone signal.
fn cited(candidate: &Candidate) -> (v: Vec<SignalId>)
    ensures
        v@ == cited_spec(candidate@),
{
    let mut v: Vec<SignalId> = Vec::new();
    match candidate.tab {
        Some(t) => v.push(t),
        None => {},
    }
    match candidate.microphone {
        Some(m) => v.push(m),
        None => {},
    }
    assert(v@ =~= cited_spec(candidate@));
    v
}

/// Add a starting signal's evidence to a candidate.
fn absorb(candidate: &mut Candidate, s: &DetectorSignal, kind: MatchKind)
    ensures
        final(candidate)@ == absorbed(old(candidate)@, *s, kind),
{
    if s.kind == SignalKind::MicCaptureStarted && s.authority == Authority::Os && kind
        == MatchKind::Process {
        candidate.microphone = Some(s.signal_id);
        candidate.microphone_subject_key = Some(s.subject_key.clone());
        candidate.microphone_tree_root = s.process_tree_root_pid;
        if candidate.subject_key.is_none() {
            candidate.subject_key = Some(s.subject_key.clone());
        }
        if s.restart_resync {
            candidate.resync = true;
        }
    } else if s.kind == SignalKind::TabMeetingPresent && s.authority == Authority::Extension
        && kind == MatchKind::Tab {
        candidate.tab = Some(s.signal_id);
        candidate.tab_subject_key = Some(s.subject_key.clone());
        candidate.tab_tree_root = s.process_tree_root_pid;
        if candidate.subject_key.is_none() {
            candidate.subject_key = Some(s.subject_key.clone());
        }
    }
}

proof fn lemma_find_step(cs: Seq<CandidateView>, id: Seq<char>, i: int)
    requires
        0 <= i < cs.len(),
        cs[i].adapter_id != id,
    ensures
        find_candidate(cs, id, i) == find_candidate(cs, id, i + 1),
{
}

proof fn lemma_find_range(cs: Seq<CandidateView>, id: Seq<char>, i: int)
    requires
        0 <= i,
    ensures
        find_candidate(cs, id, i) == -1 || (i <= find_candidate(cs, id, i) < cs.len()
            && cs[find_candidate(cs, id, i)].adapter_id == id),
    decreases cs.len() - i,
{
    if i < cs.len() && cs[i].adapter_id != id {
        lemma_find_range(cs, id, i + 1);
    }
}

/// The index of the candidate for `adapter_id`.
fn find_index(cands: &Vec<Candidate>, adapter_id: &String) -> (r: Option<usize>)
    ensures
        match r {
            Some(i) => find_candidate(cands_view(cands@), adapter_id@, 0) == i && i < cands@.len(),
            None => find_candidate(cands_view(cands@), adapter_id@, 0) == -1,
        },
{
    let ghost cs = cands_view(cands@);
    let mut i: usize = 0;
    while i < cands.len()
        invariant
            i <= cands@.len(),
            cs == cands_view(cands@),
            find_candidate(cs, adapter_id@, 0) == find_candidate(cs, adapter_id@, i as int),
        decreases cands@.len() - i,
    {
        if cands[i].adapter_id == *adapter_id {
            return Some(i);
        }
        proof {
            lemma_find_step(cs, adapter_id@, i as int);
        }
        i += 1;
    }
    None
}

proof fn lemma_find_first(cs: Seq<CandidateView>, id: Seq<char>, i: int)
    requires
        0 <= i,
    ensures
        find_candidate(cs, id, i) >= 0 ==> forall|j: int|
            i <= j < find_candidate(cs, id, i) ==> #[trigger] cs[j].adapter_id != id,
        find_candidate(cs, id, i) == -1 ==> forall|j: int|
            i <= j < cs.len() ==> #[trigger] cs[j].adapter_id != id,
    decreases cs.len() - i,
{
    lemma_find_range(cs, id, i);
    if i < cs.len() && cs[i].adapter_id != id {
        lemma_find_first(cs, id, i + 1);
    }
}

proof fn lemma_find_from(cs: Seq<CandidateView>, id: Seq<char>, i: int, k: int)
    requires
        0 <= i <= k < cs.len(),
        cs[k].adapter_id == id,
        forall|j: int| i <= j < k ==> #[trigger] cs[j].adapter_id != id,
    ensures
        find_candidate(cs, id, i) == k,
    decreases k - i,
{
    if i < k {
        lemma_find_from(cs, id, i + 1, k);
    }
}

proof fn lemma_find_absent(cs: Seq<CandidateView>, id: Seq<char>, i: int)
    requires
        0 <= i,
        forall|j: int| i <= j < cs.len() ==> #[trigger] cs[j].adapter_id != id,
    ensures
        find_candidate(cs, id, i) == -1,
    decreases cs.len() - i,
{
    if i < cs.len() {
        lemma_find_absent(cs, id, i + 1);
    }
}

/// The candidate read for an adapter carries that adapter's id.
proof fn lemma_candidate_of(cs: Seq<CandidateView>, id: Seq<char>)
    ensures
        candidate_of(cs, id).adapter_id == id,
{
    lemma_find_range(cs, id, 0);
}

/// Writing a candidate back and then dropping it leaves the list without it.
proof fn lemma_put_then_drop(cs: Seq<CandidateView>, c: CandidateView)
    ensures
        drop_candidate(put_candidate(cs, c), c.adapter_id) == drop_candidate(cs, c.adapter_id),
        find_candidate(cs, c.adapter_id, 0) >= 0 ==> put_candidate(cs, c) == cs.update(
            find_candidate(cs, c.adapter_id, 0),
            c,
        ),
        find_candidate(cs, c.adapter_id, 0) == -1 ==> put_candidate(cs, c) == cs.push(c),
{
    let id = c.adapter_id;
    let i = find_candidate(cs, id, 0);
    lemma_find_range(cs, id, 0);
    lemma_find_first(cs, id, 0);
    let p = put_candidate(cs, c);
    if i >= 0 {
        assert forall|j: int| 0 <= j < i implies #[trigger] p[j].adapter_id != id by {
            assert(p[j] == cs[j]);
        }
        lemma_find_from(p, id, 0, i);
        assert(p.remove(i) =~= cs.remove(i));
    } else {
        assert forall|j: int| 0 <= j < cs.len() implies #[trigger] p[j].adapter_id != id by {
            assert(p[j] == cs[j]);
        }
        lemma_find_from(p, id, 0, cs.len() as int);
        assert(p.remove(cs.len() as int) =~= cs);
    }
}

proof fn lemma_view_remove(v: Seq<Candidate>, i: int)
    requires
        0 <= i < v.len(),
    ensures
        cands_view(v.remove(i)) == cands_view(v).remove(i),
        cands_view(v)[i] == v[i]@,
{
    assert(cands_view(v.remove(i)) =~= cands_view(v).remove(i));
}

proof fn lemma_view_insert(v: Seq<Candidate>, i: int, c: Candidate)
    requires
        0 <= i <= v.len(),
    ensures
        cands_view(v.insert(i, c)) == cands_view(v).insert(i, c@),
{
    assert(cands_view(v.insert(i, c)) =~= cands_view(v).insert(i, c@));
}

/// The single-signal vector `[id]`.
fn one_id(id: SignalId) -> (v: Vec<SignalId>)
    ensures
        v@ == seq![id],
{
    let mut v: Vec<SignalId> = Vec::new();
    v.push(id);
    assert(v@ =~= seq![id]);
    v
}

/// Whether `key` is the meeting's subject.
fn is_subject(meeting_key: &Option<String>, key: &String) -> (r: bool)
    ensures
        r == (opt_view(*meeting_key) == Some(key@)),
{
    match meeting_key {
        Some(k) => *k == *key,
        None => false,
    }
}

/// Whether the ending signal ends the active meeting of `m`'s adapter.
fn ends_meeting(active: &Option<Active>, s: &DetectorSignal, m: &AdapterMatch) -> (r: bool)
    ensures
        r == (active_view(*active) is Some && active_view(*active)->0.adapter_id == m.adapter_id@ && (
        active_view(*active)->0.subject_key == Some(s.subject_key@) || m.kind == MatchKind::Process)
            && same_tree_spec(active_view(*active)->0.tree_root, s.process_tree_root_pid)),
{
    match active {
        Some(a) => a.adapter_id == m.adapter_id && (is_subject(&a.subject_key, &s.subject_key)
            || m.kind == MatchKind::Process) && same_tree(a.tree_root, s.process_tree_root_pid),
        None => false,
    }
}

/// Whether the active meeting is `m`'s adapter's.
fn is_active_adapter(active: &Option<Active>, m: &AdapterMatch) -> (r: bool)
    ensures
        r == (active_view(*active) is Some && active_view(*active)->0.adapter_id == m.adapter_id@),
{
    match active {
        Some(a) => a.adapter_id == m.adapter_id,
        None => false,
    }
}

pub open spec fn active_cites(st: DetectState) -> bool {
    st.active is Some ==> st.active->0.evidence.len() > 0
}

/// The meeting that starts for `c` (already absorbed) under `m`.
fn start_meeting(c: &Candidate, m: &AdapterMatch, now: u64, cited_ids: &Vec<SignalId>) -> (a: Active)
    ensures
        a@ == started(c@, *m, now, cited_ids@),
{
    Active {
        adapter_id: m.adapter_id.clone(),
        subject_key: copy_opt(&c.subject_key),
        started_at: now,
        weight: m.evidence_weight,
        evidence: copy_ids(cited_ids),
        tree_root: if m.corroboration.tab && m.corroboration.microphone {
            c.tab_tree_root
        } else {
            None
        },
    }
}

/// An ending signal: clear the candidate's evidence of the ending tree and end the meeting it
/// ends.
fn apply_end(
    version: u32,
    cands: &mut Vec<Candidate>,
    active: &mut Option<Active>,
    s: &DetectorSignal,
    m: &AdapterMatch,
    out: &mut Vec<Decision>,
)
    requires
        active_cites(state_of(old(cands)@, *old(active))),
    ensures
        state_of(final(cands)@, *final(active)) == end_step(
            version,
            state_of(old(cands)@, *old(active)),
            *s,
            *m,
        ).0,
        decisions_view(final(out)@) == decisions_view(old(out)@) + end_step(
            version,
            state_of(old(cands)@, *old(active)),
            *s,
            *m,
        ).1,
        active_cites(state_of(final(cands)@, *final(active))),
{
    let ghost st = state_of(cands@, *active);
    let ghost step = end_step(version, st, *s, *m);
    let ghost old_out = decisions_view(out@);
    match find_index(cands, &m.adapter_id) {
        Some(i) => {
            proof {
                lemma_view_remove(cands@, i as int);
            }
            let mut c = cands.remove(i);
            let empty = clear_candidate_evidence(&mut c, s.kind, s.process_tree_root_pid);
            if !empty {
                proof {
                    lemma_view_insert(cands@, i as int, c);
                    assert(st.candidates.remove(i as int).insert(i as int, c@) =~= st.candidates.update(
                        i as int,
                        c@,
                    ));
                }
                cands.insert(i, c);
            }
        },
        None => {},
    }
    assert(cands_view(cands@) == step.0.candidates);
    if ends_meeting(&*active, s, m) {
        let a = active.take().unwrap();
        let mut evidence = a.evidence;
        evidence.push(s.signal_id);
        let d = Decision::derive(
            version,
            Outcome::Determinate { phase: Phase::End },
            Some(m.adapter_id.clone()),
            a.subject_key,
            "end",
            evidence,
            s.monotonic_ns,
        );
        out.push(d);
    }
    assert(decisions_view(out@) =~= old_out + step.1);
}

/// Continuing evidence for the adapter's active meeting.
fn apply_continue(
    version: u32,
    active: &mut Option<Active>,
    s: &DetectorSignal,
    out: &mut Vec<Decision>,
)
    requires
        active_view(*old(active)) is Some,
        active_view(*old(active))->0.evidence.len() > 0,
    ensures
        continue_step(version, active_view(*old(active))->0, Seq::empty(), *s).0.active
            == active_view(*final(active)),
        decisions_view(final(out)@) == decisions_view(old(out)@) + continue_step(
            version,
            active_view(*old(active))->0,
            Seq::empty(),
            *s,
        ).1,
        active_view(*final(active)) is Some,
        active_view(*final(active))->0.evidence.len() > 0,
{
    let ghost old_out = decisions_view(out@);
    let ghost step = continue_step(version, active_view(*active)->0, Seq::empty(), *s);
    let mut a = active.take().unwrap();
    a.evidence.push(s.signal_id);
    let subject = copy_opt(&a.subject_key);
    let adapter = a.adapter_id.clone();
    *active = Some(a);
    let d = Decision::derive(
        version,
        Outcome::Determinate { phase: Phase::Continue },
        Some(adapter),
        subject,
        "continue",
        one_id(s.signal_id),
        s.monotonic_ns,
    );
    out.push(d);
    assert(decisions_view(out@) =~= old_out + step.1);
}

/// Judge a candidate that absorbed the signal and passed the tree join. `cands` holds every
/// other candidate; `c` goes back at `at` unless its meeting starts.
fn judge(
    version: u32,
    cands: &mut Vec<Candidate>,
    at: usize,
    c: Candidate,
    active: &mut Option<Active>,
    s: &DetectorSignal,
    m: &AdapterMatch,
    out: &mut Vec<Decision>,
)
    requires
        at <= old(cands)@.len(),
        c@.adapter_id == m.adapter_id@,
        find_candidate(cands_view(old(cands)@.insert(at as int, c)), m.adapter_id@, 0) == at,
        active_cites(state_of(old(cands)@, *old(active))),
    ensures
        state_of(final(cands)@, *final(active)) == judge_step(
            version,
            active_view(*old(active)),
            cands_view(old(cands)@.insert(at as int, c)),
            c@,
            *s,
            *m,
        ).0,
        decisions_view(final(out)@) == decisions_view(old(out)@) + judge_step(
            version,
            active_view(*old(active)),
            cands_view(old(cands)@.insert(at as int, c)),
            c@,
            *s,
            *m,
        ).1,
        active_cites(state_of(final(cands)@, *final(active))),
{
    let ghost full = cands_view(cands@.insert(at as int, c));
    let ghost step = judge_step(version, active_view(*active), full, c@, *s, *m);
    let ghost old_out = decisions_view(out@);
    let ghost rest = cands@;
    proof {
        lemma_view_insert(rest, at as int, c);
        assert(full.remove(at as int) =~= cands_view(rest));
        assert(drop_candidate(full, m.adapter_id@) == cands_view(rest));
    }
    let needs = m.corroboration;
    let now = s.monotonic_ns;
    let met = (!needs.microphone || c.microphone.is_some()) && (!needs.tab || c.tab.is_some());
    let cited0 = cited(&c);
    let subject = copy_opt(&c.subject_key);
    let cited_ids = if cited0.len() == 0 {
        one_id(s.signal_id)
    } else {
        cited0
    };
    if !met {
        let rule = if needs.tab && c.tab.is_some() && c.microphone.is_none() {
            "extension-alone"
        } else {
            "corroboration-missing"
        };
        cands.insert(at, c);
        let d = Decision::derive(
            version,
            Outcome::Inconclusive,
            Some(m.adapter_id.clone()),
            subject,
            rule,
            cited_ids,
            now,
        );
        out.push(d);
        assert(decisions_view(out@) =~= old_out + step.1);
        return;
    }
    match active.take() {
        None => {
            if c.resync {
                cands.insert(at, c);
                let d = Decision::derive(
                    version,
                    Outcome::Inconclusive,
                    Some(m.adapter_id.clone()),
                    subject,
                    "resync-no-autostart",
                    cited_ids,
                    now,
                );
                out.push(d);
            } else {
                let meeting = start_meeting(&c, m, now, &cited_ids);
                let d = Decision::derive(
                    version,
                    Outcome::Determinate { phase: Phase::Start },
                    Some(m.adapter_id.clone()),
                    subject,
                    "adapter-match",
                    cited_ids,
                    now,
                );
                out.push(d);
                *active = Some(meeting);
            }
            assert(decisions_view(out@) =~= old_out + step.1);
        },
        Some(a) => {
            if m.evidence_weight > a.weight {
                let meeting = start_meeting(&c, m, now, &cited_ids);
                let previous = Decision::derive(
                    version,
                    Outcome::Conflicting {
                        suppressed: SuppressionReason::LowerPrecedence {
                            active_adapter_id: m.adapter_id.clone(),
                        },
                    },
                    Some(a.adapter_id),
                    a.subject_key,
                    "precedence",
                    a.evidence,
                    now,
                );
                out.push(previous);
                let d = Decision::derive(
                    version,
                    Outcome::Determinate { phase: Phase::Start },
                    Some(m.adapter_id.clone()),
                    subject,
                    "adapter-match",
                    cited_ids,
                    now,
                );
                out.push(d);
                *active = Some(meeting);
            } else {
                let d = Decision::derive(
                    version,
                    Outcome::Conflicting {
                        suppressed: SuppressionReason::LowerPrecedence {
                            active_adapter_id: a.adapter_id.clone(),
                        },
                    },
                    Some(m.adapter_id.clone()),
                    subject,
                    "precedence",
                    cited_ids,
                    now,
                );
                out.push(d);
                *active = Some(a);
                cands.insert(at, c);
            }
            assert(decisions_view(out@) =~= old_out + step.1);
        },
    }
}

/// A starting signal for an adapter without an active meeting.
fn apply_evidence(
    version: u32,
    cands: &mut Vec<Candidate>,
    active: &mut Option<Active>,
    s: &DetectorSignal,
    m: &AdapterMatch,
    out: &mut Vec<Decision>,
)
    requires
        active_cites(state_of(old(cands)@, *old(active))),
    ensures
        state_of(final(cands)@, *final(active)) == evidence_step(
            version,
            state_of(old(cands)@, *old(active)),
            *s,
            *m,
        ).0,
        decisions_view(final(out)@) == decisions_view(old(out)@) + evidence_step(
            version,
            state_of(old(cands)@, *old(active)),
            *s,
            *m,
        ).1,
        active_cites(state_of(final(cands)@, *final(active))),
{
    let ghost st = state_of(cands@, *active);
    let ghost id = m.adapter_id@;
    let ghost old_out = decisions_view(out@);
    let found = find_index(cands, &m.adapter_id);
    proof {
        lemma_find_range(st.candidates, id, 0);
        lemma_candidate_of(st.candidates, id);
    }
    let at: usize = match found {
        Some(i) => i,
        None => cands.len(),
    };
    let mut c = match found {
        Some(i) => {
            proof {
                lemma_view_remove(cands@, i as int);
            }
            cands.remove(i)
        },
        None => Candidate {
            adapter_id: m.adapter_id.clone(),
            subject_key: None,
            microphone: None,
            microphone_subject_key: None,
            tab: None,
            tab_subject_key: None,
            microphone_tree_root: None,
            tab_tree_root: None,
            resync: false,
        },
    };
    let ghost rest = cands@;
    assert(c@ == candidate_of(st.candidates, id));
    absorb(&mut c, s, m.kind);
    let ghost cv = c@;
    proof {
        lemma_put_then_drop(st.candidates, cv);
        lemma_view_insert(rest, at as int, c);
        if found is Some {
            assert(st.candidates.remove(at as int).insert(at as int, cv) =~= st.candidates.update(
                at as int,
                cv,
            ));
        } else {
            assert(st.candidates.insert(at as int, cv) =~= st.candidates.push(cv));
        }
        assert(cands_view(rest.insert(at as int, c)) == put_candidate(st.candidates, cv));
        let p = put_candidate(st.candidates, cv);
        lemma_find_first(st.candidates, id, 0);
        if found is Some {
            assert forall|j: int| 0 <= j < at implies #[trigger] p[j].adapter_id != id by {
                assert(p[j] == st.candidates[j]);
            }
        } else {
            assert forall|j: int| 0 <= j < at implies #[trigger] p[j].adapter_id != id by {
                assert(p[j] == st.candidates[j]);
            }
        }
        lemma_find_from(p, id, 0, at as int);
    }
    let needs = m.corroboration;
    let met = (!needs.microphone || c.microphone.is_some()) && (!needs.tab || c.tab.is_some());
    if met && needs.tab && needs.microphone {
        match tree_join(&c) {
            Err(rule) => {
                let cited0 = cited(&c);
                let subject = copy_opt(&c.subject_key);
                cands.insert(at, c);
                let d = Decision::derive(
                    version,
                    Outcome::Inconclusive,
                    Some(m.adapter_id.clone()),
                    subject,
                    rule,
                    cited0,
                    s.monotonic_ns,
                );
                out.push(d);
                assert(decisions_view(out@) =~= old_out + evidence_step(version, st, *s, *m).1);
                return;
            },
            Ok(()) => {},
        }
    }
    judge(version, cands, at, c, active, s, m, out);
}

/// Fold one adapter's match of one signal into the state, recording its decisions.
fn apply_match(
    version: u32,
    cands: &mut Vec<Candidate>,
    active: &mut Option<Active>,
    s: &DetectorSignal,
    m: &AdapterMatch,
    out: &mut Vec<Decision>,
)
    requires
        active_cites(state_of(old(cands)@, *old(active))),
    ensures
        state_of(final(cands)@, *final(active)) == match_step(
            version,
            state_of(old(cands)@, *old(active)),
            *s,
            *m,
        ).0,
        decisions_view(final(out)@) == decisions_view(old(out)@) + match_step(
            version,
            state_of(old(cands)@, *old(active)),
            *s,
            *m,
        ).1,
        active_cites(state_of(final(cands)@, *final(active))),
{
    if is_end(s.kind) {
        apply_end(version, cands, active, s, m, out);
    } else if is_active_adapter(&*active, m) {
        let ghost cs = cands_view(cands@);
        apply_continue(version, active, s, out);
    } else {
        apply_evidence(version, cands, active, s, m, out);
    }
}

/// The note for an adapter disabled while matching `signal`.
fn disabled_diagnostic(adapter_id: &String, signal: SignalId) -> (d: Diagnostic)
    ensures
        diagnostic_view(d) == disabled_note(adapter_id@, signal),
{
    let mut message = String::new();
    append_str(&mut message, "adapter panicked while matching signal ");
    let id = uuid_string(signal.0);
    append_str(&mut message, id.as_str());
    append_str(&mut message, " and is disabled for the remainder of the process");
    Diagnostic { adapter_id: adapter_id.clone(), message }
}

/// Fold one signal of the timeline into the state.
fn apply_round(
    version: u32,
    config: &DetectorConfig,
    cands: &mut Vec<Candidate>,
    active: &mut Option<Active>,
    r: &SignalRound,
    out: &mut Vec<Decision>,
    notes: &mut Vec<Diagnostic>,
)
    requires
        active_cites(state_of(old(cands)@, *old(active))),
    ensures
        state_of(final(cands)@, *final(active)) == round_step(
            version,
            *config,
            state_of(old(cands)@, *old(active)),
            *r,
        ).0,
        decisions_view(final(out)@) == decisions_view(old(out)@) + round_step(
            version,
            *config,
            state_of(old(cands)@, *old(active)),
            *r,
        ).1,
        diagnostics_view(final(notes)@) == diagnostics_view(old(notes)@) + round_step(
            version,
            *config,
            state_of(old(cands)@, *old(active)),
            *r,
        ).2,
        active_cites(state_of(final(cands)@, *final(active))),
{
    let ghost st = state_of(cands@, *active);
    let ghost step = round_step(version, *config, st, *r);
    let ghost old_out = decisions_view(out@);
    let ghost old_notes = diagnostics_view(notes@);
    let s = &r.signal;
    let mut k: usize = 0;
    while k < r.disabled.len()
        invariant
            k <= r.disabled@.len(),
            diagnostics_view(notes@) == old_notes + r.disabled@.take(k as int).map_values(
                |a: String| disabled_note(a@, s.signal_id),
            ),
        decreases r.disabled@.len() - k,
    {
        let d = disabled_diagnostic(&r.disabled[k], s.signal_id);
        let ghost prev = notes@;
        let ghost dv = diagnostic_view(d);
        notes.push(d);
        assert(diagnostics_view(notes@) =~= diagnostics_view(prev).push(dv));
        assert(r.disabled@.take(k + 1).map_values(|a: String| disabled_note(a@, s.signal_id))
            =~= r.disabled@.take(k as int).map_values(|a: String| disabled_note(a@, s.signal_id)).push(
            disabled_note(r.disabled@[k as int]@, s.signal_id),
        ));
        assert(diagnostics_view(notes@) =~= old_notes + r.disabled@.take(k + 1).map_values(
            |a: String| disabled_note(a@, s.signal_id),
        ));
        k += 1;
    }
    assert(r.disabled@.take(r.disabled@.len() as int) =~= r.disabled@);
    if r.matched.len() == 0 {
        if s.kind == SignalKind::MicCaptureStarted && s.authority == Authority::Os {
            let rule = if config.generic_detection_enabled {
                "generic-candidate"
            } else {
                "no-adapter"
            };
            let d = Decision::derive(
                version,
                Outcome::Unknown,
                None,
                Some(s.subject_key.clone()),
                rule,
                one_id(s.signal_id),
                s.monotonic_ns,
            );
            out.push(d);
        }
        assert(decisions_view(out@) =~= old_out + step.1);
        return;
    }
    let mut j: usize = 0;
    while j < r.matched.len()
        invariant
            j <= r.matched@.len(),
            r.matched@.len() > 0,
            state_of(cands@, *active) == matches_fold(version, st, *s, r.matched@, j as nat).0,
            decisions_view(out@) == old_out + matches_fold(version, st, *s, r.matched@, j as nat).1,
            active_cites(state_of(cands@, *active)),
        decreases r.matched@.len() - j,
    {
        let ghost before = decisions_view(out@);
        apply_match(version, cands, active, s, &r.matched[j], out);
        assert(decisions_view(out@) =~= old_out + matches_fold(
            version,
            st,
            *s,
            r.matched@,
            (j + 1) as nat,
        ).1);
        j += 1;
    }
}

/// Fold a signal timeline into evidence-citing decisions. `timeline` holds, in order, each
/// signal with the adapters of the table (version `table_version`) that matched it and those
/// that failed while matching it. The output is the fold of [`round_step`] from the empty state:
/// the same timeline always yields the same decisions, identifiers included.
pub fn decide(timeline: &Vec<SignalRound>, config: &DetectorConfig, table_version: u32) -> (o: DetectorOutput)
    ensures
        o.adapter_table_version == table_version,
        decisions_view(o.decisions@) == timeline_fold(
            table_version,
            *config,
            timeline@,
            timeline@.len(),
        ).1,
        diagnostics_view(o.diagnostics@) == timeline_fold(
            table_version,
            *config,
            timeline@,
            timeline@.len(),
        ).2,
{
    let mut cands: Vec<Candidate> = Vec::new();
    let mut active: Option<Active> = None;
    let mut decisions: Vec<Decision> = Vec::new();
    let mut diagnostics: Vec<Diagnostic> = Vec::new();
    let mut i: usize = 0;
    assert(cands_view(cands@) =~= Seq::<CandidateView>::empty());
    assert(decisions_view(decisions@) =~= Seq::<DecisionView>::empty());
    assert(diagnostics_view(diagnostics@) =~= Seq::<DiagnosticView>::empty());
    while i < timeline.len()
        invariant
            i <= timeline@.len(),
            state_of(cands@, active) == timeline_fold(table_version, *config, timeline@, i as nat).0,
            decisions_view(decisions@) == timeline_fold(table_version, *config, timeline@, i as nat).1,
            diagnostics_view(diagnostics@) == timeline_fold(
                table_version,
                *config,
                timeline@,
                i as nat,
            ).2,
            active_cites(state_of(cands@, active)),
        decreases timeline@.len() - i,
    {
        apply_round(
            table_version,
            config,
            &mut cands,
            &mut active,
            &timeline[i],
            &mut decisions,
            &mut diagnostics,
        );
        proof {
            let prev = timeline_fold(table_version, *config, timeline@, i as nat);
            let step = round_step(table_version, *config, prev.0, timeline@[i as int]);
            assert(decisions_view(decisions@) =~= prev.1 + step.1);
            assert(diagnostics_view(diagnostics@) =~= prev.2 + step.2);
        }
        i += 1;
    }
    DetectorOutput { adapter_table_version: table_version, decisions, diagnostics }
}

/// The identifiers of the signals of the first `n` rounds.
pub open spec fn signal_pool(rounds: Seq<SignalRound>, n: nat) -> Set<SignalId>
    decreases n,
{
    if n == 0 || n > rounds.len() {
        Set::empty()
    } else {
        signal_pool(rounds, (n - 1) as nat).insert(rounds[n - 1].signal.signal_id)
    }
}

/// Every decision cites at least one signal, and only signals of `pool`.
pub open spec fn cites_within(ds: Seq<DecisionView>, pool: Set<SignalId>) -> bool {
    forall|i: int|
        0 <= i < ds.len() ==> (#[trigger] ds[i]).evidence.len() > 0 && forall|k: int|
            0 <= k < ds[i].evidence.len() ==> pool.contains(#[trigger] ds[i].evidence[k])
}

pub open spec fn ids_within(ids: Seq<SignalId>, pool: Set<SignalId>) -> bool {
    forall|k: int| 0 <= k < ids.len() ==> pool.contains(#[trigger] ids[k])
}

pub open spec fn cand_within(c: CandidateView, pool: Set<SignalId>) -> bool {
    &&& c.microphone is Some ==> pool.contains(c.microphone->0)
    &&& c.tab is Some ==> pool.contains(c.tab->0)
}

pub open spec fn state_within(st: DetectState, pool: Set<SignalId>) -> bool {
    &&& forall|i: int| 0 <= i < st.candidates.len() ==> cand_within(#[trigger] st.candidates[i], pool)
    &&& st.active is Some ==> st.active->0.evidence.len() > 0 && ids_within(st.active->0.evidence, pool)
}

proof fn lemma_cited_within(c: CandidateView, pool: Set<SignalId>)
    requires
        cand_within(c, pool),
    ensures
        ids_within(cited_spec(c), pool),
        (c.tab is Some || c.microphone is Some) ==> cited_spec(c).len() > 0,
{
}

proof fn lemma_within_grows(st: DetectState, pool: Set<SignalId>, x: SignalId)
    requires
        state_within(st, pool),
    ensures
        state_within(st, pool.insert(x)),
{
    assert forall|i: int| 0 <= i < st.candidates.len() implies cand_within(
        #[trigger] st.candidates[i],
        pool.insert(x),
    ) by {
        assert(cand_within(st.candidates[i], pool));
    }
}

proof fn lemma_cites_grows(ds: Seq<DecisionView>, pool: Set<SignalId>, x: SignalId)
    requires
        cites_within(ds, pool),
    ensures
        cites_within(ds, pool.insert(x)),
{
    assert forall|i: int| 0 <= i < ds.len() implies (#[trigger] ds[i]).evidence.len() > 0
        && forall|k: int| 0 <= k < ds[i].evidence.len() ==> pool.insert(x).contains(
        #[trigger] ds[i].evidence[k],
    ) by {
        assert(ds[i].evidence.len() > 0);
    }
}

proof fn lemma_cites_concat(a: Seq<DecisionView>, b: Seq<DecisionView>, pool: Set<SignalId>)
    requires
        cites_within(a, pool),
        cites_within(b, pool),
    ensures
        cites_within(a + b, pool),
{
    assert forall|i: int| 0 <= i < (a + b).len() implies (#[trigger] (a + b)[i]).evidence.len() > 0
        && forall|k: int| 0 <= k < (a + b)[i].evidence.len() ==> pool.contains(
        #[trigger] (a + b)[i].evidence[k],
    ) by {
        if i < a.len() {
            assert((a + b)[i] == a[i]);
        } else {
            assert((a + b)[i] == b[i - a.len()]);
        }
    }
}

proof fn lemma_cands_update(cs: Seq<CandidateView>, i: int, c: CandidateView, pool: Set<SignalId>)
    requires
        0 <= i < cs.len(),
        forall|j: int| 0 <= j < cs.len() ==> cand_within(#[trigger] cs[j], pool),
        cand_within(c, pool),
    ensures
        forall|j: int| 0 <= j < cs.len() ==> cand_within(#[trigger] cs.update(i, c)[j], pool),
        forall|j: int| 0 <= j < cs.len() - 1 ==> cand_within(#[trigger] cs.remove(i)[j], pool),
{
    assert forall|j: int| 0 <= j < cs.len() - 1 implies cand_within(#[trigger] cs.remove(i)[j], pool) by {
        if j < i {
            assert(cs.remove(i)[j] == cs[j]);
        } else {
            assert(cs.remove(i)[j] == cs[j + 1]);
        }
    }
}

proof fn lemma_cleared_within(c: CandidateView, kind: SignalKind, t: Option<u32>, pool: Set<SignalId>)
    requires
        cand_within(c, pool),
    ensures
        cand_within(cleared(c, kind, t), pool),
{
}

proof fn lemma_put_within(cs: Seq<CandidateView>, c: CandidateView, pool: Set<SignalId>)
    requires
        forall|j: int| 0 <= j < cs.len() ==> cand_within(#[trigger] cs[j], pool),
        cand_within(c, pool),
    ensures
        forall|j: int|
            0 <= j < put_candidate(cs, c).len() ==> cand_within(#[trigger] put_candidate(cs, c)[j], pool),
        forall|j: int|
            0 <= j < drop_candidate(put_candidate(cs, c), c.adapter_id).len() ==> cand_within(
                #[trigger] drop_candidate(put_candidate(cs, c), c.adapter_id)[j],
                pool,
            ),
        cand_within(candidate_of(cs, c.adapter_id), pool),
{
    let i = find_candidate(cs, c.adapter_id, 0);
    lemma_find_range(cs, c.adapter_id, 0);
    lemma_put_then_drop(cs, c);
    if i >= 0 {
        lemma_cands_update(cs, i, c, pool);
    } else {
        assert forall|j: int| 0 <= j < cs.push(c).len() implies cand_within(#[trigger] cs.push(c)[j], pool) by {
            if j < cs.len() {
                assert(cs.push(c)[j] == cs[j]);
            }
        }
    }
}

proof fn lemma_candidate_of_within(cs: Seq<CandidateView>, id: Seq<char>, pool: Set<SignalId>)
    requires
        forall|j: int| 0 <= j < cs.len() ==> cand_within(#[trigger] cs[j], pool),
    ensures
        cand_within(candidate_of(cs, id), pool),
{
    lemma_find_range(cs, id, 0);
}

proof fn lemma_match_within(version: u32, st: DetectState, s: DetectorSignal, m: AdapterMatch, pool: Set<SignalId>)
    requires
        state_within(st, pool),
        pool.contains(s.signal_id),
    ensures
        state_within(match_step(version, st, s, m).0, pool),
        cites_within(match_step(version, st, s, m).1, pool),
{
    broadcast use crate::decision::lemma_derived_fields;

    let id = m.adapter_id@;
    if is_end_kind(s.kind) {
        let i = find_candidate(st.candidates, id, 0);
        lemma_find_range(st.candidates, id, 0);
        if i >= 0 {
            let c = cleared(st.candidates[i], s.kind, s.process_tree_root_pid);
            lemma_cleared_within(st.candidates[i], s.kind, s.process_tree_root_pid, pool);
            lemma_cands_update(st.candidates, i, c, pool);
        }
        let r = end_step(version, st, s, m);
        if st.active is Some {
            let a = st.active->0;
            assert(ids_within(a.evidence.push(s.signal_id), pool)) by {
                assert forall|k: int| 0 <= k < a.evidence.push(s.signal_id).len() implies pool.contains(
                    #[trigger] a.evidence.push(s.signal_id)[k],
                ) by {
                    if k < a.evidence.len() {
                        assert(a.evidence.push(s.signal_id)[k] == a.evidence[k]);
                    }
                }
            }
        }
        assert(cites_within(r.1, pool));
    } else if st.active is Some && st.active->0.adapter_id == id {
        let a = st.active->0;
        assert(ids_within(a.evidence.push(s.signal_id), pool)) by {
            assert forall|k: int| 0 <= k < a.evidence.push(s.signal_id).len() implies pool.contains(
                #[trigger] a.evidence.push(s.signal_id)[k],
            ) by {
                if k < a.evidence.len() {
                    assert(a.evidence.push(s.signal_id)[k] == a.evidence[k]);
                }
            }
        }
        let r = continue_step(version, a, st.candidates, s);
        assert(ids_within(seq![s.signal_id], pool));
        assert(cites_within(r.1, pool));
    } else {
        let c0 = candidate_of(st.candidates, id);
        lemma_candidate_of_within(st.candidates, id, pool);
        lemma_candidate_of(st.candidates, id);
        let c = absorbed(c0, s, m.kind);
        assert(cand_within(c, pool));
        lemma_cited_within(c, pool);
        lemma_put_within(st.candidates, c, pool);
        let cands = put_candidate(st.candidates, c);
        let r = evidence_step(version, st, s, m);
        assert(ids_within(seq![s.signal_id], pool));
        let cited = if cited_spec(c).len() == 0 {
            seq![s.signal_id]
        } else {
            cited_spec(c)
        };
        assert(ids_within(cited, pool));
        assert(state_within(r.0, pool));
        assert(cites_within(r.1, pool));
    }
}

proof fn lemma_matches_within(
    version: u32,
    st: DetectState,
    s: DetectorSignal,
    ms: Seq<AdapterMatch>,
    n: nat,
    pool: Set<SignalId>,
)
    requires
        state_within(st, pool),
        pool.contains(s.signal_id),
    ensures
        state_within(matches_fold(version, st, s, ms, n).0, pool),
        cites_within(matches_fold(version, st, s, ms, n).1, pool),
    decreases n,
{
    if n > 0 && n <= ms.len() {
        lemma_matches_within(version, st, s, ms, (n - 1) as nat, pool);
        let (st1, d1) = matches_fold(version, st, s, ms, (n - 1) as nat);
        lemma_match_within(version, st1, s, ms[n - 1], pool);
        lemma_cites_concat(d1, match_step(version, st1, s, ms[n - 1]).1, pool);
    }
}

proof fn lemma_round_within(version: u32, config: DetectorConfig, st: DetectState, r: SignalRound, pool: Set<SignalId>)
    requires
        state_within(st, pool),
        pool.contains(r.signal.signal_id),
    ensures
        state_within(round_step(version, config, st, r).0, pool),
        cites_within(round_step(version, config, st, r).1, pool),
{
    broadcast use crate::decision::lemma_derived_fields;

    if r.matched@.len() > 0 {
        lemma_matches_within(version, st, r.signal, r.matched@, r.matched@.len(), pool);
    } else {
        assert(ids_within(seq![r.signal.signal_id], pool));
    }
}

proof fn lemma_timeline_within(version: u32, config: DetectorConfig, rounds: Seq<SignalRound>, n: nat)
    requires
        n <= rounds.len(),
    ensures
        state_within(timeline_fold(version, config, rounds, n).0, signal_pool(rounds, n)),
        cites_within(timeline_fold(version, config, rounds, n).1, signal_pool(rounds, n)),
    decreases n,
{
    if n > 0 {
        let pool0 = signal_pool(rounds, (n - 1) as nat);
        let x = rounds[n - 1].signal.signal_id;
        lemma_timeline_within(version, config, rounds, (n - 1) as nat);
        let (st1, d1, g1) = timeline_fold(version, config, rounds, (n - 1) as nat);
        lemma_within_grows(st1, pool0, x);
        lemma_cites_grows(d1, pool0, x);
        lemma_round_within(version, config, st1, rounds[n - 1], pool0.insert(x));
        lemma_cites_concat(d1, round_step(version, config, st1, rounds[n - 1]).1, pool0.insert(x));
    } else {
        assert(state_within(initial_state(), Set::empty()));
    }
}

/// Every decision of an evaluation cites at least one signal, and every signal it cites is a
/// signal of the evaluated timeline.
pub proof fn law_decisions_cite_their_timeline(
    timeline: Seq<SignalRound>,
    config: DetectorConfig,
    table_version: u32,
)
    ensures
        cites_within(
            timeline_fold(table_version, config, timeline, timeline.len()).1,
            signal_pool(timeline, timeline.len()),
        ),
{
    lemma_timeline_within(table_version, config, timeline, timeline.len());
}

/// No meeting is active and no candidate holds microphone evidence.
pub open spec fn quiet(st: DetectState) -> bool {
    &&& st.active is None
    &&& forall|i: int| 0 <= i < st.candidates.len() ==> (#[trigger] st.candidates[i]).microphone is None
}

/// No decision is determinate (of any phase).
pub open spec fn none_determinate(ds: Seq<DecisionView>) -> bool {
    forall|i: int| 0 <= i < ds.len() ==> !((#[trigger] ds[i]).outcome is Determinate)
}

/// No signal of the timeline is a microphone start vouched for by the OS.
pub open spec fn no_os_microphone(timeline: Seq<SignalRound>) -> bool {
    forall|k: int|
        0 <= k < timeline.len() ==> !((#[trigger] timeline[k]).signal.kind == SignalKind::MicCaptureStarted
            && timeline[k].signal.authority == Authority::Os)
}

/// Every adapter that matched a signal of the timeline needs microphone evidence.
pub open spec fn matched_need_microphone(timeline: Seq<SignalRound>) -> bool {
    forall|k: int, j: int|
        0 <= k < timeline.len() && 0 <= j < timeline[k].matched@.len()
            ==> (#[trigger] timeline[k].matched@[j]).corroboration.microphone
}

proof fn lemma_match_quiet(version: u32, st: DetectState, s: DetectorSignal, m: AdapterMatch)
    requires
        quiet(st),
        !(s.kind == SignalKind::MicCaptureStarted && s.authority == Authority::Os),
        m.corroboration.microphone,
    ensures
        quiet(match_step(version, st, s, m).0),
        none_determinate(match_step(version, st, s, m).1),
{
    broadcast use crate::decision::lemma_derived_fields;

    let id = m.adapter_id@;
    if is_end_kind(s.kind) {
        let i = find_candidate(st.candidates, id, 0);
        lemma_find_range(st.candidates, id, 0);
        let r = end_step(version, st, s, m);
        if i >= 0 {
            let c = cleared(st.candidates[i], s.kind, s.process_tree_root_pid);
            assert forall|j: int| 0 <= j < r.0.candidates.len() implies (#[trigger] r.0.candidates[j]).microphone is None by {
                if c.tab is None && c.microphone is None {
                    if j < i {
                        assert(r.0.candidates[j] == st.candidates[j]);
                    } else {
                        assert(r.0.candidates[j] == st.candidates[j + 1]);
                    }
                } else if j != i {
                    assert(r.0.candidates[j] == st.candidates[j]);
                }
            }
        }
    } else {
        let c0 = candidate_of(st.candidates, id);
        lemma_find_range(st.candidates, id, 0);
        let c = absorbed(c0, s, m.kind);
        assert(c.microphone is None);
        lemma_put_then_drop(st.candidates, c);
        let r = evidence_step(version, st, s, m);
        let p = put_candidate(st.candidates, c);
        assert forall|j: int| 0 <= j < p.len() implies (#[trigger] p[j]).microphone is None by {
            if j < st.candidates.len() && p[j] != c {
                assert(p[j] == st.candidates[j]);
            }
        }
        assert(quiet(r.0));
    }
}

proof fn lemma_matches_quiet(version: u32, st: DetectState, s: DetectorSignal, ms: Seq<AdapterMatch>, n: nat)
    requires
        quiet(st),
        !(s.kind == SignalKind::MicCaptureStarted && s.authority == Authority::Os),
        forall|j: int| 0 <= j < ms.len() ==> (#[trigger] ms[j]).corroboration.microphone,
    ensures
        quiet(matches_fold(version, st, s, ms, n).0),
        none_determinate(matches_fold(version, st, s, ms, n).1),
    decreases n,
{
    if n > 0 && n <= ms.len() {
        lemma_matches_quiet(version, st, s, ms, (n - 1) as nat);
        let (st1, d1) = matches_fold(version, st, s, ms, (n - 1) as nat);
        lemma_match_quiet(version, st1, s, ms[n - 1]);
        let d2 = match_step(version, st1, s, ms[n - 1]).1;
        assert forall|i: int| 0 <= i < (d1 + d2).len() implies !((#[trigger] (d1 + d2)[i]).outcome is Determinate) by {
            if i < d1.len() {
                assert((d1 + d2)[i] == d1[i]);
            } else {
                assert((d1 + d2)[i] == d2[i - d1.len()]);
            }
        }
    }
}

proof fn lemma_timeline_quiet(version: u32, config: DetectorConfig, rounds: Seq<SignalRound>, n: nat)
    requires
        n <= rounds.len(),
        no_os_microphone(rounds),
        matched_need_microphone(rounds),
    ensures
        quiet(timeline_fold(version, config, rounds, n).0),
        none_determinate(timeline_fold(version, config, rounds, n).1),
    decreases n,
{
    broadcast use crate::decision::lemma_derived_fields;

    if n > 0 {
        lemma_timeline_quiet(version, config, rounds, (n - 1) as nat);
        let (st1, d1, g1) = timeline_fold(version, config, rounds, (n - 1) as nat);
        let r = rounds[n - 1];
        assert(!(r.signal.kind == SignalKind::MicCaptureStarted && r.signal.authority == Authority::Os));
        if r.matched@.len() > 0 {
            assert forall|j: int| 0 <= j < r.matched@.len() implies (#[trigger] r.matched@[j]).corroboration.microphone by {
                assert(rounds[n - 1].matched@[j].corroboration.microphone);
            }
            lemma_matches_quiet(version, st1, r.signal, r.matched@, r.matched@.len());
        }
        let d2 = round_step(version, config, st1, r).1;
        assert forall|i: int| 0 <= i < (d1 + d2).len() implies !((#[trigger] (d1 + d2)[i]).outcome is Determinate) by {
            if i < d1.len() {
                assert((d1 + d2)[i] == d1[i]);
            } else {
                assert((d1 + d2)[i] == d2[i - d1.len()]);
            }
        }
    }
}

/// Extension evidence alone never starts capture: when no signal of the timeline is an OS
/// microphone start and every matching adapter needs microphone evidence, no decision of the
/// evaluation is determinate, of any phase.
pub proof fn law_no_determinate_without_os_microphone(
    timeline: Seq<SignalRound>,
    config: DetectorConfig,
    table_version: u32,
)
    requires
        no_os_microphone(timeline),
        matched_need_microphone(timeline),
    ensures
        none_determinate(timeline_fold(table_version, config, timeline, timeline.len()).1),
{
    lemma_timeline_quiet(table_version, config, timeline, timeline.len());
}

/// A stop of the meeting's own microphone, its process, or its audio session ends the meeting:
/// when a round's one matching adapter is the active meeting's, and the signal is about the
/// meeting's subject (or comes from a process match) and from its process tree, the meeting is
/// no longer active and one End decision, with the rule "end", cites the meeting's evidence and
/// the stopping signal.
pub proof fn law_stop_signals_end_the_meeting(
    version: u32,
    config: DetectorConfig,
    st: DetectState,
    r: SignalRound,
)
    requires
        r.signal.kind == SignalKind::MicCaptureStopped || r.signal.kind == SignalKind::ProcessStopped
            || r.signal.kind == SignalKind::AudioSessionDestroyed,
        r.matched@.len() == 1,
        st.active matches Some(a) && a.adapter_id == r.matched@[0].adapter_id@ && (a.subject_key == Some(
            r.signal.subject_key@,
        ) || r.matched@[0].kind == MatchKind::Process) && same_tree_spec(
            a.tree_root,
            r.signal.process_tree_root_pid,
        ),
    ensures
        ({
            let (next, ds, _) = round_step(version, config, st, r);
            let a = st.active->0;
            &&& next.active is None
            &&& ds.len() == 1
            &&& ds[0].outcome == OutcomeView::Determinate(Phase::End)
            &&& ds[0].rule_id == "end"@
            &&& ds[0].adapter_id == Some(a.adapter_id)
            &&& ds[0].evidence == a.evidence.push(r.signal.signal_id)
        }),
{
    broadcast use crate::decision::lemma_derived_fields;

    let s = r.signal;
    let m = r.matched@[0];
    assert(matches_fold(version, st, s, r.matched@, 0) == (st, Seq::<DecisionView>::empty()));
    let (st1, d1) = match_step(version, st, s, m);
    assert(d1.len() == 1);
    assert(Seq::<DecisionView>::empty() + d1 =~= d1);
}

} // verus!
