//! The activation seam of loopback and device capture: three typed outcomes (process loopback,
//! the system-loopback fallback, the manual device path), the stream a backend hands out, and a
//! portable scripted backend that implements the same seam. The live backend is platform code.

use crate::chunk_writer::SAMPLE_RATE;
use crate::text::same_text;
use crate::timeline::{CaptureMode, ContaminationRisk, TrackOrigin};
use vstd::prelude::*;

verus! {

/// A stream's native interleaved format.
#[derive(Debug, Clone, Copy, PartialEq, Eq, Structural)]
pub struct StreamFormat {
    pub sample_rate: u32,
    pub channels: u16,
}

/// What one read from a backend stream produced.
#[derive(Debug, Clone, PartialEq, Eq)]
pub enum StreamRead {
    /// Interleaved s16le samples in the stream's current format.
    Samples(Vec<i16>),
    /// The endpoint changed format; following samples use the new format.
    FormatChanged(StreamFormat),
    /// The activation was lost mid-session (device invalidated, target process gone).
    Lost,
    Ended,
}

/// A running capture stream as the backend hands it out.
pub trait AudioStream {
    fn format(&self) -> StreamFormat;

    fn read(&mut self) -> StreamRead;

    /// Buffer discontinuities the device reported since the last call (audio was lost between
    /// two reads). The default is for backends that cannot observe them.
    fn take_discontinuities(&mut self) -> u32 {
        0
    }
}

/// Which process to activate loopback for, and whether its whole process tree is included.
#[derive(Debug, Clone, Copy, PartialEq, Eq, Structural)]
pub struct LoopbackTarget {
    pub pid: u32,
    pub include_process_tree: bool,
}

/// Why an activation failed.
#[derive(Debug, Clone, Copy, PartialEq, Eq, Structural)]
pub enum ActivationError {
    /// The activation type is not available on this host or for this process.
    Unavailable,
    /// The OS rejected the activation with this HRESULT.
    Failed { code: i32 },
    /// The endpoint's format cannot be brought to the track rate, mono.
    UnsupportedFormat(StreamFormat),
    /// No endpoint exists for the requested path (no default render or capture device).
    NoEndpoint,
}

/// The three outcomes of opening a loopback source.
#[derive(Debug, Clone, Copy, PartialEq, Eq, Structural)]
pub enum ActivationOutcome {
    /// Process loopback activated for the target.
    Activated,
    /// Process loopback failed for `reason`; the source runs on system loopback.
    Fallback { reason: ActivationError },
    /// The manual device path.
    ManualOnly,
}

/// The seam the live capture code and the portable fake both implement. `Stream` is the stream
/// type the backend hands out.
pub trait ActivationBackend {
    type Stream: AudioStream;

    /// Whether the next process-loopback activation succeeds in the backend's present state, or
    /// the error it fails with.
    spec fn process_answer(&self) -> Result<(), ActivationError>;

    /// Whether the next system-loopback activation succeeds in the backend's present state, or
    /// the error it fails with.
    spec fn system_answer(&self) -> Result<(), ActivationError>;

    /// Answers as `process_answer` said; a process-loopback attempt does not change what a
    /// system-loopback attempt then answers.
    fn activate_process_loopback(&mut self, target: LoopbackTarget) -> (r: Result<
        Self::Stream,
        ActivationError,
    >)
        ensures
            answer_of(&r) == old(self).process_answer(),
            final(self).system_answer() == old(self).system_answer(),
    ;

    /// Answers as `system_answer` said.
    fn activate_system_loopback(&mut self) -> (r: Result<Self::Stream, ActivationError>)
        ensures
            answer_of(&r) == old(self).system_answer(),
    ;

    /// Opens a capture endpoint; `None` selects the default capture device.
    fn open_device(&mut self, endpoint_id: Option<&str>) -> Result<Self::Stream, ActivationError>;
}

/// Whether an activation succeeded, or the error it failed with.
pub open spec fn answer_of<S>(r: &Result<S, ActivationError>) -> Result<(), ActivationError> {
    match r {
        Ok(_) => Ok(()),
        Err(e) => Err(*e),
    }
}

/// A scripted stream: a fixed format and a queue of reads; `Ended` once the queue is empty.
#[derive(Debug, Clone)]
pub struct FakeStream {
    format: StreamFormat,
    reads: Vec<StreamRead>,
}

impl FakeStream {
    /// The current format.
    pub closed spec fn current_format(&self) -> StreamFormat {
        self.format
    }

    /// The reads still scripted, first first.
    pub closed spec fn script(&self) -> Seq<StreamRead> {
        self.reads@
    }

    pub fn new(format: StreamFormat) -> (s: FakeStream)
        ensures
            s.current_format() == format,
            s.script().len() == 0,
    {
        FakeStream { format, reads: Vec::new() }
    }

    /// The same stream with `read` scripted after the others.
    pub fn then(self, read: StreamRead) -> (s: FakeStream)
        ensures
            s.current_format() == self.current_format(),
            s.script() == self.script().push(read),
    {
        let mut s = self;
        s.reads.push(read);
        s
    }
}

impl AudioStream for FakeStream {
    fn format(&self) -> (f: StreamFormat)
        ensures
            f == self.current_format(),
    {
        self.format
    }

    /// The next scripted read (a format change takes effect); `Ended` once none is left.
    fn read(&mut self) -> (r: StreamRead)
        ensures
            old(self).script().len() == 0 ==> r == StreamRead::Ended && *final(self) == *old(self),
            old(self).script().len() > 0 ==> r == old(self).script()[0] && final(self).script()
                == old(self).script().drop_first() && final(self).current_format() == match r {
                StreamRead::FormatChanged(f) => f,
                _ => old(self).current_format(),
            },
    {
        if self.reads.len() == 0 {
            return StreamRead::Ended;
        }
        let read = self.reads.remove(0);
        assert(self.reads@ =~= old(self).reads@.drop_first());
        match read {
            StreamRead::FormatChanged(f) => {
                self.format = f;
                StreamRead::FormatChanged(f)
            },
            other => other,
        }
    }
}

/// Scripted activation results per path. An exhausted script reports `Unavailable` for the
/// loopback paths and `NoEndpoint` for the device path.
#[derive(Debug)]
pub struct FakeActivationBackend {
    process: Vec<Result<FakeStream, ActivationError>>,
    system: Vec<Result<FakeStream, ActivationError>>,
    device: Vec<Result<FakeStream, ActivationError>>,
    pub process_activations: Vec<LoopbackTarget>,
    pub system_activations: u32,
    pub device_requests: Vec<Option<String>>,
}

impl Default for FakeActivationBackend {
    fn default() -> (b: FakeActivationBackend)
        ensures
            b.process_script().len() == 0,
            b.system_script().len() == 0,
            b.device_script().len() == 0,
            b.targets().len() == 0,
            b.system_count() == 0,
            b.requests().len() == 0,
    {
        FakeActivationBackend {
            process: Vec::new(),
            system: Vec::new(),
            device: Vec::new(),
            process_activations: Vec::new(),
            system_activations: 0,
            device_requests: Vec::new(),
        }
    }
}

/// The result an exhausted or non-empty script gives next.
pub open spec fn scripted(script: Seq<Result<FakeStream, ActivationError>>, exhausted: ActivationError) -> Result<
    FakeStream,
    ActivationError,
> {
    if script.len() == 0 {
        Err(exhausted)
    } else {
        script[0]
    }
}

pub open spec fn rest_of(script: Seq<Result<FakeStream, ActivationError>>) -> Seq<
    Result<FakeStream, ActivationError>,
> {
    if script.len() == 0 {
        script
    } else {
        script.drop_first()
    }
}

/// The next scripted result, taken off the script.
fn take_scripted(script: &mut Vec<Result<FakeStream, ActivationError>>, exhausted: ActivationError) -> (r:
    Result<FakeStream, ActivationError>)
    ensures
        r == scripted(old(script)@, exhausted),
        final(script)@ == rest_of(old(script)@),
{
    if script.len() == 0 {
        Err(exhausted)
    } else {
        let r = script.remove(0);
        assert(script@ =~= old(script)@.drop_first());
        r
    }
}

/// The text of an optional endpoint identifier, owned.
pub open spec fn owned_endpoint(e: Option<&str>) -> Option<Seq<char>> {
    match e {
        Some(s) => Some(s@),
        None => None,
    }
}

pub open spec fn requested_view(r: Option<String>) -> Option<Seq<char>> {
    match r {
        Some(s) => Some(s@),
        None => None,
    }
}

impl FakeActivationBackend {
    /// The process-loopback targets requested so far, in order.
    pub closed spec fn targets(&self) -> Seq<LoopbackTarget> {
        self.process_activations@
    }

    /// How many system-loopback activations were requested.
    pub closed spec fn system_count(&self) -> u32 {
        self.system_activations
    }

    /// The device endpoints requested so far, in order.
    pub closed spec fn requests(&self) -> Seq<Option<String>> {
        self.device_requests@
    }

    pub closed spec fn process_script(&self) -> Seq<Result<FakeStream, ActivationError>> {
        self.process@
    }

    pub closed spec fn system_script(&self) -> Seq<Result<FakeStream, ActivationError>> {
        self.system@
    }

    pub closed spec fn device_script(&self) -> Seq<Result<FakeStream, ActivationError>> {
        self.device@
    }

    /// Script one more process-loopback activation result.
    pub fn process_loopback(self, r: Result<FakeStream, ActivationError>) -> (b: FakeActivationBackend)
        ensures
            b.process_script() == self.process_script().push(r),
            b.system_script() == self.system_script(),
            b.device_script() == self.device_script(),
            b.targets() == self.targets(),
            b.system_count() == self.system_count(),
            b.requests() == self.requests(),
    {
        let mut b = self;
        b.process.push(r);
        b
    }

    /// Script one more system-loopback activation result.
    pub fn system_loopback(self, r: Result<FakeStream, ActivationError>) -> (b: FakeActivationBackend)
        ensures
            b.system_script() == self.system_script().push(r),
            b.process_script() == self.process_script(),
            b.device_script() == self.device_script(),
            b.targets() == self.targets(),
            b.system_count() == self.system_count(),
            b.requests() == self.requests(),
    {
        let mut b = self;
        b.system.push(r);
        b
    }

    /// Script one more device-open result.
    pub fn device(self, r: Result<FakeStream, ActivationError>) -> (b: FakeActivationBackend)
        ensures
            b.device_script() == self.device_script().push(r),
            b.process_script() == self.process_script(),
            b.system_script() == self.system_script(),
            b.targets() == self.targets(),
            b.system_count() == self.system_count(),
            b.requests() == self.requests(),
    {
        let mut b = self;
        b.device.push(r);
        b
    }
}

impl ActivationBackend for FakeActivationBackend {
    type Stream = FakeStream;

    open spec fn process_answer(&self) -> Result<(), ActivationError> {
        answer_of(&scripted(self.process_script(), ActivationError::Unavailable))
    }

    open spec fn system_answer(&self) -> Result<(), ActivationError> {
        answer_of(&scripted(self.system_script(), ActivationError::Unavailable))
    }

    /// Records the target and hands out the next scripted process-loopback result.
    fn activate_process_loopback(&mut self, target: LoopbackTarget) -> (r: Result<FakeStream, ActivationError>)
        ensures
            r == scripted(old(self).process_script(), ActivationError::Unavailable),
            final(self).process_script() == rest_of(old(self).process_script()),
            final(self).targets() == old(self).targets().push(target),
            final(self).system_script() == old(self).system_script(),
            final(self).device_script() == old(self).device_script(),
            final(self).system_count() == old(self).system_count(),
            final(self).requests() == old(self).requests(),
    {
        self.process_activations.push(target);
        take_scripted(&mut self.process, ActivationError::Unavailable)
    }

    /// Counts the activation (saturating) and hands out the next scripted system-loopback result.
    fn activate_system_loopback(&mut self) -> (r: Result<FakeStream, ActivationError>)
        ensures
            r == scripted(old(self).system_script(), ActivationError::Unavailable),
            final(self).system_script() == rest_of(old(self).system_script()),
            final(self).system_count() == if old(self).system_count() < u32::MAX {
                (old(self).system_count() + 1) as u32
            } else {
                u32::MAX
            },
            final(self).process_script() == old(self).process_script(),
            final(self).device_script() == old(self).device_script(),
            final(self).targets() == old(self).targets(),
            final(self).requests() == old(self).requests(),
    {
        self.system_activations = self.system_activations.saturating_add(1);
        take_scripted(&mut self.system, ActivationError::Unavailable)
    }

    /// Records the requested endpoint and hands out the next scripted device result.
    fn open_device(&mut self, endpoint_id: Option<&str>) -> (r: Result<FakeStream, ActivationError>)
        ensures
            r == scripted(old(self).device_script(), ActivationError::NoEndpoint),
            final(self).device_script() == rest_of(old(self).device_script()),
            final(self).requests().len() == old(self).requests().len() + 1,
            forall|i: int|
                0 <= i < old(self).requests().len() ==> #[trigger] final(self).requests()[i]
                    == old(self).requests()[i],
            requested_view(final(self).requests().last()) == owned_endpoint(endpoint_id),
            final(self).process_script() == old(self).process_script(),
            final(self).system_script() == old(self).system_script(),
            final(self).targets() == old(self).targets(),
            final(self).system_count() == old(self).system_count(),
    {
        let requested = match endpoint_id {
            Some(id) => Some(id.to_owned()),
            None => None,
        };
        self.device_requests.push(requested);
        take_scripted(&mut self.device, ActivationError::NoEndpoint)
    }
}

/// Which endpoint the microphone source is open on.
#[derive(Debug, Clone, PartialEq, Eq)]
pub enum EndpointChoice {
    /// The endpoint the meeting application's own session is bound to.
    Supplied(String),
    /// No hint was available; the system default capture device was opened and that fact recorded.
    SystemDefault,
}

impl EndpointChoice {
    /// A non-empty hint names its endpoint; no hint (or an empty one) is the system default.
    pub fn from_hint(hint: Option<&str>) -> (c: EndpointChoice)
        ensures
            match hint {
                Some(id) => if id@.len() > 0 {
                    c matches EndpointChoice::Supplied(s) && s@ == id@
                } else {
                    c == EndpointChoice::SystemDefault
                },
                None => c == EndpointChoice::SystemDefault,
            },
    {
        match hint {
            Some(id) => {
                if crate::text::chars_of(id).len() > 0 {
                    EndpointChoice::Supplied(id.to_owned())
                } else {
                    EndpointChoice::SystemDefault
                }
            },
            None => EndpointChoice::SystemDefault,
        }
    }

    /// The endpoint to open: the supplied one, or `None` for the system default.
    pub fn endpoint_id(&self) -> (r: Option<&str>)
        ensures
            match self {
                EndpointChoice::Supplied(s) => r is Some && r->0@ == s@,
                EndpointChoice::SystemDefault => r is None,
            },
    {
        match self {
            EndpointChoice::Supplied(id) => Some(id.as_str()),
            EndpointChoice::SystemDefault => None,
        }
    }
}

/// The selection record kept next to the track: what was requested, what was opened, and how the
/// selection evolved.
#[derive(Debug, Clone, PartialEq, Eq)]
pub struct EndpointSelection {
    pub opened: EndpointChoice,
    /// Every endpoint choice opened so far, oldest first; one entry per track segment.
    pub history: Vec<EndpointChoice>,
    /// Hints that arrived and were superseded before the next read (coalesced, never opened).
    pub coalesced_hints: u32,
    /// Endpoint switches that failed to open; the current endpoint stays open in that case.
    pub failed_switches: u32,
}

/// An endpoint choice as a value: the supplied endpoint's id, or `None` for the system default.
pub open spec fn choice_view(c: EndpointChoice) -> Option<Seq<char>> {
    match c {
        EndpointChoice::Supplied(id) => Some(id@),
        EndpointChoice::SystemDefault => None,
    }
}

/// The choice a hint makes, as a value: a non-empty hint names its endpoint.
pub open spec fn hint_view(hint: Option<&str>) -> Option<Seq<char>> {
    match hint {
        Some(id) => if id@.len() > 0 {
            Some(id@)
        } else {
            None
        },
        None => None,
    }
}

/// Whether two choices name the same endpoint.
pub fn same_choice(a: &EndpointChoice, b: &EndpointChoice) -> (r: bool)
    ensures
        r == (choice_view(*a) == choice_view(*b)),
{
    match (a, b) {
        (EndpointChoice::Supplied(x), EndpointChoice::Supplied(y)) => same_text(x.as_str(), y.as_str()),
        (EndpointChoice::SystemDefault, EndpointChoice::SystemDefault) => true,
        _ => false,
    }
}

fn copy_choice(c: &EndpointChoice) -> (r: EndpointChoice)
    ensures
        choice_view(r) == choice_view(*c),
{
    match c {
        EndpointChoice::Supplied(id) => EndpointChoice::Supplied(id.clone()),
        EndpointChoice::SystemDefault => EndpointChoice::SystemDefault,
    }
}

pub open spec fn choices_view(h: Seq<EndpointChoice>) -> Seq<Option<Seq<char>>> {
    h.map_values(|c: EndpointChoice| choice_view(c))
}

/// A hint's effect on the waiting hint, and how many hints it coalesces: one naming the
/// endpoint already open cancels the waiting one; any other becomes the waiting one, and a
/// different waiting hint it replaces counts as coalesced.
pub open spec fn hint_update(
    opened: Option<Seq<char>>,
    pending: Option<Option<Seq<char>>>,
    choice: Option<Seq<char>>,
) -> (Option<Option<Seq<char>>>, int) {
    if choice == opened {
        (None, if pending is Some { 1int } else { 0int })
    } else {
        (Some(choice), if pending is Some && pending != Some(choice) { 1int } else { 0int })
    }
}

/// Only the latest hint is authoritative: whatever was waiting, after a hint the waiting one is
/// determined by that hint and the open endpoint alone, so an intermediate endpoint is never
/// what the next read opens.
pub proof fn law_latest_hint_wins(
    opened: Option<Seq<char>>,
    pending_a: Option<Option<Seq<char>>>,
    pending_b: Option<Option<Seq<char>>>,
    choice: Option<Seq<char>>,
)
    ensures
        hint_update(opened, pending_a, choice).0 == hint_update(opened, pending_b, choice).0,
        hint_update(opened, pending_a, choice).0 != Some(opened),
{
}

/// The microphone's endpoint selection and the hint waiting for the next read. Hints coalesce:
/// when several arrive between two reads only the latest is authoritative, and an intermediate
/// endpoint is never opened.
pub struct EndpointFollower {
    selection: EndpointSelection,
    pending: Option<EndpointChoice>,
}

impl EndpointFollower {
    pub closed spec fn selection_view(&self) -> EndpointSelection {
        self.selection
    }

    /// What was opened, in order, and how the selection evolved.
    pub fn selection(&self) -> (s: &EndpointSelection)
        ensures
            *s == self.selection_view(),
    {
        &self.selection
    }

    /// The hint that takes effect at the next read, if any.
    pub closed spec fn pending_view(&self) -> Option<Option<Seq<char>>> {
        match self.pending {
            Some(c) => Some(choice_view(c)),
            None => None,
        }
    }

    /// A source just opened on `choice`: it is the opened endpoint and the whole history.
    pub fn opened_on(choice: EndpointChoice) -> (f: EndpointFollower)
        ensures
            choice_view(f.selection_view().opened) == choice_view(choice),
            choices_view(f.selection_view().history@) == seq![choice_view(choice)],
            f.selection_view().coalesced_hints == 0,
            f.selection_view().failed_switches == 0,
            f.pending_view() is None,
    {
        let first = copy_choice(&choice);
        let mut history: Vec<EndpointChoice> = Vec::new();
        history.push(first);
        let f = EndpointFollower {
            selection: EndpointSelection { opened: choice, history, coalesced_hints: 0, failed_switches: 0 },
            pending: None,
        };
        assert(choices_view(f.selection_view().history@) =~= seq![choice_view(choice)]);
        f
    }

    /// A new hint; it takes effect at the next read. A hint naming the endpoint already open
    /// cancels a waiting one, and a waiting hint replaced by a different one counts as coalesced.
    pub fn update_hint(&mut self, hint: Option<&str>)
        requires
            old(self).selection_view().coalesced_hints < u32::MAX,
        ensures
            final(self).pending_view() == hint_update(
                choice_view(old(self).selection_view().opened),
                old(self).pending_view(),
                hint_view(hint),
            ).0,
            final(self).selection_view().coalesced_hints == old(self).selection_view().coalesced_hints
                + hint_update(
                choice_view(old(self).selection_view().opened),
                old(self).pending_view(),
                hint_view(hint),
            ).1,
            choice_view(final(self).selection_view().opened) == choice_view(old(self).selection_view().opened),
            final(self).selection_view().history == old(self).selection_view().history,
            final(self).selection_view().failed_switches == old(self).selection_view().failed_switches,
    {
        let choice = EndpointChoice::from_hint(hint);
        if same_choice(&choice, &self.selection.opened) {
            if self.pending.is_some() {
                self.selection.coalesced_hints = self.selection.coalesced_hints + 1;
            }
            self.pending = None;
            return;
        }
        let replaced = match &self.pending {
            Some(previous) => !same_choice(previous, &choice),
            None => false,
        };
        if replaced {
            self.selection.coalesced_hints = self.selection.coalesced_hints + 1;
        }
        self.pending = Some(choice);
    }

    /// The hint to act on at this read; none is left waiting.
    pub fn take_pending(&mut self) -> (c: Option<EndpointChoice>)
        ensures
            (match c {
                Some(x) => Some(choice_view(x)),
                None => None,
            }) == old(self).pending_view(),
            final(self).pending_view() is None,
            final(self).selection_view() == old(self).selection_view(),
    {
        let c = self.pending.take();
        c
    }

    /// The source reopened on `choice`: it is now the opened endpoint, appended to the history.
    pub fn switched(&mut self, choice: EndpointChoice)
        ensures
            choice_view(final(self).selection_view().opened) == choice_view(choice),
            choices_view(final(self).selection_view().history@) == choices_view(
                old(self).selection_view().history@,
            ).push(choice_view(choice)),
            final(self).selection_view().coalesced_hints == old(self).selection_view().coalesced_hints,
            final(self).selection_view().failed_switches == old(self).selection_view().failed_switches,
            final(self).pending_view() == old(self).pending_view(),
    {
        let entry = copy_choice(&choice);
        self.selection.opened = choice;
        self.selection.history.push(entry);
        assert(choices_view(self.selection.history@) =~= choices_view(
            old(self).selection_view().history@,
        ).push(choice_view(choice)));
    }

    /// Reopening failed: the current endpoint stays open, and the failure is counted.
    pub fn switch_failed(&mut self)
        requires
            old(self).selection_view().failed_switches < u32::MAX,
        ensures
            final(self).selection_view().failed_switches == old(self).selection_view().failed_switches + 1,
            final(self).selection_view().opened == old(self).selection_view().opened,
            final(self).selection_view().history == old(self).selection_view().history,
            final(self).selection_view().coalesced_hints == old(self).selection_view().coalesced_hints,
            final(self).pending_view() == old(self).pending_view(),
    {
        self.selection.failed_switches = self.selection.failed_switches + 1;
    }
}

/// How the selection record names a choice: the endpoint id, or `system-default`.
pub open spec fn choice_label(c: EndpointChoice) -> Seq<char> {
    match c {
        EndpointChoice::Supplied(id) => id@,
        EndpointChoice::SystemDefault => "system-default"@,
    }
}

pub fn endpoint_choice_label(choice: &EndpointChoice) -> (s: String)
    ensures
        s@ == choice_label(*choice),
{
    match choice {
        EndpointChoice::Supplied(id) => id.clone(),
        EndpointChoice::SystemDefault => "system-default".to_string(),
    }
}

/// The endpoint selection as it is persisted next to a timeline.
#[derive(Debug, Clone, PartialEq, Eq)]
pub struct EndpointSelectionEvidence {
    pub opened_endpoint: String,
    pub selection_history: Vec<String>,
    pub coalesced_hints: u32,
    pub failed_switches: u32,
}

pub fn endpoint_selection_evidence(selection: &EndpointSelection) -> (e: EndpointSelectionEvidence)
    ensures
        e.opened_endpoint@ == choice_label(selection.opened),
        e.selection_history@.len() == selection.history@.len(),
        forall|i: int|
            0 <= i < selection.history@.len() ==> #[trigger] e.selection_history@[i]@ == choice_label(
                selection.history@[i],
            ),
        e.coalesced_hints == selection.coalesced_hints,
        e.failed_switches == selection.failed_switches,
{
    let mut history: Vec<String> = Vec::new();
    let mut i: usize = 0;
    while i < selection.history.len()
        invariant
            i <= selection.history@.len(),
            history@.len() == i,
            forall|j: int| 0 <= j < i ==> #[trigger] history@[j]@ == choice_label(selection.history@[j]),
        decreases selection.history@.len() - i,
    {
        history.push(endpoint_choice_label(&selection.history[i]));
        i += 1;
    }
    EndpointSelectionEvidence {
        opened_endpoint: endpoint_choice_label(&selection.opened),
        selection_history: history,
        coalesced_hints: selection.coalesced_hints,
        failed_switches: selection.failed_switches,
    }
}

/// One mono track at the track rate: its origin on the monotonic clock and its samples.
#[derive(Debug, Clone, Copy)]
pub struct TrackSamples<'a> {
    pub start_monotonic_ns: u64,
    pub samples: &'a [i16],
}

/// The native formats a source can be brought to the track rate from: at least one channel,
/// and a rate from 8 kHz to 384 kHz.
pub open spec fn format_supported(format: StreamFormat) -> bool {
    format.channels > 0 && 8_000 <= format.sample_rate <= 384_000
}

/// Whether a stream's format can be pinned to the track rate, mono.
pub fn check_format(format: StreamFormat) -> (r: Result<(), ActivationError>)
    ensures
        format_supported(format) ==> r is Ok,
        !format_supported(format) ==> r == Err::<(), ActivationError>(
            ActivationError::UnsupportedFormat(format),
        ),
{
    if format.channels == 0 || !(8_000 <= format.sample_rate && format.sample_rate <= 384_000) {
        return Err(ActivationError::UnsupportedFormat(format));
    }
    Ok(())
}

/// The sum of the `n` samples from `start`.
pub open spec fn frame_sum(s: Seq<i16>, start: int, n: int) -> int
    decreases n,
{
    if n <= 0 {
        0
    } else {
        frame_sum(s, start, n - 1) + s[start + n - 1]
    }
}

/// Integer division rounding toward zero, as Rust's `/` on signed integers.
pub open spec fn div_toward_zero(a: int, b: int) -> int {
    if a >= 0 {
        a / b
    } else {
        -((-a) / b)
    }
}

/// Interleaved frames of `channels` samples averaged to mono, each average rounded toward zero;
/// a trailing partial frame is dropped.
pub open spec fn downmix_spec(channels: int, s: Seq<i16>) -> Seq<i16> {
    Seq::new(
        (s.len() as int / channels) as nat,
        |f: int| div_toward_zero(frame_sum(s, f * channels, channels), channels) as i16,
    )
}

proof fn lemma_frame_sum_bounds(s: Seq<i16>, start: int, n: int)
    requires
        0 <= n,
        0 <= start,
        start + n <= s.len(),
    ensures
        -32768 * n <= frame_sum(s, start, n) <= 32767 * n,
    decreases n,
{
    if n > 0 {
        lemma_frame_sum_bounds(s, start, n - 1);
    }
}

/// Average interleaved frames to mono.
pub fn downmix(channels: u16, interleaved: &[i16]) -> (mono: Vec<i16>)
    requires
        channels > 0,
    ensures
        mono@ == downmix_spec(channels as int, interleaved@),
{
    let ch = channels as usize;
    let n = interleaved.len();
    let mut mono: Vec<i16> = Vec::new();
    let mut base: usize = 0;
    let ghost mut f: int = 0;
    while n - base >= ch
        invariant
            ch == channels as usize,
            ch > 0,
            n == interleaved@.len(),
            base == f * ch,
            0 <= f,
            base <= n,
            mono@.len() == f,
            forall|g: int| 0 <= g < f ==> #[trigger] mono@[g] == downmix_spec(ch as int, interleaved@)[g],
            f <= n as int / ch as int,
        decreases n - base,
    {
        let mut sum: i32 = 0;
        let mut k: usize = 0;
        while k < ch
            invariant
                0 < ch <= 65535,
                k <= ch,
                base + ch <= n,
                n == interleaved@.len(),
                sum == frame_sum(interleaved@, base as int, k as int),
            decreases ch - k,
        {
            proof {
                lemma_frame_sum_bounds(interleaved@, base as int, k as int);
                assert(-32768 * k >= -32768 * 65535) by (nonlinear_arith)
                    requires k <= 65535;
                assert(32767 * k <= 32767 * 65535) by (nonlinear_arith)
                    requires k <= 65535;
            }
            sum = sum + interleaved[base + k] as i32;
            k += 1;
        }
        proof {
            lemma_frame_sum_bounds(interleaved@, base as int, ch as int);
            assert(-32768 * (ch as int) <= sum <= 32767 * (ch as int));
            assert(f < n as int / ch as int) by (nonlinear_arith)
                requires base == f * ch, base + ch <= n, ch > 0, 0 <= f;
        }
        let avg: i32 = if sum >= 0 {
            (sum as u32 / ch as u32) as i32
        } else {
            -(((-sum) as u32 / ch as u32) as i32)
        };
        proof {
            if sum >= 0 {
                assert((sum as int) / (ch as int) <= 32767) by (nonlinear_arith)
                    requires 0 <= sum <= 32767 * (ch as int), ch > 0;
            } else {
                assert((-(sum as int)) / (ch as int) <= 32768) by (nonlinear_arith)
                    requires 0 < -(sum as int) <= 32768 * (ch as int), ch > 0;
            }
            assert(avg == div_toward_zero(sum as int, ch as int));
        }
        mono.push(avg as i16);
        proof {
            assert(downmix_spec(ch as int, interleaved@)[f] == avg as i16);
            f = f + 1;
            assert(base + ch == f * ch) by (nonlinear_arith)
                requires base == (f - 1) * ch;
        }
        base = base + ch;
    }
    proof {
        assert(f == n as int / ch as int) by (nonlinear_arith)
            requires base == f * ch, n - base < ch, base <= n, ch > 0, 0 <= f;
        assert(mono@ =~= downmix_spec(ch as int, interleaved@));
    }
    mono
}

/// A track origin at the given clock reading, pinned to the track rate, mono.
pub fn track_origin(mode: CaptureMode, risk: ContaminationRisk, wall_ms: i64, mono_ns: u64) -> (o: TrackOrigin)
    ensures
        o.start_wall_utc_ms == wall_ms,
        o.start_monotonic_ns == mono_ns,
        o.sample_rate == SAMPLE_RATE,
        o.channels == 1,
        o.capture_mode == mode,
        o.contamination_risk == risk,
{
    TrackOrigin {
        start_wall_utc_ms: wall_ms,
        start_monotonic_ns: mono_ns,
        sample_rate: SAMPLE_RATE,
        channels: 1,
        capture_mode: mode,
        contamination_risk: risk,
    }
}

/// What a source does when its activation is lost mid-session.
#[derive(Debug, Clone, Copy, PartialEq, Eq, Structural)]
pub enum LossAction {
    /// The source ends.
    End,
    /// The source reopens on system loopback with a new origin.
    ReopenSystemLoopback,
}

/// A device-mode source carries microphone input: falling back to render loopback would change
/// the track from microphone audio to speaker output, so its loss ends it. A loopback source
/// reopens on system loopback.
pub fn on_activation_loss(mode: CaptureMode) -> (a: LossAction)
    ensures
        mode == CaptureMode::Device ==> a == LossAction::End,
        mode != CaptureMode::Device ==> a == LossAction::ReopenSystemLoopback,
{
    match mode {
        CaptureMode::Device => LossAction::End,
        _ => LossAction::ReopenSystemLoopback,
    }
}

/// A loopback activation: the stream and how it was obtained.
pub struct Activated<S> {
    pub stream: S,
    pub mode: CaptureMode,
    pub risk: ContaminationRisk,
    pub outcome: ActivationOutcome,
}

/// What opening a loopback source records when process loopback worked, or when it failed for
/// `reason` and system loopback was opened instead.
pub open spec fn loopback_record(mode: CaptureMode, risk: ContaminationRisk, outcome: ActivationOutcome) -> bool {
    ||| mode == CaptureMode::ProcessLoopback && risk == ContaminationRisk::NoOtherApps && outcome
        == ActivationOutcome::Activated
    ||| mode == CaptureMode::SystemLoopback && risk == ContaminationRisk::PossibleOtherApps
        && outcome is Fallback
}

/// What the process loopback attempt leads to: its stream, recorded as process loopback with no
/// other apps' audio, or (as the error) the reason to fall back to system loopback.
pub fn after_process<S>(r: Result<S, ActivationError>) -> (next: Result<Activated<S>, ActivationError>)
    ensures
        match r {
            Ok(s) => next matches Ok(a) && a.stream == s && a.mode == CaptureMode::ProcessLoopback
                && a.risk == ContaminationRisk::NoOtherApps && a.outcome == ActivationOutcome::Activated,
            Err(e) => next matches Err(f) && f == e,
        },
{
    match r {
        Ok(stream) => Ok(
            Activated {
                stream,
                mode: CaptureMode::ProcessLoopback,
                risk: ContaminationRisk::NoOtherApps,
                outcome: ActivationOutcome::Activated,
            },
        ),
        Err(reason) => Err(reason),
    }
}

/// What the system loopback attempt, made because process loopback failed for `reason`, leads
/// to: its stream, recorded as a fallback that may hold other apps' audio, or its own error.
pub fn after_system<S>(reason: ActivationError, r: Result<S, ActivationError>) -> (next: Result<
    Activated<S>,
    ActivationError,
>)
    ensures
        match r {
            Ok(s) => next matches Ok(a) && a.stream == s && a.mode == CaptureMode::SystemLoopback
                && a.risk == ContaminationRisk::PossibleOtherApps && a.outcome
                == (ActivationOutcome::Fallback { reason }),
            Err(e) => next matches Err(f) && f == e,
        },
{
    match r {
        Ok(stream) => Ok(
            Activated {
                stream,
                mode: CaptureMode::SystemLoopback,
                risk: ContaminationRisk::PossibleOtherApps,
                outcome: ActivationOutcome::Fallback { reason },
            },
        ),
        Err(e) => Err(e),
    }
}

/// Process loopback for `target`, falling back to system loopback with the contamination risk
/// recorded; fails only when neither activation succeeds, with the system loopback's error.
/// [`after_process`] and [`after_system`] say what each answer of the backend leads to.
pub fn activate_loopback<B: ActivationBackend>(backend: &mut B, target: LoopbackTarget) -> (r: Result<
    Activated<B::Stream>,
    ActivationError,
>)
    ensures
        r matches Ok(a) ==> loopback_record(a.mode, a.risk, a.outcome),
        match old(backend).process_answer() {
            Ok(()) => r matches Ok(a) && a.mode == CaptureMode::ProcessLoopback && a.risk
                == ContaminationRisk::NoOtherApps && a.outcome == ActivationOutcome::Activated,
            Err(reason) => match old(backend).system_answer() {
                Ok(()) => r matches Ok(a) && a.mode == CaptureMode::SystemLoopback && a.risk
                    == ContaminationRisk::PossibleOtherApps && a.outcome == (ActivationOutcome::Fallback {
                    reason,
                }),
                Err(e) => r matches Err(f) && f == e,
            },
        },
{
    match after_process(backend.activate_process_loopback(target)) {
        Ok(activated) => Ok(activated),
        Err(reason) => after_system(reason, backend.activate_system_loopback()),
    }
}

} // verus!
