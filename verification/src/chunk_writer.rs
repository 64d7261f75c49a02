//! Samples become durable fixed-duration chunks in the order write `.part`, flush, rename,
//! manifest record, fsync. The writer never blocks on anything but the filesystem seam it is
//! given, and when that stalls it drops audio loudly: a bounded queue of two chunks, explicit gap
//! records, a degraded event with the reason (`disk_backpressure`, or `disk_full` once the
//! filesystem said so).

use crate::chunk_manifest::{
    append_str, chunk_file_name, record_interval, records_fit, records_max_seq, ChunkManifest,
    ChunkRecord, ManifestEvent, ManifestEventKind,
};
use crate::ids::{uuid_text, TrackId};
use crate::intervals::{chain_end, lemma_tiles_extend, sorted_spans, tiles};
use crate::text::{chars_of, push_char};
use crate::timeline::{gap_interval, Gap, GapReason, TrackOrigin};
use crate::wav;
use vstd::prelude::*;

verus! {


pub const SAMPLE_RATE: u32 = 16_000;

/// 30 s at 16 kHz mono.
pub const CHUNK_SAMPLES: usize = 480_000;

/// 60 s per track: two whole chunks.
pub const QUEUE_CAP_SAMPLES: usize = 2 * CHUNK_SAMPLES;

/// A filesystem refusal.
#[derive(Debug, Clone, Copy, PartialEq, Eq, Structural)]
pub enum FsError {
    /// The filesystem is not accepting writes right now; nothing was written.
    Stalled,
    DiskFull,
    Io,
}

/// Whether an I/O error means the disk is full, given its raw OS code and whether its kind is
/// `StorageFull`: ENOSPC (Linux 28), ERROR_HANDLE_DISK_FULL (Windows 39), ERROR_DISK_FULL
/// (Windows 112), or that kind.
pub fn is_disk_full(raw_os_error: Option<i32>, storage_full: bool) -> (r: bool)
    ensures
        r == (raw_os_error == Some(28i32) || raw_os_error == Some(39i32) || raw_os_error == Some(112i32)
            || storage_full),
{
    match raw_os_error {
        Some(code) => code == 28 || code == 39 || code == 112 || storage_full,
        None => storage_full,
    }
}

/// The filesystem seam: the real filesystem in production, stalls and full disks in tests.
pub trait ChunkFs {
    fn write_part(&mut self, path: &str, bytes: &[u8]) -> Result<(), FsError>;

    fn rename_in(&mut self, part: &str, final_path: &str) -> Result<(), FsError>;

    fn save_manifest(&mut self, dir: &str, manifest: &ChunkManifest) -> Result<(), FsError>;
}

/// A call the writer made on its filesystem, with what the filesystem answered.
pub enum FsCall {
    WritePart { path: Seq<char>, bytes: Seq<u8>, answer: Result<(), FsError> },
    Rename { part: Seq<char>, to: Seq<char>, answer: Result<(), FsError> },
    SaveManifest { dir: Seq<char>, manifest: ChunkManifest, answer: Result<(), FsError> },
}

/// What the filesystem answered to a call.
pub open spec fn fs_answer(c: FsCall) -> Result<(), FsError> {
    match c {
        FsCall::WritePart { answer, .. } => answer,
        FsCall::Rename { answer, .. } => answer,
        FsCall::SaveManifest { answer, .. } => answer,
    }
}

/// The `.part` file that chunk `seq` of the track in `dir` is first written to.
pub open spec fn part_path(dir: Seq<char>, seq: u32) -> Seq<char> {
    path_join(dir, chunk_file_name(seq) + ".part"@)
}

/// Call `i` of `calls` is where it belongs when chunks `first_seq`, `first_seq + 1`, ... of
/// the track in `dir` are written in turn, each as its `.part` file, the rename of that file to
/// the chunk's own name, and a save of the manifest.
pub open spec fn call_in_turn(calls: Seq<FsCall>, dir: Seq<char>, first_seq: u32, i: int) -> bool {
    let seq = (first_seq + i / 3) as u32;
    match calls[i] {
        FsCall::WritePart { path, .. } => i % 3 == 0 && path == part_path(dir, seq),
        FsCall::Rename { part, to, .. } => i % 3 == 1 && part == part_path(dir, seq) && to
            == path_join(dir, chunk_file_name(seq)),
        FsCall::SaveManifest { dir: d, .. } => i % 3 == 2 && d == dir,
    }
}

/// `calls` write chunks of the track in `dir` in turn from `first_seq` on, and each call came
/// only after every earlier one was answered `Ok`.
pub open spec fn chunk_call_order(calls: Seq<FsCall>, dir: Seq<char>, first_seq: u32) -> bool {
    &&& forall|i: int| 0 <= i < calls.len() - 1 ==> (#[trigger] fs_answer(calls[i])) is Ok
    &&& forall|i: int| 0 <= i < calls.len() ==> #[trigger] call_in_turn(calls, dir, first_seq, i)
}

/// The samples the given chunk records hold together.
#[verifier::opaque]
pub open spec fn records_len(rs: Seq<ChunkRecord>) -> nat
    decreases rs.len(),
{
    if rs.len() == 0 {
        0
    } else {
        records_len(rs.drop_last()) + rs.last().len_samples as nat
    }
}

/// The call writes the `.part` file of a chunk holding `samples`, as a WAV file at `origin`'s
/// format.
pub open spec fn writes_samples(c: FsCall, origin: TrackOrigin, samples: Seq<i16>) -> bool {
    c matches FsCall::WritePart { bytes, .. } && bytes == wav::wav_bytes(
        origin.sample_rate,
        origin.channels,
        samples,
    )
}

/// The chunks `recs`, written in turn by `calls` from the front of `queue`: chunk `k` has
/// sequence number `first_seq + k`, and its `.part` file (call `3 * k`) holds the `len_samples`
/// queued samples that follow those of the chunks before it.
#[verifier::opaque]
pub open spec fn chunks_from_queue(
    calls: Seq<FsCall>,
    recs: Seq<ChunkRecord>,
    queue: Seq<i16>,
    origin: TrackOrigin,
    first_seq: u32,
) -> bool {
    &&& 3 * recs.len() <= calls.len() + 2
    &&& records_len(recs) <= queue.len()
    &&& forall|k: int|
        0 <= k < recs.len() ==> (#[trigger] recs[k]).seq == first_seq + k && writes_samples(
            calls[3 * k],
            origin,
            queue.subrange(records_len(recs.take(k)) as int, records_len(recs.take(k + 1)) as int),
        )
}

/// Why audio was dropped.
#[derive(Debug, Clone, Copy, PartialEq, Eq, Structural)]
pub enum DegradedReason {
    DiskBackpressure,
    DiskFull,
}

/// What the writer reports.
#[derive(Debug, Clone, Copy, PartialEq, Eq, Structural)]
pub enum WriterEvent {
    ChunkDurable { seq: u32, samples: u64 },
    Degraded { reason: DegradedReason, dropped_samples: u64 },
    /// A device format or endpoint change ended this track and opened its successor.
    SuccessorOpened { successor: TrackId },
}

/// Audio dropped while the queue was full. It sits after `queue_offset` queued samples; samples
/// accepted after that stall ended follow it in the queue. Several may be pending at once.
#[derive(Debug, Clone, Copy, PartialEq, Eq, Structural)]
struct PendingGap {
    queue_offset: usize,
    dropped: u64,
    gap_index: usize,
}

/// The gap `g` grown by `dropped` more samples at its end.
pub open spec fn extended_gap(g: Gap, dropped: u64) -> Gap {
    Gap { from_sample: g.from_sample, to_sample: (g.to_sample + dropped) as u64, reason: g.reason }
}

/// The gap left by `dropped` samples lost from track position `from` on.
pub open spec fn interruption(from: nat, dropped: u64) -> Gap {
    Gap {
        from_sample: from as u64,
        to_sample: (from + dropped) as u64,
        reason: GapReason::CaptureInterrupted,
    }
}

/// The samples dropped by the given pending gaps together.
spec fn dropped_sum(p: Seq<PendingGap>) -> nat
    decreases p.len(),
{
    if p.len() == 0 {
        0
    } else {
        dropped_sum(p.drop_last()) + p.last().dropped as nat
    }
}

/// `dir/name`, with no doubled separator.
pub open spec fn path_join(dir: Seq<char>, name: Seq<char>) -> Seq<char> {
    if dir.len() > 0 && dir.last() == '/' {
        dir + name
    } else {
        dir.push('/') + name
    }
}

/// `dir/name` as `Path::join` writes it for a relative name.
pub fn join_path(dir: &str, name: &str) -> (s: String)
    ensures
        s@ == path_join(dir@, name@),
{
    let d = chars_of(dir);
    let mut s = dir.to_owned();
    if !(d.len() > 0 && d[d.len() - 1] == '/') {
        push_char(&mut s, '/');
    }
    append_str(&mut s, name);
    s
}

proof fn lemma_skip_one_more(s: Seq<PendingGap>, a: Seq<PendingGap>, b: Seq<PendingGap>, k: int)
    requires
        0 <= k < s.len(),
        a == s.skip(k),
        b == a.drop_first(),
    ensures
        b == s.skip(k + 1),
{
    assert(b =~= s.skip(k + 1));
}

/// The intervals of the records and of the gaps that are no longer pending.
spec fn fixed_intervals(records: Seq<ChunkRecord>, gaps: Seq<Gap>, fixed: int) -> Seq<(u64, u64)> {
    records.map_values(|r: ChunkRecord| record_interval(r)) + gaps.take(fixed).map_values(
        |g: Gap| gap_interval(g),
    )
}

/// Every record and gap of a manifest.
pub open spec fn manifest_intervals(m: ChunkManifest) -> Seq<(u64, u64)> {
    m.chunks@.map_values(|r: ChunkRecord| record_interval(r)) + m.gaps@.map_values(
        |g: Gap| gap_interval(g),
    )
}

/// The writer of one track.
pub struct ChunkWriter {
    track_dir: String,
    manifest: ChunkManifest,
    queue: Vec<i16>,
    /// Track position of the first queued sample.
    position: u64,
    next_seq: u32,
    pub events: Vec<WriterEvent>,
    pending: Vec<PendingGap>,
    /// The filesystem reported a full disk on the last write; drops are attributed to it.
    disk_full: bool,
    /// Every call made on a filesystem, in order, with its answer.
    fs_log: Ghost<Seq<FsCall>>,
}

impl ChunkWriter {
    /// The manifest as the writer holds it.
    pub closed spec fn manifest_view(&self) -> ChunkManifest {
        self.manifest
    }

    /// Every call this writer made on a filesystem, in order, with what it answered.
    pub closed spec fn fs_calls(&self) -> Seq<FsCall> {
        self.fs_log@
    }

    /// The events reported so far.
    pub closed spec fn event_log(&self) -> Seq<WriterEvent> {
        self.events@
    }

    /// The samples waiting for a chunk.
    pub closed spec fn queued(&self) -> Seq<i16> {
        self.queue@
    }

    /// The track position of the first queued sample.
    pub closed spec fn pos(&self) -> u64 {
        self.position
    }

    /// The sequence number the next chunk gets.
    pub closed spec fn seq_next(&self) -> u32 {
        self.next_seq
    }

    /// The directory of the track.
    pub closed spec fn dir(&self) -> Seq<char> {
        self.track_dir@
    }

    /// Whether the last write found the disk full.
    pub closed spec fn full(&self) -> bool {
        self.disk_full
    }

    /// Every sample ever accepted or dropped: the position, the queue and the pending drops.
    pub closed spec fn total(&self) -> nat {
        self.position as nat + self.queue@.len() + dropped_sum(self.pending@)
    }

    /// Whether no audio waits: the queue is empty and no drop is pending.
    pub closed spec fn settled(&self) -> bool {
        self.queue@.len() == 0 && self.pending@.len() == 0
    }

    closed spec fn fixed(&self) -> int {
        self.manifest.gaps@.len() - self.pending@.len()
    }

    closed spec fn fixed_view(&self) -> Seq<(u64, u64)> {
        fixed_intervals(self.manifest.chunks@, self.manifest.gaps@, self.fixed())
    }

    /// How many queued samples may go into the next chunk before the first pending gap.
    closed spec fn run(&self) -> nat {
        if self.pending@.len() > 0 {
            let o = self.pending@[0].queue_offset as nat;
            if o <= self.queue@.len() { o } else { self.queue@.len() }
        } else {
            self.queue@.len()
        }
    }

    /// The writer's bookkeeping holds for the given chunk records: records and settled gaps
    /// tile `[0, position)`, each pending drop is recorded as a gap exactly where its samples
    /// belong, and the queue is bounded.
    closed spec fn inv_with(&self, records: Seq<ChunkRecord>) -> bool {
        let q = self.queue@.len();
        let k = self.pending@.len();
        let g = self.manifest.gaps@;
        let m = self.fixed();
        &&& q <= QUEUE_CAP_SAMPLES
        &&& k <= g.len()
        &&& forall|i: int| 0 <= i < k ==> (#[trigger] self.pending@[i]).gap_index == m + i
        &&& forall|i: int, j: int|
            0 <= i < j < k ==> (#[trigger] self.pending@[i]).queue_offset
                <= (#[trigger] self.pending@[j]).queue_offset
        &&& forall|i: int| 0 <= i < k ==> (#[trigger] self.pending@[i]).queue_offset <= q
        &&& forall|i: int| 0 <= i < k ==> (#[trigger] self.pending@[i]).dropped > 0
        &&& forall|i: int|
            0 <= i < k ==> g[m + i].from_sample == self.position + (#[trigger] self.pending@[i]).queue_offset
                + dropped_sum(self.pending@.take(i)) && g[m + i].to_sample == g[m + i].from_sample
                + self.pending@[i].dropped
        &&& records_fit(records)
        &&& tiles(fixed_intervals(records, g, m))
        &&& chain_end(sorted_spans(fixed_intervals(records, g, m)), 0) == self.position
        &&& self.total() <= u64::MAX
        &&& wav::header_fits(
            self.manifest.origin.sample_rate,
            self.manifest.origin.channels,
            (2 * CHUNK_SAMPLES) as u32,
        )
    }

    /// The writer's bookkeeping holds.
    pub closed spec fn inv(&self) -> bool {
        self.inv_with(self.manifest.chunks@)
    }

    /// The bookkeeping holds but for one record at the end of the manifest: a chunk whose file
    /// was renamed into place while saving the manifest failed. The queue still holds its samples.
    pub closed spec fn unsaved_record(&self) -> bool {
        self.manifest.chunks@.len() > 0 && self.inv_with(self.manifest.chunks@.drop_last())
    }

    /// Draining has nothing to write: less than a chunk is queued and every pending drop sits
    /// at the front of the queue.
    pub closed spec fn nothing_due(&self) -> bool {
        &&& self.queue@.len() < CHUNK_SAMPLES
        &&& forall|i: int| 0 <= i < self.pending@.len() ==> (#[trigger] self.pending@[i]).queue_offset == 0
    }

    /// The latest pending drop sits at the back of the queue: nothing was accepted after it, so
    /// a further drop extends its gap.
    pub closed spec fn drop_pending_at_end(&self) -> bool {
        self.pending@.len() > 0 && self.pending@.last().queue_offset == self.queue@.len()
    }

    /// A pending drop sits at the front of the queue: the position jumps over its gap before
    /// anything more is written.
    pub closed spec fn drop_pending_at_front(&self) -> bool {
        self.pending@.len() > 0 && self.pending@[0].queue_offset == 0
    }

    /// Since `start`, the chunk records added came in turn from the front of `start`'s queue, each
    /// written by its own `.part` call.
    closed spec fn wrote_since(&self, start: ChunkWriter) -> bool {
        chunks_since(
            start.fs_log@,
            self.fs_log@,
            start.manifest.chunks@,
            self.manifest.chunks@,
            start.queue@,
            start.manifest.origin,
            start.next_seq,
        )
    }

    /// No drop waits: every sample accepted or dropped is behind the position or queued.
    pub closed spec fn no_pending_drops(&self) -> bool {
        self.pending@.len() == 0
    }

    /// The records and gaps of the manifest tile `[0, end)`.
    pub closed spec fn manifest_tiles_to(&self, end: nat) -> bool {
        &&& tiles(manifest_intervals(self.manifest))
        &&& chain_end(sorted_spans(manifest_intervals(self.manifest)), 0) == end
    }

    pub fn manifest(&self) -> (m: &ChunkManifest)
        ensures
            *m == self.manifest_view(),
    {
        &self.manifest
    }

    pub fn queued_samples(&self) -> (n: usize)
        ensures
            n == self.queued().len(),
    {
        self.queue.len()
    }

    pub fn position(&self) -> (p: u64)
        ensures
            p == self.pos(),
    {
        self.position
    }

    pub fn track_id(&self) -> (t: TrackId)
        ensures
            t == self.manifest_view().track,
    {
        self.manifest.track
    }

    /// Accept samples from the capture callback. Never blocks; overflow drops and records a gap.
    pub fn push(&mut self, samples: &[i16])
        requires
            old(self).inv(),
            old(self).total() + samples@.len() <= u64::MAX,
        ensures
            final(self).inv(),
            final(self).total() == old(self).total() + samples@.len(),
            ({
                let room = QUEUE_CAP_SAMPLES - old(self).queued().len();
                let accepted = if samples@.len() <= room { samples@.len() as int } else { room };
                let dropped = samples@.len() - accepted;
                &&& final(self).queued() == old(self).queued() + samples@.take(accepted)
                &&& dropped > 0 ==> final(self).event_log() == old(self).event_log().push(
                    WriterEvent::Degraded {
                        reason: if old(self).full() {
                            DegradedReason::DiskFull
                        } else {
                            DegradedReason::DiskBackpressure
                        },
                        dropped_samples: dropped as u64,
                    },
                )
                &&& dropped == 0 ==> final(self).event_log() == old(self).event_log()
                &&& dropped == 0 ==> final(self).manifest_view().gaps@ == old(self).manifest_view().gaps@
                &&& dropped == 0 ==> (final(self).drop_pending_at_end() <==> (old(self).drop_pending_at_end()
                    && accepted == 0))
                &&& dropped > 0 ==> final(self).drop_pending_at_end()
                &&& (dropped > 0 && accepted == 0 && old(self).drop_pending_at_end()) ==> {
                    let g = old(self).manifest_view().gaps@;
                    &&& g.len() > 0
                    &&& g.last().to_sample == old(self).total()
                    &&& final(self).manifest_view().gaps@ == g.update(
                        g.len() - 1,
                        extended_gap(g.last(), dropped as u64),
                    )
                }
                &&& (dropped > 0 && !(accepted == 0 && old(self).drop_pending_at_end()))
                    ==> final(self).manifest_view().gaps@ == old(self).manifest_view().gaps@.push(
                    interruption(old(self).total() + accepted as nat, dropped as u64),
                )
            }),
            final(self).pos() == old(self).pos(),
            final(self).seq_next() == old(self).seq_next(),
            final(self).full() == old(self).full(),
            final(self).dir() == old(self).dir(),
            final(self).fs_calls() == old(self).fs_calls(),
            final(self).drop_pending_at_front() == old(self).drop_pending_at_front(),
            final(self).manifest_view().chunks@ == old(self).manifest_view().chunks@,
            final(self).manifest_view().track == old(self).manifest_view().track,
    {
        let room = QUEUE_CAP_SAMPLES - self.queue.len();
        let accepted = if samples.len() <= room { samples.len() } else { room };
        let ghost start = self.queue@;
        let mut i: usize = 0;
        while i < accepted
            invariant
                accepted <= samples@.len(),
                start.len() + accepted <= QUEUE_CAP_SAMPLES,
                i <= accepted,
                self.queue@ == start + samples@.take(i as int),
                start == old(self).queue@,
                self.pending == old(self).pending,
                self.manifest == old(self).manifest,
                self.position == old(self).position,
                self.next_seq == old(self).next_seq,
                self.disk_full == old(self).disk_full,
                self.track_dir == old(self).track_dir,
                self.events == old(self).events,
                self.fs_log == old(self).fs_log,
            decreases accepted - i,
        {
            proof {
                assert(self.queue@.len() == start.len() + i);
            }
            self.queue.push(samples[i]);
            assert(samples@.take(i + 1) == samples@.take(i as int).push(samples@[i as int]));
            i += 1;
        }
        assert(samples@.take(accepted as int).len() == accepted);
        proof {
            Self::lemma_queue_grows(*old(self), *self);
        }
        let dropped = (samples.len() - accepted) as u64;
        proof {
            if accepted > 0 && self.pending@.len() > 0 {
                assert(self.pending@.last().queue_offset <= old(self).queue@.len());
            }
        }
        if dropped > 0 {
            let reason = if self.disk_full {
                DegradedReason::DiskFull
            } else {
                DegradedReason::DiskBackpressure
            };
            self.record_drop(dropped, reason);
        }
    }

    /// Samples appended to the queue keep the bookkeeping.
    proof fn lemma_queue_grows(a: ChunkWriter, b: ChunkWriter)
        requires
            a.inv(),
            b.queue@.len() >= a.queue@.len(),
            b.queue@.len() <= QUEUE_CAP_SAMPLES,
            b.total() <= u64::MAX,
            b.pending@ == a.pending@,
            b.manifest == a.manifest,
            b.position == a.position,
        ensures
            b.inv(),
    {
        assert(b.fixed_view() == a.fixed_view());
    }

    fn dropped_total(&self) -> (s: u64)
        requires
            dropped_sum(self.pending@) <= u64::MAX,
        ensures
            s == dropped_sum(self.pending@),
    {
        let mut s: u64 = 0;
        let mut i: usize = 0;
        while i < self.pending.len()
            invariant
                i <= self.pending@.len(),
                dropped_sum(self.pending@) <= u64::MAX,
                s == dropped_sum(self.pending@.take(i as int)),
            decreases self.pending@.len() - i,
        {
            assert(self.pending@.take(i + 1).drop_last() == self.pending@.take(i as int));
            proof {
                lemma_dropped_sum_prefix(self.pending@, i + 1);
            }
            s = s + self.pending[i].dropped;
            i += 1;
        }
        assert(self.pending@.take(self.pending@.len() as int) == self.pending@);
        s
    }

    #[verifier::rlimit(100)]
    #[verifier::spinoff_prover]
    fn record_drop(&mut self, dropped: u64, reason: DegradedReason)
        requires
            old(self).inv(),
            dropped > 0,
            old(self).total() + dropped <= u64::MAX,
        ensures
            final(self).inv(),
            final(self).total() == old(self).total() + dropped,
            final(self).queue@ == old(self).queue@,
            final(self).position == old(self).position,
            final(self).next_seq == old(self).next_seq,
            final(self).disk_full == old(self).disk_full,
            final(self).track_dir == old(self).track_dir,
            final(self).manifest.chunks@ == old(self).manifest.chunks@,
            final(self).manifest.track == old(self).manifest.track,
            final(self).manifest.origin == old(self).manifest.origin,
            final(self).manifest.role@ == old(self).manifest.role@,
            final(self).events@ == old(self).events@.push(
                WriterEvent::Degraded { reason, dropped_samples: dropped },
            ),
            final(self).fs_log == old(self).fs_log,
            final(self).drop_pending_at_end(),
            final(self).drop_pending_at_front() == (old(self).drop_pending_at_front() || (
            old(self).pending@.len() == 0 && old(self).queue@.len() == 0)),
            old(self).drop_pending_at_end() ==> old(self).manifest.gaps@.len() > 0
                && old(self).manifest.gaps@.last().to_sample == old(self).total()
                && final(self).manifest.gaps@ == old(self).manifest.gaps@.update(
                old(self).manifest.gaps@.len() - 1,
                extended_gap(old(self).manifest.gaps@.last(), dropped),
            ),
            !old(self).drop_pending_at_end() ==> final(self).manifest.gaps@
                == old(self).manifest.gaps@.push(interruption(old(self).total(), dropped)),
    {
        let q = self.queue.len();
        let k = self.pending.len();
        let ghost old_pending = self.pending@;
        let ghost old_gaps = self.manifest.gaps@;
        let ghost m = self.fixed();
        if k > 0 && self.pending[k - 1].queue_offset == q {
            let last = self.pending[k - 1];
            let gi = last.gap_index;
            proof {
                lemma_dropped_sum_prefix(old_pending, k as int);
                assert(old_pending.take(k as int) == old_pending);
                assert(dropped_sum(old_pending) == dropped_sum(old_pending.drop_last()) + last.dropped);
            }
            let updated = PendingGap {
                queue_offset: last.queue_offset,
                dropped: last.dropped + dropped,
                gap_index: gi,
            };
            self.pending.set(k - 1, updated);
            let old_gap = &self.manifest.gaps[gi];
            let new_gap = Gap {
                from_sample: old_gap.from_sample,
                to_sample: old_gap.to_sample + dropped,
                reason: old_gap.reason.duplicate(),
            };
            self.manifest.gaps.set(gi, new_gap);
            proof {
                assert(gi == old_gaps.len() - 1);
                lemma_dropped_sum_prefix(old_pending, k - 1);
                assert(old_pending.take(k - 1) == old_pending.drop_last());
                let np = self.pending@;
                assert(np.drop_last() == old_pending.drop_last());
                assert forall|i: int| 0 <= i < k implies np.take(i) == old_pending.take(i) by {
                    assert(np.take(i) =~= old_pending.take(i));
                }
                assert(self.manifest.gaps@.take(m) =~= old_gaps.take(m));
                assert(self.fixed_view() == fixed_intervals(
                    self.manifest.chunks@,
                    old_gaps,
                    m,
                ));
            }
        } else {
            let sum = self.dropped_total();
            let from = self.position + q as u64 + sum;
            self.manifest.gaps.push(
                Gap { from_sample: from, to_sample: from + dropped, reason: GapReason::CaptureInterrupted },
            );
            let gi = self.manifest.gaps.len() - 1;
            self.pending.push(PendingGap { queue_offset: q, dropped, gap_index: gi });
            proof {
                let np = self.pending@;
                assert(np.drop_last() == old_pending);
                assert(np.take(k as int) == old_pending);
                assert(old_pending.take(k as int) == old_pending);
                assert forall|i: int| 0 <= i < k implies np.take(i) == old_pending.take(i) by {
                    assert(np.take(i) =~= old_pending.take(i));
                }
                assert(self.manifest.gaps@.take(m) =~= old_gaps.take(m));
                assert(self.fixed() == m);
            }
        }
        self.events.push(WriterEvent::Degraded { reason, dropped_samples: dropped });
    }

    /// How many queued samples may go into the next chunk before the first pending gap.
    fn next_run(&self) -> (n: usize)
        requires
            self.inv(),
        ensures
            n == self.run(),
    {
        if self.pending.len() > 0 {
            let o = self.pending[0].queue_offset;
            if o <= self.queue.len() { o } else { self.queue.len() }
        } else {
            self.queue.len()
        }
    }

    /// When the queue has been consumed up to the first pending gap, the position jumps over it.
    #[verifier::rlimit(40)]
    fn apply_gaps_reached(&mut self)
        requires
            old(self).inv(),
        ensures
            final(self).inv(),
            final(self).total() == old(self).total(),
            final(self).queue@ == old(self).queue@,
            final(self).manifest == old(self).manifest,
            final(self).next_seq == old(self).next_seq,
            final(self).disk_full == old(self).disk_full,
            final(self).track_dir == old(self).track_dir,
            final(self).events == old(self).events,
            final(self).fs_log == old(self).fs_log,
            !old(self).drop_pending_at_front() ==> final(self).pending == old(self).pending
                && final(self).position == old(self).position,
            final(self).pending@.len() <= old(self).pending@.len(),
            final(self).pending@.len() > 0 ==> final(self).pending@[0].queue_offset > 0,
            final(self).pending@ == old(self).pending@.skip(old(self).pending@.len() - final(self).pending@.len()),
    {
        let ghost mut removed: int = 0;
        while self.pending.len() > 0 && self.pending[0].queue_offset == 0
            invariant
                0 <= removed <= old(self).pending@.len(),
                self.pending@ == old(self).pending@.skip(removed),
                self.inv(),
                self.total() == old(self).total(),
                self.queue@ == old(self).queue@,
                self.manifest == old(self).manifest,
                self.next_seq == old(self).next_seq,
                self.disk_full == old(self).disk_full,
                self.track_dir == old(self).track_dir,
                self.events == old(self).events,
                self.fs_log == old(self).fs_log,
                removed == 0 ==> self.pending == old(self).pending && self.position == old(self).position,
                removed > 0 ==> old(self).drop_pending_at_front(),
                self.pending@.len() <= old(self).pending@.len(),
            decreases self.pending@.len(),
        {
            let ghost a = *self;
            let p = self.pending[0];
            proof {
                assert(p == a.pending@[0]);
                assert(a.pending@.take(0) =~= Seq::<PendingGap>::empty());
                assert(dropped_sum(Seq::<PendingGap>::empty()) == 0);
                lemma_dropped_sum_prepend(a.pending@.drop_first(), p);
                assert(seq![p] + a.pending@.drop_first() =~= a.pending@);
                lemma_dropped_sum_prefix(a.pending@, 0);
            }
            self.position = self.position + p.dropped;
            self.pending.remove(0);
            proof {
                Self::lemma_gap_reached(a, *self);
                lemma_skip_one_more(old(self).pending@, a.pending@, self.pending@, removed);
                removed = removed + 1;
            }
        }
    }

    /// Passing over the first pending gap keeps the bookkeeping.
    #[verifier::rlimit(100)]
    #[verifier::spinoff_prover]
    proof fn lemma_gap_reached(a: ChunkWriter, b: ChunkWriter)
        requires
            a.inv(),
            a.pending@.len() > 0,
            a.pending@[0].queue_offset == 0,
            b.pending@ == a.pending@.drop_first(),
            b.position == a.position + a.pending@[0].dropped,
            b.queue@ == a.queue@,
            b.manifest == a.manifest,
        ensures
            b.inv(),
            b.total() == a.total(),
    {
        broadcast use vstd::seq_lib::group_to_multiset_ensures;

        let p = a.pending@[0];
        let m = a.fixed();
        let g = a.manifest.gaps@;
        let recs = a.manifest.chunks@;
        lemma_dropped_sum_prepend(b.pending@, p);
        assert(seq![p] + b.pending@ =~= a.pending@);
        assert(a.pending@.take(0) =~= Seq::<PendingGap>::empty());
        assert(g[m].from_sample == a.position);
        let fa = fixed_intervals(recs, g, m);
        let fb = fixed_intervals(recs, g, m + 1);
        assert(g.take(m + 1) =~= g.take(m).push(g[m]));
        assert(g.take(m + 1).map_values(|x: Gap| gap_interval(x)) =~= g.take(m).map_values(
            |x: Gap| gap_interval(x),
        ).push(gap_interval(g[m])));
        assert(fb =~= fa.push(gap_interval(g[m])));
        lemma_tiles_extend(fa, fb, gap_interval(g[m]));
        assert(b.fixed() == m + 1);
        assert forall|i: int| 0 <= i < b.pending@.len() implies b.pending@.take(i + 1).len() >= 0
            && dropped_sum(a.pending@.take(i + 1)) == p.dropped + dropped_sum(b.pending@.take(i)) by {
            lemma_dropped_sum_prepend(b.pending@.take(i), p);
            assert(seq![p] + b.pending@.take(i) =~= a.pending@.take(i + 1));
        }
        assert forall|i: int| 0 <= i < b.pending@.len() implies #[trigger] b.pending@[i] == a.pending@[i + 1] by {
        }
        assert forall|i: int, j: int| 0 <= i < j < b.pending@.len() implies (#[trigger] b.pending@[i]).queue_offset
            <= (#[trigger] b.pending@[j]).queue_offset by {
            assert(a.pending@[i + 1].queue_offset <= a.pending@[j + 1].queue_offset);
        }
    }

    /// Write one chunk of `samples` at the current position: `.part`, rename, record, save.
    #[verifier::rlimit(100)]
    #[verifier::spinoff_prover]
    fn write_chunk<F: ChunkFs + ?Sized>(&mut self, fs: &mut F, samples: &[i16]) -> (r: Result<(), FsError>)
        requires
            0 < samples@.len() <= CHUNK_SAMPLES,
            old(self).position + samples@.len() <= u64::MAX,
            old(self).next_seq < u32::MAX,
            wav::header_fits(
                old(self).manifest.origin.sample_rate,
                old(self).manifest.origin.channels,
                (2 * CHUNK_SAMPLES) as u32,
            ),
        ensures
            final(self).disk_full ==> old(self).disk_full || r == Err::<(), FsError>(FsError::DiskFull),
            final(self).queue == old(self).queue,
            final(self).pending == old(self).pending,
            final(self).track_dir == old(self).track_dir,
            final(self).manifest.gaps == old(self).manifest.gaps,
            final(self).manifest.origin == old(self).manifest.origin,
            final(self).manifest.role@ == old(self).manifest.role@,
            final(self).manifest.track == old(self).manifest.track,
            final(self).fs_log@.len() >= old(self).fs_log@.len(),
            final(self).fs_log@.take(old(self).fs_log@.len() as int) == old(self).fs_log@,
            ({
                let calls = final(self).fs_log@.skip(old(self).fs_log@.len() as int);
                let seq = old(self).next_seq;
                let dir = old(self).track_dir@;
                let record = ChunkRecord {
                    seq,
                    file: final(self).manifest.chunks@.last().file,
                    start_sample: old(self).position,
                    len_samples: samples@.len() as u64,
                };
                &&& 1 <= calls.len() <= 3
                &&& calls[0] == FsCall::WritePart {
                    path: part_path(dir, seq),
                    bytes: wav::wav_bytes(
                        old(self).manifest.origin.sample_rate,
                        old(self).manifest.origin.channels,
                        samples@,
                    ),
                    answer: fs_answer(calls[0]),
                }
                &&& calls.len() > 1 ==> calls[1] == FsCall::Rename {
                    part: part_path(dir, seq),
                    to: path_join(dir, chunk_file_name(seq)),
                    answer: fs_answer(calls[1]),
                }
                &&& calls.len() > 2 ==> calls[2] == FsCall::SaveManifest {
                    dir,
                    manifest: final(self).manifest,
                    answer: fs_answer(calls[2]),
                }
                &&& forall|i: int| 0 <= i < calls.len() - 1 ==> (#[trigger] fs_answer(calls[i])) is Ok
                &&& r == fs_answer(calls.last())
                &&& r is Ok ==> calls.len() == 3
                &&& calls.len() == 1 ==> (final(self).disk_full <==> (old(self).disk_full || r
                    == Err::<(), FsError>(FsError::DiskFull)))
                &&& calls.len() > 1 ==> !final(self).disk_full
                &&& calls.len() < 3 ==> final(self).manifest == old(self).manifest
                &&& calls.len() == 3 ==> final(self).manifest.chunks@ == old(self).manifest.chunks@.push(
                    record,
                ) && record.file@ == chunk_file_name(seq)
                &&& r is Ok ==> final(self).next_seq == seq + 1 && final(self).position
                    == old(self).position + samples@.len() && final(self).events@
                    == old(self).events@.push(
                    WriterEvent::ChunkDurable { seq, samples: samples@.len() as u64 },
                )
                &&& r is Err ==> final(self).next_seq == seq && final(self).position
                    == old(self).position && final(self).events == old(self).events
            }),
    {
        let origin = self.manifest.origin;
        let bytes = wav::encode(origin.sample_rate, origin.channels, samples);
        let seq = self.next_seq;
        let file = ChunkManifest::chunk_file(seq);
        let mut part_name = file.clone();
        append_str(&mut part_name, ".part");
        let part = join_path(self.track_dir.as_str(), part_name.as_str());
        let final_path = join_path(self.track_dir.as_str(), file.as_str());
        let start_sample = self.position;
        // durability order: part, flush, rename, manifest record, fsync; nothing is mutated
        // before the filesystem accepted the bytes, so a stall leaves every position untouched
        let ghost log0 = self.fs_log@;
        let written = fs.write_part(part.as_str(), bytes.as_slice());
        proof {
            self.fs_log@ = self.fs_log@.push(
                FsCall::WritePart { path: part@, bytes: bytes@, answer: written },
            );
            assert(self.fs_log@.take(log0.len() as int) =~= log0);
            assert(self.fs_log@.skip(log0.len() as int) =~= seq![self.fs_log@.last()]);
        }
        match written {
            Ok(()) => {
                self.disk_full = false;
            },
            Err(FsError::DiskFull) => {
                self.disk_full = true;
                return Err(FsError::DiskFull);
            },
            Err(e) => {
                return Err(e);
            },
        }
        let renamed = fs.rename_in(part.as_str(), final_path.as_str());
        proof {
            let c0 = self.fs_log@.last();
            self.fs_log@ = self.fs_log@.push(
                FsCall::Rename { part: part@, to: final_path@, answer: renamed },
            );
            assert(self.fs_log@.take(log0.len() as int) =~= log0);
            assert(self.fs_log@.skip(log0.len() as int) =~= seq![c0, self.fs_log@.last()]);
        }
        match renamed {
            Ok(()) => {},
            Err(e) => {
                return Err(e);
            },
        }
        let len = samples.len() as u64;
        self.manifest.chunks.push(ChunkRecord { seq, file, start_sample, len_samples: len });
        let saved = fs.save_manifest(self.track_dir.as_str(), &self.manifest);
        proof {
            let c0 = self.fs_log@[log0.len() as int];
            let c1 = self.fs_log@.last();
            self.fs_log@ = self.fs_log@.push(
                FsCall::SaveManifest { dir: self.track_dir@, manifest: self.manifest, answer: saved },
            );
            assert(self.fs_log@.take(log0.len() as int) =~= log0);
            assert(self.fs_log@.skip(log0.len() as int) =~= seq![c0, c1, self.fs_log@.last()]);
        }
        match saved {
            Ok(()) => {},
            Err(e) => {
                return Err(e);
            },
        }
        let ghost calls = self.fs_log@.skip(log0.len() as int);
        proof {
            assert(calls.last() == self.fs_log@.last());
            assert(fs_answer(calls.last()) == saved);
        }
        self.next_seq = self.next_seq + 1;
        self.position = start_sample + len;
        self.events.push(WriterEvent::ChunkDurable { seq, samples: len });
        assert(self.fs_log@.skip(log0.len() as int) == calls);
        saved
    }

    /// A chunk written from the front of the queue keeps the bookkeeping.
    proof fn lemma_chunk_written(a: ChunkWriter, b: ChunkWriter, n: nat)
        requires
            a.inv(),
            0 < n <= a.run(),
            b.manifest.chunks@.len() == a.manifest.chunks@.len() + 1,
            b.manifest.chunks@.drop_last() == a.manifest.chunks@,
            b.manifest.chunks@.last().start_sample == a.position,
            b.manifest.chunks@.last().len_samples == n,
            b.manifest.gaps@ == a.manifest.gaps@,
            b.manifest.origin == a.manifest.origin,
            b.position == a.position + n,
            b.queue@ == a.queue@.skip(n as int),
            b.pending@.len() == a.pending@.len(),
            forall|i: int|
                0 <= i < a.pending@.len() ==> (#[trigger] b.pending@[i]).queue_offset
                    == a.pending@[i].queue_offset - n && b.pending@[i].dropped
                    == a.pending@[i].dropped && b.pending@[i].gap_index == a.pending@[i].gap_index,
        ensures
            b.inv(),
            b.total() == a.total(),
    {
        broadcast use vstd::seq_lib::group_to_multiset_ensures;
        broadcast use vstd::seq_lib::lemma_multiset_commutative;
        broadcast use vstd::multiset::group_multiset_axioms;

        let m = a.fixed();
        let g = a.manifest.gaps@;
        let ra = a.manifest.chunks@;
        let rb = b.manifest.chunks@;
        let rec = rb.last();
        assert(rb =~= ra.push(rec));
        lemma_dropped_sum_same(a.pending@, b.pending@);
        assert forall|i: int| 0 <= i < b.pending@.len() implies dropped_sum(#[trigger] b.pending@.take(i))
            == dropped_sum(a.pending@.take(i)) by {
            lemma_dropped_sum_same(a.pending@.take(i), b.pending@.take(i));
        }
        assert forall|i: int| 0 <= i < a.pending@.len() implies (#[trigger] a.pending@[i]).queue_offset >= n by {
            if i > 0 {
                assert(a.pending@[0].queue_offset <= a.pending@[i].queue_offset);
            }
        }
        assert forall|i: int, j: int| 0 <= i < j < b.pending@.len() implies (#[trigger] b.pending@[i]).queue_offset
            <= (#[trigger] b.pending@[j]).queue_offset by {
            assert(a.pending@[i].queue_offset <= a.pending@[j].queue_offset);
        }
        assert(b.fixed() == m);
        let ci = ra.map_values(|r: ChunkRecord| record_interval(r));
        let gi = g.take(m).map_values(|x: Gap| gap_interval(x));
        let fa = fixed_intervals(ra, g, m);
        let fb = fixed_intervals(rb, g, m);
        assert(rb.map_values(|r: ChunkRecord| record_interval(r)) =~= ci.push(record_interval(rec)));
        assert((ci.push(record_interval(rec)) + gi).to_multiset() =~= ci.push(record_interval(rec)).to_multiset().add(gi.to_multiset()));
        assert((ci + gi).to_multiset() =~= ci.to_multiset().add(gi.to_multiset()));
        assert(fb.to_multiset() =~= fa.to_multiset().insert(record_interval(rec)));
        lemma_tiles_extend(fa, fb, record_interval(rec));
        assert(records_fit(rb)) by {
            assert forall|i: int| 0 <= i < rb.len() implies (#[trigger] rb[i]).start_sample + rb[i].len_samples
                <= u64::MAX by {
                if i < ra.len() {
                    assert(rb[i] == ra[i]);
                }
            }
        }
    }

    /// Write the first `n` queued samples as one chunk.
    fn write_front<F: ChunkFs + ?Sized>(&mut self, fs: &mut F, n: usize) -> (r: Result<(), FsError>)
        requires
            old(self).inv(),
            0 < n <= old(self).run(),
            n <= CHUNK_SAMPLES,
            old(self).next_seq < u32::MAX,
        ensures
            final(self).disk_full ==> old(self).disk_full || r == Err::<(), FsError>(FsError::DiskFull),
            final(self).total() == old(self).total(),
            final(self).manifest.track == old(self).manifest.track,
            final(self).manifest.origin == old(self).manifest.origin,
            final(self).manifest.role@ == old(self).manifest.role@,
            final(self).track_dir == old(self).track_dir,
            r is Ok ==> final(self).inv() && final(self).queue@ == old(self).queue@.skip(n as int)
                && final(self).next_seq == old(self).next_seq + 1 && final(self).pending@.len()
                == old(self).pending@.len(),
            r is Err ==> final(self).queue@ == old(self).queue@ && final(self).next_seq == old(
                self,
            ).next_seq && final(self).pending == old(self).pending && (final(self).inv()
                || final(self).unsaved_record()),
            final(self).fs_log@.len() >= old(self).fs_log@.len(),
            final(self).fs_log@.take(old(self).fs_log@.len() as int) == old(self).fs_log@,
            ({
                let calls = final(self).fs_log@.skip(old(self).fs_log@.len() as int);
                &&& 1 <= calls.len() <= 3
                &&& forall|i: int| 0 <= i < calls.len() ==> #[trigger] call_in_turn(
                    calls,
                    old(self).track_dir@,
                    old(self).next_seq,
                    i,
                )
                &&& forall|i: int| 0 <= i < calls.len() - 1 ==> (#[trigger] fs_answer(calls[i])) is Ok
                &&& r == fs_answer(calls.last())
                &&& r is Ok ==> calls.len() == 3
                &&& final(self).manifest.chunks@.len() == old(self).manifest.chunks@.len() + calls.len() / 3
                &&& calls.len() < 3 ==> final(self).inv() && final(self).manifest == old(self).manifest
                    && final(self).position == old(self).position && final(self).events
                    == old(self).events
                &&& (r is Err && calls.len() == 3) ==> final(self).unsaved_record()
                &&& writes_samples(calls[0], old(self).manifest.origin, old(self).queue@.take(n as int))
                &&& calls.len() == 3 ==> final(self).manifest.chunks@.drop_last() == old(self).manifest.chunks@
                    && final(self).manifest.chunks@.last().seq == old(self).next_seq
                    && final(self).manifest.chunks@.last().len_samples == n
                    && final(self).manifest.chunks@.last().start_sample == old(self).position
            }),
    {
        let mut samples: Vec<i16> = Vec::new();
        let mut i: usize = 0;
        while i < n
            invariant
                n <= self.queue@.len(),
                i <= n,
                samples@ == self.queue@.take(i as int),
            decreases n - i,
        {
            samples.push(self.queue[i]);
            assert(self.queue@.take(i + 1) == self.queue@.take(i as int).push(self.queue@[i as int]));
            i += 1;
        }
        let ghost a = *self;
        let written = self.write_chunk(fs, samples.as_slice());
        match written {
            Ok(()) => {},
            Err(e) => {
                proof {
                    if self.manifest.chunks@.len() != a.manifest.chunks@.len() {
                        assert(self.manifest.chunks@.drop_last() =~= a.manifest.chunks@);
                        assert(self.total() == a.total());
                    }
                }
                return Err(e);
            },
        }
        let ghost b = *self;
        proof {
            assert(b.manifest.chunks@.drop_last() =~= a.manifest.chunks@);
        }
        let tail = self.queue.split_off(n);
        self.queue = tail;
        let mut j: usize = 0;
        while j < self.pending.len()
            invariant
                self.pending@.len() == b.pending@.len(),
                b.pending@ == a.pending@,
                a.inv(),
                0 < n <= a.run(),
                j <= self.pending@.len(),
                forall|k: int|
                    0 <= k < j ==> (#[trigger] self.pending@[k]).queue_offset
                        == a.pending@[k].queue_offset - n && self.pending@[k].dropped
                        == a.pending@[k].dropped && self.pending@[k].gap_index
                        == a.pending@[k].gap_index,
                forall|k: int| j <= k < self.pending@.len() ==> #[trigger] self.pending@[k] == a.pending@[k],
                self.queue@ == a.queue@.skip(n as int),
                self.manifest == b.manifest,
                self.position == b.position,
                self.next_seq == b.next_seq,
                self.track_dir == b.track_dir,
                self.disk_full == b.disk_full,
                self.fs_log == b.fs_log,
                !b.disk_full,
            decreases self.pending@.len() - j,
        {
            let p = self.pending[j];
            assert(p.queue_offset >= n) by {
                if j > 0 {
                    assert(a.pending@[0].queue_offset <= a.pending@[j as int].queue_offset);
                }
            }
            self.pending.set(
                j,
                PendingGap { queue_offset: p.queue_offset - n, dropped: p.dropped, gap_index: p.gap_index },
            );
            j += 1;
        }
        proof {
            Self::lemma_chunk_written(a, *self, n as nat);
        }
        written
    }

    /// Write every complete chunk the queue holds. A stalled or full filesystem leaves samples
    /// queued. A chunk ends early at a recorded gap, so positions after the gap stay exact.
    #[verifier::rlimit(100)]
    #[verifier::spinoff_prover]
    pub fn drain<F: ChunkFs + ?Sized>(&mut self, fs: &mut F) -> (r: Result<(), FsError>)
        requires
            old(self).inv(),
            old(self).seq_next() + old(self).queued().len() <= u32::MAX,
        ensures
            final(self).full() ==> old(self).full() || r == Err::<(), FsError>(FsError::DiskFull),
            final(self).total() == old(self).total(),
            final(self).manifest_view().track == old(self).manifest_view().track,
            final(self).manifest_view().origin == old(self).manifest_view().origin,
            final(self).manifest_view().role@ == old(self).manifest_view().role@,
            final(self).dir() == old(self).dir(),
            final(self).seq_next() + final(self).queued().len() <= u32::MAX,
            r is Ok ==> final(self).inv() && final(self).queued().len() < CHUNK_SAMPLES
                && final(self).no_pending_drops(),
            r is Err ==> final(self).inv() || final(self).unsaved_record(),
            r is Err ==> final(self).queued().len() > 0,
            final(self).fs_calls().len() >= old(self).fs_calls().len(),
            final(self).fs_calls().take(old(self).fs_calls().len() as int) == old(self).fs_calls(),
            ({
                let calls = final(self).fs_calls().skip(old(self).fs_calls().len() as int);
                let recs = final(self).manifest_view().chunks@.skip(old(self).manifest_view().chunks@.len() as int);
                &&& chunk_call_order(calls, old(self).dir(), old(self).seq_next())
                &&& r is Ok ==> calls.len() % 3 == 0 && forall|i: int|
                    0 <= i < calls.len() ==> (#[trigger] fs_answer(calls[i])) is Ok
                &&& r is Err ==> calls.len() > 0 && r == fs_answer(calls.last())
                &&& final(self).manifest_view().chunks@.len() == old(self).manifest_view().chunks@.len()
                    + calls.len() / 3
                &&& r is Ok ==> final(self).seq_next() == old(self).seq_next() + calls.len() / 3
                &&& r is Err ==> final(self).seq_next() == old(self).seq_next() + (calls.len() - 1) / 3
                &&& (r is Err && !(calls.last() is SaveManifest)) ==> final(self).inv()
                &&& (r is Err && calls.last() is SaveManifest) ==> final(self).unsaved_record()
                &&& calls.len() <= 1 ==> final(self).inv()
                &&& final(self).manifest_view().chunks@.take(old(self).manifest_view().chunks@.len() as int)
                    == old(self).manifest_view().chunks@
                &&& chunks_from_queue(calls, recs, old(self).queued(), old(self).manifest_view().origin, old(self).seq_next())
                &&& (r is Err && calls.last() is SaveManifest) ==> final(self).queued() == old(self).queued().skip(
                    records_len(recs.drop_last()) as int,
                )
                &&& !(r is Err && calls.last() is SaveManifest) ==> final(self).queued() == old(self).queued().skip(
                    records_len(recs) as int,
                )
                &&& (calls.len() <= 1 && !old(self).drop_pending_at_front()) ==> {
                    &&& final(self).drop_pending_at_end() == old(self).drop_pending_at_end()
                    &&& !final(self).drop_pending_at_front()
                    &&& final(self).queued() == old(self).queued()
                    &&& final(self).pos() == old(self).pos()
                    &&& final(self).manifest_view() == old(self).manifest_view()
                    &&& final(self).seq_next() == old(self).seq_next()
                    &&& final(self).event_log() == old(self).event_log()
                }
            }),
            old(self).nothing_due() ==> {
                &&& r is Ok
                &&& final(self).no_pending_drops()
                &&& final(self).queued() == old(self).queued()
                &&& final(self).manifest_view() == old(self).manifest_view()
                &&& final(self).seq_next() == old(self).seq_next()
                &&& final(self).event_log() == old(self).event_log()
                &&& final(self).full() == old(self).full()
            },
    {
        proof {
            assert(self.fs_log@.take(self.fs_log@.len() as int) =~= self.fs_log@);
            assert(self.fs_log@.skip(self.fs_log@.len() as int) =~= Seq::<FsCall>::empty());
            assert(self.manifest.chunks@.take(self.manifest.chunks@.len() as int) =~= self.manifest.chunks@);
            assert(self.manifest.chunks@.skip(self.manifest.chunks@.len() as int) =~= Seq::<ChunkRecord>::empty());
            reveal(records_len);
            assert(records_len(Seq::<ChunkRecord>::empty()) == 0);
            assert(self.queue@.skip(0) =~= self.queue@);
            reveal(chunks_from_queue);
                }
        loop
            invariant
                self.disk_full ==> old(self).disk_full,
                old(self).nothing_due() ==> {
                    &&& self.queue@ == old(self).queue@
                    &&& self.manifest == old(self).manifest
                    &&& self.next_seq == old(self).next_seq
                    &&& self.events == old(self).events
                    &&& self.disk_full == old(self).disk_full
                    &&& self.nothing_due()
                },
                self.inv(),
                self.total() == old(self).total(),
                self.manifest.track == old(self).manifest.track,
                self.manifest.origin == old(self).manifest.origin,
                self.manifest.role@ == old(self).manifest.role@,
                self.track_dir@ == old(self).track_dir@,
                self.next_seq + self.queue@.len() <= u32::MAX,
                self.fs_log@.len() >= old(self).fs_log@.len(),
                self.fs_log@.take(old(self).fs_log@.len() as int) == old(self).fs_log@,
                chunk_call_order(
                    self.fs_log@.skip(old(self).fs_log@.len() as int),
                    old(self).track_dir@,
                    old(self).next_seq,
                ),
                self.fs_log@.skip(old(self).fs_log@.len() as int).len() % 3 == 0,
                forall|i: int|
                    0 <= i < self.fs_log@.skip(old(self).fs_log@.len() as int).len() ==> (#[trigger] fs_answer(
                        self.fs_log@.skip(old(self).fs_log@.len() as int)[i],
                    )) is Ok,
                self.manifest.chunks@.len() == old(self).manifest.chunks@.len() + self.fs_log@.skip(
                    old(self).fs_log@.len() as int,
                ).len() / 3,
                self.next_seq == old(self).next_seq + self.fs_log@.skip(old(self).fs_log@.len() as int).len()
                    / 3,
                self.wrote_since(*old(self)),
                self.queue@ == old(self).queue@.skip(
                    records_len(self.manifest.chunks@.skip(old(self).manifest.chunks@.len() as int)) as int,
                ),
                (self.fs_log@.len() == old(self).fs_log@.len() && !old(self).drop_pending_at_front()) ==> {
                    &&& self.queue@ == old(self).queue@
                    &&& self.manifest == old(self).manifest
                    &&& self.position == old(self).position
                    &&& self.pending == old(self).pending
                    &&& self.next_seq == old(self).next_seq
                    &&& self.events == old(self).events
                },
            decreases self.queue@.len() + self.pending@.len(),
        {
            let ghost before = *self;
            self.apply_gaps_reached();
            let run = self.next_run();
            let at_gap = self.pending.len() > 0 && self.pending[0].queue_offset == run;
            proof {
                if old(self).nothing_due() && self.pending@.len() > 0 {
                    let k = before.pending@.len() - self.pending@.len();
                    assert(self.pending@[0] == before.pending@[k]);
                }
            }
            if run == 0 || (run < CHUNK_SAMPLES && !at_gap) {
                proof {
                    if self.pending@.len() > 0 {
                        assert(self.pending@[0].queue_offset <= self.queue@.len());
                    }
                    let recs = self.manifest.chunks@.skip(old(self).manifest.chunks@.len() as int);
                    let calls = self.fs_log@.skip(old(self).fs_log@.len() as int);
                    assert(chunks_from_queue(calls, recs, old(self).queue@, old(self).manifest.origin, old(self).next_seq));
                    assert(self.queue@ == old(self).queue@.skip(records_len(recs) as int));
                }
                return Ok(());
            }
            let n = if run < CHUNK_SAMPLES { run } else { CHUNK_SAMPLES };
            let ghost mid = self.fs_log@;
            let ghost a = *self;
            let written = self.write_front(fs, n);
            proof {
                Self::lemma_log_step(old(self).fs_log@, mid, self.fs_log@, old(self).track_dir@, old(self).next_seq);
                lemma_since_step(
                    old(self).fs_log@,
                    a.fs_log@,
                    self.fs_log@,
                    old(self).manifest.chunks@,
                    a.manifest.chunks@,
                    self.manifest.chunks@,
                    old(self).queue@,
                    a.queue@,
                    self.queue@,
                    old(self).manifest.origin,
                    old(self).next_seq,
                    n as nat,
                    written is Ok,
                );
            }
            if written.is_err() {
                proof {
                    let b = self.fs_log@.skip(mid.len() as int);
                    let calls = self.fs_log@.skip(old(self).fs_log@.len() as int);
                    assert(calls.last() == b.last());
                    assert(call_in_turn(b, old(self).track_dir@, (old(self).next_seq + mid.skip(old(self).fs_log@.len() as int).len() / 3) as u32, b.len() - 1));
                    let recs = self.manifest.chunks@.skip(old(self).manifest.chunks@.len() as int);
                    assert(chunks_from_queue(calls, recs, old(self).queue@, old(self).manifest.origin, old(self).next_seq));
                    if b.len() == 3 {
                        assert(calls.last() is SaveManifest);
                        assert(self.queue@ == old(self).queue@.skip(records_len(recs.drop_last()) as int));
                    } else {
                        assert(!(calls.last() is SaveManifest));
                        assert(self.queue@ == old(self).queue@.skip(records_len(recs) as int));
                    }
                }
                return written;
            }
        }
    }

    /// The calls of one more chunk write, appended to a log of whole chunk writes answered `Ok`,
    /// keep the calls since `start` in turn.
    proof fn lemma_log_step(start: Seq<FsCall>, mid: Seq<FsCall>, after: Seq<FsCall>, dir: Seq<char>, first: u32)
        requires
            mid.len() >= start.len(),
            mid.take(start.len() as int) == start,
            chunk_call_order(mid.skip(start.len() as int), dir, first),
            mid.skip(start.len() as int).len() % 3 == 0,
            forall|i: int|
                0 <= i < mid.skip(start.len() as int).len() ==> (#[trigger] fs_answer(mid.skip(start.len() as int)[i])) is Ok,
            first + mid.skip(start.len() as int).len() / 3 <= u32::MAX,
            after.len() >= mid.len(),
            after.take(mid.len() as int) == mid,
            after.skip(mid.len() as int).len() <= 3,
            forall|j: int|
                0 <= j < after.skip(mid.len() as int).len() ==> #[trigger] call_in_turn(
                    after.skip(mid.len() as int),
                    dir,
                    (first + mid.skip(start.len() as int).len() / 3) as u32,
                    j,
                ),
            forall|j: int|
                0 <= j < after.skip(mid.len() as int).len() - 1 ==> (#[trigger] fs_answer(after.skip(mid.len() as int)[j])) is Ok,
        ensures
            after.len() >= start.len(),
            after.take(start.len() as int) == start,
            after.skip(start.len() as int) == mid.skip(start.len() as int) + after.skip(mid.len() as int),
            chunk_call_order(after.skip(start.len() as int), dir, first),
    {
        let a = mid.skip(start.len() as int);
        let b = after.skip(mid.len() as int);
        assert(after.take(start.len() as int) =~= start);
        assert(after.skip(start.len() as int) =~= a + b);
        lemma_calls_chain(a, b, dir, first);
    }

    /// Flush whatever remains at session end.
    #[verifier::rlimit(100)]
    #[verifier::spinoff_prover]
    pub fn finish<F: ChunkFs + ?Sized>(&mut self, fs: &mut F) -> (r: Result<(), FsError>)
        requires
            old(self).inv(),
            old(self).seq_next() + old(self).queued().len() <= u32::MAX,
        ensures
            final(self).full() ==> old(self).full() || r == Err::<(), FsError>(FsError::DiskFull),
            final(self).total() == old(self).total(),
            final(self).manifest_view().track == old(self).manifest_view().track,
            final(self).manifest_view().origin == old(self).manifest_view().origin,
            final(self).manifest_view().role@ == old(self).manifest_view().role@,
            final(self).dir() == old(self).dir(),
            final(self).seq_next() + final(self).queued().len() <= u32::MAX,
            r is Ok ==> final(self).inv() && final(self).settled(),
            r is Ok ==> final(self).pos() == old(self).total() && final(self).manifest_tiles_to(
                old(self).total(),
            ),
            r is Err ==> final(self).inv() || final(self).unsaved_record(),
            r is Err ==> final(self).queued().len() > 0,
            final(self).fs_calls().len() >= old(self).fs_calls().len(),
            final(self).fs_calls().take(old(self).fs_calls().len() as int) == old(self).fs_calls(),
            ({
                let calls = final(self).fs_calls().skip(old(self).fs_calls().len() as int);
                let recs = final(self).manifest_view().chunks@.skip(old(self).manifest_view().chunks@.len() as int);
                &&& chunk_call_order(calls, old(self).dir(), old(self).seq_next())
                &&& r is Ok ==> calls.len() % 3 == 0 && forall|i: int|
                    0 <= i < calls.len() ==> (#[trigger] fs_answer(calls[i])) is Ok
                &&& r is Err ==> calls.len() > 0 && r == fs_answer(calls.last())
                &&& final(self).manifest_view().chunks@.len() == old(self).manifest_view().chunks@.len()
                    + calls.len() / 3
                &&& final(self).manifest_view().chunks@.take(old(self).manifest_view().chunks@.len() as int)
                    == old(self).manifest_view().chunks@
                &&& chunks_from_queue(calls, recs, old(self).queued(), old(self).manifest_view().origin, old(self).seq_next())
                &&& (r is Err && calls.last() is SaveManifest) ==> final(self).queued() == old(self).queued().skip(
                    records_len(recs.drop_last()) as int,
                )
                &&& !(r is Err && calls.last() is SaveManifest) ==> final(self).queued() == old(self).queued().skip(
                    records_len(recs) as int,
                )
                &&& r is Ok ==> records_len(recs) == old(self).queued().len()
            }),
            old(self).queued().len() == 0 ==> {
                &&& r is Ok
                &&& final(self).settled()
                &&& final(self).manifest_view() == old(self).manifest_view()
                &&& final(self).seq_next() == old(self).seq_next()
                &&& final(self).event_log() == old(self).event_log()
                &&& final(self).full() == old(self).full()
            },
    {
        proof {
            if self.queue@.len() == 0 {
                assert forall|i: int| 0 <= i < self.pending@.len() implies (#[trigger] self.pending@[i]).queue_offset
                    == 0 by {
                    assert(self.pending@[i].queue_offset <= self.queue@.len());
                }
                assert(self.nothing_due());
            }
        }
        let drained = self.drain(fs);
        if drained.is_err() {
            return drained;
        }
        loop
            invariant
                self.wrote_since(*old(self)),
                self.queue@ == old(self).queue@.skip(
                    records_len(self.manifest.chunks@.skip(old(self).manifest.chunks@.len() as int)) as int,
                ),
                self.fs_log@.len() >= old(self).fs_log@.len(),
                self.fs_log@.take(old(self).fs_log@.len() as int) == old(self).fs_log@,
                chunk_call_order(
                    self.fs_log@.skip(old(self).fs_log@.len() as int),
                    old(self).track_dir@,
                    old(self).next_seq,
                ),
                self.fs_log@.skip(old(self).fs_log@.len() as int).len() % 3 == 0,
                forall|i: int|
                    0 <= i < self.fs_log@.skip(old(self).fs_log@.len() as int).len() ==> (#[trigger] fs_answer(
                        self.fs_log@.skip(old(self).fs_log@.len() as int)[i],
                    )) is Ok,
                self.manifest.chunks@.len() == old(self).manifest.chunks@.len() + self.fs_log@.skip(
                    old(self).fs_log@.len() as int,
                ).len() / 3,
                self.next_seq == old(self).next_seq + self.fs_log@.skip(old(self).fs_log@.len() as int).len()
                    / 3,
                self.disk_full ==> old(self).disk_full,
                old(self).queued().len() == 0 ==> {
                    &&& self.queue@.len() == 0
                    &&& self.pending@.len() == 0
                    &&& self.manifest == old(self).manifest
                    &&& self.next_seq == old(self).next_seq
                    &&& self.events@ == old(self).events@
                    &&& self.disk_full == old(self).disk_full
                },
                self.inv(),
                self.total() == old(self).total(),
                self.manifest.track == old(self).manifest.track,
                self.manifest.origin == old(self).manifest.origin,
                self.manifest.role@ == old(self).manifest.role@,
                self.track_dir@ == old(self).track_dir@,
                self.next_seq + self.queue@.len() <= u32::MAX,
            ensures
                self.disk_full ==> old(self).disk_full,
                old(self).queued().len() == 0 ==> {
                    &&& self.queue@.len() == 0
                    &&& self.pending@.len() == 0
                    &&& self.manifest == old(self).manifest
                    &&& self.next_seq == old(self).next_seq
                    &&& self.events@ == old(self).events@
                    &&& self.disk_full == old(self).disk_full
                },
                self.inv(),
                self.settled(),
                self.total() == old(self).total(),
                self.manifest.track == old(self).manifest.track,
                self.manifest.origin == old(self).manifest.origin,
                self.manifest.role@ == old(self).manifest.role@,
                self.track_dir@ == old(self).track_dir@,
                self.next_seq + self.queue@.len() <= u32::MAX,
                self.wrote_since(*old(self)),
                self.queue@ == old(self).queue@.skip(
                    records_len(self.manifest.chunks@.skip(old(self).manifest.chunks@.len() as int)) as int,
                ),
                self.fs_log@.len() >= old(self).fs_log@.len(),
                self.fs_log@.take(old(self).fs_log@.len() as int) == old(self).fs_log@,
                chunk_call_order(
                    self.fs_log@.skip(old(self).fs_log@.len() as int),
                    old(self).track_dir@,
                    old(self).next_seq,
                ),
                self.fs_log@.skip(old(self).fs_log@.len() as int).len() % 3 == 0,
                forall|i: int|
                    0 <= i < self.fs_log@.skip(old(self).fs_log@.len() as int).len() ==> (#[trigger] fs_answer(
                        self.fs_log@.skip(old(self).fs_log@.len() as int)[i],
                    )) is Ok,
                self.manifest.chunks@.len() == old(self).manifest.chunks@.len() + self.fs_log@.skip(
                    old(self).fs_log@.len() as int,
                ).len() / 3,
            decreases self.queue@.len() + self.pending@.len(),
        {
            self.apply_gaps_reached();
            let run = self.next_run();
            if run == 0 {
                proof {
                    if self.pending@.len() > 0 {
                        assert(self.pending@[0].queue_offset <= self.queue@.len());
                    }
                }
                break;
            }
            let n = if run < CHUNK_SAMPLES { run } else { CHUNK_SAMPLES };
            let ghost mid = self.fs_log@;
            let ghost a = *self;
            let written = self.write_front(fs, n);
            proof {
                Self::lemma_log_step(old(self).fs_log@, mid, self.fs_log@, old(self).track_dir@, old(self).next_seq);
                lemma_since_step(
                    old(self).fs_log@,
                    a.fs_log@,
                    self.fs_log@,
                    old(self).manifest.chunks@,
                    a.manifest.chunks@,
                    self.manifest.chunks@,
                    old(self).queue@,
                    a.queue@,
                    self.queue@,
                    old(self).manifest.origin,
                    old(self).next_seq,
                    n as nat,
                    written is Ok,
                );
            }
            if written.is_err() {
                proof {
                    let b = self.fs_log@.skip(mid.len() as int);
                    let calls = self.fs_log@.skip(old(self).fs_log@.len() as int);
                    assert(calls.last() == b.last());
                    assert(call_in_turn(b, old(self).track_dir@, (old(self).next_seq + mid.skip(old(self).fs_log@.len() as int).len() / 3) as u32, b.len() - 1));
                    let recs = self.manifest.chunks@.skip(old(self).manifest.chunks@.len() as int);
                    assert(chunks_from_queue(calls, recs, old(self).queue@, old(self).manifest.origin, old(self).next_seq));
                    if b.len() == 3 {
                        assert(calls.last() is SaveManifest);
                        assert(self.queue@ == old(self).queue@.skip(records_len(recs.drop_last()) as int));
                    } else {
                        assert(!(calls.last() is SaveManifest));
                        assert(self.queue@ == old(self).queue@.skip(records_len(recs) as int));
                    }
                }
                return written;
            }
        }
        proof {
            law_settled_writer_tiles(*self);
            let recs = self.manifest.chunks@.skip(old(self).manifest.chunks@.len() as int);
            let calls = self.fs_log@.skip(old(self).fs_log@.len() as int);
            assert(chunks_from_queue(calls, recs, old(self).queue@, old(self).manifest.origin, old(self).next_seq));
            reveal(chunks_from_queue);
            assert(self.queue@ == old(self).queue@.skip(records_len(recs) as int));
            assert(records_len(recs) == old(self).queue@.len());
        }
        Ok(())
    }

    /// A writer over a manifest as loaded (or newly created) for `track_dir`: it resumes after
    /// the last covered sample with the next free sequence number.
    pub fn resume(track_dir: &str, manifest: ChunkManifest) -> (w: ChunkWriter)
        requires
            records_fit(manifest.chunks@),
            records_max_seq(manifest.chunks@) matches Some(s) ==> s < u32::MAX,
        ensures
            w.manifest_view() == manifest,
            w.dir() == track_dir@,
            w.queued().len() == 0,
            w.settled(),
            w.event_log().len() == 0,
            w.fs_calls().len() == 0,
            !w.full(),
            w.seq_next() == match records_max_seq(manifest.chunks@) {
                Some(s) => s + 1,
                None => 0,
            },
            w.pos() == manifest_end(manifest),
            w.total() == manifest_end(manifest),
            manifest.chunks@.len() == 0 && manifest.gaps@.len() == 0 && wav::header_fits(
                manifest.origin.sample_rate,
                manifest.origin.channels,
                (2 * CHUNK_SAMPLES) as u32,
            ) ==> w.inv(),
    {
        let next_seq = match manifest.max_seq() {
            Some(s) => s + 1,
            None => 0,
        };
        let position = manifest.end_sample();
        let w = ChunkWriter {
            track_dir: track_dir.to_owned(),
            manifest,
            queue: Vec::new(),
            position,
            next_seq,
            events: Vec::new(),
            pending: Vec::new(),
            disk_full: false,
            fs_log: Ghost(Seq::empty()),
        };
        proof {
            if w.manifest.chunks@.len() == 0 && w.manifest.gaps@.len() == 0 {
                lemma_empty_fixed(w.manifest.chunks@, w.manifest.gaps@);
                assert(dropped_sum(w.pending@) == 0);
            }
        }
        w
    }

    /// A device format or endpoint change: finish this track and open its successor (a new
    /// track identifier, directory, origin and sample space starting at 0) so old positions are
    /// never reinterpreted at the new rate and every origin has exactly one track. The successor
    /// directory is `tracks_root/<successor>`, named by the fresh identifier.
    pub fn open_successor<F: ChunkFs + ?Sized>(
        &mut self,
        fs: &mut F,
        tracks_root: &str,
        successor: TrackId,
        origin: TrackOrigin,
        now_ms: u64,
    ) -> (r: Result<ChunkWriter, FsError>)
        requires
            old(self).inv(),
            old(self).seq_next() + old(self).queued().len() <= u32::MAX,
            wav::header_fits(origin.sample_rate, origin.channels, (2 * CHUNK_SAMPLES) as u32),
        ensures
            final(self).total() == old(self).total(),
            final(self).manifest_view().track == old(self).manifest_view().track,
            final(self).fs_calls().len() >= old(self).fs_calls().len(),
            final(self).fs_calls().take(old(self).fs_calls().len() as int) == old(self).fs_calls(),
            ({
                let calls = final(self).fs_calls().skip(old(self).fs_calls().len() as int);
                let m = 3 * (final(self).manifest_view().chunks@.len() - old(self).manifest_view().chunks@.len());
                &&& !final(self).settled() ==> {
                    &&& r is Err
                    &&& calls.len() > 0
                    &&& chunk_call_order(calls, old(self).dir(), old(self).seq_next())
                    &&& r matches Err(e) && fs_answer(calls.last()) == Err::<(), FsError>(e)
                }
                &&& final(self).settled() ==> {
                    &&& 0 <= m < calls.len()
                    &&& chunk_call_order(calls.take(m), old(self).dir(), old(self).seq_next())
                    &&& forall|i: int| 0 <= i < m ==> (#[trigger] fs_answer(calls[i])) is Ok
                    &&& final(self).manifest_view().successor == Some(successor)
                    &&& successor_calls(
                        calls.skip(m),
                        old(self).dir(),
                        final(self).manifest_view(),
                        path_join(tracks_root@, uuid_text(successor.0)),
                        successor,
                        old(self).manifest_view().track,
                        origin,
                    )
                    &&& r matches Err(e) ==> fs_answer(calls.last()) == Err::<(), FsError>(e)
                    &&& r is Ok ==> calls.len() == m + 3 && fs_answer(calls.last()) is Ok
                    &&& r matches Ok(next) ==> (calls.last() matches FsCall::SaveManifest { manifest, .. }
                        && next.manifest_view() == manifest)
                }
            }),
            r is Ok ==> final(self).settled() && final(self).manifest_view().successor == Some(
                successor,
            ),
            r is Ok ==> {
                let e = final(self).manifest_view().events@.last();
                &&& final(self).manifest_view().events@.len() > 0
                &&& e.kind == ManifestEventKind::SuccessorOpened
                &&& e.at_ms == now_ms
                &&& e.seq is None
                &&& e.file matches Some(f) && f@ == uuid_text(successor.0)
                &&& e.samples == Some(final(self).pos())
                &&& final(self).event_log().len() > 0
                &&& final(self).event_log().last() == (WriterEvent::SuccessorOpened { successor })
            },
            r matches Ok(next) ==> next.inv() && next.settled() && next.total() == 0
                && next.manifest_view().track == successor && next.manifest_view().origin == origin
                && next.manifest_view().predecessor == Some(old(self).manifest_view().track)
                && next.manifest_view().role@ == old(self).manifest_view().role@
                && next.dir() == path_join(tracks_root@, uuid_text(successor.0))
                && next.seq_next() == 0,
    {
        let ghost log0 = self.fs_log@;
        let finished = self.finish(fs);
        if let Err(e) = finished {
            proof {
                assert(self.queue@.len() > 0);
            }
            return Err(e);
        }
        let ghost mid = self.fs_log@;
        let ghost fin = mid.skip(log0.len() as int);
        self.manifest.successor = Some(successor);
        self.manifest.events.push(
            ManifestEvent {
                kind: ManifestEventKind::SuccessorOpened,
                at_ms: now_ms,
                seq: None,
                file: Some(successor.to_string()),
                samples: Some(self.position),
            },
        );
        let saved = fs.save_manifest(self.track_dir.as_str(), &self.manifest);
        proof {
            self.fs_log@ = self.fs_log@.push(
                FsCall::SaveManifest { dir: self.track_dir@, manifest: self.manifest, answer: saved },
            );
        }
        let ghost closing = self.manifest;
        proof {
            assert(self.fs_log@.skip(log0.len() as int) =~= fin + seq![self.fs_log@.last()]);
        }
        if let Err(e) = saved {
            proof {
                let calls = self.fs_log@.skip(log0.len() as int);
                assert(calls.take(fin.len() as int) =~= fin);
                assert(calls.skip(fin.len() as int) =~= seq![self.fs_log@.last()]);
            }
            return Err(e);
        }
        self.events.push(WriterEvent::SuccessorOpened { successor });
        let dir = join_path(tracks_root, successor.to_string().as_str());
        let mut fresh = ChunkManifest::new(successor, self.manifest.role.as_str(), origin);
        let saved = fs.save_manifest(dir.as_str(), &fresh);
        let ghost first_save = self.fs_log@.last();
        proof {
            self.fs_log@ = self.fs_log@.push(
                FsCall::SaveManifest { dir: dir@, manifest: fresh, answer: saved },
            );
            assert(self.fs_log@.skip(log0.len() as int) =~= fin + seq![first_save, self.fs_log@.last()]);
        }
        let ghost fresh_view = fresh;
        if let Err(e) = saved {
            proof {
                let calls = self.fs_log@.skip(log0.len() as int);
                assert(calls.take(fin.len() as int) =~= fin);
                assert(calls.skip(fin.len() as int) =~= seq![first_save, self.fs_log@.last()]);
            }
            return Err(e);
        }
        fresh.predecessor = Some(self.manifest.track);
        let next = ChunkWriter::resume(dir.as_str(), fresh);
        let saved = fs.save_manifest(next.track_dir.as_str(), &next.manifest);
        let ghost second_save = self.fs_log@.last();
        proof {
            self.fs_log@ = self.fs_log@.push(
                FsCall::SaveManifest { dir: next.track_dir@, manifest: next.manifest, answer: saved },
            );
            let calls = self.fs_log@.skip(log0.len() as int);
            assert(calls =~= fin + seq![first_save, second_save, self.fs_log@.last()]);
            assert(calls.take(fin.len() as int) =~= fin);
            assert(calls.skip(fin.len() as int) =~= seq![first_save, second_save, self.fs_log@.last()]);
        }
        if let Err(e) = saved {
            return Err(e);
        }
        Ok(next)
    }
}

/// Since the log `log0` and the records `chunks0`, the records added came in turn from the front
/// of `queue0`, each written by its own `.part` call.
spec fn chunks_since(
    log0: Seq<FsCall>,
    log: Seq<FsCall>,
    chunks0: Seq<ChunkRecord>,
    chunks: Seq<ChunkRecord>,
    queue0: Seq<i16>,
    origin: TrackOrigin,
    first: u32,
) -> bool {
    &&& chunks.len() >= chunks0.len()
    &&& chunks.take(chunks0.len() as int) == chunks0
    &&& log.len() >= log0.len()
    &&& chunks_from_queue(log.skip(log0.len() as int), chunks.skip(chunks0.len() as int), queue0, origin, first)
}

/// One more chunk write from the front of the queue (`n` samples; `ok` when it completed) keeps
/// the chunks since the start coming in turn from the start's queue, with what stays queued behind
/// them.
#[verifier::rlimit(100)]
#[verifier::spinoff_prover]
proof fn lemma_since_step(
    log0: Seq<FsCall>,
    la: Seq<FsCall>,
    lb: Seq<FsCall>,
    chunks0: Seq<ChunkRecord>,
    ca: Seq<ChunkRecord>,
    cb: Seq<ChunkRecord>,
    queue0: Seq<i16>,
    qa: Seq<i16>,
    qb: Seq<i16>,
    origin: TrackOrigin,
    first: u32,
    n: nat,
    ok: bool,
)
    requires
        chunks_since(log0, la, chunks0, ca, queue0, origin, first),
        qa == queue0.skip(records_len(ca.skip(chunks0.len() as int)) as int),
        la.skip(log0.len() as int).len() == 3 * ca.skip(chunks0.len() as int).len(),
        n <= qa.len(),
        lb.len() >= la.len(),
        lb.take(la.len() as int) == la,
        1 <= lb.skip(la.len() as int).len() <= 3,
        writes_samples(lb.skip(la.len() as int)[0], origin, qa.take(n as int)),
        lb.skip(la.len() as int).len() < 3 ==> cb == ca,
        lb.skip(la.len() as int).len() == 3 ==> cb.len() > 0 && cb.drop_last() == ca && cb.last().seq == first
            + ca.skip(chunks0.len() as int).len() && cb.last().len_samples == n,
        ok ==> lb.skip(la.len() as int).len() == 3 && qb == qa.skip(n as int),
        !ok ==> qb == qa,
    ensures
        chunks_since(log0, lb, chunks0, cb, queue0, origin, first),
        ({
            let recs = cb.skip(chunks0.len() as int);
            let three = lb.skip(la.len() as int).len() == 3;
            &&& (ok || !three) ==> qb == queue0.skip(records_len(recs) as int)
            &&& (!ok && three) ==> recs.len() > 0 && qb == queue0.skip(records_len(recs.drop_last()) as int)
        }),
{
    reveal(chunks_from_queue);
    let l0 = chunks0.len() as int;
    let g0 = log0.len() as int;
    let calls = la.skip(g0);
    let bb = lb.skip(la.len() as int);
    let ra = ca.skip(l0);
    let rb = cb.skip(l0);
    assert(lb.skip(g0) =~= calls + bb);
    assert(qa.take(n as int) =~= queue0.skip(records_len(ra) as int).take(n as int));
    if bb.len() == 3 {
        assert(rb.len() == ra.len() + 1);
        assert(rb.drop_last() =~= ra);
        assert(rb.last() == cb.last());
        assert(cb.take(l0) =~= ca.take(l0));
    } else {
        assert(rb == ra);
    }
    lemma_chunks_step(calls, bb, ra, rb, queue0, origin, first, n);
    if ok {
        assert(qb =~= queue0.skip((records_len(ra) + n) as int));
    }
}

/// One more chunk write from the front of what is still queued keeps the chunks written in
/// turn from the queue.
proof fn lemma_chunks_step(
    calls: Seq<FsCall>,
    b: Seq<FsCall>,
    recs: Seq<ChunkRecord>,
    after: Seq<ChunkRecord>,
    queue: Seq<i16>,
    origin: TrackOrigin,
    first: u32,
    n: nat,
)
    requires
        chunks_from_queue(calls, recs, queue, origin, first),
        calls.len() == 3 * recs.len(),
        1 <= b.len() <= 3,
        records_len(recs) + n <= queue.len(),
        writes_samples(b[0], origin, queue.skip(records_len(recs) as int).take(n as int)),
        b.len() < 3 ==> after == recs,
        b.len() == 3 ==> after.len() == recs.len() + 1 && after.drop_last() == recs && after.last().len_samples
            == n && after.last().seq == first + recs.len(),
    ensures
        chunks_from_queue(calls + b, after, queue, origin, first),
        b.len() == 3 ==> records_len(after) == records_len(recs) + n,
{
    reveal(chunks_from_queue);
    reveal(records_len);
    let c = calls + b;
    if b.len() == 3 {
        assert(after =~= recs.push(after.last()));
        assert forall|k: int| 0 <= k < after.len() implies (#[trigger] after[k]).seq == first + k && writes_samples(
            c[3 * k],
            origin,
            queue.subrange(records_len(after.take(k)) as int, records_len(after.take(k + 1)) as int),
        ) by {
            if k < recs.len() {
                assert(after[k] == recs[k]);
                assert(after.take(k) =~= recs.take(k));
                assert(after.take(k + 1) =~= recs.take(k + 1));
                assert(c[3 * k] == calls[3 * k]);
            } else {
                assert(after.take(k) =~= recs);
                assert(after.take(k + 1) =~= after);
                assert(after.take(k + 1).drop_last() =~= recs);
                assert(c[3 * k] == b[0]);
                assert(queue.skip(records_len(recs) as int).take(n as int) =~= queue.subrange(
                    records_len(recs) as int,
                    (records_len(recs) + n) as int,
                ));
            }
        }
    } else {
        assert forall|k: int| 0 <= k < after.len() implies (#[trigger] after[k]).seq == first + k && writes_samples(
            c[3 * k],
            origin,
            queue.subrange(records_len(after.take(k)) as int, records_len(after.take(k + 1)) as int),
        ) by {
            assert(after[k] == recs[k]);
            assert(c[3 * k] == calls[3 * k]);
        }
    }
}

/// Chunk writes in turn, all answered `Ok`, followed by the calls of one more chunk write are
/// chunk writes in turn.
proof fn lemma_calls_chain(a: Seq<FsCall>, b: Seq<FsCall>, dir: Seq<char>, first: u32)
    requires
        chunk_call_order(a, dir, first),
        a.len() % 3 == 0,
        forall|i: int| 0 <= i < a.len() ==> (#[trigger] fs_answer(a[i])) is Ok,
        first + a.len() / 3 <= u32::MAX,
        b.len() <= 3,
        forall|j: int| 0 <= j < b.len() ==> #[trigger] call_in_turn(b, dir, (first + a.len() / 3) as u32, j),
        forall|j: int| 0 <= j < b.len() - 1 ==> (#[trigger] fs_answer(b[j])) is Ok,
    ensures
        chunk_call_order(a + b, dir, first),
{
    let c = a + b;
    let k = a.len() / 3;
    assert forall|i: int| 0 <= i < c.len() implies #[trigger] call_in_turn(c, dir, first, i) by {
        if i < a.len() {
            assert(c[i] == a[i]);
            assert(call_in_turn(a, dir, first, i));
        } else {
            let j = i - a.len();
            assert(c[i] == b[j]);
            assert(call_in_turn(b, dir, (first + k) as u32, j));
            assert(i / 3 == k && i % 3 == j && j / 3 == 0 && j % 3 == j);
        }
    }
    assert forall|i: int| 0 <= i < c.len() - 1 implies (#[trigger] fs_answer(c[i])) is Ok by {
        if i < a.len() {
            assert(c[i] == a[i]);
        } else {
            assert(c[i] == b[i - a.len()]);
        }
    }
}

/// A manifest as a new track starts it: for `track`, with `role` and `origin`, and no records,
/// gaps, events or links.
pub open spec fn fresh_manifest(m: ChunkManifest, track: TrackId, role: Seq<char>, origin: TrackOrigin) -> bool {
    &&& m.schema_version == crate::chunk_manifest::MANIFEST_SCHEMA_VERSION
    &&& m.track == track
    &&& m.role@ == role
    &&& m.origin == origin
    &&& m.predecessor is None
    &&& m.successor is None
    &&& m.chunks@.len() == 0
    &&& m.gaps@.len() == 0
    &&& m.events@.len() == 0
    &&& m.consolidated_file is None
}

/// The calls that open a successor track, as far as they went: the finished track's manifest
/// `closing` saved in its own directory `dir`, then in `next_dir` a fresh manifest for
/// `successor`, then that manifest linked back to `track`; each after the one before it was
/// answered `Ok`.
pub open spec fn successor_calls(
    saves: Seq<FsCall>,
    dir: Seq<char>,
    closing: ChunkManifest,
    next_dir: Seq<char>,
    successor: TrackId,
    track: TrackId,
    origin: TrackOrigin,
) -> bool {
    &&& 1 <= saves.len() <= 3
    &&& forall|i: int| 0 <= i < saves.len() - 1 ==> (#[trigger] fs_answer(saves[i])) is Ok
    &&& saves[0] matches FsCall::SaveManifest { dir: d, manifest, .. } && d == dir && manifest == closing
    &&& saves.len() > 1 ==> (saves[1] matches FsCall::SaveManifest { dir: d, manifest, .. } && d == next_dir
        && fresh_manifest(manifest, successor, closing.role@, origin))
    &&& saves.len() > 2 ==> (saves[2] matches FsCall::SaveManifest { dir: d, manifest, .. } && d == next_dir
        && (saves[1] matches FsCall::SaveManifest { manifest: fresh, .. } && manifest == (ChunkManifest {
        predecessor: Some(track),
        ..fresh
    })))
}

/// One past the last sample a manifest covers.
pub open spec fn manifest_end(m: ChunkManifest) -> nat {
    let c = crate::chunk_manifest::records_end(m.chunks@);
    let g = crate::timeline::gaps_end(m.gaps@);
    if c >= g { c } else { g }
}

proof fn lemma_empty_fixed(records: Seq<ChunkRecord>, gaps: Seq<Gap>)
    requires
        records.len() == 0,
        gaps.len() == 0,
    ensures
        tiles(fixed_intervals(records, gaps, 0)),
        chain_end(sorted_spans(fixed_intervals(records, gaps, 0)), 0) == 0,
{
    broadcast use vstd::seq_lib::group_to_multiset_ensures;

    let f = fixed_intervals(records, gaps, 0);
    assert(f =~= Seq::<(u64, u64)>::empty());
    crate::intervals::lemma_span_leq_total();
    f.lemma_sort_by_ensures(crate::intervals::span_order());
    assert(sorted_spans(f).len() == sorted_spans(f).to_multiset().len());
}

/// Once nothing waits in the queue and no drop is pending, the records and gaps of the
/// manifest tile exactly `[0, total)`: every sample ever pushed was either written to a chunk
/// or recorded as missing, at the position it arrived at, and no position holds two.
pub proof fn law_settled_writer_tiles(w: ChunkWriter)
    requires
        w.inv(),
        w.settled(),
    ensures
        w.manifest_tiles_to(w.total()),
{
    assert(w.fixed() == w.manifest.gaps@.len());
    assert(w.manifest.gaps@.take(w.fixed()) == w.manifest.gaps@);
    assert(fixed_intervals(w.manifest.chunks@, w.manifest.gaps@, w.fixed()) == manifest_intervals(
        w.manifest,
    ));
    assert(dropped_sum(w.pending@) == 0);
}

/// Pending gaps with the same drops drop the same total.
proof fn lemma_dropped_sum_same(s: Seq<PendingGap>, t: Seq<PendingGap>)
    requires
        s.len() == t.len(),
        forall|i: int| 0 <= i < s.len() ==> (#[trigger] s[i]).dropped == t[i].dropped,
    ensures
        dropped_sum(s) == dropped_sum(t),
    decreases s.len(),
{
    if s.len() > 0 {
        lemma_dropped_sum_same(s.drop_last(), t.drop_last());
    }
}

/// Dropping a gap in front adds its samples.
proof fn lemma_dropped_sum_prepend(s: Seq<PendingGap>, x: PendingGap)
    ensures
        dropped_sum(seq![x] + s) == x.dropped + dropped_sum(s),
    decreases s.len(),
{
    let t = seq![x] + s;
    if s.len() == 0 {
        assert(t =~= seq![x]);
        assert(t.drop_last() =~= Seq::<PendingGap>::empty());
        assert(t.last() == x);
        assert(dropped_sum(t) == dropped_sum(t.drop_last()) + t.last().dropped as nat);
    } else {
        lemma_dropped_sum_prepend(s.drop_last(), x);
        assert(t.drop_last() =~= seq![x] + s.drop_last());
        assert(t.last() == s.last());
        assert(t.len() > 0);
        assert(dropped_sum(t) == dropped_sum(t.drop_last()) + t.last().dropped as nat);
        assert(dropped_sum(s) == dropped_sum(s.drop_last()) + s.last().dropped as nat);
    }
}

/// A prefix drops no more than the whole.
proof fn lemma_dropped_sum_prefix(p: Seq<PendingGap>, i: int)
    requires
        0 <= i <= p.len(),
    ensures
        dropped_sum(p.take(i)) <= dropped_sum(p),
    decreases p.len() - i,
{
    if i < p.len() {
        lemma_dropped_sum_prefix(p, i + 1);
        assert(p.take(i + 1).drop_last() == p.take(i));
    } else {
        assert(p.take(i) == p);
    }
}

} // verus!
