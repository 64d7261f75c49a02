//! Sample-accurate session timeline. Every position is a sample offset on its own track;
//! user-facing timestamps are computed from `start_sample / sample_rate` plus the track origin,
//! never from concatenation order. Gaps are first-class records, so audio that is missing stays
//! distinguishable from silence.

use crate::error::CoreError;
use crate::ids::{ChunkId, ChunkSeq, TrackId};
use crate::intervals::{
    chain_break, chain_end, check_chain, lemma_chain_facts, lemma_span_leq_total, lemma_tiles_extend,
    sort_spans, sorted_spans, span_order, tiles,
};

use vstd::prelude::*;

verus! {

broadcast use vstd::seq_lib::group_seq_properties;

/// How the track's audio was obtained.
#[derive(Debug, Clone, Copy, PartialEq, Eq, Structural)]
pub enum CaptureMode {
    ProcessLoopback,
    SystemLoopback,
    Device,
}

/// Whether audio from other applications may be mixed into this track.
#[derive(Debug, Clone, Copy, PartialEq, Eq, Structural)]
pub enum ContaminationRisk {
    /// Only the target application's audio.
    NoOtherApps,
    PossibleOtherApps,
}

/// The origin of one track segment. A device format or endpoint change opens a new segment with
/// its own origin rather than reinterpreting old positions.
#[derive(Debug, Clone, Copy, PartialEq, Eq, Structural)]
pub struct TrackOrigin {
    pub start_wall_utc_ms: i64,
    pub start_monotonic_ns: u64,
    pub sample_rate: u32,
    pub channels: u16,
    pub capture_mode: CaptureMode,
    pub contamination_risk: ContaminationRisk,
}

/// One durable chunk's position on its track.
#[derive(Debug, Clone, Copy, PartialEq, Eq, Structural)]
pub struct ChunkSpan {
    pub chunk_id: ChunkId,
    pub seq: ChunkSeq,
    pub start_sample: u64,
    pub len_samples: u64,
}

impl ChunkSpan {
    /// One past the last sample of the chunk.
    pub fn end_sample(&self) -> (e: u64)
        requires
            self.start_sample + self.len_samples <= u64::MAX,
        ensures
            e == self.start_sample + self.len_samples,
    {
        self.start_sample + self.len_samples
    }
}

/// Why audio is missing.
#[derive(Debug, Clone, PartialEq, Eq)]
pub enum GapReason {
    ChunkLost,
    DeviceDiscontinuity,
    CaptureInterrupted,
    Other(String),
}

impl GapReason {
    /// An equal copy.
    pub fn duplicate(&self) -> (r: Self)
        ensures
            r == *self,
    {
        match self {
            GapReason::ChunkLost => GapReason::ChunkLost,
            GapReason::DeviceDiscontinuity => GapReason::DeviceDiscontinuity,
            GapReason::CaptureInterrupted => GapReason::CaptureInterrupted,
            GapReason::Other(s) => GapReason::Other(s.clone()),
        }
    }
}

/// Audio the session does not have, as a first-class record.
#[derive(Debug, Clone, PartialEq, Eq)]
pub struct Gap {
    pub from_sample: u64,
    pub to_sample: u64,
    pub reason: GapReason,
}

impl Gap {
    /// An equal copy.
    pub fn duplicate(&self) -> (r: Self)
        ensures
            r == *self,
    {
        Gap { from_sample: self.from_sample, to_sample: self.to_sample, reason: self.reason.duplicate() }
    }
}

/// A session-relative instant with microsecond resolution.
#[derive(Debug, Clone, Copy, PartialEq, Eq, Structural, PartialOrd, Ord)]
pub struct SessionTime {
    pub micros: u64,
}

/// The `[start, end)` interval a chunk covers.
pub open spec fn chunk_interval(c: ChunkSpan) -> (u64, u64) {
    (c.start_sample, (c.start_sample + c.len_samples) as u64)
}

/// The `[from, to)` interval a gap covers.
pub open spec fn gap_interval(g: Gap) -> (u64, u64) {
    (g.from_sample, g.to_sample)
}

/// Every interval of a track: its chunks, then its gaps.
pub open spec fn track_intervals(chunks: Seq<ChunkSpan>, gaps: Seq<Gap>) -> Seq<(u64, u64)> {
    chunks.map_values(|c: ChunkSpan| chunk_interval(c)) + gaps.map_values(|g: Gap| gap_interval(g))
}

/// One past the last sample any chunk covers (0 without chunks).
pub open spec fn chunks_end(chunks: Seq<ChunkSpan>) -> nat
    decreases chunks.len(),
{
    if chunks.len() == 0 {
        0
    } else {
        let rest = chunks_end(chunks.drop_last());
        let e = (chunks.last().start_sample + chunks.last().len_samples) as nat;
        if rest >= e { rest } else { e }
    }
}

/// One past the last sample any gap covers (0 without gaps).
pub open spec fn gaps_end(gaps: Seq<Gap>) -> nat
    decreases gaps.len(),
{
    if gaps.len() == 0 {
        0
    } else {
        let rest = gaps_end(gaps.drop_last());
        let e = gaps.last().to_sample as nat;
        if rest >= e { rest } else { e }
    }
}

/// One past the last sample covered by a chunk or a gap.
pub open spec fn covered_end(chunks: Seq<ChunkSpan>, gaps: Seq<Gap>) -> nat {
    let c = chunks_end(chunks);
    let g = gaps_end(gaps);
    if c >= g { c } else { g }
}

/// The largest chunk sequence number plus one (0 without chunks).
pub open spec fn chunks_next_seq(chunks: Seq<ChunkSpan>) -> nat
    decreases chunks.len(),
{
    if chunks.len() == 0 {
        0
    } else {
        let rest = chunks_next_seq(chunks.drop_last());
        let n = chunks.last().seq.0 + 1;
        if rest >= n { rest } else { n as nat }
    }
}

/// The session-relative microseconds of `sample` at `rate`, truncated to 64 bits.
pub open spec fn micros_at(sample: u64, rate: u32) -> u64 {
    ((sample as int * 1_000_000) / (rate as int)) as u64
}

/// The index of the first chunk at or after `i` carrying `seq`.
pub open spec fn first_seq_from(chunks: Seq<ChunkSpan>, seq: ChunkSeq, i: int) -> Option<int>
    decreases chunks.len() - i,
{
    if i < 0 || i >= chunks.len() {
        None
    } else if chunks[i].seq == seq {
        Some(i)
    } else {
        first_seq_from(chunks, seq, i + 1)
    }
}

/// The result `validate_tiling` owes for these intervals.
pub open spec fn tiling_result(intervals: Seq<(u64, u64)>) -> Result<(), CoreError> {
    match chain_break(sorted_spans(intervals), 0) {
        None => Ok(()),
        Some(at) => Err(CoreError::TilingBroken { at_sample: at }),
    }
}

/// One track segment: an origin plus the chunks and gaps that tile its sample range.
#[derive(Debug, Clone, PartialEq, Eq)]
pub struct TrackSegment {
    pub track_id: TrackId,
    pub origin: TrackOrigin,
    pub chunks: Vec<ChunkSpan>,
    pub gaps: Vec<Gap>,
}

impl TrackSegment {
    /// No chunk end overflows 64 bits (a machine limit on positions).
    pub open spec fn fits(&self) -> bool {
        forall|i: int|
            0 <= i < self.chunks@.len() ==> (#[trigger] self.chunks@[i]).start_sample
                + self.chunks@[i].len_samples <= u64::MAX
    }

    /// No chunk carries the largest sequence number, so the next one exists.
    pub open spec fn seqs_fit(&self) -> bool {
        forall|i: int| 0 <= i < self.chunks@.len() ==> (#[trigger] self.chunks@[i]).seq.0 < u32::MAX
    }

    /// One past the last covered sample.
    pub open spec fn end(&self) -> nat {
        covered_end(self.chunks@, self.gaps@)
    }

    /// The intervals that chunks and gaps cover.
    pub open spec fn intervals(&self) -> Seq<(u64, u64)> {
        track_intervals(self.chunks@, self.gaps@)
    }

    pub fn new(track_id: TrackId, origin: TrackOrigin) -> (r: Result<Self, CoreError>)
        ensures
            origin.sample_rate == 0 ==> r == Err::<Self, CoreError>(CoreError::ZeroSampleRate),
            origin.sample_rate != 0 ==> (r matches Ok(seg) && seg.track_id == track_id
                && seg.origin == origin && seg.chunks@.len() == 0 && seg.gaps@.len() == 0),
            r matches Ok(seg) ==> tiles(seg.intervals()),
    {
        proof {
            lemma_empty_tiles();
        }
        if origin.sample_rate == 0 {
            return Err(CoreError::ZeroSampleRate);
        }
        Ok(TrackSegment { track_id, origin, chunks: Vec::new(), gaps: Vec::new() })
    }

    /// The first sample not yet covered by a chunk or a gap.
    pub fn end_sample(&self) -> (e: u64)
        requires
            self.fits(),
        ensures
            e == self.end(),
    {
        let mut c: u64 = 0;
        let mut i: usize = 0;
        while i < self.chunks.len()
            invariant
                self.fits(),
                i <= self.chunks@.len(),
                c == chunks_end(self.chunks@.take(i as int)),
            decreases self.chunks@.len() - i,
        {
            assert(self.chunks@.take(i + 1).drop_last() == self.chunks@.take(i as int));
            let ch = &self.chunks[i];
            assert(ch.start_sample + ch.len_samples <= u64::MAX);
            let e = ch.start_sample + ch.len_samples;
            if e > c {
                c = e;
            }
            i += 1;
        }
        assert(self.chunks@.take(self.chunks@.len() as int) == self.chunks@);
        let mut g: u64 = 0;
        let mut j: usize = 0;
        while j < self.gaps.len()
            invariant
                j <= self.gaps@.len(),
                g == gaps_end(self.gaps@.take(j as int)),
            decreases self.gaps@.len() - j,
        {
            assert(self.gaps@.take(j + 1).drop_last() == self.gaps@.take(j as int));
            if self.gaps[j].to_sample > g {
                g = self.gaps[j].to_sample;
            }
            j += 1;
        }
        assert(self.gaps@.take(self.gaps@.len() as int) == self.gaps@);
        if c >= g { c } else { g }
    }

    /// The next dense chunk sequence number.
    pub fn next_seq(&self) -> (s: ChunkSeq)
        requires
            self.seqs_fit(),
        ensures
            s.0 == chunks_next_seq(self.chunks@),
    {
        let mut n: u32 = 0;
        let mut i: usize = 0;
        while i < self.chunks.len()
            invariant
                self.seqs_fit(),
                i <= self.chunks@.len(),
                n == chunks_next_seq(self.chunks@.take(i as int)),
            decreases self.chunks@.len() - i,
        {
            assert(self.chunks@.take(i + 1).drop_last() == self.chunks@.take(i as int));
            let s = self.chunks[i].seq.next();
            if s.0 > n {
                n = s.0;
            }
            i += 1;
        }
        assert(self.chunks@.take(self.chunks@.len() as int) == self.chunks@);
        ChunkSeq(n)
    }

    /// Place a chunk at an explicit position. Overlap with covered audio is a hard error: it
    /// means the writer lost track of position.
    pub fn push_chunk_at(
        &mut self,
        chunk_id: ChunkId,
        seq: ChunkSeq,
        start_sample: u64,
        len_samples: u64,
    ) -> (r: Result<ChunkSpan, CoreError>)
        requires
            old(self).fits(),
            start_sample + len_samples <= u64::MAX,
        ensures
            final(self).fits(),
            final(self).track_id == old(self).track_id,
            final(self).origin == old(self).origin,
            final(self).gaps@ == old(self).gaps@,
            tiles(old(self).intervals()) && start_sample as nat == old(self).end() ==> tiles(
                final(self).intervals(),
            ),
            (start_sample as nat) < old(self).end() ==> r == Err::<ChunkSpan, CoreError>(
                CoreError::ChunkOverlap { start_sample, previous_end: old(self).end() as u64 },
            ) && final(self).chunks@ == old(self).chunks@,
            (start_sample as nat) >= old(self).end() && len_samples == 0 ==> r == Err::<
                ChunkSpan,
                CoreError,
            >(CoreError::TilingBroken { at_sample: start_sample }) && final(self).chunks@ == old(
                self,
            ).chunks@,
            (start_sample as nat) >= old(self).end() && len_samples > 0 ==> {
                let span = ChunkSpan { chunk_id, seq, start_sample, len_samples };
                r == Ok::<ChunkSpan, CoreError>(span) && final(self).chunks@ == old(
                    self,
                ).chunks@.push(span)
            },
    {
        let previous_end = self.end_sample();
        if start_sample < previous_end {
            return Err(CoreError::ChunkOverlap { start_sample, previous_end });
        }
        if len_samples == 0 {
            return Err(CoreError::TilingBroken { at_sample: start_sample });
        }
        let span = ChunkSpan { chunk_id, seq, start_sample, len_samples };
        let ghost before = *self;
        self.chunks.push(span);
        proof {
            if tiles(before.intervals()) && start_sample as nat == before.end() {
                lemma_tiling_ends_at_end(before.chunks@, before.gaps@);
                lemma_push_chunk_intervals(before.chunks@, before.gaps@, span);
                lemma_tiles_extend(before.intervals(), self.intervals(), chunk_interval(span));
            }
        }
        Ok(span)
    }

    /// Append a chunk immediately after the covered range.
    pub fn push_chunk(&mut self, chunk_id: ChunkId, len_samples: u64) -> (r: Result<
        ChunkSpan,
        CoreError,
    >)
        requires
            old(self).fits(),
            old(self).seqs_fit(),
            old(self).end() + len_samples <= u64::MAX,
        ensures
            final(self).fits(),
            final(self).track_id == old(self).track_id,
            final(self).origin == old(self).origin,
            final(self).gaps@ == old(self).gaps@,
            tiles(old(self).intervals()) ==> tiles(final(self).intervals()),
            len_samples == 0 ==> r == Err::<ChunkSpan, CoreError>(
                CoreError::TilingBroken { at_sample: old(self).end() as u64 },
            ) && final(self).chunks@ == old(self).chunks@,
            len_samples > 0 ==> {
                let span = ChunkSpan {
                    chunk_id,
                    seq: ChunkSeq(chunks_next_seq(old(self).chunks@) as u32),
                    start_sample: old(self).end() as u64,
                    len_samples,
                };
                r == Ok::<ChunkSpan, CoreError>(span) && final(self).chunks@ == old(
                    self,
                ).chunks@.push(span)
            },
            len_samples > 0 ==> final(self).end() == old(self).end() + len_samples,
    {
        let start = self.end_sample();
        let seq = self.next_seq();
        let ghost before = self.chunks@;
        let r = self.push_chunk_at(chunk_id, seq, start, len_samples);
        proof {
            if len_samples > 0 {
                assert(self.chunks@.drop_last() =~= before);
            }
        }
        r
    }

    /// Record missing audio from the current end up to `to_sample`.
    pub fn record_gap(&mut self, to_sample: u64, reason: GapReason) -> (r: Result<Gap, CoreError>)
        requires
            old(self).fits(),
        ensures
            final(self).track_id == old(self).track_id,
            final(self).origin == old(self).origin,
            final(self).chunks@ == old(self).chunks@,
            tiles(old(self).intervals()) ==> tiles(final(self).intervals()),
            (to_sample as nat) <= old(self).end() ==> r == Err::<Gap, CoreError>(
                CoreError::InvalidGap { from_sample: old(self).end() as u64, to_sample },
            ) && final(self).gaps@ == old(self).gaps@,
            (to_sample as nat) > old(self).end() ==> {
                let gap = Gap { from_sample: old(self).end() as u64, to_sample, reason };
                r == Ok::<Gap, CoreError>(gap) && final(self).gaps@ == old(self).gaps@.push(gap)
            },
    {
        let from_sample = self.end_sample();
        if to_sample <= from_sample {
            return Err(CoreError::InvalidGap { from_sample, to_sample });
        }
        let gap = Gap { from_sample, to_sample, reason };
        let ghost before = *self;
        self.gaps.push(gap.duplicate());
        proof {
            if tiles(before.intervals()) {
                lemma_tiling_ends_at_end(before.chunks@, before.gaps@);
                lemma_push_gap_intervals(before.chunks@, before.gaps@, gap);
                lemma_tiles_extend(before.intervals(), self.intervals(), gap_interval(gap));
            }
        }
        Ok(gap)
    }

    /// Verify that chunks and gaps tile `[0, end_sample)` with no hole and no overlap.
    pub fn validate_tiling(&self) -> (r: Result<(), CoreError>)
        requires
            self.fits(),
        ensures
            r == tiling_result(self.intervals()),
    {
        let mut spans: Vec<(u64, u64)> = Vec::new();
        let mut i: usize = 0;
        while i < self.chunks.len()
            invariant
                self.fits(),
                i <= self.chunks@.len(),
                spans@ == self.chunks@.take(i as int).map_values(|c: ChunkSpan| chunk_interval(c)),
            decreases self.chunks@.len() - i,
        {
            let c = &self.chunks[i];
            assert(c.start_sample + c.len_samples <= u64::MAX);
            spans.push((c.start_sample, c.start_sample + c.len_samples));
            assert(self.chunks@.take(i + 1).map_values(|c: ChunkSpan| chunk_interval(c))
                =~= self.chunks@.take(i as int).map_values(|c: ChunkSpan| chunk_interval(c)).push(
                chunk_interval(self.chunks@[i as int])));
            i += 1;
        }
        assert(self.chunks@.take(self.chunks@.len() as int) == self.chunks@);
        let ghost chunk_part = spans@;
        let mut j: usize = 0;
        while j < self.gaps.len()
            invariant
                j <= self.gaps@.len(),
                spans@ == chunk_part + self.gaps@.take(j as int).map_values(|g: Gap| gap_interval(g)),
            decreases self.gaps@.len() - j,
        {
            spans.push((self.gaps[j].from_sample, self.gaps[j].to_sample));
            assert(self.gaps@.take(j + 1).map_values(|g: Gap| gap_interval(g))
                =~= self.gaps@.take(j as int).map_values(|g: Gap| gap_interval(g)).push(
                gap_interval(self.gaps@[j as int])));
            j += 1;
        }
        assert(self.gaps@.take(self.gaps@.len() as int) == self.gaps@);
        assert(spans@ == self.intervals());
        let sorted = sort_spans(spans);
        match check_chain(&sorted) {
            None => Ok(()),
            Some(at) => Err(CoreError::TilingBroken { at_sample: at }),
        }
    }

    /// Session-relative time of a sample on this track.
    pub fn time_of(&self, sample: u64) -> (r: Result<SessionTime, CoreError>)
        requires
            self.fits(),
            self.origin.sample_rate > 0,
        ensures
            (sample as nat) > self.end() ==> r == Err::<SessionTime, CoreError>(
                CoreError::SampleOutOfRange { sample },
            ),
            (sample as nat) <= self.end() ==> r == Ok::<SessionTime, CoreError>(
                SessionTime { micros: micros_at(sample, self.origin.sample_rate) },
            ),
    {
        if sample > self.end_sample() {
            return Err(CoreError::SampleOutOfRange { sample });
        }
        assert(sample as u128 * 1_000_000 <= 0xffff_ffff_ffff_ffffu128 * 1_000_000) by (nonlinear_arith);
        let micros: u128 = (sample as u128 * 1_000_000) / (self.origin.sample_rate as u128);
        Ok(SessionTime { micros: micros as u64 })
    }

    /// Session-relative time of a chunk-local sample, found by chunk sequence number.
    pub fn chunk_local_time(&self, seq: ChunkSeq, local_sample: u64) -> (r: Result<
        SessionTime,
        CoreError,
    >)
        requires
            self.fits(),
            self.origin.sample_rate > 0,
            forall|k: int|
                0 <= k < self.chunks@.len() && (#[trigger] self.chunks@[k]).seq == seq
                    ==> self.chunks@[k].start_sample + local_sample <= u64::MAX,
        ensures
            match first_seq_from(self.chunks@, seq, 0) {
                None => r == Err::<SessionTime, CoreError>(
                    CoreError::SampleOutOfRange { sample: local_sample },
                ),
                Some(k) => {
                    let c = self.chunks@[k];
                    if local_sample >= c.len_samples {
                        r == Err::<SessionTime, CoreError>(
                            CoreError::SampleOutOfRange {
                                sample: (c.start_sample + local_sample) as u64,
                            },
                        )
                    } else {
                        r == Ok::<SessionTime, CoreError>(
                            SessionTime {
                                micros: micros_at(
                                    (c.start_sample + local_sample) as u64,
                                    self.origin.sample_rate,
                                ),
                            },
                        )
                    }
                },
            },
    {
        let mut i: usize = 0;
        while i < self.chunks.len()
            invariant
                self.fits(),
                self.origin.sample_rate > 0,
                forall|k: int|
                    0 <= k < self.chunks@.len() && (#[trigger] self.chunks@[k]).seq == seq
                        ==> self.chunks@[k].start_sample + local_sample <= u64::MAX,
                i <= self.chunks@.len(),
                first_seq_from(self.chunks@, seq, 0) == first_seq_from(self.chunks@, seq, i as int),
            decreases self.chunks@.len() - i,
        {
            if self.chunks[i].seq == seq {
                let chunk = &self.chunks[i];
                if local_sample >= chunk.len_samples {
                    return Err(CoreError::SampleOutOfRange { sample: chunk.start_sample + local_sample });
                }
                proof {
                    lemma_chunk_end_below_end(self.chunks@, self.gaps@, i as int);
                }
                return self.time_of(chunk.start_sample + local_sample);
            }
            i += 1;
        }
        Err(CoreError::SampleOutOfRange { sample: local_sample })
    }

    /// Wall-clock UTC milliseconds of a sample on this track.
    pub fn wall_utc_ms_at(&self, sample: u64) -> (r: Result<i64, CoreError>)
        requires
            self.fits(),
            self.origin.sample_rate > 0,
            (sample as nat) <= self.end() ==> self.origin.start_wall_utc_ms + micros_at(
                sample,
                self.origin.sample_rate,
            ) / 1000 <= i64::MAX,
        ensures
            (sample as nat) > self.end() ==> r == Err::<i64, CoreError>(
                CoreError::SampleOutOfRange { sample },
            ),
            (sample as nat) <= self.end() ==> r == Ok::<i64, CoreError>(
                (self.origin.start_wall_utc_ms + micros_at(sample, self.origin.sample_rate) / 1000) as i64,
            ),
    {
        let t = self.time_of(sample)?;
        Ok(self.origin.start_wall_utc_ms + (t.micros / 1_000) as i64)
    }

    /// Close this segment and open its successor with a new origin (device format or endpoint
    /// change). Positions in this segment keep their original sample rate.
    pub fn open_successor(&self, track_id: TrackId, origin: TrackOrigin) -> (r: Result<
        TrackSegment,
        CoreError,
    >)
        ensures
            origin.sample_rate == 0 ==> r == Err::<TrackSegment, CoreError>(CoreError::ZeroSampleRate),
            origin.sample_rate != 0 ==> (r matches Ok(seg) && seg.track_id == track_id
                && seg.origin == origin && seg.chunks@.len() == 0 && seg.gaps@.len() == 0),
    {
        TrackSegment::new(track_id, origin)
    }
}

proof fn lemma_chunks_end(chunks: Seq<ChunkSpan>)
    ensures
        forall|i: int|
            0 <= i < chunks.len() ==> (#[trigger] chunks[i]).start_sample + chunks[i].len_samples
                <= chunks_end(chunks),
        chunks_end(chunks) == 0 || exists|i: int|
            0 <= i < chunks.len() && (#[trigger] chunks[i]).start_sample + chunks[i].len_samples
                == chunks_end(chunks),
    decreases chunks.len(),
{
    if chunks.len() > 0 {
        let rest = chunks.drop_last();
        lemma_chunks_end(rest);
        assert forall|i: int| 0 <= i < chunks.len() implies (#[trigger] chunks[i]).start_sample
            + chunks[i].len_samples <= chunks_end(chunks) by {
            if i < chunks.len() - 1 {
                assert(chunks[i] == rest[i]);
            }
        }
        if chunks_end(rest) != 0 && chunks_end(chunks) == chunks_end(rest) {
            let j = choose|j: int|
                0 <= j < rest.len() && (#[trigger] rest[j]).start_sample + rest[j].len_samples
                    == chunks_end(rest);
            assert(chunks[j] == rest[j]);
        }
    }
}

proof fn lemma_gaps_end(gaps: Seq<Gap>)
    ensures
        forall|i: int| 0 <= i < gaps.len() ==> (#[trigger] gaps[i]).to_sample <= gaps_end(gaps),
        gaps_end(gaps) == 0 || exists|i: int|
            0 <= i < gaps.len() && (#[trigger] gaps[i]).to_sample == gaps_end(gaps),
    decreases gaps.len(),
{
    if gaps.len() > 0 {
        let rest = gaps.drop_last();
        lemma_gaps_end(rest);
        assert forall|i: int| 0 <= i < gaps.len() implies (#[trigger] gaps[i]).to_sample <= gaps_end(
            gaps,
        ) by {
            if i < gaps.len() - 1 {
                assert(gaps[i] == rest[i]);
            }
        }
        if gaps_end(rest) != 0 && gaps_end(gaps) == gaps_end(rest) {
            let j = choose|j: int| 0 <= j < rest.len() && (#[trigger] rest[j]).to_sample == gaps_end(rest);
            assert(gaps[j] == rest[j]);
        }
    }
}

/// Every interval ends within the covered range, and the covered end is 0 or some interval's end.
proof fn lemma_intervals_end(chunks: Seq<ChunkSpan>, gaps: Seq<Gap>)
    requires
        forall|i: int|
            0 <= i < chunks.len() ==> (#[trigger] chunks[i]).start_sample + chunks[i].len_samples
                <= u64::MAX,
    ensures
        forall|k: int|
            0 <= k < track_intervals(chunks, gaps).len() ==> (#[trigger] track_intervals(
                chunks,
                gaps,
            )[k]).1 <= covered_end(chunks, gaps),
        covered_end(chunks, gaps) == 0 || exists|k: int|
            0 <= k < track_intervals(chunks, gaps).len() && (#[trigger] track_intervals(
                chunks,
                gaps,
            )[k]).1 == covered_end(chunks, gaps),
{
    let ci = chunks.map_values(|c: ChunkSpan| chunk_interval(c));
    let gi = gaps.map_values(|g: Gap| gap_interval(g));
    let iv = track_intervals(chunks, gaps);
    lemma_chunks_end(chunks);
    lemma_gaps_end(gaps);
    assert forall|k: int| 0 <= k < iv.len() implies (#[trigger] iv[k]).1 <= covered_end(chunks, gaps) by {
        if k < chunks.len() {
            assert(iv[k] == chunk_interval(chunks[k]));
        } else {
            assert(iv[k] == gap_interval(gaps[k - chunks.len()]));
        }
    }
    if covered_end(chunks, gaps) != 0 {
        if chunks_end(chunks) >= gaps_end(gaps) {
            let i = choose|i: int|
                0 <= i < chunks.len() && (#[trigger] chunks[i]).start_sample + chunks[i].len_samples
                    == chunks_end(chunks);
            assert(iv[i] == chunk_interval(chunks[i]));
        } else {
            let i = choose|i: int| 0 <= i < gaps.len() && (#[trigger] gaps[i]).to_sample == gaps_end(gaps);
            assert(iv[chunks.len() + i] == gap_interval(gaps[i]));
        }
    }
}

/// A tiling of a track's intervals ends at the covered end.
proof fn lemma_tiling_ends_at_end(chunks: Seq<ChunkSpan>, gaps: Seq<Gap>)
    requires
        forall|i: int|
            0 <= i < chunks.len() ==> (#[trigger] chunks[i]).start_sample + chunks[i].len_samples
                <= u64::MAX,
        tiles(track_intervals(chunks, gaps)),
    ensures
        chain_end(sorted_spans(track_intervals(chunks, gaps)), 0) == covered_end(chunks, gaps),
{
    broadcast use vstd::seq_lib::group_to_multiset_ensures;

    let iv = track_intervals(chunks, gaps);
    let sb = sorted_spans(iv);
    lemma_span_leq_total();
    iv.lemma_sort_by_ensures(span_order());
    lemma_chain_facts(sb, 0);
    lemma_intervals_end(chunks, gaps);
    assert(iv.len() == iv.to_multiset().len());
    assert(sb.len() == sb.to_multiset().len());
    assert(sb.len() == iv.len());
    if sb.len() > 0 {
        let i = choose|i: int| 0 <= i < sb.len() && (#[trigger] sb[i]).1 == chain_end(sb, 0);
        assert(sb.to_multiset().count(sb[i]) > 0);
        assert(iv.contains(sb[i]));
        if covered_end(chunks, gaps) != 0 {
            let k = choose|k: int| 0 <= k < iv.len() && (#[trigger] iv[k]).1 == covered_end(chunks, gaps);
            assert(iv.to_multiset().count(iv[k]) > 0);
            assert(sb.contains(iv[k]));
        }
    } else {
        assert(chunks.len() == 0 && gaps.len() == 0);
    }
}

proof fn lemma_empty_tiles()
    ensures
        tiles(track_intervals(Seq::empty(), Seq::empty())),
{
    broadcast use vstd::seq_lib::group_to_multiset_ensures;

    let iv = track_intervals(Seq::<ChunkSpan>::empty(), Seq::<Gap>::empty());
    assert(iv =~= Seq::<(u64, u64)>::empty());
    lemma_span_leq_total();
    iv.lemma_sort_by_ensures(span_order());
    assert(sorted_spans(iv).len() == sorted_spans(iv).to_multiset().len());
}

/// Adding a chunk adds its interval to the multiset of intervals.
proof fn lemma_push_chunk_intervals(chunks: Seq<ChunkSpan>, gaps: Seq<Gap>, c: ChunkSpan)
    ensures
        track_intervals(chunks.push(c), gaps).to_multiset() == track_intervals(chunks, gaps).to_multiset().insert(
            chunk_interval(c),
        ),
{
    broadcast use vstd::seq_lib::group_to_multiset_ensures;
    broadcast use vstd::seq_lib::lemma_multiset_commutative;
    broadcast use vstd::multiset::group_multiset_axioms;

    let ci = chunks.map_values(|x: ChunkSpan| chunk_interval(x));
    let gi = gaps.map_values(|g: Gap| gap_interval(g));
    assert(chunks.push(c).map_values(|x: ChunkSpan| chunk_interval(x)) =~= ci.push(chunk_interval(c)));
    assert((ci.push(chunk_interval(c)) + gi).to_multiset() =~= ci.push(chunk_interval(c)).to_multiset().add(gi.to_multiset()));
    assert((ci + gi).to_multiset() =~= ci.to_multiset().add(gi.to_multiset()));
    assert(ci.push(chunk_interval(c)).to_multiset() =~= ci.to_multiset().insert(chunk_interval(c)));
    assert(track_intervals(chunks.push(c), gaps).to_multiset() =~= track_intervals(chunks, gaps).to_multiset().insert(
        chunk_interval(c)));
}

/// Adding a gap adds its interval to the multiset of intervals.
proof fn lemma_push_gap_intervals(chunks: Seq<ChunkSpan>, gaps: Seq<Gap>, g: Gap)
    ensures
        track_intervals(chunks, gaps.push(g)).to_multiset() == track_intervals(chunks, gaps).to_multiset().insert(
            gap_interval(g),
        ),
{
    broadcast use vstd::seq_lib::group_to_multiset_ensures;

    let ci = chunks.map_values(|x: ChunkSpan| chunk_interval(x));
    let gi = gaps.map_values(|x: Gap| gap_interval(x));
    assert(gaps.push(g).map_values(|x: Gap| gap_interval(x)) =~= gi.push(gap_interval(g)));
    assert(track_intervals(chunks, gaps.push(g)) =~= track_intervals(chunks, gaps).push(gap_interval(g)));
}

/// A chunk's end lies within the covered range.
pub proof fn lemma_chunk_end_below_end(chunks: Seq<ChunkSpan>, gaps: Seq<Gap>, i: int)
    requires
        0 <= i < chunks.len(),
    ensures
        chunks[i].start_sample + chunks[i].len_samples <= covered_end(chunks, gaps),
    decreases chunks.len(),
{
    if i < chunks.len() - 1 {
        lemma_chunk_end_below_end(chunks.drop_last(), gaps, i);
        assert(chunks.drop_last()[i] == chunks[i]);
    }
}

/// The session view over independently originated tracks, aligned by wall-clock origin.
#[derive(Debug, Clone, PartialEq, Eq)]
pub struct SessionTimeline {
    pub session_start_wall_utc_ms: i64,
    pub alignment_uncertainty_ms: u32,
    pub tracks: Vec<TrackSegment>,
}

/// Session microseconds of `sample` on `track` in a session that starts at `start_ms`.
pub open spec fn session_micros(start_ms: i64, track: TrackSegment, sample: u64) -> int {
    micros_at(sample, track.origin.sample_rate) as int + (track.origin.start_wall_utc_ms - start_ms)
        * 1000
}

impl SessionTimeline {
    /// Session time of a sample on the given track. Sample `n` of one track is never assumed to
    /// be contemporaneous with sample `n` of another.
    pub fn session_time(&self, track: &TrackSegment, sample: u64) -> (r: Result<
        SessionTime,
        CoreError,
    >)
        requires
            track.fits(),
            track.origin.sample_rate > 0,
            i64::MIN <= track.origin.start_wall_utc_ms - self.session_start_wall_utc_ms <= i64::MAX,
        ensures
            (sample as nat) > track.end() ==> r == Err::<SessionTime, CoreError>(
                CoreError::SampleOutOfRange { sample },
            ),
            (sample as nat) <= track.end() && session_micros(
                self.session_start_wall_utc_ms,
                *track,
                sample,
            ) < 0 ==> r == Err::<SessionTime, CoreError>(CoreError::SampleOutOfRange { sample }),
            (sample as nat) <= track.end() && session_micros(
                self.session_start_wall_utc_ms,
                *track,
                sample,
            ) >= 0 ==> r == Ok::<SessionTime, CoreError>(
                SessionTime {
                    micros: session_micros(self.session_start_wall_utc_ms, *track, sample) as u64,
                },
            ),
    {
        let on_track = track.time_of(sample)?;
        let offset_ms = track.origin.start_wall_utc_ms - self.session_start_wall_utc_ms;
        assert(-0x8000_0000_0000_0000 * 1000 <= offset_ms as i128 * 1000 <= 0x7fff_ffff_ffff_ffff * 1000) by (nonlinear_arith)
            requires i64::MIN <= offset_ms <= i64::MAX;
        let micros: i128 = on_track.micros as i128 + offset_ms as i128 * 1_000;
        if micros < 0 {
            return Err(CoreError::SampleOutOfRange { sample });
        }
        Ok(SessionTime { micros: micros as u64 })
    }
}

} // verus!
