//! encode → verify → rename → record → delete, per track. Any other order can lose audio. A track
//! has one origin, so it is encoded at exactly one rate; a format change is a successor track.

use crate::chunk_manifest::{ChunkManifest, ManifestEvent, ManifestEventKind};
use crate::timeline::{Gap, TrackOrigin};
use flacenc::component::BitRepr;
use flacenc::error::Verify;
use vstd::prelude::*;

verus! {

broadcast use vstd::seq_lib::group_seq_properties;

/// Where a test-injected crash stops the procedure.
#[derive(Debug, Clone, Copy, PartialEq, Eq, Structural)]
pub enum CrashPoint {
    AfterEncode,
    AfterVerify,
    AfterRename,
    AfterRecord,
}

/// Why consolidation stopped.
#[derive(Debug, Clone, PartialEq, Eq)]
pub enum ConsolidateError {
    Io(String),
    /// The encoder's output does not decode to the chunk sequence; chunks are kept.
    VerificationMismatch { expected_samples: u64, decoded_samples: u64 },
    /// A test-injected crash: the process died after `CrashPoint`.
    Crashed(CrashPoint),
    NoManifest,
}

/// What a finished consolidation did.
#[derive(Debug, Clone, PartialEq, Eq)]
pub struct ConsolidateReport {
    pub flac_file: String,
    pub samples: u64,
    /// Whether this run encoded (a re-run after the record step encodes nothing).
    pub encoded: bool,
    pub chunks_deleted: usize,
}

/// The encoder seam. Tests inject a wrong one.
pub trait Encoder {
    /// What this encoder gives for a format and samples: the stream's bytes, or the text of its
    /// error.
    spec fn encoding(&self, sample_rate: u32, channels: u16, samples: Seq<i16>) -> Result<Seq<u8>, Seq<char>>;

    fn encode(&self, sample_rate: u32, channels: u16, samples: &[i16]) -> (r: Result<Vec<u8>, String>)
        ensures
            bytes_result_view(r) == self.encoding(sample_rate, channels, samples@),
    ;
}

/// What the FLAC encoder produces for a format and samples: the stream's bytes, or the text of
/// its error.
pub uninterp spec fn flac_encoded(sample_rate: u32, channels: u16, samples: Seq<i16>) -> Result<
    Seq<u8>,
    Seq<char>,
>;

pub open spec fn bytes_result_view(r: Result<Vec<u8>, String>) -> Result<Seq<u8>, Seq<char>> {
    match r {
        Ok(b) => Ok(b@),
        Err(e) => Err(e@),
    }
}

/// `flacenc`'s default configuration, `MemSource::from_samples` (16-bit) and
/// `encode_with_fixed_block_size`, written to a `ByteSink`: the encoded stream for the samples.
#[verifier::external_body]
fn flac_encode(sample_rate: u32, channels: u16, samples: &[i16]) -> (r: Result<Vec<u8>, String>)
    ensures
        bytes_result_view(r) == flac_encoded(sample_rate, channels, samples@),
{
    let config = flacenc::config::Encoder::default().into_verified().map_err(|e| format!("{e:?}"))?;
    let pcm: Vec<i32> = samples.iter().map(|s| *s as i32).collect();
    let source = flacenc::source::MemSource::from_samples(&pcm, channels as usize, 16, sample_rate as usize);
    let stream = flacenc::encode_with_fixed_block_size(&config, source, config.block_size).map_err(
        |e| format!("{e:?}"),
    )?;
    let mut sink = flacenc::bitsink::ByteSink::new();
    stream.write(&mut sink).map_err(|e| format!("{e:?}"))?;
    Ok(sink.as_slice().to_vec())
}

/// The FLAC encoder.
#[derive(Debug)]
pub struct FlacEncoder;

impl Default for FlacEncoder {
    fn default() -> (e: FlacEncoder) {
        FlacEncoder
    }
}

impl Encoder for FlacEncoder {
    open spec fn encoding(&self, sample_rate: u32, channels: u16, samples: Seq<i16>) -> Result<Seq<u8>, Seq<char>> {
        flac_encoded(sample_rate, channels, samples)
    }

    fn encode(&self, sample_rate: u32, channels: u16, samples: &[i16]) -> (r: Result<Vec<u8>, String>)
        ensures
            bytes_result_view(r) == flac_encoded(sample_rate, channels, samples@),
    {
        flac_encode(sample_rate, channels, samples)
    }
}

/// What a FLAC stream decodes to: its rate, its channel count and its samples, or the text of
/// the decoder's error.
pub uninterp spec fn flac_decoded(bytes: Seq<u8>) -> Result<(u32, u16, Seq<i16>), Seq<char>>;

pub open spec fn decoded_view(r: Result<(u32, u16, Vec<i16>), String>) -> Result<(u32, u16, Seq<i16>), Seq<char>> {
    match r {
        Ok((rate, channels, samples)) => Ok((rate, channels, samples@)),
        Err(e) => Err(e@),
    }
}

/// `claxon::FlacReader` over the bytes: the stream info's rate and channels and every sample.
#[verifier::external_body]
pub fn decode_flac(bytes: &[u8]) -> (r: Result<(u32, u16, Vec<i16>), String>)
    ensures
        decoded_view(r) == flac_decoded(bytes@),
{
    let mut reader = claxon::FlacReader::new(std::io::Cursor::new(bytes)).map_err(|e| e.to_string())?;
    let info = reader.streaminfo();
    let mut samples = Vec::new();
    for s in reader.samples() {
        samples.push(s.map_err(|e| e.to_string())? as i16);
    }
    Ok((info.sample_rate, info.channels as u16, samples))
}

/// One piece of the track: where it starts, how long it is, and which chunk holds it (none for
/// a gap).
pub struct Span {
    pub start: u64,
    pub len: u64,
    pub chunk: Option<usize>,
}

/// The pieces of a manifest: its chunks (by index) then its gaps.
pub open spec fn spans_of(m: ChunkManifest) -> Seq<Span> {
    Seq::new(m.chunks@.len(), |i: int| Span { start: m.chunks@[i].start_sample, len: m.chunks@[i].len_samples, chunk: Some(i as usize) })
        + m.gaps@.map_values(|g: Gap| Span { start: g.from_sample, len: (g.to_sample - g.from_sample) as u64, chunk: None })
}

/// Where a stable insertion puts `x` into `s` (sorted by start), from index `j` on.
pub open spec fn span_slot(s: Seq<Span>, x: Span, j: int) -> int
    decreases s.len() - j,
{
    if j < 0 || j >= s.len() {
        s.len() as int
    } else if s[j].start > x.start {
        j
    } else {
        span_slot(s, x, j + 1)
    }
}

/// The pieces in start order; pieces with equal starts keep their order.
pub open spec fn sort_spans_by_start(s: Seq<Span>) -> Seq<Span>
    decreases s.len(),
{
    if s.len() == 0 {
        s
    } else {
        let p = sort_spans_by_start(s.drop_last());
        p.insert(span_slot(p, s.last(), 0), s.last())
    }
}

pub open spec fn zeros(n: nat) -> Seq<i16> {
    Seq::new(n, |i: int| 0i16)
}

/// The first `n` pieces rendered in order: silence up to each piece's start when the track so
/// far is shorter, then the chunk's samples, or the gap as silence.
pub open spec fn render(spans: Seq<Span>, chunk_samples: Seq<Seq<i16>>, n: int) -> Seq<i16>
    decreases n,
{
    if n <= 0 || n > spans.len() {
        Seq::empty()
    } else {
        let out = render(spans, chunk_samples, n - 1);
        let sp = spans[n - 1];
        let padded = if out.len() < sp.start {
            out + zeros((sp.start - out.len()) as nat)
        } else {
            out
        };
        match sp.chunk {
            Some(i) => padded + chunk_samples[i as int],
            None => padded + zeros(sp.len as nat),
        }
    }
}

/// Every gap ends at or after its start.
pub open spec fn gaps_ordered(gaps: Seq<Gap>) -> bool {
    forall|k: int| 0 <= k < gaps.len() ==> (#[trigger] gaps[k]).from_sample <= gaps[k].to_sample
}

proof fn lemma_span_slot_range(s: Seq<Span>, x: Span, j: int)
    requires
        0 <= j <= s.len(),
    ensures
        j <= span_slot(s, x, j) <= s.len(),
    decreases s.len() - j,
{
    if j < s.len() && s[j].start <= x.start {
        lemma_span_slot_range(s, x, j + 1);
    }
}

/// The pieces of the manifest, sorted by start.
fn sorted_spans(manifest: &ChunkManifest) -> (p: Vec<(u64, u64, Option<usize>)>)
    requires
        gaps_ordered(manifest.gaps@),
        manifest.chunks@.len() + manifest.gaps@.len() <= usize::MAX,
    ensures
        p@.map_values(|t: (u64, u64, Option<usize>)| Span { start: t.0, len: t.1, chunk: t.2 })
            == sort_spans_by_start(spans_of(*manifest)),
{
    let ghost all = spans_of(*manifest);
    let ghost nc = manifest.chunks@.len();
    let total = manifest.chunks.len() + manifest.gaps.len();
    let mut p: Vec<(u64, u64, Option<usize>)> = Vec::new();
    let mut i: usize = 0;
    assert(all.take(0) =~= Seq::<Span>::empty());
    while i < total
        invariant
            total == all.len(),
            nc == manifest.chunks@.len(),
            all == spans_of(*manifest),
            gaps_ordered(manifest.gaps@),
            i <= total,
            p@.map_values(|t: (u64, u64, Option<usize>)| Span { start: t.0, len: t.1, chunk: t.2 })
                == sort_spans_by_start(all.take(i as int)),
        decreases total - i,
    {
        let x: (u64, u64, Option<usize>) = if i < manifest.chunks.len() {
            (manifest.chunks[i].start_sample, manifest.chunks[i].len_samples, Some(i))
        } else {
            let g = &manifest.gaps[i - manifest.chunks.len()];
            assert(g.from_sample <= g.to_sample);
            (g.from_sample, g.to_sample - g.from_sample, None)
        };
        let ghost xs = Span { start: x.0, len: x.1, chunk: x.2 };
        assert(xs == all[i as int]);
        let ghost pv = p@.map_values(|t: (u64, u64, Option<usize>)| Span { start: t.0, len: t.1, chunk: t.2 });
        let mut j: usize = 0;
        while j < p.len() && p[j].0 <= x.0
            invariant
                j <= p@.len(),
                pv == p@.map_values(|t: (u64, u64, Option<usize>)| Span { start: t.0, len: t.1, chunk: t.2 }),
                span_slot(pv, xs, 0) == span_slot(pv, xs, j as int),
                xs.start == x.0,
            decreases p@.len() - j,
        {
            assert(pv[j as int].start == p@[j as int].0);
            j += 1;
        }
        proof {
            lemma_span_slot_range(pv, xs, j as int);
        }
        p.insert(j, x);
        proof {
            assert(p@.map_values(|t: (u64, u64, Option<usize>)| Span { start: t.0, len: t.1, chunk: t.2 })
                =~= pv.insert(j as int, xs));
            assert(all.take(i + 1).drop_last() =~= all.take(i as int));
            assert(all.take(i + 1).last() == xs);
        }
        i += 1;
    }
    assert(all.take(total as int) =~= all);
    p
}

pub open spec fn samples_view(cs: Seq<Vec<i16>>) -> Seq<Seq<i16>> {
    cs.map_values(|v: Vec<i16>| v@)
}

pub open spec fn chunk_in_range(sp: Span, n: int) -> bool {
    match sp.chunk {
        Some(c) => (c as int) < n,
        None => true,
    }
}

proof fn lemma_sort_spans_member(s: Seq<Span>, n: int)
    requires
        forall|q: int| 0 <= q < s.len() ==> chunk_in_range(#[trigger] s[q], n),
    ensures
        forall|q: int| 0 <= q < sort_spans_by_start(s).len() ==> chunk_in_range(#[trigger] sort_spans_by_start(s)[q], n),
    decreases s.len(),
{
    if s.len() > 0 {
        let p = sort_spans_by_start(s.drop_last());
        assert forall|q: int| 0 <= q < s.drop_last().len() implies chunk_in_range(#[trigger] s.drop_last()[q], n) by {
            assert(s.drop_last()[q] == s[q]);
        }
        lemma_sort_spans_member(s.drop_last(), n);
        lemma_sorted_spans_len(s.drop_last());
        let k = span_slot(p, s.last(), 0);
        lemma_span_slot_range(p, s.last(), 0);
        let r = p.insert(k, s.last());
        assert(chunk_in_range(s[s.len() - 1], n));
        assert forall|q: int| 0 <= q < r.len() implies chunk_in_range(#[trigger] r[q], n) by {
            if q < k {
                assert(r[q] == p[q]);
            } else if q > k {
                assert(r[q] == p[q - 1]);
            }
        }
    }
}

/// The track's chunk sequence with its gaps rendered as silence, in track order.
/// `chunk_samples[i]` holds the decoded samples of `manifest.chunks[i]`.
pub fn expected_from(manifest: &ChunkManifest, chunk_samples: &Vec<Vec<i16>>) -> (out: Vec<i16>)
    requires
        gaps_ordered(manifest.gaps@),
        manifest.chunks@.len() + manifest.gaps@.len() <= usize::MAX,
        chunk_samples@.len() == manifest.chunks@.len(),
        render(
            sort_spans_by_start(spans_of(*manifest)),
            samples_view(chunk_samples@),
            spans_of(*manifest).len() as int,
        ).len() <= usize::MAX,
    ensures
        out@ == render(
            sort_spans_by_start(spans_of(*manifest)),
            samples_view(chunk_samples@),
            spans_of(*manifest).len() as int,
        ),
{
    let spans = sorted_spans(manifest);
    let ghost sv = spans@.map_values(|t: (u64, u64, Option<usize>)| Span { start: t.0, len: t.1, chunk: t.2 });
    let ghost cs = samples_view(chunk_samples@);
    proof {
        lemma_sorted_spans_len(spans_of(*manifest));
        lemma_render_grows(sv, cs, sv.len() as int);
        let all = spans_of(*manifest);
        assert forall|q: int| 0 <= q < all.len() implies chunk_in_range(#[trigger] all[q], cs.len() as int) by {
            if q >= manifest.chunks@.len() {
                assert(all[q].chunk is None);
            }
        }
        lemma_sort_spans_member(all, cs.len() as int);
    }
    let mut out: Vec<i16> = Vec::new();
    let mut k: usize = 0;
    while k < spans.len()
        invariant
            k <= spans@.len(),
            sv == spans@.map_values(|t: (u64, u64, Option<usize>)| Span { start: t.0, len: t.1, chunk: t.2 }),
            sv == sort_spans_by_start(spans_of(*manifest)),
            cs == samples_view(chunk_samples@),
            chunk_samples@.len() == manifest.chunks@.len(),
            forall|q: int| 0 <= q < sv.len() ==> chunk_in_range(#[trigger] sv[q], cs.len() as int),
            forall|a: int, b: int| 0 <= a <= b <= sv.len() ==> #[trigger] render(sv, cs, a).len() <= #[trigger] render(sv, cs, b).len(),
            render(sv, cs, sv.len() as int).len() <= usize::MAX,
            out@ == render(sv, cs, k as int),
        decreases spans@.len() - k,
    {
        let (start, len, chunk) = spans[k];
        assert(sv[k as int] == Span { start, len, chunk });
        let ghost before = out@;
        if (out.len() as u64) < start {
            assert(render(sv, cs, k + 1).len() >= start);
            let mut z: usize = out.len();
            while (z as u64) < start
                invariant
                    before.len() <= z <= start,
                    start <= usize::MAX,
                    out@ == before + zeros((z - before.len()) as nat),
                decreases start - z,
            {
                out.push(0);
                assert(out@ =~= before + zeros((z + 1 - before.len()) as nat));
                z += 1;
            }
        }
        let ghost padded = out@;
        let ghost full = render(sv, cs, (k + 1) as int);
        assert(full.len() <= render(sv, cs, sv.len() as int).len());
        assert(padded == (if before.len() < start { before + zeros((start - before.len()) as nat) } else { before }));
        match chunk {
            Some(c) => {
                assert(chunk_in_range(sv[k as int], cs.len() as int));
                let src = &chunk_samples[c];
                assert(cs[c as int] == src@);
                assert(full == padded + src@);
                let mut t: usize = 0;
                while t < src.len()
                    invariant
                        t <= src@.len(),
                        out@ == padded + src@.take(t as int),
                        out@.len() == padded.len() + t,
                        padded.len() + src@.len() <= usize::MAX,
                    decreases src@.len() - t,
                {
                    out.push(src[t]);
                    assert(src@.take(t + 1) =~= src@.take(t as int).push(src@[t as int]));
                    t += 1;
                }
                assert(src@.take(src@.len() as int) =~= src@);
            },
            None => {
                assert(full == padded + zeros(len as nat));
                let mut t: u64 = 0;
                while t < len
                    invariant
                        t <= len,
                        out@ == padded + zeros(t as nat),
                        padded.len() + len <= usize::MAX,
                    decreases len - t,
                {
                    out.push(0);
                    assert(out@ =~= padded + zeros((t + 1) as nat));
                    t += 1;
                }
            },
        }
        assert(out@ =~= render(sv, cs, k + 1));
        k += 1;
    }
    out
}

proof fn lemma_sorted_spans_len(s: Seq<Span>)
    ensures
        sort_spans_by_start(s).len() == s.len(),
    decreases s.len(),
{
    if s.len() > 0 {
        lemma_sorted_spans_len(s.drop_last());
        lemma_span_slot_range(sort_spans_by_start(s.drop_last()), s.last(), 0);
    }
}

proof fn lemma_render_grows(sv: Seq<Span>, cs: Seq<Seq<i16>>, n: int)
    requires
        n <= sv.len(),
    ensures
        forall|a: int, b: int| 0 <= a <= b <= n ==> #[trigger] render(sv, cs, a).len() <= #[trigger] render(sv, cs, b).len(),
    decreases n,
{
    if n > 0 {
        lemma_render_grows(sv, cs, n - 1);
        assert(render(sv, cs, n - 1).len() <= render(sv, cs, n).len());
    }
}

/// How far one consolidation has come.
#[derive(Debug, Clone, Copy, PartialEq, Eq, Structural)]
pub enum Stage {
    /// The FLAC file must be (re)encoded from the chunks.
    NeedsEncode,
    /// `<name>.part` holds the encoder's output.
    Encoded,
    /// The output decodes to the chunk sequence, sample for sample, at the track's format.
    Verified,
    /// `<name>.part` was renamed to the FLAC file.
    Renamed,
    /// The manifest names the FLAC file; it is being saved.
    Recording,
    /// The manifest naming the FLAC file is durable: chunks may go.
    Recorded,
    /// Verification failed; the chunks stay.
    Failed,
}

/// Where a run starts on a loaded manifest: at deleting chunks when the manifest already names
/// its FLAC file and that file exists, else at encoding.
pub open spec fn start_stage(manifest: ChunkManifest, flac_exists: bool) -> Stage {
    if manifest.consolidated_file is None || !flac_exists {
        Stage::NeedsEncode
    } else {
        Stage::Recorded
    }
}

/// One track's consolidation. The caller does the filesystem work between the steps; each step
/// decides what comes next, and chunks may be deleted only once the FLAC file is verified,
/// renamed into place and recorded in a saved manifest.
pub struct Consolidation {
    manifest: ChunkManifest,
    name: String,
    stage: Stage,
    encoded: bool,
    expected_len: u64,
    deleted: usize,
    crash_after: Option<CrashPoint>,
    total_samples: u64,
    now_ms: u64,
}

impl Consolidation {
    pub closed spec fn stage_spec(&self) -> Stage {
        self.stage
    }

    /// The step after which the run was told to stop, as if it crashed there.
    pub closed spec fn crash_spec(&self) -> Option<CrashPoint> {
        self.crash_after
    }

    pub closed spec fn manifest_spec(&self) -> ChunkManifest {
        self.manifest
    }

    pub closed spec fn name_spec(&self) -> Seq<char> {
        self.name@
    }

    pub closed spec fn deleted_spec(&self) -> usize {
        self.deleted
    }

    pub closed spec fn now_spec(&self) -> u64 {
        self.now_ms
    }

    pub closed spec fn total_spec(&self) -> u64 {
        self.total_samples
    }

    pub closed spec fn encoded_spec(&self) -> bool {
        self.encoded
    }

    pub closed spec fn expected_len_spec(&self) -> u64 {
        self.expected_len
    }

    /// The FLAC file name, as a value.
    pub closed spec fn name_value(&self) -> String {
        self.name
    }

    /// Whatever the stage, once at `Recorded` the manifest names the FLAC file.
    pub closed spec fn wf(&self) -> bool {
        &&& (self.stage == Stage::Recording || self.stage == Stage::Recorded) ==> self.manifest.consolidated_file is Some
        &&& self.deleted > 0 ==> self.stage == Stage::Recorded
    }

    /// Start on a loaded manifest. It needs encoding unless it already names its FLAC file and
    /// that file exists.
    pub fn begin(
        manifest: ChunkManifest,
        flac_exists: bool,
        crash_after: Option<CrashPoint>,
        now_ms: u64,
    ) -> (c: Consolidation)
        requires
            crate::chunk_manifest::records_fit(manifest.chunks@),
        ensures
            c.wf(),
            c.crash_spec() == crash_after,
            c.manifest_spec() == manifest,
            c.stage_spec() == start_stage(manifest, flac_exists),
            c.deleted_spec() == 0,
            c.now_spec() == now_ms,
            c.total_spec() == if crate::chunk_manifest::records_end(manifest.chunks@) >= crate::timeline::gaps_end(manifest.gaps@) {
                crate::chunk_manifest::records_end(manifest.chunks@)
            } else {
                crate::timeline::gaps_end(manifest.gaps@)
            },
            !c.encoded_spec(),
    {
        let name = manifest.flac_name();
        let total_samples = manifest.end_sample();
        let stage = if manifest.consolidated_file.is_none() || !flac_exists {
            Stage::NeedsEncode
        } else {
            Stage::Recorded
        };
        let c = Consolidation {
            manifest,
            name,
            stage,
            encoded: false,
            expected_len: 0,
            deleted: 0,
            crash_after,
            total_samples,
            now_ms,
        };
        c
    }

    /// The FLAC file name.
    pub fn name(&self) -> (n: &String)
        ensures
            n@ == self.name_spec(),
    {
        &self.name
    }

    /// The manifest as it stands.
    pub fn manifest(&self) -> (m: &ChunkManifest)
        ensures
            *m == self.manifest_spec(),
    {
        &self.manifest
    }

    pub fn stage(&self) -> (s: Stage)
        ensures
            s == self.stage_spec(),
    {
        self.stage
    }

    /// Encode the expected samples at the track's format. The bytes go to `<name>.part`.
    pub fn encode<E: Encoder>(&mut self, encoder: &E, expected: &[i16]) -> (r: Result<Vec<u8>, ConsolidateError>)
        requires
            old(self).wf(),
            old(self).stage_spec() == Stage::NeedsEncode,
        ensures
            final(self).wf(),
            final(self).crash_spec() == old(self).crash_spec(),
            final(self).manifest_spec() == old(self).manifest_spec(),
            r is Ok ==> final(self).stage_spec() == Stage::Encoded && final(self).encoded_spec()
                && final(self).expected_len_spec() == expected@.len(),
            r is Err ==> final(self).stage_spec() == old(self).stage_spec(),
            r matches Err(e) ==> e is Io,
            match encoder.encoding(
                old(self).manifest_spec().origin.sample_rate,
                old(self).manifest_spec().origin.channels,
                expected@,
            ) {
                Ok(b) => r matches Ok(x) && x@ == b,
                Err(m) => r matches Err(ConsolidateError::Io(t)) && t@ == m,
            },
            final(self).now_spec() == old(self).now_spec(),
            final(self).name_value() == old(self).name_value(),
            final(self).total_spec() == old(self).total_spec(),
            final(self).deleted_spec() == old(self).deleted_spec(),
    {
        let rate = self.manifest.origin.sample_rate;
        let channels = self.manifest.origin.channels;
        match encoder.encode(rate, channels, expected) {
            Ok(bytes) => {
                self.stage = Stage::Encoded;
                self.encoded = true;
                self.expected_len = expected.len() as u64;
                Ok(bytes)
            },
            Err(e) => Err(ConsolidateError::Io(e)),
        }
    }

    /// Whether the injected crash point is `point`.
    fn crashes_at(&self, point: CrashPoint) -> (r: bool)
        ensures
            r == (self.crash_after == Some(point)),
    {
        match self.crash_after {
            Some(p) => p == point,
            None => false,
        }
    }

    /// After `<name>.part` was written: the injected crash, if any, comes here.
    pub fn part_written(&self) -> (r: Result<(), ConsolidateError>)
        ensures
            r is Err <==> self.crash_spec() == Some(CrashPoint::AfterEncode),
            r is Err ==> r == Err::<(), ConsolidateError>(ConsolidateError::Crashed(CrashPoint::AfterEncode)),
    {
        if self.crashes_at(CrashPoint::AfterEncode) {
            return Err(ConsolidateError::Crashed(CrashPoint::AfterEncode));
        }
        Ok(())
    }

    /// Verify sample-exactly at the track's format before anything else: the written bytes must
    /// decode to `expected` at the origin's rate and channel count. On a mismatch the manifest
    /// records the failure (the caller removes the part and saves it) and the chunks stay.
    pub fn verify(&mut self, bytes: &[u8], expected: &[i16]) -> (r: Result<(), ConsolidateError>)
        requires
            old(self).wf(),
            old(self).stage_spec() == Stage::Encoded,
        ensures
            final(self).wf(),
            final(self).crash_spec() == old(self).crash_spec(),
            r is Ok <==> final(self).stage_spec() == Stage::Verified,
            match flac_decoded(bytes@) {
                Err(message) => {
                    &&& r matches Err(ConsolidateError::Io(t)) && t@ == message
                    &&& final(self).stage_spec() == old(self).stage_spec()
                    &&& final(self).manifest_spec() == old(self).manifest_spec()
                },
                Ok((rate, channels, samples)) => if rate == old(self).manifest_spec().origin.sample_rate
                    && channels == old(self).manifest_spec().origin.channels && samples == expected@ {
                    r is Ok
                } else {
                    &&& r == Err::<(), ConsolidateError>(ConsolidateError::VerificationMismatch {
                        expected_samples: expected@.len() as u64,
                        decoded_samples: samples.len() as u64,
                    })
                    &&& final(self).stage_spec() == Stage::Failed
                },
            },
            r is Ok ==> (flac_decoded(bytes@) matches Ok((rate, channels, samples)) && rate
                == old(self).manifest_spec().origin.sample_rate && channels == old(self).manifest_spec().origin.channels
                && samples == expected@),
            r is Ok ==> final(self).manifest_spec() == old(self).manifest_spec(),
            r matches Err(ConsolidateError::VerificationMismatch { expected_samples, decoded_samples }) ==> {
                &&& final(self).manifest_spec() == (ChunkManifest {
                    events: final(self).manifest_spec().events,
                    ..old(self).manifest_spec()
                })
                &&& final(self).manifest_spec().events@ == old(self).manifest_spec().events@.push(
                    ManifestEvent {
                        kind: ManifestEventKind::ConsolidationFailed,
                        at_ms: old(self).now_spec(),
                        seq: None,
                        file: Some(old(self).name_value()),
                        samples: Some(decoded_samples),
                    },
                )
                &&& expected_samples == expected@.len()
            },
            final(self).now_spec() == old(self).now_spec(),
            final(self).name_value() == old(self).name_value(),
            final(self).total_spec() == old(self).total_spec(),
            final(self).encoded_spec() == old(self).encoded_spec(),
            final(self).deleted_spec() == old(self).deleted_spec(),
            final(self).expected_len_spec() == old(self).expected_len_spec(),
    {
        match decode_flac(bytes) {
            Err(e) => Err(ConsolidateError::Io(e)),
            Ok((rate, channels, decoded)) => {
                let same = rate == self.manifest.origin.sample_rate && channels
                    == self.manifest.origin.channels && same_samples(&decoded, expected);
                if !same {
                    self.stage = Stage::Failed;
                    self.manifest.events.push(
                        ManifestEvent {
                            kind: ManifestEventKind::ConsolidationFailed,
                            at_ms: self.now_ms,
                            seq: None,
                            file: Some(self.name.clone()),
                            samples: Some(decoded.len() as u64),
                        },
                    );
                    return Err(
                        ConsolidateError::VerificationMismatch {
                            expected_samples: expected.len() as u64,
                            decoded_samples: decoded.len() as u64,
                        },
                    );
                }
                self.stage = Stage::Verified;
                Ok(())
            },
        }
    }

    /// After verification: the injected crash, if any, comes here.
    pub fn verified(&self) -> (r: Result<(), ConsolidateError>)
        ensures
            r is Err <==> self.crash_spec() == Some(CrashPoint::AfterVerify),
            r is Err ==> r == Err::<(), ConsolidateError>(ConsolidateError::Crashed(CrashPoint::AfterVerify)),
    {
        if self.crashes_at(CrashPoint::AfterVerify) {
            return Err(ConsolidateError::Crashed(CrashPoint::AfterVerify));
        }
        Ok(())
    }

    /// The part was renamed into place: record the FLAC file in the manifest (which the caller
    /// then saves), unless the injected crash comes first.
    pub fn renamed(&mut self) -> (r: Result<(), ConsolidateError>)
        requires
            old(self).wf(),
            old(self).stage_spec() == Stage::Verified,
        ensures
            final(self).wf(),
            final(self).crash_spec() == old(self).crash_spec(),
            r is Err <==> old(self).crash_spec() == Some(CrashPoint::AfterRename),
            r is Err ==> r == Err::<(), ConsolidateError>(ConsolidateError::Crashed(CrashPoint::AfterRename))
                && *final(self) == *old(self),
            r is Ok ==> final(self).stage_spec() == Stage::Recording && final(self).manifest_spec() == (ChunkManifest {
                consolidated_file: Some(old(self).name_value()),
                events: final(self).manifest_spec().events,
                ..old(self).manifest_spec()
            }) && final(self).manifest_spec().events@ == old(self).manifest_spec().events@.push(
                ManifestEvent {
                    kind: ManifestEventKind::Consolidated,
                    at_ms: old(self).now_spec(),
                    seq: None,
                    file: Some(old(self).name_value()),
                    samples: Some(old(self).expected_len_spec()),
                },
            ),
            final(self).now_spec() == old(self).now_spec(),
            final(self).name_value() == old(self).name_value(),
            final(self).total_spec() == old(self).total_spec(),
            final(self).encoded_spec() == old(self).encoded_spec(),
            final(self).deleted_spec() == old(self).deleted_spec(),
    {
        if self.crashes_at(CrashPoint::AfterRename) {
            return Err(ConsolidateError::Crashed(CrashPoint::AfterRename));
        }
        self.manifest.consolidated_file = Some(self.name.clone());
        self.manifest.events.push(
            ManifestEvent {
                kind: ManifestEventKind::Consolidated,
                at_ms: self.now_ms,
                seq: None,
                file: Some(self.name.clone()),
                samples: Some(self.expected_len),
            },
        );
        self.stage = Stage::Recording;
        Ok(())
    }

    /// The manifest naming the FLAC file was saved: from now on chunks may go, unless the
    /// injected crash comes first.
    pub fn record_saved(&mut self) -> (r: Result<(), ConsolidateError>)
        requires
            old(self).wf(),
            old(self).stage_spec() == Stage::Recording,
        ensures
            final(self).wf(),
            final(self).crash_spec() == old(self).crash_spec(),
            r is Err <==> old(self).crash_spec() == Some(CrashPoint::AfterRecord),
            r is Err ==> r == Err::<(), ConsolidateError>(ConsolidateError::Crashed(CrashPoint::AfterRecord))
                && *final(self) == *old(self),
            r is Ok ==> final(self).stage_spec() == Stage::Recorded,
            final(self).manifest_spec() == old(self).manifest_spec(),
            final(self).now_spec() == old(self).now_spec(),
            final(self).name_value() == old(self).name_value(),
            final(self).total_spec() == old(self).total_spec(),
            final(self).encoded_spec() == old(self).encoded_spec(),
            final(self).deleted_spec() == old(self).deleted_spec(),
    {
        if self.crashes_at(CrashPoint::AfterRecord) {
            return Err(ConsolidateError::Crashed(CrashPoint::AfterRecord));
        }
        self.stage = Stage::Recorded;
        Ok(())
    }

    /// Whether chunk files may be deleted now.
    pub fn may_delete(&self) -> (r: bool)
        ensures
            r == (self.stage_spec() == Stage::Recorded),
    {
        self.stage == Stage::Recorded
    }

    /// A chunk file the manifest lists was deleted.
    pub fn chunk_deleted(&mut self)
        requires
            old(self).wf(),
            old(self).stage_spec() == Stage::Recorded,
        ensures
            final(self).wf(),
            final(self).crash_spec() == old(self).crash_spec(),
            final(self).deleted_spec() == if old(self).deleted_spec() < usize::MAX {
                (old(self).deleted_spec() + 1) as usize
            } else {
                usize::MAX
            },
            final(self).stage_spec() == old(self).stage_spec(),
            final(self).manifest_spec() == old(self).manifest_spec(),
            final(self).now_spec() == old(self).now_spec(),
            final(self).name_value() == old(self).name_value(),
            final(self).total_spec() == old(self).total_spec(),
            final(self).encoded_spec() == old(self).encoded_spec(),
    {
        self.deleted = self.deleted.saturating_add(1);
    }

    /// Every listed chunk was dealt with: record the deletions (when there were any) for the
    /// caller to save, and report. `flac_file` is where the FLAC file lives.
    pub fn finish(&mut self, flac_file: String) -> (r: (ConsolidateReport, bool))
        requires
            old(self).wf(),
            old(self).stage_spec() == Stage::Recorded,
        ensures
            final(self).wf(),
            final(self).crash_spec() == old(self).crash_spec(),
            r.0.flac_file@ == flac_file@,
            r.0.samples == old(self).total_spec(),
            r.0.encoded == old(self).encoded_spec(),
            r.0.chunks_deleted == old(self).deleted_spec(),
            r.1 == (old(self).deleted_spec() > 0),
            r.1 ==> final(self).manifest_spec() == (ChunkManifest {
                events: final(self).manifest_spec().events,
                ..old(self).manifest_spec()
            }) && final(self).manifest_spec().events@ == old(self).manifest_spec().events@.push(
                ManifestEvent {
                    kind: ManifestEventKind::ChunksDeleted,
                    at_ms: old(self).now_spec(),
                    seq: None,
                    file: None,
                    samples: Some(old(self).deleted_spec() as u64),
                },
            ),
            !r.1 ==> final(self).manifest_spec() == old(self).manifest_spec(),
    {
        let save = self.deleted > 0;
        if save {
            self.manifest.events.push(
                ManifestEvent {
                    kind: ManifestEventKind::ChunksDeleted,
                    at_ms: self.now_ms,
                    seq: None,
                    file: None,
                    samples: Some(self.deleted as u64),
                },
            );
        }
        let report = ConsolidateReport {
            flac_file,
            samples: self.total_samples,
            encoded: self.encoded,
            chunks_deleted: self.deleted,
        };
        (report, save)
    }
}

/// Whether two sample sequences are equal.
fn same_samples(a: &Vec<i16>, b: &[i16]) -> (r: bool)
    ensures
        r == (a@ == b@),
{
    if a.len() != b.len() {
        return false;
    }
    let mut i: usize = 0;
    while i < a.len()
        invariant
            i <= a@.len(),
            a@.len() == b@.len(),
            forall|k: int| 0 <= k < i ==> a@[k] == b@[k],
        decreases a@.len() - i,
    {
        if a[i] != b[i] {
            return false;
        }
        i += 1;
    }
    assert(a@ =~= b@);
    true
}


/// Encode → verify → rename → record → delete: whenever chunk files may be deleted, the manifest
/// already names the consolidated FLAC file (and, from `begin`, that file exists).
pub proof fn law_delete_only_after_record(c: Consolidation)
    requires
        c.wf(),
        c.stage_spec() == Stage::Recorded,
    ensures
        c.manifest_spec().consolidated_file is Some,
{
}

/// A run that crashed resumes from what is durable. Once the manifest naming the FLAC file is
/// being saved or was saved, a rerun on it (with the FLAC file in place) starts at deleting
/// chunks and encodes nothing again; on a manifest that names no FLAC file it encodes anew, so
/// there is never a second FLAC file for a track and never a deletion before the record.
pub proof fn law_rerun_resumes_from_record(c: Consolidation, flac_exists: bool)
    requires
        c.wf(),
    ensures
        (c.stage_spec() == Stage::Recording || c.stage_spec() == Stage::Recorded) && flac_exists
            ==> start_stage(c.manifest_spec(), flac_exists) == Stage::Recorded,
        c.manifest_spec().consolidated_file is None ==> start_stage(c.manifest_spec(), flac_exists)
            == Stage::NeedsEncode,
{
}

/// The first `n` pieces lie end to end from sample 0, and each chunk piece's samples are as many
/// as the piece is long.
pub open spec fn laid_end_to_end(spans: Seq<Span>, chunk_samples: Seq<Seq<i16>>, n: int) -> bool {
    &&& 0 <= n <= spans.len()
    &&& n > 0 ==> spans[0].start == 0
    &&& forall|k: int| 0 < k < n ==> (#[trigger] spans[k]).start == spans[k - 1].start + spans[k - 1].len
    &&& forall|k: int|
        0 <= k < n ==> ((#[trigger] spans[k]).chunk matches Some(i) ==> (i as int) < chunk_samples.len()
            && chunk_samples[i as int].len() == spans[k].len)
}

/// Where the first `n` pieces end (0 for none).
pub open spec fn pieces_end(spans: Seq<Span>, n: int) -> int {
    if n <= 0 {
        0
    } else {
        spans[n - 1].start + spans[n - 1].len
    }
}

/// Rendering pieces that lie end to end puts every sample at its track position: the result is
/// exactly as long as the pieces reach, each chunk's samples sit at
/// `[start, start + len)`, and every sample of a gap is silence.
pub proof fn law_rendered_samples_sit_at_their_positions(spans: Seq<Span>, chunk_samples: Seq<Seq<i16>>, n: int)
    requires
        laid_end_to_end(spans, chunk_samples, n),
    ensures
        render(spans, chunk_samples, n).len() == pieces_end(spans, n),
        forall|k: int, j: int|
            0 <= k < n && 0 <= j < spans[k].len ==> #[trigger] render(spans, chunk_samples, n)[spans[k].start + j]
                == match spans[k].chunk {
                Some(i) => chunk_samples[i as int][j],
                None => 0i16,
            },
    decreases n,
{
    if n > 0 {
        let prev = render(spans, chunk_samples, n - 1);
        assert(laid_end_to_end(spans, chunk_samples, n - 1));
        law_rendered_samples_sit_at_their_positions(spans, chunk_samples, n - 1);
        let sp = spans[n - 1];
        assert(prev.len() == sp.start) by {
            if n > 1 {
                assert(spans[n - 1].start == spans[n - 2].start + spans[n - 2].len);
            }
        }
        let piece = match sp.chunk {
            Some(i) => chunk_samples[i as int],
            None => zeros(sp.len as nat),
        };
        assert(render(spans, chunk_samples, n) == prev + piece);
        assert(piece.len() == sp.len);
        let out = render(spans, chunk_samples, n);
        assert forall|k: int, j: int| 0 <= k < n && 0 <= j < spans[k].len implies #[trigger] out[spans[k].start + j]
            == match spans[k].chunk {
            Some(i) => chunk_samples[i as int][j],
            None => 0i16,
        } by {
            if k < n - 1 {
                assert(spans[k].start + spans[k].len <= pieces_end(spans, n - 1)) by {
                    lemma_pieces_grow(spans, chunk_samples, k + 1, n - 1);
                }
                assert(out[spans[k].start + j] == prev[spans[k].start + j]);
            } else {
                assert(out[spans[k].start + j] == piece[j]);
            }
        }
    }
}

proof fn lemma_pieces_grow(spans: Seq<Span>, chunk_samples: Seq<Seq<i16>>, a: int, b: int)
    requires
        laid_end_to_end(spans, chunk_samples, b),
        0 < a <= b,
    ensures
        pieces_end(spans, a) <= pieces_end(spans, b),
    decreases b - a,
{
    if a < b {
        assert(spans[a].start == spans[a - 1].start + spans[a - 1].len);
        lemma_pieces_grow(spans, chunk_samples, a + 1, b);
    }
}

/// Two pieces do not overlap: one ends at or before the other starts.
pub open spec fn apart(x: Span, y: Span) -> bool {
    x.start + x.len <= y.start || y.start + y.len <= x.start
}

/// The furthest any of the first `n` pieces reaches (0 for none).
pub open spec fn furthest(spans: Seq<Span>, n: int) -> int
    decreases n,
{
    if n <= 0 {
        0
    } else {
        let rest = furthest(spans, n - 1);
        let e = spans[n - 1].start + spans[n - 1].len;
        if rest >= e { rest } else { e }
    }
}

/// The first `n` pieces come in start order, none overlaps a non-empty piece after it, and each
/// chunk piece's samples are as many as the piece is long.
pub open spec fn in_start_order(spans: Seq<Span>, chunk_samples: Seq<Seq<i16>>, n: int) -> bool {
    &&& 0 <= n <= spans.len()
    &&& forall|a: int, b: int|
        0 <= a < b < n ==> (#[trigger] spans[a]).start <= (#[trigger] spans[b]).start && (spans[b].len > 0
            ==> spans[a].start + spans[a].len <= spans[b].start)
    &&& forall|k: int|
        0 <= k < n ==> ((#[trigger] spans[k]).chunk matches Some(i) ==> (i as int) < chunk_samples.len()
            && chunk_samples[i as int].len() == spans[k].len)
}

proof fn lemma_furthest_bounds(spans: Seq<Span>, n: int)
    requires
        0 <= n <= spans.len(),
    ensures
        furthest(spans, n) >= 0,
        forall|k: int| 0 <= k < n ==> (#[trigger] spans[k]).start + spans[k].len <= furthest(spans, n),
        furthest(spans, n) == 0 || exists|k: int|
            0 <= k < n && (#[trigger] spans[k]).start + spans[k].len == furthest(spans, n),
    decreases n,
{
    if n > 0 {
        lemma_furthest_bounds(spans, n - 1);
    }
}

/// Rendering pieces in start order that do not overlap puts every sample at its track position:
/// the result reaches exactly as far as the furthest piece, each chunk's samples sit at
/// `[start, start + len)`, and every sample of a gap is silence.
pub proof fn law_rendered_pieces_in_order_sit_at_their_positions(
    spans: Seq<Span>,
    chunk_samples: Seq<Seq<i16>>,
    n: int,
)
    requires
        in_start_order(spans, chunk_samples, n),
    ensures
        render(spans, chunk_samples, n).len() == furthest(spans, n),
        forall|k: int, j: int|
            0 <= k < n && 0 <= j < spans[k].len ==> #[trigger] render(spans, chunk_samples, n)[spans[k].start + j]
                == match spans[k].chunk {
                Some(i) => chunk_samples[i as int][j],
                None => 0i16,
            },
    decreases n,
{
    if n > 0 {
        let prev = render(spans, chunk_samples, n - 1);
        assert(in_start_order(spans, chunk_samples, n - 1));
        law_rendered_pieces_in_order_sit_at_their_positions(spans, chunk_samples, n - 1);
        lemma_furthest_bounds(spans, n - 1);
        let sp = spans[n - 1];
        let padded = if prev.len() < sp.start {
            prev + zeros((sp.start - prev.len()) as nat)
        } else {
            prev
        };
        let piece = match sp.chunk {
            Some(i) => chunk_samples[i as int],
            None => zeros(sp.len as nat),
        };
        assert(render(spans, chunk_samples, n) == padded + piece);
        assert(piece.len() == sp.len);
        if sp.len > 0 {
            assert(prev.len() <= sp.start) by {
                if prev.len() > 0 {
                    let k = choose|k: int|
                        0 <= k < n - 1 && (#[trigger] spans[k]).start + spans[k].len == furthest(spans, n - 1);
                    assert(spans[k].start + spans[k].len <= spans[n - 1].start);
                }
            }
        }
        let out = render(spans, chunk_samples, n);
        assert forall|k: int, j: int| 0 <= k < n && 0 <= j < spans[k].len implies #[trigger] out[spans[k].start + j]
            == match spans[k].chunk {
            Some(i) => chunk_samples[i as int][j],
            None => 0i16,
        } by {
            if k < n - 1 {
                assert(spans[k].start + spans[k].len <= furthest(spans, n - 1));
                assert(out[spans[k].start + j] == prev[spans[k].start + j]);
            } else {
                assert(padded.len() == sp.start);
                assert(out[spans[k].start + j] == piece[j]);
            }
        }
    }
}

/// Where a stable insertion puts `x`: every piece before that place starts at or before `x`,
/// and the piece at it starts after `x`.
proof fn lemma_span_slot_props(p: Seq<Span>, x: Span, j: int)
    requires
        0 <= j <= p.len(),
        forall|i: int| 0 <= i < j ==> (#[trigger] p[i]).start <= x.start,
    ensures
        j <= span_slot(p, x, j) <= p.len(),
        forall|i: int| 0 <= i < span_slot(p, x, j) ==> (#[trigger] p[i]).start <= x.start,
        span_slot(p, x, j) < p.len() ==> p[span_slot(p, x, j)].start > x.start,
    decreases p.len() - j,
{
    if j < p.len() && p[j].start <= x.start {
        lemma_span_slot_props(p, x, j + 1);
    }
}

/// The insertion sort keeps the pieces: each place of the result holds a piece of the input, and
/// each piece of the input is at some place of the result.
#[verifier::rlimit(100)]
#[verifier::spinoff_prover]
proof fn lemma_sort_members(s: Seq<Span>)
    ensures
        sort_spans_by_start(s).len() == s.len(),
        forall|q: int|
            0 <= q < s.len() ==> exists|k: int| 0 <= k < s.len() && #[trigger] sort_spans_by_start(s)[q] == s[k],
        forall|k: int|
            0 <= k < s.len() ==> exists|q: int| 0 <= q < s.len() && sort_spans_by_start(s)[q] == #[trigger] s[k],
    decreases s.len(),
{
    if s.len() > 0 {
        let init = s.drop_last();
        let x = s.last();
        lemma_sort_members(init);
        let p = sort_spans_by_start(init);
        lemma_span_slot_range(p, x, 0);
        let slot = span_slot(p, x, 0);
        let r = p.insert(slot, x);
        assert(sort_spans_by_start(s) == r);
        assert forall|q: int| 0 <= q < s.len() implies exists|k: int| 0 <= k < s.len() && #[trigger] r[q] == s[k] by {
            if q < slot {
                assert(r[q] == p[q]);
                let k = choose|k: int| 0 <= k < init.len() && p[q] == init[k];
                assert(init[k] == s[k]);
            } else if q == slot {
                assert(r[q] == s[s.len() - 1]);
            } else {
                assert(r[q] == p[q - 1]);
                let k = choose|k: int| 0 <= k < init.len() && p[q - 1] == init[k];
                assert(init[k] == s[k]);
            }
        }
        assert forall|k: int| 0 <= k < s.len() implies exists|q: int| 0 <= q < s.len() && r[q] == #[trigger] s[k] by {
            if k == s.len() - 1 {
                assert(r[slot] == s[k]);
            } else {
                assert(s[k] == init[k]);
                let q = choose|q: int| 0 <= q < init.len() && p[q] == #[trigger] init[k];
                if q < slot {
                    assert(r[q] == p[q]);
                } else {
                    assert(r[q + 1] == p[q]);
                }
            }
        }
    }
}

/// The insertion sort orders the pieces by start.
#[verifier::rlimit(100)]
#[verifier::spinoff_prover]
proof fn lemma_sort_ordered(s: Seq<Span>)
    ensures
        sort_spans_by_start(s).len() == s.len(),
        forall|a: int, b: int|
            0 <= a < b < s.len() ==> (#[trigger] sort_spans_by_start(s)[a]).start
                <= (#[trigger] sort_spans_by_start(s)[b]).start,
    decreases s.len(),
{
    if s.len() > 0 {
        let init = s.drop_last();
        let x = s.last();
        lemma_sort_ordered(init);
        let p = sort_spans_by_start(init);
        lemma_span_slot_props(p, x, 0);
        let slot = span_slot(p, x, 0);
        let r = p.insert(slot, x);
        assert(sort_spans_by_start(s) == r);
        assert forall|a: int, b: int| 0 <= a < b < s.len() implies (#[trigger] r[a]).start <= (#[trigger] r[b]).start by {
            if b < slot {
                assert(r[a] == p[a] && r[b] == p[b]);
            } else if b == slot {
                assert(r[a] == p[a]);
            } else if a < slot {
                assert(r[a] == p[a] && r[b] == p[b - 1]);
                assert(p[slot].start > x.start);
                if b - 1 > slot {
                    assert(p[slot].start <= p[b - 1].start);
                }
            } else if a == slot {
                assert(r[b] == p[b - 1]);
                assert(p[slot].start > x.start);
                if b - 1 > slot {
                    assert(p[slot].start <= p[b - 1].start);
                }
            } else {
                assert(r[a] == p[a - 1] && r[b] == p[b - 1]);
            }
        }
    }
}

/// Pieces that pairwise do not overlap still do not after sorting.
#[verifier::rlimit(100)]
#[verifier::spinoff_prover]
proof fn lemma_sort_apart(s: Seq<Span>)
    requires
        forall|i: int, j: int| 0 <= i < s.len() && 0 <= j < s.len() && i != j ==> apart(#[trigger] s[i], #[trigger] s[j]),
    ensures
        forall|a: int, b: int|
            0 <= a < s.len() && 0 <= b < s.len() && a != b ==> apart(
                #[trigger] sort_spans_by_start(s)[a],
                #[trigger] sort_spans_by_start(s)[b],
            ),
    decreases s.len(),
{
    if s.len() > 0 {
        let init = s.drop_last();
        let x = s.last();
        assert forall|i: int, j: int| 0 <= i < init.len() && 0 <= j < init.len() && i != j implies apart(
            #[trigger] init[i],
            #[trigger] init[j],
        ) by {
            assert(init[i] == s[i] && init[j] == s[j]);
        }
        lemma_sort_apart(init);
        lemma_sort_members(init);
        let p = sort_spans_by_start(init);
        lemma_span_slot_range(p, x, 0);
        let slot = span_slot(p, x, 0);
        let r = p.insert(slot, x);
        assert(sort_spans_by_start(s) == r);
        assert forall|a: int, b: int| 0 <= a < s.len() && 0 <= b < s.len() && a != b implies apart(
            #[trigger] r[a],
            #[trigger] r[b],
        ) by {
            let pa = if a < slot { a } else { a - 1 };
            let pb = if b < slot { b } else { b - 1 };
            if a != slot && b != slot {
                assert(r[a] == p[pa] && r[b] == p[pb]);
            } else if a == slot {
                assert(r[a] == x);
                assert(r[b] == p[pb]);
                let k = choose|k: int| 0 <= k < init.len() && p[pb] == init[k];
                assert(init[k] == s[k]);
                assert(apart(s[k], s[s.len() - 1]));
            } else {
                assert(r[b] == x);
                assert(r[a] == p[pa]);
                let k = choose|k: int| 0 <= k < init.len() && p[pa] == init[k];
                assert(init[k] == s[k]);
                assert(apart(s[k], s[s.len() - 1]));
            }
        }
    }
}

/// No two chunks or gaps of a manifest overlap, and no gap ends before it starts.
pub open spec fn pieces_apart(m: ChunkManifest) -> bool {
    &&& gaps_ordered(m.gaps@)
    &&& forall|i: int, j: int|
        0 <= i < m.chunks@.len() && 0 <= j < m.chunks@.len() && i != j ==> (#[trigger] m.chunks@[i]).start_sample
            + m.chunks@[i].len_samples <= (#[trigger] m.chunks@[j]).start_sample || m.chunks@[j].start_sample
            + m.chunks@[j].len_samples <= m.chunks@[i].start_sample
    &&& forall|i: int, j: int|
        0 <= i < m.gaps@.len() && 0 <= j < m.gaps@.len() && i != j ==> (#[trigger] m.gaps@[i]).to_sample
            <= (#[trigger] m.gaps@[j]).from_sample || m.gaps@[j].to_sample <= m.gaps@[i].from_sample
    &&& forall|i: int, j: int|
        0 <= i < m.chunks@.len() && 0 <= j < m.gaps@.len() ==> (#[trigger] m.chunks@[i]).start_sample
            + m.chunks@[i].len_samples <= (#[trigger] m.gaps@[j]).from_sample || m.gaps@[j].to_sample
            <= m.chunks@[i].start_sample
}

/// The pieces of a manifest: its chunks by index, then its gaps.
proof fn lemma_spans_shape(m: ChunkManifest)
    requires
        m.chunks@.len() <= usize::MAX,
    ensures
        spans_of(m).len() == m.chunks@.len() + m.gaps@.len(),
        forall|q: int|
            0 <= q < m.chunks@.len() ==> #[trigger] spans_of(m)[q] == (Span {
                start: m.chunks@[q].start_sample,
                len: m.chunks@[q].len_samples,
                chunk: Some(q as usize),
            }) && (q as usize) as int == q,
        forall|k: int|
            m.chunks@.len() <= k < spans_of(m).len() ==> (#[trigger] spans_of(m)[k]).chunk is None
                && spans_of(m)[k].start == m.gaps@[k - m.chunks@.len()].from_sample,
{
}

/// The pieces of a manifest whose chunks and gaps do not overlap do not overlap one another.
#[verifier::rlimit(100)]
#[verifier::spinoff_prover]
proof fn lemma_manifest_spans_apart(m: ChunkManifest)
    requires
        pieces_apart(m),
    ensures
        forall|i: int, j: int|
            0 <= i < spans_of(m).len() && 0 <= j < spans_of(m).len() && i != j ==> apart(
                #[trigger] spans_of(m)[i],
                #[trigger] spans_of(m)[j],
            ),
        forall|q: int|
            0 <= q < m.chunks@.len() ==> #[trigger] spans_of(m)[q] == (Span {
                start: m.chunks@[q].start_sample,
                len: m.chunks@[q].len_samples,
                chunk: Some(q as usize),
            }),
        forall|g: int|
            0 <= g < m.gaps@.len() ==> (#[trigger] spans_of(m)[m.chunks@.len() + g]).chunk is None
                && spans_of(m)[m.chunks@.len() + g].start == m.gaps@[g].from_sample && spans_of(m)[m.chunks@.len()
                + g].start + spans_of(m)[m.chunks@.len() + g].len == m.gaps@[g].to_sample,
        spans_of(m).len() == m.chunks@.len() + m.gaps@.len(),
{
    let sp = spans_of(m);
    let nc = m.chunks@.len() as int;
    assert forall|g: int| 0 <= g < m.gaps@.len() implies (#[trigger] sp[nc + g]).chunk is None && sp[nc + g].start
        == m.gaps@[g].from_sample && sp[nc + g].start + sp[nc + g].len == m.gaps@[g].to_sample by {
        assert(m.gaps@[g].from_sample <= m.gaps@[g].to_sample);
    }
    assert forall|i: int, j: int| 0 <= i < sp.len() && 0 <= j < sp.len() && i != j implies apart(
        #[trigger] sp[i],
        #[trigger] sp[j],
    ) by {
        if i >= nc {
            assert(m.gaps@[i - nc].from_sample <= m.gaps@[i - nc].to_sample);
        }
        if j >= nc {
            assert(m.gaps@[j - nc].from_sample <= m.gaps@[j - nc].to_sample);
        }
        if i < nc && j >= nc {
            assert(m.chunks@[i].start_sample + m.chunks@[i].len_samples <= m.gaps@[j - nc].from_sample
                || m.gaps@[j - nc].to_sample <= m.chunks@[i].start_sample);
        } else if i >= nc && j < nc {
            assert(m.chunks@[j].start_sample + m.chunks@[j].len_samples <= m.gaps@[i - nc].from_sample
                || m.gaps@[i - nc].to_sample <= m.chunks@[j].start_sample);
        }
    }
}

/// The sorted pieces of such a manifest come in start order, and none overlaps a non-empty
/// piece after it.
#[verifier::rlimit(100)]
#[verifier::spinoff_prover]
proof fn lemma_manifest_ordered(m: ChunkManifest)
    requires
        pieces_apart(m),
    ensures
        forall|a: int, b: int|
            0 <= a < b < spans_of(m).len() ==> (#[trigger] sort_spans_by_start(spans_of(m))[a]).start
                <= (#[trigger] sort_spans_by_start(spans_of(m))[b]).start && (sort_spans_by_start(spans_of(m))[b].len
                > 0 ==> sort_spans_by_start(spans_of(m))[a].start + sort_spans_by_start(spans_of(m))[a].len
                <= sort_spans_by_start(spans_of(m))[b].start),
{
    let sp = spans_of(m);
    let n = sp.len() as int;
    let srt = sort_spans_by_start(sp);
    lemma_manifest_spans_apart(m);
    lemma_sort_ordered(sp);
    lemma_sort_apart(sp);
    assert forall|a: int, b: int| 0 <= a < b < n implies (#[trigger] srt[a]).start <= (#[trigger] srt[b]).start && (
    srt[b].len > 0 ==> srt[a].start + srt[a].len <= srt[b].start) by {
        assert(apart(srt[a], srt[b]));
    }
}

/// Each chunk piece of the sorted pieces of a manifest holds as many samples as it is long.
#[verifier::rlimit(100)]
#[verifier::spinoff_prover]
proof fn lemma_manifest_sizes(m: ChunkManifest, chunk_samples: Seq<Seq<i16>>)
    requires
        m.chunks@.len() <= usize::MAX,
        chunk_samples.len() == m.chunks@.len(),
        forall|i: int| 0 <= i < m.chunks@.len() ==> (#[trigger] chunk_samples[i]).len() == m.chunks@[i].len_samples,
    ensures
        forall|k: int|
            0 <= k < spans_of(m).len() ==> ((#[trigger] sort_spans_by_start(spans_of(m))[k]).chunk matches Some(i)
                ==> (i as int) < chunk_samples.len() && chunk_samples[i as int].len() == sort_spans_by_start(
                spans_of(m),
            )[k].len),
{
    let sp = spans_of(m);
    let n = sp.len() as int;
    let nc = m.chunks@.len() as int;
    let srt = sort_spans_by_start(sp);
    lemma_spans_shape(m);
    lemma_sort_members(sp);
    assert forall|k: int| 0 <= k < n implies ((#[trigger] srt[k]).chunk matches Some(i) ==> (i as int)
        < chunk_samples.len() && chunk_samples[i as int].len() == srt[k].len) by {
        let q = choose|q: int| 0 <= q < n && #[trigger] srt[k] == sp[q];
        if q < nc {
            assert(chunk_samples[q].len() == m.chunks@[q].len_samples);
        }
    }
}

/// The sorted pieces of such a manifest are in start order for rendering.
proof fn lemma_manifest_in_order(m: ChunkManifest, chunk_samples: Seq<Seq<i16>>)
    requires
        m.chunks@.len() + m.gaps@.len() <= usize::MAX,
        pieces_apart(m),
        chunk_samples.len() == m.chunks@.len(),
        forall|i: int| 0 <= i < m.chunks@.len() ==> (#[trigger] chunk_samples[i]).len() == m.chunks@[i].len_samples,
    ensures
        in_start_order(sort_spans_by_start(spans_of(m)), chunk_samples, spans_of(m).len() as int),
{
    lemma_sort_members(spans_of(m));
    lemma_manifest_ordered(m);
    lemma_manifest_sizes(m, chunk_samples);
}

/// What rendering the sorted pieces of such a manifest gives, piece by piece.
#[verifier::rlimit(100)]
#[verifier::spinoff_prover]
proof fn lemma_expected_pieces(m: ChunkManifest, chunk_samples: Seq<Seq<i16>>)
    requires
        m.chunks@.len() + m.gaps@.len() <= usize::MAX,
        pieces_apart(m),
        chunk_samples.len() == m.chunks@.len(),
        forall|i: int| 0 <= i < m.chunks@.len() ==> (#[trigger] chunk_samples[i]).len() == m.chunks@[i].len_samples,
    ensures
        ({
            let sp = spans_of(m);
            let srt = sort_spans_by_start(sp);
            let n = sp.len() as int;
            let out = render(srt, chunk_samples, n);
            &&& srt.len() == n
            &&& forall|k: int| 0 <= k < n ==> exists|q: int| 0 <= q < n && srt[q] == #[trigger] sp[k]
            &&& forall|q: int| 0 <= q < n ==> exists|k: int| 0 <= k < n && #[trigger] srt[q] == sp[k]
            &&& out.len() == furthest(srt, n)
            &&& forall|k: int, j: int|
                0 <= k < n && 0 <= j < srt[k].len ==> #[trigger] out[srt[k].start + j] == match srt[k].chunk {
                    Some(i) => chunk_samples[i as int][j],
                    None => 0i16,
                }
            &&& forall|k: int| 0 <= k < n ==> (#[trigger] srt[k]).start + srt[k].len <= furthest(srt, n)
            &&& furthest(srt, n) == 0 || exists|k: int| 0 <= k < n && (#[trigger] srt[k]).start + srt[k].len == furthest(srt, n)
        }),
{
    let sp = spans_of(m);
    let n = sp.len() as int;
    let srt = sort_spans_by_start(sp);
    lemma_manifest_in_order(m, chunk_samples);
    lemma_sort_members(sp);
    law_rendered_pieces_in_order_sit_at_their_positions(srt, chunk_samples, n);
    lemma_furthest_bounds(srt, n);
}

/// The expected track of a manifest whose chunks and gaps do not overlap puts every sample at its
/// timeline position: each chunk's decoded samples sit at `[start_sample, start_sample +
/// len_samples)`, and every sample a gap covers is silence.
#[verifier::rlimit(100)]
#[verifier::spinoff_prover]
pub proof fn law_expected_track_keeps_every_position(m: ChunkManifest, chunk_samples: Seq<Seq<i16>>)
    requires
        m.chunks@.len() + m.gaps@.len() <= usize::MAX,
        pieces_apart(m),
        chunk_samples.len() == m.chunks@.len(),
        forall|i: int| 0 <= i < m.chunks@.len() ==> (#[trigger] chunk_samples[i]).len() == m.chunks@[i].len_samples,
    ensures
        forall|i: int, j: int|
            0 <= i < m.chunks@.len() && 0 <= j < m.chunks@[i].len_samples ==> render(
                sort_spans_by_start(spans_of(m)),
                chunk_samples,
                spans_of(m).len() as int,
            )[m.chunks@[i].start_sample + j] == #[trigger] chunk_samples[i][j],
        forall|g: int, t: int|
            0 <= g < m.gaps@.len() && (#[trigger] m.gaps@[g]).from_sample <= t < m.gaps@[g].to_sample ==> #[trigger] render(
                sort_spans_by_start(spans_of(m)),
                chunk_samples,
                spans_of(m).len() as int,
            )[t] == 0i16,
{
    let sp = spans_of(m);
    let nc = m.chunks@.len() as int;
    let n = sp.len() as int;
    let srt = sort_spans_by_start(sp);
    let out = render(srt, chunk_samples, n);
    lemma_manifest_spans_apart(m);
    lemma_spans_shape(m);
    lemma_expected_pieces(m, chunk_samples);
    assert forall|i: int, j: int| 0 <= i < nc && 0 <= j < m.chunks@[i].len_samples implies out[m.chunks@[i].start_sample
        + j] == #[trigger] chunk_samples[i][j] by {
        let q = choose|q: int| 0 <= q < n && srt[q] == #[trigger] sp[i];
        assert(srt[q].chunk == Some(i as usize) && srt[q].len == m.chunks@[i].len_samples);
        assert(srt[q].start == m.chunks@[i].start_sample);
        assert(0 <= j < srt[q].len);
        assert(out[srt[q].start + j] == chunk_samples[i][j]);
    }
    assert forall|g: int, t: int| 0 <= g < m.gaps@.len() && (#[trigger] m.gaps@[g]).from_sample <= t
        < m.gaps@[g].to_sample implies #[trigger] out[t] == 0i16 by {
        let k = nc + g;
        assert(sp[k].chunk is None);
        let q = choose|q: int| 0 <= q < n && srt[q] == #[trigger] sp[k];
        let j = t - m.gaps@[g].from_sample;
        assert(out[srt[q].start + j] == 0i16);
    }
}

/// The expected track of a manifest whose chunks and gaps do not overlap is exactly as long as
/// the furthest chunk or gap reaches.
#[verifier::rlimit(100)]
#[verifier::spinoff_prover]
pub proof fn law_expected_track_reaches_the_manifest_end(m: ChunkManifest, chunk_samples: Seq<Seq<i16>>)
    requires
        m.chunks@.len() + m.gaps@.len() <= usize::MAX,
        pieces_apart(m),
        chunk_samples.len() == m.chunks@.len(),
        forall|i: int| 0 <= i < m.chunks@.len() ==> (#[trigger] chunk_samples[i]).len() == m.chunks@[i].len_samples,
    ensures
        ({
            let len = render(sort_spans_by_start(spans_of(m)), chunk_samples, spans_of(m).len() as int).len();
            &&& forall|i: int|
                0 <= i < m.chunks@.len() ==> (#[trigger] m.chunks@[i]).start_sample + m.chunks@[i].len_samples <= len
            &&& forall|g: int| 0 <= g < m.gaps@.len() ==> (#[trigger] m.gaps@[g]).to_sample <= len
            &&& len == 0 || (exists|i: int|
                0 <= i < m.chunks@.len() && (#[trigger] m.chunks@[i]).start_sample + m.chunks@[i].len_samples == len)
                || (exists|g: int| 0 <= g < m.gaps@.len() && (#[trigger] m.gaps@[g]).to_sample == len)
        }),
{
    let sp = spans_of(m);
    let nc = m.chunks@.len() as int;
    let n = sp.len() as int;
    let srt = sort_spans_by_start(sp);
    let out = render(srt, chunk_samples, n);
    lemma_manifest_spans_apart(m);
    lemma_expected_pieces(m, chunk_samples);
    assert forall|i: int| 0 <= i < nc implies (#[trigger] m.chunks@[i]).start_sample + m.chunks@[i].len_samples
        <= out.len() by {
        let q = choose|q: int| 0 <= q < n && srt[q] == #[trigger] sp[i];
        assert(srt[q].start + srt[q].len <= furthest(srt, n));
    }
    assert forall|g: int| 0 <= g < m.gaps@.len() implies (#[trigger] m.gaps@[g]).to_sample <= out.len() by {
        let k = nc + g;
        let q = choose|q: int| 0 <= q < n && srt[q] == #[trigger] sp[k];
        assert(srt[q].start + srt[q].len <= furthest(srt, n));
        assert(sp[k].start + sp[k].len == m.gaps@[g].to_sample);
    }
    if out.len() != 0 {
        let k = choose|k: int| 0 <= k < n && (#[trigger] srt[k]).start + srt[k].len == furthest(srt, n);
        let q = choose|q: int| 0 <= q < n && #[trigger] srt[k] == sp[q];
        if q < nc {
            assert(m.chunks@[q].start_sample + m.chunks@[q].len_samples == out.len());
        } else {
            let g = q - nc;
            assert(sp[nc + g].start + sp[nc + g].len == m.gaps@[g].to_sample);
            assert(m.gaps@[g].to_sample == out.len());
        }
    }
}

} // verus!
