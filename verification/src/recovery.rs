//! Directory-truth recovery: adopt every `<seq>.wav` present, turn manifest records for absent
//! files into explicit gaps, repair or discard `.part` files, never renumber. The directory is
//! read (and `.part` files repaired on disk) by the caller; [`reconcile`] decides what the
//! manifest becomes from what was found.

use crate::chunk_manifest::{chunk_file_name, records_fit, ChunkManifest, ChunkRecord, ManifestEvent, ManifestEventKind};
use crate::timeline::{gaps_end, Gap, GapReason};
use vstd::prelude::*;

verus! {

broadcast use vstd::seq_lib::group_seq_properties;

/// What recovery did to one track directory.
#[derive(Debug, Clone, PartialEq, Eq)]
pub struct RecoveryReport {
    pub adopted: Vec<u32>,
    pub gapped: Vec<u32>,
    pub repaired: Vec<u32>,
    pub discarded: Vec<u32>,
    /// The manifest was absent or unreadable and has been rebuilt from the directory.
    pub rebuilt: bool,
    pub manifest: Option<ChunkManifest>,
}

impl RecoveryReport {
    /// Nothing to recover.
    pub fn empty() -> (r: RecoveryReport)
        ensures
            r.adopted@.len() == 0,
            r.gapped@.len() == 0,
            r.repaired@.len() == 0,
            r.discarded@.len() == 0,
            !r.rebuilt,
            r.manifest is None,
    {
        RecoveryReport {
            adopted: Vec::new(),
            gapped: Vec::new(),
            repaired: Vec::new(),
            discarded: Vec::new(),
            rebuilt: false,
            manifest: None,
        }
    }
}

/// What the chunk directory holds for one sequence number.
#[derive(Debug, Clone, Copy, PartialEq, Eq, Structural)]
pub struct ChunkFiles {
    pub seq: u32,
    /// `<seq>.wav` is present.
    pub has_wav: bool,
    /// `<seq>.wav.part` is present.
    pub has_part: bool,
}

/// What became of a `.part` file: repaired into `<seq>.wav` holding `samples` samples, or
/// discarded for lack of one complete frame.
#[derive(Debug, Clone, Copy, PartialEq, Eq, Structural)]
pub enum PartRepair {
    Repaired { samples: u64 },
    Discarded,
}

/// A chunk record as a value.
pub struct RecordView {
    pub seq: u32,
    pub file: Seq<char>,
    pub start_sample: u64,
    pub len_samples: u64,
}

pub open spec fn record_view(r: ChunkRecord) -> RecordView {
    RecordView { seq: r.seq, file: r.file@, start_sample: r.start_sample, len_samples: r.len_samples }
}

pub open spec fn records_view(rs: Seq<ChunkRecord>) -> Seq<RecordView> {
    rs.map_values(|r: ChunkRecord| record_view(r))
}

/// One past the last sample of the records before `seq` (0 without any).
pub open spec fn ends_before(records: Seq<RecordView>, seq: u32) -> nat
    decreases records.len(),
{
    if records.len() == 0 {
        0
    } else {
        let rest = ends_before(records.drop_last(), seq);
        let r = records.last();
        if r.seq < seq && (r.start_sample + r.len_samples) as nat > rest {
            (r.start_sample + r.len_samples) as nat
        } else {
            rest
        }
    }
}

/// The sample position of a chunk adopted at `seq`: after every earlier record and every gap.
pub open spec fn position_spec(records: Seq<RecordView>, gaps: Seq<Gap>, seq: u32) -> nat {
    let c = ends_before(records, seq);
    let g = gaps_end(gaps);
    if c >= g {
        c
    } else {
        g
    }
}

/// The sample position of an adopted chunk: after every earlier record and gap. Sequence numbers
/// are never renumbered.
pub fn position_for(manifest: &ChunkManifest, seq: u32) -> (p: u64)
    requires
        records_fit(manifest.chunks@),
    ensures
        p == position_spec(records_view(manifest.chunks@), manifest.gaps@, seq),
{
    let ghost rv = records_view(manifest.chunks@);
    let mut c: u64 = 0;
    let mut i: usize = 0;
    while i < manifest.chunks.len()
        invariant
            records_fit(manifest.chunks@),
            rv == records_view(manifest.chunks@),
            i <= manifest.chunks@.len(),
            c == ends_before(rv.take(i as int), seq),
        decreases manifest.chunks@.len() - i,
    {
        assert(rv.take(i + 1).drop_last() =~= rv.take(i as int));
        let r = &manifest.chunks[i];
        assert(r.start_sample + r.len_samples <= u64::MAX);
        if r.seq < seq && r.start_sample + r.len_samples > c {
            c = r.start_sample + r.len_samples;
        }
        i += 1;
    }
    assert(rv.take(rv.len() as int) =~= rv);
    let mut g: u64 = 0;
    let mut j: usize = 0;
    while j < manifest.gaps.len()
        invariant
            j <= manifest.gaps@.len(),
            g == gaps_end(manifest.gaps@.take(j as int)),
        decreases manifest.gaps@.len() - j,
    {
        assert(manifest.gaps@.take(j + 1).drop_last() == manifest.gaps@.take(j as int));
        if manifest.gaps[j].to_sample > g {
            g = manifest.gaps[j].to_sample;
        }
        j += 1;
    }
    assert(manifest.gaps@.take(manifest.gaps@.len() as int) == manifest.gaps@);
    if c >= g {
        c
    } else {
        g
    }
}

/// Whether the first `n` file entries list a `.wav` for `seq`.
pub open spec fn listed_wav(files: Seq<ChunkFiles>, seq: u32, n: int) -> bool
    decreases n,
{
    if n <= 0 || n > files.len() {
        false
    } else {
        (files[n - 1].seq == seq && files[n - 1].has_wav) || listed_wav(files, seq, n - 1)
    }
}

/// Whether the first `n` part outcomes repaired `seq`.
pub open spec fn repaired_in(repairs: Seq<(u32, PartRepair)>, seq: u32, n: int) -> bool
    decreases n,
{
    if n <= 0 || n > repairs.len() {
        false
    } else {
        (repairs[n - 1].0 == seq && repairs[n - 1].1 is Repaired) || repaired_in(repairs, seq, n - 1)
    }
}

/// Whether `<seq>.wav` exists once the `.part` files are dealt with.
pub open spec fn wav_present(files: Seq<ChunkFiles>, repairs: Seq<(u32, PartRepair)>, seq: u32) -> bool {
    listed_wav(files, seq, files.len() as int) || repaired_in(repairs, seq, repairs.len() as int)
}

/// The sample count `<seq>.wav` decoded to, from the first entry for `seq` (none: it did not
/// decode or was not read).
pub open spec fn decoded_len(decoded: Seq<(u32, Option<u64>)>, seq: u32, i: int) -> Option<u64>
    decreases decoded.len() - i,
{
    if i < 0 || i >= decoded.len() {
        None
    } else if decoded[i].0 == seq {
        decoded[i].1
    } else {
        decoded_len(decoded, seq, i + 1)
    }
}

/// An event as a value.
pub struct EventView {
    pub kind: ManifestEventKind,
    pub at_ms: u64,
    pub seq: Option<u32>,
    pub file: Option<Seq<char>>,
    pub samples: Option<u64>,
}

pub open spec fn event_view(e: ManifestEvent) -> EventView {
    EventView {
        kind: e.kind,
        at_ms: e.at_ms,
        seq: e.seq,
        file: match e.file {
            Some(f) => Some(f@),
            None => None,
        },
        samples: e.samples,
    }
}

pub open spec fn events_view(es: Seq<ManifestEvent>) -> Seq<EventView> {
    es.map_values(|e: ManifestEvent| event_view(e))
}

/// The event recorded for a part outcome.
pub open spec fn repair_event(r: (u32, PartRepair), now_ms: u64) -> EventView {
    match r.1 {
        PartRepair::Repaired { samples } => EventView {
            kind: ManifestEventKind::ChunkRepaired,
            at_ms: now_ms,
            seq: Some(r.0),
            file: Some(chunk_file_name(r.0)),
            samples: Some(samples),
        },
        PartRepair::Discarded => EventView {
            kind: ManifestEventKind::ChunkDiscarded,
            at_ms: now_ms,
            seq: Some(r.0),
            file: None,
            samples: None,
        },
    }
}

/// The sequence numbers with the given part outcome, in order.
pub open spec fn seqs_where(repairs: Seq<(u32, PartRepair)>, repaired: bool) -> Seq<u32>
    decreases repairs.len(),
{
    if repairs.len() == 0 {
        Seq::empty()
    } else {
        let rest = seqs_where(repairs.drop_last(), repaired);
        if (repairs.last().1 is Repaired) == repaired {
            rest.push(repairs.last().0)
        } else {
            rest
        }
    }
}

/// Record the part outcomes: their events, and which sequence numbers were repaired or
/// discarded.
fn record_repairs(
    events: &mut Vec<ManifestEvent>,
    repairs: &Vec<(u32, PartRepair)>,
    now_ms: u64,
    repaired: &mut Vec<u32>,
    discarded: &mut Vec<u32>,
)
    requires
        old(repaired)@.len() == 0,
        old(discarded)@.len() == 0,
    ensures
        events_view(final(events)@) == events_view(old(events)@) + repairs@.map_values(
            |r: (u32, PartRepair)| repair_event(r, now_ms),
        ),
        final(repaired)@ == seqs_where(repairs@, true),
        final(discarded)@ == seqs_where(repairs@, false),
{
    let ghost start = events_view(events@);
    let mut i: usize = 0;
    while i < repairs.len()
        invariant
            i <= repairs@.len(),
            events_view(events@) == start + repairs@.take(i as int).map_values(
                |r: (u32, PartRepair)| repair_event(r, now_ms),
            ),
            repaired@ == seqs_where(repairs@.take(i as int), true),
            discarded@ == seqs_where(repairs@.take(i as int), false),
        decreases repairs@.len() - i,
    {
        let (seq, outcome) = repairs[i];
        let event = match outcome {
            PartRepair::Repaired { samples } => {
                repaired.push(seq);
                ManifestEvent {
                    kind: ManifestEventKind::ChunkRepaired,
                    at_ms: now_ms,
                    seq: Some(seq),
                    file: Some(ChunkManifest::chunk_file(seq)),
                    samples: Some(samples),
                }
            },
            PartRepair::Discarded => {
                discarded.push(seq);
                ManifestEvent {
                    kind: ManifestEventKind::ChunkDiscarded,
                    at_ms: now_ms,
                    seq: Some(seq),
                    file: None,
                    samples: None,
                }
            },
        };
        let ghost before = events@;
        let ghost ev = event_view(event);
        events.push(event);
        proof {
            let t = repairs@.take(i + 1);
            assert(t.drop_last() =~= repairs@.take(i as int));
            assert(events_view(events@) =~= events_view(before).push(ev));
            assert(t.map_values(|r: (u32, PartRepair)| repair_event(r, now_ms)) =~= repairs@.take(
                i as int,
            ).map_values(|r: (u32, PartRepair)| repair_event(r, now_ms)).push(ev));
        }
        i += 1;
    }
    assert(repairs@.take(repairs@.len() as int) =~= repairs@);
}

/// The records whose file is present, in order.
pub open spec fn kept_records(rs: Seq<RecordView>, files: Seq<ChunkFiles>, repairs: Seq<(u32, PartRepair)>) -> Seq<
    RecordView,
>
    decreases rs.len(),
{
    if rs.len() == 0 {
        Seq::empty()
    } else {
        let rest = kept_records(rs.drop_last(), files, repairs);
        if wav_present(files, repairs, rs.last().seq) {
            rest.push(rs.last())
        } else {
            rest
        }
    }
}

/// The gap a record whose file is absent becomes.
pub open spec fn lost_gap(r: RecordView) -> Gap {
    Gap {
        from_sample: r.start_sample,
        to_sample: (r.start_sample + r.len_samples) as u64,
        reason: GapReason::ChunkLost,
    }
}

/// The gaps of the records whose file is absent, in order.
pub open spec fn lost_gaps(rs: Seq<RecordView>, files: Seq<ChunkFiles>, repairs: Seq<(u32, PartRepair)>) -> Seq<Gap>
    decreases rs.len(),
{
    if rs.len() == 0 {
        Seq::empty()
    } else {
        let rest = lost_gaps(rs.drop_last(), files, repairs);
        if wav_present(files, repairs, rs.last().seq) {
            rest
        } else {
            rest.push(lost_gap(rs.last()))
        }
    }
}

/// The sequence numbers of the records whose file is absent, in order.
pub open spec fn lost_seqs(rs: Seq<RecordView>, files: Seq<ChunkFiles>, repairs: Seq<(u32, PartRepair)>) -> Seq<u32>
    decreases rs.len(),
{
    if rs.len() == 0 {
        Seq::empty()
    } else {
        let rest = lost_seqs(rs.drop_last(), files, repairs);
        if wav_present(files, repairs, rs.last().seq) {
            rest
        } else {
            rest.push(rs.last().seq)
        }
    }
}

fn listed_wav_exec(files: &Vec<ChunkFiles>, seq: u32) -> (r: bool)
    ensures
        r == listed_wav(files@, seq, files@.len() as int),
{
    let mut i: usize = 0;
    let mut found = false;
    while i < files.len()
        invariant
            i <= files@.len(),
            found == listed_wav(files@, seq, i as int),
        decreases files@.len() - i,
    {
        if files[i].seq == seq && files[i].has_wav {
            found = true;
        }
        i += 1;
    }
    found
}

fn repaired_exec(repairs: &Vec<(u32, PartRepair)>, seq: u32) -> (r: bool)
    ensures
        r == repaired_in(repairs@, seq, repairs@.len() as int),
{
    let mut i: usize = 0;
    let mut found = false;
    while i < repairs.len()
        invariant
            i <= repairs@.len(),
            found == repaired_in(repairs@, seq, i as int),
        decreases repairs@.len() - i,
    {
        let (s, outcome) = repairs[i];
        if s == seq {
            match outcome {
                PartRepair::Repaired { .. } => found = true,
                PartRepair::Discarded => {},
            }
        }
        i += 1;
    }
    found
}

fn wav_present_exec(files: &Vec<ChunkFiles>, repairs: &Vec<(u32, PartRepair)>, seq: u32) -> (r: bool)
    ensures
        r == wav_present(files@, repairs@, seq),
{
    listed_wav_exec(files, seq) || repaired_exec(repairs, seq)
}

fn decoded_exec(decoded: &Vec<(u32, Option<u64>)>, seq: u32) -> (r: Option<u64>)
    ensures
        r == decoded_len(decoded@, seq, 0),
{
    let mut i: usize = 0;
    while i < decoded.len()
        invariant
            i <= decoded@.len(),
            decoded_len(decoded@, seq, 0) == decoded_len(decoded@, seq, i as int),
        decreases decoded@.len() - i,
    {
        if decoded[i].0 == seq {
            return decoded[i].1;
        }
        i += 1;
    }
    None
}

/// Manifest records for absent files become explicit gaps (`ChunkLost`); the others are kept.
fn drop_lost_records(
    chunks: &Vec<ChunkRecord>,
    files: &Vec<ChunkFiles>,
    repairs: &Vec<(u32, PartRepair)>,
    gaps: &mut Vec<Gap>,
    gapped: &mut Vec<u32>,
) -> (kept: Vec<ChunkRecord>)
    requires
        records_fit(chunks@),
        old(gapped)@.len() == 0,
    ensures
        records_view(kept@) == kept_records(records_view(chunks@), files@, repairs@),
        final(gaps)@ == old(gaps)@ + lost_gaps(records_view(chunks@), files@, repairs@),
        final(gapped)@ == lost_seqs(records_view(chunks@), files@, repairs@),
        forall|k: int| 0 <= k < kept@.len() ==> #[trigger] kept@[k].start_sample + kept@[k].len_samples
            <= u64::MAX,
{
    let ghost rv = records_view(chunks@);
    let ghost start_gaps = gaps@;
    let mut kept: Vec<ChunkRecord> = Vec::new();
    let mut i: usize = 0;
    while i < chunks.len()
        invariant
            records_fit(chunks@),
            rv == records_view(chunks@),
            i <= chunks@.len(),
            records_view(kept@) == kept_records(rv.take(i as int), files@, repairs@),
            gaps@ == start_gaps + lost_gaps(rv.take(i as int), files@, repairs@),
            gapped@ == lost_seqs(rv.take(i as int), files@, repairs@),
            forall|k: int| 0 <= k < kept@.len() ==> #[trigger] kept@[k].start_sample + kept@[k].len_samples
                <= u64::MAX,
        decreases chunks@.len() - i,
    {
        let r = chunks[i].duplicate();
        proof {
            assert(rv.take(i + 1).drop_last() =~= rv.take(i as int));
            assert(rv.take(i + 1).last() == record_view(r));
        }
        assert(r.start_sample + r.len_samples <= u64::MAX);
        if wav_present_exec(files, repairs, r.seq) {
            let ghost before = kept@;
            kept.push(r);
            assert(records_view(kept@) =~= records_view(before).push(record_view(r)));
        } else {
            gapped.push(r.seq);
            gaps.push(
                Gap {
                    from_sample: r.start_sample,
                    to_sample: r.start_sample + r.len_samples,
                    reason: GapReason::ChunkLost,
                },
            );
            assert(gaps@ =~= start_gaps + lost_gaps(rv.take(i + 1), files@, repairs@));
        }
        i += 1;
    }
    assert(rv.take(rv.len() as int) =~= rv);
    kept
}

/// Whether one of the first `n` records has sequence number `seq`.
pub open spec fn has_record(rs: Seq<RecordView>, seq: u32, n: int) -> bool
    decreases n,
{
    if n <= 0 || n > rs.len() {
        false
    } else {
        rs[n - 1].seq == seq || has_record(rs, seq, n - 1)
    }
}

/// The records, adoptions and events while present files are adopted.
pub struct AdoptState {
    pub records: Seq<RecordView>,
    pub adopted: Seq<u32>,
    pub events: Seq<EventView>,
}

/// One directory entry: a present `.wav` without a record is recorded at its sequence position
/// (after every earlier record and every gap) when it decodes; a repaired one is not reported
/// as adopted, its repair already is.
pub open spec fn adopt_step(
    st: AdoptState,
    f: ChunkFiles,
    repairs: Seq<(u32, PartRepair)>,
    decoded: Seq<(u32, Option<u64>)>,
    gaps: Seq<Gap>,
    now_ms: u64,
) -> AdoptState {
    let repaired = repaired_in(repairs, f.seq, repairs.len() as int);
    if !(f.has_wav || repaired) || has_record(st.records, f.seq, st.records.len() as int) {
        st
    } else {
        match decoded_len(decoded, f.seq, 0) {
            None => st,
            Some(len) => {
                let rec = RecordView {
                    seq: f.seq,
                    file: chunk_file_name(f.seq),
                    start_sample: position_spec(st.records, gaps, f.seq) as u64,
                    len_samples: len,
                };
                if repaired {
                    AdoptState { records: st.records.push(rec), ..st }
                } else {
                    AdoptState {
                        records: st.records.push(rec),
                        adopted: st.adopted.push(f.seq),
                        events: st.events.push(
                            EventView {
                                kind: ManifestEventKind::ChunkAdopted,
                                at_ms: now_ms,
                                seq: Some(f.seq),
                                file: Some(chunk_file_name(f.seq)),
                                samples: Some(len),
                            },
                        ),
                    }
                }
            },
        }
    }
}

/// The first `n` directory entries, adopted in order.
pub open spec fn adopt_fold(
    st: AdoptState,
    files: Seq<ChunkFiles>,
    n: int,
    repairs: Seq<(u32, PartRepair)>,
    decoded: Seq<(u32, Option<u64>)>,
    gaps: Seq<Gap>,
    now_ms: u64,
) -> AdoptState
    decreases n,
{
    if n <= 0 || n > files.len() {
        st
    } else {
        adopt_step(adopt_fold(st, files, n - 1, repairs, decoded, gaps, now_ms), files[n - 1], repairs, decoded, gaps, now_ms)
    }
}

/// Every record ends at or before `bound`.
pub open spec fn ends_within(rs: Seq<RecordView>, bound: int) -> bool {
    forall|k: int| 0 <= k < rs.len() ==> #[trigger] rs[k].start_sample + rs[k].len_samples <= bound
}

/// Every gap ends at or before `bound`.
pub open spec fn gaps_within(gs: Seq<Gap>, bound: int) -> bool {
    forall|k: int| 0 <= k < gs.len() ==> #[trigger] gs[k].to_sample <= bound
}

proof fn lemma_ends_before_bound(rs: Seq<RecordView>, seq: u32, bound: int)
    requires
        ends_within(rs, bound),
        bound >= 0,
    ensures
        ends_before(rs, seq) <= bound,
    decreases rs.len(),
{
    if rs.len() > 0 {
        lemma_ends_before_bound(rs.drop_last(), seq, bound);
        assert(rs[rs.len() - 1].start_sample + rs[rs.len() - 1].len_samples <= bound);
    }
}

proof fn lemma_gaps_end_bound(gs: Seq<Gap>, bound: int)
    requires
        gaps_within(gs, bound),
        bound >= 0,
    ensures
        gaps_end(gs) <= bound,
    decreases gs.len(),
{
    if gs.len() > 0 {
        lemma_gaps_end_bound(gs.drop_last(), bound);
        assert(gs[gs.len() - 1].to_sample <= bound);
    }
}

fn has_record_exec(rs: &Vec<ChunkRecord>, seq: u32) -> (r: bool)
    ensures
        r == has_record(records_view(rs@), seq, rs@.len() as int),
{
    let ghost rv = records_view(rs@);
    let mut i: usize = 0;
    let mut found = false;
    while i < rs.len()
        invariant
            i <= rs@.len(),
            rv == records_view(rs@),
            found == has_record(rv, seq, i as int),
        decreases rs@.len() - i,
    {
        if rs[i].seq == seq {
            found = true;
        }
        i += 1;
    }
    found
}

/// A bound on how long one chunk file can be, in samples (2^31), and on how many files a
/// directory listing holds.
pub const CHUNK_LEN_LIMIT: u64 = 0x8000_0000;

/// The position every record and gap must end within, so that each of `files` files adopted
/// behind them (each at most `CHUNK_LEN_LIMIT` samples) still has a position within 64 bits.
pub open spec fn position_limit(files: nat) -> int {
    u64::MAX - files * CHUNK_LEN_LIMIT
}

proof fn lemma_position_limit(files: nat, i: nat)
    requires
        files <= CHUNK_LEN_LIMIT,
        i <= files,
    ensures
        0 < position_limit(files),
        position_limit(files) + i * CHUNK_LEN_LIMIT <= u64::MAX,
        position_limit(files) + files * CHUNK_LEN_LIMIT == u64::MAX,
{
    assert(i * CHUNK_LEN_LIMIT <= files * CHUNK_LEN_LIMIT) by (nonlinear_arith)
        requires
            i <= files,
    ;
    assert(files * CHUNK_LEN_LIMIT <= 0x4000_0000_0000_0000) by (nonlinear_arith)
        requires
            files <= 0x8000_0000,
    ;
}

pub open spec fn len_within(o: Option<u64>) -> bool {
    match o {
        Some(n) => n <= CHUNK_LEN_LIMIT,
        None => true,
    }
}

/// Every decoded length is at most [`CHUNK_LEN_LIMIT`].
pub open spec fn decoded_within(decoded: Seq<(u32, Option<u64>)>) -> bool {
    forall|k: int| 0 <= k < decoded.len() ==> len_within(#[trigger] decoded[k].1)
}

/// Whether every record and gap of a manifest ends within the position limit for `files`
/// directory entries, as `reconcile` needs.
pub fn positions_within_limit(manifest: &ChunkManifest, files: usize) -> (r: bool)
    requires
        files <= CHUNK_LEN_LIMIT,
    ensures
        r == (ends_within(records_view(manifest.chunks@), position_limit(files as nat)) && gaps_within(
            manifest.gaps@,
            position_limit(files as nat),
        )),
{
    proof {
        lemma_position_limit(files as nat, 0);
    }
    let limit: u64 = u64::MAX - (files as u64) * CHUNK_LEN_LIMIT;
    let mut i: usize = 0;
    while i < manifest.chunks.len()
        invariant
            i <= manifest.chunks@.len(),
            ends_within(records_view(manifest.chunks@).take(i as int), position_limit(files as nat)),
            limit == position_limit(files as nat),
        decreases manifest.chunks@.len() - i,
    {
        let c = &manifest.chunks[i];
        if c.start_sample > limit || c.len_samples > limit - c.start_sample {
            assert(records_view(manifest.chunks@)[i as int].start_sample + records_view(
                manifest.chunks@,
            )[i as int].len_samples > limit);
            return false;
        }
        i += 1;
    }
    assert(records_view(manifest.chunks@).take(i as int) =~= records_view(manifest.chunks@));
    let mut j: usize = 0;
    while j < manifest.gaps.len()
        invariant
            j <= manifest.gaps@.len(),
            ends_within(records_view(manifest.chunks@), position_limit(files as nat)),
            gaps_within(manifest.gaps@.take(j as int), position_limit(files as nat)),
            limit == position_limit(files as nat),
        decreases manifest.gaps@.len() - j,
    {
        if manifest.gaps[j].to_sample > limit {
            return false;
        }
        j += 1;
    }
    assert(manifest.gaps@.take(j as int) =~= manifest.gaps@);
    true
}

/// Adopt every present `.wav` without a record, in directory order.
fn adopt_present(
    manifest: &mut ChunkManifest,
    files: &Vec<ChunkFiles>,
    repairs: &Vec<(u32, PartRepair)>,
    decoded: &Vec<(u32, Option<u64>)>,
    now_ms: u64,
    adopted: &mut Vec<u32>,
)
    requires
        ends_within(records_view(old(manifest).chunks@), position_limit(files@.len())),
        gaps_within(old(manifest).gaps@, position_limit(files@.len())),
        decoded_within(decoded@),
        files@.len() <= CHUNK_LEN_LIMIT,
        old(adopted)@.len() == 0,
    ensures
        ({
            let st = adopt_fold(
                AdoptState {
                    records: records_view(old(manifest).chunks@),
                    adopted: Seq::empty(),
                    events: events_view(old(manifest).events@),
                },
                files@,
                files@.len() as int,
                repairs@,
                decoded@,
                old(manifest).gaps@,
                now_ms,
            );
            &&& records_view(final(manifest).chunks@) == st.records
            &&& final(adopted)@ == st.adopted
            &&& events_view(final(manifest).events@) == st.events
        }),
        final(manifest).gaps@ == old(manifest).gaps@,
        final(manifest).track == old(manifest).track,
        final(manifest).role == old(manifest).role,
        final(manifest).origin == old(manifest).origin,
        final(manifest).predecessor == old(manifest).predecessor,
        final(manifest).successor == old(manifest).successor,
        final(manifest).consolidated_file == old(manifest).consolidated_file,
        final(manifest).schema_version == old(manifest).schema_version,
        ends_within(records_view(final(manifest).chunks@), u64::MAX as int),
{
    let ghost st0 = AdoptState {
        records: records_view(manifest.chunks@),
        adopted: Seq::empty(),
        events: events_view(manifest.events@),
    };
    let ghost gaps0 = manifest.gaps@;
    let mut i: usize = 0;
    while i < files.len()
        invariant
            i <= files@.len(),
            files@.len() <= CHUNK_LEN_LIMIT,
            manifest.gaps@ == gaps0,
            manifest.track == old(manifest).track,
            manifest.role == old(manifest).role,
            manifest.origin == old(manifest).origin,
            manifest.predecessor == old(manifest).predecessor,
            manifest.successor == old(manifest).successor,
            manifest.consolidated_file == old(manifest).consolidated_file,
            manifest.schema_version == old(manifest).schema_version,
            gaps_within(gaps0, position_limit(files@.len())),
            decoded_within(decoded@),
            ends_within(records_view(manifest.chunks@), position_limit(files@.len()) + i * CHUNK_LEN_LIMIT),
            ({
                let st = adopt_fold(st0, files@, i as int, repairs@, decoded@, gaps0, now_ms);
                &&& records_view(manifest.chunks@) == st.records
                &&& adopted@ == st.adopted
                &&& events_view(manifest.events@) == st.events
            }),
        decreases files@.len() - i,
    {
        let f = files[i];
        let repaired = repaired_exec(repairs, f.seq);
        let ghost rv = records_view(manifest.chunks@);
        proof {
            lemma_position_limit(files@.len(), i as nat);
        }
        let bound: u64 = (u64::MAX - (files.len() as u64) * CHUNK_LEN_LIMIT) + (i as u64) * CHUNK_LEN_LIMIT;
        proof {
            assert forall|k: int| 0 <= k < manifest.chunks@.len() implies #[trigger] manifest.chunks@[k].start_sample
                + manifest.chunks@[k].len_samples <= u64::MAX by {
                assert(rv[k] == record_view(manifest.chunks@[k]));
                assert(rv[k].start_sample + rv[k].len_samples <= position_limit(files@.len()) + i * CHUNK_LEN_LIMIT);
            }
        }
        if (f.has_wav || repaired) && !has_record_exec(&manifest.chunks, f.seq) {
            match decoded_exec(decoded, f.seq) {
                Some(len) => {
                    proof {
                        crate::recovery::lemma_decoded_bound(decoded@, f.seq, 0);
                        lemma_ends_before_bound(rv, f.seq, bound as int);
                        lemma_gaps_end_bound(gaps0, bound as int);
                    }
                    let start = position_for(manifest, f.seq);
                    let ghost before_events = manifest.events@;
                    let rec = ChunkRecord {
                        seq: f.seq,
                        file: ChunkManifest::chunk_file(f.seq),
                        start_sample: start,
                        len_samples: len,
                    };
                    let ghost recv = record_view(rec);
                    manifest.chunks.push(rec);
                    assert(records_view(manifest.chunks@) =~= rv.push(recv));
                    if !repaired {
                        adopted.push(f.seq);
                        let ev = ManifestEvent {
                            kind: ManifestEventKind::ChunkAdopted,
                            at_ms: now_ms,
                            seq: Some(f.seq),
                            file: Some(ChunkManifest::chunk_file(f.seq)),
                            samples: Some(len),
                        };
                        let ghost evv = event_view(ev);
                        manifest.events.push(ev);
                        assert(events_view(manifest.events@) =~= events_view(before_events).push(evv));
                    }
                },
                None => {},
            }
        }
        proof {
            assert(ends_within(records_view(manifest.chunks@), position_limit(files@.len()) + (i + 1) * CHUNK_LEN_LIMIT)) by {
                assert((i + 1) * CHUNK_LEN_LIMIT == i * CHUNK_LEN_LIMIT + CHUNK_LEN_LIMIT) by (nonlinear_arith);
            }
        }
        i += 1;
    }
}

proof fn lemma_decoded_bound(decoded: Seq<(u32, Option<u64>)>, seq: u32, i: int)
    requires
        decoded_within(decoded),
    ensures
        len_within(decoded_len(decoded, seq, i)),
    decreases decoded.len() - i,
{
    if 0 <= i < decoded.len() && decoded[i].0 != seq {
        lemma_decoded_bound(decoded, seq, i + 1);
    }
}

/// Where a stable insertion puts `x` into `s` (sorted by sequence number): after every record
/// with a sequence number at most its own, from index `j` on.
pub open spec fn seq_slot(s: Seq<RecordView>, x: RecordView, j: int) -> int
    decreases s.len() - j,
{
    if j < 0 || j >= s.len() {
        s.len() as int
    } else if s[j].seq > x.seq {
        j
    } else {
        seq_slot(s, x, j + 1)
    }
}

/// The records in sequence order; records with equal sequence numbers keep their order.
pub open spec fn sort_by_seq(s: Seq<RecordView>) -> Seq<RecordView>
    decreases s.len(),
{
    if s.len() == 0 {
        s
    } else {
        let p = sort_by_seq(s.drop_last());
        p.insert(seq_slot(p, s.last(), 0), s.last())
    }
}

/// Where a stable insertion puts `x` into `s` (sorted by start): after every gap starting at
/// most where it starts, from index `j` on.
pub open spec fn gap_slot(s: Seq<Gap>, x: Gap, j: int) -> int
    decreases s.len() - j,
{
    if j < 0 || j >= s.len() {
        s.len() as int
    } else if s[j].from_sample > x.from_sample {
        j
    } else {
        gap_slot(s, x, j + 1)
    }
}

/// The gaps in start order; gaps with equal starts keep their order.
pub open spec fn sort_by_start(s: Seq<Gap>) -> Seq<Gap>
    decreases s.len(),
{
    if s.len() == 0 {
        s
    } else {
        let p = sort_by_start(s.drop_last());
        p.insert(gap_slot(p, s.last(), 0), s.last())
    }
}

proof fn lemma_seq_slot_range(s: Seq<RecordView>, x: RecordView, j: int)
    requires
        0 <= j <= s.len(),
    ensures
        j <= seq_slot(s, x, j) <= s.len(),
    decreases s.len() - j,
{
    if j < s.len() && s[j].seq <= x.seq {
        lemma_seq_slot_range(s, x, j + 1);
    }
}

proof fn lemma_gap_slot_range(s: Seq<Gap>, x: Gap, j: int)
    requires
        0 <= j <= s.len(),
    ensures
        j <= gap_slot(s, x, j) <= s.len(),
    decreases s.len() - j,
{
    if j < s.len() && s[j].from_sample <= x.from_sample {
        lemma_gap_slot_range(s, x, j + 1);
    }
}

/// Sort records by sequence number, stably.
fn sort_records(v: Vec<ChunkRecord>) -> (p: Vec<ChunkRecord>)
    ensures
        records_view(p@) == sort_by_seq(records_view(v@)),
{
    let ghost vv = records_view(v@);
    let mut src = v;
    let mut p: Vec<ChunkRecord> = Vec::new();
    let ghost mut i: int = 0;
    assert(vv.take(0) =~= Seq::<RecordView>::empty());
    while src.len() > 0
        invariant
            0 <= i <= vv.len(),
            records_view(src@) == vv.skip(i),
            records_view(p@) == sort_by_seq(vv.take(i)),
        decreases src@.len(),
    {
        let ghost before_src = src@;
        let x = src.remove(0);
        proof {
            assert(records_view(src@) =~= records_view(before_src).drop_first());
            assert(vv.skip(i).drop_first() =~= vv.skip(i + 1));
            assert(vv.take(i + 1).drop_last() =~= vv.take(i));
            assert(vv.take(i + 1).last() == vv[i]);
            assert(record_view(x) == vv.skip(i)[0]);
        }
        let ghost pv = records_view(p@);
        let ghost xv = record_view(x);
        let mut j: usize = 0;
        while j < p.len() && p[j].seq <= x.seq
            invariant
                j <= p@.len(),
                pv == records_view(p@),
                xv == record_view(x),
                seq_slot(pv, xv, 0) == seq_slot(pv, xv, j as int),
            decreases p@.len() - j,
        {
            assert(pv[j as int] == record_view(p@[j as int]));
            j += 1;
        }
        proof {
            lemma_seq_slot_range(pv, xv, j as int);
        }
        p.insert(j, x);
        proof {
            assert(records_view(p@) =~= pv.insert(j as int, xv));
            i = i + 1;
        }
    }
    proof {
        assert(vv.skip(i).len() == 0);
        assert(vv.take(i) =~= vv);
    }
    p
}

/// Sort gaps by start, stably.
fn sort_gaps(v: Vec<Gap>) -> (p: Vec<Gap>)
    ensures
        p@ == sort_by_start(v@),
{
    let ghost vv = v@;
    let mut src = v;
    let mut p: Vec<Gap> = Vec::new();
    let ghost mut i: int = 0;
    assert(vv.take(0) =~= Seq::<Gap>::empty());
    while src.len() > 0
        invariant
            0 <= i <= vv.len(),
            src@ == vv.skip(i),
            p@ == sort_by_start(vv.take(i)),
        decreases src@.len(),
    {
        let x = src.remove(0);
        proof {
            assert(vv.skip(i).drop_first() =~= vv.skip(i + 1));
            assert(vv.take(i + 1).drop_last() =~= vv.take(i));
            assert(vv.take(i + 1).last() == vv[i]);
        }
        let ghost pv = p@;
        let mut j: usize = 0;
        while j < p.len() && p[j].from_sample <= x.from_sample
            invariant
                j <= p@.len(),
                pv == p@,
                gap_slot(pv, x, 0) == gap_slot(pv, x, j as int),
            decreases p@.len() - j,
        {
            j += 1;
        }
        proof {
            lemma_gap_slot_range(pv, x, j as int);
        }
        p.insert(j, x);
        proof {
            i = i + 1;
        }
    }
    proof {
        assert(vv.skip(i).len() == 0);
        assert(vv.take(i) =~= vv);
    }
    p
}

/// A repaired chunk shorter than its record: the record shrinks to what the file holds and the
/// remainder becomes a `CaptureInterrupted` gap.
pub open spec fn shrink_needed(r: RecordView, repairs: Seq<(u32, PartRepair)>, decoded: Seq<(u32, Option<u64>)>) -> bool {
    &&& repaired_in(repairs, r.seq, repairs.len() as int)
    &&& decoded_len(decoded, r.seq, 0) is Some
    &&& decoded_len(decoded, r.seq, 0)->0 < r.len_samples
}

pub open spec fn shrunk(r: RecordView, repairs: Seq<(u32, PartRepair)>, decoded: Seq<(u32, Option<u64>)>) -> RecordView {
    if shrink_needed(r, repairs, decoded) {
        RecordView { len_samples: decoded_len(decoded, r.seq, 0)->0, ..r }
    } else {
        r
    }
}

/// The gaps shrinking the first `n` records leaves, in order.
pub open spec fn shrink_gaps(rs: Seq<RecordView>, repairs: Seq<(u32, PartRepair)>, decoded: Seq<(u32, Option<u64>)>, n: int) -> Seq<Gap>
    decreases n,
{
    if n <= 0 || n > rs.len() {
        Seq::empty()
    } else {
        let rest = shrink_gaps(rs, repairs, decoded, n - 1);
        let r = rs[n - 1];
        if shrink_needed(r, repairs, decoded) {
            rest.push(
                Gap {
                    from_sample: (r.start_sample + decoded_len(decoded, r.seq, 0)->0) as u64,
                    to_sample: (r.start_sample + r.len_samples) as u64,
                    reason: GapReason::CaptureInterrupted,
                },
            )
        } else {
            rest
        }
    }
}

/// Shrink the repaired records that are longer than their file.
fn shrink_repaired(
    chunks: &mut Vec<ChunkRecord>,
    gaps: &mut Vec<Gap>,
    repairs: &Vec<(u32, PartRepair)>,
    decoded: &Vec<(u32, Option<u64>)>,
)
    requires
        forall|k: int| 0 <= k < old(chunks)@.len() ==> #[trigger] old(chunks)@[k].start_sample
            + old(chunks)@[k].len_samples <= u64::MAX,
    ensures
        records_view(final(chunks)@) == records_view(old(chunks)@).map_values(
            |r: RecordView| shrunk(r, repairs@, decoded@),
        ),
        final(gaps)@ == old(gaps)@ + shrink_gaps(
            records_view(old(chunks)@),
            repairs@,
            decoded@,
            old(chunks)@.len() as int,
        ),
{
    let ghost rv = records_view(chunks@);
    let ghost start_gaps = gaps@;
    let mut i: usize = 0;
    while i < chunks.len()
        invariant
            i <= chunks@.len(),
            rv.len() == chunks@.len(),
            forall|k: int| 0 <= k < rv.len() ==> #[trigger] rv[k].start_sample + rv[k].len_samples <= u64::MAX,
            forall|k: int| i <= k < chunks@.len() ==> #[trigger] record_view(chunks@[k]) == rv[k],
            forall|k: int| 0 <= k < i ==> #[trigger] record_view(chunks@[k]) == shrunk(rv[k], repairs@, decoded@),
            gaps@ == start_gaps + shrink_gaps(rv, repairs@, decoded@, i as int),
        decreases chunks@.len() - i,
    {
        let seq = chunks[i].seq;
        let start = chunks[i].start_sample;
        let len = chunks[i].len_samples;
        assert(record_view(chunks@[i as int]) == rv[i as int]);
        assert(rv[i as int].start_sample + rv[i as int].len_samples <= u64::MAX);
        if repaired_exec(repairs, seq) {
            match decoded_exec(decoded, seq) {
                Some(actual) => {
                    if actual < len {
                        gaps.push(
                            Gap {
                                from_sample: start + actual,
                                to_sample: start + len,
                                reason: GapReason::CaptureInterrupted,
                            },
                        );
                        let mut r = chunks[i].duplicate();
                        r.len_samples = actual;
                        chunks.set(i, r);
                    }
                },
                None => {},
            }
        }
        i += 1;
    }
    assert(records_view(chunks@) =~= rv.map_values(|r: RecordView| shrunk(r, repairs@, decoded@)));
}

/// What recovery makes of a track directory. `manifest` is the one loaded (or rebuilt, when
/// `rebuilt`); `files` lists, in ascending sequence order, what the directory holds per
/// sequence number; `repairs` holds the outcome of each `.part` file, in the same order; and
/// `decoded` the sample count of each `<seq>.wav` present once the repairs are done (none when
/// it did not decode). Then: part outcomes are recorded; records whose file is absent become
/// `ChunkLost` gaps; present files without a record are adopted at their sequence position; the
/// records are put in sequence order; repaired records longer than their file shrink, the rest
/// becoming a gap; and the gaps are put in start order.
pub fn reconcile(
    manifest: ChunkManifest,
    files: Vec<ChunkFiles>,
    repairs: Vec<(u32, PartRepair)>,
    decoded: Vec<(u32, Option<u64>)>,
    now_ms: u64,
    rebuilt: bool,
) -> (report: RecoveryReport)
    requires
        files@.len() <= CHUNK_LEN_LIMIT,
        ends_within(records_view(manifest.chunks@), position_limit(files@.len())),
        gaps_within(manifest.gaps@, position_limit(files@.len())),
        decoded_within(decoded@),
    ensures
        report.rebuilt == rebuilt,
        report.repaired@ == seqs_where(repairs@, true),
        report.discarded@ == seqs_where(repairs@, false),
        report.gapped@ == lost_seqs(records_view(manifest.chunks@), files@, repairs@),
        report.adopted@ == recovered(manifest, files@, repairs@, decoded@, now_ms).adopted,
        report.manifest matches Some(m) && {
            let st = recovered(manifest, files@, repairs@, decoded@, now_ms);
            let sorted = sort_by_seq(st.records);
            &&& records_view(m.chunks@) == sorted.map_values(|r: RecordView| shrunk(r, repairs@, decoded@))
            &&& m.gaps@ == sort_by_start(manifest.gaps@ + lost_gaps(records_view(manifest.chunks@), files@, repairs@)
                + shrink_gaps(sorted, repairs@, decoded@, sorted.len() as int))
            &&& events_view(m.events@) == st.events
            &&& m.track == manifest.track
            &&& m.role == manifest.role
            &&& m.origin == manifest.origin
            &&& m.predecessor == manifest.predecessor
            &&& m.successor == manifest.successor
            &&& m.consolidated_file == manifest.consolidated_file
            &&& m.schema_version == manifest.schema_version
        },
{
    let ghost rv0 = records_view(manifest.chunks@);
    let ghost gaps0 = manifest.gaps@;
    let mut manifest = manifest;
    let mut repaired: Vec<u32> = Vec::new();
    let mut discarded: Vec<u32> = Vec::new();
    record_repairs(&mut manifest.events, &repairs, now_ms, &mut repaired, &mut discarded);
    let mut gapped: Vec<u32> = Vec::new();
    proof {
        assert forall|k: int| 0 <= k < manifest.chunks@.len() implies #[trigger] manifest.chunks@[k].start_sample
            + manifest.chunks@[k].len_samples <= u64::MAX by {
            assert(rv0[k] == record_view(manifest.chunks@[k]));
            assert(rv0[k].start_sample + rv0[k].len_samples <= position_limit(files@.len()));
        }
    }
    let kept = drop_lost_records(&manifest.chunks, &files, &repairs, &mut manifest.gaps, &mut gapped);
    manifest.chunks = kept;
    proof {
        lemma_position_limit(files@.len(), 0);
        lemma_kept_within(rv0, files@, repairs@, position_limit(files@.len()));
        lemma_lost_within(rv0, files@, repairs@, position_limit(files@.len()));
        lemma_gaps_concat_within(gaps0, lost_gaps(rv0, files@, repairs@), position_limit(files@.len()));
    }
    let mut adopted: Vec<u32> = Vec::new();
    adopt_present(&mut manifest, &files, &repairs, &decoded, now_ms, &mut adopted);
    let ghost adopted_records = records_view(manifest.chunks@);
    let mut chunks: Vec<ChunkRecord> = Vec::new();
    std::mem::swap(&mut chunks, &mut manifest.chunks);
    let mut chunks = sort_records(chunks);
    proof {
        lemma_sorted_within(adopted_records, u64::MAX as int);
        assert forall|k: int| 0 <= k < chunks@.len() implies #[trigger] chunks@[k].start_sample
            + chunks@[k].len_samples <= u64::MAX by {
            assert(records_view(chunks@)[k] == record_view(chunks@[k]));
            assert(records_view(chunks@)[k].start_sample + records_view(chunks@)[k].len_samples <= u64::MAX);
        }
    }
    shrink_repaired(&mut chunks, &mut manifest.gaps, &repairs, &decoded);
    manifest.chunks = chunks;
    let mut gaps: Vec<Gap> = Vec::new();
    std::mem::swap(&mut gaps, &mut manifest.gaps);
    manifest.gaps = sort_gaps(gaps);
    RecoveryReport {
        adopted,
        gapped,
        repaired,
        discarded,
        rebuilt,
        manifest: Some(manifest),
    }
}

/// The records, adoptions and events before sorting: the kept records and the part events,
/// then every present file adopted in directory order.
pub open spec fn recovered(
    manifest: ChunkManifest,
    files: Seq<ChunkFiles>,
    repairs: Seq<(u32, PartRepair)>,
    decoded: Seq<(u32, Option<u64>)>,
    now_ms: u64,
) -> AdoptState {
    let rv = records_view(manifest.chunks@);
    adopt_fold(
        AdoptState {
            records: kept_records(rv, files, repairs),
            adopted: Seq::empty(),
            events: events_view(manifest.events@) + repairs.map_values(
                |r: (u32, PartRepair)| repair_event(r, now_ms),
            ),
        },
        files,
        files.len() as int,
        repairs,
        decoded,
        manifest.gaps@ + lost_gaps(rv, files, repairs),
        now_ms,
    )
}

proof fn lemma_kept_within(rs: Seq<RecordView>, files: Seq<ChunkFiles>, repairs: Seq<(u32, PartRepair)>, bound: int)
    requires
        ends_within(rs, bound),
    ensures
        ends_within(kept_records(rs, files, repairs), bound),
    decreases rs.len(),
{
    if rs.len() > 0 {
        lemma_kept_within(rs.drop_last(), files, repairs, bound);
        assert(rs[rs.len() - 1].start_sample + rs[rs.len() - 1].len_samples <= bound);
    }
}

proof fn lemma_lost_within(rs: Seq<RecordView>, files: Seq<ChunkFiles>, repairs: Seq<(u32, PartRepair)>, bound: int)
    requires
        ends_within(rs, bound),
    ensures
        gaps_within(lost_gaps(rs, files, repairs), bound),
    decreases rs.len(),
{
    if rs.len() > 0 {
        lemma_lost_within(rs.drop_last(), files, repairs, bound);
        assert(rs[rs.len() - 1].start_sample + rs[rs.len() - 1].len_samples <= bound);
    }
}

proof fn lemma_gaps_concat_within(a: Seq<Gap>, b: Seq<Gap>, bound: int)
    requires
        gaps_within(a, bound),
        gaps_within(b, bound),
    ensures
        gaps_within(a + b, bound),
{
    assert forall|k: int| 0 <= k < (a + b).len() implies #[trigger] (a + b)[k].to_sample <= bound by {
        if k < a.len() {
            assert((a + b)[k] == a[k]);
        } else {
            assert((a + b)[k] == b[k - a.len()]);
        }
    }
}

proof fn lemma_sorted_within(rs: Seq<RecordView>, bound: int)
    requires
        ends_within(rs, bound),
    ensures
        ends_within(sort_by_seq(rs), bound),
    decreases rs.len(),
{
    if rs.len() > 0 {
        let p = sort_by_seq(rs.drop_last());
        lemma_sorted_within(rs.drop_last(), bound);
        lemma_sort_len(rs.drop_last());
        lemma_seq_slot_range(p, rs.last(), 0);
        let q = p.insert(seq_slot(p, rs.last(), 0), rs.last());
        assert(rs[rs.len() - 1].start_sample + rs[rs.len() - 1].len_samples <= bound);
        assert forall|k: int| 0 <= k < q.len() implies #[trigger] q[k].start_sample + q[k].len_samples <= bound by {
            let j = seq_slot(p, rs.last(), 0);
            if k < j {
                assert(q[k] == p[k]);
            } else if k > j {
                assert(q[k] == p[k - 1]);
            }
        }
    }
}

proof fn lemma_sort_len(rs: Seq<RecordView>)
    ensures
        sort_by_seq(rs).len() == rs.len(),
    decreases rs.len(),
{
    if rs.len() > 0 {
        lemma_sort_len(rs.drop_last());
        lemma_seq_slot_range(sort_by_seq(rs.drop_last()), rs.last(), 0);
    }
}

proof fn lemma_insert_contains<A>(p: Seq<A>, k: int, x: A, y: A)
    requires
        0 <= k <= p.len(),
    ensures
        p.insert(k, x).contains(y) <==> (y == x || p.contains(y)),
{
    let q = p.insert(k, x);
    if q.contains(y) {
        let i = choose|i: int| 0 <= i < q.len() && q[i] == y;
        if i < k {
            assert(p[i] == y);
        } else if i > k {
            assert(p[i - 1] == y);
        }
    }
    if p.contains(y) {
        let i = choose|i: int| 0 <= i < p.len() && p[i] == y;
        if i < k {
            assert(q[i] == y);
        } else {
            assert(q[i + 1] == y);
        }
    }
    if y == x {
        assert(q[k] == y);
    }
}

proof fn lemma_sort_by_seq_contains(s: Seq<RecordView>, y: RecordView)
    ensures
        sort_by_seq(s).contains(y) <==> s.contains(y),
    decreases s.len(),
{
    if s.len() > 0 {
        let p = sort_by_seq(s.drop_last());
        lemma_sort_by_seq_contains(s.drop_last(), y);
        lemma_sort_len(s.drop_last());
        lemma_seq_slot_range(p, s.last(), 0);
        lemma_insert_contains(p, seq_slot(p, s.last(), 0), s.last(), y);
        assert(s == s.drop_last().push(s.last()));
        if s.contains(y) && y != s.last() {
            let i = choose|i: int| 0 <= i < s.len() && s[i] == y;
            assert(s.drop_last()[i] == y);
        }
        if s.drop_last().contains(y) {
            let i = choose|i: int| 0 <= i < s.drop_last().len() && s.drop_last()[i] == y;
            assert(s[i] == y);
        }
    } else {
        assert(sort_by_seq(s) == s);
    }
}

proof fn lemma_gap_sort_len(s: Seq<Gap>)
    ensures
        sort_by_start(s).len() == s.len(),
    decreases s.len(),
{
    if s.len() > 0 {
        lemma_gap_sort_len(s.drop_last());
        lemma_gap_slot_range(sort_by_start(s.drop_last()), s.last(), 0);
    }
}

proof fn lemma_sort_by_start_contains(s: Seq<Gap>, y: Gap)
    ensures
        sort_by_start(s).contains(y) <==> s.contains(y),
    decreases s.len(),
{
    if s.len() > 0 {
        let p = sort_by_start(s.drop_last());
        lemma_sort_by_start_contains(s.drop_last(), y);
        lemma_gap_sort_len(s.drop_last());
        lemma_gap_slot_range(p, s.last(), 0);
        lemma_insert_contains(p, gap_slot(p, s.last(), 0), s.last(), y);
        if s.contains(y) && y != s.last() {
            let i = choose|i: int| 0 <= i < s.len() && s[i] == y;
            assert(s.drop_last()[i] == y);
        }
        if s.drop_last().contains(y) {
            let i = choose|i: int| 0 <= i < s.drop_last().len() && s.drop_last()[i] == y;
            assert(s[i] == y);
        }
    } else {
        assert(sort_by_start(s) == s);
    }
}

proof fn lemma_lost_gap_listed(rs: Seq<RecordView>, files: Seq<ChunkFiles>, repairs: Seq<(u32, PartRepair)>, i: int)
    requires
        0 <= i < rs.len(),
        !wav_present(files, repairs, rs[i].seq),
    ensures
        lost_gaps(rs, files, repairs).contains(lost_gap(rs[i])),
    decreases rs.len(),
{
    let rest = lost_gaps(rs.drop_last(), files, repairs);
    if i == rs.len() - 1 {
        let l = lost_gaps(rs, files, repairs);
        assert(l == rest.push(lost_gap(rs[i])));
        assert(l[l.len() - 1] == lost_gap(rs[i]));
    } else {
        lemma_lost_gap_listed(rs.drop_last(), files, repairs, i);
        assert(rs.drop_last()[i] == rs[i]);
        let k = choose|k: int| 0 <= k < rest.len() && rest[k] == lost_gap(rs[i]);
        let l = lost_gaps(rs, files, repairs);
        assert(l[k] == rest[k]);
    }
}

/// A manifest record whose file is absent is never silently dropped: after recovery its
/// interval is an explicit `ChunkLost` gap of the manifest.
pub proof fn law_absent_records_become_gaps(
    manifest: ChunkManifest,
    files: Seq<ChunkFiles>,
    repairs: Seq<(u32, PartRepair)>,
    decoded: Seq<(u32, Option<u64>)>,
    now_ms: u64,
    i: int,
)
    requires
        0 <= i < manifest.chunks@.len(),
        !wav_present(files, repairs, manifest.chunks@[i].seq),
    ensures
        ({
            let rv = records_view(manifest.chunks@);
            let sorted = sort_by_seq(recovered(manifest, files, repairs, decoded, now_ms).records);
            sort_by_start(manifest.gaps@ + lost_gaps(rv, files, repairs) + shrink_gaps(
                sorted,
                repairs,
                decoded,
                sorted.len() as int,
            )).contains(lost_gap(record_view(manifest.chunks@[i])))
        }),
{
    let rv = records_view(manifest.chunks@);
    let sorted = sort_by_seq(recovered(manifest, files, repairs, decoded, now_ms).records);
    let g = lost_gap(rv[i]);
    lemma_lost_gap_listed(rv, files, repairs, i);
    let lg = lost_gaps(rv, files, repairs);
    let sg = shrink_gaps(sorted, repairs, decoded, sorted.len() as int);
    let all = manifest.gaps@ + lg + sg;
    let k = choose|k: int| 0 <= k < lg.len() && lg[k] == g;
    assert(all[manifest.gaps@.len() + k] == g);
    lemma_sort_by_start_contains(all, g);
}

/// Every record names a file that is present.
pub open spec fn all_present(rs: Seq<RecordView>, files: Seq<ChunkFiles>, repairs: Seq<(u32, PartRepair)>) -> bool {
    forall|k: int| 0 <= k < rs.len() ==> wav_present(files, repairs, (#[trigger] rs[k]).seq)
}

proof fn lemma_kept_present(rs: Seq<RecordView>, files: Seq<ChunkFiles>, repairs: Seq<(u32, PartRepair)>)
    ensures
        all_present(kept_records(rs, files, repairs), files, repairs),
    decreases rs.len(),
{
    if rs.len() > 0 {
        lemma_kept_present(rs.drop_last(), files, repairs);
    }
}

proof fn lemma_listed(files: Seq<ChunkFiles>, k: int, n: int)
    requires
        0 <= k < n <= files.len(),
        files[k].has_wav,
    ensures
        listed_wav(files, files[k].seq, n),
    decreases n,
{
    if k < n - 1 {
        lemma_listed(files, k, n - 1);
    }
}

proof fn lemma_adopt_present(
    st: AdoptState,
    files: Seq<ChunkFiles>,
    n: int,
    repairs: Seq<(u32, PartRepair)>,
    decoded: Seq<(u32, Option<u64>)>,
    gaps: Seq<Gap>,
    now_ms: u64,
)
    requires
        all_present(st.records, files, repairs),
        n <= files.len(),
    ensures
        all_present(adopt_fold(st, files, n, repairs, decoded, gaps, now_ms).records, files, repairs),
    decreases n,
{
    if n > 0 {
        lemma_adopt_present(st, files, n - 1, repairs, decoded, gaps, now_ms);
        let f = files[n - 1];
        if f.has_wav {
            lemma_listed(files, n - 1, files.len() as int);
        }
    }
}

/// Recovery never invents or renumbers a chunk: every record of the recovered manifest names a
/// `.wav` present in the directory (as found, or repaired from its `.part`).
pub proof fn law_recovered_records_name_present_files(
    manifest: ChunkManifest,
    files: Seq<ChunkFiles>,
    repairs: Seq<(u32, PartRepair)>,
    decoded: Seq<(u32, Option<u64>)>,
    now_ms: u64,
)
    ensures
        all_present(
            sort_by_seq(recovered(manifest, files, repairs, decoded, now_ms).records).map_values(
                |r: RecordView| shrunk(r, repairs, decoded),
            ),
            files,
            repairs,
        ),
{
    let rv = records_view(manifest.chunks@);
    lemma_kept_present(rv, files, repairs);
    let st0 = AdoptState {
        records: kept_records(rv, files, repairs),
        adopted: Seq::empty(),
        events: events_view(manifest.events@) + repairs.map_values(
            |r: (u32, PartRepair)| repair_event(r, now_ms),
        ),
    };
    lemma_adopt_present(st0, files, files.len() as int, repairs, decoded, manifest.gaps@ + lost_gaps(rv, files, repairs), now_ms);
    let recs = recovered(manifest, files, repairs, decoded, now_ms).records;
    let sorted = sort_by_seq(recs);
    lemma_sort_len(recs);
    assert forall|k: int| 0 <= k < sorted.len() implies wav_present(files, repairs, (#[trigger] sorted[k]).seq) by {
        assert(sorted.contains(sorted[k]));
        lemma_sort_by_seq_contains(recs, sorted[k]);
        let i = choose|i: int| 0 <= i < recs.len() && recs[i] == sorted[k];
        assert(wav_present(files, repairs, recs[i].seq));
    }
}

/// With every record's file listed and no `.part` outcome, no record is lost and all are kept.
proof fn lemma_all_listed_kept(rs: Seq<RecordView>, files: Seq<ChunkFiles>)
    requires
        forall|i: int| 0 <= i < rs.len() ==> listed_wav(files, (#[trigger] rs[i]).seq, files.len() as int),
    ensures
        lost_seqs(rs, files, Seq::empty()).len() == 0,
        kept_records(rs, files, Seq::empty()) == rs,
    decreases rs.len(),
{
    if rs.len() > 0 {
        let init = rs.drop_last();
        assert forall|i: int| 0 <= i < init.len() implies listed_wav(files, (#[trigger] init[i]).seq, files.len() as int) by {
            assert(init[i] == rs[i]);
        }
        lemma_all_listed_kept(init, files);
        assert(listed_wav(files, rs[rs.len() - 1].seq, files.len() as int));
        assert(wav_present(files, Seq::empty(), rs.last().seq));
        assert(init.push(rs.last()) =~= rs);
    }
}

/// Directory entries that each have a record already, or did not decode, adopt nothing.
proof fn lemma_adopt_nothing(
    st: AdoptState,
    files: Seq<ChunkFiles>,
    n: int,
    decoded: Seq<(u32, Option<u64>)>,
    gaps: Seq<Gap>,
    now_ms: u64,
)
    requires
        0 <= n <= files.len(),
        forall|j: int| 0 <= j < n && (#[trigger] files[j]).has_wav ==> has_record(
            st.records,
            files[j].seq,
            st.records.len() as int,
        ) || decoded_len(decoded, files[j].seq, 0) is None,
    ensures
        adopt_fold(st, files, n, Seq::empty(), decoded, gaps, now_ms) == st,
    decreases n,
{
    if n > 0 {
        lemma_adopt_nothing(st, files, n - 1, decoded, gaps, now_ms);
        assert(files[n - 1].has_wav ==> has_record(st.records, files[n - 1].seq, st.records.len() as int)
            || decoded_len(decoded, files[n - 1].seq, 0) is None);
    }
}

/// Recovering a track a second time reports nothing: once no `.part` file is left, every
/// record's `.wav` is present, and every present `.wav` has a record (or does not decode), no
/// file is repaired or discarded, no record becomes a gap and no file is adopted.
pub proof fn law_second_recovery_reports_nothing(
    manifest: ChunkManifest,
    files: Seq<ChunkFiles>,
    decoded: Seq<(u32, Option<u64>)>,
    now_ms: u64,
)
    requires
        forall|i: int| 0 <= i < manifest.chunks@.len() ==> listed_wav(
            files,
            (#[trigger] manifest.chunks@[i]).seq,
            files.len() as int,
        ),
        forall|j: int| 0 <= j < files.len() && (#[trigger] files[j]).has_wav ==> has_record(
            records_view(manifest.chunks@),
            files[j].seq,
            manifest.chunks@.len() as int,
        ) || decoded_len(decoded, files[j].seq, 0) is None,
    ensures
        seqs_where(Seq::empty(), true).len() == 0,
        seqs_where(Seq::empty(), false).len() == 0,
        lost_seqs(records_view(manifest.chunks@), files, Seq::empty()).len() == 0,
        recovered(manifest, files, Seq::empty(), decoded, now_ms).adopted.len() == 0,
{
    let rv = records_view(manifest.chunks@);
    assert forall|i: int| 0 <= i < rv.len() implies listed_wav(files, (#[trigger] rv[i]).seq, files.len() as int) by {
        assert(rv[i].seq == manifest.chunks@[i].seq);
    }
    lemma_all_listed_kept(rv, files);
    let repairs = Seq::<(u32, PartRepair)>::empty();
    let st0 = AdoptState {
        records: kept_records(rv, files, repairs),
        adopted: Seq::empty(),
        events: events_view(manifest.events@) + repairs.map_values(
            |r: (u32, PartRepair)| repair_event(r, now_ms),
        ),
    };
    lemma_adopt_nothing(st0, files, files.len() as int, decoded, manifest.gaps@ + lost_gaps(rv, files, repairs), now_ms);
}

proof fn lemma_ends_before_max(rs: Seq<RecordView>, seq: u32)
    ensures
        forall|k: int|
            0 <= k < rs.len() && (#[trigger] rs[k]).seq < seq ==> rs[k].start_sample + rs[k].len_samples
                <= ends_before(rs, seq),
        ends_before(rs, seq) == 0 || exists|k: int|
            0 <= k < rs.len() && (#[trigger] rs[k]).seq < seq && rs[k].start_sample + rs[k].len_samples
                == ends_before(rs, seq),
    decreases rs.len(),
{
    if rs.len() > 0 {
        let init = rs.drop_last();
        lemma_ends_before_max(init, seq);
        assert forall|k: int|
            0 <= k < rs.len() && (#[trigger] rs[k]).seq < seq implies rs[k].start_sample + rs[k].len_samples
                <= ends_before(rs, seq) by {
            if k < rs.len() - 1 {
                assert(rs[k] == init[k]);
            }
        }
        if ends_before(rs, seq) != 0 && ends_before(rs, seq) == ends_before(init, seq) {
            let k = choose|k: int|
                0 <= k < init.len() && (#[trigger] init[k]).seq < seq && init[k].start_sample + init[k].len_samples
                    == ends_before(init, seq);
            assert(rs[k] == init[k]);
        }
    }
}

proof fn lemma_gaps_end_max(gs: Seq<Gap>)
    ensures
        forall|k: int| 0 <= k < gs.len() ==> (#[trigger] gs[k]).to_sample <= gaps_end(gs),
        gaps_end(gs) == 0 || exists|k: int| 0 <= k < gs.len() && (#[trigger] gs[k]).to_sample == gaps_end(gs),
    decreases gs.len(),
{
    if gs.len() > 0 {
        let init = gs.drop_last();
        lemma_gaps_end_max(init);
        assert forall|k: int| 0 <= k < gs.len() implies (#[trigger] gs[k]).to_sample <= gaps_end(gs) by {
            if k < gs.len() - 1 {
                assert(gs[k] == init[k]);
            }
        }
        if gaps_end(gs) != 0 && gaps_end(gs) == gaps_end(init) {
            let k = choose|k: int| 0 <= k < init.len() && (#[trigger] init[k]).to_sample == gaps_end(init);
            assert(gs[k] == init[k]);
        }
    }
}

/// An adopted chunk goes after every record with a smaller sequence number and after every gap,
/// and no further: its position is the largest end among those (0 when there are none), so it
/// overlaps nothing that precedes it and leaves no hole behind it.
pub proof fn law_adopted_position_is_after_earlier_audio(records: Seq<RecordView>, gaps: Seq<Gap>, seq: u32)
    ensures
        forall|k: int|
            0 <= k < records.len() && (#[trigger] records[k]).seq < seq ==> records[k].start_sample
                + records[k].len_samples <= position_spec(records, gaps, seq),
        forall|k: int| 0 <= k < gaps.len() ==> (#[trigger] gaps[k]).to_sample <= position_spec(records, gaps, seq),
        position_spec(records, gaps, seq) == 0 || (exists|k: int|
            0 <= k < records.len() && (#[trigger] records[k]).seq < seq && records[k].start_sample
                + records[k].len_samples == position_spec(records, gaps, seq)) || (exists|k: int|
            0 <= k < gaps.len() && (#[trigger] gaps[k]).to_sample == position_spec(records, gaps, seq)),
{
    lemma_ends_before_max(records, seq);
    lemma_gaps_end_max(gaps);
}

} // verus!

verus! {

/// `.wav`.
pub open spec fn wav_suffix() -> Seq<char> {
    seq!['.', 'w', 'a', 'v']
}

/// `.wav.part`.
pub open spec fn part_suffix() -> Seq<char> {
    seq!['.', 'w', 'a', 'v', '.', 'p', 'a', 'r', 't']
}

/// The `u32` a text names, as `str::parse::<u32>` reads it.
pub open spec fn u32_of(t: Seq<char>) -> Option<u32> {
    match crate::command::u64_parse(t) {
        Ok(v) => if v <= u32::MAX {
            Some(v as u32)
        } else {
            None
        },
        Err(_) => None,
    }
}

/// What a directory entry's name says: `<seq>.wav.part` is a partial chunk, `<seq>.wav` a
/// complete one; anything else is not a chunk.
pub open spec fn chunk_entry_spec(name: Seq<char>) -> Option<(u32, bool)> {
    let ps = part_suffix();
    let ws = wav_suffix();
    if name.len() >= ps.len() && name.skip(name.len() - ps.len()) == ps && u32_of(
        name.take(name.len() - ps.len()),
    ) is Some {
        Some((u32_of(name.take(name.len() - ps.len()))->0, true))
    } else if name.len() >= ws.len() && name.skip(name.len() - ws.len()) == ws && u32_of(
        name.take(name.len() - ws.len()),
    ) is Some {
        Some((u32_of(name.take(name.len() - ws.len()))->0, false))
    } else {
        None
    }
}

fn strip_suffix_chars(cs: &Vec<char>, suffix: &[char]) -> (r: Option<Vec<char>>)
    ensures
        match r {
            Some(v) => cs@.len() >= suffix@.len() && cs@.skip(cs@.len() - suffix@.len()) == suffix@
                && v@ == cs@.take(cs@.len() - suffix@.len()),
            None => !(cs@.len() >= suffix@.len() && cs@.skip(cs@.len() - suffix@.len()) == suffix@),
        },
{
    if cs.len() < suffix.len() {
        return None;
    }
    let base = cs.len() - suffix.len();
    let mut i: usize = 0;
    while i < suffix.len()
        invariant
            i <= suffix@.len(),
            base + suffix@.len() == cs@.len(),
            suffix@.len() == suffix.len(),
            cs@.len() == cs.len(),
            forall|k: int| 0 <= k < i ==> cs@[base + k] == suffix@[k],
        decreases suffix@.len() - i,
    {
        if cs[base + i] != suffix[i] {
            proof {
                assert(cs@.skip(base as int)[i as int] != suffix@[i as int]);
            }
            return None;
        }
        i += 1;
    }
    proof {
        assert(cs@.skip(base as int) =~= suffix@);
    }
    let mut v: Vec<char> = Vec::new();
    let mut j: usize = 0;
    while j < base
        invariant
            j <= base <= cs@.len(),
            v@ == cs@.take(j as int),
        decreases base - j,
    {
        v.push(cs[j]);
        proof {
            assert(cs@.take(j + 1) =~= cs@.take(j as int).push(cs@[j as int]));
        }
        j += 1;
    }
    Some(v)
}

fn parse_u32_chars(cs: &Vec<char>) -> (r: Option<u32>)
    ensures
        r == u32_of(cs@),
{
    match crate::command::parse_u64_chars(cs) {
        Ok(v) => if v <= 4_294_967_295u64 {
            Some(v as u32)
        } else {
            None
        },
        Err(_) => None,
    }
}

/// Classify a directory entry by its name: the sequence number and whether it is a `.part`.
pub fn chunk_entry(name: &str) -> (r: Option<(u32, bool)>)
    ensures
        r == chunk_entry_spec(name@),
{
    let cs = crate::text::chars_of(name);
    let part: [char; 9] = ['.', 'w', 'a', 'v', '.', 'p', 'a', 'r', 't'];
    let wav: [char; 4] = ['.', 'w', 'a', 'v'];
    proof {
        assert(part@ =~= part_suffix());
        assert(wav@ =~= wav_suffix());
    }
    if let Some(stem) = strip_suffix_chars(&cs, &part) {
        if let Some(seq) = parse_u32_chars(&stem) {
            return Some((seq, true));
        }
    }
    if let Some(stem) = strip_suffix_chars(&cs, &wav) {
        if let Some(seq) = parse_u32_chars(&stem) {
            return Some((seq, false));
        }
    }
    None
}

/// The origin a rebuilt manifest assumes: 16 kHz mono from a device, clocks unknown; the
/// sample rate and channel count of the first readable chunk where there is one.
pub open spec fn rebuilt_origin(first_format: Option<(u32, u16)>) -> crate::timeline::TrackOrigin {
    crate::timeline::TrackOrigin {
        start_wall_utc_ms: 0,
        start_monotonic_ns: 0,
        sample_rate: match first_format {
            Some((rate, _)) => rate,
            None => 16_000,
        },
        channels: match first_format {
            Some((_, channels)) => channels,
            None => 1,
        },
        capture_mode: crate::timeline::CaptureMode::Device,
        contamination_risk: crate::timeline::ContaminationRisk::NoOtherApps,
    }
}

/// A manifest rebuilt from the directory alone: the track id is the directory's name where that
/// is an identifier (a fresh one otherwise), the role is `recovered`, the format is that of the
/// first readable chunk, and the rebuild is recorded as an event.
pub fn rebuilt_manifest(dir_name: &str, first_format: Option<(u32, u16)>, now_ms: u64) -> (m: ChunkManifest)
    ensures
        m.schema_version == crate::chunk_manifest::MANIFEST_SCHEMA_VERSION,
        crate::ids::parsed_uuid(dir_name@) matches Some(v) ==> m.track.0 == v,
        crate::ids::parsed_uuid(dir_name@) is None ==> crate::ids::uuid_version(m.track.0) == 7,
        m.role@ == "recovered"@,
        m.origin == rebuilt_origin(first_format),
        m.predecessor is None,
        m.successor is None,
        m.chunks@.len() == 0,
        m.gaps@.len() == 0,
        m.events@.len() == 1,
        m.events@[0].kind == ManifestEventKind::ManifestRebuilt,
        m.events@[0].at_ms == now_ms,
        m.events@[0].seq is None,
        m.events@[0].file is None,
        m.events@[0].samples is None,
        m.consolidated_file is None,
{
    let track = match crate::ids::TrackId::parse(dir_name) {
        Ok(t) => t,
        Err(_) => crate::ids::TrackId::new(),
    };
    let (sample_rate, channels) = match first_format {
        Some((rate, ch)) => (rate, ch),
        None => (16_000u32, 1u16),
    };
    let origin = crate::timeline::TrackOrigin {
        start_wall_utc_ms: 0,
        start_monotonic_ns: 0,
        sample_rate,
        channels,
        capture_mode: crate::timeline::CaptureMode::Device,
        contamination_risk: crate::timeline::ContaminationRisk::NoOtherApps,
    };
    let mut manifest = ChunkManifest::new(track, "recovered", origin);
    manifest.events.push(
        ManifestEvent {
            kind: ManifestEventKind::ManifestRebuilt,
            at_ms: now_ms,
            seq: None,
            file: None,
            samples: None,
        },
    );
    manifest
}

} // verus!
