//! The per-track chunk manifest: a cache of what the chunk directory holds, rewritten after every
//! durable step. A track has exactly one origin: a device format or endpoint change opens a
//! successor track with its own identifier, directory, origin and sample space.

use crate::ids::{uuid_string, uuid_text, TrackId};
use crate::text::{push_char, zero_padded, zero_padded_text};
use crate::timeline::{gaps_end, Gap, TrackOrigin};
use vstd::prelude::*;

verus! {

broadcast use vstd::seq_lib::group_seq_properties;

pub const MANIFEST_SCHEMA_VERSION: u32 = 1;

/// One durable chunk file of the track.
#[derive(Debug, Clone, PartialEq, Eq)]
pub struct ChunkRecord {
    pub seq: u32,
    pub file: String,
    pub start_sample: u64,
    pub len_samples: u64,
}

impl ChunkRecord {
    /// An equal copy.
    pub fn duplicate(&self) -> (r: Self)
        ensures
            r == *self,
    {
        ChunkRecord {
            seq: self.seq,
            file: self.file.clone(),
            start_sample: self.start_sample,
            len_samples: self.len_samples,
        }
    }
}

/// What happened to the track directory.
#[derive(Debug, Clone, Copy, PartialEq, Eq, Structural)]
pub enum ManifestEventKind {
    ChunkRepaired,
    ChunkDiscarded,
    ChunkAdopted,
    ManifestRebuilt,
    SuccessorOpened,
    Consolidated,
    ChunksDeleted,
    ConsolidationFailed,
}

/// One event in the track's history.
#[derive(Debug, Clone, PartialEq, Eq)]
pub struct ManifestEvent {
    pub kind: ManifestEventKind,
    pub at_ms: u64,
    pub seq: Option<u32>,
    pub file: Option<String>,
    pub samples: Option<u64>,
}

/// The manifest of one track directory.
#[derive(Debug, Clone, PartialEq, Eq)]
pub struct ChunkManifest {
    pub schema_version: u32,
    /// The track identifier; also the chunk directory name and the FLAC file stem.
    pub track: TrackId,
    /// The human role of the track (`mic`, `loopback`), never used in a path.
    pub role: String,
    pub origin: TrackOrigin,
    /// The track this one continues after a device format or endpoint change.
    pub predecessor: Option<TrackId>,
    /// The track opened when this one ended on a format or endpoint change.
    pub successor: Option<TrackId>,
    pub chunks: Vec<ChunkRecord>,
    pub gaps: Vec<Gap>,
    pub events: Vec<ManifestEvent>,
    /// Set once `<track_id>.flac` is verified and recorded; chunks may then be deleted.
    pub consolidated_file: Option<String>,
}

/// The chunk file name of a sequence number: six zero-padded digits and `.wav`.
pub open spec fn chunk_file_name(seq: u32) -> Seq<char> {
    zero_padded_text(seq as nat, 6) + seq!['.', 'w', 'a', 'v']
}

/// The `[start, end)` interval a chunk record covers.
pub open spec fn record_interval(r: ChunkRecord) -> (u64, u64) {
    (r.start_sample, (r.start_sample + r.len_samples) as u64)
}

/// One past the last sample any record covers (0 without records).
pub open spec fn records_end(records: Seq<ChunkRecord>) -> nat
    decreases records.len(),
{
    if records.len() == 0 {
        0
    } else {
        let rest = records_end(records.drop_last());
        let e = (records.last().start_sample + records.last().len_samples) as nat;
        if rest >= e { rest } else { e }
    }
}

/// The largest sequence number among records, if any.
pub open spec fn records_max_seq(records: Seq<ChunkRecord>) -> Option<u32>
    decreases records.len(),
{
    if records.len() == 0 {
        None
    } else {
        match records_max_seq(records.drop_last()) {
            None => Some(records.last().seq),
            Some(m) => Some(if m >= records.last().seq { m } else { records.last().seq }),
        }
    }
}

/// No record's end overflows 64 bits.
pub open spec fn records_fit(records: Seq<ChunkRecord>) -> bool {
    forall|i: int|
        0 <= i < records.len() ==> (#[trigger] records[i]).start_sample + records[i].len_samples
            <= u64::MAX
}

pub fn append_str(out: &mut String, text: &str)
    ensures
        final(out)@ == old(out)@ + text@,
{
    let cs = crate::text::chars_of(text);
    let ghost start = old(out)@;
    let mut i: usize = 0;
    while i < cs.len()
        invariant
            i <= cs@.len(),
            out@ == start + cs@.take(i as int),
        decreases cs@.len() - i,
    {
        push_char(out, cs[i]);
        assert(cs@.take(i + 1) == cs@.take(i as int).push(cs@[i as int]));
        i += 1;
    }
    assert(cs@.take(cs@.len() as int) == cs@);
}

impl ChunkManifest {
    pub fn new(track: TrackId, role: &str, origin: TrackOrigin) -> (m: ChunkManifest)
        ensures
            m.schema_version == MANIFEST_SCHEMA_VERSION,
            m.track == track,
            m.role@ == role@,
            m.origin == origin,
            m.predecessor is None,
            m.successor is None,
            m.chunks@.len() == 0,
            m.gaps@.len() == 0,
            m.events@.len() == 0,
            m.consolidated_file is None,
    {
        ChunkManifest {
            schema_version: MANIFEST_SCHEMA_VERSION,
            track,
            role: role.to_owned(),
            origin,
            predecessor: None,
            successor: None,
            chunks: Vec::new(),
            gaps: Vec::new(),
            events: Vec::new(),
            consolidated_file: None,
        }
    }

    /// `000042.wav` for sequence number 42.
    pub fn chunk_file(seq: u32) -> (s: String)
        ensures
            s@ == chunk_file_name(seq),
    {
        let mut s = zero_padded(seq as u64, 6);
        append_str(&mut s, ".wav");
        proof {
            reveal_strlit(".wav");
        }
        assert(s@ =~= chunk_file_name(seq));
        s
    }

    pub fn max_seq(&self) -> (m: Option<u32>)
        ensures
            m == records_max_seq(self.chunks@),
    {
        let mut m: Option<u32> = None;
        let mut i: usize = 0;
        while i < self.chunks.len()
            invariant
                i <= self.chunks@.len(),
                m == records_max_seq(self.chunks@.take(i as int)),
            decreases self.chunks@.len() - i,
        {
            assert(self.chunks@.take(i + 1).drop_last() == self.chunks@.take(i as int));
            let s = self.chunks[i].seq;
            m = match m {
                None => Some(s),
                Some(x) => Some(if x >= s { x } else { s }),
            };
            i += 1;
        }
        assert(self.chunks@.take(self.chunks@.len() as int) == self.chunks@);
        m
    }

    /// The consolidated file name: `<track_id>.flac`.
    pub fn flac_name(&self) -> (s: String)
        ensures
            s@ == uuid_text(self.track.0) + seq!['.', 'f', 'l', 'a', 'c'],
    {
        let mut s = uuid_string(self.track.0);
        append_str(&mut s, ".flac");
        proof {
            reveal_strlit(".flac");
        }
        s
    }

    /// One past the last sample this track covers (chunks and gaps).
    pub fn end_sample(&self) -> (e: u64)
        requires
            records_fit(self.chunks@),
        ensures
            e == if records_end(self.chunks@) >= gaps_end(self.gaps@) {
                records_end(self.chunks@)
            } else {
                gaps_end(self.gaps@)
            },
    {
        let mut c: u64 = 0;
        let mut i: usize = 0;
        while i < self.chunks.len()
            invariant
                records_fit(self.chunks@),
                i <= self.chunks@.len(),
                c == records_end(self.chunks@.take(i as int)),
            decreases self.chunks@.len() - i,
        {
            assert(self.chunks@.take(i + 1).drop_last() == self.chunks@.take(i as int));
            let r = &self.chunks[i];
            assert(r.start_sample + r.len_samples <= u64::MAX);
            let e = r.start_sample + r.len_samples;
            if e > c {
                c = e;
            }
            i += 1;
        }
        assert(self.chunks@.take(self.chunks@.len() as int) == self.chunks@);
        let mut g: u64 = 0;
        let mut j: usize = 0;
        while j < self.gaps.len()
            invariant
                j <= self.gaps@.len(),
                g == gaps_end(self.gaps@.take(j as int)),
            decreases self.gaps@.len() - j,
        {
            assert(self.gaps@.take(j + 1).drop_last() == self.gaps@.take(j as int));
            if self.gaps[j].to_sample > g {
                g = self.gaps[j].to_sample;
            }
            j += 1;
        }
        assert(self.gaps@.take(self.gaps@.len() as int) == self.gaps@);
        if c >= g { c } else { g }
    }
}

} // verus!
