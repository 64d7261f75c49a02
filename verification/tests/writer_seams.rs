use meeting_assistant::chunk_manifest::{ChunkManifest, ManifestEventKind};
use meeting_assistant::chunk_writer::{
    is_disk_full, ChunkFs, ChunkWriter, DegradedReason, FsError, WriterEvent, QUEUE_CAP_SAMPLES, SAMPLE_RATE,
};
use meeting_assistant::ids::{MeetingId, TrackId};
use meeting_assistant::source::{CaptureSource, SourceEvent, SyntheticSource};
use meeting_assistant::timeline::{CaptureMode, ContaminationRisk, Gap, GapReason, TrackOrigin};
use std::str::FromStr;

struct Refusing {
    calls: u32,
}

impl ChunkFs for Refusing {
    fn write_part(&mut self, _path: &str, _bytes: &[u8]) -> Result<(), FsError> {
        self.calls += 1;
        Err(FsError::Io)
    }
    fn rename_in(&mut self, _part: &str, _final_path: &str) -> Result<(), FsError> {
        self.calls += 1;
        Err(FsError::Io)
    }
    fn save_manifest(&mut self, _dir: &str, _manifest: &ChunkManifest) -> Result<(), FsError> {
        self.calls += 1;
        Err(FsError::Io)
    }
}

fn origin() -> TrackOrigin {
    TrackOrigin {
        start_wall_utc_ms: 0,
        start_monotonic_ns: 0,
        sample_rate: 16_000,
        channels: 1,
        capture_mode: CaptureMode::Device,
        contamination_risk: ContaminationRisk::NoOtherApps,
    }
}

#[test]
fn nothing_due_drains_and_finishes_without_touching_the_filesystem() {
    let manifest = ChunkManifest::new(TrackId::from_u128(7), "mic", origin());
    let mut w = ChunkWriter::resume("/tmp/track", manifest);
    let mut fs = Refusing { calls: 0 };
    assert_eq!(w.drain(&mut fs), Ok(()));
    assert_eq!(w.finish(&mut fs), Ok(()));
    w.push(&[1, 2, 3]);
    assert_eq!(w.drain(&mut fs), Ok(()), "less than a chunk is not due");
    assert_eq!(fs.calls, 0);
    assert_eq!(w.queued_samples(), 3);
    assert_eq!(w.finish(&mut fs), Err(FsError::Io), "finishing writes what remains");
    assert_eq!(w.queued_samples(), 3);
    assert!(w.manifest().chunks.is_empty());
}

#[test]
fn identifiers_parse_through_from_str() {
    let text = "018f4d2e-7b1a-7c3d-9a1e-0123456789ab";
    let id = MeetingId::from_str(text).unwrap();
    assert_eq!(id.to_string(), text);
    assert!(MeetingId::from_str("not-an-id").is_err());
    assert_eq!(TrackId::from_str(text).unwrap().as_u128(), id.as_u128());
}

/// A filesystem that refuses every write for a while.
struct StallingFs {
    stalled: bool,
    writes: u32,
    files: Vec<String>,
}

impl ChunkFs for StallingFs {
    fn write_part(&mut self, _path: &str, _bytes: &[u8]) -> Result<(), FsError> {
        if self.stalled {
            return Err(FsError::Stalled);
        }
        self.writes += 1;
        Ok(())
    }
    fn rename_in(&mut self, _part: &str, final_path: &str) -> Result<(), FsError> {
        self.files.push(final_path.rsplit('/').next().unwrap().to_string());
        Ok(())
    }
    fn save_manifest(&mut self, _dir: &str, _manifest: &ChunkManifest) -> Result<(), FsError> {
        Ok(())
    }
}

#[test]
fn stalling_filesystem_yields_gap_not_stall() {
    let mut fs = StallingFs { stalled: true, writes: 0, files: Vec::new() };
    let mut source = SyntheticSource::new(SAMPLE_RATE, 150 * SAMPLE_RATE as u64, 16_000);
    let manifest = ChunkManifest::new(TrackId::new(), "mic", source.origin());
    let mut writer = ChunkWriter::resume("/data/mic", manifest);
    let mut pushes = 0;
    while let SourceEvent::Samples(s) = source.next() {
        writer.push(&s);
        let _ = writer.drain(&mut fs);
        pushes += 1;
    }
    assert_eq!(pushes, 150);
    assert!(writer.queued_samples() <= QUEUE_CAP_SAMPLES, "memory is bounded");
    assert_eq!(writer.queued_samples(), 960_000);
    assert_eq!(writer.position(), 0);
    assert_eq!(fs.writes, 0);
    let dropped: u64 = writer
        .events
        .iter()
        .filter_map(|e| match e {
            WriterEvent::Degraded { reason: DegradedReason::DiskBackpressure, dropped_samples } => {
                Some(*dropped_samples)
            }
            _ => None,
        })
        .sum();
    assert_eq!(dropped, 90 * SAMPLE_RATE as u64, "everything beyond the 60 s queue was dropped");
    assert!(!writer.manifest().gaps.is_empty(), "the loss is an explicit gap");
    assert_eq!(
        writer.manifest().gaps,
        vec![Gap { from_sample: 960_000, to_sample: 2_400_000, reason: GapReason::CaptureInterrupted }]
    );
    // the disk comes back: the queued 60 s drain, the gap sits after them
    fs.stalled = false;
    writer.finish(&mut fs).unwrap();
    assert_eq!(fs.files, ["000000.wav", "000001.wav"]);
    let m = writer.manifest();
    let gap = &m.gaps[0];
    assert_eq!(gap.from_sample, 960_000);
    assert_eq!(gap.to_sample - gap.from_sample, 90 * SAMPLE_RATE as u64);
    assert_eq!(gap.reason, GapReason::CaptureInterrupted);
}

/// A filesystem that keeps every `.part` file's bytes and every saved manifest.
struct Keeping {
    parts: Vec<(String, Vec<u8>)>,
    saves: usize,
}

impl ChunkFs for Keeping {
    fn write_part(&mut self, path: &str, bytes: &[u8]) -> Result<(), FsError> {
        self.parts.push((path.to_string(), bytes.to_vec()));
        Ok(())
    }
    fn rename_in(&mut self, _part: &str, _final_path: &str) -> Result<(), FsError> {
        Ok(())
    }
    fn save_manifest(&mut self, _dir: &str, _manifest: &ChunkManifest) -> Result<(), FsError> {
        self.saves += 1;
        Ok(())
    }
}

#[test]
fn each_chunk_file_holds_the_queued_samples_it_records() {
    let samples: Vec<i16> = (0..600_000u32).map(|i| (i % 65_536) as u16 as i16).collect();
    let manifest = ChunkManifest::new(TrackId::from_u128(9), "mic", origin());
    let mut w = ChunkWriter::resume("/data/mic", manifest);
    let mut fs = Keeping { parts: Vec::new(), saves: 0 };
    w.push(&samples);
    assert_eq!(w.drain(&mut fs), Ok(()));
    assert_eq!(fs.parts.len(), 1);
    assert_eq!(fs.parts[0].0, "/data/mic/000000.wav.part");
    assert_eq!(fs.parts[0].1, meeting_assistant::wav::encode(16_000, 1, &samples[..480_000]));
    assert_eq!(w.queued_samples(), 120_000);
    assert_eq!(w.finish(&mut fs), Ok(()));
    assert_eq!(fs.parts.len(), 2);
    assert_eq!(fs.parts[1].0, "/data/mic/000001.wav.part");
    assert_eq!(fs.parts[1].1, meeting_assistant::wav::encode(16_000, 1, &samples[480_000..]));
    let chunks = &w.manifest().chunks;
    assert_eq!((chunks[0].start_sample, chunks[0].len_samples), (0, 480_000));
    assert_eq!((chunks[1].start_sample, chunks[1].len_samples), (480_000, 120_000));
    assert_eq!(fs.saves, 2);
    assert_eq!(w.position(), 600_000);
}

/// A filesystem whose disk is full: every `.part` write fails with the disk-full error.
struct FullDiskFs;

impl ChunkFs for FullDiskFs {
    fn write_part(&mut self, _path: &str, _bytes: &[u8]) -> Result<(), FsError> {
        Err(FsError::DiskFull)
    }
    fn rename_in(&mut self, _part: &str, _final_path: &str) -> Result<(), FsError> {
        Ok(())
    }
    fn save_manifest(&mut self, _dir: &str, _manifest: &ChunkManifest) -> Result<(), FsError> {
        Ok(())
    }
}

fn os_error(code: i32) -> bool {
    let e = std::io::Error::from_raw_os_error(code);
    is_disk_full(e.raw_os_error(), e.kind() == std::io::ErrorKind::StorageFull)
}

#[test]
fn disk_full_is_surfaced_as_disk_full() {
    let mut fs = FullDiskFs;
    let mut source = SyntheticSource::new(SAMPLE_RATE, 100 * SAMPLE_RATE as u64, 16_000);
    let manifest = ChunkManifest::new(TrackId::new(), "mic", source.origin());
    let mut writer = ChunkWriter::resume("/data/mic", manifest);
    while let SourceEvent::Samples(s) = source.next() {
        writer.push(&s);
        let _ = writer.drain(&mut fs);
    }
    let reasons: std::collections::BTreeSet<String> = writer
        .events
        .iter()
        .filter_map(|e| match e {
            WriterEvent::Degraded { reason, .. } => Some(format!("{reason:?}")),
            _ => None,
        })
        .collect();
    assert_eq!(
        reasons.into_iter().collect::<Vec<_>>(),
        ["DiskFull"],
        "drops while the disk is full are attributed to the full disk"
    );
    assert!(os_error(112), "Windows ERROR_DISK_FULL");
    assert!(os_error(39), "Windows ERROR_HANDLE_DISK_FULL");
    assert!(os_error(28), "ENOSPC");
    assert!(!os_error(13));
}

/// An in-memory filesystem that stalls on demand: `.part` files become chunk files on rename.
struct MemStallingFs {
    stalled: bool,
    files: std::collections::BTreeMap<String, Vec<u8>>,
}

impl ChunkFs for MemStallingFs {
    fn write_part(&mut self, path: &str, bytes: &[u8]) -> Result<(), FsError> {
        if self.stalled {
            return Err(FsError::Stalled);
        }
        self.files.insert(path.to_string(), bytes.to_vec());
        Ok(())
    }
    fn rename_in(&mut self, part: &str, final_path: &str) -> Result<(), FsError> {
        let bytes = self.files.remove(part).ok_or(FsError::Io)?;
        self.files.insert(final_path.to_string(), bytes);
        Ok(())
    }
    fn save_manifest(&mut self, _dir: &str, _manifest: &ChunkManifest) -> Result<(), FsError> {
        Ok(())
    }
}

#[test]
fn two_overflows_keep_every_position_exact() {
    let mut fs = MemStallingFs { stalled: true, files: std::collections::BTreeMap::new() };
    let origin = SyntheticSource::new(SAMPLE_RATE, 0, 1).origin();
    let mut writer = ChunkWriter::resume("/data/mic", ChunkManifest::new(TrackId::new(), "mic", origin));
    let mut produced = 0u64;
    let mut feed = |writer: &mut ChunkWriter, fs: &mut MemStallingFs, seconds: u64| {
        for _ in 0..seconds {
            let samples: Vec<i16> = (0..SAMPLE_RATE as u64).map(|k| SyntheticSource::sample(produced + k)).collect();
            produced += SAMPLE_RATE as u64;
            writer.push(&samples);
            let _ = writer.drain(fs);
        }
    };
    // stall: 60 s queued, 30 s dropped (gap A)
    feed(&mut writer, &mut fs, 90);
    // the disk returns for one second of audio (one chunk drains), then stalls again while the
    // queue refills and overflows (gap B)
    fs.stalled = false;
    feed(&mut writer, &mut fs, 1);
    fs.stalled = true;
    feed(&mut writer, &mut fs, 80);
    fs.stalled = false;
    writer.finish(&mut fs).unwrap();
    let m = writer.manifest();
    assert_eq!(m.gaps.len(), 2, "two distinct gaps: {:?}", m.gaps);
    let mut spans: Vec<(u64, u64)> = m
        .chunks
        .iter()
        .map(|c| (c.start_sample, c.start_sample + c.len_samples))
        .chain(m.gaps.iter().map(|g| (g.from_sample, g.to_sample)))
        .collect();
    spans.sort();
    let mut cursor = 0;
    for (from, to) in &spans {
        assert_eq!(*from, cursor, "hole or overlap at {from}: {spans:?}");
        cursor = *to;
    }
    assert_eq!(cursor, produced, "every produced sample has exactly one position");
    for chunk in &m.chunks {
        let bytes = &fs.files[&format!("/data/mic/{}", chunk.file)];
        let decoded = meeting_assistant::wav::decode(bytes).unwrap();
        assert_eq!(
            decoded.samples[0],
            SyntheticSource::sample(chunk.start_sample),
            "chunk {} starts with the sample of its position",
            chunk.seq
        );
    }
}

/// An in-memory filesystem that keeps chunk files and the last manifest saved in each directory.
struct MemFs {
    files: std::collections::BTreeMap<String, Vec<u8>>,
    manifests: std::collections::BTreeMap<String, ChunkManifest>,
}

impl ChunkFs for MemFs {
    fn write_part(&mut self, path: &str, bytes: &[u8]) -> Result<(), FsError> {
        self.files.insert(path.to_string(), bytes.to_vec());
        Ok(())
    }
    fn rename_in(&mut self, part: &str, final_path: &str) -> Result<(), FsError> {
        let bytes = self.files.remove(part).ok_or(FsError::Io)?;
        self.files.insert(final_path.to_string(), bytes);
        Ok(())
    }
    fn save_manifest(&mut self, dir: &str, manifest: &ChunkManifest) -> Result<(), FsError> {
        self.manifests.insert(dir.to_string(), manifest.clone());
        Ok(())
    }
}

#[test]
fn device_format_change_opens_new_segment() {
    let tracks_root = "/data/chunks";
    let first_id = TrackId::new();
    let mut source = SyntheticSource::new(SAMPLE_RATE, 70 * SAMPLE_RATE as u64, 16_000);
    let reconnected = TrackOrigin {
        start_wall_utc_ms: 1_756_857_645_000,
        start_monotonic_ns: 46_000_000_000,
        sample_rate: 48_000,
        channels: 1,
        capture_mode: CaptureMode::Device,
        contamination_risk: ContaminationRisk::NoOtherApps,
    };
    source = source.with_format_change(45 * SAMPLE_RATE as u64, reconnected);
    let first_dir = format!("{tracks_root}/{}", first_id.to_string());
    let mut writer = ChunkWriter::resume(&first_dir, ChunkManifest::new(first_id, "mic", source.origin()));
    let mut fs = MemFs { files: std::collections::BTreeMap::new(), manifests: std::collections::BTreeMap::new() };
    let mut successor_id = None;
    loop {
        match source.next() {
            SourceEvent::Samples(s) => {
                writer.push(&s);
                writer.drain(&mut fs).unwrap();
            }
            SourceEvent::FormatChanged(origin) => {
                let next_id = TrackId::new();
                successor_id = Some(next_id);
                writer = writer.open_successor(&mut fs, tracks_root, next_id, origin, 45_000).unwrap();
            }
            SourceEvent::Ended => break,
        }
    }
    writer.finish(&mut fs).unwrap();
    let second_id = successor_id.expect("a successor was opened");
    let second_dir = format!("{tracks_root}/{}", second_id.to_string());
    let first = fs.manifests[&first_dir].clone();
    let second = fs.manifests[&second_dir].clone();
    assert_eq!(first.successor, Some(second_id));
    assert_eq!(second.predecessor, Some(first_id));
    assert_eq!(second.origin, reconnected);
    assert_eq!(first.origin.sample_rate, 16_000);
    assert!(first.events.iter().any(|e| e.kind == ManifestEventKind::SuccessorOpened));
    // the first track holds 45 s at 16 kHz (30 s + 15 s tail flushed at the change); the successor
    // starts its own sample space at 0 in the new format
    assert_eq!(first.end_sample(), 45 * SAMPLE_RATE as u64);
    assert_eq!(first.chunks[1].len_samples, 15 * SAMPLE_RATE as u64);
    assert_eq!(second.chunks[0].start_sample, 0);
    assert_eq!(second.end_sample(), 25 * SAMPLE_RATE as u64);
    let second_chunk = meeting_assistant::wav::decode(&fs.files[&format!("{second_dir}/{}", second.chunks[0].file)]).unwrap();
    assert_eq!(second_chunk.sample_rate, 48_000, "written in the new format");
    assert_eq!(
        second_chunk.samples[0],
        SyntheticSource::sample(45 * SAMPLE_RATE as u64),
        "the successor starts with the first sample after the change"
    );
    let first_chunk = meeting_assistant::wav::decode(&fs.files[&format!("{first_dir}/{}", first.chunks[0].file)]).unwrap();
    assert_eq!(first_chunk.sample_rate, 16_000, "old chunks are not reinterpreted");
}
