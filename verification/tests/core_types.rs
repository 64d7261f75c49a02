use meeting_assistant::artifact_ref::{ArtifactKind, ArtifactRef, PathSegment};
use meeting_assistant::error::CoreError;
use meeting_assistant::ids::{ChunkId, ChunkSeq, MeetingId, RootId, SessionId, TrackId};
use meeting_assistant::timeline::{
    CaptureMode, ContaminationRisk, GapReason, SessionTimeline, TrackOrigin, TrackSegment,
};

#[test]
fn relocating_the_root_keeps_every_reference_valid() {
    let root = RootId::new();
    let meeting = MeetingId::new();
    let chunk_file = format!("{}.wav", ChunkSeq(4).to_string());
    let reference = ArtifactRef::new(
        root,
        vec![
            PathSegment::new(&meeting.as_path_segment()).unwrap(),
            PathSegment::new(ArtifactKind::Chunks.dir_name()).unwrap(),
            PathSegment::new(&chunk_file).unwrap(),
        ],
    )
    .unwrap();
    let before = reference.resolve("/old/root");
    let after = reference.resolve("/new/root");
    assert_eq!(
        before.strip_prefix("/old/root").unwrap(),
        after.strip_prefix("/new/root").unwrap()
    );
    assert_eq!(
        reference.relative_path(),
        format!("{}/chunks/000004.wav", meeting.to_string())
    );
}

#[test]
fn traversal_and_separators_are_rejected() {
    for bad in ["..", ".", "", "a/b", "a\\b", ".hidden", "C:"] {
        assert!(PathSegment::new(bad).is_err(), "{bad:?} must be rejected");
    }
    assert!(PathSegment::new("../etc").is_err());
}

#[test]
fn uuidv7_is_time_ordered() {
    let ids: Vec<SessionId> = (0..2_000).map(|_| SessionId::new()).collect();
    let mut sorted = ids.clone();
    sorted.sort();
    assert_eq!(ids, sorted, "ids minted in sequence must sort in minting order");
    assert!(ids.iter().all(|id| (id.as_u128() >> 76) & 0xf == 7));
    let unique: std::collections::BTreeSet<_> = ids.iter().collect();
    assert_eq!(unique.len(), ids.len(), "ids must be unique without coordination");
}

#[test]
fn one_id_three_surfaces_one_string() {
    let id = MeetingId::new();
    let row = id.to_string();
    let path = id.as_path_segment();
    assert_eq!(row, path);
    let parsed: MeetingId = row.parse().unwrap();
    assert_eq!(parsed, id);
}

fn origin(rate: u32, wall_ms: i64) -> TrackOrigin {
    TrackOrigin {
        start_wall_utc_ms: wall_ms,
        start_monotonic_ns: 0,
        sample_rate: rate,
        channels: 1,
        capture_mode: CaptureMode::ProcessLoopback,
        contamination_risk: ContaminationRisk::NoOtherApps,
    }
}

const CHUNK: u64 = 30 * 16_000;

#[test]
fn timestamps_survive_missing_chunk() {
    let mut track = TrackSegment::new(TrackId::new(), origin(16_000, 0)).unwrap();
    track.push_chunk(ChunkId::new(), CHUNK).unwrap();
    track.push_chunk(ChunkId::new(), CHUNK).unwrap();
    // chunk 000002 was lost: a 30 s gap, recorded rather than concatenated away
    track.record_gap(3 * CHUNK, GapReason::ChunkLost).unwrap();
    let fourth = track
        .push_chunk_at(ChunkId::new(), ChunkSeq(3), 3 * CHUNK, CHUNK)
        .unwrap();
    assert_eq!(fourth.start_sample, 1_440_000);
    let t = track.chunk_local_time(ChunkSeq(3), 40_000).unwrap();
    assert_eq!(t.micros, 92_500_000, "2.5 s into the fourth chunk is session time 92.5 s");
    let concatenated = (2 * CHUNK + 40_000) as f64 / 16_000.0;
    assert_ne!(
        t.micros as f64 / 1_000_000.0,
        concatenated,
        "counting surviving chunks from zero would shift by 30 s"
    );
    assert!(track.validate_tiling().is_ok());
}

#[test]
fn overlapping_chunk_is_a_hard_error() {
    let mut track = TrackSegment::new(TrackId::new(), origin(16_000, 0)).unwrap();
    track.push_chunk(ChunkId::new(), CHUNK).unwrap();
    let err = track
        .push_chunk_at(ChunkId::new(), ChunkSeq(1), CHUNK - 1, CHUNK)
        .unwrap_err();
    assert_eq!(
        err,
        CoreError::ChunkOverlap { start_sample: CHUNK - 1, previous_end: CHUNK }
    );
}

#[test]
fn hole_between_records_breaks_tiling() {
    let mut track = TrackSegment::new(TrackId::new(), origin(16_000, 0)).unwrap();
    track.push_chunk(ChunkId::new(), CHUNK).unwrap();
    track
        .push_chunk_at(ChunkId::new(), ChunkSeq(1), 2 * CHUNK, CHUNK)
        .unwrap(); // silent hole, no gap record
    assert_eq!(track.validate_tiling(), Err(CoreError::TilingBroken { at_sample: CHUNK }));
}

#[test]
fn tracks_have_independent_origins() {
    let mic = TrackSegment::new(TrackId::new(), origin(16_000, 1_000)).unwrap();
    let loopback = TrackSegment::new(TrackId::new(), origin(48_000, 1_750)).unwrap();
    let session = SessionTimeline {
        session_start_wall_utc_ms: 1_000,
        alignment_uncertainty_ms: 20,
        tracks: vec![mic.clone(), loopback.clone()],
    };
    let mut mic = mic;
    let mut loopback = loopback;
    mic.push_chunk(ChunkId::new(), 16_000 * 10).unwrap();
    loopback.push_chunk(ChunkId::new(), 48_000 * 10).unwrap();
    assert_eq!(session.session_time(&mic, 16_000).unwrap().micros, 1_000_000);
    // sample 48_000 of the loopback track is one second after an origin that started 750 ms later
    assert_eq!(session.session_time(&loopback, 48_000).unwrap().micros, 1_750_000);
    assert_ne!(
        session.session_time(&mic, 16_000).unwrap(),
        session.session_time(&loopback, 16_000).unwrap()
    );
}

#[test]
fn format_change_opens_new_segment() {
    let mut first = TrackSegment::new(TrackId::new(), origin(16_000, 0)).unwrap();
    first.push_chunk(ChunkId::new(), CHUNK).unwrap();
    let second = first
        .open_successor(TrackId::new(), origin(48_000, 30_000))
        .unwrap();
    assert_eq!(second.end_sample(), 0);
    assert_eq!(first.time_of(CHUNK).unwrap().micros, 30_000_000, "old positions keep the old rate");
    assert_ne!(first.track_id, second.track_id);
}

#[test]
fn chunks_and_gaps_tile_without_overlap() {
    // a fixed sequence of pieces standing in for the generated ones
    let pieces: Vec<(bool, u64)> =
        vec![(false, 100), (true, 5), (false, 99_999), (true, 1), (true, 7), (false, 1), (false, 42)];
    let mut track = TrackSegment::new(TrackId::new(), origin(48_000, 0)).unwrap();
    for (is_gap, len) in pieces {
        if is_gap {
            let end = track.end_sample() + len;
            track.record_gap(end, GapReason::ChunkLost).unwrap();
        } else {
            track.push_chunk(ChunkId::new(), len).unwrap();
        }
    }
    assert!(track.validate_tiling().is_ok());
    let covered: u64 = track.chunks.iter().map(|c| c.len_samples).sum::<u64>()
        + track.gaps.iter().map(|g| g.to_sample - g.from_sample).sum::<u64>();
    assert_eq!(covered, track.end_sample());
    let end = track.end_sample();
    assert_eq!(track.time_of(end - 1).unwrap().micros, (end - 1) * 1_000_000 / 48_000);
}

#[test]
fn resolving_under_an_empty_or_slashed_root_adds_no_extra_separator() {
    let reference = ArtifactRef::new(
        RootId::new(),
        vec![PathSegment::new("m").unwrap(), PathSegment::new("chunks").unwrap()],
    )
    .unwrap();
    assert_eq!(reference.resolve(""), "m/chunks");
    assert_eq!(reference.resolve("/data/"), "/data/m/chunks");
    assert_eq!(reference.resolve("/data"), "/data/m/chunks");
}
