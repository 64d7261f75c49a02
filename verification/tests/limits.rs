use meeting_assistant::chunk_manifest::ChunkRecord;
use meeting_assistant::recovery::{positions_within_limit, rebuilt_manifest, CHUNK_LEN_LIMIT};
use meeting_assistant::timeline::{Gap, GapReason};
use meeting_assistant::wav::{encode, repair_part, repair_part_fits};

fn header_with(channels: u16, rate: u32, body: usize) -> Vec<u8> {
    let mut bytes = encode(rate, 1, &[]);
    bytes[22..24].copy_from_slice(&channels.to_le_bytes());
    bytes[24..28].copy_from_slice(&rate.to_le_bytes());
    bytes.extend(std::iter::repeat(0u8).take(body));
    bytes
}

#[test]
fn a_partial_file_is_repairable_only_when_its_header_fields_fit() {
    assert!(repair_part_fits(&[0u8; 10]));
    let ordinary = header_with(2, 48_000, 100);
    assert!(repair_part_fits(&ordinary));
    assert_eq!(repair_part(&ordinary).map(|b| b.len()), Some(44 + 100));
    assert!(!repair_part_fits(&header_with(40_000, 8_000, 4)), "block alignment overflows");
    assert!(!repair_part_fits(&header_with(2, 2_000_000_000, 4)), "byte rate overflows");
    assert!(repair_part_fits(&header_with(0, 16_000, 3)), "a declared zero is one channel");
}

#[test]
fn manifest_positions_are_checked_against_the_limit() {
    let mut m = rebuilt_manifest("not-an-id", None, 1);
    assert!(positions_within_limit(&m, 0));
    m.chunks.push(ChunkRecord { seq: 1, file: "000001.wav".into(), start_sample: 0, len_samples: u64::MAX });
    assert!(positions_within_limit(&m, 0), "with nothing to adopt the whole range is usable");
    assert!(!positions_within_limit(&m, 1), "one file may still be adopted behind the records");
    m.chunks.pop();
    let limit = u64::MAX - 3 * CHUNK_LEN_LIMIT;
    m.chunks.push(ChunkRecord { seq: 1, file: "000001.wav".into(), start_sample: limit - 1, len_samples: 1 });
    assert!(positions_within_limit(&m, 3));
    m.chunks.push(ChunkRecord { seq: 2, file: "000002.wav".into(), start_sample: limit, len_samples: 1 });
    assert!(!positions_within_limit(&m, 3));
    m.chunks.pop();
    m.gaps.push(Gap { from_sample: 0, to_sample: limit + 1, reason: GapReason::ChunkLost });
    assert!(!positions_within_limit(&m, 3));
}
