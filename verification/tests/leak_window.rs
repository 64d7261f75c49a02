use meeting_assistant::chunk_manifest::ChunkRecord;
use meeting_assistant::leak_window::{
    alignment_conclusive, candidate_windows, chunk_read_order, sample_at, window, WINDOW_SAMPLES,
};
use meeting_assistant::wasapi::TrackSamples;

#[test]
fn sample_positions_follow_each_tracks_own_origin() {
    let samples = vec![0i16; 10];
    let t = TrackSamples { start_monotonic_ns: 5_000_000_000, samples: &samples };
    assert_eq!(sample_at(&t, 4_999_999_999), None);
    assert_eq!(sample_at(&t, 5_000_000_000), Some(0));
    assert_eq!(sample_at(&t, 5_037_000_000), Some(592));
    assert_eq!(sample_at(&t, 6_000_000_000), Some(16_000));
    assert_eq!(sample_at(&t, 5_000_062_499), Some(0));
    assert_eq!(sample_at(&t, 5_000_062_500), Some(1));
    let far = TrackSamples { start_monotonic_ns: 0, samples: &samples };
    assert_eq!(sample_at(&far, u64::MAX), Some(u64::MAX / 1_000_000_000 * 16_000 + (u64::MAX % 1_000_000_000) * 16_000 / 1_000_000_000));
}

#[test]
fn a_window_is_there_only_when_the_track_holds_it_all() {
    let samples: Vec<i16> = (0..10).collect();
    let t = TrackSamples { start_monotonic_ns: 0, samples: &samples };
    assert_eq!(window(&t, 2, 3), Some(&samples[2..5]));
    assert_eq!(window(&t, 0, 10), Some(&samples[..]));
    assert_eq!(window(&t, 8, 3), None);
    assert_eq!(window(&t, 11, 0), None);
    assert_eq!(window(&t, u64::MAX, 2), None);
}

#[test]
fn candidates_start_at_the_later_origin_one_second_apart() {
    let loopback_samples = vec![0i16; 65 * 16_000];
    let mic_samples = vec![0i16; 65 * 16_000];
    let loopback = TrackSamples { start_monotonic_ns: 5_000_000_000, samples: &loopback_samples };
    let microphone = TrackSamples { start_monotonic_ns: 5_037_000_000, samples: &mic_samples };
    let c = candidate_windows(&loopback, &microphone);
    assert_eq!(c, vec![(592, 0), (16_592, 16_000), (32_592, 32_000), (48_592, 48_000), (64_592, 64_000)]);
    for (l, m) in &c {
        assert!(l + WINDOW_SAMPLES <= loopback_samples.len() as u64);
        assert!(m + WINDOW_SAMPLES <= mic_samples.len() as u64);
    }
}

#[test]
fn no_candidate_when_a_track_is_shorter_than_a_window() {
    let long = vec![0i16; 120 * 16_000];
    let short = vec![0i16; 59 * 16_000];
    let a = TrackSamples { start_monotonic_ns: 0, samples: &long };
    let b = TrackSamples { start_monotonic_ns: 0, samples: &short };
    assert!(candidate_windows(&a, &b).is_empty());
    assert_eq!(candidate_windows(&a, &a).len(), 61);
}

#[test]
fn alignment_beyond_a_second_is_inconclusive() {
    assert!(alignment_conclusive(0));
    assert!(alignment_conclusive(1_000));
    assert!(!alignment_conclusive(1_001));
}

fn chunk(seq: u32, start: u64) -> ChunkRecord {
    ChunkRecord { seq, file: format!("{seq:06}.wav"), start_sample: start, len_samples: 10 }
}

#[test]
fn chunks_are_read_in_sequence_order() {
    let chunks = vec![chunk(3, 20), chunk(1, 0), chunk(2, 10), chunk(1, 0)];
    assert_eq!(chunk_read_order(&chunks), vec![1, 3, 2, 0]);
    assert!(chunk_read_order(&[].to_vec()).is_empty());
}
