//! Where the echo-leak measurement looks: each track locates the common window by its own
//! origin, so the measurement never depends on a sample alignment the recording model refuses to
//! promise. The windows are tried one second apart from the later of the two origins, as long as
//! both tracks hold a whole window; judging a window's levels is floating-point work done by the
//! caller.

use crate::chunk_manifest::ChunkRecord;
use crate::chunk_writer::SAMPLE_RATE;
use crate::intervals::{sort_spans, sorted_spans};
use crate::wasapi::TrackSamples;
use vstd::prelude::*;

verus! {

/// The length of the measured window.
pub const WINDOW_SECONDS: u64 = 60;

/// The microphone frame judged for local speech.
pub const FRAME_MS: u64 = 20;

/// Beyond this alignment uncertainty the session is inconclusive for a windowed comparison.
pub const MAX_ALIGNMENT_UNCERTAINTY_MS: u32 = 1_000;

/// Window admission is retried at this step along the common time span.
pub const SEARCH_STEP_SECONDS: u64 = 1;

/// The version of the per-application record.
pub const RECORD_SCHEMA_VERSION: u32 = 1;

/// Samples in one window.
pub const WINDOW_SAMPLES: u64 = 960_000;

/// Samples in one microphone frame.
pub const FRAME_SAMPLES: u64 = 320;

/// Samples in one search step.
pub const STEP_SAMPLES: u64 = 16_000;

/// The sample of a track at monotonic time `t_ns`, by the track's own origin: whole seconds
/// times the rate, plus the rest scaled down, which is the elapsed time times the rate rounded
/// down; nothing before the origin.
pub open spec fn sample_at_spec(start_ns: u64, t_ns: u64) -> Option<u64> {
    if t_ns < start_ns {
        None
    } else {
        Some(((t_ns - start_ns) * (SAMPLE_RATE as int) / 1_000_000_000) as u64)
    }
}

pub fn sample_at(track: &TrackSamples, t_ns: u64) -> (r: Option<u64>)
    ensures
        r == sample_at_spec(track.start_monotonic_ns, t_ns),
{
    if t_ns < track.start_monotonic_ns {
        return None;
    }
    let offset_ns = t_ns - track.start_monotonic_ns;
    let secs = offset_ns / 1_000_000_000;
    let rest = offset_ns % 1_000_000_000;
    proof {
        assert(secs * 16_000 <= 18_446_744_073_709_552 * 16_000) by (nonlinear_arith)
            requires secs == offset_ns / 1_000_000_000, offset_ns <= u64::MAX;
        assert(rest * 16_000 < 1_000_000_000 * 16_000) by (nonlinear_arith)
            requires rest < 1_000_000_000;
        assert(offset_ns * 16_000int / 1_000_000_000 == secs * 16_000 + rest * 16_000 / 1_000_000_000)
            by (nonlinear_arith)
            requires
                secs == offset_ns / 1_000_000_000,
                rest == offset_ns % 1_000_000_000,
        {
            assert(offset_ns == secs * 1_000_000_000 + rest);
            assert(offset_ns * 16_000int == (secs * 16_000) * 1_000_000_000 + rest * 16_000);
        }
    }
    Some(secs * (SAMPLE_RATE as u64) + rest * (SAMPLE_RATE as u64) / 1_000_000_000)
}

/// The `len` samples of a track from `start_sample`, when the track holds them all.
pub fn window<'a>(track: &TrackSamples<'a>, start_sample: u64, len: u64) -> (r: Option<&'a [i16]>)
    ensures
        start_sample + len <= track.samples@.len() ==> (r matches Some(w) && w@
            == track.samples@.subrange(start_sample as int, start_sample + len)),
        start_sample + len > track.samples@.len() ==> r is None,
{
    let n = track.samples.len();
    if start_sample > n as u64 || len > n as u64 - start_sample {
        return None;
    }
    let start = start_sample as usize;
    let end = start + len as usize;
    Some(vstd::slice::slice_subrange(track.samples, start, end))
}

/// How many windows fit on a track whose first candidate starts at `first`: one per step while
/// a whole window remains.
pub open spec fn windows_on(first: int, len: int) -> int {
    if first + WINDOW_SAMPLES <= len {
        (len - WINDOW_SAMPLES - first) / (STEP_SAMPLES as int) + 1
    } else {
        0
    }
}

/// The candidate windows of two tracks: starting at the later origin, one second apart, each as
/// the pair of its first samples on the loopback and the microphone track.
pub open spec fn candidates_spec(l0: int, llen: int, m0: int, mlen: int) -> Seq<(u64, u64)> {
    let count = if windows_on(l0, llen) <= windows_on(m0, mlen) {
        windows_on(l0, llen)
    } else {
        windows_on(m0, mlen)
    };
    Seq::new(
        count as nat,
        |k: int| ((l0 + k * STEP_SAMPLES) as u64, (m0 + k * STEP_SAMPLES) as u64),
    )
}

/// The later of the two origins, where the search starts.
pub open spec fn search_start(loopback: TrackSamples, microphone: TrackSamples) -> u64 {
    if loopback.start_monotonic_ns >= microphone.start_monotonic_ns {
        loopback.start_monotonic_ns
    } else {
        microphone.start_monotonic_ns
    }
}

proof fn lemma_windows_on(first: int, len: int, k: int)
    requires
        0 <= first,
        0 <= k,
    ensures
        k < windows_on(first, len) <==> first + k * STEP_SAMPLES + WINDOW_SAMPLES <= len,
{
    if first + WINDOW_SAMPLES <= len {
        let q = (len - WINDOW_SAMPLES - first) / (STEP_SAMPLES as int);
        assert(k <= q <==> k * 16_000 <= len - WINDOW_SAMPLES - first) by (nonlinear_arith)
            requires
                q == (len - WINDOW_SAMPLES - first) / 16_000int,
                len - WINDOW_SAMPLES - first >= 0,
                k >= 0,
        {
            if k <= q {
                assert(k * 16_000 <= q * 16_000);
            } else {
                assert(k * 16_000 >= (q + 1) * 16_000);
            }
        }
    } else {
        assert(k * 16_000int >= 0) by (nonlinear_arith)
            requires k >= 0;
    }
}

/// The windows the measurement tries, in order: from the later origin, one second apart, while
/// both tracks hold a whole window at their own position for that time.
pub fn candidate_windows(loopback: &TrackSamples, microphone: &TrackSamples) -> (r: Vec<(u64, u64)>)
    ensures
        r@ == candidates_spec(
            sample_at_spec(loopback.start_monotonic_ns, search_start(*loopback, *microphone))->0 as int,
            loopback.samples@.len() as int,
            sample_at_spec(microphone.start_monotonic_ns, search_start(*loopback, *microphone))->0 as int,
            microphone.samples@.len() as int,
        ),
{
    let t0 = if loopback.start_monotonic_ns >= microphone.start_monotonic_ns {
        loopback.start_monotonic_ns
    } else {
        microphone.start_monotonic_ns
    };
    let l0 = match sample_at(loopback, t0) {
        Some(s) => s,
        None => 0,
    };
    let m0 = match sample_at(microphone, t0) {
        Some(s) => s,
        None => 0,
    };
    let llen = loopback.samples.len() as u64;
    let mlen = microphone.samples.len() as u64;
    let ghost spec = candidates_spec(l0 as int, llen as int, m0 as int, mlen as int);
    let mut r: Vec<(u64, u64)> = Vec::new();
    let mut l = l0;
    let mut m = m0;
    let ghost mut k: int = 0;
    while l <= llen && WINDOW_SAMPLES <= llen - l && m <= mlen && WINDOW_SAMPLES <= mlen - m
        invariant
            0 <= k,
            l == l0 + k * STEP_SAMPLES,
            m == m0 + k * STEP_SAMPLES,
            llen == loopback.samples@.len(),
            mlen == microphone.samples@.len(),
            llen <= usize::MAX,
            mlen <= usize::MAX,
            spec == candidates_spec(l0 as int, llen as int, m0 as int, mlen as int),
            k <= spec.len(),
            r@ == spec.take(k),
        decreases llen - l,
    {
        proof {
            lemma_windows_on(l0 as int, llen as int, k);
            lemma_windows_on(m0 as int, mlen as int, k);
            assert(k < spec.len());
            assert(spec[k] == (l, m));
            assert(spec.take(k + 1) =~= spec.take(k).push((l, m)));
        }
        r.push((l, m));
        l = l + STEP_SAMPLES;
        m = m + STEP_SAMPLES;
        proof {
            k = k + 1;
        }
    }
    proof {
        lemma_windows_on(l0 as int, llen as int, k);
        lemma_windows_on(m0 as int, mlen as int, k);
        assert(k == spec.len());
        assert(spec.take(k) =~= spec);
    }
    r
}

/// Stepping the search time by one second steps each track's position by one second of samples:
/// the `k`th candidate is where walking the search time one second at a time from the later
/// origin puts each track.
pub proof fn law_candidates_follow_the_clock(start_ns: u64, t0: u64, k: nat)
    requires
        start_ns <= t0,
        t0 + k * 1_000_000_000 <= u64::MAX,
    ensures
        sample_at_spec(start_ns, (t0 + k * 1_000_000_000) as u64)->0 as int == sample_at_spec(
            start_ns,
            t0,
        )->0 as int + k * STEP_SAMPLES,
{
    let off = t0 - start_ns;
    let s0 = off * 16_000int / 1_000_000_000;
    assert((off + k * 1_000_000_000) * 16_000int / 1_000_000_000 == s0 + k * 16_000) by (nonlinear_arith)
        requires
            s0 == off * 16_000int / 1_000_000_000,
            off >= 0,
            k >= 0,
    {
        assert((off + k * 1_000_000_000) * 16_000int == off * 16_000int + (k * 16_000) * 1_000_000_000);
    }
    assert(s0 <= u64::MAX) by (nonlinear_arith)
        requires s0 == off * 16_000int / 1_000_000_000, 0 <= off <= u64::MAX;
    assert(s0 + k * 16_000 <= u64::MAX) by (nonlinear_arith)
        requires
            s0 == off * 16_000int / 1_000_000_000,
            0 <= off,
            off + k * 1_000_000_000 <= u64::MAX,
            k >= 0,
    {
        assert((off + k * 1_000_000_000) * 16_000int / 1_000_000_000 == s0 + k * 16_000);
    }
}

/// Whether the alignment is certain enough for a windowed comparison.
pub fn alignment_conclusive(alignment_uncertainty_ms: u32) -> (r: bool)
    ensures
        r == (alignment_uncertainty_ms <= MAX_ALIGNMENT_UNCERTAINTY_MS),
{
    alignment_uncertainty_ms <= MAX_ALIGNMENT_UNCERTAINTY_MS
}

/// Each chunk keyed by its sequence number, then its place in the manifest.
pub open spec fn seq_keys(chunks: Seq<ChunkRecord>) -> Seq<(u64, u64)> {
    Seq::new(chunks.len(), |i: int| (chunks[i].seq as u64, i as u64))
}

/// The order a track's chunks are read in for the measurement: by sequence number, ties in
/// manifest order. Each entry is an index into `chunks`.
pub fn chunk_read_order(chunks: &Vec<ChunkRecord>) -> (order: Vec<usize>)
    ensures
        order@ == sorted_spans(seq_keys(chunks@)).map_values(|p: (u64, u64)| p.1 as usize),
{
    let mut keys: Vec<(u64, u64)> = Vec::new();
    let mut i: usize = 0;
    while i < chunks.len()
        invariant
            i <= chunks@.len(),
            keys@ == seq_keys(chunks@).take(i as int),
        decreases chunks@.len() - i,
    {
        keys.push((chunks[i].seq as u64, i as u64));
        assert(seq_keys(chunks@).take(i + 1) =~= seq_keys(chunks@).take(i as int).push(
            (chunks@[i as int].seq as u64, i as u64),
        ));
        i += 1;
    }
    assert(seq_keys(chunks@).take(chunks@.len() as int) =~= seq_keys(chunks@));
    let sorted = sort_spans(keys);
    let mut order: Vec<usize> = Vec::new();
    let mut j: usize = 0;
    while j < sorted.len()
        invariant
            j <= sorted@.len(),
            sorted@ == sorted_spans(seq_keys(chunks@)),
            order@ == sorted@.take(j as int).map_values(|p: (u64, u64)| p.1 as usize),
        decreases sorted@.len() - j,
    {
        order.push(sorted[j].1 as usize);
        assert(sorted@.take(j + 1).map_values(|p: (u64, u64)| p.1 as usize) =~= sorted@.take(
            j as int,
        ).map_values(|p: (u64, u64)| p.1 as usize).push(sorted@[j as int].1 as usize));
        j += 1;
    }
    assert(sorted@.take(sorted@.len() as int) =~= sorted@);
    order
}

} // verus!
