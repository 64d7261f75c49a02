//! The capture source seam. A device source sits behind the trait; `SyntheticSource` is
//! deterministic so chunk boundaries, gaps, recovery and consolidation are testable anywhere.

use crate::timeline::{CaptureMode, ContaminationRisk, TrackOrigin};
use vstd::prelude::*;

verus! {

/// What a capture source yields next.
#[derive(Debug, PartialEq, Eq)]
pub enum SourceEvent {
    /// Interleaved s16le samples in the current origin's format.
    Samples(Vec<i16>),
    /// The device changed format or endpoint: a new track segment with this origin follows.
    FormatChanged(TrackOrigin),
    Ended,
}

/// A source of captured audio, read one event at a time.
pub trait CaptureSource {
    fn origin(&self) -> TrackOrigin;

    fn next(&mut self) -> SourceEvent;

    /// Device-reported discontinuities since the previous call. Sources that cannot observe
    /// discontinuities keep the default zero count.
    fn take_discontinuities(&mut self) -> u32 {
        0
    }
}

/// Sample `i` of the synthetic ramp: `((i * 37) mod 65536) - 32768` (the product taken
/// modulo 2^64, which 65536 divides).
pub open spec fn ramp_sample(i: u64) -> i16 {
    (((i * 37) % 65536) - 32768) as i16
}

/// The state of a synthetic source.
pub struct SyntheticState {
    pub origin: TrackOrigin,
    pub total_samples: u64,
    pub block: usize,
    pub produced: u64,
    pub format_change_at: Option<(u64, TrackOrigin)>,
    pub changed: bool,
}

/// The origin a pending format change switches to.
pub open spec fn new_origin(s: SyntheticState) -> TrackOrigin {
    match s.format_change_at {
        Some((_, o)) => o,
        None => s.origin,
    }
}

/// Whether the pending format change is due now.
pub open spec fn format_change_due(s: SyntheticState) -> bool {
    match s.format_change_at {
        Some((at, _)) => !s.changed && s.produced >= at,
        None => false,
    }
}

/// How many samples the next block holds: at most `block`, never past the end, and never past
/// a pending format change.
pub open spec fn next_block_len(s: SyntheticState) -> nat {
    let rest = (s.total_samples - s.produced) as nat;
    let n = if s.block < rest {
        s.block as nat
    } else {
        rest
    };
    match s.format_change_at {
        Some((at, _)) => if !s.changed && s.produced < at && ((at - s.produced) as nat) < n {
            (at - s.produced) as nat
        } else {
            n
        },
        None => n,
    }
}

/// The samples of the ramp from `start`, `n` of them.
pub open spec fn ramp(start: u64, n: nat) -> Seq<i16> {
    Seq::new(n, |k: int| ramp_sample((start + k) as u64))
}

/// A deterministic PCM ramp: sample `i` is `((i * 37) mod 65536) - 32768`.
pub struct SyntheticSource {
    origin: TrackOrigin,
    total_samples: u64,
    block: usize,
    produced: u64,
    format_change_at: Option<(u64, TrackOrigin)>,
    changed: bool,
}

impl View for SyntheticSource {
    type V = SyntheticState;

    closed spec fn view(&self) -> SyntheticState {
        SyntheticState {
            origin: self.origin,
            total_samples: self.total_samples,
            block: self.block,
            produced: self.produced,
            format_change_at: self.format_change_at,
            changed: self.changed,
        }
    }
}

/// The origin a synthetic source starts with.
pub open spec fn synthetic_origin(sample_rate: u32) -> TrackOrigin {
    TrackOrigin {
        start_wall_utc_ms: 1_756_857_600_000,
        start_monotonic_ns: 1_000_000_000,
        sample_rate,
        channels: 1,
        capture_mode: CaptureMode::Device,
        contamination_risk: ContaminationRisk::NoOtherApps,
    }
}

impl SyntheticSource {
    pub fn new(sample_rate: u32, total_samples: u64, block: usize) -> (s: SyntheticSource)
        ensures
            s@ == (SyntheticState {
                origin: synthetic_origin(sample_rate),
                total_samples,
                block,
                produced: 0,
                format_change_at: None,
                changed: false,
            }),
    {
        SyntheticSource {
            origin: TrackOrigin {
                start_wall_utc_ms: 1_756_857_600_000,
                start_monotonic_ns: 1_000_000_000,
                sample_rate,
                channels: 1,
                capture_mode: CaptureMode::Device,
                contamination_risk: ContaminationRisk::NoOtherApps,
            },
            total_samples,
            block,
            produced: 0,
            format_change_at: None,
            changed: false,
        }
    }

    /// Switch to `origin` once `at_sample` samples have been produced (a Bluetooth reconnect).
    pub fn with_format_change(self, at_sample: u64, origin: TrackOrigin) -> (s: SyntheticSource)
        ensures
            s@ == (SyntheticState { format_change_at: Some((at_sample, origin)), ..self@ }),
    {
        let mut s = self;
        s.format_change_at = Some((at_sample, origin));
        s
    }

    /// Sample `i` of the ramp.
    pub fn sample(i: u64) -> (v: i16)
        ensures
            v == ramp_sample(i),
    {
        let m: u64 = i.wrapping_mul(37) % 65_536;
        proof {
            assert(i.wrapping_mul(37) == (i * 37) % 0x1_0000_0000_0000_0000);
            assert(((i * 37) % 0x1_0000_0000_0000_0000) % 65536 == (i * 37) % 65536) by (nonlinear_arith);
        }
        (m as i64 - 32_768) as i16
    }

    /// How many samples were produced so far.
    pub fn produced(&self) -> (n: u64)
        ensures
            n == self@.produced,
    {
        self.produced
    }
}

impl CaptureSource for SyntheticSource {
    fn origin(&self) -> (o: TrackOrigin)
        ensures
            o == self@.origin,
    {
        self.origin
    }

    /// A due format change first; then the end once every sample was produced; otherwise the
    /// next block of the ramp.
    fn next(&mut self) -> (e: SourceEvent)
        ensures
            format_change_due(old(self)@) ==> e == SourceEvent::FormatChanged(
                new_origin(old(self)@),
            ) && final(self)@ == (SyntheticState {
                changed: true,
                origin: new_origin(old(self)@),
                ..old(self)@
            }),
            !format_change_due(old(self)@) && old(self)@.produced >= old(self)@.total_samples ==> e
                == SourceEvent::Ended && final(self)@ == old(self)@,
            !format_change_due(old(self)@) && old(self)@.produced < old(self)@.total_samples ==> (
            e matches SourceEvent::Samples(v) && v@ == ramp(
                old(self)@.produced,
                next_block_len(old(self)@),
            )) && final(self)@ == (SyntheticState {
                produced: (old(self)@.produced + next_block_len(old(self)@)) as u64,
                ..old(self)@
            }),
    {
        match self.format_change_at {
            Some((at, origin)) => {
                if !self.changed && self.produced >= at {
                    self.changed = true;
                    self.origin = origin;
                    return SourceEvent::FormatChanged(origin);
                }
            },
            None => {},
        }
        if self.produced >= self.total_samples {
            return SourceEvent::Ended;
        }
        let rest: u64 = self.total_samples - self.produced;
        let mut n: u64 = if (self.block as u64) < rest {
            self.block as u64
        } else {
            rest
        };
        match self.format_change_at {
            Some((at, _)) => {
                if !self.changed && self.produced < at && at - self.produced < n {
                    n = at - self.produced;
                }
            },
            None => {},
        }
        let mut samples: Vec<i16> = Vec::new();
        let mut k: u64 = 0;
        while k < n
            invariant
                k <= n,
                n <= rest,
                rest == self.total_samples - self.produced,
                samples@ == ramp(self.produced, k as nat),
            decreases n - k,
        {
            samples.push(Self::sample(self.produced + k));
            assert(samples@ =~= ramp(self.produced, (k + 1) as nat));
            k += 1;
        }
        self.produced = self.produced + n;
        SourceEvent::Samples(samples)
    }
}

} // verus!
