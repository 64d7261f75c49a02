//! The top-level error taxonomy shared by the whole library. Internal contract violations fail
//! fast; only externally caused failures are retryable.

use vstd::prelude::*;

verus! {

/// Whether a failure may be retried, and after how long.
#[derive(Debug, Clone, Copy, PartialEq, Eq, Structural)]
pub enum Retryability {
    /// The cause is external and transient; retry after the given delay.
    Retryable { after_ms: u64 },
    /// The cause is external and will not change on retry.
    Permanent,
    /// The cause is an internal contract violation; a retry would hide a bug.
    Programming,
}

/// Errors raised by the core vocabulary itself.
#[derive(Debug, Clone, PartialEq, Eq)]
pub enum CoreError {
    /// The text is not a UUID.
    InvalidId(String),
    /// A chunk would start before the end of the covered range.
    ChunkOverlap { start_sample: u64, previous_end: u64 },
    /// A gap would be empty or would start before the covered range ends.
    InvalidGap { from_sample: u64, to_sample: u64 },
    /// Chunks and gaps leave a hole or overlap.
    TilingBroken { at_sample: u64 },
    /// A track origin with a sample rate of zero.
    ZeroSampleRate,
    /// A path segment that is not a generated identifier or typed name.
    InvalidPathSegment(String),
    /// A sample beyond the covered range of the track.
    SampleOutOfRange { sample: u64 },
}

impl CoreError {
    /// Every core error is a programming error: the vocabulary has no external cause.
    pub fn retryability(&self) -> (r: Retryability)
        ensures
            r == Retryability::Programming,
    {
        Retryability::Programming
    }

}

} // verus!
