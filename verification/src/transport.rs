//! What a transport reports, how a connection closes on each report, and one direction of the
//! in-memory duplex, whose bounded window makes a stalled reader visible to the writer exactly as
//! a wedged pipe client would be.

use crate::dispatch::CloseReason;
use vstd::prelude::*;

verus! {

/// Frames a peer may leave unread before sending would block.
pub const DEFAULT_WINDOW: usize = 16;

/// Why a transport could not send or receive.
#[derive(Debug, Clone, Copy, PartialEq, Eq, Structural)]
pub enum TransportError {
    Closed,
    /// The peer is not reading; nothing was sent.
    WouldBlock,
    /// Only the byte count is ever recorded.
    Malformed { bytes: usize },
}

/// The reason a connection closes when receiving fails: a malformed frame by its size alone,
/// anything else as the peer having closed.
pub fn close_reason_for(error: TransportError) -> (r: CloseReason)
    ensures
        r == (match error {
            TransportError::Malformed { bytes } => CloseReason::MalformedFrame { bytes },
            _ => CloseReason::PeerClosed,
        }),
{
    match error {
        TransportError::Malformed { bytes } => CloseReason::MalformedFrame { bytes },
        _ => CloseReason::PeerClosed,
    }
}

/// One direction of an in-memory duplex: the frames in flight, oldest first, and whether either
/// end has closed it.
#[derive(Debug, Clone, PartialEq, Eq)]
pub struct Lane {
    pub frames: Vec<Vec<u8>>,
    pub closed: bool,
}

impl Lane {
    pub fn new() -> (l: Lane)
        ensures
            l.frames@.len() == 0,
            !l.closed,
    {
        Lane { frames: Vec::new(), closed: false }
    }

    /// Put a frame in flight unless this lane or the one coming back is closed, or `window`
    /// frames are already unread; a refused frame leaves the lane as it was.
    pub fn offer(&mut self, back_closed: bool, window: usize, bytes: Vec<u8>) -> (r: Result<
        (),
        TransportError,
    >)
        ensures
            old(self).closed || back_closed ==> r == Err::<(), TransportError>(
                TransportError::Closed,
            ) && *final(self) == *old(self),
            !old(self).closed && !back_closed && old(self).frames@.len() >= window ==> r == Err::<
                (),
                TransportError,
            >(TransportError::WouldBlock) && *final(self) == *old(self),
            !old(self).closed && !back_closed && old(self).frames@.len() < window ==> r is Ok
                && final(self).frames@ == old(self).frames@.push(bytes) && !final(self).closed,
    {
        if self.closed || back_closed {
            return Err(TransportError::Closed);
        }
        if self.frames.len() >= window {
            return Err(TransportError::WouldBlock);
        }
        self.frames.push(bytes);
        Ok(())
    }

    /// Put bytes in flight as a peer would, with no window and no check.
    pub fn inject(&mut self, bytes: Vec<u8>)
        ensures
            final(self).frames@ == old(self).frames@.push(bytes),
            final(self).closed == old(self).closed,
    {
        self.frames.push(bytes);
    }

    /// The oldest frame in flight; with none, the lane's end if it is closed, else nothing yet.
    pub fn receive(&mut self) -> (r: Result<Option<Vec<u8>>, TransportError>)
        ensures
            old(self).frames@.len() == 0 ==> *final(self) == *old(self) && r == (if old(
                self,
            ).closed {
                Err::<Option<Vec<u8>>, TransportError>(TransportError::Closed)
            } else {
                Ok(None)
            }),
            old(self).frames@.len() > 0 ==> r == Ok::<Option<Vec<u8>>, TransportError>(
                Some(old(self).frames@[0]),
            ) && final(self).frames@ == old(self).frames@.drop_first() && final(self).closed
                == old(self).closed,
    {
        if self.frames.len() == 0 {
            if self.closed {
                return Err(TransportError::Closed);
            }
            return Ok(None);
        }
        let bytes = self.frames.remove(0);
        Ok(Some(bytes))
    }

    pub fn close(&mut self)
        ensures
            final(self).closed,
            final(self).frames == old(self).frames,
    {
        self.closed = true;
    }

    /// Frames in flight.
    pub fn pending(&self) -> (n: usize)
        ensures
            n == self.frames@.len(),
    {
        self.frames.len()
    }
}

} // verus!
