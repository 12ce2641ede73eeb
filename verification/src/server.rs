//! The rules of the listener and of its workers that need no socket: how
//! long to wait after an accept that failed, when a worker stops, and what a
//! client is told of a command that could not be read.

use crate::frame::{Frame, FrameView};
use crate::parse::ParseError;
use vstd::prelude::*;

verus! {

/// The port that a server listens on where none is given.
pub const DEFAULT_PORT: u16 = 6379;

/// The number of connections that a server serves at a time where none is
/// given.
pub const MAX_CONNECTIONS: usize = 250;

/// The longest wait, in seconds, after an accept that failed.
pub const MAX_BACKOFF: u64 = 64;

/// The wait before the next try of an accept that keeps failing.
pub struct Backoff {
    /// The seconds to wait after the next failure.
    pub secs: u64,
}

impl Backoff {
    /// The wait of a listener whose accept has not failed: one second.
    pub fn new() -> (r: Backoff)
        ensures
            r.secs == 1,
    {
        Backoff { secs: 1 }
    }

    /// What to do after an accept that failed: wait the given number of
    /// seconds and try again, or give up. The waits double from one second to
    /// `MAX_BACKOFF`; the failure after that wait is final.
    pub fn on_failure(&mut self) -> (r: Option<u64>)
        ensures
            old(self).secs <= MAX_BACKOFF ==> r == Some(old(self).secs) && final(self).secs == 2
                * old(self).secs,
            old(self).secs > MAX_BACKOFF ==> r is None && final(self).secs == old(self).secs,
    {
        if self.secs > MAX_BACKOFF {
            None
        } else {
            let wait = self.secs;
            self.secs = wait * 2;
            Some(wait)
        }
    }
}

/// What a worker knows of the signal to shut down.
pub struct Shutdown {
    /// Whether the signal was seen.
    pub is_shutdown: bool,
}

impl Shutdown {
    /// The state of a worker that has not seen the signal.
    pub fn new() -> (r: Shutdown)
        ensures
            !r.is_shutdown,
    {
        Shutdown { is_shutdown: false }
    }

    /// Whether the signal was seen.
    pub fn is_shutdown(&self) -> (r: bool)
        ensures
            r == self.is_shutdown,
    {
        self.is_shutdown
    }

    /// Takes note that the signal was seen. To see it twice is to see it once.
    pub fn received(&mut self)
        ensures
            final(self).is_shutdown,
    {
        self.is_shutdown = true;
    }
}

/// The frame that tells a client, as well as may be, that its command could
/// not be read: an error with what `error` says.
pub fn error_reply(error: &ParseError) -> (r: Frame)
    ensures
        r@ == FrameView::Error(error.spec_message()),
{
    Frame::Error(error.to_string())
}

} // verus!
