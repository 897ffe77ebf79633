//! Failures that packetization reports to its caller.

use vstd::prelude::*;

verus! {

/// Why a frame could not be packetized in full.
#[derive(Clone, Copy, Debug, PartialEq, Eq, Structural)]
pub enum PushError {
    /// The system clock could not be read as a time since the Unix epoch, so
    /// no timestamp could be computed.
    ClockUnavailable,
}

impl PushError {
    /// A line of text for a log or a message to the user.
    pub fn message(&self) -> (text: String)
        ensures
            text@ == "system clock unavailable: no RTP timestamp can be computed"@,
    {
        match self {
            PushError::ClockUnavailable => {
                "system clock unavailable: no RTP timestamp can be computed".to_owned()
            },
        }
    }
}

} // verus!
