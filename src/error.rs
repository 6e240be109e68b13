use vstd::prelude::*;
use crate::duration::DurationError;

verus! {

/// Every way an operation of the client or of the session can fail.
#[derive(Debug, Clone, Copy, PartialEq, Eq, Structural)]
pub enum JiraError {
    /// The duration string was refused.
    Duration(DurationError),
    /// Network, DNS or TLS failure below HTTP, or the transport could not be set up.
    Transport,
    /// The server answered with a status outside 200..=299.
    Remote { status: u16 },
    /// The response body could not be decoded.
    Decode,
    /// No session is active.
    NotConnected,
    /// The session cell could not be accessed.
    Lock,
    /// The connectivity probe was answered, but not with success.
    ConnectionFailed,
}

} // verus!
