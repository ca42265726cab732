use vstd::prelude::*;

verus! {

/// Why decoding a message or resolving a name failed.
#[derive(Debug, Clone, Copy, PartialEq, Eq, Structural)]
pub enum DnsError {
    /// Truncated buffer, reserved label-length bits, a label that is too
    /// long, or a record whose shape does not match its type.
    FormatError,
    /// A well-formed response from which the resolution cannot progress.
    ProtocolError,
    /// A compression pointer that does not point strictly before the name
    /// that contains it.
    CompressionCycleError,
    /// The transport failed to send or receive.
    NetworkError,
    /// No response arrived in time.
    TimeoutError,
    /// The bound on resolution steps was reached.
    DepthExceededError,
}

} // verus!
