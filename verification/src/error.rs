use vstd::prelude::*;

verus! {

/// Everything that can go wrong inside the core.
#[derive(Debug, Clone, Copy, PartialEq, Eq, Structural)]
pub enum Error {
    /// The bytes are not one well-formed bencode value.
    MalformedInput,
    /// A byte string that has to be shown as text is not valid UTF-8.
    InvalidUtf8,
    /// A required field of the metadata is missing or has the wrong shape.
    MalformedTorrent,
    /// The compact peer list is not a whole number of six-byte records.
    MalformedPeerList,
    /// The transport failed while connecting, reading or writing.
    ConnectionError,
    /// The peer sent something the protocol does not allow at this point.
    ProtocolViolation,
    /// The assembled piece does not hash to the recorded value.
    VerificationFailure,
    /// The piece index is not below the number of pieces.
    IndexOutOfRange,
}

} // verus!
