use vstd::prelude::*;

verus! {

/// What went wrong, by kind.
#[derive(PartialEq, Eq, Debug)]
pub enum Error {
    /// Bytes that do not follow the bencode grammar, or a value of the wrong shape.
    Malformed,
    /// A multi-file torrent, which the downloader does not handle.
    Unsupported,
    /// A peer broke the wire protocol.
    ProtocolViolation,
    /// Downloaded data whose SHA-1 differs from the expected one.
    IntegrityFailure,
    /// The tracker answered with a failure reason.
    TrackerRejected(Vec<u8>),
    /// A piece index past the last piece.
    OutOfRange,
}

} // verus!
