use vstd::prelude::*;

verus! {

/// Errors surfaced by the streaming encryption layer.
///
/// No retries and no silent recovery are attempted: every error surfaces to
/// the caller immediately, and ciphertext already flushed to a sink is not
/// rolled back.
#[derive(Clone, Copy, Debug, PartialEq, Eq, Structural)]
pub enum CryptoError {
    /// The cipher engine rejected its input; the stream is unusable.
    CipherFailure,
    /// Decryption finalization found malformed padding. This signals either a
    /// wrong key or a corrupted ciphertext; the two are indistinguishable here.
    InvalidPadding,
    /// The ciphertext source ended before a full final block was available.
    TruncatedStream,
    /// The underlying sink or source failed.
    IOError,
}

} // verus!
