//! Error kinds reported by the library. All failures are deterministic and
//! local to the call; none is retried.

use vstd::prelude::*;

verus! {

/// Everything that can go wrong while framing, embedding or extracting a
/// payload. `MessageTooLarge` carries the numbers a caller needs to
/// diagnose a capacity problem.
#[derive(Clone, Copy, Debug, PartialEq, Eq, Structural)]
pub enum StegoError {
    /// The header's version byte is not the supported protocol version.
    UnsupportedVersion { version: u8 },
    /// The encrypted body is shorter than a nonce plus an authentication tag.
    MalformedBody { length: usize },
    /// AEAD verification failed: wrong key or tampered ciphertext.
    InvalidCiphertext,
    /// The underlying cipher refused to encrypt.
    EncryptionFailed,
    /// The framed payload needs more bits than the carriers hold.
    MessageTooLarge { capacity_bits: usize, required_bits: usize },
    /// Fewer embedded channels are available than the declared payload needs.
    InsufficientData,
    /// The requested output path would use a lossy format.
    UnsupportedOutputFormat,
    /// The bytes handed over are not a well-formed PNG chunk stream.
    TruncatedInput,
    /// The PNG encoder refused the pixel buffer.
    PngEncodingFailed,
}

} // verus!
