use vstd::prelude::*;

verus! {

/// The classified failures of this crate.
///
/// Decode failures name the boundary that rejected the input, crypto
/// failures keep "bad input shape" (key or nonce length) apart from
/// "failed to authenticate", and the plaintext size ceiling has a kind
/// of its own, so callers can react to each differently.
#[derive(Clone, Debug, PartialEq, Eq)]
pub enum Error {
    /// Endpoint bytes that cannot be read as an address.
    InvalidEndpoint,
    /// A message tag that is not recognized, or a payload whose shape
    /// does not match its tag.
    MalformedMessage,
    /// An envelope whose (nonce, ciphertext) framing cannot be read.
    MalformedEnvelope,
    /// A preshared key of the wrong length.
    InvalidPresharedKey,
    /// A nonce of the wrong length.
    InvalidNonce,
    /// A ciphertext that failed integrity verification: tampered data,
    /// a wrong key, or a wrong nonce.
    FailedToDecrypt,
    /// A plaintext longer than the fixed encryption ceiling.
    MessageTooLarge,
    /// The crypto backend could not be initialized.
    CryptoInitFailed,
    /// A failure reported by a transport implementation, with its text.
    Other(String),
}

impl Error {
    /// A short stable name for the error kind, for logs and drivers.
    pub fn describe(&self) -> (r: &'static str) {
        match self {
            Error::InvalidEndpoint => "invalid endpoint",
            Error::MalformedMessage => "malformed message",
            Error::MalformedEnvelope => "malformed envelope",
            Error::InvalidPresharedKey => "invalid preshared key",
            Error::InvalidNonce => "invalid nonce",
            Error::FailedToDecrypt => "failed to decrypt",
            Error::MessageTooLarge => "message too large",
            Error::CryptoInitFailed => "crypto init failed",
            Error::Other(_) => "transport error",
        }
    }
}

} // verus!
