use vstd::prelude::*;

verus! {

/// The failures that the profile store reports to its caller.
#[derive(Debug, Clone, PartialEq, Eq)]
pub enum StoreError {
    /// A named profile or variable does not exist.
    Missing,
    /// A profile or variable of that name already exists.
    Duplicate,
    /// The profiles directory does not exist.
    NoDirectory,
    /// The magic is wrong or the frame is truncated.
    BadEnvelope,
    /// The magic is right but the scheme tag is unknown.
    UnsupportedScheme,
    /// The passphrase or the key agent rejected the ciphertext.
    BadKey,
    /// Authentication failed, or the payload did not parse after decryption.
    Corrupt,
    /// The key agent of the recipient scheme cannot be reached.
    AgentUnavailable,
    /// A name, value or comment breaks the payload's serialization rules.
    InvalidValue,
    /// A storage failure, with the detail that the platform gave.
    Io(String),
}

} // verus!
