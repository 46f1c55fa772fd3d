//! Error values returned across the crate's public surface.

use vstd::prelude::*;

verus! {

/// Why a request could not be served.
///
/// Infeasibility of an allocation — not enough free matching resources — is
/// *not* an error: it is signaled by an empty, successful result.
#[derive(Debug, PartialEq, Eq)]
pub enum DeviceError {
    /// No device file of the given name exists.
    DeviceNotFound { name: String },
    /// The path does not refer to a well-formed device file.
    InvalidDeviceFile { path: String },
    /// The request text matched neither the named nor the unnamed grammar,
    /// or was not consumed in full.
    ParseError { input: String },
    /// Resolving a `Named` request against a snapshot has no defined policy;
    /// callers receive this error rather than a guessed allocation.
    UnsupportedConfig,
    /// An I/O failure from the device enumeration or status collaborators,
    /// passed through unchanged.
    IoFailure { message: String },
}

} // verus!
