use vstd::prelude::*;

verus! {

/// Everything the store can report to its operator. The filesystem- and
/// ledger-facing variants are raised where the corresponding call fails;
/// the others come from the store's own checks.
#[derive(Clone, Copy, Debug, PartialEq, Eq, Structural)]
pub enum StoreError {
    /// A tunable is outside its supported range, or the secret is empty.
    ConfigurationError,
    /// The service user or group name does not exist on this host.
    IdentityResolutionError,
    /// An ownership or mode change was denied.
    PermissionChangeError,
    /// The filename is empty after trimming, hidden, or holds a forbidden
    /// character.
    InvalidFilename,
    /// The input stream could not be read.
    SourceUnreadable,
    /// No stored file answers to the identifier or name given.
    NotFound,
    /// A name matches several stored files and no index was given.
    AmbiguousSpecifier,
    /// A directory walk, copy or link operation failed.
    FilesystemError,
    /// The row store reported a failure.
    LedgerError,
    /// A freshly drawn identifier collided with a recorded one.
    DuplicateIdentifier,
}

} // verus!
