use vstd::prelude::*;

verus! {

/// Failures that the service reports to its callers.
#[derive(Debug, Clone, Copy, PartialEq, Eq, Structural)]
pub enum ServiceError {
    /// A required credential header is absent.
    MissingCredential,
    /// A credential is present but not accepted.
    InvalidCredential,
    /// A required header or body is absent or empty, or an argument is malformed.
    ValidationError,
    /// A keychain image breaks the binary layout or its header invariant.
    CorruptStore,
    /// The application has never been seen.
    AppNotFound,
    /// The requested ledger or date does not exist.
    RecordNotFound,
    /// The record at this position of a batch has a malformed header line.
    ParseError { index: usize },
    /// The configured retention mode is not implemented.
    NotImplemented,
    /// A filesystem operation failed.
    IoError,
}

} // verus!
