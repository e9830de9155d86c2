use vstd::prelude::*;

verus! {

/// Every failure the authenticator can report. Validation failures on
/// user-supplied input abort the requested operation without touching the
/// store; structural failures are fatal.
#[derive(Clone, Copy, Debug, PartialEq, Eq, Structural)]
pub enum Error {
    /// The secret is not decodable base32.
    InvalidSecret,
    /// An account with the requested name already exists; nothing is changed.
    DuplicateAccount,
    /// No account with the requested name exists.
    AccountNotFound,
    /// The interactively chosen row is not a number or is out of range.
    InvalidIndex,
    /// The backing file could not be deserialized; recovery is not attempted.
    CorruptStore,
    /// A clipboard copy was requested but the clipboard cannot be used.
    ClipboardUnavailable,
}

impl Error {
    /// The process exit code for this error: a duplicate account is reported
    /// without failing the process, every other error is fatal.
    pub fn exit_code(&self) -> (c: i32)
        ensures
            c == (if self is DuplicateAccount {
                0int
            } else {
                1int
            }),
    {
        match self {
            Error::DuplicateAccount => 0,
            _ => 1,
        }
    }
}

} // verus!
