//! The errors of the cryptographic core and the exit codes they become.

use vstd::prelude::*;

verus! {

/// What can go wrong in the core. No variant carries key material.
#[derive(Clone, Copy, Debug, PartialEq, Eq, Structural)]
pub enum CryptoError {
    /// Wrong passphrase, or a key file that was tampered with.
    BadPassphrase,
    /// The key file is structurally unusable.
    BadKeyFile,
    /// The container is damaged, truncated or was tampered with.
    BadContainer,
    /// Reading or writing failed.
    Io,
    /// A newly chosen passphrase is too weak.
    WeakPassphrase,
    /// Anything else.
    Internal,
}

impl CryptoError {
    /// The exit code of a process that ends with this error.
    pub open spec fn spec_exit_code(self) -> i32 {
        match self {
            CryptoError::Internal => 1,
            CryptoError::BadPassphrase => 2,
            CryptoError::BadKeyFile => 3,
            CryptoError::BadContainer => 4,
            CryptoError::Io => 5,
            CryptoError::WeakPassphrase => 6,
        }
    }

    /// The exit code with which the worker process reports this error.
    pub fn exit_code(&self) -> (code: i32)
        ensures
            code == self.spec_exit_code(),
    {
        match self {
            CryptoError::BadPassphrase => 2,
            CryptoError::BadKeyFile => 3,
            CryptoError::BadContainer => 4,
            CryptoError::Io => 5,
            CryptoError::WeakPassphrase => 6,
            CryptoError::Internal => 1,
        }
    }
}

/// The exit codes of the errors.
pub proof fn law_exit_codes()
    ensures
        CryptoError::Internal.spec_exit_code() == 1,
        CryptoError::BadPassphrase.spec_exit_code() == 2,
        CryptoError::BadKeyFile.spec_exit_code() == 3,
        CryptoError::BadContainer.spec_exit_code() == 4,
        CryptoError::Io.spec_exit_code() == 5,
        CryptoError::WeakPassphrase.spec_exit_code() == 6,
{
}

/// Two errors with the same exit code are the same error.
pub proof fn law_exit_codes_are_distinct(a: CryptoError, b: CryptoError)
    requires
        a.spec_exit_code() == b.spec_exit_code(),
    ensures
        a == b,
{
}

/// No error is reported with the code of success.
pub proof fn law_no_error_exits_with_zero(e: CryptoError)
    ensures
        e.spec_exit_code() != 0,
{
}

} // verus!
