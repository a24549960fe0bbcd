use vstd::prelude::*;

verus! {

/// Why an operation refused to change the store. A refused operation leaves the store
/// exactly as it found it.
#[derive(Clone, Copy, Debug, PartialEq, Eq, Structural)]
pub enum Abort {
    /// A referenced entity, membership or participation is absent.
    NotFound,
    /// The caller lacks the right to act, or a business rule forbids the change.
    NotAllowed,
    /// The change would break a uniqueness rule (a taken username, an overlapping block).
    Conflict,
    /// An argument fails validation (an empty interval, a short password).
    Malformed,
}

/// bcrypt's error type, carried to the caller unopened.
#[verifier::external_type_specification]
#[verifier::external_body]
pub struct ExBcryptError(bcrypt::BcryptError);

/// Every failure an operation of the library can report.
#[derive(Debug)]
pub enum Error {
    /// A business rule refused the operation.
    Abort(Abort),
    /// The credentials or the session token are not recognised.
    AuthenticationError,
    /// bcrypt could not hash a password or could not read a stored hash.
    BcryptError(bcrypt::BcryptError),
    /// The system's random generator failed.
    RandError,
}

} // verus!
