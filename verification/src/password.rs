//! Password hashing and checking with bcrypt.
use vstd::prelude::*;

verus! {

/// Names the answer of `bcrypt::verify` for a password and a stored hash:
/// `Some(b)` when the hash could be read (`b` tells whether the password
/// matches it), `None` when `bcrypt::verify` returned an error.
pub uninterp spec fn bcrypt_verify_result(password: Seq<char>, hash: Seq<char>) -> Option<bool>;

/// Calls `bcrypt::verify` on the UTF-8 bytes of `password` and the stored
/// `hash`; the answer (its error turned into `None`) is named
/// `bcrypt_verify_result` of the two texts.  The function is deterministic:
/// it re-derives the hash with the salt and cost read from `hash`.
#[verifier::external_body]
pub(crate) fn bcrypt_verify(password: &str, hash: &str) -> (r: Option<bool>)
    ensures
        r == bcrypt_verify_result(password@, hash@),
{
    bcrypt::verify(password.as_bytes(), hash).ok()
}

/// Calls `bcrypt::hash` with `bcrypt::DEFAULT_COST` on the UTF-8 bytes of
/// `password`.  The salt is random, so the hash itself is left unsaid; what
/// holds of every hash it returns is that `bcrypt::verify` accepts the same
/// password for it (both derive the hash from the same password bytes,
/// salt and cost).  `None` stands for its error, which comes only when the
/// operating system gives no randomness.
#[verifier::external_body]
pub(crate) fn bcrypt_hash(password: &str) -> (r: Option<String>)
    ensures
        r matches Some(h) ==> bcrypt_verify_result(password@, h@) == Some(true),
{
    bcrypt::hash(password.as_bytes(), bcrypt::DEFAULT_COST).ok()
}

} // verus!
