//! Credential checks and registration decisions.
//!
//! Password hashing and verification are done by the bcrypt crate; the
//! decisions around them — which logins are accepted, which registrations
//! are rejected and why — are verified here.

use vstd::prelude::*;
use crate::models::User;

verus! {

/// Why a login or registration was rejected.
#[derive(Debug, Clone, Copy, PartialEq, Eq, Structural)]
pub enum AuthError {
    /// No user is registered under the given name.
    UnknownUsername,
    /// The password does not match the stored credential hash.
    WrongPassword,
    /// The requested name is already registered.
    UsernameTaken,
    /// The password and its confirmation differ.
    PasswordMismatch,
    /// The password could not be hashed.
    HashingFailed,
}

/// The default quota, in seconds, granted to a new user: ten hours.
pub const DEFAULT_USER_QUOTA: u64 = 36000;

/// Whether bcrypt accepts the password against the hash; a function of the
/// two strings alone.
pub uninterp spec fn bcrypt_accepts(password: Seq<char>, hash: Seq<char>) -> bool;

/// Relies on bcrypt::verify: it parses cost and salt out of the hash
/// string, recomputes the hash of the password, and compares — a function
/// of the two strings alone. A hash string that does not parse matches
/// nothing.
#[verifier::external_body]
fn bcrypt_verify(password: &str, hash: &str) -> (r: bool)
    ensures
        r == bcrypt_accepts(password@, hash@),
{
    bcrypt::verify(password, hash).unwrap_or(false)
}

/// Relies on bcrypt::hash: the salt is drawn from the operating system's
/// randomness, so nothing is promised of the returned string itself; but
/// bcrypt::verify recomputes from the cost and salt stored in it, so a
/// returned hash accepts the password it was made from.
#[verifier::external_body]
fn bcrypt_hash(password: &str) -> (r: Option<String>)
    ensures
        match r {
            Some(h) => bcrypt_accepts(password@, h@),
            None => true,
        },
{
    bcrypt::hash(password, bcrypt::DEFAULT_COST).ok()
}

/// Checks a login against the stored user record, if any.
///
/// Succeeds exactly when a user is registered under the name and bcrypt
/// accepts the password against the stored credential hash.
pub fn check_login(user: Option<&User>, password: &String) -> (r: Result<(), AuthError>)
    ensures
        match r {
            Ok(()) => user is Some && bcrypt_accepts(password@, user.unwrap().password_hash@),
            Err(e) => match e {
                AuthError::UnknownUsername => user is None,
                AuthError::WrongPassword => user is Some && !bcrypt_accepts(
                    password@,
                    user.unwrap().password_hash@,
                ),
                _ => false,
            },
        },
{
    let user = match user {
        None => {
            return Err(AuthError::UnknownUsername);
        },
        Some(u) => u,
    };
    if bcrypt_verify(password.as_str(), user.password_hash.as_str()) {
        Ok(())
    } else {
        Err(AuthError::WrongPassword)
    }
}

/// Decides a registration.
///
/// The name must be free and the two passwords must agree; the new user
/// then starts with the default quota, nothing used, and a credential hash
/// that accepts the password. `HashingFailed` comes only when bcrypt
/// declines to hash.
pub fn register_user(
    existing: Option<&User>,
    username: &String,
    password: &String,
    confirm_password: &String,
) -> (r: Result<User, AuthError>)
    ensures
        match r {
            Ok(u) => {
                &&& existing is None
                &&& password@ == confirm_password@
                &&& u.username@ == username@
                &&& u.tasks@.len() == 0
                &&& u.quota == DEFAULT_USER_QUOTA
                &&& u.used_quota == 0
                &&& bcrypt_accepts(password@, u.password_hash@)
            },
            Err(e) => match e {
                AuthError::UsernameTaken => existing is Some,
                AuthError::PasswordMismatch => existing is None && password@ != confirm_password@,
                AuthError::HashingFailed => existing is None && password@ == confirm_password@,
                _ => false,
            },
        },
{
    if existing.is_some() {
        return Err(AuthError::UsernameTaken);
    }
    if !crate::models::strings_equal(password, confirm_password) {
        return Err(AuthError::PasswordMismatch);
    }
    let hash = match bcrypt_hash(password.as_str()) {
        None => {
            return Err(AuthError::HashingFailed);
        },
        Some(h) => h,
    };
    let name = crate::models::clone_string(username);
    Ok(User::new(name, hash, DEFAULT_USER_QUOTA))
}

} // verus!
