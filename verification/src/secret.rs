//! Fingerprints and passwords.
use argon2::{PasswordHasher, PasswordVerifier};
use crate::text;
use sha2::Digest;
use vstd::prelude::*;

verus! {

/// The SHA-256 digest of bytes in lowercase hexadecimal.
pub uninterp spec fn sha256(bytes: Seq<u8>) -> Seq<char>;

/// `sha2::Sha256::digest`, written in lowercase hexadecimal: sixty-four digits that the bytes alone
/// decide.
#[verifier::external_body]
pub(crate) fn sha256_hex(bytes: &[u8]) -> (r: String)
    ensures
        r@ == sha256(bytes@),
        r@.len() == 64,
{
    format!("{:x}", sha2::Sha256::digest(bytes))
}

/// A password hash string accepts a password.
pub uninterp spec fn accepts(hash: Seq<char>, password: Seq<char>) -> bool;

/// `argon2::PasswordHash::new` and `Argon2::verify_password`: whether a hash string is well
/// formed and accepts a password, as the two texts alone decide.
#[verifier::external_body]
pub(crate) fn password_accepted(hash: &str, password: &str) -> (r: bool)
    ensures
        r == accepts(hash@, password@),
{
    argon2::PasswordHash::new(hash).is_ok_and(
        |h| argon2::Argon2::default().verify_password(password.as_bytes(), &h).is_ok(),
    )
}

/// `Argon2::hash_password` with default parameters and a fresh `SaltString`. It fails only on a
/// password of more than `argon2::MAX_PWD_LEN` bytes. A hash accepts the password it was made from;
/// nothing else is known of it.
#[verifier::external_body]
pub(crate) fn password_hash(password: &str) -> (r: Option<String>)
    ensures
        match r {
            Some(h) => accepts(h@, password@),
            None => text::bytes(password@) > 0xffff_ffff,
        },
{
    let salt = argon2::password_hash::SaltString::generate(&mut rand::rngs::OsRng);
    let hash = argon2::Argon2::default().hash_password(password.as_bytes(), &salt).ok()?;
    Some(hash.to_string())
}

} // verus!
