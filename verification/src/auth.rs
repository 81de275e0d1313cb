//! Credential material: verifying a presented password against stored
//! secrets, and producing the hashed secret and random password used when an
//! administrator account is bootstrapped.
//!
//! A stored secret is either a SHA-512 crypt hash (`$6$...`) or a plain
//! app token compared verbatim.

use vstd::prelude::*;

use crate::strutil::str_eq;
use crate::types::{Principal, PrincipalData};

verus! {

/// Whether a SHA-512 crypt hash verifies a password; a function of the two
/// strings alone.
pub uninterp spec fn crypt_verifies(hash: Seq<char>, password: Seq<char>) -> bool;

/// A stored secret in SHA-512 crypt form.
pub open spec fn is_crypt_hash(s: Seq<char>) -> bool {
    s.len() >= 3 && s[0] == '$' && s[1] == '6' && s[2] == '$'
}

/// Whether a stored secret accepts a presented password.
pub open spec fn secret_matches(stored: Seq<char>, given: Seq<char>) -> bool {
    if is_crypt_hash(stored) {
        crypt_verifies(stored, given)
    } else {
        stored == given
    }
}

/// Whether any of a record's secrets accepts the presented password.
pub open spec fn principal_auth_ok(p: PrincipalData<u32>, given: Seq<char>) -> bool {
    exists|k: int| 0 <= k < p.secrets.len() && secret_matches(#[trigger] p.secrets[k], given)
}

/// Relies on `pwhash::sha512_crypt::verify`: whether the hash corresponds to
/// the password, deterministic in the two arguments.
#[verifier::external_body]
fn sha512_verify(password: &str, hash: &str) -> (r: bool)
    ensures
        r == crypt_verifies(hash@, password@),
{
    pwhash::sha512_crypt::verify(password, hash)
}

/// Relies on `pwhash::sha512_crypt::hash`: hashes with a random salt into
/// `$6$...` form, and the result verifies the password it was made from;
/// it fails only when the system random source cannot be opened.
#[verifier::external_body]
fn sha512_hash(password: &str) -> (r: Option<String>)
    ensures
        r matches Some(h) ==> crypt_verifies(h@, password@) && is_crypt_hash(h@),
{
    match pwhash::sha512_crypt::hash(password) {
        Ok(h) => Some(h),
        Err(_) => None,
    }
}

/// Relies on rand's `thread_rng` sampled through the `Alphanumeric`
/// distribution: twelve ASCII letters or digits; nothing else is promised of
/// a random value.
#[verifier::external_body]
fn random_token() -> (r: String)
    ensures
        r@.len() == 12,
{
    let mut rng = rand::thread_rng();
    let token: String = rand::Rng::sample_iter(&mut rng, rand::distributions::Alphanumeric).take(
        12,
    ).map(char::from).collect();
    token
}

/// Verify one stored secret against a presented password.
pub fn verify_secret(stored: &str, given: &str) -> (r: bool)
    ensures
        r == secret_matches(stored@, given@),
{
    let is_hash = stored.unicode_len() >= 3 && stored.get_char(0) == '$' && stored.get_char(1)
        == '6' && stored.get_char(2) == '$';
    if is_hash {
        sha512_verify(given, stored)
    } else {
        str_eq(stored, given)
    }
}

/// Verify a presented password against every secret of a record.
pub fn verify_principal_secret(p: &Principal<u32>, given: &str) -> (r: bool)
    ensures
        r == principal_auth_ok(p@, given@),
{
    let n = p.secrets.len();
    let mut i: usize = 0;
    while i < n
        invariant
            n == p.secrets@.len(),
            0 <= i <= n,
            forall|k: int| 0 <= k < i ==> !secret_matches(#[trigger] p@.secrets[k], given@),
        decreases n - i,
    {
        proof {
            assert(p@.secrets[i as int] == p.secrets@[i as int]@);
        }
        if verify_secret(p.secrets[i].as_str(), given) {
            assert(secret_matches(p@.secrets[i as int], given@));
            return true;
        }
        i = i + 1;
    }
    proof {
        assert(p@.secrets.len() == p.secrets@.len());
    }
    false
}

/// Hash a fresh password for storage: the result is a SHA-512 crypt hash
/// that accepts exactly that password; `None` only when the system random
/// source is unavailable.
pub fn hash_secret(password: &str) -> (r: Option<String>)
    ensures
        r matches Some(h) ==> secret_matches(h@, password@) && is_crypt_hash(h@),
{
    match sha512_hash(password) {
        Some(h) => Some(h),
        None => None,
    }
}

/// A freshly generated random password for the bootstrap account.
pub fn generate_password() -> (r: String)
    ensures
        r@.len() == 12,
{
    random_token()
}

} // verus!
