//! Credential store, identity types, and the bearer-token guard.
//!
//! Passwords are hashed and checked through the `bcrypt` crate; what a
//! hash matches is abstracted by [`bcrypt_matches`]. The guard extracts a
//! bearer token from an authorization header value and validates it
//! through the token service.

use vstd::prelude::*;
use vstd::slice::slice_to_vec;
use vstd::string::*;
use crate::token::spec_validate;
use crate::token::validate_token;

verus! {

/// The bcrypt cost factor; low by design intent, tuned for test speed.
pub const BCRYPT_COST: u32 = 4;

/// Whether a plaintext password matches a bcrypt hash, as decided by
/// `bcrypt::verify`. The relation is a pure function of the two strings.
pub uninterp spec fn bcrypt_matches(password: Seq<char>, hash: Seq<char>) -> bool;

/// Relies on `bcrypt::hash`: any hash it returns verifies against the
/// hashed password, that is `bcrypt::verify` of the pair reports a match.
/// The hash itself is salted and not a function of the password alone, so
/// nothing more is claimed about it.
#[verifier::external_body]
pub(crate) fn bcrypt_hash(password: &str, cost: u32) -> (r: Option<String>)
    ensures
        r matches Some(h) ==> bcrypt_matches(password@, h@),
{
    bcrypt::hash(password, cost).ok()
}

/// Relies on `bcrypt::verify`: reports a match exactly when the password
/// matches the hash; a malformed hash is reported as an error, which this
/// wrapper maps to "no match".
#[verifier::external_body]
pub(crate) fn bcrypt_check(password: &str, hash: &str) -> (r: bool)
    ensures
        r == bcrypt_matches(password@, hash@),
{
    bcrypt::verify(password, hash).unwrap_or(false)
}

/// A stored user record.
pub struct User {
    pub id: i64,
    pub username: String,
    pub name: String,
    pub password_hash: String,
}

impl User {
    /// The password hash, for use in specifications.
    pub open spec fn spec_password_hash(&self) -> Seq<char> {
        self.password_hash@
    }

    pub fn new(id: i64, username: String, name: String, password_hash: String) -> (r: User)
        ensures
            r.id == id,
            r.username@ == username@,
            r.name@ == name@,
            r.spec_password_hash() == password_hash@,
    {
        User { id, username, name, password_hash }
    }

    pub fn get_password_hash(&self) -> (r: String)
        ensures
            r@ == self.spec_password_hash(),
    {
        self.password_hash.clone()
    }

    /// Maps registration input to a fresh user record with a hashed
    /// password; the id is assigned later by the store. Fails only when
    /// hashing fails, which is treated as a generic creation failure.
    pub fn from_create(value: CreateUser) -> (r: Option<User>)
        ensures
            r matches Some(u) ==> u.id == 0 && u.username@ == value.username@ && u.name@
                == value.name@ && bcrypt_matches(value.password@, u.spec_password_hash()),
    {
        match bcrypt_hash(value.password.as_str(), BCRYPT_COST) {
            Some(h) => Some(
                User { id: 0, username: value.username, name: value.name, password_hash: h },
            ),
            None => None,
        }
    }
}

/// Registration input: consumed once to produce a hash, then discarded.
pub struct CreateUser {
    pub username: String,
    pub name: String,
    pub password: String,
}

/// Server-held key material for signing and checking tokens, constructed
/// explicitly at startup from the process-wide secret.
pub struct Keys {
    pub secret: Vec<u8>,
}

impl Keys {
    /// The secret bytes, for use in specifications.
    pub open spec fn spec_secret(&self) -> Seq<u8> {
        self.secret@
    }

    pub fn new(secret: &[u8]) -> (r: Keys)
        ensures
            r.spec_secret() == secret@,
    {
        Keys { secret: slice_to_vec(secret) }
    }

    pub fn secret_bytes(&self) -> (r: &[u8])
        ensures
            r@ == self.spec_secret(),
    {
        self.secret.as_slice()
    }
}

/// The authentication error taxonomy. `MissingCredentials` is unused by
/// current call sites but part of the taxonomy.
#[derive(Clone, Copy, PartialEq, Eq, Structural, Debug)]
pub enum AuthError {
    InvalidToken,
    WrongCredentials,
    TokenCreation,
    MissingCredentials,
}

/// Decoded, verified payload of an identity token: subject (user id) and
/// absolute expiry timestamp in seconds.
#[derive(Clone, Copy, PartialEq, Eq, Structural, Debug)]
pub struct Claims {
    pub sub: i64,
    pub exp: u64,
}

/// The login response body: the access token and its scheme.
pub struct AuthBody {
    pub access_token: String,
    pub token_type: String,
}

impl AuthBody {
    pub fn new(access_token: String) -> (r: AuthBody)
        ensures
            r.access_token@ == access_token@,
            r.token_type@ == "Bearer"@,
    {
        AuthBody { access_token, token_type: String::from_str("Bearer") }
    }
}

/// The token carried by an authorization header value: the text after the
/// `Bearer ` scheme prefix, or nothing if the prefix is absent.
pub open spec fn spec_extract_bearer(header: Seq<char>) -> Option<Seq<char>> {
    if header.len() >= 7 && header.subrange(0, 7) == "Bearer "@ {
        Some(header.skip(7))
    } else {
        None
    }
}

/// Extracts the bearer token from an authorization header value.
pub fn extract_bearer<'a>(header: &'a str) -> (r: Option<&'a str>)
    ensures
        match spec_extract_bearer(header@) {
            Some(t) => r matches Some(s) && s@ == t,
            None => r is None,
        },
{
    proof {
        reveal_strlit("Bearer ");
    }
    let len = header.unicode_len();
    if len < 7 {
        return None;
    }
    let scheme: &str = "Bearer ";
    let mut i: usize = 0;
    while i < 7
        invariant
            i <= 7,
            len == header@.len(),
            len >= 7,
            scheme@ == "Bearer "@,
            scheme@.len() == 7,
            forall|k: int| 0 <= k < i ==> header@[k] == scheme@[k],
        decreases 7 - i,
    {
        if header.get_char(i) != scheme.get_char(i) {
            proof {
                assert(header@.subrange(0, 7)[i as int] != "Bearer "@[i as int]);
            }
            return None;
        }
        i = i + 1;
    }
    proof {
        assert(header@.subrange(0, 7) =~= "Bearer "@);
    }
    let tail = header.substring_char(7, len);
    proof {
        assert(tail@ =~= header@.skip(7));
    }
    Some(tail)
}

/// What the guard decides for a given header value: the claims of a valid
/// bearer token, or nothing.
pub open spec fn spec_authorize(secret: Seq<u8>, header: Seq<char>, now: u64) -> Option<Claims> {
    match spec_extract_bearer(header) {
        Some(t) => spec_validate(secret, t, now),
        None => None,
    }
}

/// The bearer-token guard: a missing or unparseable header, or a token
/// that fails validation, is rejected as `InvalidToken`; otherwise the
/// decoded claims are handed to the caller. The guard never consults the
/// user store: validity is purely cryptographic and temporal.
pub fn authorize(keys: &Keys, header: Option<&str>, now: u64) -> (r: Result<Claims, AuthError>)
    ensures
        match header {
            None => r == Err::<Claims, AuthError>(AuthError::InvalidToken),
            Some(h) => match spec_authorize(keys.spec_secret(), h@, now) {
                Some(c) => r == Ok::<Claims, AuthError>(c),
                None => r == Err::<Claims, AuthError>(AuthError::InvalidToken),
            },
        },
{
    match header {
        None => Err(AuthError::InvalidToken),
        Some(h) => match extract_bearer(h) {
            None => Err(AuthError::InvalidToken),
            Some(t) => match validate_token(keys.secret_bytes(), t, now) {
                Ok(c) => Ok(c),
                Err(_) => Err(AuthError::InvalidToken),
            },
        },
    }
}

} // verus!
