//! Passwords and sessions: Argon2 password hashes, session tokens and the
//! session cookie.
use vstd::prelude::*;
use argon2::password_hash::rand_core::OsRng;
use argon2::password_hash::{PasswordHash, PasswordHasher, PasswordVerifier, SaltString};
use argon2::Argon2;
use uuid::Uuid;
use crate::services::security::{CookieSpec, CookieSameSite};
use crate::text::{push_text, string_of};

verus! {

/// The name of the session cookie.
pub const SESSION_COOKIE: &'static str = "qsets_session";

/// How long a session lasts, in days.
pub const SESSION_DAYS: i64 = 14;

/// Whether Argon2 (default parameters for hashing) accepts `password`
/// against the PHC string `hash`: `PasswordHash::new(hash)` parses and
/// `Argon2::default().verify_password(..)` succeeds.
pub uninterp spec fn argon2_accepts(password: Seq<char>, hash: Seq<char>) -> bool;

/// What `Uuid::parse_str` makes of a text, as the UUID's 128-bit value.
pub uninterp spec fn uuid_parse(text: Seq<char>) -> Option<u128>;

/// Hashes with `Argon2::default().hash_password` under a salt from
/// `SaltString::generate(&mut OsRng)` and renders the PHC string; an error
/// comes back as its `Display` text. The salt is random, so the hash is not
/// a function of the password; what is claimed is the round trip that the
/// `argon2` documentation shows: the PHC string verifies against the same
/// password. With the default parameters and a generated salt the only
/// failure `argon2` has is a password longer than `MAX_PWD_LEN`
/// (`0xFFFFFFFF`) bytes, so a shorter password is hashed. The text of an
/// error is left unsaid. (`OsRng` panics when the operating system has no
/// randomness to give.)
#[verifier::external_body]
fn argon2_hash(password: &str) -> (r: Result<String, String>)
    ensures
        r matches Ok(h) ==> argon2_accepts(password@, h@),
        vstd::utf8::encode_utf8(password@).len() <= 0xFFFFFFFF ==> r is Ok,
{
    let salt = SaltString::generate(&mut OsRng);
    match Argon2::default().hash_password(password.as_bytes(), &salt) {
        Ok(p) => Ok(p.to_string()),
        Err(e) => Err(e.to_string()),
    }
}

/// Parses `hash` with `PasswordHash::new` and checks `password` against it
/// with `Argon2::default().verify_password`; a hash that does not parse is
/// refused. Claimed: the result is `argon2_accepts` of the two texts. The
/// parameters come from the hash itself, so a hash that asks for more memory
/// than the machine has ends the process; the hashes checked are the ones
/// `hash_password` stored.
#[verifier::external_body]
fn argon2_verify(password: &str, hash: &str) -> (r: bool)
    ensures
        r == argon2_accepts(password@, hash@),
{
    match PasswordHash::new(hash) {
        Ok(parsed) => Argon2::default().verify_password(password.as_bytes(), &parsed).is_ok(),
        Err(_) => false,
    }
}

/// `Uuid::parse_str`, with the UUID as its `u128` value. Claimed: the result
/// is `uuid_parse` of the text.
#[verifier::external_body]
fn parse_uuid(text: &str) -> (r: Option<u128>)
    ensures
        r == uuid_parse(text@),
{
    match Uuid::parse_str(text) {
        Ok(u) => Some(u.as_u128()),
        Err(_) => None,
    }
}

/// A random `Uuid::new_v4()`, as its `u128` value and its `to_string` text.
/// Claimed, as the `uuid` documentation says that `parse_str` reads every
/// format the crate writes: the text is the 36-character hyphenated form and
/// parses back to the same value. (`new_v4` panics when the operating
/// system has no randomness to give.)
#[verifier::external_body]
fn new_uuid_v4() -> (r: (u128, String))
    ensures
        r.1@.len() == 36,
        uuid_parse(r.1@) == Some(r.0),
{
    let u = Uuid::new_v4();
    (u.as_u128(), u.to_string())
}

/// The PHC string of an Argon2 hash of `password` under a fresh random salt,
/// or `"password hashing failed: "` followed by the reason; only a password
/// of more than `0xFFFFFFFF` bytes fails.
pub fn hash_password(password: &str) -> (r: Result<String, String>)
    ensures
        r matches Ok(h) ==> argon2_accepts(password@, h@),
        vstd::utf8::encode_utf8(password@).len() <= 0xFFFFFFFF ==> r is Ok,
        r matches Err(m) ==> m@.len() >= 25 && m@.take(25) == "password hashing failed: "@,
{
    match argon2_hash(password) {
        Ok(h) => Ok(h),
        Err(reason) => {
            let mut out: Vec<char> = Vec::new();
            push_text(&mut out, "password hashing failed: ");
            proof {
                reveal_strlit("password hashing failed: ");
            }
            let ghost head = out@;
            push_text(&mut out, reason.as_str());
            assert(out@.take(25) =~= head);
            Err(string_of(out.as_slice()))
        },
    }
}

/// Whether `password` matches the stored PHC string `hash`; a hash that
/// does not parse matches nothing.
pub fn verify_password(password: &str, hash: &str) -> (r: bool)
    ensures
        r == argon2_accepts(password@, hash@),
{
    argon2_verify(password, hash)
}

/// A new session token: a random UUID, as the value stored with the session
/// and the text handed to the client, which names that value.
pub fn new_session_token() -> (r: (u128, String))
    ensures
        session_token_id(Some(r.1@)) == Some(r.0),
{
    new_uuid_v4()
}

/// The session that a session cookie names: the UUID its value parses to.
pub open spec fn session_token_id(cookie: Option<Seq<char>>) -> Option<u128> {
    match cookie {
        Some(t) => uuid_parse(t),
        None => None,
    }
}

/// The session id named by the value of the session cookie, when there is
/// one and it is a UUID.
pub fn session_id_from_cookie(cookie: Option<&str>) -> (r: Option<u128>)
    ensures
        r == session_token_id(
            match cookie {
                Some(t) => Some(t@),
                None => None,
            },
        ),
{
    match cookie {
        Some(t) => parse_uuid(t),
        None => None,
    }
}

/// The session cookie that carries `token`: path `/`, HTTP only, `SameSite`
/// lax, secure when so configured.
pub fn add_session_cookie(token: String, secure: bool) -> (r: CookieSpec)
    ensures
        r.name@ == SESSION_COOKIE@,
        r.value == token,
        r.path@ == "/"@,
        r.http_only,
        r.same_site == CookieSameSite::Lax,
        r.secure == secure,
{
    CookieSpec {
        name: SESSION_COOKIE.to_string(),
        value: token,
        path: "/".to_string(),
        http_only: true,
        same_site: CookieSameSite::Lax,
        secure,
    }
}

/// The name of the cookie that logging out removes.
pub fn clear_session_cookie() -> (r: String)
    ensures
        r@ == SESSION_COOKIE@,
{
    SESSION_COOKIE.to_string()
}

/// The default admin account is created only when no user has its name.
pub fn default_admin_missing(users_with_name: i64) -> (r: bool)
    ensures
        r == (users_with_name <= 0),
{
    users_with_name <= 0
}

} // verus!
