use qsets_server::services::auth::{
    add_session_cookie, clear_session_cookie, default_admin_missing, hash_password,
    new_session_token, session_id_from_cookie, verify_password, SESSION_COOKIE, SESSION_DAYS,
};
use qsets_server::services::security::CookieSameSite;

#[test]
fn hashed_password_verifies_and_others_do_not() {
    let hash = hash_password("correct horse").expect("hashing succeeds");
    assert_ne!(hash, "correct horse");
    assert!(hash.starts_with("$argon2id$"));
    assert!(verify_password("correct horse", &hash));
    assert!(!verify_password("wrong horse", &hash));
}

#[test]
fn hashes_are_salted() {
    let a = hash_password("same").unwrap();
    let b = hash_password("same").unwrap();
    assert_ne!(a, b);
    assert!(verify_password("same", &a));
    assert!(verify_password("same", &b));
}

#[test]
fn malformed_hash_matches_nothing() {
    assert!(!verify_password("anything", "not a phc string"));
    assert!(!verify_password("", ""));
}

#[test]
fn new_session_token_names_its_id() {
    let (id, text) = new_session_token();
    assert_eq!(text.len(), 36);
    assert_eq!(session_id_from_cookie(Some(&text)), Some(id));
    let (other, _) = new_session_token();
    assert_ne!(id, other);
}

#[test]
fn session_cookie_value_is_parsed_as_uuid() {
    assert_eq!(
        session_id_from_cookie(Some("550e8400-e29b-41d4-a716-446655440000")),
        Some(0x550e8400_e29b_41d4_a716_446655440000u128)
    );
    assert_eq!(session_id_from_cookie(Some("not-a-uuid")), None);
    assert_eq!(session_id_from_cookie(None), None);
}

#[test]
fn session_cookie_attributes() {
    let c = add_session_cookie("tok".to_string(), false);
    assert_eq!(c.name, "qsets_session");
    assert_eq!(c.value, "tok");
    assert_eq!(c.path, "/");
    assert!(c.http_only);
    assert_eq!(c.same_site, CookieSameSite::Lax);
    assert!(!c.secure);
    assert!(add_session_cookie("tok".to_string(), true).secure);
    assert_eq!(clear_session_cookie(), SESSION_COOKIE);
    assert_eq!(SESSION_DAYS, 14);
}

#[test]
fn default_admin_only_when_name_is_free() {
    assert!(default_admin_missing(0));
    assert!(!default_admin_missing(1));
}

#[test]
fn ordinary_passwords_always_hash() {
    for p in ["", "x", "a much longer pass phrase with spaces", "ünïcödé"] {
        let h = hash_password(p).expect("a password of ordinary length hashes");
        assert!(verify_password(p, &h));
    }
}
