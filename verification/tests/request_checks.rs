use qsets_server::services::security::{
    client_ip, cookie_secure, csrf_cookie, ensure_csrf_cookie, user_agent, verify_csrf,
    CookieSameSite, LoginAttempts, CSRF_COOKIE, CSRF_TOKEN_LEN, LOGIN_MAX_ATTEMPTS,
    LOGIN_WINDOW_NANOS,
};

#[test]
fn client_ip_takes_first_forwarded_entry_trimmed() {
    assert_eq!(client_ip(Some(" 10.0.0.1 , 10.0.0.2")), "10.0.0.1");
    assert_eq!(client_ip(Some("192.168.1.5")), "192.168.1.5");
    assert_eq!(client_ip(Some("  203.0.113.9  ")), "203.0.113.9");
}

#[test]
fn client_ip_is_unknown_without_a_usable_entry() {
    assert_eq!(client_ip(None), "unknown");
    assert_eq!(client_ip(Some("")), "unknown");
    assert_eq!(client_ip(Some("   , 10.0.0.2")), "unknown");
}

#[test]
fn user_agent_is_passed_through() {
    assert_eq!(user_agent(Some("curl/8.0")), Some("curl/8.0".to_string()));
    assert_eq!(user_agent(None), None);
}

#[test]
fn csrf_needs_both_values() {
    assert!(!verify_csrf(Some("token"), None));
    assert!(!verify_csrf(None, None));
    assert!(verify_csrf(Some(""), Some("")));
}

#[test]
fn cookies_are_secure_only_when_configured_true() {
    assert!(cookie_secure(Some("true")));
    assert!(!cookie_secure(Some("TRUE")));
    assert!(!cookie_secure(Some("1")));
    assert!(!cookie_secure(None));
}

#[test]
fn existing_csrf_token_is_kept() {
    let (cookie, token) = ensure_csrf_cookie(Some("abc".to_string()), true);
    assert!(cookie.is_none());
    assert_eq!(token, "abc");
}

#[test]
fn new_csrf_token_is_alphanumeric_and_sets_cookie() {
    let (cookie, token) = ensure_csrf_cookie(None, false);
    assert_eq!(token.chars().count(), CSRF_TOKEN_LEN);
    assert!(token.chars().all(|c| c.is_ascii_alphanumeric()));
    let cookie = cookie.expect("a new token sets the cookie");
    assert_eq!(cookie.name, CSRF_COOKIE);
    assert_eq!(cookie.value, token);
    assert_eq!(cookie.path, "/");
    assert!(!cookie.http_only);
    assert_eq!(cookie.same_site, CookieSameSite::Strict);
    assert!(!cookie.secure);
    let (_, other) = ensure_csrf_cookie(None, false);
    assert_ne!(token, other);
}

#[test]
fn csrf_cookie_attributes() {
    let c = csrf_cookie("t".to_string(), true);
    assert_eq!(c.name, "qsets_csrf");
    assert!(c.secure);
}

#[test]
fn throttle_refuses_after_max_failed_attempts() {
    let mut log = LoginAttempts::new();
    let key = "alice:10.0.0.1";
    for i in 0..LOGIN_MAX_ATTEMPTS as u64 {
        assert!(log.allow_login_attempt(key, 1_000 + i));
        log.record_login_attempt(key, 1_000 + i);
    }
    assert!(!log.allow_login_attempt(key, 2_000));
}

#[test]
fn throttle_forgets_attempts_older_than_window() {
    let mut log = LoginAttempts::new();
    let key = "bob:10.0.0.2";
    for _ in 0..LOGIN_MAX_ATTEMPTS {
        log.record_login_attempt(key, 5_000);
    }
    assert!(!log.allow_login_attempt(key, 5_000 + LOGIN_WINDOW_NANOS));
    assert!(log.allow_login_attempt(key, 5_001 + LOGIN_WINDOW_NANOS));
}

#[test]
fn throttle_keys_do_not_affect_each_other() {
    let mut log = LoginAttempts::new();
    for _ in 0..LOGIN_MAX_ATTEMPTS {
        log.record_login_attempt("carol:1.1.1.1", 100);
    }
    assert!(!log.allow_login_attempt("carol:1.1.1.1", 200));
    assert!(log.allow_login_attempt("carol:2.2.2.2", 200));
}

#[test]
fn clearing_attempts_lets_logins_through_again() {
    let mut log = LoginAttempts::new();
    for _ in 0..LOGIN_MAX_ATTEMPTS {
        log.record_login_attempt("dave:1.1.1.1", 100);
    }
    assert!(!log.allow_login_attempt("dave:1.1.1.1", 100));
    log.clear_login_attempts("dave:1.1.1.1");
    assert!(log.allow_login_attempt("dave:1.1.1.1", 100));
}
