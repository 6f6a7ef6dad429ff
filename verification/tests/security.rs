use qsets_server::services::security::verify_csrf;

#[test]
fn csrf_requires_cookie_and_matching_header() {
    let cookie = Some("token");
    assert!(verify_csrf(cookie, Some("token")));

    assert!(!verify_csrf(cookie, Some("wrong")));
    assert!(!verify_csrf(None, Some("wrong")));
}
