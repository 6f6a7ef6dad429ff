use qsets_server::config::{
    admin_password_allowed, env_profile_path, generation_concurrency, parse_env_file,
    should_apply, validate_new_admin, DEFAULT_ADMIN_USERNAME, DEFAULT_APP_ENV, DEFAULT_BIND_ADDR,
};

fn pairs(text: &str) -> Vec<(String, String)> {
    parse_env_file(text).into_iter().map(|e| (e.key, e.value)).collect()
}

#[test]
fn env_file_lines_become_settings_in_order() {
    let got = pairs("A=1\nB = two \n");
    assert_eq!(got, vec![("A".to_string(), "1".to_string()), ("B".to_string(), "two".to_string())]);
}

#[test]
fn env_file_skips_blank_comment_and_malformed_lines() {
    let got = pairs("\n# comment\n   \nNOEQUALS\n=novalue\n  # indented comment = x\nOK=yes");
    assert_eq!(got, vec![("OK".to_string(), "yes".to_string())]);
}

#[test]
fn env_values_lose_quotes_and_split_at_first_equals() {
    let got = pairs("URL=\"postgres://u:p@h/db?x=1\"\nNAME='quiz'\nMIXED=\"'both'\"\nEMPTY=\n");
    assert_eq!(
        got,
        vec![
            ("URL".to_string(), "postgres://u:p@h/db?x=1".to_string()),
            ("NAME".to_string(), "quiz".to_string()),
            ("MIXED".to_string(), "both".to_string()),
            ("EMPTY".to_string(), "".to_string()),
        ]
    );
}

#[test]
fn env_file_handles_crlf_line_ends() {
    let got = pairs("A=1\r\nB=2\r\n");
    assert_eq!(got, vec![("A".to_string(), "1".to_string()), ("B".to_string(), "2".to_string())]);
}

#[test]
fn shell_keys_win_and_profile_overrides_base() {
    let shell = vec!["DATABASE_URL".to_string()];
    assert!(!should_apply("DATABASE_URL", &shell, true, true));
    assert!(!should_apply("DATABASE_URL", &shell, false, false));
    assert!(should_apply("BIND_ADDR", &shell, false, false));
    assert!(!should_apply("BIND_ADDR", &shell, false, true));
    assert!(should_apply("BIND_ADDR", &shell, true, true));
}

#[test]
fn profile_path_and_defaults() {
    assert_eq!(env_profile_path("testing"), ".env.testing");
    assert_eq!(DEFAULT_APP_ENV, "development");
    assert_eq!(DEFAULT_BIND_ADDR, "127.0.0.1:3000");
    assert_eq!(DEFAULT_ADMIN_USERNAME, "admin");
}

#[test]
fn example_admin_password_refused_outside_development() {
    assert!(admin_password_allowed("development", "change-me"));
    assert!(!admin_password_allowed("production", "change-me"));
    assert!(admin_password_allowed("production", "s3cure-enough"));
}

#[test]
fn generation_concurrency_settings() {
    assert_eq!(generation_concurrency(Some("4"), Some(16)), Some(4));
    assert_eq!(generation_concurrency(Some("+3"), None), Some(3));
    assert_eq!(generation_concurrency(Some("0"), None), Some(1));
    assert_eq!(generation_concurrency(Some("many"), None), None);
    assert_eq!(generation_concurrency(Some("-1"), None), None);
    assert_eq!(generation_concurrency(Some(""), None), None);
    assert_eq!(generation_concurrency(None, Some(8)), Some(8));
    assert_eq!(generation_concurrency(None, None), Some(2));
}

#[test]
fn new_admin_checks() {
    assert_eq!(validate_new_admin("  ", "longenough"), Err("Username must not be empty"));
    assert_eq!(
        validate_new_admin("root", "short"),
        Err("Password must be at least 8 characters long")
    );
    assert_eq!(validate_new_admin("root", "éééé"), Ok(()));
    assert_eq!(validate_new_admin("root", "12345678"), Ok(()));
}
