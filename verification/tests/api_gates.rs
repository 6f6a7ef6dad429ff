use qsets_server::models::Tier;
use qsets_server::routes::api::{
    generation_source, login_key, password_change, pool_tier_rank, store_failed,
    upload_fields, validation_gate, StoreAction, StoreFailure, MAX_POOL_UPLOAD_BYTES,
};
use qsets_server::routes::flows::{refusal_error, Refusal};
use qsets_server::routes::pages::{admin_page_gate, index_identity};
use qsets_server::services::generator::{parse_csv, validate_csv, BookFilter};

fn status_and_message<T: std::fmt::Debug>(r: Result<T, qsets_server::routes::api::ApiError>) -> (u16, String) {
    let e = r.expect_err("expected a refusal");
    (e.status, e.message)
}

#[test]
fn login_key_joins_name_and_address() {
    assert_eq!(login_key("alice", "10.0.0.1"), "alice:10.0.0.1");
}

#[test]
fn fixed_answers() {
    let cases = [
        (Refusal::CsrfFailed, 403, "CSRF validation failed"),
        (Refusal::NotAuthenticated, 401, "Not authenticated"),
        (Refusal::AdminRequired, 403, "Admin required"),
        (Refusal::TooManyAttempts, 429, "Too many login attempts"),
        (Refusal::InvalidCredentials, 401, "Invalid credentials"),
        (Refusal::SessionFailed, 500, "Failed to create session"),
        (Refusal::LookupFailed, 500, "Lookup failed"),
        (Refusal::PoolNotFound, 404, "Pool not found"),
        (Refusal::TierAccessDenied, 403, "Tier access denied"),
        (Refusal::GenerationUnavailable, 503, "Question generation is unavailable"),
        (Refusal::GenerationFailed, 500, "Question generation failed"),
        (Refusal::InvalidPassword, 400, "Invalid password"),
        (Refusal::CannotRemoveOwnAdmin, 400, "You cannot remove your own admin role"),
        (Refusal::CannotDeleteOwnAccount, 400, "You cannot delete your own account"),
        (Refusal::StoreFailed(StoreAction::DeleteTier, StoreFailure::Missing), 404, "Tier not found"),
    ];
    for (r, status, message) in cases {
        let e = refusal_error(r);
        assert_eq!(e.status, status);
        assert_eq!(e.message, message);
    }
    assert_eq!(MAX_POOL_UPLOAD_BYTES, 10 * 1024 * 1024);
}

#[test]
fn upload_fields_need_all_three_and_a_numeric_tier() {
    let ok = upload_fields(Some("Pool".into()), Some("12".into()), Some("csv".into())).unwrap();
    assert_eq!(ok, ("Pool".to_string(), 12, "csv".to_string()));
    assert_eq!(upload_fields(Some("P".into()), Some("-4".into()), Some("c".into())).unwrap().1, -4);
    assert_eq!(
        status_and_message(upload_fields(Some("P".into()), Some("x1".into()), Some("c".into()))),
        (400, "Missing fields".to_string())
    );
    assert_eq!(
        status_and_message(upload_fields(None, Some("1".into()), Some("c".into()))),
        (400, "Missing fields".to_string())
    );
    assert_eq!(
        status_and_message(upload_fields(Some("P".into()), Some("1".into()), None)),
        (400, "Missing fields".to_string())
    );
}

#[test]
fn validation_errors_are_joined() {
    let v = validate_csv("");
    assert!(!v.errors.is_empty());
    let (status, message) = status_and_message(validation_gate(&v));
    assert_eq!(status, 400);
    assert_eq!(message, v.errors.join("; "));
    let v = validate_csv("Question,Reference\nQ,John 1:1\n");
    assert_eq!(v.errors.len(), 2);
    let (_, message) = status_and_message(validation_gate(&v));
    assert_eq!(message, format!("{}; {}", v.errors[0], v.errors[1]));
    let good = validate_csv("Question,Type,Reference,Answer\nQ,General,John 1:1,A\n");
    assert!(validation_gate(&good).is_ok());
}

#[test]
fn pool_rank_comes_from_first_matching_tier() {
    let tiers = vec![
        Tier { id: 1, name: "public".into(), rank: 0 },
        Tier { id: 2, name: "club".into(), rank: 5 },
        Tier { id: 2, name: "dup".into(), rank: 9 },
    ];
    assert_eq!(pool_tier_rank(&tiers, 2), 5);
    assert_eq!(pool_tier_rank(&tiers, 1), 0);
    assert_eq!(pool_tier_rank(&tiers, 77), 0);
}

fn book(name: &str, a: i32, b: i32) -> BookFilter {
    BookFilter { name: name.to_string(), start_chapter: a, end_chapter: b }
}

#[test]
fn generation_source_cases() {
    let pool = parse_csv("Question,Type,Reference,Answer\nQ1,General,John 1:1,A\nQ2,General,Luke 2:1,A\n");
    assert_eq!(pool.len(), 2);
    assert_eq!(generation_source(&pool, None).unwrap().len(), 2);
    assert_eq!(generation_source(&pool, Some(&[])).unwrap().len(), 2);
    let only_john = [book("John", 1, 1)];
    let src = generation_source(&pool, Some(&only_john)).unwrap();
    assert_eq!(src.len(), 1);
    assert_eq!(src[0].question, "Q1");
    let none = [book("Acts", 1, 3)];
    assert_eq!(
        status_and_message(generation_source(&pool, Some(&none))),
        (400, "No questions match selected books/chapters".to_string())
    );
    let empty: Vec<_> = Vec::new();
    assert!(generation_source(&empty, None).is_err());
    assert_eq!(generation_source(&empty, Some(&only_john)).unwrap().len(), 0);
}

#[test]
fn store_failures() {
    let cases = [
        (StoreAction::DeletePool, StoreFailure::Missing, 404, "Pool not found"),
        (StoreAction::DeletePool, StoreFailure::Refused, 500, "Failed to delete pool"),
        (StoreAction::UpdateTier, StoreFailure::Missing, 404, "Tier not found"),
        (StoreAction::UpdateTier, StoreFailure::Refused, 400, "Failed to update tier"),
        (StoreAction::DeleteTier, StoreFailure::Missing, 404, "Tier not found"),
        (StoreAction::DeleteTier, StoreFailure::Refused, 400, "Failed to delete tier (possibly in use)"),
        (StoreAction::UpdateUser, StoreFailure::Missing, 404, "User not found"),
        (StoreAction::UpdateUser, StoreFailure::Refused, 400, "Failed to update user"),
        (StoreAction::DeleteUser, StoreFailure::Missing, 404, "User not found"),
        (StoreAction::DeleteUser, StoreFailure::Refused, 400, "Failed to delete user"),
        (StoreAction::UploadPool, StoreFailure::Refused, 500, "Insert failed"),
        (StoreAction::CreateTier, StoreFailure::Refused, 400, "Failed to create tier"),
        (StoreAction::CreateUser, StoreFailure::Refused, 400, "Failed to create user"),
    ];
    for (action, failure, status, message) in cases {
        let e = store_failed(action, failure);
        assert_eq!((e.status, e.message.as_str()), (status, message));
    }
}

#[test]
fn blank_new_password_means_keep_old() {
    assert_eq!(password_change(Some("new pass".into())), Some("new pass".to_string()));
    assert_eq!(password_change(Some("   ".into())), None);
    assert_eq!(password_change(Some("".into())), None);
    assert_eq!(password_change(None), None);
}

#[test]
fn page_gates() {
    assert_eq!(admin_page_gate(None, None), Err("Unauthorized"));
    assert_eq!(admin_page_gate(Some(1), None), Err("Forbidden"));
    assert_eq!(admin_page_gate(Some(1), Some(false)), Err("Forbidden"));
    assert_eq!(admin_page_gate(Some(1), Some(true)), Ok(()));
    assert_eq!(index_identity(Some("ann".into())), (true, "ann".to_string()));
    assert_eq!(index_identity(None), (false, String::new()));
}
