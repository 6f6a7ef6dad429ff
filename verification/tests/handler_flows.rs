use qsets_server::routes::api::{StoreAction, StoreFailure};
use qsets_server::services::authz::Actor;

fn reader(tier_rank: i32, is_admin: bool) -> Actor {
    Actor { user_id: Some(1), tier_rank, is_admin, can_upload_pools: false }
}
use qsets_server::routes::flows::{
    admin_step, login_failure_reason, login_step, logout_gate, me_answer, pool_step,
    AdminAction, AdminEvent, AdminRequest, LoginAction, LoginEvent, LoginFailure, PoolAction,
    PoolEvent, PoolRead, Refusal, StoreOutcome,
};

#[test]
fn login_checks_csrf_then_throttle_then_user() {
    assert_eq!(
        login_step(LoginEvent::Received { csrf_ok: false }),
        LoginAction::Refuse(Refusal::CsrfFailed)
    );
    assert_eq!(login_step(LoginEvent::Received { csrf_ok: true }), LoginAction::CheckThrottle);
    assert_eq!(
        login_step(LoginEvent::Throttled { allowed: false }),
        LoginAction::Refuse(Refusal::TooManyAttempts)
    );
    assert_eq!(login_step(LoginEvent::Throttled { allowed: true }), LoginAction::FindUser);
    assert_eq!(
        login_step(LoginEvent::UserFound { user_id: Some(5) }),
        LoginAction::CheckPassword { user_id: 5 }
    );
}

#[test]
fn login_failures_answer_alike() {
    let unknown = login_step(LoginEvent::UserFound { user_id: None });
    let wrong = login_step(LoginEvent::PasswordChecked { user_id: 5, matches: false });
    assert_eq!(
        unknown,
        LoginAction::Reject {
            user_id: None,
            failure: LoginFailure::UserNotFound,
            answer: Refusal::InvalidCredentials
        }
    );
    assert_eq!(
        wrong,
        LoginAction::Reject {
            user_id: Some(5),
            failure: LoginFailure::InvalidPassword,
            answer: Refusal::InvalidCredentials
        }
    );
    assert_eq!(login_failure_reason(LoginFailure::UserNotFound), "user_not_found");
    assert_eq!(login_failure_reason(LoginFailure::InvalidPassword), "invalid_password");
}

#[test]
fn login_opens_session_then_welcomes() {
    assert_eq!(
        login_step(LoginEvent::PasswordChecked { user_id: 5, matches: true }),
        LoginAction::OpenSession { user_id: 5 }
    );
    assert_eq!(
        login_step(LoginEvent::SessionStored { user_id: 5, stored: true }),
        LoginAction::Welcome { user_id: 5 }
    );
    assert_eq!(
        login_step(LoginEvent::SessionStored { user_id: 5, stored: false }),
        LoginAction::Refuse(Refusal::SessionFailed)
    );
}

#[test]
fn logout_and_me() {
    assert_eq!(logout_gate(true), Ok(()));
    assert_eq!(logout_gate(false), Err(Refusal::CsrfFailed));
    assert_eq!(me_answer(None, true), Err(Refusal::NotAuthenticated));
    assert_eq!(me_answer(Some(2), false), Err(Refusal::LookupFailed));
    assert_eq!(me_answer(Some(2), true), Ok(2));
}

#[test]
fn admin_changes_need_csrf_but_listings_do_not() {
    assert_eq!(
        admin_step(AdminRequest::DeletePool, AdminEvent::Received { csrf_ok: false }),
        AdminAction::Refuse(Refusal::CsrfFailed)
    );
    assert_eq!(
        admin_step(AdminRequest::ListTiers, AdminEvent::Received { csrf_ok: false }),
        AdminAction::FindSessionUser
    );
    assert_eq!(
        admin_step(AdminRequest::CreateTier, AdminEvent::Received { csrf_ok: true }),
        AdminAction::FindSessionUser
    );
}

#[test]
fn admin_requires_session_and_flag() {
    let req = AdminRequest::CreateTier;
    assert_eq!(
        admin_step(req, AdminEvent::SessionUser { user_id: None }),
        AdminAction::Refuse(Refusal::NotAuthenticated)
    );
    assert_eq!(
        admin_step(req, AdminEvent::SessionUser { user_id: Some(9) }),
        AdminAction::CheckAdmin { user_id: 9 }
    );
    assert_eq!(
        admin_step(req, AdminEvent::AdminFlag { user_id: 9, is_admin: false }),
        AdminAction::Refuse(Refusal::AdminRequired)
    );
    assert_eq!(
        admin_step(req, AdminEvent::AdminFlag { user_id: 9, is_admin: true }),
        AdminAction::Store { actor: 9 }
    );
    assert_eq!(
        admin_step(AdminRequest::ListUsers, AdminEvent::AdminFlag { user_id: 9, is_admin: true }),
        AdminAction::Read { actor: 9 }
    );
    assert_eq!(
        admin_step(AdminRequest::UploadPool, AdminEvent::AdminFlag { user_id: 9, is_admin: true }),
        AdminAction::PrepareUpload { actor: 9 }
    );
    assert_eq!(
        admin_step(AdminRequest::UploadPool, AdminEvent::Prepared { actor: 9 }),
        AdminAction::Store { actor: 9 }
    );
}

#[test]
fn user_updates_guard_own_account_and_hash_new_passwords() {
    let own_demote = AdminRequest::UpdateUser { target: 9, make_admin: false, new_password: true };
    assert_eq!(
        admin_step(own_demote, AdminEvent::AdminFlag { user_id: 9, is_admin: true }),
        AdminAction::Refuse(Refusal::CannotRemoveOwnAdmin)
    );
    let other = AdminRequest::UpdateUser { target: 3, make_admin: false, new_password: true };
    assert_eq!(
        admin_step(other, AdminEvent::AdminFlag { user_id: 9, is_admin: true }),
        AdminAction::HashPassword { actor: 9 }
    );
    let keep = AdminRequest::UpdateUser { target: 9, make_admin: true, new_password: false };
    assert_eq!(
        admin_step(keep, AdminEvent::AdminFlag { user_id: 9, is_admin: true }),
        AdminAction::Store { actor: 9 }
    );
    assert_eq!(
        admin_step(other, AdminEvent::Hashed { actor: 9, hashed: false }),
        AdminAction::Refuse(Refusal::InvalidPassword)
    );
    assert_eq!(
        admin_step(other, AdminEvent::Hashed { actor: 9, hashed: true }),
        AdminAction::Store { actor: 9 }
    );
    assert_eq!(
        admin_step(AdminRequest::DeleteUser { target: 9 }, AdminEvent::AdminFlag { user_id: 9, is_admin: true }),
        AdminAction::Refuse(Refusal::CannotDeleteOwnAccount)
    );
    assert_eq!(
        admin_step(AdminRequest::CreateUser, AdminEvent::AdminFlag { user_id: 9, is_admin: true }),
        AdminAction::HashPassword { actor: 9 }
    );
}

#[test]
fn store_outcomes() {
    assert_eq!(
        admin_step(AdminRequest::DeleteTier, AdminEvent::Stored { actor: 1, outcome: StoreOutcome::Done }),
        AdminAction::Finish { actor: 1 }
    );
    assert_eq!(
        admin_step(AdminRequest::DeleteTier, AdminEvent::Stored { actor: 1, outcome: StoreOutcome::Missing }),
        AdminAction::Refuse(Refusal::StoreFailed(StoreAction::DeleteTier, StoreFailure::Missing))
    );
    assert_eq!(
        admin_step(
            AdminRequest::UpdateUser { target: 2, make_admin: true, new_password: false },
            AdminEvent::Stored { actor: 1, outcome: StoreOutcome::Refused }
        ),
        AdminAction::Refuse(Refusal::StoreFailed(StoreAction::UpdateUser, StoreFailure::Refused))
    );
}

#[test]
fn pool_reads() {
    assert_eq!(
        pool_step(PoolRead::Generate, PoolEvent::Received { csrf_ok: false }),
        PoolAction::Refuse(Refusal::CsrfFailed)
    );
    assert_eq!(pool_step(PoolRead::Books, PoolEvent::Received { csrf_ok: false }), PoolAction::FindPool);
    assert_eq!(
        pool_step(PoolRead::Books, PoolEvent::PoolFound { tier_id: None }),
        PoolAction::Refuse(Refusal::PoolNotFound)
    );
    assert_eq!(
        pool_step(PoolRead::Books, PoolEvent::PoolFound { tier_id: Some(4) }),
        PoolAction::RankPool { tier_id: 4 }
    );
    assert_eq!(
        pool_step(PoolRead::Books, PoolEvent::Ranked { pool_rank: 3, caller: reader(2, false) }),
        PoolAction::Refuse(Refusal::TierAccessDenied)
    );
    assert_eq!(
        pool_step(PoolRead::Books, PoolEvent::Ranked { pool_rank: 2, caller: reader(2, false) }),
        PoolAction::LoadQuestions
    );
    assert_eq!(
        pool_step(PoolRead::Generate, PoolEvent::Ranked { pool_rank: 7, caller: reader(0, true) }),
        PoolAction::LoadQuestions
    );
    assert_eq!(
        pool_step(PoolRead::Books, PoolEvent::Ranked { pool_rank: 1, caller: Actor::anonymous() }),
        PoolAction::Refuse(Refusal::TierAccessDenied)
    );
    assert_eq!(pool_step(PoolRead::Books, PoolEvent::QuestionsLoaded { found: true }), PoolAction::ListBooks);
    assert_eq!(
        pool_step(PoolRead::Generate, PoolEvent::QuestionsLoaded { found: true }),
        PoolAction::ChooseSource
    );
    assert_eq!(
        pool_step(PoolRead::Generate, PoolEvent::QuestionsLoaded { found: false }),
        PoolAction::Refuse(Refusal::PoolNotFound)
    );
    assert_eq!(pool_step(PoolRead::Generate, PoolEvent::SourceChosen), PoolAction::AcquireSlot);
    assert_eq!(
        pool_step(PoolRead::Generate, PoolEvent::SlotAcquired { acquired: false }),
        PoolAction::Refuse(Refusal::GenerationUnavailable)
    );
    assert_eq!(
        pool_step(PoolRead::Generate, PoolEvent::SlotAcquired { acquired: true }),
        PoolAction::RunGeneration
    );
    assert_eq!(
        pool_step(PoolRead::Generate, PoolEvent::Generated { finished: false }),
        PoolAction::Refuse(Refusal::GenerationFailed)
    );
    assert_eq!(pool_step(PoolRead::Generate, PoolEvent::Generated { finished: true }), PoolAction::Report);
}

