//! The decisions of the JSON API handlers, as steps. Each handler does some
//! outside work (a database read, the throttle, a hash, a store), hands what
//! it came to to its step function as an event, and does the action the step
//! names next, until an answer is given.
use vstd::prelude::*;
use crate::services::authz::{Actor, may_access, can_access_pool};
use crate::routes::api::{
    ApiError, is_error, error, StoreAction, StoreFailure, store_failure_answer, store_failed,
};

verus! {

/// The refusals with a fixed answer.
#[derive(Debug, Clone, Copy, PartialEq, Eq, Structural)]
pub enum Refusal {
    CsrfFailed,
    NotAuthenticated,
    AdminRequired,
    TooManyAttempts,
    InvalidCredentials,
    SessionFailed,
    LookupFailed,
    PoolNotFound,
    TierAccessDenied,
    GenerationUnavailable,
    GenerationFailed,
    InvalidPassword,
    CannotRemoveOwnAdmin,
    CannotDeleteOwnAccount,
    StoreFailed(StoreAction, StoreFailure),
}

/// The status and message of each refusal.
pub open spec fn refusal_answer(r: Refusal) -> (u16, Seq<char>) {
    match r {
        Refusal::CsrfFailed => (403, "CSRF validation failed"@),
        Refusal::NotAuthenticated => (401, "Not authenticated"@),
        Refusal::AdminRequired => (403, "Admin required"@),
        Refusal::TooManyAttempts => (429, "Too many login attempts"@),
        Refusal::InvalidCredentials => (401, "Invalid credentials"@),
        Refusal::SessionFailed => (500, "Failed to create session"@),
        Refusal::LookupFailed => (500, "Lookup failed"@),
        Refusal::PoolNotFound => (404, "Pool not found"@),
        Refusal::TierAccessDenied => (403, "Tier access denied"@),
        Refusal::GenerationUnavailable => (503, "Question generation is unavailable"@),
        Refusal::GenerationFailed => (500, "Question generation failed"@),
        Refusal::InvalidPassword => (400, "Invalid password"@),
        Refusal::CannotRemoveOwnAdmin => (400, "You cannot remove your own admin role"@),
        Refusal::CannotDeleteOwnAccount => (400, "You cannot delete your own account"@),
        Refusal::StoreFailed(a, f) => store_failure_answer(a, f),
    }
}

/// The answer to a refusal.
pub fn refusal_error(r: Refusal) -> (e: ApiError)
    ensures
        is_error(e, refusal_answer(r).0, refusal_answer(r).1),
{
    match r {
        Refusal::CsrfFailed => error(403, "CSRF validation failed"),
        Refusal::NotAuthenticated => error(401, "Not authenticated"),
        Refusal::AdminRequired => error(403, "Admin required"),
        Refusal::TooManyAttempts => error(429, "Too many login attempts"),
        Refusal::InvalidCredentials => error(401, "Invalid credentials"),
        Refusal::SessionFailed => error(500, "Failed to create session"),
        Refusal::LookupFailed => error(500, "Lookup failed"),
        Refusal::PoolNotFound => error(404, "Pool not found"),
        Refusal::TierAccessDenied => error(403, "Tier access denied"),
        Refusal::GenerationUnavailable => error(503, "Question generation is unavailable"),
        Refusal::GenerationFailed => error(500, "Question generation failed"),
        Refusal::InvalidPassword => error(400, "Invalid password"),
        Refusal::CannotRemoveOwnAdmin => error(400, "You cannot remove your own admin role"),
        Refusal::CannotDeleteOwnAccount => error(400, "You cannot delete your own account"),
        Refusal::StoreFailed(a, f) => store_failed(a, f),
    }
}

// ── login ────────────────────────────────────────────────────────────

/// Why a login failed, as the audit log records it.
#[derive(Debug, Clone, Copy, PartialEq, Eq, Structural)]
pub enum LoginFailure {
    UserNotFound,
    InvalidPassword,
}

/// The reason text of a failed login in the audit log.
pub fn login_failure_reason(f: LoginFailure) -> (r: &'static str)
    ensures
        f is UserNotFound ==> r@ == "user_not_found"@,
        f is InvalidPassword ==> r@ == "invalid_password"@,
{
    match f {
        LoginFailure::UserNotFound => "user_not_found",
        LoginFailure::InvalidPassword => "invalid_password",
    }
}

/// What the last piece of a login's work came to.
#[derive(Debug, Clone, Copy, PartialEq, Eq, Structural)]
pub enum LoginEvent {
    /// The request arrived; whether it passed the CSRF check.
    Received { csrf_ok: bool },
    /// Whether the throttle lets this user name and address try.
    Throttled { allowed: bool },
    /// The user with the requested name, when the lookup found one.
    UserFound { user_id: Option<i32> },
    /// Whether the password matched that user's hash.
    PasswordChecked { user_id: i32, matches: bool },
    /// Whether a session could be stored for the user.
    SessionStored { user_id: i32, stored: bool },
}

/// What a login does next.
#[derive(Debug, Clone, Copy, PartialEq, Eq, Structural)]
pub enum LoginAction {
    /// Ask the throttle about the login key.
    CheckThrottle,
    /// Look the user up by name.
    FindUser,
    /// Check the password against the user's hash.
    CheckPassword { user_id: i32 },
    /// Record a failed attempt for the login key, write a `login.failed`
    /// audit entry with the failure's reason, and refuse with `answer`.
    Reject { user_id: Option<i32>, failure: LoginFailure, answer: Refusal },
    /// Clear the key's failed attempts and store a new session.
    OpenSession { user_id: i32 },
    /// Write the `login.success` audit entry, set the session cookie and
    /// answer `Logged in`.
    Welcome { user_id: i32 },
    /// Refuse the request.
    Refuse(Refusal),
}

/// The login handler's decisions: CSRF first, then the throttle, then the
/// user and the password; every failed credential is answered alike.
pub open spec fn login_next(ev: LoginEvent) -> LoginAction {
    match ev {
        LoginEvent::Received { csrf_ok } => if csrf_ok {
            LoginAction::CheckThrottle
        } else {
            LoginAction::Refuse(Refusal::CsrfFailed)
        },
        LoginEvent::Throttled { allowed } => if allowed {
            LoginAction::FindUser
        } else {
            LoginAction::Refuse(Refusal::TooManyAttempts)
        },
        LoginEvent::UserFound { user_id } => match user_id {
            Some(id) => LoginAction::CheckPassword { user_id: id },
            None => LoginAction::Reject {
                user_id: None,
                failure: LoginFailure::UserNotFound,
                answer: Refusal::InvalidCredentials,
            },
        },
        LoginEvent::PasswordChecked { user_id, matches } => if matches {
            LoginAction::OpenSession { user_id }
        } else {
            LoginAction::Reject {
                user_id: Some(user_id),
                failure: LoginFailure::InvalidPassword,
                answer: Refusal::InvalidCredentials,
            }
        },
        LoginEvent::SessionStored { user_id, stored } => if stored {
            LoginAction::Welcome { user_id }
        } else {
            LoginAction::Refuse(Refusal::SessionFailed)
        },
    }
}

pub fn login_step(ev: LoginEvent) -> (r: LoginAction)
    ensures
        r == login_next(ev),
{
    match ev {
        LoginEvent::Received { csrf_ok } => if csrf_ok {
            LoginAction::CheckThrottle
        } else {
            LoginAction::Refuse(Refusal::CsrfFailed)
        },
        LoginEvent::Throttled { allowed } => if allowed {
            LoginAction::FindUser
        } else {
            LoginAction::Refuse(Refusal::TooManyAttempts)
        },
        LoginEvent::UserFound { user_id } => match user_id {
            Some(id) => LoginAction::CheckPassword { user_id: id },
            None => LoginAction::Reject {
                user_id: None,
                failure: LoginFailure::UserNotFound,
                answer: Refusal::InvalidCredentials,
            },
        },
        LoginEvent::PasswordChecked { user_id, matches } => if matches {
            LoginAction::OpenSession { user_id }
        } else {
            LoginAction::Reject {
                user_id: Some(user_id),
                failure: LoginFailure::InvalidPassword,
                answer: Refusal::InvalidCredentials,
            }
        },
        LoginEvent::SessionStored { user_id, stored } => if stored {
            LoginAction::Welcome { user_id }
        } else {
            LoginAction::Refuse(Refusal::SessionFailed)
        },
    }
}

/// A refused login answers the same whether the user name is unknown or the
/// password is wrong, so the answer does not tell which names exist.
pub proof fn failed_logins_answer_alike(a: LoginEvent, b: LoginEvent)
    requires
        login_next(a) is Reject,
        login_next(b) is Reject,
    ensures
        login_next(a)->answer == login_next(b)->answer,
        refusal_answer(login_next(a)->answer) == (401u16, "Invalid credentials"@),
{
}

/// A login opens a session only for a user whose password was checked and
/// matched.
pub proof fn sessions_follow_a_matching_password(ev: LoginEvent)
    requires
        login_next(ev) is OpenSession,
    ensures
        ev matches LoginEvent::PasswordChecked { user_id, matches } && matches && user_id
            == login_next(ev)->OpenSession_user_id,
{
}

// ── logout and the current user ──────────────────────────────────────

/// A logout goes ahead only when its CSRF check passed.
pub fn logout_gate(csrf_ok: bool) -> (r: Result<(), Refusal>)
    ensures
        csrf_ok ==> r is Ok,
        !csrf_ok ==> r == Err::<(), Refusal>(Refusal::CsrfFailed),
{
    if csrf_ok {
        Ok(())
    } else {
        Err(Refusal::CsrfFailed)
    }
}

/// The `me` endpoint: no session user is refused; a user whose row cannot
/// be read is a failed lookup; otherwise the user's profile is answered.
pub fn me_answer(user_id: Option<i32>, profile_found: bool) -> (r: Result<i32, Refusal>)
    ensures
        match user_id {
            None => r == Err::<i32, Refusal>(Refusal::NotAuthenticated),
            Some(id) => if profile_found {
                r == Ok::<i32, Refusal>(id)
            } else {
                r == Err::<i32, Refusal>(Refusal::LookupFailed)
            },
        },
{
    match user_id {
        None => Err(Refusal::NotAuthenticated),
        Some(id) => if profile_found {
            Ok(id)
        } else {
            Err(Refusal::LookupFailed)
        },
    }
}

// ── admin endpoints ──────────────────────────────────────────────────

/// An admin endpoint, with what its own checks read.
#[derive(Debug, Clone, Copy, PartialEq, Eq, Structural)]
pub enum AdminRequest {
    ListTiers,
    ListUsers,
    UploadPool,
    DeletePool,
    CreateTier,
    UpdateTier,
    DeleteTier,
    CreateUser,
    /// Updating user `target`; `make_admin` is the admin flag asked for and
    /// `new_password` whether a password that is not blank was given.
    UpdateUser { target: i32, make_admin: bool, new_password: bool },
    DeleteUser { target: i32 },
}

/// Whether the endpoint changes anything (and so checks CSRF).
pub open spec fn mutates(req: AdminRequest) -> bool {
    !(req is ListTiers || req is ListUsers)
}

/// The store an endpoint makes, for its failure answer.
pub open spec fn store_action_of(req: AdminRequest) -> StoreAction {
    match req {
        AdminRequest::UploadPool => StoreAction::UploadPool,
        AdminRequest::DeletePool => StoreAction::DeletePool,
        AdminRequest::CreateTier => StoreAction::CreateTier,
        AdminRequest::UpdateTier => StoreAction::UpdateTier,
        AdminRequest::DeleteTier => StoreAction::DeleteTier,
        AdminRequest::CreateUser => StoreAction::CreateUser,
        AdminRequest::UpdateUser { .. } => StoreAction::UpdateUser,
        AdminRequest::DeleteUser { .. } => StoreAction::DeleteUser,
        _ => StoreAction::UploadPool,
    }
}

fn store_action(req: AdminRequest) -> (r: StoreAction)
    ensures
        r == store_action_of(req),
{
    match req {
        AdminRequest::UploadPool => StoreAction::UploadPool,
        AdminRequest::DeletePool => StoreAction::DeletePool,
        AdminRequest::CreateTier => StoreAction::CreateTier,
        AdminRequest::UpdateTier => StoreAction::UpdateTier,
        AdminRequest::DeleteTier => StoreAction::DeleteTier,
        AdminRequest::CreateUser => StoreAction::CreateUser,
        AdminRequest::UpdateUser { .. } => StoreAction::UpdateUser,
        AdminRequest::DeleteUser { .. } => StoreAction::DeleteUser,
        _ => StoreAction::UploadPool,
    }
}

/// How a store went: done, its row not there, or refused by the database.
#[derive(Debug, Clone, Copy, PartialEq, Eq, Structural)]
pub enum StoreOutcome {
    Done,
    Missing,
    Refused,
}

/// What the last piece of an admin request's work came to.
#[derive(Debug, Clone, Copy, PartialEq, Eq, Structural)]
pub enum AdminEvent {
    /// The request arrived; whether it passed the CSRF check.
    Received { csrf_ok: bool },
    /// The session's user, if any.
    SessionUser { user_id: Option<i32> },
    /// Whether that user is an admin (a failed read counts as not).
    AdminFlag { user_id: i32, is_admin: bool },
    /// The upload's fields were read and its CSV passed validation.
    Prepared { actor: i32 },
    /// Whether the new password could be hashed.
    Hashed { actor: i32, hashed: bool },
    /// How the store went.
    Stored { actor: i32, outcome: StoreOutcome },
}

/// What an admin request does next.
#[derive(Debug, Clone, Copy, PartialEq, Eq, Structural)]
pub enum AdminAction {
    /// Find the session's user.
    FindSessionUser,
    /// Read whether the user is an admin.
    CheckAdmin { user_id: i32 },
    /// Read the listing and answer it.
    Read { actor: i32 },
    /// Read the upload's fields and validate its CSV (`upload_fields`,
    /// `validation_gate`), answering their refusal if any.
    PrepareUpload { actor: i32 },
    /// Hash the password of the request.
    HashPassword { actor: i32 },
    /// Make the request's store.
    Store { actor: i32 },
    /// Write the audit entry and answer the stored row.
    Finish { actor: i32 },
    /// Refuse the request.
    Refuse(Refusal),
}

/// What an admin does once known to be one.
pub open spec fn admin_work(req: AdminRequest, actor: i32) -> AdminAction {
    match req {
        AdminRequest::ListTiers | AdminRequest::ListUsers => AdminAction::Read { actor },
        AdminRequest::UploadPool => AdminAction::PrepareUpload { actor },
        AdminRequest::CreateUser => AdminAction::HashPassword { actor },
        AdminRequest::UpdateUser { target, make_admin, new_password } => if actor == target
            && !make_admin {
            AdminAction::Refuse(Refusal::CannotRemoveOwnAdmin)
        } else if new_password {
            AdminAction::HashPassword { actor }
        } else {
            AdminAction::Store { actor }
        },
        AdminRequest::DeleteUser { target } => if actor == target {
            AdminAction::Refuse(Refusal::CannotDeleteOwnAccount)
        } else {
            AdminAction::Store { actor }
        },
        _ => AdminAction::Store { actor },
    }
}

/// The admin handlers' decisions: CSRF (for changes), a session user, the
/// admin flag, the endpoint's own checks, then the store.
pub open spec fn admin_next(req: AdminRequest, ev: AdminEvent) -> AdminAction {
    match ev {
        AdminEvent::Received { csrf_ok } => if mutates(req) && !csrf_ok {
            AdminAction::Refuse(Refusal::CsrfFailed)
        } else {
            AdminAction::FindSessionUser
        },
        AdminEvent::SessionUser { user_id } => match user_id {
            Some(id) => AdminAction::CheckAdmin { user_id: id },
            None => AdminAction::Refuse(Refusal::NotAuthenticated),
        },
        AdminEvent::AdminFlag { user_id, is_admin } => if is_admin {
            admin_work(req, user_id)
        } else {
            AdminAction::Refuse(Refusal::AdminRequired)
        },
        AdminEvent::Prepared { actor } => AdminAction::Store { actor },
        AdminEvent::Hashed { actor, hashed } => if hashed {
            AdminAction::Store { actor }
        } else {
            AdminAction::Refuse(Refusal::InvalidPassword)
        },
        AdminEvent::Stored { actor, outcome } => match outcome {
            StoreOutcome::Done => AdminAction::Finish { actor },
            StoreOutcome::Missing => AdminAction::Refuse(
                Refusal::StoreFailed(store_action_of(req), StoreFailure::Missing),
            ),
            StoreOutcome::Refused => AdminAction::Refuse(
                Refusal::StoreFailed(store_action_of(req), StoreFailure::Refused),
            ),
        },
    }
}

fn admin_work_step(req: AdminRequest, actor: i32) -> (r: AdminAction)
    ensures
        r == admin_work(req, actor),
{
    match req {
        AdminRequest::ListTiers | AdminRequest::ListUsers => AdminAction::Read { actor },
        AdminRequest::UploadPool => AdminAction::PrepareUpload { actor },
        AdminRequest::CreateUser => AdminAction::HashPassword { actor },
        AdminRequest::UpdateUser { target, make_admin, new_password } => if actor == target
            && !make_admin {
            AdminAction::Refuse(Refusal::CannotRemoveOwnAdmin)
        } else if new_password {
            AdminAction::HashPassword { actor }
        } else {
            AdminAction::Store { actor }
        },
        AdminRequest::DeleteUser { target } => if actor == target {
            AdminAction::Refuse(Refusal::CannotDeleteOwnAccount)
        } else {
            AdminAction::Store { actor }
        },
        _ => AdminAction::Store { actor },
    }
}

pub fn admin_step(req: AdminRequest, ev: AdminEvent) -> (r: AdminAction)
    ensures
        r == admin_next(req, ev),
{
    match ev {
        AdminEvent::Received { csrf_ok } => {
            let reads = match req {
                AdminRequest::ListTiers | AdminRequest::ListUsers => true,
                _ => false,
            };
            if !reads && !csrf_ok {
                AdminAction::Refuse(Refusal::CsrfFailed)
            } else {
                AdminAction::FindSessionUser
            }
        },
        AdminEvent::SessionUser { user_id } => match user_id {
            Some(id) => AdminAction::CheckAdmin { user_id: id },
            None => AdminAction::Refuse(Refusal::NotAuthenticated),
        },
        AdminEvent::AdminFlag { user_id, is_admin } => if is_admin {
            admin_work_step(req, user_id)
        } else {
            AdminAction::Refuse(Refusal::AdminRequired)
        },
        AdminEvent::Prepared { actor } => AdminAction::Store { actor },
        AdminEvent::Hashed { actor, hashed } => if hashed {
            AdminAction::Store { actor }
        } else {
            AdminAction::Refuse(Refusal::InvalidPassword)
        },
        AdminEvent::Stored { actor, outcome } => match outcome {
            StoreOutcome::Done => AdminAction::Finish { actor },
            StoreOutcome::Missing => AdminAction::Refuse(
                Refusal::StoreFailed(store_action(req), StoreFailure::Missing),
            ),
            StoreOutcome::Refused => AdminAction::Refuse(
                Refusal::StoreFailed(store_action(req), StoreFailure::Refused),
            ),
        },
    }
}

/// Before the admin flag is read, and when it says no, an admin request does
/// nothing but find the session user, read the flag, or refuse.
pub proof fn only_admins_reach_work(req: AdminRequest, ev: AdminEvent)
    requires
        ev is Received || ev is SessionUser || (ev matches AdminEvent::AdminFlag { is_admin, .. }
            && !is_admin),
    ensures
        admin_next(req, ev) is FindSessionUser || admin_next(req, ev) is CheckAdmin
            || admin_next(req, ev) is Refuse,
{
}

/// An admin cannot take away their own admin role or delete their own
/// account, whatever else the request holds.
pub proof fn admins_keep_their_own_account(actor: i32, make_admin: bool, new_password: bool)
    ensures
        !make_admin ==> admin_next(
            AdminRequest::UpdateUser { target: actor, make_admin, new_password },
            AdminEvent::AdminFlag { user_id: actor, is_admin: true },
        ) == AdminAction::Refuse(Refusal::CannotRemoveOwnAdmin),
        admin_next(
            AdminRequest::DeleteUser { target: actor },
            AdminEvent::AdminFlag { user_id: actor, is_admin: true },
        ) == AdminAction::Refuse(Refusal::CannotDeleteOwnAccount),
{
}

// ── reading a pool: its books, or a generated set ────────────────────

/// Which read of a pool.
#[derive(Debug, Clone, Copy, PartialEq, Eq, Structural)]
pub enum PoolRead {
    Books,
    Generate,
}

/// What the last piece of a pool read's work came to.
#[derive(Debug, Clone, Copy, PartialEq, Eq, Structural)]
pub enum PoolEvent {
    /// The request arrived; whether it passed the CSRF check.
    Received { csrf_ok: bool },
    /// The tier of the pool asked for, when the pool exists.
    PoolFound { tier_id: Option<i32> },
    /// The rank of the pool's tier and the caller.
    Ranked { pool_rank: i32, caller: Actor },
    /// Whether the pool's questions could be had (cache or database).
    QuestionsLoaded { found: bool },
    /// The questions to generate from were chosen.
    SourceChosen,
    /// Whether a generation slot could be had.
    SlotAcquired { acquired: bool },
    /// Whether the generation task finished.
    Generated { finished: bool },
}

/// What a pool read does next.
#[derive(Debug, Clone, Copy, PartialEq, Eq, Structural)]
pub enum PoolAction {
    /// Look the pool up.
    FindPool,
    /// Read the rank of the pool's tier and the caller's rank.
    RankPool { tier_id: i32 },
    /// Get the pool's parsed questions.
    LoadQuestions,
    /// Answer the pool's books.
    ListBooks,
    /// Choose the questions to generate from (`generation_source`),
    /// answering its refusal if any.
    ChooseSource,
    /// Wait for a generation slot.
    AcquireSlot,
    /// Generate in a blocking task.
    RunGeneration,
    /// Write the audit entry and answer the questions.
    Report,
    /// Refuse the request.
    Refuse(Refusal),
}

/// The pool readers' decisions: CSRF (for generation), the pool, the tier
/// rule (a pool above the caller's rank is refused unless the caller is an
/// admin), the questions, and for generation the source, a slot and the
/// task.
pub open spec fn pool_next(read: PoolRead, ev: PoolEvent) -> PoolAction {
    match ev {
        PoolEvent::Received { csrf_ok } => if read is Generate && !csrf_ok {
            PoolAction::Refuse(Refusal::CsrfFailed)
        } else {
            PoolAction::FindPool
        },
        PoolEvent::PoolFound { tier_id } => match tier_id {
            Some(t) => PoolAction::RankPool { tier_id: t },
            None => PoolAction::Refuse(Refusal::PoolNotFound),
        },
        PoolEvent::Ranked { pool_rank, caller } => if may_access(caller, pool_rank) {
            PoolAction::LoadQuestions
        } else {
            PoolAction::Refuse(Refusal::TierAccessDenied)
        },
        PoolEvent::QuestionsLoaded { found } => if !found {
            PoolAction::Refuse(Refusal::PoolNotFound)
        } else if read is Books {
            PoolAction::ListBooks
        } else {
            PoolAction::ChooseSource
        },
        PoolEvent::SourceChosen => PoolAction::AcquireSlot,
        PoolEvent::SlotAcquired { acquired } => if acquired {
            PoolAction::RunGeneration
        } else {
            PoolAction::Refuse(Refusal::GenerationUnavailable)
        },
        PoolEvent::Generated { finished } => if finished {
            PoolAction::Report
        } else {
            PoolAction::Refuse(Refusal::GenerationFailed)
        },
    }
}

pub fn pool_step(read: PoolRead, ev: PoolEvent) -> (r: PoolAction)
    ensures
        r == pool_next(read, ev),
{
    match ev {
        PoolEvent::Received { csrf_ok } => {
            let generating = match read {
                PoolRead::Generate => true,
                PoolRead::Books => false,
            };
            if generating && !csrf_ok {
                PoolAction::Refuse(Refusal::CsrfFailed)
            } else {
                PoolAction::FindPool
            }
        },
        PoolEvent::PoolFound { tier_id } => match tier_id {
            Some(t) => PoolAction::RankPool { tier_id: t },
            None => PoolAction::Refuse(Refusal::PoolNotFound),
        },
        PoolEvent::Ranked { pool_rank, caller } => if can_access_pool(&caller, pool_rank) {
            PoolAction::LoadQuestions
        } else {
            PoolAction::Refuse(Refusal::TierAccessDenied)
        },
        PoolEvent::QuestionsLoaded { found } => if !found {
            PoolAction::Refuse(Refusal::PoolNotFound)
        } else {
            match read {
                PoolRead::Books => PoolAction::ListBooks,
                PoolRead::Generate => PoolAction::ChooseSource,
            }
        },
        PoolEvent::SourceChosen => PoolAction::AcquireSlot,
        PoolEvent::SlotAcquired { acquired } => if acquired {
            PoolAction::RunGeneration
        } else {
            PoolAction::Refuse(Refusal::GenerationUnavailable)
        },
        PoolEvent::Generated { finished } => if finished {
            PoolAction::Report
        } else {
            PoolAction::Refuse(Refusal::GenerationFailed)
        },
    }
}

/// The tier rule of pool reads: the questions of a pool are loaded exactly
/// when the caller may read its tier: an admin any tier, anyone else a tier
/// whose rank is at most their own.
pub proof fn questions_load_only_within_rank(read: PoolRead, pool_rank: i32, caller: Actor)
    ensures
        pool_next(read, PoolEvent::Ranked { pool_rank, caller }) is LoadQuestions <==> (
        caller.is_admin || pool_rank <= caller.tier_rank),
{
}

/// Every request that changes something — a login, a logout, a generation
/// and each admin change — is refused with 403 when its CSRF check fails,
/// before any other work; reads of pools and admin listings are not.
pub proof fn changes_need_csrf(req: AdminRequest)
    ensures
        login_next(LoginEvent::Received { csrf_ok: false }) == LoginAction::Refuse(
            Refusal::CsrfFailed,
        ),
        pool_next(PoolRead::Generate, PoolEvent::Received { csrf_ok: false }) == PoolAction::Refuse(
            Refusal::CsrfFailed,
        ),
        pool_next(PoolRead::Books, PoolEvent::Received { csrf_ok: false }) == PoolAction::FindPool,
        mutates(req) ==> admin_next(req, AdminEvent::Received { csrf_ok: false })
            == AdminAction::Refuse(Refusal::CsrfFailed),
        !mutates(req) ==> admin_next(req, AdminEvent::Received { csrf_ok: false })
            == AdminAction::FindSessionUser,
        refusal_answer(Refusal::CsrfFailed) == (403u16, "CSRF validation failed"@),
{
}

/// A request whose CSRF check passes goes on: a pool read or generation
/// looks its pool up, an admin request looks for its session user, a login
/// asks the throttle.
pub proof fn checked_requests_proceed(read: PoolRead, req: AdminRequest)
    ensures
        pool_next(read, PoolEvent::Received { csrf_ok: true }) == PoolAction::FindPool,
        admin_next(req, AdminEvent::Received { csrf_ok: true }) == AdminAction::FindSessionUser,
        login_next(LoginEvent::Received { csrf_ok: true }) == LoginAction::CheckThrottle,
{
}

/// An admin acting on another user's account is not stopped by the
/// own-account rules: deleting that user is stored, and an update is stored,
/// after hashing when it sets a new password.
pub proof fn admins_may_change_other_accounts(
    actor: i32,
    target: i32,
    make_admin: bool,
    new_password: bool,
)
    requires
        actor != target,
    ensures
        admin_next(
            AdminRequest::DeleteUser { target },
            AdminEvent::AdminFlag { user_id: actor, is_admin: true },
        ) == (AdminAction::Store { actor }),
        admin_next(
            AdminRequest::UpdateUser { target, make_admin, new_password },
            AdminEvent::AdminFlag { user_id: actor, is_admin: true },
        ) == (if new_password {
            AdminAction::HashPassword { actor }
        } else {
            AdminAction::Store { actor }
        }),
{
}

} // verus!
