//! The JSON API: the checks of its request bodies, the tier ranks of pools
//! and callers, the questions to generate from, and the answers to refused
//! requests and failed stores.
use vstd::prelude::*;
use std::borrow::Cow;
use crate::models::Tier;
use crate::services::generator::{
    filter_by_books_cow, books_filtered, BookFilter, CsvValidation, QuestionRecord,
};
use crate::text::{chars_of, string_of, push_text, parse_i32_chars, parse_i32, trim, trim_bounds, texts, join};

verus! {

/// The largest pool upload the API accepts, in bytes (10 MiB).
pub const MAX_POOL_UPLOAD_BYTES: usize = 10485760;

/// A refused request: the HTTP status and the text of the `error` field.
#[derive(Debug)]
pub struct ApiError {
    pub status: u16,
    pub message: String,
}

/// `e` is the answer with `status` and message `message`.
pub open spec fn is_error(e: ApiError, status: u16, message: Seq<char>) -> bool {
    e.status == status && e.message@ == message
}

pub(crate) fn error(status: u16, message: &str) -> (r: ApiError)
    ensures
        is_error(r, status, message@),
{
    ApiError { status, message: message.to_string() }
}

/// The body of a login request.
#[derive(Debug)]
pub struct LoginRequest {
    pub username: String,
    pub password: String,
}

/// The throttle key of a login: `"{username}:{client_ip}"`.
pub fn login_key(username: &str, client_ip: &str) -> (r: String)
    ensures
        r@ == username@ + ":"@ + client_ip@,
{
    let mut out: Vec<char> = Vec::new();
    push_text(&mut out, username);
    push_text(&mut out, ":");
    push_text(&mut out, client_ip);
    string_of(out.as_slice())
}

/// The name, tier and CSV text of a pool upload, from the multipart fields
/// `name`, `tier_id` (an `i32` in decimal) and `file`; a missing field or a
/// tier that does not parse is answered 400.
pub fn upload_fields(name: Option<String>, tier_id: Option<String>, file: Option<String>) -> (r:
    Result<(String, i32, String), ApiError>)
    ensures
        match (name, tier_id, file) {
            (Some(n), Some(t), Some(f)) => match parse_i32(t@) {
                Some(tier) => r == Ok::<(String, i32, String), ApiError>((n, tier, f)),
                None => r matches Err(e) && is_error(e, 400, "Missing fields"@),
            },
            _ => r matches Err(e) && is_error(e, 400, "Missing fields"@),
        },
{
    match (name, tier_id, file) {
        (Some(n), Some(t), Some(f)) => {
            let cs = chars_of(t.as_str());
            match parse_i32_chars(cs.as_slice()) {
                Some(tier) => Ok((n, tier, f)),
                None => Err(error(400, "Missing fields")),
            }
        },
        _ => Err(error(400, "Missing fields")),
    }
}

/// An upload whose CSV validation reports errors is answered 400 with the
/// errors joined by `"; "`.
pub fn validation_gate(v: &CsvValidation) -> (r: Result<(), ApiError>)
    ensures
        v.errors@.len() == 0 <==> r is Ok,
        r matches Err(e) ==> e.status == 400 && e.message@ == join(texts(v.errors@), "; "@),
{
    let n = v.errors.len();
    if n == 0 {
        return Ok(());
    }
    let ghost items = texts(v.errors@);
    let mut out: Vec<char> = Vec::new();
    let mut i: usize = 0;
    while i < n
        invariant
            i <= n,
            n == v.errors@.len(),
            items == texts(v.errors@),
            out@ == join(items.take(i as int), "; "@),
        decreases n - i,
    {
        proof {
            assert(items.take(i + 1).drop_last() =~= items.take(i as int));
        }
        if i > 0 {
            push_text(&mut out, "; ");
        }
        push_text(&mut out, v.errors[i].as_str());
        i = i + 1;
        proof {
            if i == 1 {
                assert(join(items.take(0), "; "@) =~= Seq::empty());
            }
            assert(out@ =~= join(items.take(i as int), "; "@));
        }
    }
    assert(items.take(n as int) =~= items);
    Err(ApiError { status: 400, message: string_of(out.as_slice()) })
}

/// The rank of the tier with id `tier_id` among `tiers` (the first such
/// tier), or 0 when none has that id.
pub open spec fn tier_rank_in(tiers: Seq<Tier>, tier_id: i32) -> i32 {
    if exists|i: int| 0 <= i < tiers.len() && tiers[i].id == tier_id {
        tiers[choose|i: int|
            0 <= i < tiers.len() && tiers[i].id == tier_id && forall|j: int|
                0 <= j < i ==> tiers[j].id != tier_id].rank
    } else {
        0
    }
}

/// The rank of a pool's tier, found among all tiers.
pub fn pool_tier_rank(tiers: &[Tier], tier_id: i32) -> (r: i32)
    ensures
        r == tier_rank_in(tiers@, tier_id),
{
    let mut i: usize = 0;
    while i < tiers.len()
        invariant
            i <= tiers@.len(),
            forall|j: int| 0 <= j < i ==> tiers@[j].id != tier_id,
        decreases tiers@.len() - i,
    {
        if tiers[i].id == tier_id {
            proof {
                let w = choose|x: int|
                    0 <= x < tiers@.len() && tiers@[x].id == tier_id && forall|j: int|
                        0 <= j < x ==> tiers@[j].id != tier_id;
                assert(w == i);
            }
            return tiers[i].rank;
        }
        i = i + 1;
    }
    0
}

/// The questions to generate from: the cached pool, or those that pass the
/// book filters when some are given. No question to generate from is
/// answered 400 — except when filters are given and every question (of an
/// empty pool, say) passes them.
pub fn generation_source<'a>(parsed: &'a [QuestionRecord], books: Option<&[BookFilter]>) -> (r: Result<
    Cow<'a, [QuestionRecord]>,
    ApiError,
>)
    ensures
        match books {
            Some(f) if f@.len() > 0 => {
                let kept = books_filtered(parsed@, f@);
                &&& r matches Ok(c) ==> c@ == kept
                &&& r is Err <==> (kept.len() == 0 && kept != parsed@)
            },
            _ => {
                &&& r matches Ok(c) ==> c@ == parsed@
                &&& r is Err <==> parsed@.len() == 0
            },
        },
        r matches Err(e) ==> is_error(e, 400, "No questions match selected books/chapters"@),
{
    match books {
        Some(filters) if filters.len() > 0 => {
            let source = filter_by_books_cow(parsed, filters);
            let empty = match &source {
                Cow::Borrowed(_) => false,
                Cow::Owned(v) => v.len() == 0,
            };
            if empty {
                Err(error(400, "No questions match selected books/chapters"))
            } else {
                Ok(source)
            }
        },
        _ => {
            if parsed.len() == 0 {
                Err(error(400, "No questions match selected books/chapters"))
            } else {
                Ok(Cow::Borrowed(parsed))
            }
        },
    }
}

/// The stores of the admin endpoints.
#[derive(Debug, Clone, Copy, PartialEq, Eq, Structural)]
pub enum StoreAction {
    UploadPool,
    DeletePool,
    CreateTier,
    UpdateTier,
    DeleteTier,
    CreateUser,
    UpdateUser,
    DeleteUser,
}

/// How a store failed: its row was not there, or the database refused.
#[derive(Debug, Clone, Copy, PartialEq, Eq, Structural)]
pub enum StoreFailure {
    Missing,
    Refused,
}

/// The status and message for a failed store.
pub open spec fn store_failure_answer(action: StoreAction, failure: StoreFailure) -> (u16, Seq<char>) {
    match (action, failure) {
        (StoreAction::DeletePool, StoreFailure::Missing) => (404, "Pool not found"@),
        (StoreAction::DeletePool, StoreFailure::Refused) => (500, "Failed to delete pool"@),
        (StoreAction::UpdateTier, StoreFailure::Missing) => (404, "Tier not found"@),
        (StoreAction::UpdateTier, StoreFailure::Refused) => (400, "Failed to update tier"@),
        (StoreAction::DeleteTier, StoreFailure::Missing) => (404, "Tier not found"@),
        (StoreAction::DeleteTier, StoreFailure::Refused) => (
            400,
            "Failed to delete tier (possibly in use)"@,
        ),
        (StoreAction::UpdateUser, StoreFailure::Missing) => (404, "User not found"@),
        (StoreAction::UpdateUser, StoreFailure::Refused) => (400, "Failed to update user"@),
        (StoreAction::DeleteUser, StoreFailure::Missing) => (404, "User not found"@),
        (StoreAction::DeleteUser, StoreFailure::Refused) => (400, "Failed to delete user"@),
        (StoreAction::UploadPool, _) => (500, "Insert failed"@),
        (StoreAction::CreateTier, _) => (400, "Failed to create tier"@),
        (StoreAction::CreateUser, _) => (400, "Failed to create user"@),
    }
}

/// The answer to a store that failed.
pub fn store_failed(action: StoreAction, failure: StoreFailure) -> (r: ApiError)
    ensures
        is_error(r, store_failure_answer(action, failure).0, store_failure_answer(action, failure).1),
{
    match (action, failure) {
        (StoreAction::DeletePool, StoreFailure::Missing) => error(404, "Pool not found"),
        (StoreAction::DeletePool, StoreFailure::Refused) => error(500, "Failed to delete pool"),
        (StoreAction::UpdateTier, StoreFailure::Missing) => error(404, "Tier not found"),
        (StoreAction::UpdateTier, StoreFailure::Refused) => error(400, "Failed to update tier"),
        (StoreAction::DeleteTier, StoreFailure::Missing) => error(404, "Tier not found"),
        (StoreAction::DeleteTier, StoreFailure::Refused) => error(
            400,
            "Failed to delete tier (possibly in use)",
        ),
        (StoreAction::UpdateUser, StoreFailure::Missing) => error(404, "User not found"),
        (StoreAction::UpdateUser, StoreFailure::Refused) => error(400, "Failed to update user"),
        (StoreAction::DeleteUser, StoreFailure::Missing) => error(404, "User not found"),
        (StoreAction::DeleteUser, StoreFailure::Refused) => error(400, "Failed to delete user"),
        (StoreAction::UploadPool, _) => error(500, "Insert failed"),
        (StoreAction::CreateTier, _) => error(400, "Failed to create tier"),
        (StoreAction::CreateUser, _) => error(400, "Failed to create user"),
    }
}

/// The new password of a user update: given and not blank.
pub fn password_change(password: Option<String>) -> (r: Option<String>)
    ensures
        match password {
            Some(p) => if trim(p@).len() > 0 {
                r == Some(p)
            } else {
                r is None
            },
            None => r is None,
        },
{
    match password {
        Some(p) => {
            let cs = chars_of(p.as_str());
            let (a, b) = trim_bounds(cs.as_slice());
            if a < b {
                Some(p)
            } else {
                None
            }
        },
        None => None,
    }
}

} // verus!
