//! The HTML pages: who is greeted on the index page and who may see the
//! admin page.
use vstd::prelude::*;

verus! {

/// The admin page is shown to an admin; a visitor without a session gets
/// the text `Unauthorized`, a user who is not an admin (or whose row is
/// gone) `Forbidden`.
pub fn admin_page_gate(user_id: Option<i32>, is_admin: Option<bool>) -> (r: Result<(), &'static str>)
    ensures
        match (user_id, is_admin) {
            (None, _) => r matches Err(s) && s@ == "Unauthorized"@,
            (Some(_), Some(true)) => r is Ok,
            (Some(_), _) => r matches Err(s) && s@ == "Forbidden"@,
        },
{
    match (user_id, is_admin) {
        (None, _) => Err("Unauthorized"),
        (Some(_), Some(true)) => Ok(()),
        (Some(_), _) => Err("Forbidden"),
    }
}

/// Whom the index page greets: the name of the session's user when the
/// session names a user that exists, else nobody (an empty name).
pub fn index_identity(username: Option<String>) -> (r: (bool, String))
    ensures
        match username {
            Some(u) => r.0 && r.1 == u,
            None => !r.0 && r.1@.len() == 0,
        },
{
    match username {
        Some(u) => (true, u),
        None => (false, String::new()),
    }
}

} // verus!
