//! Request checks: the client address, the CSRF double-submit token and
//! login throttling.
use vstd::prelude::*;
use rand::distributions::Alphanumeric;
use rand::Rng;
use crate::seq_facts::{both, lemma_filter_filter};
use crate::text::{chars_of, string_of, trim_bounds, trim};

verus! {

/// How long a failed login attempt counts, in nanoseconds (15 minutes).
pub const LOGIN_WINDOW_NANOS: u64 = 900000000000;

/// How many failed attempts within the window block further logins.
pub const LOGIN_MAX_ATTEMPTS: usize = 10;

/// The length of a new CSRF token.
pub const CSRF_TOKEN_LEN: usize = 48;

/// The client address that an `X-Forwarded-For` value names: its first
/// comma-separated entry, trimmed, or `unknown` when there is none.
pub open spec fn client_ip_of(forwarded_for: Option<Seq<char>>) -> Seq<char> {
    match forwarded_for {
        Some(v) => {
            let first = if exists|i: int| 0 <= i < v.len() && v[i] == ',' {
                v.take(
                    choose|i: int|
                        0 <= i < v.len() && v[i] == ',' && forall|j: int| 0 <= j < i ==> v[j] != ',',
                )
            } else {
                v
            };
            if trim(first).len() > 0 {
                trim(first)
            } else {
                "unknown"@
            }
        },
        None => "unknown"@,
    }
}

/// The client address of a request from its `X-Forwarded-For` header value
/// (`None` when the header is absent or not visible ASCII).
pub fn client_ip(forwarded_for: Option<&str>) -> (r: String)
    ensures
        r@ == client_ip_of(
            match forwarded_for {
                Some(v) => Some(v@),
                None => None,
            },
        ),
{
    match forwarded_for {
        None => "unknown".to_string(),
        Some(v) => {
            let cs = chars_of(v);
            let n = cs.len();
            let mut c: usize = 0;
            while c < n && cs[c] != ','
                invariant
                    c <= n,
                    n == cs@.len(),
                    forall|j: int| 0 <= j < c ==> cs@[j] != ',',
                decreases n - c,
            {
                c = c + 1;
            }
            let first = &cs[0..c];
            proof {
                if c < n {
                    let w = choose|i: int|
                        0 <= i < v@.len() && v@[i] == ',' && forall|j: int| 0 <= j < i ==> v@[j] != ',';
                    assert(w == c);
                } else {
                    assert(v@.take(n as int) =~= v@);
                }
                assert(first@ =~= v@.take(c as int));
            }
            let (a, b) = trim_bounds(first);
            if a == b {
                "unknown".to_string()
            } else {
                string_of(&first[a..b])
            }
        },
    }
}

/// The `User-Agent` header value of a request, when it is visible ASCII.
pub fn user_agent(value: Option<&str>) -> (r: Option<String>)
    ensures
        r matches Some(s) ==> value matches Some(v) && s@ == v@,
        r is None ==> value is None,
{
    match value {
        Some(v) => Some(v.to_string()),
        None => None,
    }
}

/// A request passes the CSRF check when it carries both the CSRF cookie and
/// the `X-CSRF-Token` header, with the same value.
pub open spec fn csrf_ok(cookie: Option<Seq<char>>, header: Option<Seq<char>>) -> bool {
    match (cookie, header) {
        (Some(x), Some(y)) => x == y,
        _ => false,
    }
}

pub open spec fn text_opt(v: Option<&str>) -> Option<Seq<char>> {
    match v {
        Some(s) => Some(s@),
        None => None,
    }
}

/// The double-submit check: the CSRF cookie value against the
/// `X-CSRF-Token` header value.
pub fn verify_csrf(cookie: Option<&str>, header: Option<&str>) -> (r: bool)
    ensures
        r == csrf_ok(text_opt(cookie), text_opt(header)),
{
    match (cookie, header) {
        (Some(x), Some(y)) => x.to_string() == y.to_string(),
        _ => false,
    }
}

/// ASCII letters and digits, the characters of `rand`'s `Alphanumeric`.
pub open spec fn is_alphanumeric(c: char) -> bool {
    ('a' <= c && c <= 'z') || ('A' <= c && c <= 'Z') || ('0' <= c && c <= '9')
}

/// A token of `len` characters, each drawn by `rand::thread_rng()` from the
/// `Alphanumeric` distribution.
#[verifier::external_body]
fn random_alphanumeric(len: usize) -> (r: String)
    ensures
        r@.len() == len,
        forall|i: int| 0 <= i < len ==> is_alphanumeric(#[trigger] r@[i]),
{
    rand::thread_rng().sample_iter(Alphanumeric).take(len).map(char::from).collect()
}

/// The name of the CSRF cookie.
pub const CSRF_COOKIE: &'static str = "qsets_csrf";

/// The `SameSite` attribute of a cookie.
#[derive(Debug, Clone, Copy, PartialEq, Eq, Structural)]
pub enum CookieSameSite {
    Strict,
    Lax,
}

/// A cookie to set on the response, with its attributes.
#[derive(Debug)]
pub struct CookieSpec {
    pub name: String,
    pub value: String,
    pub path: String,
    pub http_only: bool,
    pub same_site: CookieSameSite,
    pub secure: bool,
}

/// Cookies are marked secure only when `COOKIE_SECURE` is exactly `true`.
pub fn cookie_secure(setting: Option<&str>) -> (r: bool)
    ensures
        r == (setting matches Some(v) && v@ == "true"@),
{
    match setting {
        Some(v) => v.to_string() == "true".to_string(),
        None => false,
    }
}

/// The CSRF cookie that carries `token`: path `/`, readable by scripts,
/// `SameSite` strict, secure when so configured.
pub fn csrf_cookie(token: String, secure: bool) -> (r: CookieSpec)
    ensures
        r.name@ == CSRF_COOKIE@,
        r.value == token,
        r.path@ == "/"@,
        !r.http_only,
        r.same_site == CookieSameSite::Strict,
        r.secure == secure,
{
    CookieSpec {
        name: CSRF_COOKIE.to_string(),
        value: token,
        path: "/".to_string(),
        http_only: false,
        same_site: CookieSameSite::Strict,
        secure,
    }
}

/// The CSRF token of a request: the one its cookie already holds, or a new
/// random one of `CSRF_TOKEN_LEN` letters and digits, with the cookie that
/// carries it to be set on the response.
pub fn ensure_csrf_cookie(existing: Option<String>, secure: bool) -> (r: (Option<CookieSpec>, String))
    ensures
        match existing {
            Some(v) => r.1 == v && r.0 is None,
            None => {
                &&& r.1@.len() == CSRF_TOKEN_LEN
                &&& forall|i: int| 0 <= i < CSRF_TOKEN_LEN ==> is_alphanumeric(#[trigger] r.1@[i])
                &&& r.0 matches Some(c) && c.value == r.1 && c.name@ == CSRF_COOKIE@ && c.path@
                    == "/"@ && !c.http_only && c.same_site == CookieSameSite::Strict && c.secure
                    == secure
            },
        },
{
    match existing {
        Some(v) => (None, v),
        None => {
            let token = random_alphanumeric(CSRF_TOKEN_LEN);
            let cookie = csrf_cookie(token.clone(), secure);
            (Some(cookie), token)
        },
    }
}

/// A request that echoes its CSRF cookie's token in the `X-CSRF-Token`
/// header passes the CSRF comparison; one without the cookie never does.
pub proof fn echoed_csrf_token_passes(token: Seq<char>, header: Option<Seq<char>>)
    ensures
        csrf_ok(Some(token), Some(token)),
        !csrf_ok(None, header),
{
}

/// An attempt at time `t` still counts at time `now` (nanoseconds): it lies
/// at most the window back, or is not before `now`.
pub open spec fn fresh_at(now: u64) -> spec_fn(u64) -> bool {
    |t: u64| t >= now || now - t <= LOGIN_WINDOW_NANOS
}

/// The attempts recorded for `key` that still count at `now`.
pub open spec fn recent(m: Map<Seq<char>, Seq<u64>>, key: Seq<char>, now: u64) -> Seq<u64> {
    if m.contains_key(key) {
        m[key].filter(fresh_at(now))
    } else {
        Seq::empty()
    }
}

/// Every key's attempts cut to those that still count at `now`, keys left
/// without any dropped.
pub open spec fn pruned(m: Map<Seq<char>, Seq<u64>>, now: u64) -> Map<Seq<char>, Seq<u64>> {
    Map::new(
        |k: Seq<char>| m.contains_key(k) && m[k].filter(fresh_at(now)).len() > 0,
        |k: Seq<char>| m[k].filter(fresh_at(now)),
    )
}

/// The record after `allow_login_attempt(key, now)`.
pub open spec fn after_allow(m: Map<Seq<char>, Seq<u64>>, key: Seq<char>, now: u64) -> Map<
    Seq<char>,
    Seq<u64>,
> {
    pruned(m, now).insert(key, recent(m, key, now))
}

/// Whether `allow_login_attempt(key, now)` lets a login go ahead.
pub open spec fn allowed(m: Map<Seq<char>, Seq<u64>>, key: Seq<char>, now: u64) -> bool {
    recent(m, key, now).len() < LOGIN_MAX_ATTEMPTS
}

/// The record after `record_login_attempt(key, now)`.
pub open spec fn after_record(m: Map<Seq<char>, Seq<u64>>, key: Seq<char>, now: u64) -> Map<
    Seq<char>,
    Seq<u64>,
> {
    let prev = if m.contains_key(key) {
        m[key]
    } else {
        Seq::empty()
    };
    m.insert(key, prev.push(now).filter(fresh_at(now)))
}

/// The failed-login attempts of one key (user name and client address).
struct AttemptLog {
    key: String,
    times: Vec<u64>,
}

/// Failed login attempts by key, with their times in nanoseconds on a
/// monotonic clock.
pub struct LoginAttempts {
    logs: Vec<AttemptLog>,
}

impl LoginAttempts {
    #[verifier::type_invariant]
    spec fn keys_unique(&self) -> bool {
        forall|i: int, j: int|
            0 <= i < j < self.logs@.len() ==> self.logs@[i].key@ != self.logs@[j].key@
    }
}

/// The position of `key` among `logs`.
spec fn log_position(logs: Seq<AttemptLog>, key: Seq<char>) -> int {
    choose|i: int| 0 <= i < logs.len() && logs[i].key@ == key
}

spec fn logs_map(logs: Seq<AttemptLog>) -> Map<Seq<char>, Seq<u64>> {
    Map::new(
        |k: Seq<char>| exists|i: int| 0 <= i < logs.len() && logs[i].key@ == k,
        |k: Seq<char>| logs[log_position(logs, k)].times@,
    )
}

spec fn unique_keys(logs: Seq<AttemptLog>) -> bool {
    forall|i: int, j: int| 0 <= i < j < logs.len() ==> logs[i].key@ != logs[j].key@
}

impl View for LoginAttempts {
    type V = Map<Seq<char>, Seq<u64>>;

    closed spec fn view(&self) -> Map<Seq<char>, Seq<u64>> {
        logs_map(self.logs@)
    }
}

proof fn lemma_logs_map_at(logs: Seq<AttemptLog>, i: int)
    requires
        unique_keys(logs),
        0 <= i < logs.len(),
    ensures
        logs_map(logs).contains_key(logs[i].key@),
        logs_map(logs)[logs[i].key@] == logs[i].times@,
{
    let k = logs[i].key@;
    let p = log_position(logs, k);
    assert(logs[p].key@ == k);
    if p != i {
        assert(logs[p].key@ != logs[i].key@);
    }
}

fn keep_fresh(times: &Vec<u64>, now: u64) -> (r: Vec<u64>)
    ensures
        r@ == times@.filter(fresh_at(now)),
{
    let mut out: Vec<u64> = Vec::new();
    let mut i: usize = 0;
    while i < times.len()
        invariant
            i <= times@.len(),
            out@ == times@.take(i as int).filter(fresh_at(now)),
        decreases times@.len() - i,
    {
        proof {
            assert(times@.take(i + 1) =~= times@.take(i as int).push(times@[i as int]));
            times@.take(i as int).lemma_filter_push(times@[i as int], fresh_at(now));
        }
        let t = times[i];
        if t >= now || now - t <= LOGIN_WINDOW_NANOS {
            out.push(t);
        }
        i = i + 1;
    }
    assert(times@.take(times@.len() as int) =~= times@);
    out
}

fn find_log(logs: &Vec<AttemptLog>, key: &String) -> (r: Option<usize>)
    requires
        unique_keys(logs@),
    ensures
        r matches Some(i) ==> i < logs@.len() && logs@[i as int].key@ == key@,
        r is None ==> !logs_map(logs@).contains_key(key@),
{
    let mut i: usize = 0;
    while i < logs.len()
        invariant
            i <= logs@.len(),
            forall|j: int| 0 <= j < i ==> logs@[j].key@ != key@,
        decreases logs@.len() - i,
    {
        if logs[i].key == *key {
            return Some(i);
        }
        i = i + 1;
    }
    None
}

impl LoginAttempts {
    /// No attempts recorded.
    pub fn new() -> (r: Self)
        ensures
            r@ == Map::<Seq<char>, Seq<u64>>::empty(),
    {
        let r = LoginAttempts { logs: Vec::new() };
        assert(r@ =~= Map::<Seq<char>, Seq<u64>>::empty());
        r
    }

    /// Whether a login for `key` may go ahead at `now`: fewer than
    /// `LOGIN_MAX_ATTEMPTS` failed attempts within the window. Attempts that
    /// no longer count are dropped for every key first.
    pub fn allow_login_attempt(&mut self, key: &str, now: u64) -> (r: bool)
        ensures
            r == allowed(old(self)@, key@, now),
            final(self)@ == after_allow(old(self)@, key@, now),
    {
        proof {
            use_type_invariant(&*self);
        }
        let ghost m = self@;
        let ghost olds = self.logs@;
        let key_text = key.to_string();
        let mut kept: Vec<AttemptLog> = Vec::new();
        let mut found: Option<usize> = None;
        let mut i: usize = 0;
        while i < self.logs.len()
            invariant
                i <= olds.len(),
                self.logs@ == olds,
                m == logs_map(olds),
                unique_keys(olds),
                unique_keys(kept@),
                key_text@ == key@,
                forall|j: int|
                    0 <= j < kept@.len() ==> exists|x: int|
                        0 <= x < i && olds[x].key@ == #[trigger] kept@[j].key@,
                forall|j: int|
                    0 <= j < kept@.len() ==> #[trigger] kept@[j].times@ == m[kept@[j].key@].filter(
                        fresh_at(now),
                    ),
                forall|x: int|
                    0 <= x < i && olds[x].times@.filter(fresh_at(now)).len() > 0 ==> exists|j: int|
                        0 <= j < kept@.len() && #[trigger] kept@[j].key@ == olds[x].key@,
                forall|j: int| 0 <= j < kept@.len() ==> #[trigger] kept@[j].times@.len() > 0,
                found matches Some(f) ==> f < kept@.len() && kept@[f as int].key@ == key@,
                found is None ==> forall|j: int| 0 <= j < kept@.len() ==> kept@[j].key@ != key@,
            decreases olds.len() - i,
        {
            proof {
                lemma_logs_map_at(olds, i as int);
            }
            let fresh = keep_fresh(&self.logs[i].times, now);
            if fresh.len() > 0 {
                let k = self.logs[i].key.clone();
                if k == key_text {
                    found = Some(kept.len());
                }
                let ghost before = kept@;
                kept.push(AttemptLog { key: k, times: fresh });
                proof {
                    assert forall|a: int, b: int| 0 <= a < b < kept@.len() implies kept@[a].key@
                        != kept@[b].key@ by {
                        if b == kept@.len() - 1 {
                            let x = choose|x: int| 0 <= x < i && olds[x].key@ == before[a].key@;
                            assert(olds[x].key@ != olds[i as int].key@);
                        }
                    }
                    assert forall|j: int| 0 <= j < kept@.len() implies exists|x: int|
                        0 <= x < i + 1 && olds[x].key@ == #[trigger] kept@[j].key@ by {
                        if j < before.len() {
                            let x = choose|x: int| 0 <= x < i && olds[x].key@ == before[j].key@;
                            assert(olds[x].key@ == kept@[j].key@);
                        } else {
                            assert(olds[i as int].key@ == kept@[j].key@);
                        }
                    }
                    assert forall|x: int|
                        0 <= x < i + 1 && olds[x].times@.filter(fresh_at(now)).len() > 0 implies exists|j: int|
                        0 <= j < kept@.len() && #[trigger] kept@[j].key@ == olds[x].key@ by {
                        if x < i {
                            let j = choose|j: int| 0 <= j < before.len() && before[j].key@ == olds[x].key@;
                            assert(kept@[j].key@ == olds[x].key@);
                        } else {
                            assert(kept@[kept@.len() - 1].key@ == olds[x].key@);
                        }
                    }
                }
            }
            i = i + 1;
        }
        let ghost loop_kept = kept@;
        let count = match found {
            Some(f) => kept[f].times.len(),
            None => {
                proof {
                    if m.contains_key(key@) {
                        let x = log_position(olds, key@);
                        lemma_logs_map_at(olds, x);
                        if olds[x].times@.filter(fresh_at(now)).len() > 0 {
                            let j = choose|j: int| 0 <= j < kept@.len() && kept@[j].key@ == olds[x].key@;
                            assert(false);
                        }
                    }
                }
                let ghost before = kept@;
                kept.push(AttemptLog { key: key_text, times: Vec::new() });
                proof {
                    assert forall|a: int, b: int| 0 <= a < b < kept@.len() implies kept@[a].key@
                        != kept@[b].key@ by {
                        if b == kept@.len() - 1 {
                            assert(before[a].key@ != key@);
                        }
                    }
                }
                0
            },
        };
        let ghost expected = after_allow(m, key@, now);
        proof {
            assert(recent(m, key@, now).len() == count);
            assert forall|k: Seq<char>| #[trigger] logs_map(kept@).contains_key(k) == expected.contains_key(k) by {
                if logs_map(kept@).contains_key(k) && k != key@ {
                    let j = choose|j: int| 0 <= j < kept@.len() && kept@[j].key@ == k;
                    assert(j < loop_kept.len());
                    assert(kept@[j] == loop_kept[j]);
                    let x = choose|x: int| 0 <= x < olds.len() && olds[x].key@ == loop_kept[j].key@;
                    lemma_logs_map_at(olds, x);
                    assert(loop_kept[j].times@.len() > 0);
                }
                if expected.contains_key(k) && k != key@ {
                    let x = log_position(olds, k);
                    lemma_logs_map_at(olds, x);
                    assert(olds[x].key@ == k);
                    assert(olds[x].times@.filter(fresh_at(now)).len() > 0);
                    let j = choose|j: int|
                        0 <= j < loop_kept.len() && #[trigger] loop_kept[j].key@ == olds[x].key@;
                    assert(kept@[j] == loop_kept[j]);
                    assert(kept@[j].key@ == k);
                }
                if k == key@ {
                    let f = match found { Some(f) => f as int, None => kept@.len() - 1 };
                    assert(kept@[f].key@ == k);
                }
            }
            assert forall|k: Seq<char>| #[trigger] logs_map(kept@).contains_key(k) implies logs_map(kept@)[k]
                == expected[k] by {
                let j = choose|j: int| 0 <= j < kept@.len() && kept@[j].key@ == k;
                lemma_logs_map_at(kept@, j);
                if k != key@ {
                    assert(j < loop_kept.len());
                    assert(kept@[j] == loop_kept[j]);
                    let x = choose|x: int| 0 <= x < olds.len() && olds[x].key@ == loop_kept[j].key@;
                    lemma_logs_map_at(olds, x);
                } else if let Some(f) = found {
                    assert(kept@[f as int].key@ == k);
                    if f != j {
                        assert(kept@[f as int].key@ != kept@[j].key@);
                    }
                }
            }
            assert(logs_map(kept@) =~= expected);
        }
        self.logs = kept;
        count < LOGIN_MAX_ATTEMPTS
    }

    /// Records a failed login attempt for `key` at `now`, keeping only the
    /// attempts of `key` that still count.
    pub fn record_login_attempt(&mut self, key: &str, now: u64)
        ensures
            final(self)@ == after_record(old(self)@, key@, now),
    {
        proof {
            use_type_invariant(&*self);
        }
        let ghost m = self@;
        let mut logs: Vec<AttemptLog> = Vec::new();
        std::mem::swap(&mut logs, &mut self.logs);
        let ghost olds = logs@;
        let key_text = key.to_string();
        match find_log(&logs, &key_text) {
            Some(i) => {
                proof {
                    lemma_logs_map_at(olds, i as int);
                }
                let entry = logs.remove(i);
                let mut times = entry.times;
                times.push(now);
                let fresh = keep_fresh(&times, now);
                logs.insert(i, AttemptLog { key: entry.key, times: fresh });
                proof {
                    assert(logs@ =~= olds.update(i as int, logs@[i as int]));
                    assert forall|a: int, b: int| 0 <= a < b < logs@.len() implies logs@[a].key@
                        != logs@[b].key@ by {
                        assert(olds[a].key@ != olds[b].key@);
                    }
                    assert forall|k: Seq<char>| #[trigger] logs_map(logs@).contains_key(k)
                        == after_record(m, key@, now).contains_key(k) by {
                        if logs_map(olds).contains_key(k) {
                            let x = choose|x: int| 0 <= x < olds.len() && olds[x].key@ == k;
                            assert(logs@[x].key@ == k);
                        }
                        if logs_map(logs@).contains_key(k) {
                            let x = choose|x: int| 0 <= x < logs@.len() && logs@[x].key@ == k;
                            assert(olds[x].key@ == k);
                        }
                    }
                    assert forall|k: Seq<char>| #[trigger] logs_map(logs@).contains_key(k) implies logs_map(logs@)[k]
                        == after_record(m, key@, now)[k] by {
                        let x = choose|x: int| 0 <= x < logs@.len() && logs@[x].key@ == k;
                        lemma_logs_map_at(logs@, x);
                        lemma_logs_map_at(olds, x);
                    }
                    assert(logs_map(logs@) =~= after_record(m, key@, now));
                }
            },
            None => {
                let mut times: Vec<u64> = Vec::new();
                times.push(now);
                let fresh = keep_fresh(&times, now);
                logs.push(AttemptLog { key: key_text, times: fresh });
                proof {
                    assert(times@ =~= Seq::<u64>::empty().push(now));
                    assert forall|a: int, b: int| 0 <= a < b < logs@.len() implies logs@[a].key@
                        != logs@[b].key@ by {
                        if b == olds.len() {
                            assert(!logs_map(olds).contains_key(key@));
                            assert(olds[a].key@ != key@);
                        }
                    }
                    assert forall|k: Seq<char>| #[trigger] logs_map(logs@).contains_key(k)
                        == after_record(m, key@, now).contains_key(k) by {
                        if logs_map(olds).contains_key(k) {
                            let x = choose|x: int| 0 <= x < olds.len() && olds[x].key@ == k;
                            assert(logs@[x].key@ == k);
                        }
                        if logs_map(logs@).contains_key(k) && k != key@ {
                            let x = choose|x: int| 0 <= x < logs@.len() && logs@[x].key@ == k;
                            assert(olds[x].key@ == k);
                        }
                        if k == key@ {
                            assert(logs@[olds.len() as int].key@ == k);
                        }
                    }
                    assert forall|k: Seq<char>| #[trigger] logs_map(logs@).contains_key(k) implies logs_map(logs@)[k]
                        == after_record(m, key@, now)[k] by {
                        let x = choose|x: int| 0 <= x < logs@.len() && logs@[x].key@ == k;
                        lemma_logs_map_at(logs@, x);
                        if x < olds.len() {
                            lemma_logs_map_at(olds, x);
                        }
                    }
                    assert(logs_map(logs@) =~= after_record(m, key@, now));
                }
            },
        }
        self.logs = logs;
    }

    /// Forgets the attempts of `key` (after a successful login).
    pub fn clear_login_attempts(&mut self, key: &str)
        ensures
            final(self)@ == old(self)@.remove(key@),
    {
        proof {
            use_type_invariant(&*self);
        }
        let ghost m = self@;
        let mut logs: Vec<AttemptLog> = Vec::new();
        std::mem::swap(&mut logs, &mut self.logs);
        let ghost olds = logs@;
        let key_text = key.to_string();
        match find_log(&logs, &key_text) {
            Some(i) => {
                logs.remove(i);
                proof {
                    assert(logs@ =~= olds.remove(i as int));
                    assert forall|a: int, b: int| 0 <= a < b < logs@.len() implies logs@[a].key@
                        != logs@[b].key@ by {
                        let a2 = if a < i { a } else { a + 1 };
                        let b2 = if b < i { b } else { b + 1 };
                        assert(olds[a2].key@ != olds[b2].key@);
                    }
                    assert forall|k: Seq<char>| #[trigger] logs_map(logs@).contains_key(k)
                        == m.remove(key@).contains_key(k) by {
                        if logs_map(olds).contains_key(k) && k != key@ {
                            let x = choose|x: int| 0 <= x < olds.len() && olds[x].key@ == k;
                            assert(x != i);
                            let y = if x < i { x } else { x - 1 };
                            assert(logs@[y].key@ == k);
                        }
                        if logs_map(logs@).contains_key(k) {
                            let x = choose|x: int| 0 <= x < logs@.len() && logs@[x].key@ == k;
                            let y = if x < i { x } else { x + 1 };
                            assert(olds[y].key@ == k);
                            assert(olds[i as int].key@ == key@);
                            if y != i {
                                assert(olds[y].key@ != olds[i as int].key@);
                            }
                        }
                    }
                    assert forall|k: Seq<char>| #[trigger] logs_map(logs@).contains_key(k) implies logs_map(logs@)[k]
                        == m.remove(key@)[k] by {
                        let x = choose|x: int| 0 <= x < logs@.len() && logs@[x].key@ == k;
                        lemma_logs_map_at(logs@, x);
                        let y = if x < i { x } else { x + 1 };
                        lemma_logs_map_at(olds, y);
                    }
                    assert(logs_map(logs@) =~= m.remove(key@));
                }
            },
            None => {
                assert(m.remove(key@) =~= m);
            },
        }
        self.logs = logs;
    }
}

/// Failed attempts throttle logins: with `LOGIN_MAX_ATTEMPTS` attempts of a
/// key within the window, the next login of that key is refused; recording
/// an attempt at `now` adds exactly one attempt that counts at `now`; and
/// clearing a key lets its next login go ahead.
pub proof fn throttle_counts_recorded_attempts(m: Map<Seq<char>, Seq<u64>>, key: Seq<char>, now: u64)
    ensures
        recent(m, key, now).len() >= LOGIN_MAX_ATTEMPTS ==> !allowed(m, key, now),
        recent(after_record(m, key, now), key, now) == recent(m, key, now).push(now),
        allowed(m.remove(key), key, now),
{
    let prev = if m.contains_key(key) {
        m[key]
    } else {
        Seq::empty()
    };
    prev.lemma_filter_push(now, fresh_at(now));
    let f = prev.push(now).filter(fresh_at(now));
    f.lemma_filter_push(now, fresh_at(now));
    assert(f.filter(fresh_at(now)) =~= f) by {
        filter_idempotent(prev.push(now), fresh_at(now));
    }
    if !m.contains_key(key) {
        reveal(Seq::filter);
        assert(prev.filter(fresh_at(now)) =~= Seq::<u64>::empty());
    }
}

proof fn filter_idempotent(s: Seq<u64>, p: spec_fn(u64) -> bool)
    ensures
        s.filter(p).filter(p) == s.filter(p),
    decreases s.len(),
{
    if s.len() == 0 {
        reveal(Seq::filter);
        assert(s.filter(p) =~= s);
    } else {
        filter_idempotent(s.drop_last(), p);
        assert(s.drop_last().push(s.last()) =~= s);
        s.drop_last().lemma_filter_push(s.last(), p);
        s.drop_last().filter(p).lemma_filter_push(s.last(), p);
    }
}

/// Attempts of one key never change whether another key may log in.
pub proof fn throttle_keys_are_independent(m: Map<Seq<char>, Seq<u64>>, key: Seq<char>, other: Seq<char>, now: u64)
    requires
        key != other,
    ensures
        allowed(after_record(m, key, now), other, now) == allowed(m, other, now),
        allowed(m.remove(key), other, now) == allowed(m, other, now),
{
}

/// The record after failed attempts of `key` at the times `ts`, in order.
pub open spec fn after_records(m: Map<Seq<char>, Seq<u64>>, key: Seq<char>, ts: Seq<u64>) -> Map<
    Seq<char>,
    Seq<u64>,
>
    decreases ts.len(),
{
    if ts.len() == 0 {
        m
    } else {
        after_record(after_records(m, key, ts.drop_last()), key, ts.last())
    }
}

proof fn lemma_recent_after_records(m: Map<Seq<char>, Seq<u64>>, key: Seq<char>, ts: Seq<u64>, now: u64)
    requires
        forall|i: int| 0 <= i < ts.len() ==> #[trigger] ts[i] <= now && now - ts[i] <= LOGIN_WINDOW_NANOS,
    ensures
        recent(after_records(m, key, ts), key, now).len() >= ts.len(),
    decreases ts.len(),
{
    if ts.len() > 0 {
        let init = ts.drop_last();
        let t = ts.last();
        assert forall|i: int| 0 <= i < init.len() implies #[trigger] init[i] <= now && now - init[i]
            <= LOGIN_WINDOW_NANOS by {
            assert(init[i] == ts[i]);
        }
        assert(ts[ts.len() - 1] <= now);
        lemma_recent_after_records(m, key, init, now);
        let m1 = after_records(m, key, init);
        let prev = if m1.contains_key(key) {
            m1[key]
        } else {
            Seq::empty()
        };
        lemma_filter_filter(prev.push(t), fresh_at(t), fresh_at(now));
        assert(both(fresh_at(t), fresh_at(now)) =~= fresh_at(now));
        prev.lemma_filter_push(t, fresh_at(now));
        if !m1.contains_key(key) {
            reveal(Seq::filter);
            assert(prev.filter(fresh_at(now)) =~= Seq::<u64>::empty());
        }
    }
}

/// Failed attempts at any `LOGIN_MAX_ATTEMPTS` times within the window
/// before `now` block the next login of that key at `now`, whatever the
/// record held before.
pub proof fn failures_within_window_block(m: Map<Seq<char>, Seq<u64>>, key: Seq<char>, ts: Seq<u64>, now: u64)
    requires
        ts.len() >= LOGIN_MAX_ATTEMPTS,
        forall|i: int| 0 <= i < ts.len() ==> #[trigger] ts[i] <= now && now - ts[i] <= LOGIN_WINDOW_NANOS,
    ensures
        !allowed(after_records(m, key, ts), key, now),
{
    lemma_recent_after_records(m, key, ts, now);
}

} // verus!
