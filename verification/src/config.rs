//! Start-up configuration: `KEY=value` environment files, the settings read
//! from the environment and the checks made on them.
use vstd::prelude::*;
use crate::text::{
    chars_of, string_of, trim, trim_bounds, push_text, parse_usize, parse_usize_chars,
};

verus! {

/// The profile used when `APP_ENV` is not set.
pub const DEFAULT_APP_ENV: &'static str = "development";

/// The address bound when `BIND_ADDR` is not set.
pub const DEFAULT_BIND_ADDR: &'static str = "127.0.0.1:3000";

/// The default admin account's name when `ADMIN_USERNAME` is not set.
pub const DEFAULT_ADMIN_USERNAME: &'static str = "admin";

/// Generation slots when `GENERATION_CONCURRENCY` is not set and the
/// machine's parallelism is unknown.
pub const FALLBACK_GENERATION_SLOTS: usize = 2;

/// The index of the first `c` in `s`, or `s.len()` when there is none.
pub open spec fn find_char(s: Seq<char>, c: char) -> int
    decreases s.len(),
{
    if s.len() == 0 {
        0
    } else if s[0] == c {
        0
    } else {
        1 + find_char(s.drop_first(), c)
    }
}

pub proof fn lemma_find_char(s: Seq<char>, c: char)
    ensures
        0 <= find_char(s, c) <= s.len(),
        forall|j: int| 0 <= j < find_char(s, c) ==> s[j] != c,
        find_char(s, c) < s.len() ==> s[find_char(s, c)] == c,
    decreases s.len(),
{
    if s.len() > 0 && s[0] != c {
        lemma_find_char(s.drop_first(), c);
        assert forall|j: int| 0 <= j < find_char(s, c) implies s[j] != c by {
            if j > 0 {
                assert(s[j] == s.drop_first()[j - 1]);
            }
        }
    }
}

proof fn lemma_find_char_at(s: Seq<char>, c: char, i: int)
    requires
        0 <= i <= s.len(),
        forall|j: int| 0 <= j < i ==> s[j] != c,
        i == s.len() || s[i] == c,
    ensures
        find_char(s, c) == i,
    decreases s.len(),
{
    if s.len() > 0 && s[0] != c {
        assert forall|j: int| 0 <= j < i - 1 implies s.drop_first()[j] != c by {
            assert(s.drop_first()[j] == s[j + 1]);
        }
        lemma_find_char_at(s.drop_first(), c, i - 1);
    }
}

/// Drops leading `c`s.
pub open spec fn strip_start(s: Seq<char>, c: char) -> Seq<char>
    decreases s.len(),
{
    if s.len() > 0 && s[0] == c {
        strip_start(s.drop_first(), c)
    } else {
        s
    }
}

/// Drops trailing `c`s.
pub open spec fn strip_end(s: Seq<char>, c: char) -> Seq<char>
    decreases s.len(),
{
    if s.len() > 0 && s.last() == c {
        strip_end(s.drop_last(), c)
    } else {
        s
    }
}

/// What `str::trim_matches(c)` gives back for a single character `c`.
pub open spec fn trim_matches(s: Seq<char>, c: char) -> Seq<char> {
    strip_end(strip_start(s, c), c)
}

proof fn lemma_strip_start_skip(s: Seq<char>, c: char, i: int)
    requires
        0 <= i <= s.len(),
        forall|j: int| 0 <= j < i ==> #[trigger] s[j] == c,
    ensures
        strip_start(s, c) == strip_start(s.subrange(i, s.len() as int), c),
    decreases i,
{
    if i > 0 {
        lemma_strip_start_skip(s, c, i - 1);
        let t = s.subrange(i - 1, s.len() as int);
        assert(t.drop_first() =~= s.subrange(i, s.len() as int));
        assert(t[0] == s[i - 1]);
    } else {
        assert(s.subrange(0, s.len() as int) =~= s);
    }
}

proof fn lemma_strip_end_cut(s: Seq<char>, c: char, e: int)
    requires
        0 <= e <= s.len(),
        forall|j: int| e <= j < s.len() ==> #[trigger] s[j] == c,
    ensures
        strip_end(s, c) == strip_end(s.subrange(0, e), c),
    decreases s.len() - e,
{
    if e < s.len() {
        lemma_strip_end_cut(s, c, e + 1);
        let t = s.subrange(0, e + 1);
        assert(t.drop_last() =~= s.subrange(0, e));
        assert(t.last() == s[e]);
    } else {
        assert(s.subrange(0, e) =~= s);
    }
}

/// The bounds `(a, b)` with `cs[a..b]` the text without leading and
/// trailing `c`s.
fn match_bounds(cs: &[char], c: char) -> (r: (usize, usize))
    ensures
        r.0 <= r.1 <= cs@.len(),
        cs@.subrange(r.0 as int, r.1 as int) == trim_matches(cs@, c),
{
    let n = cs.len();
    let mut a: usize = 0;
    while a < n && cs[a] == c
        invariant
            a <= n,
            n == cs@.len(),
            forall|j: int| 0 <= j < a ==> #[trigger] cs@[j] == c,
        decreases n - a,
    {
        a = a + 1;
    }
    proof {
        lemma_strip_start_skip(cs@, c, a as int);
    }
    let ghost rest = cs@.subrange(a as int, n as int);
    assert(strip_start(rest, c) == rest);
    let mut b: usize = n;
    while b > a && cs[b - 1] == c
        invariant
            a <= b <= n,
            n == cs@.len(),
            forall|j: int| b <= j < n ==> #[trigger] cs@[j] == c,
        decreases b - a,
    {
        b = b - 1;
    }
    proof {
        assert forall|j: int| b - a <= j < rest.len() implies #[trigger] rest[j] == c by {
            assert(rest[j] == cs@[a + j]);
        }
        lemma_strip_end_cut(rest, c, b - a);
        assert(rest.subrange(0, b - a) =~= cs@.subrange(a as int, b as int));
        let t = cs@.subrange(a as int, b as int);
        if t.len() > 0 {
            assert(t.last() == cs@[b - 1]);
        }
    }
    (a, b)
}

/// The `(key, value)` that one line of an environment file sets, if any.
/// The line is trimmed; a blank line, a `#` comment and a line without `=`
/// set nothing. The key is what precedes the first `=`, trimmed, and must
/// not be empty; the value is the rest, trimmed, then stripped of `"`s and
/// then of `'`s at both ends.
pub open spec fn env_line(line: Seq<char>) -> Option<(Seq<char>, Seq<char>)> {
    let t = trim(line);
    let i = find_char(t, '=');
    let key = trim(t.take(i));
    if t.len() == 0 || t[0] == '#' || i == t.len() || key.len() == 0 {
        None
    } else {
        Some((key, trim_matches(trim_matches(trim(t.skip(i + 1)), '"'), '\'')))
    }
}

/// The settings of an environment file, in order. Its lines are the pieces
/// between `\n`s: `str::lines` gives the same pieces but for a trailing
/// `\r` and a last empty piece, which trimming and the skipping of blank
/// lines make no difference to.
pub open spec fn env_entries(s: Seq<char>) -> Seq<(Seq<char>, Seq<char>)>
    decreases s.len(),
{
    if s.len() == 0 {
        Seq::empty()
    } else {
        let i = find_char(s, '\n');
        let here = match env_line(s.take(i)) {
            Some(e) => seq![e],
            None => Seq::empty(),
        };
        if i < s.len() {
            proof {
                lemma_find_char(s, '\n');
            }
            here + env_entries(s.skip(i + 1))
        } else {
            here
        }
    }
}

/// One setting of an environment file.
#[derive(Debug)]
pub struct EnvEntry {
    pub key: String,
    pub value: String,
}

/// The settings as pairs of texts.
pub open spec fn entry_views(v: Seq<EnvEntry>) -> Seq<(Seq<char>, Seq<char>)> {
    v.map_values(|e: EnvEntry| (e.key@, e.value@))
}

/// The setting of one line, given as its characters.
fn parse_env_line(line: &[char]) -> (r: Option<EnvEntry>)
    ensures
        match r {
            Some(e) => env_line(line@) == Some((e.key@, e.value@)),
            None => env_line(line@) is None,
        },
{
    let (a, b) = trim_bounds(line);
    let t = &line[a..b];
    let n = t.len();
    if n == 0 || t[0] == '#' {
        return None;
    }
    let mut i: usize = 0;
    while i < n && t[i] != '='
        invariant
            i <= n,
            n == t@.len(),
            forall|j: int| 0 <= j < i ==> t@[j] != '=',
        decreases n - i,
    {
        i = i + 1;
    }
    proof {
        lemma_find_char_at(t@, '=', i as int);
    }
    if i == n {
        return None;
    }
    let head = &t[0..i];
    let (ka, kb) = trim_bounds(head);
    if ka == kb {
        return None;
    }
    let key = string_of(&head[ka..kb]);
    let tail = &t[i + 1..n];
    let (va, vb) = trim_bounds(tail);
    let v1 = &tail[va..vb];
    let (qa, qb) = match_bounds(v1, '"');
    let v2 = &v1[qa..qb];
    let (sa, sb) = match_bounds(v2, '\'');
    let value = string_of(&v2[sa..sb]);
    proof {
        assert(head@ =~= t@.take(i as int));
        assert(tail@ =~= t@.skip(i + 1));
    }
    Some(EnvEntry { key, value })
}

/// The settings of an environment file's text, in order.
pub fn parse_env_file(content: &str) -> (r: Vec<EnvEntry>)
    ensures
        entry_views(r@) == env_entries(content@),
{
    let cs = chars_of(content);
    let n = cs.len();
    let mut out: Vec<EnvEntry> = Vec::new();
    let mut start: usize = 0;
    proof {
        assert(cs@.skip(0) =~= cs@);
        assert(entry_views(out@) =~= Seq::<(Seq<char>, Seq<char>)>::empty());
        assert(entry_views(out@) + env_entries(cs@) =~= env_entries(cs@));
    }
    while start < n
        invariant
            start <= n,
            n == cs@.len(),
            cs@ == content@,
            entry_views(out@) + env_entries(cs@.skip(start as int)) == env_entries(cs@),
        decreases n - start,
    {
        let ghost rest = cs@.skip(start as int);
        let mut e: usize = start;
        while e < n && cs[e] != '\n'
            invariant
                start <= e <= n,
                n == cs@.len(),
                rest == cs@.skip(start as int),
                forall|j: int| start <= j < e ==> cs@[j] != '\n',
            decreases n - e,
        {
            e = e + 1;
        }
        proof {
            assert forall|j: int| 0 <= j < e - start implies rest[j] != '\n' by {
                assert(rest[j] == cs@[start + j]);
            }
            lemma_find_char_at(rest, '\n', e - start);
            assert(rest.take(e - start) =~= cs@.subrange(start as int, e as int));
        }
        let ghost before = entry_views(out@);
        let ghost line = rest.take(e - start);
        let ghost here = match env_line(line) {
            Some(x) => seq![x],
            None => Seq::<(Seq<char>, Seq<char>)>::empty(),
        };
        match parse_env_line(&cs[start..e]) {
            Some(entry) => {
                out.push(entry);
                proof {
                    assert(entry_views(out@) =~= before.push((entry.key@, entry.value@)));
                }
            },
            None => {
                assert(entry_views(out@) =~= before);
            },
        }
        proof {
            assert(entry_views(out@) =~= before + here);
        }
        if e < n {
            proof {
                let later = env_entries(rest.skip(e - start + 1));
                assert(env_entries(rest) == here + later);
                assert(rest.skip(e - start + 1) =~= cs@.skip(e + 1));
                assert(before + (here + later) =~= (before + here) + later);
            }
            start = e + 1;
        } else {
            proof {
                assert(env_entries(rest) == here);
                assert(cs@.skip(n as int) =~= Seq::<char>::empty());
                assert((before + here) + Seq::<(Seq<char>, Seq<char>)>::empty() =~= before + here);
            }
            start = n;
        }
    }
    proof {
        assert(cs@.skip(n as int) =~= Seq::<char>::empty());
        assert(entry_views(out@) + Seq::<(Seq<char>, Seq<char>)>::empty() =~= entry_views(out@));
    }
    out
}

/// A setting from a file is applied unless the shell environment set its
/// key at start-up; the base file fills only keys not set yet, a profile
/// file (`allow_override`) overrides what the base file set.
pub open spec fn applies(key: Seq<char>, shell_keys: Seq<Seq<char>>, allow_override: bool, already_set: bool) -> bool {
    !shell_keys.contains(key) && (allow_override || !already_set)
}

/// The loading order of the environment files: a key set by the shell is
/// never taken from a file; the profile file overrides what the base file
/// set; the base file fills only keys not set yet.
pub proof fn shell_environment_wins(
    key: Seq<char>,
    shell_keys: Seq<Seq<char>>,
    allow_override: bool,
    already_set: bool,
)
    ensures
        shell_keys.contains(key) ==> !applies(key, shell_keys, allow_override, already_set),
        !shell_keys.contains(key) && allow_override ==> applies(key, shell_keys, true, already_set),
        !shell_keys.contains(key) ==> (applies(key, shell_keys, false, already_set)
            <==> !already_set),
{
}

/// Whether a setting with `key` from an environment file is to be set;
/// `already_set` says whether the process environment holds the key now.
pub fn should_apply(key: &str, shell_keys: &[String], allow_override: bool, already_set: bool) -> (r: bool)
    ensures
        r == applies(key@, shell_keys@.map_values(|k: String| k@), allow_override, already_set),
{
    let ghost keys = shell_keys@.map_values(|k: String| k@);
    let target = key.to_string();
    let mut i: usize = 0;
    while i < shell_keys.len()
        invariant
            i <= shell_keys@.len(),
            keys == shell_keys@.map_values(|k: String| k@),
            target@ == key@,
            forall|j: int| 0 <= j < i ==> keys[j] != key@,
        decreases shell_keys@.len() - i,
    {
        if shell_keys[i] == target {
            assert(keys[i as int] == key@);
            return false;
        }
        i = i + 1;
    }
    allow_override || !already_set
}

/// The profile file read after `.env`: `.env.<APP_ENV>`.
pub fn env_profile_path(app_env: &str) -> (r: String)
    ensures
        r@ == ".env."@ + app_env@,
{
    let mut out: Vec<char> = Vec::new();
    push_text(&mut out, ".env.");
    push_text(&mut out, app_env);
    string_of(out.as_slice())
}

/// Outside the development profile the example admin password `change-me`
/// is refused.
pub fn admin_password_allowed(app_env: &str, password: &str) -> (r: bool)
    ensures
        r == !(app_env@ != DEFAULT_APP_ENV@ && password@ == "change-me"@),
{
    let dev = app_env.to_string() == DEFAULT_APP_ENV.to_string();
    let example = password.to_string() == "change-me".to_string();
    !(!dev && example)
}

/// The number of generation slots: `GENERATION_CONCURRENCY` when it is set
/// and parses as a `usize`, else the machine's parallelism, else
/// `FALLBACK_GENERATION_SLOTS`; never below 1. `None` when the setting does
/// not parse, which stops start-up.
pub fn generation_concurrency(setting: Option<&str>, parallelism: Option<usize>) -> (r: Option<usize>)
    ensures
        match setting {
            Some(v) => match parse_usize(v@) {
                Some(n) => r == Some(if n >= 1 { n } else { 1usize }),
                None => r is None,
            },
            None => r == Some(
                match parallelism {
                    Some(p) => if p >= 1 { p } else { 1usize },
                    None => FALLBACK_GENERATION_SLOTS,
                },
            ),
        },
{
    let chosen = match setting {
        Some(v) => {
            let cs = chars_of(v);
            match parse_usize_chars(cs.as_slice()) {
                Some(n) => n,
                None => {
                    return None;
                },
            }
        },
        None => match parallelism {
            Some(p) => p,
            None => FALLBACK_GENERATION_SLOTS,
        },
    };
    if chosen >= 1 {
        Some(chosen)
    } else {
        Some(1)
    }
}

/// The checks on a new admin account: a name that is not blank, and a
/// password of at least 8 bytes of UTF-8.
pub fn validate_new_admin(username: &str, password: &str) -> (r: Result<(), &'static str>)
    requires
        vstd::utf8::encode_utf8(password@).len() <= usize::MAX,
    ensures
        trim(username@).len() == 0 ==> (r matches Err(m) && m@ == "Username must not be empty"@),
        trim(username@).len() > 0 && vstd::utf8::encode_utf8(password@).len() < 8 ==> (r matches Err(m) && m@
            == "Password must be at least 8 characters long"@),
        trim(username@).len() > 0 && vstd::utf8::encode_utf8(password@).len() >= 8 ==> r is Ok,
{
    let cs = chars_of(username);
    let (a, b) = trim_bounds(cs.as_slice());
    if a == b {
        return Err("Username must not be empty");
    }
    if password.len() < 8 {
        return Err("Password must be at least 8 characters long");
    }
    Ok(())
}

} // verus!
