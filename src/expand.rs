//! `expanduser` and `expandvars`.
//!
//! The home directory of a user and the values of environment variables come
//! from the machine or the caller; what is done with them is stated exactly
//! by the functions that take them as arguments (`expand_home_with`,
//! `expandvars`, `expandvars_with`).
use vstd::prelude::*;
use uzers::os::unix::UserExt;
use vstd::utf8::encode_utf8;
use crate::scan::{SEP, has_byte, find, lemma_find, first_index};
use crate::algebra::{trim_end_sep, lemma_trim_end_sep, push_all, to_bytes, trimmed_len};

verus! {

/// The home-directory marker.
pub const TILDE: u8 = 126;

/// The variable marker.
pub const DOLLAR: u8 = 36;

/// Whether `p` starts with `~`.
pub open spec fn has_tilde(p: Seq<u8>) -> bool {
    p.len() > 0 && p[0] == TILDE
}

/// Where the user name after `~` ends: at the first separator, or at the end.
pub open spec fn user_end(p: Seq<u8>) -> int {
    if find(p, SEP) < 0 {
        p.len() as int
    } else {
        find(p, SEP)
    }
}

/// The user name after the leading `~` (empty for the current user).
pub open spec fn user_name(p: Seq<u8>) -> Seq<u8> {
    p.subrange(1, user_end(p))
}

/// `p` with `~user` replaced by `home` less its trailing separators; the
/// root when that leaves nothing.
pub open spec fn expand_home(p: Seq<u8>, home: Seq<u8>) -> Seq<u8> {
    let r = trim_end_sep(home) + p.skip(user_end(p));
    if r.len() == 0 {
        seq![SEP]
    } else {
        r
    }
}

/// `expanduser` once the home directory has been looked up: unchanged when
/// `p` does not start with `~` or the user has no known home.
pub open spec fn expanduser_spec(p: Seq<u8>, home: Option<Seq<u8>>) -> Seq<u8> {
    if !has_tilde(p) {
        p
    } else {
        match home {
            Some(h) => expand_home(p, h),
            None => p,
        }
    }
}

/// The bytes held by an optional vector.
pub open spec fn opt_bytes(o: Option<Vec<u8>>) -> Option<Seq<u8>> {
    match o {
        Some(v) => Some(v@),
        None => None,
    }
}

/// Relies on uzers::get_current_uid: the real user id of this process.
#[verifier::external_body]
fn current_uid() -> (r: u32) {
    uzers::get_current_uid()
}

/// Relies on uzers::get_user_by_uid and `UserExt::home_dir`: the home
/// directory that the user database gives for `uid`, if there is such a user
/// (and the directory is text).
#[verifier::external_body]
fn home_of_uid(uid: u32) -> (r: Option<Vec<u8>>) {
    uzers::get_user_by_uid(uid).and_then(|u| u.home_dir().to_str().map(|s| s.as_bytes().to_vec()))
}

/// Relies on uzers::get_user_by_name and `UserExt::home_dir`: the home
/// directory that the user database gives for the user `name`, if there is
/// such a user (a name or directory that is not text matches none).
#[verifier::external_body]
fn home_of_name(name: &[u8]) -> (r: Option<Vec<u8>>) {
    let name = std::str::from_utf8(name).ok()?;
    uzers::get_user_by_name(name).and_then(|u| u.home_dir().to_str().map(|s| s.as_bytes().to_vec()))
}

/// Where the user name of `p` ends.
fn user_end_exec(p: &[u8]) -> (r: usize)
    ensures
        r == user_end(p@),
        r <= p@.len(),
{
    proof {
        lemma_find(p@, SEP);
    }
    match first_index(SEP, p) {
        Some(i) => i,
        None => p.len(),
    }
}

/// The user name after a leading `~`; `None` when `p` does not start with
/// `~`.
pub fn tilde_user(p: &[u8]) -> (r: Option<Vec<u8>>)
    ensures
        !has_tilde(p@) ==> r is None,
        has_tilde(p@) ==> (r matches Some(n) && n@ == user_name(p@)),
{
    if p.len() == 0 || p[0] != TILDE {
        return None;
    }
    let end = user_end_exec(p);
    proof {
        lemma_find(p@, SEP);
    }
    Some(to_bytes(vstd::slice::slice_subrange(p, 1, end)))
}

/// `p` with its `~user` prefix replaced by `home` (see `expanduser_spec`).
pub fn expand_home_with(p: &[u8], home: Option<Vec<u8>>) -> (r: Vec<u8>)
    ensures
        r@ == expanduser_spec(p@, opt_bytes(home)),
{
    if p.len() == 0 || p[0] != TILDE {
        return to_bytes(p);
    }
    match home {
        None => to_bytes(p),
        Some(h) => {
            let end = user_end_exec(p);
            let n = trimmed_len(h.as_slice());
            proof {
                lemma_trim_end_sep(h@);
            }
            let mut out = to_bytes(vstd::slice::slice_subrange(h.as_slice(), 0, n));
            push_all(&mut out, vstd::slice::slice_subrange(p, end, p.len()));
            proof {
                assert(out@ =~= trim_end_sep(h@) + p@.skip(user_end(p@)));
            }
            if out.len() == 0 {
                out.push(SEP);
                assert(out@ =~= seq![SEP]);
            }
            out
        },
    }
}

/// `~` or `~user` at the start of `p` replaced by that user's home
/// directory. For the current user `env_home` (the `HOME` variable) is taken
/// when given, else the user database; for a named user, the user database.
/// When no home is found, `p` comes back unchanged.
pub fn expanduser(p: &[u8], env_home: Option<Vec<u8>>) -> (r: Vec<u8>)
    ensures
        !has_tilde(p@) ==> r@ == p@,
        has_tilde(p@) && user_name(p@).len() == 0 && env_home is Some ==> r@ == expand_home(
            p@,
            env_home.unwrap()@,
        ),
        r@ == p@ || exists|h: Seq<u8>| r@ == expand_home(p@, h),
{
    match tilde_user(p) {
        None => to_bytes(p),
        Some(name) => {
            let home = if name.len() == 0 {
                match env_home {
                    Some(h) => Some(h),
                    None => home_of_uid(current_uid()),
                }
            } else {
                home_of_name(name.as_slice())
            };
            expand_home_with(p, home)
        },
    }
}

/// An environment as values: variable names and their values, in order.
pub open spec fn env_view(env: Seq<(String, String)>) -> Seq<(Seq<char>, Seq<char>)> {
    Seq::new(env.len(), |i: int| (env[i].0@, env[i].1@))
}

/// The value of the first variable called `name` in `env`, if any.
pub open spec fn env_get(env: Seq<(Seq<char>, Seq<char>)>, name: Seq<char>) -> Option<Seq<char>>
    decreases env.len(),
{
    if env.len() == 0 {
        None
    } else if env[0].0 == name {
        Some(env[0].1)
    } else {
        env_get(env.skip(1), name)
    }
}

/// The value of the first variable called `name` in `env`.
pub fn lookup_var<'a>(env: &'a Vec<(String, String)>, name: &str) -> (r: Option<&'a String>)
    ensures
        match r {
            Some(v) => env_get(env_view(env@), name@) == Some(v@),
            None => env_get(env_view(env@), name@) is None,
        },
{
    let n = name.to_owned();
    let mut i: usize = 0;
    assert(env_view(env@).skip(0) =~= env_view(env@));
    while i < env.len()
        invariant
            i <= env@.len(),
            n@ == name@,
            env_get(env_view(env@), name@) == env_get(env_view(env@).skip(i as int), name@),
        decreases env@.len() - i,
    {
        let ghost rest = env_view(env@).skip(i as int);
        assert(rest.skip(1) =~= env_view(env@).skip(i + 1));
        assert(rest[0] == (env@[i as int].0@, env@[i as int].1@));
        if env[i].0 == n {
            return Some(&env[i].1);
        }
        i = i + 1;
    }
    assert(env_view(env@).skip(i as int) =~= Seq::<(Seq<char>, Seq<char>)>::empty());
    None
}

/// The expansion of the variables in `p`, as `shellexpand` makes it with
/// the values of `env`.
pub uninterp spec fn vars_expanded(p: Seq<char>, env: Seq<(Seq<char>, Seq<char>)>) -> Seq<char>;

/// Relies on shellexpand::env_with_context_no_errors: `$VAR`, `${VAR}` and
/// the other forms it reads are replaced by the values that `lookup_var`
/// finds in `env`, and references to variables not in `env` are kept as
/// written. The result depends on `p` and the values of `env` alone.
#[verifier::external_body]
fn expand_vars_in(p: &str, env: &Vec<(String, String)>) -> (r: String)
    ensures
        r@ == vars_expanded(p@, env_view(env@)),
{
    shellexpand::env_with_context_no_errors(p, |name: &str| lookup_var(env, name)).into_owned()
}

/// Whether the text `p` holds a `$`.
pub open spec fn has_dollar(p: Seq<char>) -> bool {
    has_byte(encode_utf8(p), DOLLAR)
}

/// `expandvars` once the variables of `p` have been expanded into
/// `expanded`: a path without `$` is left alone, any other becomes the
/// expansion.
pub open spec fn expandvars_spec(p: Seq<char>, expanded: Seq<char>) -> Seq<char> {
    if has_dollar(p) {
        expanded
    } else {
        p
    }
}

fn dollar_in(p: &str) -> (r: bool)
    ensures
        r == has_dollar(p@),
{
    first_index(DOLLAR, p.as_bytes()).is_some()
}

/// `expandvars` given the expansion of the variables of `p`.
pub fn expandvars_with(p: &str, expanded: String) -> (r: String)
    ensures
        r@ == expandvars_spec(p@, expanded@),
{
    if dollar_in(p) {
        expanded
    } else {
        p.to_owned()
    }
}

/// `$VAR` and `${VAR}` in `p` replaced by their values in the environment
/// `env`; references to variables that `env` does not hold stay as written.
/// A path without `$` comes back unchanged.
pub fn expandvars(p: &str, env: &Vec<(String, String)>) -> (r: String)
    ensures
        r@ == expandvars_spec(p@, vars_expanded(p@, env_view(env@))),
{
    if dollar_in(p) {
        expand_vars_in(p, env)
    } else {
        p.to_owned()
    }
}

} // verus!
