//! Path text: home-directory expansion, absolute form, and the directory
//! that holds a path.
//!
//! Paths are handled as text. Two steps are done by the crates
//! `shellexpand` and `path-absolutize`; both are reached through the two
//! private functions at the end of this file, whose contracts are taken on
//! trust.

use crate::text::{chars_of, text_of};
use path_absolutize::Absolutize;
use vstd::prelude::*;

verus! {

/// Whether `p` is an absolute path: one that begins at the root.
pub open spec fn is_rooted(p: Seq<char>) -> bool {
    p.len() > 0 && p[0] == '/'
}

/// Where path text is resolved from: the user's home directory, if one is
/// known, and the working directory, which is an absolute path.
pub struct PathContext {
    home: Option<String>,
    cwd: String,
}

/// A [`PathContext`] as plain text.
pub ghost struct PathContextView {
    pub home: Option<Seq<char>>,
    pub cwd: Seq<char>,
}

impl View for PathContext {
    type V = PathContextView;

    closed spec fn view(&self) -> PathContextView {
        PathContextView { home: self.home.deep_view(), cwd: self.cwd@ }
    }
}

impl PathContext {
    #[verifier::type_invariant]
    spec fn inv(self) -> bool {
        is_rooted(self.cwd@)
    }

    /// A context with `home` as the home directory and `cwd` as the
    /// working directory, or none where `cwd` is no absolute path.
    pub fn new(home: Option<String>, cwd: String) -> (r: Option<PathContext>)
        ensures
            match r {
                Some(ctx) => is_rooted(cwd@) && ctx@ == (PathContextView {
                    home: home.deep_view(),
                    cwd: cwd@,
                }),
                None => !is_rooted(cwd@),
            },
    {
        let chars = chars_of(cwd.as_str());
        if chars.len() > 0 && chars[0] == '/' {
            Some(PathContext { home, cwd })
        } else {
            None
        }
    }

    /// The home directory, if one is known.
    pub fn home(&self) -> (h: Option<&str>)
        ensures
            h.deep_view() == self@.home,
    {
        match &self.home {
            Some(h) => Some(h.as_str()),
            None => None,
        }
    }

    /// The working directory, an absolute path.
    pub fn cwd(&self) -> (c: &str)
        ensures
            c@ == self@.cwd,
            is_rooted(c@),
    {
        proof {
            use_type_invariant(self);
        }
        self.cwd.as_str()
    }
}

/// Whether `input` opens with a `~` that stands for the home directory: a
/// `~` that is the whole text or is followed by `/`.
pub open spec fn has_home_prefix(input: Seq<char>) -> bool {
    input.len() >= 1 && input[0] == '~' && (input.len() == 1 || input[1] == '/')
}

/// `input` with a leading `~` replaced by `home`. Text without such a
/// prefix, and any text when no home directory is known, stays as it is.
pub open spec fn tilde_expanded(input: Seq<char>, home: Option<Seq<char>>) -> Seq<char> {
    match home {
        Some(h) if has_home_prefix(input) => h + input.skip(1),
        _ => input,
    }
}

/// The absolute form that `path-absolutize` gives `path` when the working
/// directory is `cwd`.
pub uninterp spec fn absolutized(path: Seq<char>, cwd: Seq<char>) -> Seq<char>;

/// The absolute form of `raw`: home expansion first, then resolution
/// against the working directory.
pub open spec fn resolved(raw: Seq<char>, ctx: PathContextView) -> Seq<char> {
    absolutized(tilde_expanded(raw, ctx.home), ctx.cwd)
}

/// Resolves `raw` to an absolute path in `ctx`.
pub fn resolve(raw: &str, ctx: &PathContext) -> (r: String)
    ensures
        r@ == resolved(raw@, ctx@),
{
    let expanded = expand_tilde(raw, ctx.home());
    absolutize_from(expanded.as_str(), ctx.cwd()).unwrap()
}

/// The length of `p` once its trailing run of separators (`seps` true) or
/// of other characters (`seps` false) is dropped.
pub open spec fn stripped_len(p: Seq<char>, seps: bool) -> nat
    decreases p.len(),
{
    if p.len() > 0 && ((p.last() == '/') == seps) {
        stripped_len(p.drop_last(), seps)
    } else {
        p.len()
    }
}

/// The directory that holds `p`: `p` without its last component and the
/// separators around it. The root and the empty path have none; a lone
/// relative name is held by the empty path.
pub open spec fn parent_of(p: Seq<char>) -> Option<Seq<char>> {
    let a = stripped_len(p, true);
    let b = stripped_len(p.take(a as int), false);
    let c = stripped_len(p.take(b as int), true);
    if a == 0 {
        None
    } else if b > 0 && c == 0 {
        Some(p.take(1))
    } else {
        Some(p.take(c as int))
    }
}

/// Dropping a trailing run never lengthens a path.
pub proof fn lemma_stripped_len_bound(p: Seq<char>, seps: bool)
    ensures
        stripped_len(p, seps) <= p.len(),
    decreases p.len(),
{
    if p.len() > 0 && ((p.last() == '/') == seps) {
        lemma_stripped_len_bound(p.drop_last(), seps);
    }
}

/// A path is longer than the directory that holds it, so walking from
/// parent to parent ends.
pub proof fn lemma_parent_is_shorter(p: Seq<char>)
    ensures
        parent_of(p) matches Some(d) ==> d.len() < p.len(),
{
    let a = stripped_len(p, true);
    lemma_stripped_len_bound(p, true);
    let b = stripped_len(p.take(a as int), false);
    lemma_stripped_len_bound(p.take(a as int), false);
    let c = stripped_len(p.take(b as int), true);
    lemma_stripped_len_bound(p.take(b as int), true);
    if a > 0 {
        let q = p.take(a as int);
        if b == a {
            // the last character of q is no separator, so one is dropped
            lemma_stripped_stops(p, true);
            assert(q.last() != '/');
            assert(stripped_len(q, false) == stripped_len(q.drop_last(), false));
            lemma_stripped_len_bound(q.drop_last(), false);
        }
    }
}

/// What is left after dropping a trailing run does not end in that run.
pub proof fn lemma_stripped_stops(p: Seq<char>, seps: bool)
    ensures
        ({
            let n = stripped_len(p, seps);
            n <= p.len() && (n > 0 ==> (p[n - 1] == '/') != seps)
        }),
    decreases p.len(),
{
    if p.len() > 0 && ((p.last() == '/') == seps) {
        lemma_stripped_stops(p.drop_last(), seps);
    }
}

fn strip_trailing(v: &Vec<char>, end: usize, seps: bool) -> (n: usize)
    requires
        end <= v.len(),
    ensures
        n == stripped_len(v@.take(end as int), seps),
        n <= end,
{
    let mut n: usize = end;
    while n > 0 && ((v[n - 1] == '/') == seps)
        invariant
            n <= end <= v.len(),
            stripped_len(v@.take(end as int), seps) == stripped_len(v@.take(n as int), seps),
        decreases n,
    {
        assert(v@.take(n as int).drop_last() =~= v@.take(n - 1));
        n -= 1;
    }
    n
}

/// The directory that holds `path`.
pub fn parent_dir(path: &str) -> (r: Option<String>)
    ensures
        r.deep_view() == parent_of(path@),
{
    let v = chars_of(path);
    let a = strip_trailing(&v, v.len(), true);
    assert(v@.take(v.len() as int) =~= v@);
    if a == 0 {
        return None;
    }
    let b = strip_trailing(&v, a, false);
    let c = strip_trailing(&v, b, true);
    if b > 0 && c == 0 {
        Some(text_of(&v, 0, 1))
    } else {
        Some(text_of(&v, 0, c))
    }
}

/// Calls `shellexpand::tilde_with_context`, handing it `home` as the home
/// directory. The contract restates that function's documented result on
/// Unix: a leading `~`, alone or before `/`, is replaced by the home
/// directory when there is one, and every other input is returned as it
/// came.
#[verifier::external_body]
fn expand_tilde(input: &str, home: Option<&str>) -> (r: String)
    ensures
        r@ == tilde_expanded(input@, home.deep_view()),
{
    shellexpand::tilde_with_context(input, || home).into_owned()
}

/// Calls `path_absolutize::Absolutize::absolutize_from` on `path` with
/// `cwd` as the working directory. On Unix that function reads nothing but
/// its two arguments, and with a working directory that begins at the
/// root each of its branches ends in `Ok`: the contract claims that the
/// call succeeds and that its result is a function of the two texts, of
/// which [`absolutized`] is the name. A working directory that does not
/// begin at the root can make the function panic, so it is kept out.
#[verifier::external_body]
fn absolutize_from(path: &str, cwd: &str) -> (r: Option<String>)
    requires
        is_rooted(cwd@),
    ensures
        r.deep_view() == Some(absolutized(path@, cwd@)),
{
    match std::path::Path::new(path).absolutize_from(std::path::Path::new(cwd)) {
        Ok(p) => Some(p.to_string_lossy().into_owned()),
        Err(_) => None,
    }
}

} // verus!
