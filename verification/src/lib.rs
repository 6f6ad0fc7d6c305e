//! Keeps a declared set of symbolic links in step with the file system.
//!
//! The library decides; it never touches the file system itself. A caller
//! tells it what was found on disk and carries out what it asks for.

pub mod action;
pub mod cache;
pub mod clean;
pub mod config;
pub mod deploy;
pub mod expand;
pub mod path;
pub mod set;
pub mod text;

use crate::path::{resolve, resolved, PathContext, PathContextView};
use crate::text::{chars_of, find_from, first_at, lemma_first_at, text_of};
use vstd::prelude::*;

verus! {

/// One link: `name` is where the link stands, `target` is what it points
/// to. Both are absolute paths in plain form: [`Mapping::new`] makes them
/// so.
#[derive(Debug, PartialEq, Eq, Hash)]
pub struct Mapping {
    name: String,
    target: String,
}

/// A [`Mapping`] as plain text.
pub ghost struct MappingView {
    pub name: Seq<char>,
    pub target: Seq<char>,
}

impl View for Mapping {
    type V = MappingView;

    closed spec fn view(&self) -> MappingView {
        MappingView { name: self.name@, target: self.target@ }
    }
}

impl DeepView for Mapping {
    type V = MappingView;

    open spec fn deep_view(&self) -> MappingView {
        self@
    }
}

impl Clone for Mapping {
    fn clone(&self) -> (m: Mapping)
        ensures
            m@ == self@,
    {
        Mapping { name: self.name.clone(), target: self.target.clone() }
    }
}

/// The mapping that `name` and `target` resolve to in `ctx`.
pub open spec fn resolved_mapping(
    name: Seq<char>,
    target: Seq<char>,
    ctx: PathContextView,
) -> MappingView {
    MappingView { name: resolved(name, ctx), target: resolved(target, ctx) }
}

impl Mapping {
    /// Makes a mapping from two paths as a user writes them: a leading `~`
    /// stands for the home directory, and a relative path is taken from the
    /// working directory.
    pub fn new(name: &str, target: &str, ctx: &PathContext) -> (m: Mapping)
        ensures
            m@ == resolved_mapping(name@, target@, ctx@),
    {
        Mapping { name: resolve(name, ctx), target: resolve(target, ctx) }
    }

    /// Makes a mapping of two paths that are absolute already; they are
    /// taken as they stand.
    pub fn from_parts(name: String, target: String) -> (m: Mapping)
        ensures
            m@ == (MappingView { name: name@, target: target@ }),
    {
        Mapping { name, target }
    }

    /// Where the link stands.
    pub fn name(&self) -> (s: &str)
        ensures
            s@ == self@.name,
    {
        self.name.as_str()
    }

    /// Where the link stands; another word for [`Mapping::name`].
    pub fn destination(&self) -> (s: &str)
        ensures
            s@ == self@.name,
    {
        self.name()
    }

    /// What the link points to.
    pub fn target(&self) -> (s: &str)
        ensures
            s@ == self@.target,
    {
        self.target.as_str()
    }

    /// Whether two mappings have the same name.
    pub fn same_name(&self, other: &Mapping) -> (b: bool)
        ensures
            b == (self@.name == other@.name),
    {
        self.name == other.name
    }

    /// Whether two mappings have the same name and the same target.
    pub fn same(&self, other: &Mapping) -> (b: bool)
        ensures
            b == (self@ == other@),
    {
        self.name == other.name && self.target == other.target
    }
}

/// `path` with the first occurrence of the home directory in it written
/// as `~`. A path that does not hold the home directory, and any path when
/// no home directory is known, stays as it is.
pub open spec fn prettied(path: Seq<char>, home: Option<Seq<char>>) -> Seq<char> {
    match home {
        Some(h) if first_at(path, h, 0) <= path.len() => {
            let at = first_at(path, h, 0);
            path.take(at).push('~') + path.skip(at + h.len())
        },
        _ => path,
    }
}

/// Writes `path` for a reader, with `~` for the home directory.
pub fn pretty_path(path: &str, home: Option<&str>) -> (r: String)
    ensures
        r@ == prettied(path@, home.deep_view()),
{
    let Some(home) = home else {
        return path.to_owned();
    };
    let text = chars_of(path);
    let word = chars_of(home);
    match find_from(&text, &word, 0) {
        None => path.to_owned(),
        Some(at) => {
            proof {
                lemma_first_at(text@, word@, 0);
            }
            let mut r = text_of(&text, 0, at);
            r.push('~');
            let mut i: usize = at + word.len();
            assert(text@.subrange(0, at as int) =~= text@.take(at as int));
            assert(text@.subrange(at + word.len(), at + word.len()) =~= Seq::empty());
            while i < text.len()
                invariant
                    at + word.len() <= i <= text.len(),
                    r@ == text@.take(at as int).push('~') + text@.subrange(
                        at + word.len(),
                        i as int,
                    ),
                decreases text.len() - i,
            {
                r.push(text[i]);
                assert(text@.subrange(at + word.len(), i + 1) =~= text@.subrange(
                    at + word.len(),
                    i as int,
                ).push(text@[i as int]));
                i += 1;
            }
            assert(text@.subrange(at + word.len(), text.len() as int) =~= text@.skip(
                at + word.len(),
            ));
            r
        },
    }
}

/// A mapping written for a reader: `[name -> target]`, with `~` for the
/// home directory in both paths.
pub open spec fn described(m: MappingView, home: Option<Seq<char>>) -> Seq<char> {
    seq!['['] + prettied(m.name, home) + seq![' ', '-', '>', ' '] + prettied(m.target, home)
        + seq![']']
}

impl Mapping {
    /// Writes the mapping for a reader.
    pub fn to_text(&self, home: Option<&str>) -> (r: String)
        ensures
            r@ == described(self@, home.deep_view()),
    {
        let mut r = String::new();
        r.push('[');
        r.append(pretty_path(self.name(), home).as_str());
        r.push(' ');
        r.push('-');
        r.push('>');
        r.push(' ');
        r.append(pretty_path(self.target(), home).as_str());
        r.push(']');
        assert(r@ =~= described(self@, home.deep_view()));
        r
    }
}

} // verus!
