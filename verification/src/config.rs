//! The declarations that a user writes: one `name -> target` on each line.

use crate::path::{PathContext, PathContextView};
use crate::path::{lemma_parent_is_shorter, parent_dir, parent_of};
use crate::text::{
    chars_of, decimal, find_from, first_at, lemma_first_at, push_decimal, slice_of, text_of, trim,
    trimmed,
};
use crate::{resolved_mapping, Mapping, MappingView};
use vstd::prelude::*;

verus! {

/// The declared mappings, in the order in which they were written.
#[derive(Debug, PartialEq)]
pub struct Config {
    mappings: Vec<Mapping>,
}

impl View for Config {
    type V = Seq<MappingView>;

    closed spec fn view(&self) -> Seq<MappingView> {
        self.mappings.deep_view()
    }
}

impl Config {
    /// The declared mappings.
    pub fn mappings(&self) -> (v: &Vec<Mapping>)
        ensures
            v.deep_view() == self@,
    {
        &self.mappings
    }
}

/// A line that declares no mapping. Lines are counted from one, and only
/// those that are not empty count.
#[derive(Debug, PartialEq)]
pub struct ConfigFormatError {
    line_nr: usize,
    line: String,
}

/// A [`ConfigFormatError`] as plain values.
pub ghost struct ConfigFormatErrorView {
    pub line_nr: nat,
    pub line: Seq<char>,
}

impl View for ConfigFormatError {
    type V = ConfigFormatErrorView;

    closed spec fn view(&self) -> ConfigFormatErrorView {
        ConfigFormatErrorView { line_nr: self.line_nr as nat, line: self.line@ }
    }
}

impl ConfigFormatError {
    /// The error for `line`, which is number `line_nr` among the lines
    /// that are not empty.
    pub fn new(line: &str, line_nr: usize) -> (e: ConfigFormatError)
        ensures
            e@ == (ConfigFormatErrorView { line_nr: line_nr as nat, line: line@ }),
    {
        ConfigFormatError { line: line.to_owned(), line_nr }
    }

    /// The number of the line, counted among the lines that are not empty.
    pub fn line_nr(&self) -> (n: usize)
        ensures
            n == self@.line_nr,
    {
        self.line_nr
    }

    /// The text of the line.
    pub fn line(&self) -> (s: &str)
        ensures
            s@ == self@.line,
    {
        self.line.as_str()
    }

    /// The error in words.
    pub fn message(&self) -> (s: String)
        ensures
            s@ == "Config format error on line "@ + decimal(self@.line_nr) + ": "@ + self@.line,
    {
        let mut s = "Config format error on line ".to_owned();
        push_decimal(&mut s, self.line_nr);
        s.append(": ");
        s.append(self.line.as_str());
        s
    }
}

/// The line feed, which ends a line.
pub open spec fn newline() -> Seq<char> {
    seq!['\n']
}

/// The sign that parts a name from its target.
pub open spec fn arrow() -> Seq<char> {
    seq!['-', '>']
}

/// `line` without the carriage return at its end, if it has one.
pub open spec fn chomped(line: Seq<char>) -> Seq<char> {
    if line.len() > 0 && line.last() == '\r' {
        line.drop_last()
    } else {
        line
    }
}

/// The lines of `text` from position `from` on. A line ends with a line
/// feed, or with a carriage return and a line feed, neither of which
/// belongs to it; what follows the last line feed is a line too, unless it
/// is empty.
pub open spec fn lines_from(text: Seq<char>, from: int) -> Seq<Seq<char>>
    decreases text.len() - from,
{
    if from < 0 || from >= text.len() {
        Seq::empty()
    } else {
        let end = first_at(text, newline(), from);
        if end >= text.len() {
            seq![text.subrange(from, text.len() as int)]
        } else {
            proof {
                lemma_first_at(text, newline(), from);
            }
            seq![chomped(text.subrange(from, end))] + lines_from(text, end + 1)
        }
    }
}

/// The lines of `text`.
pub open spec fn lines_of(text: Seq<char>) -> Seq<Seq<char>> {
    lines_from(text, 0)
}

/// The test that picks the lines that are not empty.
pub open spec fn filled() -> spec_fn(Seq<char>) -> bool {
    |line: Seq<char>| line.len() > 0
}

/// The name and the target that `line` declares: the texts before and
/// after its arrow, without the white space around them. A line without
/// an arrow, or with more than one, declares nothing.
pub open spec fn declared_in(line: Seq<char>) -> Option<(Seq<char>, Seq<char>)> {
    let at = first_at(line, arrow(), 0);
    if at > line.len() || first_at(line, arrow(), at + 2) <= line.len() {
        None
    } else {
        Some((trimmed(line.take(at)), trimmed(line.skip(at + 2))))
    }
}

/// The mapping that `line` declares in `ctx`.
pub open spec fn mapping_in(line: Seq<char>, ctx: PathContextView) -> Option<MappingView> {
    match declared_in(line) {
        Some((name, target)) => Some(resolved_mapping(name, target, ctx)),
        None => None,
    }
}

/// The mappings that `lines` declare, or the first line that declares
/// none, with its place among them.
pub open spec fn declarations(lines: Seq<Seq<char>>, ctx: PathContextView) -> Result<
    Seq<MappingView>,
    ConfigFormatErrorView,
>
    decreases lines.len(),
{
    if lines.len() == 0 {
        Ok(Seq::empty())
    } else {
        match declarations(lines.drop_last(), ctx) {
            Err(e) => Err(e),
            Ok(found) => match mapping_in(lines.last(), ctx) {
                Some(m) => Ok(found.push(m)),
                None => Err(ConfigFormatErrorView { line_nr: lines.len(), line: lines.last() }),
            },
        }
    }
}

/// What a configuration text declares in `ctx`: the mappings of its lines
/// that are not empty.
pub open spec fn parsed(text: Seq<char>, ctx: PathContextView) -> Result<
    Seq<MappingView>,
    ConfigFormatErrorView,
> {
    declarations(lines_of(text).filter(filled()), ctx)
}

/// The lines of `content` that are not empty, in order.
pub fn filled_lines(content: &str) -> (lines: Vec<String>)
    ensures
        lines.deep_view() == lines_of(content@).filter(filled()),
{
    let text = chars_of(content);
    let feed = vec!['\n'];
    assert(feed@ =~= newline());
    let mut lines: Vec<String> = Vec::new();
    let mut from: usize = 0;
    let ghost mut read: Seq<Seq<char>> = Seq::empty();
    assert(read.filter(filled()) =~= Seq::empty()) by {
        reveal(Seq::filter);
    }
    assert(lines.deep_view() =~= Seq::empty());
    while from < text.len()
        invariant
            from <= text.len(),
            text@ == content@,
            feed@ == newline(),
            read + lines_from(text@, from as int) == lines_of(text@),
            lines.deep_view() == read.filter(filled()),
        decreases text.len() - from,
    {
        proof {
            lemma_first_at(text@, newline(), from as int);
        }
        let (end, next) = match find_from(&text, &feed, from) {
            Some(at) if at < text.len() => {
                let end = if at > from && text[at - 1] == '\r' {
                    at - 1
                } else {
                    at
                };
                (end, at + 1)
            },
            _ => (text.len(), text.len()),
        };
        let ghost line = text@.subrange(from as int, end as int);
        proof {
            let at = first_at(text@, newline(), from as int);
            if at < text.len() {
                let whole = text@.subrange(from as int, at);
                assert(whole.len() > 0 ==> whole.last() == text@[at - 1]);
                assert(chomped(whole) =~= line);
            } else {
                assert(lines_from(text@, text.len() as int) =~= Seq::empty());
            }
            assert(lines_from(text@, from as int) =~= seq![line] + lines_from(text@, next as int));
            assert(read.push(line) + lines_from(text@, next as int) =~= read + lines_from(
                text@,
                from as int,
            ));
            read.lemma_filter_push(line, filled());
            read = read.push(line);
        }
        if end > from {
            let ghost before = lines.deep_view();
            lines.push(text_of(&text, from, end));
            assert(lines.deep_view() =~= before.push(line));
        }
        from = next;
    }
    assert(read =~= lines_of(text@));
    lines
}

/// The name and the target that `line` declares.
pub fn split_line(line: &str) -> (r: Option<(String, String)>)
    ensures
        match r {
            Some((name, target)) => declared_in(line@) == Some((name@, target@)),
            None => declared_in(line@) is None,
        },
{
    let text = chars_of(line);
    let sign = vec!['-', '>'];
    assert(sign@ =~= arrow());
    match find_from(&text, &sign, 0) {
        None => None,
        Some(at) => {
            proof {
                lemma_first_at(text@, arrow(), 0);
            }
            if find_from(&text, &sign, at + 2).is_some() {
                return None;
            }
            let name = slice_of(&text, 0, at);
            let target = slice_of(&text, at + 2, text.len());
            assert(text@.subrange(0, at as int) =~= text@.take(at as int));
            assert(text@.subrange(at + 2, text.len() as int) =~= text@.skip(at + 2));
            Some((trim(&name), trim(&target)))
        },
    }
}

impl Config {
    /// Reads the declarations in `content` and resolves their paths in
    /// `ctx`. Empty lines are passed over. The first line that has not
    /// exactly one arrow is reported.
    pub fn build(content: &str, ctx: &PathContext) -> (r: Result<Config, ConfigFormatError>)
        ensures
            match r {
                Ok(config) => parsed(content@, ctx@) == Ok::<_, ConfigFormatErrorView>(config@),
                Err(e) => parsed(content@, ctx@) == Err::<Seq<MappingView>, _>(e@),
            },
    {
        let lines = filled_lines(content);
        let ghost all = lines.deep_view();
        let mut mappings: Vec<Mapping> = Vec::new();
        let mut i: usize = 0;
        assert(mappings.deep_view() =~= Seq::empty());
        assert(all.take(0) =~= Seq::empty());
        while i < lines.len()
            invariant
                i <= lines.len(),
                all == lines.deep_view(),
                all == lines_of(content@).filter(filled()),
                declarations(all.take(i as int), ctx@) == Ok::<_, ConfigFormatErrorView>(
                    mappings.deep_view(),
                ),
            decreases lines.len() - i,
        {
            let line = lines[i].as_str();
            let ghost read = all.take(i + 1);
            assert(read.drop_last() =~= all.take(i as int));
            assert(read.last() == line@);
            let made = match split_line(line) {
                Some((name, target)) => Some(Mapping::new(name.as_str(), target.as_str(), ctx)),
                None => None,
            };
            assert(made.deep_view() == mapping_in(line@, ctx@));
            match made {
                Some(m) => {
                    let ghost found = mappings.deep_view();
                    mappings.push(m);
                    assert(mappings.deep_view() =~= found.push(m@));
                },
                None => {
                    let e = ConfigFormatError::new(line, i + 1);
                    proof {
                        assert(declarations(read, ctx@) == Err::<Seq<MappingView>, _>(e@));
                        assert(read.is_prefix_of(all));
                        lemma_prefix_error(read, all, ctx@);
                    }
                    return Err(e);
                },
            }
            i += 1;
        }
        assert(all.take(lines.len() as int) =~= all);
        Ok(Config { mappings })
    }
}

/// A line that declares nothing is reported whatever lines follow it.
proof fn lemma_prefix_error(
    head: Seq<Seq<char>>,
    all: Seq<Seq<char>>,
    ctx: PathContextView,
)
    requires
        head.is_prefix_of(all),
        declarations(head, ctx) is Err,
    ensures
        declarations(all, ctx) == declarations(head, ctx),
    decreases all.len(),
{
    if all.len() > head.len() {
        assert(head.is_prefix_of(all.drop_last()));
        lemma_prefix_error(head, all.drop_last(), ctx);
    } else {
        assert(head =~= all);
    }
}

/// `name` as an entry of the directory `dir`.
pub open spec fn joined(dir: Seq<char>, name: Seq<char>) -> Seq<char> {
    if dir.len() == 0 || dir.last() == '/' {
        dir + name
    } else {
        dir.push('/') + name
    }
}

/// The paths at which the configuration file is looked for from the
/// directory `dir`: the file `.george` in `dir`, then in the directory
/// that holds `dir`, and so on up to the root.
pub open spec fn candidates_from(dir: Seq<char>) -> Seq<Seq<char>>
    decreases dir.len(),
{
    match parent_of(dir) {
        Some(above) => {
            proof {
                lemma_parent_is_shorter(dir);
            }
            seq![joined(dir, ".george"@)] + candidates_from(above)
        },
        None => seq![joined(dir, ".george"@)],
    }
}

/// `name` as an entry of the directory `dir`.
pub fn join(dir: &str, name: &str) -> (r: String)
    ensures
        r@ == joined(dir@, name@),
{
    let chars = chars_of(dir);
    let mut r = dir.to_owned();
    if chars.len() > 0 && chars[chars.len() - 1] != '/' {
        r.push('/');
    }
    r.append(name);
    r
}

/// Lists the paths at which the configuration file is looked for, nearest
/// first, when the working directory is `cwd`.
pub fn candidates(cwd: &str) -> (r: Vec<String>)
    ensures
        r.deep_view() == candidates_from(cwd@),
{
    let mut r: Vec<String> = Vec::new();
    let mut dir = cwd.to_owned();
    assert(r.deep_view() =~= Seq::empty());
    loop
        invariant
            r.deep_view() + candidates_from(dir@) == candidates_from(cwd@),
        decreases dir@.len(),
    {
        let ghost before = r.deep_view();
        let ghost here = dir@;
        r.push(join(dir.as_str(), ".george"));
        assert(r.deep_view() =~= before.push(joined(here, ".george"@)));
        proof {
            lemma_parent_is_shorter(here);
        }
        match parent_dir(dir.as_str()) {
            Some(above) => {
                assert(r.deep_view() + candidates_from(above@) =~= before + candidates_from(here));
                dir = above;
            },
            None => {
                assert(r.deep_view() =~= before + candidates_from(here));
                return r;
            },
        }
    }
}

} // verus!
