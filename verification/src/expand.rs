//! Expansion: from what the user declared to the links to make.
//!
//! A mapping whose target is a regular file is taken as it is. A mapping
//! whose target is a directory stands for one mapping per regular file
//! below it. A mapping whose target is anything else, or missing, is
//! dropped. The result is a set with one mapping for each name: of two
//! with the same name the later stays.

use crate::set::{
    distinct_names, lemma_with_members, lemma_with_members_add, wins_in, with_member,
    with_members, MappingSet,
};
use crate::text::{chars_of, matches_at};
use crate::{Mapping, MappingView};
use vstd::prelude::*;

verus! {

/// What was found at the target of a declared mapping.
pub enum TargetKind {
    /// Nothing.
    Missing,
    /// A regular file.
    File,
    /// A directory; the paths of the regular files anywhere below it.
    Directory(Vec<String>),
    /// Something else.
    Other,
}

/// A [`TargetKind`] as plain text.
pub ghost enum TargetKindView {
    Missing,
    File,
    Directory(Seq<Seq<char>>),
    Other,
}

impl View for TargetKind {
    type V = TargetKindView;

    open spec fn view(&self) -> TargetKindView {
        match self {
            TargetKind::Missing => TargetKindView::Missing,
            TargetKind::File => TargetKindView::File,
            TargetKind::Directory(files) => TargetKindView::Directory(files.deep_view()),
            TargetKind::Other => TargetKindView::Other,
        }
    }
}

/// A declared mapping together with what was found at its target.
pub struct Declared {
    pub mapping: Mapping,
    pub found: TargetKind,
}

/// A [`Declared`] as plain text.
pub ghost struct DeclaredView {
    pub mapping: MappingView,
    pub found: TargetKindView,
}

impl View for Declared {
    type V = DeclaredView;

    open spec fn view(&self) -> DeclaredView {
        DeclaredView { mapping: self.mapping@, found: self.found@ }
    }
}

impl DeepView for Declared {
    type V = DeclaredView;

    open spec fn deep_view(&self) -> DeclaredView {
        self@
    }
}

/// The mapping for one file below the directory that `base` points to:
/// the file is the target, and the name is the file's path with the
/// directory's path at its front replaced by the name of `base`. A path
/// that does not begin with the directory's path gives none.
pub open spec fn derived(base: MappingView, file: Seq<char>) -> Option<MappingView> {
    if base.target.is_prefix_of(file) {
        Some(
            MappingView {
                name: base.name + file.skip(base.target.len() as int),
                target: file,
            },
        )
    } else {
        None
    }
}

/// [`derived`] with `base` fixed.
pub open spec fn derive_from(base: MappingView) -> spec_fn(Seq<char>) -> Option<MappingView> {
    |file: Seq<char>| derived(base, file)
}

/// The mappings that one declaration stands for: itself where its target
/// is a file, one per file where it is a directory, none otherwise.
pub open spec fn expansion_of(d: DeclaredView) -> Seq<MappingView> {
    match d.found {
        TargetKindView::File => seq![d.mapping],
        TargetKindView::Directory(files) => files.filter_map(derive_from(d.mapping)),
        _ => Seq::empty(),
    }
}

/// All the mappings that the declarations stand for, in the order of the
/// declarations, repeats and all.
pub open spec fn listed(declared: Seq<DeclaredView>) -> Seq<MappingView>
    decreases declared.len(),
{
    if declared.len() == 0 {
        Seq::empty()
    } else {
        listed(declared.drop_last()) + expansion_of(declared.last())
    }
}

/// The set of mappings that the declarations stand for. Where two of them
/// have the same name, the later takes the place of the earlier.
pub open spec fn expanded(declared: Seq<DeclaredView>) -> Seq<MappingView>
    decreases declared.len(),
{
    if declared.len() == 0 {
        Seq::empty()
    } else {
        with_members(expanded(declared.drop_last()), expansion_of(declared.last()))
    }
}

/// Expansion completeness. A file that lies `suffix` below the target of
/// a mapping is linked from the path that lies `suffix` below its name.
pub proof fn lemma_derived_joins_suffix(base: MappingView, suffix: Seq<char>)
    ensures
        derived(base, base.target + suffix) == Some(
            MappingView { name: base.name + suffix, target: base.target + suffix },
        ),
{
    let file = base.target + suffix;
    assert(base.target.is_prefix_of(file));
    assert(file.skip(base.target.len() as int) =~= suffix);
}

/// An expansion is what is left of the listed mappings when each is
/// added in turn.
pub proof fn lemma_expanded_from_listed(declared: Seq<DeclaredView>)
    ensures
        expanded(declared) == with_members(Seq::empty(), listed(declared)),
    decreases declared.len(),
{
    if declared.len() > 0 {
        lemma_expanded_from_listed(declared.drop_last());
        lemma_with_members_add(
            Seq::empty(),
            listed(declared.drop_last()),
            expansion_of(declared.last()),
        );
    }
}

/// An expansion is a set in which the later of two mappings with one name
/// wins: no two of its members have the same name, and it holds exactly
/// those of the listed mappings that no later one shares its name with.
pub proof fn lemma_expanded_last_wins(declared: Seq<DeclaredView>)
    ensures
        distinct_names(expanded(declared)),
        forall|m: MappingView| expanded(declared).contains(m) <==> wins_in(listed(declared), m),
{
    lemma_expanded_from_listed(declared);
    lemma_with_members(Seq::empty(), listed(declared));
}

/// The mapping for `file` below the directory that `base` points to.
pub fn derive_mapping(base: &Mapping, file: &str) -> (r: Option<Mapping>)
    ensures
        r.deep_view() == derived(base@, file@),
{
    let path = chars_of(file);
    let front = chars_of(base.target());
    if !matches_at(&path, &front, 0) {
        assert(!base@.target.is_prefix_of(file@)) by {
            if base@.target.is_prefix_of(file@) {
                assert(file@.subrange(0, base@.target.len() as int) =~= base@.target);
            }
        }
        return None;
    }
    assert(base@.target.is_prefix_of(file@)) by {
        assert(file@.subrange(0, base@.target.len() as int) == base@.target);
    }
    let mut name = base.name().to_owned();
    let mut i: usize = front.len();
    while i < path.len()
        invariant
            front.len() <= i <= path.len(),
            name@ == base@.name + path@.subrange(front.len() as int, i as int),
        decreases path.len() - i,
    {
        name.push(path[i]);
        assert(base@.name + path@.subrange(front.len() as int, i + 1) =~= (base@.name
            + path@.subrange(front.len() as int, i as int)).push(path@[i as int]));
        i += 1;
    }
    assert(path@.subrange(front.len() as int, path.len() as int) =~= file@.skip(
        base@.target.len() as int,
    ));
    Some(Mapping::from_parts(name, file.to_owned()))
}

/// Expands declarations into the set of mappings to link.
pub fn expand_mappings(declared: &Vec<Declared>) -> (set: MappingSet)
    ensures
        set@ == expanded(declared.deep_view()),
        distinct_names(set@),
{
    let mut set = MappingSet::new();
    let mut i: usize = 0;
    while i < declared.len()
        invariant
            i <= declared.len(),
            set@ == expanded(declared.deep_view().take(i as int)),
        decreases declared.len() - i,
    {
        let ghost done = declared.deep_view().take(i as int);
        let ghost next = declared.deep_view().take(i + 1);
        let d = &declared[i];
        assert(next.drop_last() =~= done);
        assert(next.last() == d@);
        match &d.found {
            TargetKind::File => {
                set = set.insert(d.mapping.clone());
                assert(seq![d@.mapping].drop_last() =~= Seq::<MappingView>::empty());
                assert(with_members(expanded(done), seq![d@.mapping]) == with_member(
                    with_members(expanded(done), Seq::<MappingView>::empty()),
                    d@.mapping,
                ));
            },
            TargetKind::Directory(files) => {
                let ghost f = derive_from(d@.mapping);
                let mut j: usize = 0;
                while j < files.len()
                    invariant
                        j <= files.len(),
                        f == derive_from(d@.mapping),
                        set@ == with_members(
                            expanded(done),
                            files.deep_view().take(j as int).filter_map(f),
                        ),
                    decreases files.len() - j,
                {
                    let ghost seen = files.deep_view().take(j as int);
                    let ghost more = files.deep_view().take(j + 1);
                    assert(more.drop_last() =~= seen);
                    assert(more.last() == files[j as int]@);
                    match derive_mapping(&d.mapping, files[j].as_str()) {
                        Some(m) => {
                            assert(more.filter_map(f) == seen.filter_map(f) + seq![m@]);
                            assert((seen.filter_map(f) + seq![m@]).drop_last() =~= seen.filter_map(
                                f,
                            ));
                            set = set.insert(m);
                        },
                        None => {
                            assert(more.filter_map(f) == seen.filter_map(f));
                        },
                    }
                    j += 1;
                }
                assert(files.deep_view().take(files.len() as int) =~= files.deep_view());
            },
            _ => {},
        }
        i += 1;
    }
    assert(declared.deep_view().take(declared.len() as int) =~= declared.deep_view());
    proof {
        lemma_expanded_last_wins(declared.deep_view());
    }
    set
}

} // verus!
