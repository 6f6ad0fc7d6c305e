//! The record of the links that earlier runs made.

use crate::{Mapping, MappingView};
use vstd::prelude::*;
use vstd::utf8::encode_utf8;

verus! {

/// The mappings whose links are believed to stand, in the order in which
/// they were recorded.
#[derive(Debug)]
pub struct Cache {
    mappings: Vec<Mapping>,
}

impl View for Cache {
    type V = Seq<MappingView>;

    closed spec fn view(&self) -> Seq<MappingView> {
        self.mappings.deep_view()
    }
}

impl Default for Cache {
    /// The empty cache: what a first run starts from.
    fn default() -> (c: Cache)
        ensures
            c@ == Seq::<MappingView>::empty(),
    {
        Cache { mappings: Vec::new() }
    }
}

impl Cache {
    /// A cache that records `existing`.
    pub fn new(existing: Vec<Mapping>) -> (c: Cache)
        ensures
            c@ == existing.deep_view(),
    {
        Cache { mappings: existing }
    }

    /// Whether the cache records `mapping`.
    pub fn contains(&self, mapping: &Mapping) -> (b: bool)
        ensures
            b == self@.contains(mapping@),
    {
        holds(&self.mappings, mapping)
    }

    /// The recorded mappings.
    pub fn mappings(&self) -> (s: &[Mapping])
        ensures
            s.deep_view() == self@,
    {
        self.mappings.as_slice()
    }

    /// Gives the recorded mappings up.
    pub fn into_mappings(self) -> (v: Vec<Mapping>)
        ensures
            v.deep_view() == self@,
    {
        self.mappings
    }
}

/// Whether `mapping` is among `list`.
pub fn holds(list: &Vec<Mapping>, mapping: &Mapping) -> (b: bool)
    ensures
        b == list.deep_view().contains(mapping@),
{
    let mut i: usize = 0;
    while i < list.len()
        invariant
            i <= list.len(),
            forall|j: int| 0 <= j < i ==> list.deep_view()[j] != mapping@,
        decreases list.len() - i,
    {
        if list[i].same(mapping) {
            assert(list.deep_view()[i as int] == mapping@);
            return true;
        }
        i += 1;
    }
    false
}

/// Why the place of the stored caches is unknown.
#[derive(Debug, PartialEq, Eq, Structural, Clone, Copy)]
pub enum CacheError {
    /// Neither the cache root nor the home directory is known.
    NoHome,
}

/// The directory of the stored caches: `george` below the cache root where
/// one is given, else `.cache/george` below the home directory.
pub open spec fn cache_home_of(root: Option<Seq<char>>, home: Option<Seq<char>>) -> Option<
    Seq<char>,
> {
    match (root, home) {
        (Some(r), _) => Some(r + "/george"@),
        (None, Some(h)) => Some(h + "/.cache/george"@),
        (None, None) => None,
    }
}

/// Finds the directory of the stored caches from the cache root and the
/// home directory, as far as they are known.
pub fn cache_home(root: Option<&str>, home: Option<&str>) -> (r: Result<String, CacheError>)
    ensures
        match r {
            Ok(dir) => cache_home_of(root.deep_view(), home.deep_view()) == Some(dir@),
            Err(e) => cache_home_of(root.deep_view(), home.deep_view()) is None,
        },
{
    match (root, home) {
        (Some(r), _) => Ok(r.to_owned().concat("/george")),
        (None, Some(h)) => Ok(h.to_owned().concat("/.cache/george")),
        (None, None) => Err(CacheError::NoHome),
    }
}

/// Whether `a` sorts before `b`: at the first place where they differ `a`
/// has the smaller byte, or `a` ends there and `b` goes on.
pub open spec fn sorts_before(a: Seq<u8>, b: Seq<u8>) -> bool
    decreases a.len(),
{
    if b.len() == 0 {
        false
    } else if a.len() == 0 {
        true
    } else if a[0] != b[0] {
        a[0] < b[0]
    } else {
        sorts_before(a.skip(1), b.skip(1))
    }
}

/// Nothing sorts before itself.
pub proof fn lemma_sorts_before_irreflexive(a: Seq<u8>)
    ensures
        !sorts_before(a, a),
    decreases a.len(),
{
    if a.len() > 0 {
        lemma_sorts_before_irreflexive(a.skip(1));
    }
}

/// What sorts before something that sorts before `c` sorts before `c`.
pub proof fn lemma_sorts_before_transitive(a: Seq<u8>, b: Seq<u8>, c: Seq<u8>)
    requires
        sorts_before(a, b),
        sorts_before(b, c),
    ensures
        sorts_before(a, c),
    decreases a.len(),
{
    if a.len() > 0 && a[0] == b[0] && b[0] == c[0] {
        lemma_sorts_before_transitive(a.skip(1), b.skip(1), c.skip(1));
    }
}

/// Of two byte strings that differ, one sorts before the other.
pub proof fn lemma_sorts_before_total(a: Seq<u8>, b: Seq<u8>)
    ensures
        sorts_before(a, b) || sorts_before(b, a) || a == b,
    decreases a.len(),
{
    if a.len() > 0 && b.len() > 0 && a[0] == b[0] {
        lemma_sorts_before_total(a.skip(1), b.skip(1));
        if a.skip(1) == b.skip(1) {
            assert(a =~= seq![a[0]] + a.skip(1));
            assert(b =~= seq![b[0]] + b.skip(1));
        }
    } else if a.len() == 0 && b.len() == 0 {
        assert(a =~= b);
    }
}

/// Tests whether `a` sorts before `b`.
pub fn is_before(a: &[u8], b: &[u8]) -> (r: bool)
    ensures
        r == sorts_before(a@, b@),
{
    let mut i: usize = 0;
    assert(a@.skip(0) =~= a@ && b@.skip(0) =~= b@);
    while i < a.len() && i < b.len() && a[i] == b[i]
        invariant
            i <= a.len(),
            i <= b.len(),
            sorts_before(a@, b@) == sorts_before(a@.skip(i as int), b@.skip(i as int)),
        decreases a.len() - i,
    {
        assert(a@.skip(i as int).skip(1) =~= a@.skip(i + 1));
        assert(b@.skip(i as int).skip(1) =~= b@.skip(i + 1));
        i += 1;
    }
    if i == b.len() {
        false
    } else if i == a.len() {
        true
    } else {
        a[i] < b[i]
    }
}

/// Whether `at` is the place of the stored cache to load: no name sorts
/// after the name at `at`, and `at` is the first such place.
pub open spec fn is_latest(names: Seq<Seq<u8>>, at: int) -> bool {
    &&& 0 <= at < names.len()
    &&& forall|j: int| 0 <= j < names.len() ==> !sorts_before(names[at], #[trigger] names[j])
    &&& forall|j: int| 0 <= j < at ==> sorts_before(#[trigger] names[j], names[at])
}

/// The names as the bytes that they are stored and sorted by.
pub open spec fn as_bytes(names: Seq<Seq<char>>) -> Seq<Seq<u8>> {
    Seq::new(names.len(), |i: int| encode_utf8(names[i]))
}

/// Picks the stored cache to load from the names of those that exist:
/// the one whose name sorts last, byte by byte. Names with the time of
/// writing at their front sort in the order of writing.
pub fn latest_snapshot(names: &Vec<String>) -> (r: Option<usize>)
    ensures
        match r {
            Some(at) => is_latest(as_bytes(names.deep_view()), at as int),
            None => names.len() == 0,
        },
{
    if names.len() == 0 {
        return None;
    }
    let ghost all = as_bytes(names.deep_view());
    let mut best: usize = 0;
    let mut i: usize = 1;
    proof {
        lemma_sorts_before_irreflexive(all[0]);
    }
    while i < names.len()
        invariant
            1 <= i <= names.len(),
            best < i,
            all == as_bytes(names.deep_view()),
            forall|j: int| 0 <= j < i ==> !sorts_before(all[best as int], #[trigger] all[j]),
            forall|j: int| 0 <= j < best ==> sorts_before(#[trigger] all[j], all[best as int]),
        decreases names.len() - i,
    {
        let here = names[i].as_str().as_bytes();
        let top = names[best].as_str().as_bytes();
        assert(here@ == all[i as int]);
        assert(top@ == all[best as int]);
        if is_before(top, here) {
            proof {
                lemma_sorts_before_irreflexive(here@);
                assert forall|j: int| 0 <= j < i + 1 implies !sorts_before(
                    all[i as int],
                    #[trigger] all[j],
                ) by {
                    if j < i && sorts_before(all[i as int], all[j]) {
                        lemma_sorts_before_transitive(all[best as int], all[i as int], all[j]);
                    }
                }
                assert forall|j: int| 0 <= j < i implies sorts_before(
                    #[trigger] all[j],
                    all[i as int],
                ) by {
                    lemma_sorts_before_total(all[j], all[best as int]);
                    if sorts_before(all[j], all[best as int]) {
                        lemma_sorts_before_transitive(all[j], all[best as int], all[i as int]);
                    }
                }
            }
            best = i;
        }
        i += 1;
    }
    Some(best)
}

} // verus!
