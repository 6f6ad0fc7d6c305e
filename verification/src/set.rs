//! A set of mappings in which a name stands once: a mapping that comes
//! with the name of a member takes that member's place.

use crate::cache::holds;
use crate::{Mapping, MappingView};
use vstd::prelude::*;

verus! {

/// The test that picks the mappings whose name is not `name`.
pub open spec fn not_named(name: Seq<char>) -> spec_fn(MappingView) -> bool {
    |x: MappingView| x.name != name
}

/// No two mappings of `s` have the same name.
pub open spec fn distinct_names(s: Seq<MappingView>) -> bool {
    forall|i: int, j: int| 0 <= i < j < s.len() ==> (#[trigger] s[i]).name != (#[trigger] s[j]).name
}

/// Some mapping of `s` has the name `name`.
pub open spec fn has_name(s: Seq<MappingView>, name: Seq<char>) -> bool {
    exists|i: int| 0 <= i < s.len() && (#[trigger] s[i]).name == name
}

/// `x` is the last mapping of `items` with its name.
pub open spec fn wins_in(items: Seq<MappingView>, x: MappingView) -> bool {
    exists|i: int|
        0 <= i < items.len() && (#[trigger] items[i]) == x && !has_name(
            items.skip(i + 1),
            x.name,
        )
}

/// `s` with `m` added: `m` stands at the end, and a mapping that had the
/// name of `m` is gone.
pub open spec fn with_member(s: Seq<MappingView>, m: MappingView) -> Seq<MappingView> {
    s.filter(not_named(m.name)).push(m)
}

/// `s` with each of `items` added in turn.
pub open spec fn with_members(s: Seq<MappingView>, items: Seq<MappingView>) -> Seq<
    MappingView,
>
    decreases items.len(),
{
    if items.len() == 0 {
        s
    } else {
        with_member(with_members(s, items.drop_last()), items.last())
    }
}

/// Mappings with distinct names are distinct.
pub proof fn lemma_distinct_names_no_duplicates(s: Seq<MappingView>)
    requires
        distinct_names(s),
    ensures
        s.no_duplicates(),
{
    assert forall|i: int, j: int| 0 <= i < s.len() && 0 <= j < s.len() && i != j implies s[i]
        != s[j] by {
        if i < j {
            assert(s[i].name != s[j].name);
        } else {
            assert(s[j].name != s[i].name);
        }
    }
}

/// Picking from mappings with distinct names leaves distinct names.
proof fn lemma_filter_keeps_distinct(s: Seq<MappingView>, test: spec_fn(MappingView) -> bool)
    requires
        distinct_names(s),
    ensures
        distinct_names(s.filter(test)),
    decreases s.len(),
{
    reveal(Seq::filter);
    if s.len() > 0 {
        let rest = s.drop_last();
        let picked = rest.filter(test);
        lemma_filter_keeps_distinct(rest, test);
        if test(s.last()) {
            let all = picked.push(s.last());
            assert forall|i: int, j: int| 0 <= i < j < all.len() implies (#[trigger] all[i]).name
                != (#[trigger] all[j]).name by {
                if j < picked.len() {
                    assert(picked[i].name != picked[j].name);
                } else {
                    assert(picked.contains(picked[i]));
                    rest.lemma_filter_contains_rev(test, picked[i]);
                    let k = choose|k: int| 0 <= k < rest.len() && rest[k] == picked[i];
                    assert(s[k].name != s[s.len() - 1].name);
                }
            }
        }
    }
}

/// Adding a member keeps the names distinct; the new member is in, and of
/// the old ones exactly those with another name.
pub proof fn lemma_with_member(s: Seq<MappingView>, m: MappingView)
    requires
        distinct_names(s),
    ensures
        distinct_names(with_member(s, m)),
        forall|x: MappingView|
            with_member(s, m).contains(x) <==> (x == m || (s.contains(x) && x.name != m.name)),
{
    broadcast use vstd::seq_lib::group_filter_ensures;

    let test = not_named(m.name);
    let others = s.filter(test);
    let r = with_member(s, m);
    lemma_filter_keeps_distinct(s, test);
    assert forall|i: int, j: int| 0 <= i < j < r.len() implies (#[trigger] r[i]).name != (
    #[trigger] r[j]).name by {
        if j < others.len() {
            assert(others[i].name != others[j].name);
        } else {
            s.lemma_filter_pred(test, i);
        }
    }
    assert forall|x: MappingView|
        r.contains(x) <==> (x == m || (s.contains(x) && x.name != m.name)) by {
        assert(r[others.len() as int] == m);
        if s.contains(x) && x.name != m.name {
            let i = choose|i: int| 0 <= i < s.len() && s[i] == x;
            s.lemma_filter_contains(test, i);
            let k = choose|k: int| 0 <= k < others.len() && others[k] == x;
            assert(r[k] == x);
        }
        if r.contains(x) && x != m {
            let k = choose|k: int| 0 <= k < r.len() && r[k] == x;
            assert(others[k] == x);
            s.lemma_filter_pred(test, k);
            assert(others.contains(x));
            s.lemma_filter_contains_rev(test, x);
        }
    }
}

/// A name is among `s` with `m` at its end if it is among `s` or is the
/// name of `m`.
proof fn lemma_has_name_push(s: Seq<MappingView>, m: MappingView, name: Seq<char>)
    ensures
        has_name(s.push(m), name) <==> (has_name(s, name) || m.name == name),
{
    let all = s.push(m);
    if has_name(s, name) {
        let i = choose|i: int| 0 <= i < s.len() && (#[trigger] s[i]).name == name;
        assert(all[i].name == name);
    }
    if m.name == name {
        assert(all[s.len() as int].name == name);
    }
    if has_name(all, name) {
        let i = choose|i: int| 0 <= i < all.len() && (#[trigger] all[i]).name == name;
        if i < s.len() {
            assert(s[i].name == name);
        }
    }
}

/// The last with its name in `s` with `m` at its end is `m`, and whatever
/// was the last with its name in `s` and has another name than `m`.
proof fn lemma_wins_push(s: Seq<MappingView>, m: MappingView, x: MappingView)
    ensures
        wins_in(s.push(m), x) <==> (x == m || (wins_in(s, x) && x.name != m.name)),
{
    let all = s.push(m);
    let n = s.len() as int;
    assert(all.skip(n + 1) =~= Seq::empty());
    if x == m {
        assert(all[n] == x);
        assert(!has_name(all.skip(n + 1), x.name));
    }
    if wins_in(s, x) && x.name != m.name {
        let i = choose|i: int|
            0 <= i < s.len() && (#[trigger] s[i]) == x && !has_name(s.skip(i + 1), x.name);
        assert(all.skip(i + 1) =~= s.skip(i + 1).push(m));
        lemma_has_name_push(s.skip(i + 1), m, x.name);
        assert(all[i] == x);
    }
    if wins_in(all, x) && x != m {
        let i = choose|i: int|
            0 <= i < all.len() && (#[trigger] all[i]) == x && !has_name(all.skip(i + 1), x.name);
        assert(i < n);
        assert(all.skip(i + 1) =~= s.skip(i + 1).push(m));
        lemma_has_name_push(s.skip(i + 1), m, x.name);
        assert(s[i] == x);
    }
}

/// Adding members keeps the names distinct, and the later of two with one
/// name wins: what is in afterwards is the last of the added mappings
/// with each name, and of the old members those whose name was not added.
pub proof fn lemma_with_members(s: Seq<MappingView>, items: Seq<MappingView>)
    requires
        distinct_names(s),
    ensures
        distinct_names(with_members(s, items)),
        forall|x: MappingView|
            with_members(s, items).contains(x) <==> (wins_in(items, x) || (s.contains(x)
                && !has_name(items, x.name))),
    decreases items.len(),
{
    if items.len() == 0 {
        assert forall|x: MappingView| !wins_in(items, x) && !has_name(items, x.name) by {}
    } else {
        let before = items.drop_last();
        let last = items.last();
        let sofar = with_members(s, before);
        lemma_with_members(s, before);
        lemma_with_member(sofar, last);
        assert(items =~= before.push(last));
        assert forall|x: MappingView|
            with_members(s, items).contains(x) <==> (wins_in(items, x) || (s.contains(x)
                && !has_name(items, x.name))) by {
            lemma_wins_push(before, last, x);
            lemma_has_name_push(before, last, x.name);
            assert(with_members(s, items) == with_member(sofar, last));
            assert(with_member(sofar, last).contains(x) <==> (x == last || (sofar.contains(x)
                && x.name != last.name)));
            assert(sofar.contains(x) <==> (wins_in(before, x) || (s.contains(x) && !has_name(
                before,
                x.name,
            ))));
        }
    }
}

/// Adding two lists in turn is adding the one list that they make.
pub proof fn lemma_with_members_add(s: Seq<MappingView>, a: Seq<MappingView>, b: Seq<MappingView>)
    ensures
        with_members(with_members(s, a), b) == with_members(s, a + b),
    decreases b.len(),
{
    if b.len() == 0 {
        assert(a + b =~= a);
    } else {
        lemma_with_members_add(s, a, b.drop_last());
        assert((a + b).drop_last() =~= a + b.drop_last());
        assert((a + b).last() == b.last());
    }
}

/// Mappings of which no two have the same name, in the order in which the
/// present members came.
pub struct MappingSet {
    items: Vec<Mapping>,
}

impl View for MappingSet {
    type V = Seq<MappingView>;

    closed spec fn view(&self) -> Seq<MappingView> {
        self.items.deep_view()
    }
}

impl MappingSet {
    #[verifier::type_invariant]
    spec fn inv(self) -> bool {
        distinct_names(self.items.deep_view())
    }

    /// The empty set.
    pub fn new() -> (set: MappingSet)
        ensures
            set@ == Seq::<MappingView>::empty(),
    {
        let items: Vec<Mapping> = Vec::new();
        assert(items.deep_view() =~= Seq::empty());
        MappingSet { items }
    }

    /// The set with `mapping` added. A member with the name of `mapping`
    /// gives way to it.
    pub fn insert(self, mapping: Mapping) -> (set: MappingSet)
        ensures
            set@ == with_member(self@, mapping@),
            distinct_names(set@),
    {
        proof {
            use_type_invariant(&self);
            lemma_with_member(self@, mapping@);
        }
        let ghost all = self@;
        let ghost test = not_named(mapping@.name);
        let mut items: Vec<Mapping> = Vec::new();
        let mut i: usize = 0;
        assert(all.take(0).filter(test) =~= Seq::empty()) by {
            reveal(Seq::filter);
        }
        assert(items.deep_view() =~= Seq::empty());
        while i < self.items.len()
            invariant
                i <= self.items.len(),
                all == self.items.deep_view(),
                test == not_named(mapping@.name),
                items.deep_view() == all.take(i as int).filter(test),
            decreases self.items.len() - i,
        {
            let ghost seen = all.take(i as int);
            let ghost more = all.take(i + 1);
            assert(more =~= seen.push(all[i as int]));
            proof {
                seen.lemma_filter_push(all[i as int], test);
            }
            if !self.items[i].same_name(&mapping) {
                let ghost before = items.deep_view();
                items.push(self.items[i].clone());
                assert(items.deep_view() =~= before.push(all[i as int]));
            }
            i += 1;
        }
        assert(all.take(self.items.len() as int) =~= all);
        let ghost others = items.deep_view();
        items.push(mapping);
        assert(items.deep_view() =~= others.push(mapping@));
        MappingSet { items }
    }

    /// Whether `mapping` is a member.
    pub fn contains(&self, mapping: &Mapping) -> (b: bool)
        ensures
            b == self@.contains(mapping@),
    {
        holds(&self.items, mapping)
    }

    /// The number of members.
    pub fn len(&self) -> (n: usize)
        ensures
            n == self@.len(),
    {
        self.items.len()
    }

    /// The members, in the order in which they came; no two have the same
    /// name.
    pub fn mappings(&self) -> (s: &[Mapping])
        ensures
            s.deep_view() == self@,
            distinct_names(self@),
    {
        proof {
            use_type_invariant(self);
        }
        self.items.as_slice()
    }

    /// Gives the members up, in the order in which they came; no two have
    /// the same name.
    pub fn into_mappings(self) -> (v: Vec<Mapping>)
        ensures
            v.deep_view() == self@,
            distinct_names(self@),
    {
        proof {
            use_type_invariant(&self);
        }
        self.items
    }
}

} // verus!
