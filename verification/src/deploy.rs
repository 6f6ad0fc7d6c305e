//! Putting links up.
//!
//! Links that are on record but no longer wanted are taken down first.
//! Then each wanted mapping gets its link, unless the link is on record
//! and still there. A link that cannot be made is left off the record, so
//! that the next run tries again; a path that is taken by something else
//! is never overwritten.

use crate::action::{Action, ActionView, Event, EventView};
use crate::cache::{holds, Cache};
use crate::clean::{
    below, lemma_delete_follows_intact_probe, lemma_drifted_is_kept, lemma_safe_teardown,
    lemma_step_keeps_record, lemma_step_makes_progress, lemma_step_wf, CleanOptions, Cleaner,
    CleanerView,
};
use crate::path::{parent_dir, parent_of};
use crate::set::{lemma_distinct_names_no_duplicates, MappingSet};
use crate::{Mapping, MappingView};
use vstd::prelude::*;

verus! {

/// How links are put up.
#[derive(Debug)]
pub struct DeployOptions {
    rmdir: bool,
}

impl View for DeployOptions {
    type V = bool;

    closed spec fn view(&self) -> bool {
        self.rmdir
    }
}

impl Default for DeployOptions {
    /// Empty directories are left standing.
    fn default() -> (opt: DeployOptions)
        ensures
            opt@ == false,
    {
        DeployOptions { rmdir: false }
    }
}

impl DeployOptions {
    /// `rmdir` says whether directories left empty by the removal of an
    /// unwanted link are removed too.
    pub fn new(rmdir: bool) -> (opt: DeployOptions)
        ensures
            opt@ == rmdir,
    {
        DeployOptions { rmdir }
    }

    /// Whether directories left empty by a removal are removed too.
    pub fn rmdir(&self) -> (b: bool)
        ensures
            b == self@,
    {
        self.rmdir
    }
}

/// The test that picks what `desired` does not hold.
pub open spec fn outside(desired: Seq<MappingView>) -> spec_fn(MappingView) -> bool {
    |m: MappingView| !desired.contains(m)
}

/// The test that picks what `previous` holds.
pub open spec fn among(previous: Seq<MappingView>) -> spec_fn(MappingView) -> bool {
    |m: MappingView| previous.contains(m)
}

/// What a [`Deployer`] is waiting to hear about its current mapping.
pub ghost enum DeployStage {
    /// What stands at its name and whether the directory above is there.
    Survey,
    /// Whether this directory, which is to hold the link, was created.
    MakeDir(Seq<char>),
    /// Whether the link was created.
    Link,
}

/// The state of a deployment run.
pub ghost struct DeployerView {
    /// What was on record when the run began.
    pub previous: Seq<MappingView>,
    /// The mappings to link, none twice.
    pub desired: Seq<MappingView>,
    /// The removal of what is on record but no longer wanted.
    pub cleaner: CleanerView,
    /// How many wanted mappings are settled.
    pub pos: int,
    /// The settled mappings whose links stand.
    pub made: Seq<MappingView>,
    pub stage: DeployStage,
}

impl DeployerView {
    /// The state before anything was asked.
    pub open spec fn start(
        previous: Seq<MappingView>,
        desired: Seq<MappingView>,
        rmdir: bool,
    ) -> DeployerView {
        DeployerView {
            previous,
            desired,
            cleaner: CleanerView::start(previous.filter(outside(desired)), rmdir),
            pos: 0,
            made: Seq::empty(),
            stage: DeployStage::Survey,
        }
    }

    /// What holds of every state of a run: the unwanted mappings are those
    /// on record that are not wanted; no wanted mapping occurs twice; no
    /// wanted mapping is taken in hand before the unwanted ones are
    /// settled; and the links that stand belong to settled mappings.
    pub open spec fn wf(self) -> bool {
        &&& self.cleaner.wf()
        &&& self.cleaner.queue == self.previous.filter(outside(self.desired))
        &&& self.desired.no_duplicates()
        &&& 0 <= self.pos <= self.desired.len()
        &&& !self.cleaner.done() ==> self.pos == 0 && self.made.len() == 0
        &&& !self.cleaner.done() || self.pos == self.desired.len() ==> self.stage is Survey
        &&& forall|i: int|
            0 <= i < self.made.len() ==> self.desired.take(self.pos).contains(
                #[trigger] self.made[i],
            )
    }

    /// Every wanted mapping is settled, and so is every unwanted one.
    pub open spec fn done(self) -> bool {
        self.cleaner.done() && self.pos >= self.desired.len()
    }

    /// The mapping in hand.
    pub open spec fn current(self) -> MappingView {
        self.desired[self.pos]
    }

    /// What the caller is asked to do in this state.
    pub open spec fn action(self) -> ActionView {
        if !self.cleaner.done() {
            self.cleaner.action()
        } else if self.pos >= self.desired.len() {
            ActionView::Done
        } else {
            match self.stage {
                DeployStage::Survey => ActionView::Survey {
                    mapping: self.current(),
                    parent: parent_of(self.current().name),
                },
                DeployStage::MakeDir(dir) => ActionView::CreateDir(dir),
                DeployStage::Link => ActionView::Link(self.current()),
            }
        }
    }

    /// Settles the mapping in hand, with its link standing or not, and
    /// turns to the next.
    pub open spec fn settle(self, standing: bool) -> DeployerView {
        DeployerView {
            pos: self.pos + 1,
            made: if standing {
                self.made.push(self.current())
            } else {
                self.made
            },
            stage: DeployStage::Survey,
            ..self
        }
    }

    /// The state after the caller's answer `event`. An answer that does not
    /// fit the action asked for changes nothing.
    pub open spec fn step(self, event: EventView) -> DeployerView {
        if !self.cleaner.done() {
            DeployerView { cleaner: self.cleaner.step(event), ..self }
        } else if self.pos >= self.desired.len() {
            self
        } else {
            match (self.stage, event) {
                (DeployStage::Survey, EventView::Surveyed { parent_missing, name_exists }) => {
                    match parent_of(self.current().name) {
                        Some(dir) if parent_missing => DeployerView {
                            stage: DeployStage::MakeDir(dir),
                            ..self
                        },
                        _ => if name_exists && self.previous.contains(self.current()) {
                            self.settle(true)
                        } else {
                            DeployerView { stage: DeployStage::Link, ..self }
                        },
                    }
                },
                (DeployStage::MakeDir(_), EventView::DirCreated(ok)) => {
                    if ok {
                        DeployerView { stage: DeployStage::Link, ..self }
                    } else {
                        self.settle(false)
                    }
                },
                (DeployStage::Link, EventView::Linked(ok)) => self.settle(ok),
                _ => self,
            }
        }
    }

    /// The state after the answers `events`, taken in order.
    pub open spec fn run(self, events: Seq<EventView>) -> DeployerView
        decreases events.len(),
    {
        if events.len() == 0 {
            self
        } else {
            self.run(events.drop_last()).step(events.last())
        }
    }

    /// How far the run is from its end: the distance of the removal, then
    /// the wanted mappings not settled, then the stage of the one in hand.
    /// Every answer that is taken up lowers it.
    pub open spec fn distance(self) -> ((int, int, int), int, int) {
        (
            self.cleaner.distance(),
            self.desired.len() - self.pos,
            match self.stage {
                DeployStage::Survey => 2,
                DeployStage::MakeDir(_) => 1,
                DeployStage::Link => 0,
            },
        )
    }

    /// What goes on record if the run ends in this state: the unwanted
    /// mappings that could not be removed or were not reached, the wanted
    /// ones whose links stand, and of the wanted ones not settled yet
    /// those that were on record before.
    pub open spec fn record(self) -> Seq<MappingView> {
        self.cleaner.record() + self.made + self.desired.skip(self.pos).filter(
            among(self.previous),
        )
    }
}

enum Stage {
    Survey,
    MakeDir(String),
    Link,
}

impl View for Stage {
    type V = DeployStage;

    closed spec fn view(&self) -> DeployStage {
        match self {
            Stage::Survey => DeployStage::Survey,
            Stage::MakeDir(dir) => DeployStage::MakeDir(dir@),
            Stage::Link => DeployStage::Link,
        }
    }
}

/// A deployment run.
pub struct Deployer {
    previous: Vec<Mapping>,
    desired: Vec<Mapping>,
    cleaner: Cleaner,
    pos: usize,
    made: Vec<Mapping>,
    stage: Stage,
}

impl View for Deployer {
    type V = DeployerView;

    closed spec fn view(&self) -> DeployerView {
        DeployerView {
            previous: self.previous.deep_view(),
            desired: self.desired.deep_view(),
            cleaner: self.cleaner@,
            pos: self.pos as int,
            made: self.made.deep_view(),
            stage: self.stage@,
        }
    }
}

/// The members of `list` that pass, or that fail, the test of being among
/// `others`.
fn select(list: &Vec<Mapping>, from: usize, others: &Vec<Mapping>, inside: bool) -> (r: Vec<
    Mapping,
>)
    requires
        from <= list.len(),
    ensures
        r.deep_view() == list.deep_view().skip(from as int).filter(
            if inside {
                among(others.deep_view())
            } else {
                outside(others.deep_view())
            },
        ),
{
    let ghost all = list.deep_view().skip(from as int);
    let ghost test = if inside {
        among(others.deep_view())
    } else {
        outside(others.deep_view())
    };
    let mut r: Vec<Mapping> = Vec::new();
    let mut i: usize = from;
    assert(all.take(0).filter(test) =~= Seq::empty()) by {
        reveal(Seq::filter);
    }
    assert(r.deep_view() =~= Seq::empty());
    while i < list.len()
        invariant
            from <= i <= list.len(),
            all == list.deep_view().skip(from as int),
            test == if inside {
                among(others.deep_view())
            } else {
                outside(others.deep_view())
            },
            r.deep_view() == all.take(i - from).filter(test),
        decreases list.len() - i,
    {
        let ghost seen = all.take(i - from);
        let ghost more = all.take(i - from + 1);
        assert(more.drop_last() =~= seen);
        assert(more.last() == list[i as int]@);
        let found = holds(others, &list[i]);
        assert(test(more.last()) == (found == inside));
        assert(more.filter(test) == if test(more.last()) {
            seen.filter(test).push(more.last())
        } else {
            seen.filter(test)
        }) by {
            reveal(Seq::filter);
        }
        if found == inside {
            let ghost before = r.deep_view();
            r.push(list[i].clone());
            assert(r.deep_view() =~= before.push(list[i as int]@));
        }
        i += 1;
    }
    assert(all.take(list.len() - from) =~= all);
    r
}

impl Deployer {
    #[verifier::type_invariant]
    spec fn inv(self) -> bool {
        self@.wf()
    }

    /// Starts a run that brings the links on record in `cache` in line
    /// with `desired`.
    pub fn new(cache: Cache, opt: DeployOptions, desired: MappingSet) -> (d: Deployer)
        ensures
            d@ == DeployerView::start(cache@, desired@, opt@),
            d@.wf(),
    {
        let previous = cache.into_mappings();
        let desired = desired.into_mappings();
        proof {
            lemma_distinct_names_no_duplicates(desired.deep_view());
        }
        let redundant = select(&previous, 0, &desired, false);
        assert(previous.deep_view().skip(0) =~= previous.deep_view());
        let cleaner = Cleaner::new(Cache::new(redundant), CleanOptions::new(opt.rmdir()));
        let made: Vec<Mapping> = Vec::new();
        assert(made.deep_view() =~= Seq::empty());
        Deployer { previous, desired, cleaner, pos: 0, made, stage: Stage::Survey }
    }

    /// Whether nothing is left to do.
    pub fn is_done(&self) -> (b: bool)
        ensures
            b == self@.done(),
            self@.wf(),
    {
        proof {
            use_type_invariant(self);
        }
        self.cleaner.is_done() && self.pos >= self.desired.len()
    }

    /// What the caller is asked to do now.
    pub fn action(&self) -> (a: Action)
        ensures
            a@ == self@.action(),
            self@.wf(),
    {
        proof {
            use_type_invariant(self);
        }
        if !self.cleaner.is_done() {
            return self.cleaner.action();
        }
        if self.pos >= self.desired.len() {
            return Action::Done;
        }
        let current = &self.desired[self.pos];
        match &self.stage {
            Stage::Survey => Action::Survey {
                mapping: current.clone(),
                parent: parent_dir(current.name()),
            },
            Stage::MakeDir(dir) => Action::CreateDir(dir.clone()),
            Stage::Link => Action::Link(current.clone()),
        }
    }

    /// Takes the caller's answer and moves on.
    pub fn step(self, event: &Event) -> (next: Deployer)
        ensures
            next@ == self@.step(event@),
            next@.wf(),
    {
        proof {
            use_type_invariant(&self);
            lemma_deploy_step_wf(self@, event@);
        }
        if !self.cleaner.is_done() {
            let Deployer { previous, desired, cleaner, pos, made, stage } = self;
            let cleaner = cleaner.step(event);
            return Deployer { previous, desired, cleaner, pos, made, stage };
        }
        if self.pos >= self.desired.len() {
            return self;
        }
        match (&self.stage, event) {
            (Stage::Survey, Event::Surveyed { parent_missing, name_exists }) => {
                let current = &self.desired[self.pos];
                match parent_dir(current.name()) {
                    Some(dir) if *parent_missing => Deployer { stage: Stage::MakeDir(dir), ..self },
                    _ => {
                        if *name_exists && holds(&self.previous, current) {
                            self.settle(true)
                        } else {
                            Deployer { stage: Stage::Link, ..self }
                        }
                    },
                }
            },
            (Stage::MakeDir(_), Event::DirCreated(ok)) => {
                if *ok {
                    Deployer { stage: Stage::Link, ..self }
                } else {
                    self.settle(false)
                }
            },
            (Stage::Link, Event::Linked(ok)) => self.settle(*ok),
            _ => self,
        }
    }

    fn settle(self, standing: bool) -> (next: Deployer)
        requires
            self@.cleaner.done(),
            self@.pos < self@.desired.len(),
        ensures
            next@ == self@.settle(standing),
            next@.wf(),
    {
        proof {
            use_type_invariant(&self);
            lemma_settle_wf(self@, standing);
        }
        let Deployer { previous, desired, cleaner, pos, mut made, stage: _ } = self;
        assert(desired.deep_view().len() == desired.len());
        if standing {
            let ghost before = made.deep_view();
            made.push(desired[pos].clone());
            assert(made.deep_view() =~= before.push(desired.deep_view()[pos as int]));
        }
        Deployer { previous, desired, cleaner, pos: pos + 1, made, stage: Stage::Survey }
    }

    /// Ends the run and gives the cache to store.
    pub fn finish(self) -> (cache: Cache)
        ensures
            cache@ == self@.record(),
    {
        proof {
            use_type_invariant(&self);
        }
        let Deployer { previous, desired, cleaner, pos, made, stage: _ } = self;
        let mut all = cleaner.finish().into_mappings();
        let mut made = made;
        let ghost head = all.deep_view();
        let ghost mid = made.deep_view();
        all.append(&mut made);
        assert(all.deep_view() =~= head + mid);
        let mut rest = select(&desired, pos, &previous, true);
        let ghost tail = rest.deep_view();
        let ghost front = all.deep_view();
        all.append(&mut rest);
        assert(all.deep_view() =~= front + tail);
        Cache::new(all)
    }
}

/// Settling the mapping in hand keeps a state well-formed.
proof fn lemma_settle_wf(s: DeployerView, standing: bool)
    requires
        s.wf(),
        s.cleaner.done(),
        s.pos < s.desired.len(),
    ensures
        s.settle(standing).wf(),
{
    let next = s.settle(standing);
    assert forall|i: int| 0 <= i < next.made.len() implies next.desired.take(next.pos).contains(
        #[trigger] next.made[i],
    ) by {
        if i < s.made.len() {
            let j = choose|j: int|
                0 <= j < s.desired.take(s.pos).len() && s.desired.take(s.pos)[j] == s.made[i];
            assert(next.desired.take(next.pos)[j] == next.made[i]);
        } else {
            assert(next.desired.take(next.pos)[s.pos] == next.made[i]);
        }
    }
}

/// A well-formed state stays well-formed, whatever the answer.
pub proof fn lemma_deploy_step_wf(s: DeployerView, event: EventView)
    requires
        s.wf(),
    ensures
        s.step(event).wf(),
{
    if !s.cleaner.done() {
        lemma_step_wf(s.cleaner, event);
        lemma_step_keeps_record(s.cleaner, event);
    } else if s.pos < s.desired.len() {
        lemma_settle_wf(s, true);
        lemma_settle_wf(s, false);
    }
}

/// Whether `a` comes before `b`: the first place where they differ
/// decides.
pub open spec fn nearer(a: ((int, int, int), int, int), b: ((int, int, int), int, int)) -> bool {
    below(a.0, b.0) || (a.0 == b.0 && (a.1 < b.1 || (a.1 == b.1 && a.2 < b.2)))
}

/// An answer that is taken up brings the run closer to its end, so a
/// caller that answers what it is asked comes to `Done`.
pub proof fn lemma_deploy_step_makes_progress(s: DeployerView, event: EventView)
    requires
        s.wf(),
    ensures
        s.step(event) == s || nearer(s.step(event).distance(), s.distance()),
        s.distance().1 >= 0 && s.distance().2 >= 0,
{
    if !s.cleaner.done() {
        lemma_step_makes_progress(s.cleaner, event);
    }
}

/// A well-formed state stays well-formed through any answers.
pub proof fn lemma_deploy_run_wf(s: DeployerView, events: Seq<EventView>)
    requires
        s.wf(),
    ensures
        s.run(events).wf(),
    decreases events.len(),
{
    if events.len() > 0 {
        lemma_deploy_run_wf(s, events.drop_last());
        lemma_deploy_step_wf(s.run(events.drop_last()), events.last());
    }
}

/// An unwanted mapping that is kept on record is never dropped again; the
/// wanted mappings and the old record do not change; and no mapping is
/// taken in hand twice.
pub proof fn lemma_deploy_step_keeps_record(s: DeployerView, event: EventView)
    requires
        s.wf(),
    ensures
        s.cleaner.kept.is_prefix_of(s.step(event).cleaner.kept),
        s.made.is_prefix_of(s.step(event).made),
        s.step(event).desired == s.desired,
        s.step(event).previous == s.previous,
        s.pos <= s.step(event).pos,
        s.cleaner.done() ==> s.step(event).cleaner == s.cleaner,
{
    if !s.cleaner.done() {
        lemma_step_keeps_record(s.cleaner, event);
    }
}

/// What [`lemma_deploy_step_keeps_record`] says, through any answers.
pub proof fn lemma_deploy_run_keeps_record(s: DeployerView, events: Seq<EventView>)
    requires
        s.wf(),
    ensures
        s.cleaner.kept.is_prefix_of(s.run(events).cleaner.kept),
        s.made.is_prefix_of(s.run(events).made),
        s.run(events).desired == s.desired,
        s.run(events).previous == s.previous,
        s.pos <= s.run(events).pos,
        s.cleaner.done() ==> s.run(events).cleaner == s.cleaner,
    decreases events.len(),
{
    if events.len() > 0 {
        lemma_deploy_run_keeps_record(s, events.drop_last());
        lemma_deploy_run_wf(s, events.drop_last());
        lemma_deploy_step_keeps_record(s.run(events.drop_last()), events.last());
    }
}

/// The removal inside a deployment goes as it would on its own.
pub proof fn lemma_deploy_runs_cleaner(s: DeployerView, events: Seq<EventView>)
    ensures
        s.run(events).cleaner == s.cleaner.run(events),
    decreases events.len(),
{
    if events.len() > 0 {
        lemma_deploy_runs_cleaner(s, events.drop_last());
    }
}

/// The unwanted mappings were on record and are not wanted.
proof fn lemma_unwanted(s: DeployerView, at: int)
    requires
        s.wf(),
        0 <= at < s.cleaner.queue.len(),
    ensures
        s.previous.contains(s.cleaner.queue[at]),
        !s.desired.contains(s.cleaner.queue[at]),
{
    let m = s.cleaner.queue[at];
    s.previous.lemma_filter_pred(outside(s.desired), at);
    assert(s.previous.filter(outside(s.desired)).contains(m));
    s.previous.lemma_filter_contains_rev(outside(s.desired), m);
}

/// Drift protection while unwanted links are taken down. When the probe
/// of an unwanted mapping finds that its path no longer leads to the
/// recorded target, no deletion is asked for, and the mapping is on record
/// at every later point of the run.
pub proof fn lemma_deploy_drifted_is_kept(
    s: DeployerView,
    found: crate::action::LinkStateView,
    rest: Seq<EventView>,
)
    requires
        s.wf(),
        s.action() is Probe,
        found.drifted(),
    ensures
        ({
            let next = s.step(EventView::Probed(found));
            &&& !next.action().mutates()
            &&& next.run(rest).record().contains(s.cleaner.current())
        }),
{
    let next = s.step(EventView::Probed(found));
    let end = next.run(rest);
    lemma_drifted_is_kept(s.cleaner, found, rest);
    lemma_deploy_runs_cleaner(next, rest);
    let unwanted = end.cleaner.record();
    let at = choose|i: int| 0 <= i < unwanted.len() && unwanted[i] == s.cleaner.current();
    assert(end.record()[at] == s.cleaner.current());
}

/// A mapping that was settled without a standing link is not on record at
/// any later point of the run.
proof fn lemma_settled_out_stays_out(s: DeployerView, at: int, rest: Seq<EventView>)
    requires
        s.wf(),
        s.cleaner.done(),
        0 <= at < s.pos,
        !s.made.contains(s.desired[at]),
    ensures
        s.run(rest).wf(),
        s.run(rest).cleaner.done(),
        s.run(rest).desired == s.desired,
        s.run(rest).pos >= s.pos,
        !s.run(rest).made.contains(s.desired[at]),
        !s.run(rest).record().contains(s.desired[at]),
    decreases rest.len(),
{
    let m = s.desired[at];
    lemma_deploy_run_wf(s, rest);
    lemma_deploy_run_keeps_record(s, rest);
    let end = s.run(rest);
    if rest.len() > 0 {
        let before = s.run(rest.drop_last());
        lemma_settled_out_stays_out(s, at, rest.drop_last());
        if before.pos < before.desired.len() {
            assert(before.desired[before.pos] != m);
        }
        assert(!end.made.contains(m)) by {
            if end.made.contains(m) {
                let i = choose|i: int| 0 <= i < end.made.len() && end.made[i] == m;
                if i < before.made.len() {
                    assert(before.made[i] == m);
                }
            }
        }
    }
    lemma_not_on_record(end, at);
}

/// A wanted mapping that is settled and has no standing link is not on
/// record.
proof fn lemma_not_on_record(s: DeployerView, at: int)
    requires
        s.wf(),
        0 <= at < s.pos,
        !s.made.contains(s.desired[at]),
    ensures
        !s.record().contains(s.desired[at]),
{
    broadcast use vstd::seq_lib::group_filter_ensures;

    let m = s.desired[at];
    let unwanted = s.cleaner.record();
    let pending = s.desired.skip(s.pos).filter(among(s.previous));
    if unwanted.contains(m) {
        let i = choose|i: int| 0 <= i < unwanted.len() && unwanted[i] == m;
        assert(s.cleaner.queue.contains(m)) by {
            if i < s.cleaner.kept.len() {
                assert(s.cleaner.kept[i] == m);
            } else {
                assert(s.cleaner.queue[s.cleaner.pos + i - s.cleaner.kept.len()] == m);
            }
        }
        let j = choose|j: int| 0 <= j < s.cleaner.queue.len() && s.cleaner.queue[j] == m;
        lemma_unwanted(s, j);
        assert(false);
    }
    if pending.contains(m) {
        s.desired.skip(s.pos).lemma_filter_contains_rev(among(s.previous), m);
        let k = choose|k: int|
            0 <= k < s.desired.skip(s.pos).len() && s.desired.skip(s.pos)[k] == m;
        assert(s.desired[s.pos + k] == m);
        assert(false);
    }
    if s.record().contains(m) {
        let i = choose|i: int| 0 <= i < s.record().len() && s.record()[i] == m;
        if i < unwanted.len() {
            assert(unwanted[i] == m);
        } else if i < unwanted.len() + s.made.len() {
            assert(s.made[i - unwanted.len()] == m);
        } else {
            assert(pending[i - unwanted.len() - s.made.len()] == m);
        }
    }
}

/// Retry on failure. When the link of a mapping cannot be created, the
/// mapping is not on record at any later point of the run.
pub proof fn lemma_failed_link_is_forgotten(s: DeployerView, rest: Seq<EventView>)
    requires
        s.wf(),
        s.action() is Link,
    ensures
        !s.step(EventView::Linked(false)).run(rest).record().contains(s.current()),
{
    lemma_failed_is_forgotten(s, EventView::Linked(false), rest);
}

/// Retry on failure. When the directory that is to hold a link cannot be
/// created, no link is asked for, and the mapping is not on record at any
/// later point of the run.
pub proof fn lemma_failed_parent_is_forgotten(s: DeployerView, rest: Seq<EventView>)
    requires
        s.wf(),
        s.action() is CreateDir,
    ensures
        !(s.step(EventView::DirCreated(false)).action() is Link),
        !s.step(EventView::DirCreated(false)).run(rest).record().contains(s.current()),
{
    lemma_failed_is_forgotten(s, EventView::DirCreated(false), rest);
}

proof fn lemma_failed_is_forgotten(s: DeployerView, event: EventView, rest: Seq<EventView>)
    requires
        s.wf(),
        s.cleaner.done(),
        s.pos < s.desired.len(),
        s.step(event) == s.settle(false),
    ensures
        !s.step(event).run(rest).record().contains(s.current()),
{
    let next = s.step(event);
    lemma_deploy_step_wf(s, event);
    assert(!next.made.contains(s.current())) by {
        if next.made.contains(s.current()) {
            let i = choose|i: int| 0 <= i < s.made.len() && s.made[i] == s.current();
            let j = choose|j: int|
                0 <= j < s.desired.take(s.pos).len() && s.desired.take(s.pos)[j] == s.made[i];
            assert(s.desired[j] == s.desired[s.pos]);
        }
    }
    lemma_settled_out_stays_out(next, s.pos, rest);
}

/// Retry on failure, the next run. A wanted mapping that is not on record
/// is never taken for done: whatever the survey finds, the answer to it is
/// the request to create the link, or first the directory that is to hold
/// it.
pub proof fn lemma_unrecorded_is_attempted(s: DeployerView, event: EventView)
    requires
        s.wf(),
        s.action() is Survey,
        event is Surveyed,
        !s.previous.contains(s.current()),
    ensures
        s.step(event).action() == ActionView::Link(s.current()) || s.step(event).action()
            == ActionView::CreateDir(parent_of(s.current().name).unwrap()),
{
}

/// The answer that a survey gives when the link and the directory above
/// it are in place.
pub open spec fn in_place() -> EventView {
    EventView::Surveyed { parent_missing: false, name_exists: true }
}

/// Idempotence. Take a run whose record holds exactly the wanted mappings,
/// as it does after a run that put every link up, and let every survey
/// find the link in place. Then at no point is a change to the file system
/// asked for, each answer settles one mapping, and once all are answered
/// the run is done and its record is the wanted mappings, as before.
pub proof fn lemma_second_run_is_quiet(
    previous: Seq<MappingView>,
    desired: Seq<MappingView>,
    rmdir: bool,
    events: Seq<EventView>,
)
    requires
        desired.no_duplicates(),
        forall|m: MappingView| previous.contains(m) <==> desired.contains(m),
        events.len() <= desired.len(),
        forall|k: int| 0 <= k < events.len() ==> events[k] == in_place(),
    ensures
        ({
            let s = DeployerView::start(previous, desired, rmdir).run(events);
            &&& !s.action().mutates()
            &&& s.cleaner.done()
            &&& s.pos == events.len()
            &&& s.made == desired.take(events.len() as int)
            &&& s.stage is Survey
            &&& events.len() == desired.len() ==> s.done() && s.record() == desired
        }),
    decreases events.len(),
{
    broadcast use vstd::seq_lib::group_filter_ensures;

    let start = DeployerView::start(previous, desired, rmdir);
    let unwanted = previous.filter(outside(desired));
    assert(unwanted.len() == 0) by {
        if unwanted.len() > 0 {
            previous.lemma_filter_pred(outside(desired), 0);
            assert(unwanted.contains(unwanted[0]));
            previous.lemma_filter_contains_rev(outside(desired), unwanted[0]);
        }
    }
    let s = start.run(events);
    if events.len() == 0 {
        assert(s.made =~= desired.take(0));
    } else {
        let before = start.run(events.drop_last());
        lemma_second_run_is_quiet(previous, desired, rmdir, events.drop_last());
        lemma_deploy_run_keeps_record(start, events.drop_last());
        assert(events.last() == in_place());
        assert(desired[before.pos] == before.current());
        assert(s == before.settle(true));
        assert(s.made =~= desired.take(events.len() as int));
    }
    if events.len() == desired.len() {
        assert(desired.take(desired.len() as int) =~= desired);
        assert(desired.skip(desired.len() as int).filter(among(previous)) =~= Seq::empty()) by {
            reveal(Seq::filter);
        }
        assert(s.cleaner.record() =~= Seq::empty());
        assert(s.record() =~= desired);
    }
}

/// Whether `event` answers the action of `s` as a file system does on
/// which nothing has changed since the record was written: an unwanted
/// link is still there and still cannot be taken down, a wanted link that
/// is on record is in place, and a wanted link that is not on record
/// still cannot be made.
pub open spec fn unchanged(s: DeployerView, event: EventView) -> bool {
    match s.action() {
        ActionView::Probe(_) => event is Probed && !(event->Probed_0 is Absent),
        ActionView::Delete(_) => event == EventView::Deleted(false),
        ActionView::RemoveDir(_) => event == EventView::DirRemoved(false),
        ActionView::Survey { mapping, .. } => if s.previous.contains(mapping) {
            event == in_place()
        } else {
            event is Surveyed
        },
        ActionView::CreateDir(_) => event == EventView::DirCreated(false),
        ActionView::Link(_) => event == EventView::Linked(false),
        ActionView::Done => true,
    }
}

/// Whether each of `events` answers the run from `s` as [`unchanged`]
/// says.
pub open spec fn unchanged_run(s: DeployerView, events: Seq<EventView>) -> bool
    decreases events.len(),
{
    events.len() == 0 || (unchanged_run(s, events.drop_last()) && unchanged(
        s.run(events.drop_last()),
        events.last(),
    ))
}

/// What holds of a run on an unchanged file system: every unwanted
/// mapping that is settled is kept, every wanted mapping that is settled
/// has its link standing if it was on record and not otherwise, and a
/// link is to be made only for a mapping that was not on record.
spec fn steady(s: DeployerView) -> bool {
    &&& s.cleaner.kept == s.cleaner.queue.take(s.cleaner.pos)
    &&& !(s.cleaner.stage is Prune)
    &&& s.made == s.desired.take(s.pos).filter(among(s.previous))
    &&& !(s.stage is Survey) ==> !s.previous.contains(s.current())
}

proof fn lemma_steady_step(s: DeployerView, event: EventView)
    requires
        s.wf(),
        steady(s),
        unchanged(s, event),
    ensures
        steady(s.step(event)),
{
    let next = s.step(event);
    lemma_deploy_step_wf(s, event);
    if !s.cleaner.done() {
        assert(next.cleaner.kept =~= next.cleaner.queue.take(next.cleaner.pos));
    } else if s.pos < s.desired.len() {
        let seen = s.desired.take(s.pos);
        assert(s.desired.take(s.pos + 1) =~= seen.push(s.current()));
        seen.lemma_filter_push(s.current(), among(s.previous));
    }
}

proof fn lemma_steady_run(s: DeployerView, events: Seq<EventView>)
    requires
        s.wf(),
        steady(s),
        unchanged_run(s, events),
    ensures
        s.run(events).wf(),
        steady(s.run(events)),
    decreases events.len(),
{
    lemma_deploy_run_wf(s, events);
    if events.len() > 0 {
        lemma_steady_run(s, events.drop_last());
        lemma_steady_step(s.run(events.drop_last()), events.last());
    }
}

/// A mapping is in a list made of two if it is in one of them.
proof fn lemma_contains_add(a: Seq<MappingView>, b: Seq<MappingView>, m: MappingView)
    ensures
        (a + b).contains(m) <==> (a.contains(m) || b.contains(m)),
{
    if a.contains(m) {
        let i = choose|i: int| 0 <= i < a.len() && a[i] == m;
        assert((a + b)[i] == m);
    }
    if b.contains(m) {
        let i = choose|i: int| 0 <= i < b.len() && b[i] == m;
        assert((a + b)[a.len() + i] == m);
    }
    if (a + b).contains(m) {
        let i = choose|i: int| 0 <= i < (a + b).len() && (a + b)[i] == m;
        if i < a.len() {
            assert(a[i] == m);
        } else {
            assert(b[i - a.len()] == m);
        }
    }
}

/// In a steady state the record holds what was on record before, no more
/// and no less.
proof fn lemma_steady_record(s: DeployerView, m: MappingView)
    requires
        s.wf(),
        steady(s),
    ensures
        s.record().contains(m) <==> s.previous.contains(m),
{
    broadcast use vstd::seq_lib::group_filter_ensures;

    let kept = s.cleaner.kept;
    let waiting = s.cleaner.queue.skip(s.cleaner.pos);
    let queue = s.cleaner.queue;
    let settled = s.desired.take(s.pos);
    let pending = s.desired.skip(s.pos);
    let known = among(s.previous);
    lemma_contains_add(kept, waiting, m);
    lemma_contains_add(kept + waiting, s.made, m);
    lemma_contains_add(kept + waiting + s.made, pending.filter(known), m);
    assert(kept + waiting =~= queue);
    if queue.contains(m) {
        let i = choose|i: int| 0 <= i < queue.len() && queue[i] == m;
        lemma_unwanted(s, i);
    }
    if settled.filter(known).contains(m) {
        let i = choose|i: int|
            0 <= i < settled.filter(known).len() && settled.filter(known)[i] == m;
        settled.lemma_filter_pred(known, i);
    }
    if pending.filter(known).contains(m) {
        let i = choose|i: int|
            0 <= i < pending.filter(known).len() && pending.filter(known)[i] == m;
        pending.lemma_filter_pred(known, i);
    }
    if s.previous.contains(m) {
        if s.desired.contains(m) {
            let j = choose|j: int| 0 <= j < s.desired.len() && s.desired[j] == m;
            if j < s.pos {
                assert(settled[j] == m);
                settled.lemma_filter_contains(known, j);
            } else {
                assert(pending[j - s.pos] == m);
                pending.lemma_filter_contains(known, j - s.pos);
            }
        } else {
            let i = choose|i: int| 0 <= i < s.previous.len() && s.previous[i] == m;
            s.previous.lemma_filter_contains(outside(s.desired), i);
        }
    }
}

/// Idempotence of the record. Run again on a file system on which nothing
/// has changed since the record was written, with whatever the earlier
/// run left undone or could not take down, a deployment leaves the set of
/// recorded mappings as it was: none is gained and none is lost, at the
/// end of the run and at every point of it.
pub proof fn lemma_unchanged_world_keeps_record(
    previous: Seq<MappingView>,
    desired: Seq<MappingView>,
    rmdir: bool,
    events: Seq<EventView>,
)
    requires
        desired.no_duplicates(),
        unchanged_run(DeployerView::start(previous, desired, rmdir), events),
    ensures
        forall|m: MappingView|
            DeployerView::start(previous, desired, rmdir).run(events).record().contains(m)
                <==> previous.contains(m),
{
    let start = DeployerView::start(previous, desired, rmdir);
    assert(steady(start)) by {
        reveal(Seq::filter);
        assert(start.cleaner.kept =~= start.cleaner.queue.take(0));
        assert(start.made =~= start.desired.take(0).filter(among(previous)));
    }
    lemma_steady_run(start, events);
    lemma_deploy_run_keeps_record(start, events);
    assert forall|m: MappingView|
        start.run(events).record().contains(m) <==> previous.contains(m) by {
        lemma_steady_record(start.run(events), m);
    }
}

/// Only unwanted links are taken down: whenever a deletion is asked for,
/// the mapping was on record and is not among the wanted ones, and the
/// state before asked for the same deletion or was told by a probe that
/// the path exists and leads to the recorded target.
pub proof fn lemma_deploy_delete_is_safe(s: DeployerView, event: EventView)
    requires
        s.wf(),
    ensures
        s.step(event).action() matches ActionView::Delete(m) ==> {
            &&& s.previous.contains(m)
            &&& !s.desired.contains(m)
            &&& (s.action() == ActionView::Delete(m) || (s.action() == ActionView::Probe(m)
                && event.found_intact()))
        },
{
    let next = s.step(event);
    lemma_deploy_step_wf(s, event);
    if next.action() is Delete {
        lemma_delete_follows_intact_probe(s.cleaner, event);
        lemma_unwanted(next, next.cleaner.pos);
    }
}

/// Safe teardown, over a whole run. Whenever a run asks for the deletion
/// of a mapping, the mapping was on record and is not wanted, and the run
/// has asked before to probe it and was told that its path exists and
/// leads to the recorded target.
pub proof fn lemma_deploy_safe_teardown(
    previous: Seq<MappingView>,
    desired: Seq<MappingView>,
    rmdir: bool,
    events: Seq<EventView>,
)
    requires
        desired.no_duplicates(),
    ensures
        DeployerView::start(previous, desired, rmdir).run(events).action() matches ActionView::Delete(
            m,
        ) ==> previous.contains(m) && !desired.contains(m) && exists|k: int|
            0 <= k < events.len() && (#[trigger] DeployerView::start(previous, desired, rmdir).run(
                events.take(k),
            )).action() == ActionView::Probe(m) && events[k].found_intact(),
{
    let start = DeployerView::start(previous, desired, rmdir);
    let end = start.run(events);
    lemma_deploy_run_wf(start, events);
    lemma_deploy_run_keeps_record(start, events);
    lemma_deploy_runs_cleaner(start, events);
    lemma_safe_teardown(start.cleaner.queue, rmdir, events);
    match end.action() {
        ActionView::Delete(m) => {
            lemma_unwanted(end, end.cleaner.pos);
            let k = choose|k: int|
                0 <= k < events.len() && (#[trigger] start.cleaner.run(events.take(k))).action()
                    == ActionView::Probe(m) && events[k].found_intact();
            lemma_deploy_runs_cleaner(start, events.take(k));
            assert(start.run(events.take(k)).action() == ActionView::Probe(m));
        },
        _ => {},
    }
}

} // verus!
