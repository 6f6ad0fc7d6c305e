//! Taking links down.
//!
//! Each candidate is probed first. A path that is gone is forgotten; a path
//! that no longer leads to its recorded target is left alone and kept on
//! record; any other is deleted, and kept on record if that fails. After a
//! deletion the directories above the link may be removed while they are
//! empty.

use crate::action::{Action, ActionView, Event, EventView, LinkState, LinkStateView};
use crate::cache::Cache;
use crate::path::{lemma_parent_is_shorter, parent_dir, parent_of};
use crate::{Mapping, MappingView};
use vstd::prelude::*;

verus! {

/// How links are taken down.
#[derive(Debug)]
pub struct CleanOptions {
    rmdir: bool,
}

impl View for CleanOptions {
    type V = bool;

    closed spec fn view(&self) -> bool {
        self.rmdir
    }
}

impl Default for CleanOptions {
    /// Empty directories are left standing.
    fn default() -> (opt: CleanOptions)
        ensures
            opt@ == false,
    {
        CleanOptions { rmdir: false }
    }
}

impl CleanOptions {
    /// `rmdir` says whether directories left empty by a removal are removed
    /// too.
    pub fn new(rmdir: bool) -> (opt: CleanOptions)
        ensures
            opt@ == rmdir,
    {
        CleanOptions { rmdir }
    }

    /// Whether directories left empty by a removal are removed too.
    pub fn rmdir(&self) -> (b: bool)
        ensures
            b == self@,
    {
        self.rmdir
    }
}

/// What a [`Cleaner`] is waiting to hear about its current candidate.
pub ghost enum CleanStage {
    /// What stands at its name.
    Probe,
    /// Whether its entry was deleted.
    Delete,
    /// Whether this directory above it was removed.
    Prune(Seq<char>),
}

/// The state of a removal run.
pub ghost struct CleanerView {
    /// The candidates, in the order in which they are handled.
    pub queue: Seq<MappingView>,
    /// How many candidates are settled.
    pub pos: int,
    /// The settled candidates that stay on record.
    pub kept: Seq<MappingView>,
    /// Whether empty directories are removed.
    pub rmdir: bool,
    pub stage: CleanStage,
}

impl CleanerView {
    /// The state before anything was asked.
    pub open spec fn start(queue: Seq<MappingView>, rmdir: bool) -> CleanerView {
        CleanerView { queue, pos: 0, kept: Seq::empty(), rmdir, stage: CleanStage::Probe }
    }

    /// What holds of every state of a run: the place in the queue is a
    /// place; between candidates the run is about to probe; directories are
    /// removed only where that was asked for; and what is kept on record
    /// came from the queue.
    pub open spec fn wf(self) -> bool {
        &&& 0 <= self.pos <= self.queue.len()
        &&& self.pos == self.queue.len() ==> self.stage is Probe
        &&& self.stage is Prune ==> self.rmdir
        &&& forall|i: int| 0 <= i < self.kept.len() ==> self.queue.contains(#[trigger] self.kept[i])
    }

    /// Every candidate is settled.
    pub open spec fn done(self) -> bool {
        self.pos >= self.queue.len()
    }

    /// The candidate in hand.
    pub open spec fn current(self) -> MappingView {
        self.queue[self.pos]
    }

    /// What the caller is asked to do in this state.
    pub open spec fn action(self) -> ActionView {
        if self.done() {
            ActionView::Done
        } else {
            match self.stage {
                CleanStage::Probe => ActionView::Probe(self.current()),
                CleanStage::Delete => ActionView::Delete(self.current()),
                CleanStage::Prune(dir) => ActionView::RemoveDir(dir),
            }
        }
    }

    /// Settles the candidate in hand, keeping it on record or not, and
    /// turns to the next.
    pub open spec fn settle(self, keep: bool) -> CleanerView {
        CleanerView {
            pos: self.pos + 1,
            kept: if keep {
                self.kept.push(self.current())
            } else {
                self.kept
            },
            stage: CleanStage::Probe,
            ..self
        }
    }

    /// Turns to the directory that holds `from`; with none above it, the
    /// candidate in hand is settled as removed.
    pub open spec fn climb(self, from: Seq<char>) -> CleanerView {
        match parent_of(from) {
            Some(dir) => CleanerView { stage: CleanStage::Prune(dir), ..self },
            None => self.settle(false),
        }
    }

    /// The state after the caller's answer `event`. An answer that does not
    /// fit the action asked for changes nothing.
    pub open spec fn step(self, event: EventView) -> CleanerView {
        if self.done() {
            self
        } else {
            match (self.stage, event) {
                (CleanStage::Probe, EventView::Probed(found)) => {
                    if found is Absent {
                        self.settle(false)
                    } else if found.drifted() {
                        self.settle(true)
                    } else {
                        CleanerView { stage: CleanStage::Delete, ..self }
                    }
                },
                (CleanStage::Delete, EventView::Deleted(ok)) => {
                    if !ok {
                        self.settle(true)
                    } else if self.rmdir {
                        self.climb(self.current().name)
                    } else {
                        self.settle(false)
                    }
                },
                (CleanStage::Prune(dir), EventView::DirRemoved(ok)) => {
                    if ok {
                        self.climb(dir)
                    } else {
                        self.settle(false)
                    }
                },
                _ => self,
            }
        }
    }

    /// The state after the answers `events`, taken in order.
    pub open spec fn run(self, events: Seq<EventView>) -> CleanerView
        decreases events.len(),
    {
        if events.len() == 0 {
            self
        } else {
            self.run(events.drop_last()).step(events.last())
        }
    }

    /// How far the run is from its end: the candidates not settled, then
    /// the stage of the one in hand, then the length of the directory that
    /// is being removed. Every answer that is taken up lowers it.
    pub open spec fn distance(self) -> (int, int, int) {
        (
            self.queue.len() - self.pos,
            match self.stage {
                CleanStage::Probe => 2,
                CleanStage::Delete => 1,
                CleanStage::Prune(_) => 0,
            },
            match self.stage {
                CleanStage::Prune(dir) => dir.len() as int,
                _ => 0,
            },
        )
    }

    /// What goes on record if the run ends in this state: what was kept,
    /// and every candidate that is not settled yet.
    pub open spec fn record(self) -> Seq<MappingView> {
        self.kept + self.queue.skip(self.pos)
    }
}

/// Whether `a` comes before `b` when triples are read as words: the first
/// place where they differ decides.
pub open spec fn below(a: (int, int, int), b: (int, int, int)) -> bool {
    a.0 < b.0 || (a.0 == b.0 && (a.1 < b.1 || (a.1 == b.1 && a.2 < b.2)))
}

/// A well-formed state stays well-formed, whatever the answer.
pub proof fn lemma_step_wf(s: CleanerView, event: EventView)
    requires
        s.wf(),
    ensures
        s.step(event).wf(),
{
}

/// A well-formed state stays well-formed through any answers.
pub proof fn lemma_run_wf(s: CleanerView, events: Seq<EventView>)
    requires
        s.wf(),
    ensures
        s.run(events).wf(),
    decreases events.len(),
{
    if events.len() > 0 {
        lemma_run_wf(s, events.drop_last());
        lemma_step_wf(s.run(events.drop_last()), events.last());
    }
}

/// An answer that is taken up brings the run closer to its end, so a
/// caller that answers what it is asked comes to `Done`.
pub proof fn lemma_step_makes_progress(s: CleanerView, event: EventView)
    requires
        s.wf(),
    ensures
        s.step(event) == s || below(s.step(event).distance(), s.distance()),
        s.distance().0 >= 0 && s.distance().1 >= 0 && s.distance().2 >= 0,
{
    if !s.done() {
        match s.stage {
            CleanStage::Prune(dir) => lemma_parent_is_shorter(dir),
            _ => {},
        }
    }
}

/// What is kept on record is never dropped again, and the candidates do
/// not change.
pub proof fn lemma_step_keeps_record(s: CleanerView, event: EventView)
    requires
        s.wf(),
    ensures
        s.kept.is_prefix_of(s.step(event).kept),
        s.step(event).queue == s.queue,
        s.step(event).rmdir == s.rmdir,
        s.pos <= s.step(event).pos,
{
}

/// What is kept on record is never dropped again, through any answers.
pub proof fn lemma_run_keeps_record(s: CleanerView, events: Seq<EventView>)
    requires
        s.wf(),
    ensures
        s.kept.is_prefix_of(s.run(events).kept),
        s.run(events).queue == s.queue,
        s.run(events).rmdir == s.rmdir,
        s.pos <= s.run(events).pos,
    decreases events.len(),
{
    if events.len() > 0 {
        lemma_run_keeps_record(s, events.drop_last());
        lemma_run_wf(s, events.drop_last());
        lemma_step_keeps_record(s.run(events.drop_last()), events.last());
    }
}

/// What is kept on record at one point of a run is on record at every
/// later point.
proof fn lemma_kept_stays_on_record(s: CleanerView, at: int, rest: Seq<EventView>)
    requires
        s.wf(),
        0 <= at < s.kept.len(),
    ensures
        s.run(rest).kept.contains(s.kept[at]),
        s.run(rest).record().contains(s.kept[at]),
{
    let end = s.run(rest);
    lemma_run_keeps_record(s, rest);
    assert(end.kept[at] == s.kept[at]);
    assert(end.record()[at] == s.kept[at]);
}

/// Drift protection. When the probe of a candidate finds that its path no
/// longer leads to the recorded target, no deletion is asked for: the run
/// turns to the next candidate, and the mapping is on record then and at
/// every later point of the run.
pub proof fn lemma_drifted_is_kept(s: CleanerView, found: LinkStateView, rest: Seq<EventView>)
    requires
        s.wf(),
        s.action() is Probe,
        found.drifted(),
    ensures
        ({
            let next = s.step(EventView::Probed(found));
            &&& next.pos == s.pos + 1
            &&& !next.action().mutates()
            &&& next.kept == s.kept.push(s.current())
            &&& next.run(rest).kept.contains(s.current())
            &&& next.run(rest).record().contains(s.current())
        }),
{
    lemma_kept_stays_on_record(s.step(EventView::Probed(found)), s.kept.len() as int, rest);
}

/// A failed deletion leaves the mapping on record, so that a later run
/// tries again.
pub proof fn lemma_failed_delete_is_kept(s: CleanerView, rest: Seq<EventView>)
    requires
        s.wf(),
        s.action() is Delete,
    ensures
        ({
            let next = s.step(EventView::Deleted(false));
            &&& next.kept == s.kept.push(s.current())
            &&& next.run(rest).record().contains(s.current())
        }),
{
    lemma_kept_stays_on_record(s.step(EventView::Deleted(false)), s.kept.len() as int, rest);
}

/// Safe teardown, one answer at a time. A state asks for the deletion of a
/// mapping only if the state before it asked for the same deletion, or
/// asked to probe that mapping and was told that its path exists and leads
/// to the recorded target.
pub proof fn lemma_delete_follows_intact_probe(s: CleanerView, event: EventView)
    requires
        s.wf(),
    ensures
        s.step(event).action() matches ActionView::Delete(m) ==> {
            ||| s.action() == ActionView::Delete(m)
            ||| (s.action() == ActionView::Probe(m) && event.found_intact())
        },
{
}

/// Safe teardown, over a whole run. Whenever a run asks for the deletion of
/// a mapping, it has asked before to probe that mapping and was told that
/// its path exists and leads to the recorded target: a path that is absent
/// or has drifted is never deleted.
pub proof fn lemma_safe_teardown(queue: Seq<MappingView>, rmdir: bool, events: Seq<EventView>)
    ensures
        CleanerView::start(queue, rmdir).run(events).action() matches ActionView::Delete(m)
            ==> exists|k: int|
            0 <= k < events.len() && (#[trigger] CleanerView::start(queue, rmdir).run(
                events.take(k),
            )).action() == ActionView::Probe(m) && events[k].found_intact(),
    decreases events.len(),
{
    let start = CleanerView::start(queue, rmdir);
    if events.len() > 0 {
        let before = events.drop_last();
        let n = before.len() as int;
        lemma_safe_teardown(queue, rmdir, before);
        lemma_run_wf(start, before);
        lemma_delete_follows_intact_probe(start.run(before), events.last());
        match start.run(events).action() {
            ActionView::Delete(m) => {
                if start.run(before).action() == ActionView::Delete(m) {
                    let k = choose|k: int|
                        0 <= k < before.len() && (#[trigger] start.run(before.take(k))).action()
                            == ActionView::Probe(m) && before[k].found_intact();
                    assert(before.take(k) =~= events.take(k));
                    assert(start.run(events.take(k)).action() == ActionView::Probe(m));
                } else {
                    assert(events.take(n) =~= before);
                    assert(start.run(events.take(n)).action() == ActionView::Probe(m));
                }
            },
            _ => {},
        }
    }
}

/// Directories are removed only on request, and only on the way up from a
/// link that was deleted: a state asks for the removal of a directory only
/// if empty directories are to be removed and the state before it asked
/// for the same removal, or had the link in hand deleted, or had the
/// directory below removed.
pub proof fn lemma_prune_follows_removal(s: CleanerView, event: EventView)
    requires
        s.wf(),
    ensures
        s.step(event).action() matches ActionView::RemoveDir(dir) ==> {
            ||| s.action() == ActionView::RemoveDir(dir)
            ||| (s.rmdir && s.action() is Delete && event == EventView::Deleted(true) && parent_of(
                s.current().name,
            ) == Some(dir))
            ||| (s.rmdir && event == EventView::DirRemoved(true) && s.action() is RemoveDir
                && parent_of(s.action()->RemoveDir_0) == Some(dir))
        },
{
}


enum Stage {
    Probe,
    Delete,
    Prune(String),
}

impl View for Stage {
    type V = CleanStage;

    closed spec fn view(&self) -> CleanStage {
        match self {
            Stage::Probe => CleanStage::Probe,
            Stage::Delete => CleanStage::Delete,
            Stage::Prune(dir) => CleanStage::Prune(dir@),
        }
    }
}

/// A removal run over a list of candidates.
pub struct Cleaner {
    queue: Vec<Mapping>,
    pos: usize,
    kept: Vec<Mapping>,
    rmdir: bool,
    stage: Stage,
}

impl View for Cleaner {
    type V = CleanerView;

    closed spec fn view(&self) -> CleanerView {
        CleanerView {
            queue: self.queue.deep_view(),
            pos: self.pos as int,
            kept: self.kept.deep_view(),
            rmdir: self.rmdir,
            stage: self.stage@,
        }
    }
}

impl Cleaner {
    #[verifier::type_invariant]
    spec fn inv(self) -> bool {
        self@.wf()
    }

    /// Starts a run that takes down the links on record in `cache`.
    pub fn new(cache: Cache, opt: CleanOptions) -> (c: Cleaner)
        ensures
            c@ == CleanerView::start(cache@, opt@),
    {
        let kept: Vec<Mapping> = Vec::new();
        assert(kept.deep_view() =~= Seq::empty());
        Cleaner { queue: cache.into_mappings(), pos: 0, kept, rmdir: opt.rmdir(), stage: Stage::Probe }
    }

    /// Whether every candidate is settled.
    pub fn is_done(&self) -> (b: bool)
        ensures
            b == self@.done(),
            self@.wf(),
    {
        proof {
            use_type_invariant(self);
        }
        self.pos >= self.queue.len()
    }

    /// What the caller is asked to do now.
    pub fn action(&self) -> (a: Action)
        ensures
            a@ == self@.action(),
            self@.wf(),
    {
        proof {
            use_type_invariant(self);
        }
        if self.pos >= self.queue.len() {
            return Action::Done;
        }
        match &self.stage {
            Stage::Probe => Action::Probe(self.queue[self.pos].clone()),
            Stage::Delete => Action::Delete(self.queue[self.pos].clone()),
            Stage::Prune(dir) => Action::RemoveDir(dir.clone()),
        }
    }

    /// Takes the caller's answer and moves on.
    pub fn step(self, event: &Event) -> (next: Cleaner)
        ensures
            next@ == self@.step(event@),
            next@.wf(),
    {
        proof {
            use_type_invariant(&self);
        }
        if self.pos >= self.queue.len() {
            return self;
        }
        match (&self.stage, event) {
            (Stage::Probe, Event::Probed(found)) => {
                match found {
                    LinkState::Absent => self.settle(false),
                    _ => {
                        if found.is_drifted() {
                            self.settle(true)
                        } else {
                            Cleaner { stage: Stage::Delete, ..self }
                        }
                    },
                }
            },
            (Stage::Delete, Event::Deleted(ok)) => {
                if !*ok {
                    self.settle(true)
                } else if self.rmdir {
                    let above = parent_dir(self.queue[self.pos].name());
                    self.climb(above)
                } else {
                    self.settle(false)
                }
            },
            (Stage::Prune(dir), Event::DirRemoved(ok)) => {
                if *ok {
                    let above = parent_dir(dir.as_str());
                    self.climb(above)
                } else {
                    self.settle(false)
                }
            },
            _ => self,
        }
    }

    fn settle(self, keep: bool) -> (next: Cleaner)
        requires
            !self@.done(),
        ensures
            next@ == self@.settle(keep),
            next@.wf(),
    {
        proof {
            use_type_invariant(&self);
        }
        let Cleaner { queue, pos, mut kept, rmdir, stage: _ } = self;
        assert(queue.deep_view().len() == queue.len());
        if keep {
            let ghost before = kept.deep_view();
            kept.push(queue[pos].clone());
            assert(kept.deep_view() =~= before.push(queue.deep_view()[pos as int]));
        }
        Cleaner { queue, pos: pos + 1, kept, rmdir, stage: Stage::Probe }
    }

    fn climb(self, above: Option<String>) -> (next: Cleaner)
        requires
            !self@.done(),
            self@.rmdir,
        ensures
            next@ == match above.deep_view() {
                Some(dir) => CleanerView { stage: CleanStage::Prune(dir), ..self@ },
                None => self@.settle(false),
            },
            next@.wf(),
    {
        proof {
            use_type_invariant(&self);
        }
        match above {
            Some(dir) => Cleaner { stage: Stage::Prune(dir), ..self },
            None => self.settle(false),
        }
    }

    /// Ends the run and gives the cache to store: what was kept, and every
    /// candidate that was not settled.
    pub fn finish(self) -> (cache: Cache)
        ensures
            cache@ == self@.record(),
    {
        proof {
            use_type_invariant(&self);
        }
        let Cleaner { queue, pos, mut kept, rmdir: _, stage: _ } = self;
        let mut i: usize = pos;
        while i < queue.len()
            invariant
                pos <= i <= queue.len(),
                kept.deep_view() == self@.kept + queue.deep_view().subrange(pos as int, i as int),
            decreases queue.len() - i,
        {
            let ghost before = kept.deep_view();
            kept.push(queue[i].clone());
            assert(kept.deep_view() =~= before.push(queue.deep_view()[i as int]));
            assert(queue.deep_view().subrange(pos as int, i + 1) =~= queue.deep_view().subrange(
                pos as int,
                i as int,
            ).push(queue.deep_view()[i as int]));
            i += 1;
        }
        assert(queue.deep_view().subrange(pos as int, i as int) =~= queue.deep_view().skip(
            pos as int,
        ));
        Cache::new(kept)
    }
}

} // verus!
