//! The task engine: a batch of packages, a bounded number of workers that
//! take them one by one from a shared queue, and the names of the packages
//! whose work failed.
//!
//! The engine is the state that the workers share. A worker takes a package,
//! works on it outside the engine and reports how it went. Who the workers
//! are, and in which order they come, is not the engine's business: whatever
//! the order, the names that end up recorded are those of the packages whose
//! work failed.

use vstd::prelude::*;
use crate::error::Error;
use crate::order::views;
use crate::package::{views_of, Package, PackageView};

verus! {

/// Where an engine stands in its life.
#[derive(Debug, Clone, Copy, PartialEq, Eq, Structural)]
pub enum Phase {
    /// Packages may be added; no work has begun.
    Accepting,
    /// Workers take packages and report; nothing can be added.
    Running,
    /// Every package was taken and reported.
    Completed,
}

/// An engine as a mathematical value.
pub struct Engine {
    /// The ceiling on the number of workers.
    pub max_workers: nat,
    pub phase: Phase,
    /// The batch, in the order of submission.
    pub items: Seq<PackageView>,
    /// How many packages were handed out: those in front of this position.
    pub next: nat,
    /// For each worker, the position of the package it holds, if any.
    pub slots: Seq<Option<nat>>,
    /// The names recorded as failed, in the order of the reports.
    pub failed: Seq<Seq<char>>,
    /// For each package handed out, the worker that took it.
    pub takers: Seq<nat>,
    /// The positions of the packages reported on, in the order of the reports.
    pub reported: Seq<nat>,
}

/// One move of a worker.
pub enum Step {
    /// The worker takes the next package of the queue.
    Take { worker: nat },
    /// The worker reports how the work on its package went.
    Report { worker: nat, ok: bool },
}

/// The smaller of two numbers.
pub open spec fn least(a: nat, b: nat) -> nat {
    if a <= b {
        a
    } else {
        b
    }
}

/// A new engine for at most `max_workers` workers.
pub open spec fn created(max_workers: nat) -> Engine {
    Engine {
        max_workers,
        phase: Phase::Accepting,
        items: Seq::empty(),
        next: 0,
        slots: Seq::empty(),
        failed: Seq::empty(),
        takers: Seq::empty(),
        reported: Seq::empty(),
    }
}

impl Engine {
    /// No worker holds a package.
    pub open spec fn idle(self) -> bool {
        forall|w: int| 0 <= w < self.slots.len() ==> (#[trigger] self.slots[w]) is None
    }

    /// Some worker holds the package at position `i`.
    pub open spec fn holds(self, i: nat) -> bool {
        exists|w: int| 0 <= w < self.slots.len() && #[trigger] self.slots[w] == Some(i)
    }

    /// The package at position `i` was taken and reported.
    pub open spec fn finished(self, i: nat) -> bool {
        i < self.next && !self.holds(i)
    }

    /// What holds of every engine: the workers are no more than the ceiling
    /// and no more than the batch, each holds at most one package, no package
    /// is held by two, and only packages that were handed out are held; each
    /// package handed out has the one worker that took it, and a package is
    /// reported on once, when its worker lets go of it.
    pub open spec fn wf(self) -> bool {
        &&& self.max_workers >= 1
        &&& self.slots.len() <= self.max_workers
        &&& self.next <= self.items.len()
        &&& self.takers.len() == self.next
        &&& forall|w: int|
            0 <= w < self.slots.len() && (#[trigger] self.slots[w]) is Some
                ==> self.takers[self.slots[w]->0 as int] == w
        &&& self.reported.no_duplicates()
        &&& forall|i: nat| #[trigger] self.reported.contains(i) <==> self.finished(i)
        &&& forall|w: int|
            0 <= w < self.slots.len() && (#[trigger] self.slots[w]) is Some ==> self.slots[w]->0
                < self.next
        &&& forall|v: int, w: int|
            0 <= v < self.slots.len() && 0 <= w < self.slots.len() && v != w
                && (#[trigger] self.slots[v]) is Some ==> self.slots[v] != #[trigger] self.slots[w]
        &&& match self.phase {
            Phase::Accepting => self.next == 0 && self.slots.len() == 0 && self.failed.len() == 0,
            Phase::Running => self.slots.len() == least(self.max_workers, self.items.len()) && !(
            self.next == self.items.len() && self.idle()),
            Phase::Completed => self.next == self.items.len() && self.idle(),
        }
    }

    /// The engine with `p` at the end of its batch.
    pub open spec fn added(self, p: PackageView) -> Engine {
        Engine { items: self.items.push(p), ..self }
    }

    /// The engine once the work has begun: as many idle workers as the
    /// ceiling and the batch allow; with an empty batch, nothing is left to do.
    pub open spec fn begun(self) -> Engine {
        if self.items.len() == 0 {
            Engine { phase: Phase::Completed, ..self }
        } else {
            Engine {
                phase: Phase::Running,
                slots: Seq::new(least(self.max_workers, self.items.len()), |w: int| None),
                ..self
            }
        }
    }

    /// The worker `w` exists, holds nothing, and a package is left to take.
    pub open spec fn can_take(self, w: nat) -> bool {
        &&& self.phase == Phase::Running
        &&& w < self.slots.len()
        &&& self.slots[w as int] is None
        &&& self.next < self.items.len()
    }

    /// The engine after the worker `w` took the next package.
    pub open spec fn taken(self, w: nat) -> Engine {
        Engine {
            next: self.next + 1,
            slots: self.slots.update(w as int, Some(self.next)),
            takers: self.takers.push(w),
            ..self
        }
    }

    /// The worker `w` exists and holds a package.
    pub open spec fn can_report(self, w: nat) -> bool {
        &&& self.phase == Phase::Running
        &&& w < self.slots.len()
        &&& self.slots[w as int] is Some
    }

    /// The engine after the worker `w` reported on its package: the worker
    /// holds nothing, the package's name is recorded unless the work went
    /// well, and the engine has completed if that was the last report due.
    pub open spec fn reported(self, w: nat, ok: bool) -> Engine {
        let slots = self.slots.update(w as int, None);
        let name = self.items[self.slots[w as int]->0 as int].name;
        let rest = Engine {
            slots,
            failed: if ok {
                self.failed
            } else {
                self.failed.push(name)
            },
            reported: self.reported.push(self.slots[w as int]->0),
            ..self
        };
        if rest.next == rest.items.len() && rest.idle() {
            Engine { phase: Phase::Completed, ..rest }
        } else {
            rest
        }
    }

    /// Whether the move `step` can be made.
    pub open spec fn enabled(self, step: Step) -> bool {
        match step {
            Step::Take { worker } => self.can_take(worker),
            Step::Report { worker, ok } => self.can_report(worker),
        }
    }

    /// The engine after the move `step`.
    pub open spec fn after(self, step: Step) -> Engine {
        match step {
            Step::Take { worker } => self.taken(worker),
            Step::Report { worker, ok } => self.reported(worker, ok),
        }
    }

    /// The engine after the moves `steps`, made one after the other.
    pub open spec fn after_all(self, steps: Seq<Step>) -> Engine
        decreases steps.len(),
    {
        if steps.len() == 0 {
            self
        } else {
            self.after_all(steps.drop_last()).after(steps.last())
        }
    }

    /// The moves `steps` can be made one after the other.
    pub open spec fn allows(self, steps: Seq<Step>) -> bool
        decreases steps.len(),
    {
        if steps.len() == 0 {
            true
        } else {
            &&& self.allows(steps.drop_last())
            &&& self.after_all(steps.drop_last()).enabled(steps.last())
        }
    }

    /// The move `step` can be made, and where it is a report, it says what
    /// the work `works` gives for the package that the worker holds.
    pub open spec fn follows(self, step: Step, works: spec_fn(PackageView) -> bool) -> bool {
        &&& self.enabled(step)
        &&& match step {
            Step::Take { worker } => true,
            Step::Report { worker, ok } => ok == works(
                self.items[self.slots[worker as int]->0 as int],
            ),
        }
    }

    /// The moves `steps` can be made one after the other, and every report
    /// among them says what `works` gives.
    pub open spec fn is_run(self, steps: Seq<Step>, works: spec_fn(PackageView) -> bool) -> bool
        decreases steps.len(),
    {
        if steps.len() == 0 {
            true
        } else {
            &&& self.is_run(steps.drop_last(), works)
            &&& self.after_all(steps.drop_last()).follows(steps.last(), works)
        }
    }

    /// The names recorded are those of the finished packages whose work
    /// failed.
    pub open spec fn records(self, works: spec_fn(PackageView) -> bool) -> bool {
        forall|name: Seq<char>|
            self.failed.contains(name) <==> exists|i: nat|
                i < self.next && !self.holds(i) && !works(#[trigger] self.items[i as int])
                    && self.items[i as int].name == name
    }
}

/// The engine that has `batch` as its batch and has begun its work with a
/// ceiling of `max_workers` workers.
pub open spec fn started(batch: Seq<PackageView>, max_workers: nat) -> Engine {
    (Engine { items: batch, ..created(max_workers) }).begun()
}

/// The names of the packages of `batch` on which the work `works` fails.
pub open spec fn failing_names(batch: Seq<PackageView>, works: spec_fn(PackageView) -> bool) -> Set<
    Seq<char>,
> {
    Set::new(
        |name: Seq<char>|
            exists|i: int| 0 <= i < batch.len() && !works(#[trigger] batch[i]) && batch[i].name == name,
    )
}

/// After a worker took the next package, that package is held, and every
/// package handed out before is held exactly if it was.
pub proof fn lemma_holds_after_take(e: Engine, w: nat)
    requires
        e.wf(),
        e.can_take(w),
    ensures
        e.taken(w).holds(e.next),
        !e.holds(e.next),
        forall|i: nat| i != e.next ==> #[trigger] e.taken(w).holds(i) == e.holds(i),
{
    let f = e.taken(w);
    assert(f.slots[w as int] == Some(e.next));
    if e.holds(e.next) {
        let v = choose|v: int| 0 <= v < e.slots.len() && #[trigger] e.slots[v] == Some(e.next);
        assert(e.slots[v] is Some);
    }
    assert forall|i: nat| i != e.next implies #[trigger] f.holds(i) == e.holds(i) by {
        if e.holds(i) {
            let v = choose|v: int| 0 <= v < e.slots.len() && #[trigger] e.slots[v] == Some(i);
            assert(f.slots[v] == Some(i));
        }
        if f.holds(i) {
            let v = choose|v: int| 0 <= v < f.slots.len() && #[trigger] f.slots[v] == Some(i);
            assert(e.slots[v] == Some(i));
        }
    }
}

/// After a worker reported on its package, that package is held no more,
/// and every other package is held exactly if it was.
pub proof fn lemma_holds_after_report(e: Engine, w: nat, ok: bool)
    requires
        e.wf(),
        e.can_report(w),
    ensures
        e.holds(e.slots[w as int]->0),
        !e.reported(w, ok).holds(e.slots[w as int]->0),
        forall|i: nat|
            i != e.slots[w as int]->0 ==> #[trigger] e.reported(w, ok).holds(i) == e.holds(i),
{
    let f = e.reported(w, ok);
    let at = e.slots[w as int]->0;
    assert(e.slots[w as int] == Some(at));
    if f.holds(at) {
        let v = choose|v: int| 0 <= v < f.slots.len() && #[trigger] f.slots[v] == Some(at);
        assert(e.slots[v] == Some(at));
    }
    assert forall|i: nat| i != at implies #[trigger] f.holds(i) == e.holds(i) by {
        if e.holds(i) {
            let v = choose|v: int| 0 <= v < e.slots.len() && #[trigger] e.slots[v] == Some(i);
            assert(f.slots[v] == Some(i));
        }
        if f.holds(i) {
            let v = choose|v: int| 0 <= v < f.slots.len() && #[trigger] f.slots[v] == Some(i);
            assert(e.slots[v] == Some(i));
        }
    }
}

/// A move that can be made leaves the engine well-formed, with the batch and
/// the ceiling it had.
pub proof fn lemma_step_keeps_wf(e: Engine, step: Step)
    requires
        e.wf(),
        e.enabled(step),
    ensures
        e.after(step).wf(),
        e.after(step).items == e.items,
        e.after(step).max_workers == e.max_workers,
{
    let f = e.after(step);
    match step {
        Step::Take { worker } => {
            lemma_holds_after_take(e, worker);
            assert(f.slots[worker as int] is Some);
            assert(!f.idle());
            assert forall|i: nat| #[trigger] f.reported.contains(i) <==> f.finished(i) by {
                assert(e.reported.contains(i) <==> e.finished(i));
            }
        },
        Step::Report { worker, ok } => {
            lemma_holds_after_report(e, worker, ok);
            let at = e.slots[worker as int]->0;
            if f.phase == Phase::Running {
                assert(!(f.next == f.items.len() && f.idle()));
            }
            assert(!e.reported.contains(at)) by {
                assert(e.reported.contains(at) <==> e.finished(at));
            }
            assert forall|i: nat| #[trigger] f.reported.contains(i) <==> f.finished(i) by {
                assert(e.reported.contains(i) <==> e.finished(i));
                if f.reported.contains(i) {
                    let k = choose|k: int| 0 <= k < f.reported.len() && f.reported[k] == i;
                    if k < e.reported.len() {
                        assert(e.reported[k] == i);
                    }
                }
                if f.finished(i) {
                    if i == at {
                        assert(f.reported[e.reported.len() as int] == i);
                    } else {
                        let k = choose|k: int| 0 <= k < e.reported.len() && e.reported[k] == i;
                        assert(f.reported[k] == i);
                    }
                }
            }
            assert(f.reported.no_duplicates()) by {
                assert forall|a: int, b: int|
                    0 <= a < f.reported.len() && 0 <= b < f.reported.len() && a != b implies f.reported[a]
                    != f.reported[b] by {
                    if a < e.reported.len() && b < e.reported.len() {
                        assert(e.reported[a] != e.reported[b]);
                    } else if a < e.reported.len() {
                        assert(e.reported.contains(e.reported[a]));
                    } else {
                        assert(e.reported.contains(e.reported[b]));
                    }
                }
            }
        },
    }
}

/// A move that follows the work `works` keeps the record true: the names
/// recorded stay those of the finished packages whose work failed.
pub proof fn lemma_step_keeps_records(e: Engine, step: Step, works: spec_fn(PackageView) -> bool)
    requires
        e.wf(),
        e.records(works),
        e.follows(step, works),
    ensures
        e.after(step).records(works),
{
    let f = e.after(step);
    match step {
        Step::Take { worker } => {
            lemma_holds_after_take(e, worker);
            assert forall|name: Seq<char>|
                f.failed.contains(name) <==> exists|i: nat|
                    i < f.next && !f.holds(i) && !works(#[trigger] f.items[i as int])
                        && f.items[i as int].name == name by {
                if f.failed.contains(name) {
                    let i = choose|i: nat|
                        i < e.next && !e.holds(i) && !works(#[trigger] e.items[i as int])
                            && e.items[i as int].name == name;
                    assert(!f.holds(i));
                }
            }
        },
        Step::Report { worker, ok } => {
            lemma_holds_after_report(e, worker, ok);
            let at = e.slots[worker as int]->0;
            assert forall|name: Seq<char>|
                f.failed.contains(name) <==> exists|i: nat|
                    i < f.next && !f.holds(i) && !works(#[trigger] f.items[i as int])
                        && f.items[i as int].name == name by {
                let new_name = e.items[at as int].name;
                if f.failed.contains(name) {
                    if e.failed.contains(name) {
                        let i = choose|i: nat|
                            i < e.next && !e.holds(i) && !works(#[trigger] e.items[i as int])
                                && e.items[i as int].name == name;
                        assert(!f.holds(i));
                    } else {
                        assert(!ok && name == new_name) by {
                            if !ok {
                                let k = choose|k: int|
                                    0 <= k < f.failed.len() && f.failed[k] == name;
                                if k < e.failed.len() {
                                    assert(e.failed[k] == name);
                                }
                            }
                        }
                        assert(!works(f.items[at as int]));
                    }
                }
                if exists|i: nat|
                    i < f.next && !f.holds(i) && !works(#[trigger] f.items[i as int])
                        && f.items[i as int].name == name {
                    let i = choose|i: nat|
                        i < f.next && !f.holds(i) && !works(#[trigger] f.items[i as int])
                            && f.items[i as int].name == name;
                    if i == at {
                        assert(!ok);
                        assert(f.failed[e.failed.len() as int] == name);
                    } else {
                        assert(!e.holds(i));
                        assert(!works(e.items[i as int]));
                        assert(e.failed.contains(name));
                        let k = choose|k: int| 0 <= k < e.failed.len() && e.failed[k] == name;
                        assert(f.failed[k] == name);
                    }
                }
            }
        },
    }
}

/// Moves that follow the work `works` lead from a well-formed engine with a
/// true record to an engine with a true record.
pub proof fn lemma_run_keeps_records(
    e: Engine,
    steps: Seq<Step>,
    works: spec_fn(PackageView) -> bool,
)
    requires
        e.wf(),
        e.records(works),
        e.is_run(steps, works),
    ensures
        e.after_all(steps).records(works),
    decreases steps.len(),
{
    if steps.len() > 0 {
        lemma_run_keeps_records(e, steps.drop_last(), works);
        lemma_run_allows(e, steps.drop_last(), works);
        lemma_moves_keep_wf(e, steps.drop_last());
        lemma_step_keeps_records(e.after_all(steps.drop_last()), steps.last(), works);
    }
}

/// An engine that has just begun is well-formed.
pub proof fn lemma_started_wf(batch: Seq<PackageView>, max_workers: nat)
    requires
        max_workers >= 1,
    ensures
        started(batch, max_workers).wf(),
        started(batch, max_workers).items == batch,
{
    let first = started(batch, max_workers);
    assert(first.idle());
    assert forall|i: nat| #[trigger] first.reported.contains(i) <==> first.finished(i) by {}
}

/// Every package of a batch that was worked through completely was taken
/// by exactly one worker and reported on exactly once: each position of the
/// batch has its taker, and stands once among the positions reported on.
pub proof fn lemma_each_package_once(batch: Seq<PackageView>, max_workers: nat, steps: Seq<Step>)
    requires
        max_workers >= 1,
        started(batch, max_workers).allows(steps),
        started(batch, max_workers).after_all(steps).phase == Phase::Completed,
    ensures
        started(batch, max_workers).after_all(steps).takers.len() == batch.len(),
        started(batch, max_workers).after_all(steps).reported.len() == batch.len(),
        started(batch, max_workers).after_all(steps).reported.no_duplicates(),
        forall|i: nat|
            i < batch.len() <==> #[trigger] started(batch, max_workers).after_all(
                steps,
            ).reported.contains(i),
{
    let first = started(batch, max_workers);
    lemma_started_wf(batch, max_workers);
    lemma_moves_keep_wf(first, steps);
    let last = first.after_all(steps);
    assert forall|i: nat| i < batch.len() <==> #[trigger] last.reported.contains(i) by {
        assert(last.reported.contains(i) <==> last.finished(i));
        if i < batch.len() && last.holds(i) {
            let w = choose|w: int| 0 <= w < last.slots.len() && #[trigger] last.slots[w] == Some(i);
            assert(last.slots[w] is None);
        }
    }
    let all = Set::new(|i: nat| i < batch.len());
    assert(last.reported.to_set() =~= all) by {
        assert forall|i: nat| last.reported.to_set().contains(i) == all.contains(i) by {
            assert(last.reported.to_set().contains(i) == last.reported.contains(i));
        }
    }
    last.reported.unique_seq_to_set();
    lemma_below_len(batch.len());
}

/// A run is finite: a batch of `n` packages is worked through in `2 * n`
/// moves, one to take and one to report for each package, and no sequence
/// of moves is longer.
pub proof fn lemma_run_is_bounded(batch: Seq<PackageView>, max_workers: nat, steps: Seq<Step>)
    requires
        max_workers >= 1,
        started(batch, max_workers).allows(steps),
    ensures
        steps.len() == started(batch, max_workers).after_all(steps).next + started(
            batch,
            max_workers,
        ).after_all(steps).reported.len(),
        steps.len() <= 2 * batch.len(),
        started(batch, max_workers).after_all(steps).phase == Phase::Completed ==> steps.len() == 2
            * batch.len(),
{
    let first = started(batch, max_workers);
    lemma_started_wf(batch, max_workers);
    lemma_moves_keep_wf(first, steps);
    lemma_moves_are_counted(first, steps);
    let last = first.after_all(steps);
    let handed = Set::new(|i: nat| i < last.next);
    lemma_below_len(last.next);
    assert(last.reported.to_set().subset_of(handed)) by {
        assert forall|i: nat| last.reported.to_set().contains(i) implies handed.contains(i) by {
            assert(last.reported.to_set().contains(i) == last.reported.contains(i));
            assert(last.reported.contains(i) <==> last.finished(i));
        }
    }
    last.reported.unique_seq_to_set();
    vstd::set_lib::lemma_len_subset(last.reported.to_set(), handed);
    if last.phase == Phase::Completed {
        lemma_each_package_once(batch, max_workers, steps);
    }
}

/// Each move either hands out a package or reports on one.
proof fn lemma_moves_are_counted(e: Engine, steps: Seq<Step>)
    requires
        e.allows(steps),
    ensures
        e.after_all(steps).next + e.after_all(steps).reported.len() == e.next + e.reported.len()
            + steps.len(),
    decreases steps.len(),
{
    if steps.len() > 0 {
        lemma_moves_are_counted(e, steps.drop_last());
    }
}

/// There are `n` numbers below `n`.
proof fn lemma_below_len(n: nat)
    ensures
        Set::new(|i: nat| i < n).finite(),
        Set::new(|i: nat| i < n).len() == n,
    decreases n,
{
    let s = Set::new(|i: nat| i < n);
    if n == 0 {
        assert(s =~= Set::<nat>::empty());
    } else {
        let t = Set::new(|i: nat| i < (n - 1) as nat);
        lemma_below_len((n - 1) as nat);
        assert(s =~= t.insert((n - 1) as nat));
    }
}

/// Moves that can be made one after the other lead from a well-formed
/// engine to a well-formed engine with the same batch.
pub proof fn lemma_moves_keep_wf(e: Engine, steps: Seq<Step>)
    requires
        e.wf(),
        e.allows(steps),
    ensures
        e.after_all(steps).wf(),
        e.after_all(steps).items == e.items,
        e.after_all(steps).max_workers == e.max_workers,
    decreases steps.len(),
{
    if steps.len() > 0 {
        lemma_moves_keep_wf(e, steps.drop_last());
        lemma_step_keeps_wf(e.after_all(steps.drop_last()), steps.last());
    }
}

/// The moves of a run can be made one after the other.
pub proof fn lemma_run_allows(e: Engine, steps: Seq<Step>, works: spec_fn(PackageView) -> bool)
    requires
        e.is_run(steps, works),
    ensures
        e.allows(steps),
    decreases steps.len(),
{
    if steps.len() > 0 {
        lemma_run_allows(e, steps.drop_last(), works);
    }
}

/// A batch is worked through completely however many workers share it and
/// in whatever order they move: once the engine has completed, the names
/// recorded are exactly those of the packages of the batch whose work fails.
pub proof fn lemma_completed_run(
    batch: Seq<PackageView>,
    max_workers: nat,
    steps: Seq<Step>,
    works: spec_fn(PackageView) -> bool,
)
    requires
        max_workers >= 1,
        started(batch, max_workers).is_run(steps, works),
        started(batch, max_workers).after_all(steps).phase == Phase::Completed,
    ensures
        started(batch, max_workers).after_all(steps).failed.to_set() == failing_names(batch, works),
{
    let first = started(batch, max_workers);
    lemma_started_wf(batch, max_workers);
    assert(first.records(works));
    lemma_run_allows(first, steps, works);
    lemma_moves_keep_wf(first, steps);
    lemma_run_keeps_records(first, steps, works);
    let last = first.after_all(steps);
    assert forall|name: Seq<char>| last.failed.to_set().contains(name) == failing_names(
        batch,
        works,
    ).contains(name) by {
        assert(last.failed.to_set().contains(name) == last.failed.contains(name));
        if last.failed.contains(name) {
            let i = choose|i: nat|
                i < last.next && !last.holds(i) && !works(#[trigger] last.items[i as int])
                    && last.items[i as int].name == name;
            assert(!works(batch[i as int]) && batch[i as int].name == name);
        }
        if failing_names(batch, works).contains(name) {
            let i = choose|i: int|
                0 <= i < batch.len() && !works(#[trigger] batch[i]) && batch[i].name == name;
            assert(!last.holds(i as nat)) by {
                if last.holds(i as nat) {
                    let w = choose|w: int|
                        0 <= w < last.slots.len() && #[trigger] last.slots[w] == Some(i as nat);
                    assert(last.slots[w] is None);
                }
            }
            assert(!works(last.items[i]));
        }
    }
    assert(last.failed.to_set() =~= failing_names(batch, works));
}

/// While the engine runs, some worker can move: one that holds a package
/// can report, and where none does, the first can take.
pub proof fn lemma_running_can_move(e: Engine)
    requires
        e.wf(),
        e.phase == Phase::Running,
    ensures
        exists|step: Step| e.enabled(step),
{
    if e.idle() {
        assert(e.can_take(0));
        assert(e.enabled(Step::Take { worker: 0 }));
    } else {
        let w = choose|w: int| 0 <= w < e.slots.len() && !((#[trigger] e.slots[w]) is None);
        assert(e.can_report(w as nat));
        assert(e.enabled(Step::Report { worker: w as nat, ok: true }));
    }
}

/// The moves of a single worker that takes and reports on the first `n`
/// packages of `batch`, one after the other.
pub open spec fn serial_steps(
    batch: Seq<PackageView>,
    works: spec_fn(PackageView) -> bool,
    n: nat,
) -> Seq<Step>
    decreases n,
{
    if n == 0 {
        Seq::empty()
    } else {
        serial_steps(batch, works, (n - 1) as nat).push(Step::Take { worker: 0 }).push(
            Step::Report { worker: 0, ok: works(batch[n - 1]) },
        )
    }
}

/// A single worker gets through the first `n` packages of a batch, and has
/// completed the run when `n` is the size of the batch.
pub proof fn lemma_serial_run(
    batch: Seq<PackageView>,
    max_workers: nat,
    works: spec_fn(PackageView) -> bool,
    n: nat,
)
    requires
        max_workers >= 1,
        n <= batch.len(),
    ensures
        started(batch, max_workers).is_run(serial_steps(batch, works, n), works),
        started(batch, max_workers).after_all(serial_steps(batch, works, n)).wf(),
        started(batch, max_workers).after_all(serial_steps(batch, works, n)).idle(),
        started(batch, max_workers).after_all(serial_steps(batch, works, n)).next == n,
        started(batch, max_workers).after_all(serial_steps(batch, works, n)).items == batch,
        started(batch, max_workers).after_all(serial_steps(batch, works, n)).phase == if n
            == batch.len() {
            Phase::Completed
        } else {
            Phase::Running
        },
    decreases n,
{
    let first = started(batch, max_workers);
    lemma_started_wf(batch, max_workers);
    if n == 0 {
        assert(first.idle());
    } else {
        let front = serial_steps(batch, works, (n - 1) as nat);
        let take = Step::Take { worker: 0 };
        let report = Step::Report { worker: 0, ok: works(batch[n - 1]) };
        lemma_serial_run(batch, max_workers, works, (n - 1) as nat);
        let e = first.after_all(front);
        assert(front.push(take).drop_last() =~= front);
        assert(front.push(take).push(report).drop_last() =~= front.push(take));
        assert(e.can_take(0));
        lemma_step_keeps_wf(e, take);
        let mid = e.after(take);
        assert(first.after_all(front.push(take)) == mid);
        assert(mid.slots[0] == Some((n - 1) as nat));
        assert(mid.can_report(0));
        lemma_step_keeps_wf(mid, report);
        let last = mid.after(report);
        assert(first.after_all(front.push(take).push(report)) == last);
        assert(first.is_run(front.push(take), works));
        assert(last.idle()) by {
            assert forall|w: int| 0 <= w < last.slots.len() implies (#[trigger] last.slots[w])
                is None by {
                if w != 0 {
                    assert(e.slots[w] is None);
                }
            }
        }
    }
}

/// Every batch can be worked through: there is a run that completes, under
/// any work and with any ceiling.
pub proof fn lemma_some_run_completes(
    batch: Seq<PackageView>,
    max_workers: nat,
    works: spec_fn(PackageView) -> bool,
)
    requires
        max_workers >= 1,
    ensures
        exists|steps: Seq<Step>|
            started(batch, max_workers).is_run(steps, works) && (#[trigger] started(
                batch,
                max_workers,
            ).after_all(steps)).phase == Phase::Completed,
{
    lemma_serial_run(batch, max_workers, works, batch.len());
    let steps = serial_steps(batch, works, batch.len());
    assert(started(batch, max_workers).is_run(steps, works) && started(
        batch,
        max_workers,
    ).after_all(steps).phase == Phase::Completed);
}

/// The failure set does not depend on the number of workers: two complete
/// runs of one batch under the same work, with any two ceilings and any two
/// orders of moves, record the same set of names.
pub proof fn failures_independent_of_workers(
    batch: Seq<PackageView>,
    works: spec_fn(PackageView) -> bool,
    workers_a: nat,
    steps_a: Seq<Step>,
    workers_b: nat,
    steps_b: Seq<Step>,
)
    requires
        workers_a >= 1,
        workers_b >= 1,
        started(batch, workers_a).is_run(steps_a, works),
        started(batch, workers_a).after_all(steps_a).phase == Phase::Completed,
        started(batch, workers_b).is_run(steps_b, works),
        started(batch, workers_b).after_all(steps_b).phase == Phase::Completed,
    ensures
        started(batch, workers_a).after_all(steps_a).failed.to_set() == started(
            batch,
            workers_b,
        ).after_all(steps_b).failed.to_set(),
{
    lemma_completed_run(batch, workers_a, steps_a, works);
    lemma_completed_run(batch, workers_b, steps_b, works);
}

/// The failure set does not depend on the order of submission: complete runs
/// of two batches that hold the same packages, in whatever order, record the
/// same set of names under the same work.
pub proof fn failures_independent_of_submission(
    batch_a: Seq<PackageView>,
    batch_b: Seq<PackageView>,
    works: spec_fn(PackageView) -> bool,
    workers_a: nat,
    steps_a: Seq<Step>,
    workers_b: nat,
    steps_b: Seq<Step>,
)
    requires
        batch_a.to_multiset() == batch_b.to_multiset(),
        workers_a >= 1,
        workers_b >= 1,
        started(batch_a, workers_a).is_run(steps_a, works),
        started(batch_a, workers_a).after_all(steps_a).phase == Phase::Completed,
        started(batch_b, workers_b).is_run(steps_b, works),
        started(batch_b, workers_b).after_all(steps_b).phase == Phase::Completed,
    ensures
        started(batch_a, workers_a).after_all(steps_a).failed.to_set() == started(
            batch_b,
            workers_b,
        ).after_all(steps_b).failed.to_set(),
{
    lemma_completed_run(batch_a, workers_a, steps_a, works);
    lemma_completed_run(batch_b, workers_b, steps_b, works);
    lemma_failing_names_of_same_packages(batch_a, batch_b, works);
}

/// Two batches that hold the same packages have the same failing names.
pub proof fn lemma_failing_names_of_same_packages(
    batch_a: Seq<PackageView>,
    batch_b: Seq<PackageView>,
    works: spec_fn(PackageView) -> bool,
)
    requires
        batch_a.to_multiset() == batch_b.to_multiset(),
    ensures
        failing_names(batch_a, works) == failing_names(batch_b, works),
{
    broadcast use vstd::seq_lib::group_to_multiset_ensures;

    assert forall|name: Seq<char>| failing_names(batch_a, works).contains(name)
        == failing_names(batch_b, works).contains(name) by {
        if failing_names(batch_a, works).contains(name) {
            let i = choose|i: int|
                0 <= i < batch_a.len() && !works(#[trigger] batch_a[i]) && batch_a[i].name == name;
            assert(batch_a.contains(batch_a[i]));
            assert(batch_a.to_multiset().count(batch_a[i]) > 0);
            assert(batch_b.contains(batch_a[i]));
            let j = choose|j: int| 0 <= j < batch_b.len() && batch_b[j] == batch_a[i];
            assert(!works(batch_b[j]) && batch_b[j].name == name);
        }
        if failing_names(batch_b, works).contains(name) {
            let i = choose|i: int|
                0 <= i < batch_b.len() && !works(#[trigger] batch_b[i]) && batch_b[i].name == name;
            assert(batch_b.contains(batch_b[i]));
            assert(batch_b.to_multiset().count(batch_b[i]) > 0);
            assert(batch_a.contains(batch_b[i]));
            let j = choose|j: int| 0 <= j < batch_a.len() && batch_a[j] == batch_b[i];
            assert(!works(batch_a[j]) && batch_a[j].name == name);
        }
    }
    assert(failing_names(batch_a, works) =~= failing_names(batch_b, works));
}

/// The names of the packages `items` whose outcome in `oks` is a failure, in
/// the order of the packages.
pub open spec fn failed_names(items: Seq<PackageView>, oks: Seq<bool>) -> Seq<Seq<char>>
    decreases items.len(),
{
    if items.len() == 0 || oks.len() != items.len() {
        Seq::empty()
    } else {
        let rest = failed_names(items.drop_last(), oks.drop_last());
        if oks.last() {
            rest
        } else {
            rest.push(items.last().name)
        }
    }
}

/// Which of the results `outs` are successes.
pub open spec fn outcomes(outs: Seq<Result<(), Error>>) -> Seq<bool> {
    outs.map_values(|o: Result<(), Error>| o is Ok)
}

/// Where the outcomes `oks` are what the work `works` gives for each package,
/// the names of `failed_names` are the failing names of the batch.
pub proof fn lemma_failed_names(
    items: Seq<PackageView>,
    oks: Seq<bool>,
    works: spec_fn(PackageView) -> bool,
)
    requires
        oks.len() == items.len(),
        forall|i: int| 0 <= i < items.len() ==> oks[i] == works(#[trigger] items[i]),
    ensures
        failed_names(items, oks).to_set() == failing_names(items, works),
    decreases items.len(),
{
    let names = failed_names(items, oks);
    if items.len() == 0 {
        assert(names.to_set() =~= failing_names(items, works));
    } else {
        let front = items.drop_last();
        let rest = failed_names(front, oks.drop_last());
        lemma_failed_names(front, oks.drop_last(), works);
        assert forall|name: Seq<char>| names.to_set().contains(name) == failing_names(
            items,
            works,
        ).contains(name) by {
            assert(rest.to_set().contains(name) == rest.contains(name));
            assert(names.to_set().contains(name) == names.contains(name));
            if names.contains(name) {
                let k = choose|k: int| 0 <= k < names.len() && names[k] == name;
                if k < rest.len() {
                    assert(rest[k] == name);
                    assert(failing_names(front, works).contains(name));
                    let i = choose|i: int|
                        0 <= i < front.len() && !works(#[trigger] front[i]) && front[i].name
                            == name;
                    assert(items[i] == front[i]);
                } else {
                    assert(!works(items[items.len() - 1]));
                }
            }
            if failing_names(items, works).contains(name) {
                let i = choose|i: int|
                    0 <= i < items.len() && !works(#[trigger] items[i]) && items[i].name == name;
                if i < front.len() {
                    assert(front[i] == items[i]);
                    assert(failing_names(front, works).contains(name));
                    let k = choose|k: int| 0 <= k < rest.len() && rest[k] == name;
                    assert(names[k] == name);
                } else {
                    assert(names[rest.len() as int] == name);
                }
            }
        }
        assert(names.to_set() =~= failing_names(items, works));
    }
}

/// The positions that the workers hold, as mathematical values.
pub open spec fn slots_view(slots: Seq<Option<usize>>) -> Seq<Option<nat>> {
    slots.map_values(
        |s: Option<usize>|
            match s {
                Some(i) => Some(i as nat),
                None => None,
            },
    )
}

/// The state that the workers of one run share.
pub struct TaskManager {
    thread_num: usize,
    phase: Phase,
    packs: Vec<Package>,
    next: usize,
    slots: Vec<Option<usize>>,
    fails: Vec<String>,
    takers: Ghost<Seq<nat>>,
    reported: Ghost<Seq<nat>>,
}

impl View for TaskManager {
    type V = Engine;

    closed spec fn view(&self) -> Engine {
        Engine {
            max_workers: self.thread_num as nat,
            phase: self.phase,
            items: views(self.packs@),
            next: self.next as nat,
            slots: slots_view(self.slots@),
            failed: views_of(self.fails@),
            takers: self.takers@,
            reported: self.reported@,
        }
    }
}

impl TaskManager {
    /// What holds of every engine between two calls.
    pub closed spec fn wf(&self) -> bool {
        self@.wf()
    }

    /// The packages of the batch, in the order of submission.
    pub closed spec fn batch(&self) -> Seq<Package> {
        self.packs@
    }

    /// A well-formed engine is well-formed as a mathematical value, and its
    /// batch is that value's.
    pub proof fn lemma_wf(&self)
        requires
            self.wf(),
        ensures
            self@.wf(),
            self@.items == views(self.batch()),
    {
    }

    /// An engine that accepts packages, for at most `thread_num` workers.
    pub fn new(thread_num: usize) -> (r: TaskManager)
        requires
            thread_num >= 1,
        ensures
            r.wf(),
            r@ == created(thread_num as nat),
            r.batch() == Seq::<Package>::empty(),
    {
        let r = TaskManager {
            thread_num,
            phase: Phase::Accepting,
            packs: Vec::new(),
            next: 0,
            slots: Vec::new(),
            fails: Vec::new(),
            takers: Ghost(Seq::empty()),
            reported: Ghost(Seq::empty()),
        };
        proof {
            assert(r@.items =~= Seq::<PackageView>::empty());
            assert(r@.slots =~= Seq::<Option<nat>>::empty());
            assert(r@.failed =~= Seq::<Seq<char>>::empty());
        }
        r
    }

    /// Puts `pack` at the end of the batch.
    pub fn add(&mut self, pack: Package)
        requires
            old(self).wf(),
            old(self)@.phase == Phase::Accepting,
        ensures
            final(self).wf(),
            final(self)@ == old(self)@.added(pack@),
            final(self).batch() == old(self).batch().push(pack),
    {
        self.packs.push(pack);
        proof {
            assert(views(self.packs@) =~= views(old(self).packs@).push(pack@));
        }
    }

    /// Where the engine stands in its life.
    pub fn phase(&self) -> (r: Phase)
        ensures
            r == self@.phase,
    {
        self.phase
    }

    /// The number of workers of the run: none before the work has begun.
    pub fn workers(&self) -> (r: usize)
        ensures
            r == self@.slots.len(),
    {
        self.slots.len()
    }

    /// Closes the batch and begins the work. Returns the number of workers to
    /// set to it: the ceiling, or the size of the batch where that is less.
    pub fn begin(&mut self) -> (r: usize)
        requires
            old(self).wf(),
            old(self)@.phase == Phase::Accepting,
        ensures
            final(self).wf(),
            final(self)@ == old(self)@.begun(),
            final(self).batch() == old(self).batch(),
            r == final(self)@.slots.len(),
    {
        if self.packs.len() == 0 {
            self.phase = Phase::Completed;
            return 0;
        }
        let workers = if self.thread_num <= self.packs.len() {
            self.thread_num
        } else {
            self.packs.len()
        };
        let mut slots: Vec<Option<usize>> = Vec::new();
        while slots.len() < workers
            invariant
                slots.len() <= workers,
                forall|w: int| 0 <= w < slots.len() ==> (#[trigger] slots@[w]) is None,
            decreases workers - slots.len(),
        {
            slots.push(None);
        }
        self.slots = slots;
        self.phase = Phase::Running;
        proof {
            assert(self@.slots =~= old(self)@.begun().slots);
            assert(self@.idle());
        }
        workers
    }

    /// Hands the next package of the queue to the worker `worker`, unless the
    /// engine is not running, there is no such worker, the worker holds a
    /// package already, or the queue is empty.
    pub fn take(&mut self, worker: usize) -> (r: Option<Package>)
        requires
            old(self).wf(),
        ensures
            final(self).wf(),
            final(self).batch() == old(self).batch(),
            r is Some == old(self)@.can_take(worker as nat),
            match r {
                Some(p) => final(self)@ == old(self)@.taken(worker as nat) && p == old(
                    self,
                ).batch()[old(self)@.next as int],
                None => *final(self) == *old(self),
            },
    {
        if !(self.phase == Phase::Running) || worker >= self.slots.len()
            || self.slots[worker].is_some() || self.next >= self.packs.len() {
            return None;
        }
        let p = self.packs[self.next].clone();
        self.slots[worker] = Some(self.next);
        self.next = self.next + 1;
        self.takers = Ghost(self.takers@.push(worker as nat));
        proof {
            assert(self@.slots =~= old(self)@.taken(worker as nat).slots);
            lemma_step_keeps_wf(old(self)@, Step::Take { worker: worker as nat });
        }
        Some(p)
    }

    /// Takes the report of the worker `worker` on the package that it holds:
    /// `ok` says whether the work went well. Records the package's name, and
    /// returns it, where the work failed. Nothing changes where the engine is
    /// not running or the worker holds no package.
    pub fn report(&mut self, worker: usize, ok: bool) -> (r: Option<String>)
        requires
            old(self).wf(),
        ensures
            final(self).wf(),
            final(self).batch() == old(self).batch(),
            old(self)@.can_report(worker as nat) ==> final(self)@ == old(self)@.reported(
                worker as nat,
                ok,
            ) && (r is Some <==> !ok) && (!ok ==> r->0@ == old(self)@.items[old(
                self,
            )@.slots[worker as int]->0 as int].name),
            !old(self)@.can_report(worker as nat) ==> *final(self) == *old(self) && r is None,
    {
        if !(self.phase == Phase::Running) || worker >= self.slots.len() {
            return None;
        }
        let at = match self.slots[worker] {
            Some(at) => at,
            None => {
                return None;
            },
        };
        proof {
            assert(old(self)@.slots[worker as int] == Some(at as nat));
            assert(at < self.next);
        }
        self.slots[worker] = None;
        self.reported = Ghost(self.reported@.push(at as nat));
        let mut r: Option<String> = None;
        if !ok {
            let name = self.packs[at].name.clone();
            self.fails.push(name.clone());
            r = Some(name);
        }
        let ghost rest = *self;
        if self.next == self.packs.len() && self.all_idle() {
            self.phase = Phase::Completed;
        }
        proof {
            let want = old(self)@.reported(worker as nat, ok);
            assert(rest@.slots =~= old(self)@.slots.update(worker as int, None));
            assert(rest@.failed =~= want.failed);
            assert(self@.slots == rest@.slots);
            assert(self@ == want);
            lemma_step_keeps_wf(old(self)@, Step::Report { worker: worker as nat, ok });
        }
        r
    }

    /// Whether no worker holds a package.
    fn all_idle(&self) -> (r: bool)
        ensures
            r == self@.idle(),
    {
        let mut w: usize = 0;
        while w < self.slots.len()
            invariant
                w <= self.slots.len(),
                forall|v: int| 0 <= v < w ==> (#[trigger] self.slots@[v]) is None,
            decreases self.slots.len() - w,
        {
            if self.slots[w].is_some() {
                proof {
                    assert(self@.slots[w as int] is Some);
                }
                return false;
            }
            w = w + 1;
        }
        proof {
            assert forall|v: int| 0 <= v < self@.slots.len() implies (#[trigger] self@.slots[v])
                is None by {
                assert(self.slots@[v] is None);
            }
        }
        true
    }

    /// Works through the batch on the calling thread, as a single worker that
    /// takes one package after the other: `op` is called once on each
    /// package, in the order of submission, and a failure of one does not
    /// keep the others from their turn. Returns the names of the packages on
    /// which `op` failed.
    pub fn run<F: Fn(&Package) -> Result<(), Error>>(self, op: F) -> (r: Vec<String>)
        requires
            self.wf(),
            self@.phase == Phase::Accepting,
            forall|i: int|
                0 <= i < self.batch().len() ==> call_requires(op, (&#[trigger] self.batch()[i],)),
        ensures
            exists|outs: Seq<Result<(), Error>>|
                outs.len() == self.batch().len() && (forall|i: int|
                    0 <= i < outs.len() ==> call_ensures(
                        op,
                        (&self.batch()[i],),
                        #[trigger] outs[i],
                    )) && views_of(r@) == failed_names(views(self.batch()), outcomes(outs)),
    {
        let mut engine = self;
        engine.begin();
        let ghost mut outs: Seq<Result<(), Error>> = Seq::empty();
        proof {
            assert(views(self.batch()).take(0) =~= Seq::<PackageView>::empty());
        }
        while engine.phase == Phase::Running
            invariant
                engine.wf(),
                engine@.idle(),
                engine.phase != Phase::Accepting,
                engine.batch() == self.batch(),
                engine@.next == outs.len(),
                engine@.failed == failed_names(
                    views(self.batch()).take(outs.len() as int),
                    outcomes(outs),
                ),
                forall|i: int|
                    0 <= i < self.batch().len() ==> call_requires(
                        op,
                        (&#[trigger] self.batch()[i],),
                    ),
                forall|i: int|
                    0 <= i < outs.len() ==> call_ensures(
                        op,
                        (&self.batch()[i],),
                        #[trigger] outs[i],
                    ),
            decreases engine@.items.len() - engine@.next,
        {
            let ghost before = engine@;
            let ghost n = outs.len() as int;
            assert(before.can_take(0));
            let taken = engine.take(0);
            let p = taken.unwrap();
            let out = op(&p);
            let ok = match out {
                Ok(_) => true,
                Err(_) => false,
            };
            assert(engine@.can_report(0));
            engine.report(0, ok);
            proof {
                let old_outs = outs;
                outs = outs.push(out);
                let items = views(self.batch());
                assert(outs.drop_last() =~= old_outs);
                assert(items.take(n + 1).drop_last() =~= items.take(n));
                assert(outcomes(outs).drop_last() =~= outcomes(old_outs));
                assert(before.taken(0).slots[0] == Some(n as nat));
                assert(engine@.idle());
            }
        }
        proof {
            assert(views(self.batch()).take(outs.len() as int) =~= views(self.batch()));
        }
        engine.failures()
    }

    /// The names recorded as failed, in the order of the reports.
    pub fn failures(&self) -> (r: Vec<String>)
        ensures
            views_of(r@) == self@.failed,
    {
        let mut r: Vec<String> = Vec::new();
        let mut i: usize = 0;
        while i < self.fails.len()
            invariant
                i <= self.fails.len(),
                r.len() == i,
                forall|j: int| 0 <= j < i ==> r@[j]@ == self.fails@[j]@,
            decreases self.fails.len() - i,
        {
            r.push(self.fails[i].clone());
            i = i + 1;
        }
        proof {
            assert(views_of(r@) =~= views_of(self.fails@));
        }
        r
    }
}

} // verus!
