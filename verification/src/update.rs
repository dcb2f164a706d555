//! Updating packages: how many workers, which packages, what to do with one
//! package, and what is left for the loader script when some have failed.
//! The registry itself is never changed by an update.

use vstd::prelude::*;
use crate::error::Error;
use crate::order::views;
use crate::package::{views_of, Package, PackageView};
use crate::registry::{fetch, loaded, text_result};
use crate::script::{loader_script, loader_script_of};
use crate::select::{drop_named, has_name, lemma_filter_none, lemma_filter_step,
    lemma_without_names_of_set, without_names};
use crate::task::{failed_names, failures_independent_of_submission, outcomes, started, Phase,
    Step, TaskManager};
use crate::text::{chars_contain, chars_of, find_char_from, has_substring, index_of,
    lemma_index_of, trim_range, trimmed};

verus! {

/// `num_cpus::get` counts the processors at hand. Nothing is claimed of the
/// number: it is the machine's.
pub assume_specification[ num_cpus::get ]() -> (r: usize);

/// The number of workers for a request and a machine: the number asked for,
/// or else the number of processors; an error where that is not positive.
pub open spec fn workers_for(requested: Option<usize>, cpus: usize) -> Result<usize, Error> {
    let n = match requested {
        Some(n) => n,
        None => cpus,
    };
    if n < 1 {
        Err(Error::Threads)
    } else {
        Ok(n)
    }
}

/// The number of workers for a request, on a machine of `cpus` processors.
pub fn worker_count(requested: Option<usize>, cpus: usize) -> (r: Result<usize, Error>)
    ensures
        r == workers_for(requested, cpus),
{
    let n = match requested {
        Some(n) => n,
        None => cpus,
    };
    if n < 1 {
        Err(Error::Threads)
    } else {
        Ok(n)
    }
}

/// The number of workers for a request on this machine, whose processors
/// are counted only where no number was asked for.
pub fn resolve_workers(requested: Option<usize>) -> (r: Result<usize, Error>)
    ensures
        exists|cpus: usize| r == workers_for(requested, cpus),
        requested is Some ==> r == workers_for(requested, 0),
{
    match requested {
        Some(_) => {
            let r = worker_count(requested, 0);
            assert(r == workers_for(requested, 0));
            r
        },
        None => {
            let cpus = num_cpus::get();
            let r = worker_count(requested, cpus);
            assert(r == workers_for(requested, cpus));
            r
        },
    }
}

/// What the command line of an update asks for.
pub enum Command {
    /// Only the loader script is to be written anew, for the whole registry.
    Packfile,
    /// Packages are to be updated: those called `plugins`, or, where none is
    /// named, all but those that `skip` leaves out; by `threads` workers.
    Plugins { plugins: Vec<String>, threads: usize, skip: Vec<String> },
}

/// A command as a mathematical value.
pub enum CommandView {
    Packfile,
    Plugins { plugins: Seq<Seq<char>>, threads: usize, skip: Seq<Seq<char>> },
}

impl View for Command {
    type V = CommandView;

    open spec fn view(&self) -> CommandView {
        match *self {
            Command::Packfile => CommandView::Packfile,
            Command::Plugins { plugins, threads, skip } => CommandView::Plugins {
                plugins: views_of(plugins@),
                threads,
                skip: views_of(skip@),
            },
        }
    }
}

/// What the arguments of an update ask for, on a machine of `cpus`
/// processors. The flag for the loader script wins over all else, whatever
/// its value; otherwise the number of workers must be positive.
pub open spec fn command_for(
    plugins: Seq<Seq<char>>,
    threads: Option<usize>,
    packfile: Option<bool>,
    skip: Seq<char>,
    cpus: usize,
) -> Result<CommandView, Error> {
    if packfile is Some {
        Ok(CommandView::Packfile)
    } else {
        match workers_for(threads, cpus) {
            Ok(n) => Ok(CommandView::Plugins { plugins, threads: n, skip: skip_list(skip) }),
            Err(e) => Err(e),
        }
    }
}

/// A result with its command as a mathematical value.
pub open spec fn command_result(r: Result<Command, Error>) -> Result<CommandView, Error> {
    match r {
        Ok(c) => Ok(c@),
        Err(e) => Err(e),
    }
}

/// What the arguments of an update ask for: `plugins` are the names given,
/// `threads` the number of workers asked for, `packfile` the flag for the
/// loader script, `skip` the comma-separated list of strings to skip. The
/// machine's processors are counted only where packages are to be updated
/// and no number of workers was given.
pub fn command(
    plugins: Vec<String>,
    threads: Option<usize>,
    packfile: Option<bool>,
    skip: &str,
) -> (r: Result<Command, Error>)
    ensures
        exists|cpus: usize|
            command_result(r) == command_for(views_of(plugins@), threads, packfile, skip@, cpus),
        packfile is Some || threads is Some ==> command_result(r) == command_for(
            views_of(plugins@),
            threads,
            packfile,
            skip@,
            0,
        ),
{
    if packfile.is_some() {
        let r = Ok(Command::Packfile);
        assert(command_result(r) == command_for(views_of(plugins@), threads, packfile, skip@, 0));
        return r;
    }
    let n = resolve_workers(threads);
    let ghost cpus = choose|cpus: usize| n == workers_for(threads, cpus);
    let r = match n {
        Ok(n) => Ok(Command::Plugins { plugins, threads: n, skip: parse_skip(skip) }),
        Err(e) => Err(e),
    };
    assert(command_result(r) == command_for(views_of(plugins@), threads, packfile, skip@, cpus));
    r
}

/// The names to skip that a list holds: what stands between its commas,
/// without the white space around it, and without what is then empty.
pub open spec fn skip_list(s: Seq<char>) -> Seq<Seq<char>>
    decreases s.len(),
{
    let k = index_of(s, ',');
    let head = trimmed(s.take(k));
    let first = if head.len() > 0 {
        seq![head]
    } else {
        Seq::empty()
    };
    if 0 <= k < s.len() {
        first + skip_list(s.skip(k + 1))
    } else {
        first
    }
}

/// The names to skip that the comma-separated list `list` holds.
pub fn parse_skip(list: &str) -> (r: Vec<String>)
    ensures
        views_of(r@) == skip_list(list@),
{
    let chars = chars_of(list);
    let n = chars.len();
    let mut r: Vec<String> = Vec::new();
    let mut from: usize = 0;
    let mut done = false;
    proof {
        assert(chars@.skip(0) =~= chars@);
        assert(views_of(r@) + skip_list(chars@.skip(0)) =~= skip_list(chars@));
    }
    while !done
        invariant
            n == chars.len(),
            from <= n,
            done ==> views_of(r@) == skip_list(chars@),
            !done ==> views_of(r@) + skip_list(chars@.skip(from as int)) == skip_list(chars@),
        decreases
                (if done {
                    0
                } else {
                    n - from + 1
                }),
    {
        let ghost rest = chars@.skip(from as int);
        let ghost before = views_of(r@);
        let k = find_char_from(&chars, from, ',');
        let piece = trim_range(&chars, from, k);
        proof {
            lemma_index_of(rest, ',');
            assert(rest.take(k - from) =~= chars@.subrange(from as int, k as int));
        }
        if !piece.as_str().is_empty() {
            r.push(piece);
            proof {
                assert(views_of(r@) =~= before + seq![trimmed(rest.take(k - from))]);
            }
        }
        if k < n {
            proof {
                assert(rest.skip(k - from + 1) =~= chars@.skip(k + 1));
                assert(views_of(r@) + skip_list(chars@.skip(k + 1)) =~= before + skip_list(rest));
            }
            from = k + 1;
        } else {
            proof {
                assert(views_of(r@) =~= before + skip_list(rest));
            }
            done = true;
        }
    }
    r
}

/// The name `name` holds one of the strings `skip`.
pub open spec fn is_skipped(name: Seq<char>, skip: Seq<Seq<char>>) -> bool {
    exists|k: int| 0 <= k < skip.len() && has_substring(name, #[trigger] skip[k])
}

/// The test "the package belongs to the batch": where names are given, its
/// name is one of them; where none is given, its name holds none of the
/// strings to skip.
pub open spec fn in_batch(plugins: Seq<Seq<char>>, skip: Seq<Seq<char>>) -> spec_fn(
    PackageView,
) -> bool {
    |p: PackageView|
        if plugins.len() == 0 {
            !is_skipped(p.name, skip)
        } else {
            plugins.contains(p.name)
        }
}

/// The test "the package is passed over": no names are given, and its name
/// holds one of the strings to skip.
pub open spec fn passed_over(plugins: Seq<Seq<char>>, skip: Seq<Seq<char>>) -> spec_fn(
    PackageView,
) -> bool {
    |p: PackageView| plugins.len() == 0 && is_skipped(p.name, skip)
}

/// The batch of an update: the packages of the registry that belong to it,
/// in the registry's order.
pub open spec fn batch_of(
    packs: Seq<PackageView>,
    plugins: Seq<Seq<char>>,
    skip: Seq<Seq<char>>,
) -> Seq<PackageView> {
    packs.filter(in_batch(plugins, skip))
}

/// The names of the packages that an update passes over, in the registry's
/// order.
pub open spec fn skipped_of(
    packs: Seq<PackageView>,
    plugins: Seq<Seq<char>>,
    skip: Seq<Seq<char>>,
) -> Seq<Seq<char>> {
    packs.filter(passed_over(plugins, skip)).map_values(|p: PackageView| p.name)
}

/// What an update works on, and what it leaves aside.
pub struct Selection {
    /// The packages to update.
    pub batch: Vec<Package>,
    /// The names of the packages passed over, each to be told to the user.
    pub skipped: Vec<String>,
}

/// Whether `name` holds one of the strings `skip`.
pub fn name_is_skipped(name: &str, skip: &Vec<String>) -> (r: bool)
    ensures
        r == is_skipped(name@, views_of(skip@)),
{
    let hay = chars_of(name);
    let mut k: usize = 0;
    while k < skip.len()
        invariant
            k <= skip.len(),
            hay@ == name@,
            forall|j: int| 0 <= j < k ==> !has_substring(name@, #[trigger] views_of(skip@)[j]),
        decreases skip.len() - k,
    {
        let needle = chars_of(skip[k].as_str());
        if chars_contain(&hay, &needle) {
            proof {
                assert(has_substring(name@, views_of(skip@)[k as int]));
            }
            return true;
        }
        k = k + 1;
    }
    false
}

/// The batch of an update of the registry `packs`. Where `plugins` names
/// packages, they are the batch and `skip` plays no part; otherwise every
/// package is in the batch but those whose name holds a string of `skip`.
pub fn select_batch(packs: &Vec<Package>, plugins: &Vec<String>, skip: &Vec<String>) -> (r:
    Selection)
    ensures
        views(r.batch@) == batch_of(views(packs@), views_of(plugins@), views_of(skip@)),
        views_of(r.skipped@) == skipped_of(views(packs@), views_of(plugins@), views_of(skip@)),
        forall|i: int| 0 <= i < r.batch.len() ==> packs@.contains(#[trigger] r.batch@[i]),
{
    let ghost all = views(packs@);
    let ghost chosen = in_batch(views_of(plugins@), views_of(skip@));
    let ghost passed = passed_over(views_of(plugins@), views_of(skip@));
    let ghost name_of = |p: PackageView| p.name;
    let mut batch: Vec<Package> = Vec::new();
    let mut skipped: Vec<String> = Vec::new();
    let mut i: usize = 0;
    proof {
        lemma_filter_none(all, chosen);
        lemma_filter_none(all, passed);
        assert(views(batch@) =~= all.take(0).filter(chosen));
        assert(views_of(skipped@) =~= all.take(0).filter(passed).map_values(name_of));
    }
    while i < packs.len()
        invariant
            i <= packs.len(),
            all == views(packs@),
            chosen == in_batch(views_of(plugins@), views_of(skip@)),
            passed == passed_over(views_of(plugins@), views_of(skip@)),
            name_of == |p: PackageView| p.name,
            views(batch@) == all.take(i as int).filter(chosen),
            views_of(skipped@) == all.take(i as int).filter(passed).map_values(name_of),
            forall|j: int| 0 <= j < batch.len() ==> packs@.contains(#[trigger] batch@[j]),
        decreases packs.len() - i,
    {
        let pack = &packs[i];
        let ghost batch_before = views(batch@);
        let ghost skipped_before = views_of(skipped@);
        proof {
            lemma_filter_step(all, chosen, i as int);
            lemma_filter_step(all, passed, i as int);
            assert(all[i as int] == pack@);
        }
        if plugins.len() == 0 {
            if name_is_skipped(pack.name.as_str(), skip) {
                skipped.push(pack.name.clone());
                proof {
                    let kept = all.take(i as int).filter(passed);
                    assert(all.take(i + 1).filter(passed) == kept.push(all[i as int]));
                    assert(kept.push(all[i as int]).map_values(name_of) =~= kept.map_values(
                        name_of,
                    ).push(pack@.name));
                    assert(views_of(skipped@) =~= skipped_before.push(pack@.name));
                }
            } else {
                batch.push(pack.clone());
                proof {
                    assert(views(batch@) =~= batch_before.push(pack@));
                    assert(packs@[i as int] == *pack);
                }
            }
        } else {
            if has_name(plugins, &pack.name) {
                batch.push(pack.clone());
                proof {
                    assert(views(batch@) =~= batch_before.push(pack@));
                    assert(packs@[i as int] == *pack);
                }
            }
        }
        i = i + 1;
    }
    proof {
        assert(all.take(packs.len() as int) =~= all);
    }
    Selection { batch, skipped }
}

/// How the update of one package ends: a package that is not installed
/// fails as such; one that is managed locally is left alone, which counts as
/// a failure too; for any other, the version-control client decides.
pub open spec fn update_result(installed: bool, local: bool, pulled: bool) -> Result<(), Error> {
    if !installed {
        Err(Error::PluginNotInstalled)
    } else if local {
        Err(Error::SkipLocal)
    } else if pulled {
        Ok(())
    } else {
        Err(Error::Vcs)
    }
}

/// Updates one package. `installed` says whether its install directory is
/// there, `local` whether it is managed locally; `pull` asks the
/// version-control client to update it and says whether that went well. The
/// client is asked only for a package that is installed and not local.
pub fn update_plugin<F: FnOnce() -> bool>(installed: bool, local: bool, pull: F) -> (r: Result<
    (),
    Error,
>)
    requires
        installed && !local ==> call_requires(pull, ()),
    ensures
        !(installed && !local) ==> r == update_result(installed, local, false),
        installed && !local ==> exists|pulled: bool|
            call_ensures(pull, (), pulled) && r == update_result(installed, local, pulled),
{
    if !installed {
        Err(Error::PluginNotInstalled)
    } else if local {
        Err(Error::SkipLocal)
    } else {
        let pulled = pull();
        let r = if pulled {
            Ok(())
        } else {
            Err(Error::Vcs)
        };
        assert(call_ensures(pull, (), pulled) && r == update_result(installed, local, pulled));
        r
    }
}

/// The loader script of a registry of which the packages called `failed`
/// are left out.
pub open spec fn script_after(packs: Seq<PackageView>, failed: Seq<Seq<char>>) -> Seq<char> {
    loader_script_of(without_names(packs, failed))
}

/// The loader script for the packages of `packs` that did not fail. The
/// registry stays as it is.
pub fn regenerate(packs: &Vec<Package>, failed: &Vec<String>) -> (r: String)
    ensures
        r@ == script_after(views(packs@), views_of(failed@)),
{
    let left = drop_named(packs.clone(), failed);
    loader_script(&left)
}

/// The loader script for the whole registry that the store holds: `store` is
/// the store's text, or `None` where there is no store.
pub fn update_packfile(store: Option<&str>) -> (r: Result<String, Error>)
    ensures
        text_result(r) == match loaded(
            match store {
                Some(text) => Some(text@),
                None => None,
            },
        ) {
            Ok(packs) => Ok(loader_script_of(packs)),
            Err(e) => Err(e),
        },
{
    match fetch(store) {
        Ok(packs) => Ok(loader_script(&packs)),
        Err(e) => Err(e),
    }
}

/// How an update ended.
pub struct Update {
    /// The packages that were worked on.
    pub batch: Vec<Package>,
    /// The names of the packages passed over.
    pub skipped: Vec<String>,
    /// The names of the packages whose update failed.
    pub failed: Vec<String>,
    /// The loader script for the packages that did not fail.
    pub script: String,
}

/// Updates the packages of the registry `packs` that `plugins` and `skip`
/// select, with `op` as the work on one package, and derives the loader
/// script from the packages that did not fail. The registry is not changed:
/// a failure today leaves what is wanted as it was.
pub fn update_plugins<F: Fn(&Package) -> Result<(), Error>>(
    packs: &Vec<Package>,
    plugins: &Vec<String>,
    threads: usize,
    skip: &Vec<String>,
    op: F,
) -> (r: Update)
    requires
        threads >= 1,
        forall|i: int| 0 <= i < packs.len() ==> call_requires(op, (&#[trigger] packs@[i],)),
    ensures
        views(r.batch@) == batch_of(views(packs@), views_of(plugins@), views_of(skip@)),
        views_of(r.skipped@) == skipped_of(views(packs@), views_of(plugins@), views_of(skip@)),
        exists|outs: Seq<Result<(), Error>>|
            outs.len() == r.batch.len() && (forall|i: int|
                0 <= i < outs.len() ==> call_ensures(op, (&r.batch@[i],), #[trigger] outs[i]))
                && views_of(r.failed@) == failed_names(views(r.batch@), outcomes(outs)),
        r.script@ == script_after(views(packs@), views_of(r.failed@)),
{
    let Selection { batch, skipped } = select_batch(packs, plugins, skip);
    let mut manager = TaskManager::new(threads);
    let mut i: usize = 0;
    while i < batch.len()
        invariant
            i <= batch.len(),
            manager.wf(),
            manager@.phase == Phase::Accepting,
            manager.batch() == batch@.take(i as int),
        decreases batch.len() - i,
    {
        manager.add(batch[i].clone());
        proof {
            assert(batch@.take(i as int).push(batch@[i as int]) =~= batch@.take(i + 1));
        }
        i = i + 1;
    }
    proof {
        assert(batch@.take(batch.len() as int) =~= batch@);
        assert forall|j: int| 0 <= j < batch.len() implies call_requires(
            op,
            (&#[trigger] batch@[j],),
        ) by {
            assert(packs@.contains(batch@[j]));
            let k = choose|k: int| 0 <= k < packs.len() && packs@[k] == batch@[j];
            assert(call_requires(op, (&packs@[k],)));
        }
    }
    let failed = manager.run(op);
    let script = regenerate(packs, &failed);
    Update { batch, skipped, failed, script }
}

/// An update can be repeated: as long as the registry, the selection and the
/// outcome of the work on each package stay what they were, two updates
/// record the same failure set, with whatever workers and in whatever order.
pub proof fn update_is_repeatable(
    packs: Seq<PackageView>,
    plugins: Seq<Seq<char>>,
    skip: Seq<Seq<char>>,
    works: spec_fn(PackageView) -> bool,
    workers_a: nat,
    steps_a: Seq<Step>,
    workers_b: nat,
    steps_b: Seq<Step>,
)
    requires
        workers_a >= 1,
        workers_b >= 1,
        started(batch_of(packs, plugins, skip), workers_a).is_run(steps_a, works),
        started(batch_of(packs, plugins, skip), workers_a).after_all(steps_a).phase
            == Phase::Completed,
        started(batch_of(packs, plugins, skip), workers_b).is_run(steps_b, works),
        started(batch_of(packs, plugins, skip), workers_b).after_all(steps_b).phase
            == Phase::Completed,
    ensures
        started(batch_of(packs, plugins, skip), workers_a).after_all(steps_a).failed.to_set()
            == started(batch_of(packs, plugins, skip), workers_b).after_all(
            steps_b,
        ).failed.to_set(),
{
    let batch = batch_of(packs, plugins, skip);
    failures_independent_of_submission(
        batch,
        batch,
        works,
        workers_a,
        steps_a,
        workers_b,
        steps_b,
    );
}

/// The loader script after an update does not depend on the order in which
/// the packages were put into the batch: two complete runs over batches that
/// hold the same packages leave the same script for the registry `packs`.
pub proof fn script_independent_of_submission(
    packs: Seq<PackageView>,
    batch_a: Seq<PackageView>,
    batch_b: Seq<PackageView>,
    works: spec_fn(PackageView) -> bool,
    workers_a: nat,
    steps_a: Seq<Step>,
    workers_b: nat,
    steps_b: Seq<Step>,
)
    requires
        batch_a.to_multiset() == batch_b.to_multiset(),
        workers_a >= 1,
        workers_b >= 1,
        started(batch_a, workers_a).is_run(steps_a, works),
        started(batch_a, workers_a).after_all(steps_a).phase == Phase::Completed,
        started(batch_b, workers_b).is_run(steps_b, works),
        started(batch_b, workers_b).after_all(steps_b).phase == Phase::Completed,
    ensures
        script_after(packs, started(batch_a, workers_a).after_all(steps_a).failed) == script_after(
            packs,
            started(batch_b, workers_b).after_all(steps_b).failed,
        ),
{
    failures_independent_of_submission(
        batch_a,
        batch_b,
        works,
        workers_a,
        steps_a,
        workers_b,
        steps_b,
    );
    lemma_without_names_of_set(
        packs,
        started(batch_a, workers_a).after_all(steps_a).failed,
        started(batch_b, workers_b).after_all(steps_b).failed,
    );
}

} // verus!
