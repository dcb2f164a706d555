//! Uninstalling packages: what is to be removed from disk for each package
//! asked for, and the registry, store and loader script that remain.

use vstd::prelude::*;
use crate::error::Error;
use crate::order::views;
use crate::package::{config_file_path, install_path, views_of, Package, PackageView};
use crate::registry::{save, store_text, text_result};
use crate::script::{loader_script, loader_script_of};
use crate::select::{drop_named, keep_named, named_in, not_named_in, with_names, without_names};

verus! {

/// What is to be removed from disk for one package. Each path is given by
/// its components below the base directory.
pub struct Removal {
    /// The package's name.
    pub name: String,
    /// The install directory, to be removed with all it holds if it is there.
    pub dir: Vec<String>,
    /// The configuration file, to be removed if it is there; `None` where the
    /// configuration is to be kept.
    pub config: Option<Vec<String>>,
}

/// A removal as a mathematical value.
pub struct RemovalView {
    pub name: Seq<char>,
    pub dir: Seq<Seq<char>>,
    pub config: Option<Seq<Seq<char>>>,
}

impl View for Removal {
    type V = RemovalView;

    open spec fn view(&self) -> RemovalView {
        RemovalView {
            name: self.name@,
            dir: views_of(self.dir@),
            config: match self.config {
                Some(path) => Some(views_of(path@)),
                None => None,
            },
        }
    }
}

/// The removals `v` as mathematical values.
pub open spec fn removal_views(v: Seq<Removal>) -> Seq<RemovalView> {
    v.map_values(|r: Removal| r@)
}

/// What uninstalling the package `p` removes: its install directory, and
/// its configuration file where `all` asks for that too.
pub open spec fn removal_of(p: PackageView, all: bool) -> RemovalView {
    RemovalView {
        name: p.name,
        dir: install_path(p),
        config: if all {
            Some(config_file_path(p))
        } else {
            None
        },
    }
}

/// What uninstalling the packages called `plugins` removes: one removal for
/// each package of the registry that is asked for, in the registry's order.
pub open spec fn removals_of(packs: Seq<PackageView>, plugins: Seq<Seq<char>>, all: bool) -> Seq<
    RemovalView,
> {
    with_names(packs, plugins).map_values(|p: PackageView| removal_of(p, all))
}

/// What an uninstall comes to.
pub struct Uninstall {
    /// What to remove from disk, in this order; a failure ends the command.
    pub removals: Vec<Removal>,
    /// The loader script for the packages that remain.
    pub script: String,
    /// The text of the store for the packages that remain.
    pub store: Result<String, Error>,
}

/// What uninstalling `plugin` removes.
pub fn uninstall_plugin(plugin: &Package, all: bool) -> (r: Removal)
    ensures
        r@ == removal_of(plugin@, all),
{
    let config = if all {
        Some(plugin.config_path())
    } else {
        None
    };
    Removal { name: plugin.name.clone(), dir: plugin.path(), config }
}

/// Uninstalls the packages called `plugins` from the registry `packs`:
/// says what to remove from disk, and gives the loader script and the store
/// for the packages that remain. Names that the registry does not hold are
/// passed over.
pub fn uninstall_plugins(packs: Vec<Package>, plugins: &Vec<String>, all: bool) -> (r: Uninstall)
    ensures
        removal_views(r.removals@) == removals_of(views(packs@), views_of(plugins@), all),
        r.script@ == loader_script_of(without_names(views(packs@), views_of(plugins@))),
        text_result(r.store) == store_text(without_names(views(packs@), views_of(plugins@))),
{
    let gone = keep_named(&packs, plugins);
    let mut removals: Vec<Removal> = Vec::new();
    let mut i: usize = 0;
    while i < gone.len()
        invariant
            i <= gone.len(),
            removals.len() == i,
            forall|j: int| 0 <= j < i ==> (#[trigger] removals@[j])@ == removal_of(gone@[j]@, all),
        decreases gone.len() - i,
    {
        removals.push(uninstall_plugin(&gone[i], all));
        i = i + 1;
    }
    proof {
        assert(removal_views(removals@) =~= removals_of(views(packs@), views_of(plugins@), all));
    }
    let left = drop_named(packs, plugins);
    let script = loader_script(&left);
    let store = save(left);
    Uninstall { removals, script, store }
}

/// Every package of the registry that is asked for has its removal: its
/// install directory goes, and its configuration file goes exactly where
/// `all` says so.
pub proof fn uninstall_removes_requested(
    packs: Seq<PackageView>,
    plugins: Seq<Seq<char>>,
    all: bool,
    i: int,
)
    requires
        0 <= i < packs.len(),
        plugins.contains(packs[i].name),
    ensures
        removals_of(packs, plugins, all).contains(removal_of(packs[i], all)),
        removal_of(packs[i], all).dir == install_path(packs[i]),
        all ==> removal_of(packs[i], all).config == Some(config_file_path(packs[i])),
        !all ==> removal_of(packs[i], all).config is None,
{
    let kept = with_names(packs, plugins);
    assert(named_in(plugins)(packs[i]));
    packs.lemma_filter_contains(named_in(plugins), i);
    assert(kept.contains(packs[i]));
    let k = choose|k: int| 0 <= k < kept.len() && kept[k] == packs[i];
    assert(removals_of(packs, plugins, all)[k] == removal_of(packs[i], all));
}

/// Nothing is removed for a package that was not asked for, and no package
/// that was asked for remains in the registry.
pub proof fn uninstall_spares_the_rest(packs: Seq<PackageView>, plugins: Seq<Seq<char>>, all: bool)
    ensures
        forall|k: int|
            0 <= k < removals_of(packs, plugins, all).len() ==> plugins.contains(
                (#[trigger] removals_of(packs, plugins, all)[k]).name,
            ),
        forall|k: int|
            0 <= k < without_names(packs, plugins).len() ==> !plugins.contains(
                (#[trigger] without_names(packs, plugins)[k]).name,
            ),
{
    let kept = with_names(packs, plugins);
    assert forall|k: int| 0 <= k < removals_of(packs, plugins, all).len() implies plugins.contains(
        (#[trigger] removals_of(packs, plugins, all)[k]).name,
    ) by {
        packs.lemma_filter_pred(named_in(plugins), k);
        assert(named_in(plugins)(kept[k]));
    }
    let left = without_names(packs, plugins);
    assert forall|k: int| 0 <= k < left.len() implies !plugins.contains(
        (#[trigger] left[k]).name,
    ) by {
        packs.lemma_filter_pred(not_named_in(plugins), k);
        assert(not_named_in(plugins)(left[k]));
    }
}

} // verus!
