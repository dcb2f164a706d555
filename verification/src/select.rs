//! Picking packages out of a registry by their names.

use vstd::prelude::*;
use crate::order::views;
use crate::package::{views_of, Package, PackageView};

verus! {

/// The test "the package's name is one of `names`".
pub open spec fn named_in(names: Seq<Seq<char>>) -> spec_fn(PackageView) -> bool {
    |p: PackageView| names.contains(p.name)
}

/// The test "the package's name is none of `names`".
pub open spec fn not_named_in(names: Seq<Seq<char>>) -> spec_fn(PackageView) -> bool {
    |p: PackageView| !names.contains(p.name)
}

/// The packages of `packs` whose name is one of `names`, in their order.
pub open spec fn with_names(packs: Seq<PackageView>, names: Seq<Seq<char>>) -> Seq<PackageView> {
    packs.filter(named_in(names))
}

/// The packages of `packs` whose name is none of `names`, in their order.
pub open spec fn without_names(packs: Seq<PackageView>, names: Seq<Seq<char>>) -> Seq<
    PackageView,
> {
    packs.filter(not_named_in(names))
}

/// What passes a test among the first `i + 1` of `s` is what passes among
/// the first `i`, and `s[i]` behind it where it passes.
pub proof fn lemma_filter_step<A>(s: Seq<A>, pred: spec_fn(A) -> bool, i: int)
    requires
        0 <= i < s.len(),
    ensures
        s.take(i + 1).filter(pred) == if pred(s[i]) {
            s.take(i).filter(pred).push(s[i])
        } else {
            s.take(i).filter(pred)
        },
{
    reveal(Seq::filter);
    assert(s.take(i + 1).drop_last() =~= s.take(i));
    assert(s.take(i + 1).last() == s[i]);
}

/// Nothing passes a test among no elements.
pub proof fn lemma_filter_none<A>(s: Seq<A>, pred: spec_fn(A) -> bool)
    ensures
        s.take(0).filter(pred) == Seq::<A>::empty(),
{
    reveal(Seq::filter);
    assert(s.take(0) =~= Seq::<A>::empty());
}

/// What is left of a registry once some names are taken out depends on the
/// set of those names only, not on their order or on repetitions.
pub proof fn lemma_without_names_of_set(
    packs: Seq<PackageView>,
    names_a: Seq<Seq<char>>,
    names_b: Seq<Seq<char>>,
)
    requires
        names_a.to_set() == names_b.to_set(),
    ensures
        without_names(packs, names_a) == without_names(packs, names_b),
{
    assert forall|p: PackageView| #[trigger]
        names_a.contains(p.name) == names_b.contains(p.name) by {
        assert(names_a.to_set().contains(p.name) == names_a.contains(p.name));
        assert(names_b.to_set().contains(p.name) == names_b.contains(p.name));
    }
    assert(not_named_in(names_a) =~= not_named_in(names_b));
}

/// Whether `name` is one of `names`.
pub fn has_name(names: &Vec<String>, name: &String) -> (r: bool)
    ensures
        r == views_of(names@).contains(name@),
{
    let mut i: usize = 0;
    while i < names.len()
        invariant
            i <= names.len(),
            forall|j: int| 0 <= j < i ==> views_of(names@)[j] != name@,
        decreases names.len() - i,
    {
        if names[i] == *name {
            proof {
                assert(views_of(names@)[i as int] == name@);
            }
            return true;
        }
        i = i + 1;
    }
    false
}

/// Copies of the packages of `packs` whose name is one of `names`, in their
/// order.
pub fn keep_named(packs: &Vec<Package>, names: &Vec<String>) -> (r: Vec<Package>)
    ensures
        views(r@) == with_names(views(packs@), views_of(names@)),
{
    let ghost all = views(packs@);
    let ghost pred = named_in(views_of(names@));
    let mut r: Vec<Package> = Vec::new();
    let mut i: usize = 0;
    proof {
        lemma_filter_none(all, pred);
        assert(views(r@) =~= Seq::<PackageView>::empty());
    }
    while i < packs.len()
        invariant
            i <= packs.len(),
            all == views(packs@),
            pred == named_in(views_of(names@)),
            views(r@) == all.take(i as int).filter(pred),
        decreases packs.len() - i,
    {
        proof {
            lemma_filter_step(all, pred, i as int);
        }
        if has_name(names, &packs[i].name) {
            let ghost before = views(r@);
            r.push(packs[i].clone());
            proof {
                assert(views(r@) =~= before.push(all[i as int]));
            }
        }
        i = i + 1;
    }
    proof {
        assert(all.take(packs.len() as int) =~= all);
    }
    r
}

/// The packages of `packs` whose name is none of `names`, in their order.
pub fn drop_named(packs: Vec<Package>, names: &Vec<String>) -> (r: Vec<Package>)
    ensures
        views(r@) == without_names(views(packs@), views_of(names@)),
{
    let ghost all = views(packs@);
    let ghost pred = not_named_in(views_of(names@));
    let mut r: Vec<Package> = Vec::new();
    let mut i: usize = 0;
    proof {
        lemma_filter_none(all, pred);
        assert(views(r@) =~= Seq::<PackageView>::empty());
    }
    while i < packs.len()
        invariant
            i <= packs.len(),
            all == views(packs@),
            pred == not_named_in(views_of(names@)),
            views(r@) == all.take(i as int).filter(pred),
        decreases packs.len() - i,
    {
        proof {
            lemma_filter_step(all, pred, i as int);
        }
        if !has_name(names, &packs[i].name) {
            let ghost before = views(r@);
            r.push(packs[i].clone());
            proof {
                assert(views(r@) =~= before.push(all[i as int]));
            }
        }
        i = i + 1;
    }
    proof {
        assert(all.take(packs.len() as int) =~= all);
    }
    r
}

} // verus!
