//! The order in which packages are written out: by name, and among packages
//! of one name in the order in which they came.

use vstd::prelude::*;
use crate::package::{Package, PackageView};
use crate::text::{chars_lt, chars_of, lex_le, lex_lt, lemma_lex_le_transitive,
    lemma_lex_lt_asymmetric, lemma_lex_lt_connected, lemma_lex_lt_irreflexive};

verus! {

/// The packages `v` as mathematical values.
pub open spec fn views(v: Seq<Package>) -> Seq<PackageView> {
    v.map_values(|p: Package| p@)
}

/// No package of `s` has a name that comes before that of an earlier one.
pub open spec fn name_sorted(s: Seq<PackageView>) -> bool {
    forall|i: int, j: int| 0 <= i < j < s.len() ==> lex_le(#[trigger] s[i].name, #[trigger] s[j].name)
}

/// No two packages of `s` share a name.
pub open spec fn names_distinct(s: Seq<PackageView>) -> bool {
    forall|i: int, j: int| 0 <= i < j < s.len() ==> #[trigger] s[i].name != #[trigger] s[j].name
}

/// Where a package called `name` goes into `s`: behind the packages whose
/// names come before `name`, in front of all others.
pub open spec fn insert_point(s: Seq<PackageView>, name: Seq<char>) -> int
    decreases s.len(),
{
    if s.len() == 0 || !lex_lt(s[0].name, name) {
        0
    } else {
        1 + insert_point(s.drop_first(), name)
    }
}

/// `s` ordered by name; packages of one name keep the order they had in `s`.
pub open spec fn sorted_by_name(s: Seq<PackageView>) -> Seq<PackageView>
    decreases s.len(),
{
    if s.len() == 0 {
        s
    } else {
        let rest = sorted_by_name(s.drop_first());
        rest.insert(insert_point(rest, s[0].name), s[0])
    }
}

/// `insert_point` lies within `s`; the names in front of it come before
/// `name`, and the name at it does not.
pub proof fn lemma_insert_point(s: Seq<PackageView>, name: Seq<char>)
    ensures
        0 <= insert_point(s, name) <= s.len(),
        forall|j: int| 0 <= j < insert_point(s, name) ==> lex_lt(#[trigger] s[j].name, name),
        insert_point(s, name) < s.len() ==> !lex_lt(s[insert_point(s, name)].name, name),
    decreases s.len(),
{
    if s.len() == 0 || !lex_lt(s[0].name, name) {
    } else {
        lemma_insert_point(s.drop_first(), name);
        assert forall|j: int| 0 <= j < insert_point(s, name) implies lex_lt(
            #[trigger] s[j].name,
            name,
        ) by {
            if j > 0 {
                assert(s[j] == s.drop_first()[j - 1]);
            }
        }
    }
}

/// A package put at its `insert_point` leaves a sorted sequence sorted.
pub proof fn lemma_insert_keeps_sorted(s: Seq<PackageView>, p: PackageView)
    requires
        name_sorted(s),
    ensures
        name_sorted(s.insert(insert_point(s, p.name), p)),
{
    lemma_insert_point(s, p.name);
    let at = insert_point(s, p.name);
    let t = s.insert(at, p);
    assert forall|i: int, j: int| 0 <= i < j < t.len() implies lex_le(
        #[trigger] t[i].name,
        #[trigger] t[j].name,
    ) by {
        if j == at {
            assert(t[i] == s[i]);
            lemma_lex_lt_asymmetric(s[i].name, p.name);
        } else if i == at {
            assert(t[j] == s[j - 1]);
            assert(lex_le(p.name, s[at].name));
            if j - 1 > at {
                assert(lex_le(s[at].name, s[j - 1].name));
                lemma_lex_le_transitive(p.name, s[at].name, s[j - 1].name);
            }
        } else {
            let a = if i < at { i } else { i - 1 };
            let b = if j < at { j } else { j - 1 };
            assert(t[i] == s[a]);
            assert(t[j] == s[b]);
        }
    }
}

/// `sorted_by_name` orders by name and neither drops nor adds a package.
pub proof fn lemma_sorted_by_name(s: Seq<PackageView>)
    ensures
        name_sorted(sorted_by_name(s)),
        sorted_by_name(s).len() == s.len(),
        sorted_by_name(s).to_multiset() == s.to_multiset(),
    decreases s.len(),
{
    broadcast use vstd::seq_lib::group_to_multiset_ensures;

    if s.len() == 0 {
    } else {
        let rest = sorted_by_name(s.drop_first());
        lemma_sorted_by_name(s.drop_first());
        lemma_insert_point(rest, s[0].name);
        lemma_insert_keeps_sorted(rest, s[0]);
        let at = insert_point(rest, s[0].name);
        assert(rest.insert(at, s[0]).to_multiset() == rest.to_multiset().insert(s[0]));
        assert(s =~= seq![s[0]] + s.drop_first());
        assert(s.to_multiset() =~= s.drop_first().to_multiset().insert(s[0])) by {
            assert(s.drop_first().insert(0, s[0]) =~= s);
        }
    }
}

/// The test "the package is called `name`".
pub open spec fn called(name: Seq<char>) -> spec_fn(PackageView) -> bool {
    |p: PackageView| p.name == name
}

/// Among `s`, nothing passes a test that none of `s` passes.
proof fn lemma_filter_nothing(s: Seq<PackageView>, pred: spec_fn(PackageView) -> bool)
    requires
        forall|i: int| 0 <= i < s.len() ==> !pred(#[trigger] s[i]),
    ensures
        s.filter(pred) == Seq::<PackageView>::empty(),
    decreases s.len(),
{
    reveal(Seq::filter);
    if s.len() > 0 {
        assert forall|i: int| 0 <= i < s.drop_last().len() implies !pred(
            #[trigger] s.drop_last()[i],
        ) by {
            assert(s.drop_last()[i] == s[i]);
        }
        lemma_filter_nothing(s.drop_last(), pred);
        assert(!pred(s[s.len() - 1]));
    }
}

/// What passes a test among one package.
proof fn lemma_filter_one(p: PackageView, pred: spec_fn(PackageView) -> bool)
    ensures
        seq![p].filter(pred) == if pred(p) {
            seq![p]
        } else {
            Seq::<PackageView>::empty()
        },
{
    reveal(Seq::filter);
    assert(seq![p].drop_last() =~= Seq::<PackageView>::empty());
    assert(seq![p].drop_last().filter(pred) =~= Seq::<PackageView>::empty());
    assert(seq![p].last() == p);
    assert(Seq::<PackageView>::empty().push(p) =~= seq![p]);
}

/// The order by name is stable: the packages of any one name stand in
/// `sorted_by_name(s)` in the order in which they stand in `s`.
pub proof fn lemma_sorted_by_name_is_stable(s: Seq<PackageView>, name: Seq<char>)
    ensures
        sorted_by_name(s).filter(called(name)) == s.filter(called(name)),
    decreases s.len(),
{
    broadcast use Seq::filter_distributes_over_add;

    let pred = called(name);
    if s.len() > 0 {
        let tail = s.drop_first();
        let rest = sorted_by_name(tail);
        let at = insert_point(rest, s[0].name);
        lemma_sorted_by_name_is_stable(tail, name);
        lemma_insert_point(rest, s[0].name);
        lemma_filter_one(s[0], pred);
        let front = rest.take(at);
        let back = rest.skip(at);
        assert(rest =~= front + back);
        assert(rest.insert(at, s[0]) =~= (front + seq![s[0]]) + back);
        assert(s =~= seq![s[0]] + tail);
        assert(rest.filter(pred) == front.filter(pred) + back.filter(pred));
        assert(sorted_by_name(s).filter(pred) == (front.filter(pred) + seq![s[0]].filter(pred))
            + back.filter(pred));
        assert(s.filter(pred) == seq![s[0]].filter(pred) + tail.filter(pred));
        if pred(s[0]) {
            assert forall|i: int| 0 <= i < front.len() implies !pred(#[trigger] front[i]) by {
                assert(front[i] == rest[i]);
                assert(lex_lt(rest[i].name, s[0].name));
                lemma_lex_lt_irreflexive(name);
            }
            lemma_filter_nothing(front, pred);
            assert(sorted_by_name(s).filter(pred) =~= s.filter(pred));
        } else {
            assert(sorted_by_name(s).filter(pred) =~= s.filter(pred));
        }
    }
}

/// Where `p` goes into the sorted packages `out`.
fn find_insert_point(out: &Vec<Package>, p: &Package) -> (at: usize)
    ensures
        at == insert_point(views(out@), p@.name),
        at <= out.len(),
{
    let key = chars_of(p.name.as_str());
    let mut i: usize = 0;
    proof {
        assert(views(out@).skip(0) =~= views(out@));
    }
    while i < out.len()
        invariant
            i <= out.len(),
            key@ == p@.name,
            insert_point(views(out@), p@.name) == i + insert_point(
                views(out@).skip(i as int),
                p@.name,
            ),
        decreases out.len() - i,
    {
        let other = chars_of(out[i].name.as_str());
        proof {
            assert(views(out@).skip(i as int)[0] == out@[i as int]@);
            assert(views(out@).skip(i as int).drop_first() =~= views(out@).skip(i as int + 1));
        }
        if !chars_lt(&other, &key) {
            return i;
        }
        i = i + 1;
    }
    i
}

/// The packages ordered by name; packages of one name keep the order they had.
pub fn sort_by_name(packs: Vec<Package>) -> (out: Vec<Package>)
    ensures
        views(out@) == sorted_by_name(views(packs@)),
        name_sorted(views(out@)),
        views(out@).to_multiset() == views(packs@).to_multiset(),
        forall|name: Seq<char>|
            #![trigger called(name)]
            views(out@).filter(called(name)) == views(packs@).filter(called(name)),
        out.len() == packs.len(),
{
    let ghost whole = views(packs@);
    let mut packs = packs;
    let mut out: Vec<Package> = Vec::new();
    proof {
        assert(whole.skip(whole.len() as int) =~= Seq::<PackageView>::empty());
        assert(views(out@) =~= sorted_by_name(whole.skip(whole.len() as int)));
    }
    while packs.len() > 0
        invariant
            packs.len() <= whole.len(),
            views(packs@) == whole.take(packs.len() as int),
            views(out@) == sorted_by_name(whole.skip(packs.len() as int)),
        decreases packs.len(),
    {
        let ghost before = packs@;
        let ghost n = packs.len() as int;
        let p = packs.pop().unwrap();
        let at = find_insert_point(&out, &p);
        let ghost sorted_rest = views(out@);
        out.insert(at, p);
        proof {
            assert(p@ == whole[n - 1]) by {
                assert(views(before)[n - 1] == before[n - 1]@);
            }
            assert(views(packs@) =~= whole.take(n - 1));
            assert(whole.skip(n - 1).drop_first() =~= whole.skip(n));
            assert(whole.skip(n - 1)[0] == whole[n - 1]);
            assert(views(out@) =~= sorted_rest.insert(at as int, p@));
        }
    }
    proof {
        assert(whole.skip(0) =~= whole);
        lemma_sorted_by_name(whole);
        assert forall|name: Seq<char>| #![trigger called(name)]
            sorted_by_name(whole).filter(called(name)) == whole.filter(called(name)) by {
            lemma_sorted_by_name_is_stable(whole, name);
        }
    }
    out
}

/// Two sorted sequences that hold the same packages are equal, where no
/// two of the packages share a name.
pub proof fn lemma_sorted_is_unique(x: Seq<PackageView>, y: Seq<PackageView>)
    requires
        name_sorted(x),
        name_sorted(y),
        names_distinct(x),
        x.to_multiset() == y.to_multiset(),
    ensures
        x == y,
    decreases x.len(),
{
    broadcast use vstd::seq_lib::group_to_multiset_ensures;

    assert(x.len() == y.len()) by {
        x.to_multiset_ensures();
        y.to_multiset_ensures();
    }
    if x.len() == 0 {
        assert(x =~= y);
    } else {
        assert(x.contains(x[0]));
        assert(y.to_multiset().count(x[0]) > 0);
        assert(y.contains(x[0]));
        let j = choose|j: int| 0 <= j < y.len() && y[j] == x[0];
        assert(y.contains(y[0]));
        assert(x.to_multiset().count(y[0]) > 0);
        assert(x.contains(y[0]));
        let i = choose|i: int| 0 <= i < x.len() && x[i] == y[0];
        if i != 0 {
            assert(lex_le(x[0].name, x[i].name));
            if j != 0 {
                assert(lex_le(y[0].name, y[j].name));
            } else {
                lemma_lex_lt_irreflexive(y[0].name);
            }
            lemma_lex_lt_connected(x[0].name, x[i].name);
            assert(x[0].name == x[i].name);
            assert(false);
        }
        assert(x[0] == y[0]);
        assert(x.drop_first().to_multiset() =~= x.to_multiset().remove(x[0])) by {
            assert(x.remove(0) =~= x.drop_first());
        }
        assert(y.drop_first().to_multiset() =~= y.to_multiset().remove(y[0])) by {
            assert(y.remove(0) =~= y.drop_first());
        }
        assert forall|a: int, b: int| 0 <= a < b < x.drop_first().len() implies lex_le(
            #[trigger] x.drop_first()[a].name,
            #[trigger] x.drop_first()[b].name,
        ) by {
            assert(lex_le(x[a + 1].name, x[b + 1].name));
        }
        assert forall|a: int, b: int| 0 <= a < b < y.drop_first().len() implies lex_le(
            #[trigger] y.drop_first()[a].name,
            #[trigger] y.drop_first()[b].name,
        ) by {
            assert(lex_le(y[a + 1].name, y[b + 1].name));
        }
        assert forall|a: int, b: int| 0 <= a < b < x.drop_first().len() implies (
        #[trigger] x.drop_first()[a].name) != (#[trigger] x.drop_first()[b].name) by {
            assert(x[a + 1].name != x[b + 1].name);
        }
        lemma_sorted_is_unique(x.drop_first(), y.drop_first());
        assert(x =~= seq![x[0]] + x.drop_first());
        assert(y =~= seq![y[0]] + y.drop_first());
    }
}

/// Sequences that hold the same packages share their names' distinctness.
pub proof fn lemma_names_distinct_of_same_packages(x: Seq<PackageView>, y: Seq<PackageView>)
    requires
        names_distinct(x),
        x.to_multiset() == y.to_multiset(),
    ensures
        names_distinct(y),
{
    broadcast use vstd::seq_lib::group_to_multiset_ensures;

    assert forall|a: int, b: int| 0 <= a < b < y.len() implies (#[trigger] y[a].name) != (
    #[trigger] y[b].name) by {
        if y[a].name == y[b].name {
            assert(y.contains(y[a]));
            assert(x.to_multiset().count(y[a]) > 0);
            assert(x.contains(y[a]));
            let i = choose|i: int| 0 <= i < x.len() && x[i] == y[a];
            assert(y.contains(y[b]));
            assert(x.to_multiset().count(y[b]) > 0);
            assert(x.contains(y[b]));
            let j = choose|j: int| 0 <= j < x.len() && x[j] == y[b];
            if i != j {
                if i < j {
                    assert(x[i].name != x[j].name);
                } else {
                    assert(x[j].name != x[i].name);
                }
            } else {
                // one package of `x` stands twice in `y`
                assert(y[a] == y[b]);
                lemma_count_two(y, a, b);
                lemma_count_one(x, i);
            }
        }
    }
}

/// A value that stands at two places of a sequence counts at least twice.
proof fn lemma_count_two(y: Seq<PackageView>, a: int, b: int)
    requires
        0 <= a < b < y.len(),
        y[a] == y[b],
    ensures
        y.to_multiset().count(y[a]) >= 2,
{
    broadcast use vstd::seq_lib::group_to_multiset_ensures;

    let v = y[a];
    let y1 = y.remove(b);
    assert(y1.to_multiset() =~= y.to_multiset().remove(v));
    assert(y1[a] == v);
    assert(y1.contains(v));
    assert(y1.to_multiset().count(v) > 0);
}

/// Among packages of distinct names, each counts once.
proof fn lemma_count_one(x: Seq<PackageView>, i: int)
    requires
        0 <= i < x.len(),
        names_distinct(x),
    ensures
        x.to_multiset().count(x[i]) == 1,
{
    broadcast use vstd::seq_lib::group_to_multiset_ensures;

    let v = x[i];
    let x1 = x.remove(i);
    assert(x1.to_multiset() =~= x.to_multiset().remove(v));
    if x1.to_multiset().count(v) > 0 {
        assert(x1.contains(v));
        let k = choose|k: int| 0 <= k < x1.len() && x1[k] == v;
        if k < i {
            assert(x[k] == v);
            assert(x[k].name != x[i].name);
        } else {
            assert(x[k + 1] == v);
            assert(x[i].name != x[k + 1].name);
        }
    }
}

/// The order by name of packages with distinct names does not depend on
/// the order in which they came.
pub proof fn lemma_sorted_by_name_of_same_packages(x: Seq<PackageView>, y: Seq<PackageView>)
    requires
        names_distinct(x),
        x.to_multiset() == y.to_multiset(),
    ensures
        sorted_by_name(x) == sorted_by_name(y),
{
    lemma_sorted_by_name(x);
    lemma_sorted_by_name(y);
    lemma_names_distinct_of_same_packages(x, sorted_by_name(x));
    lemma_sorted_is_unique(sorted_by_name(x), sorted_by_name(y));
}

} // verus!
