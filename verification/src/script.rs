//! The loader script: what the editor reads at startup. It lists the packages
//! given to it by name, each with the command that loads it where it has one.

use vstd::prelude::*;
use crate::order::{lemma_sorted_by_name_of_same_packages, names_distinct, sort_by_name,
    sorted_by_name, views};
use crate::package::{repo_of, views_of, Package, PackageView};

verus! {

/// What the loader script begins with.
pub const SCRIPT_HEADER: &'static str = "\" Generated by pack. DO NOT EDIT!\n\n";

/// Where the loader script lies, as its components below the base directory.
pub open spec fn script_path() -> Seq<Seq<char>> {
    seq!["plugin"@, "__pack.vim"@]
}

/// Where the loader script lies, as its components below the base directory.
pub fn plugin_file_path() -> (r: Vec<String>)
    ensures
        views_of(r@) == script_path(),
{
    let mut r: Vec<String> = Vec::new();
    r.push("plugin".to_owned());
    r.push("__pack.vim".to_owned());
    proof {
        assert(views_of(r@) =~= script_path());
    }
    r
}

/// The lines of the loader script for one package: its name as a comment,
/// and, where a command loads it, the definition of that command, which
/// adds the package and then runs the command the package brings.
pub open spec fn script_entry(p: PackageView) -> Seq<char> {
    "\" "@ + p.name + "\n"@ + match p.load_command {
        Some(c) => "command! -nargs=* -range -bang "@ + c + " packadd "@ + repo_of(p.name)
            + " | "@ + c + " <args>\n"@,
        None => Seq::empty(),
    }
}

/// The entries of the packages `packs`, one after the other.
pub open spec fn script_body(packs: Seq<PackageView>) -> Seq<char>
    decreases packs.len(),
{
    if packs.len() == 0 {
        Seq::empty()
    } else {
        script_body(packs.drop_last()) + script_entry(packs.last())
    }
}

/// The loader script for the packages `packs`: the header, then their
/// entries by name.
pub open spec fn loader_script_of(packs: Seq<PackageView>) -> Seq<char> {
    SCRIPT_HEADER@ + script_body(sorted_by_name(packs))
}

/// The loader script is a function of the set of packages: two registries
/// that hold the same packages, none of a name twice, give the same
/// script in whatever order they hold them.
pub proof fn loader_script_ignores_order(packs_a: Seq<PackageView>, packs_b: Seq<PackageView>)
    requires
        names_distinct(packs_a),
        packs_a.to_multiset() == packs_b.to_multiset(),
    ensures
        loader_script_of(packs_a) == loader_script_of(packs_b),
{
    lemma_sorted_by_name_of_same_packages(packs_a, packs_b);
}

/// Puts the entry of `p` at the end of `out`.
fn push_entry(out: &mut String, p: &Package)
    ensures
        final(out)@ == old(out)@ + script_entry(p@),
{
    out.append("\" ");
    out.append(p.name.as_str());
    out.append("\n");
    match &p.load_command {
        Some(c) => {
            let (_, repo) = p.repo();
            out.append("command! -nargs=* -range -bang ");
            out.append(c.as_str());
            out.append(" packadd ");
            out.append(repo);
            out.append(" | ");
            out.append(c.as_str());
            out.append(" <args>\n");
            proof {
                assert(out@ =~= old(out)@ + script_entry(p@));
            }
        },
        None => {
            proof {
                assert(out@ =~= old(out)@ + script_entry(p@));
            }
        },
    }
}

/// The loader script for the packages `packs`.
pub fn loader_script(packs: &Vec<Package>) -> (r: String)
    ensures
        r@ == loader_script_of(views(packs@)),
{
    let sorted = sort_by_name(packs.clone());
    let mut r = SCRIPT_HEADER.to_owned();
    let ghost all = views(sorted@);
    let mut i: usize = 0;
    proof {
        assert(all.take(0) =~= Seq::<PackageView>::empty());
        assert(r@ =~= SCRIPT_HEADER@ + script_body(all.take(0)));
    }
    while i < sorted.len()
        invariant
            i <= sorted.len(),
            all == views(sorted@),
            r@ == SCRIPT_HEADER@ + script_body(all.take(i as int)),
        decreases sorted.len() - i,
    {
        let ghost before = r@;
        push_entry(&mut r, &sorted[i]);
        proof {
            assert(all.take(i + 1).drop_last() =~= all.take(i as int));
            assert(all.take(i + 1).last() == sorted@[i as int]@);
            assert(r@ =~= SCRIPT_HEADER@ + script_body(all.take(i + 1)));
        }
        i = i + 1;
    }
    proof {
        assert(all.take(sorted.len() as int) =~= all);
    }
    r
}

} // verus!
