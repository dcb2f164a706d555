//! The description of one package, and what is derived from it: the owner
//! and repository parts of its name, its install directory and the name of
//! its configuration file.

use vstd::prelude::*;
use crate::text::{chars_end_with, chars_of, ends_with, find_char, index_of, replace_char,
    replaced, string_of};

verus! {

/// One wanted package.
#[derive(Debug)]
pub struct Package {
    /// What identifies the package: a coordinate such as `owner/repo`.
    pub name: String,
    /// The group under which the package is installed.
    pub category: String,
    /// Whether the package is loaded on demand only, not at startup.
    pub opt: bool,
    /// Load this package on this command
    pub load_command: Option<String>,
}

/// A package as a mathematical value.
pub struct PackageView {
    pub name: Seq<char>,
    pub category: Seq<char>,
    pub opt: bool,
    pub load_command: Option<Seq<char>>,
}

impl View for Package {
    type V = PackageView;

    open spec fn view(&self) -> PackageView {
        PackageView {
            name: self.name@,
            category: self.category@,
            opt: self.opt,
            load_command: match self.load_command {
                Some(c) => Some(c@),
                None => None,
            },
        }
    }
}

/// The part of `name` before its first `/`: all of it where it holds none.
pub open spec fn owner_of(name: Seq<char>) -> Seq<char> {
    name.take(index_of(name, '/'))
}

/// The part of `name` after its first `/`: empty where it holds none.
pub open spec fn repo_of(name: Seq<char>) -> Seq<char> {
    if index_of(name, '/') < name.len() {
        name.skip(index_of(name, '/') + 1)
    } else {
        Seq::empty()
    }
}

/// The name of the directory that holds the packages loaded at startup
/// (`start`) or on demand (`opt`).
pub open spec fn kind_dir(opt: bool) -> Seq<char> {
    if opt {
        "opt"@
    } else {
        "start"@
    }
}

/// The install directory of a package, as its components below the base
/// directory: `pack`, the category, `opt` or `start`, the repository.
pub open spec fn install_path(p: PackageView) -> Seq<Seq<char>> {
    seq!["pack"@, p.category, kind_dir(p.opt), repo_of(p.name)]
}

/// The name of a package's configuration file: the package's name with `-`
/// for each `/`, and `.vim` behind it unless it ends so already.
pub open spec fn config_file_name(name: Seq<char>) -> Seq<char> {
    let flat = replaced(name, '/', '-');
    if ends_with(flat, ".vim"@) {
        flat
    } else {
        flat + ".vim"@
    }
}

/// The configuration file of a package, as its components below the base
/// directory: `.pack`, then the file's name.
pub open spec fn config_file_path(p: PackageView) -> Seq<Seq<char>> {
    seq![".pack"@, config_file_name(p.name)]
}

/// The line that describes a package to the user.
pub open spec fn description(p: PackageView) -> Seq<char> {
    p.name + " => pack/"@ + p.category + "/"@ + kind_dir(p.opt) + " "@ + match p.load_command {
        Some(c) => "[Load on `"@ + c + "`]"@,
        None => Seq::empty(),
    }
}

/// The views of the strings `v`, one by one.
pub open spec fn views_of(v: Seq<String>) -> Seq<Seq<char>> {
    v.map_values(|s: String| s@)
}

impl Clone for Package {
    fn clone(&self) -> (r: Package)
        ensures
            r == *self,
    {
        Package {
            name: self.name.clone(),
            category: self.category.clone(),
            opt: self.opt,
            load_command: match &self.load_command {
                Some(c) => Some(c.clone()),
                None => None,
            },
        }
    }
}

impl Package {
    /// A package that no command loads.
    pub fn new(name: &str, category: &str, opt: bool) -> (r: Package)
        ensures
            r@ == (PackageView { name: name@, category: category@, opt, load_command: None }),
    {
        Package {
            name: name.to_owned(),
            category: category.to_owned(),
            opt: opt,
            load_command: None,
        }
    }

    /// Puts the package under the category that `cat` converts into: for a
    /// string slice, the category of the same characters.
    pub fn set_category<T: Into<String>>(&mut self, cat: T)
        ensures
            call_ensures(<T as Into<String>>::into, (cat,), final(self).category),
            final(self).name == old(self).name,
            final(self).opt == old(self).opt,
            final(self).load_command == old(self).load_command,
    {
        self.category = cat.into();
    }

    /// Says whether the package is loaded on demand only.
    pub fn set_opt(&mut self, opt: bool)
        ensures
            final(self)@ == (PackageView { opt, ..old(self)@ }),
    {
        self.opt = opt;
    }

    /// Names the command that loads the package.
    pub fn set_load_command(&mut self, cmd: &str)
        ensures
            final(self)@ == (PackageView { load_command: Some(cmd@), ..old(self)@ }),
    {
        self.load_command = Some(cmd.to_owned())
    }

    /// The owner and the repository of the package: what stands before the
    /// first `/` of its name, and what stands after it.
    pub fn repo(&self) -> (r: (&str, &str))
        ensures
            r.0@ == owner_of(self.name@),
            r.1@ == repo_of(self.name@),
    {
        let chars = chars_of(self.name.as_str());
        let n = chars.len();
        let k = find_char(&chars, '/');
        let name = self.name.as_str();
        if k < n {
            (name.substring_char(0, k), name.substring_char(k + 1, n))
        } else {
            proof {
                assert(name@.take(k as int) =~= name@.subrange(0, k as int));
            }
            (name.substring_char(0, k), name.substring_char(n, n))
        }
    }

    /// The install directory, as its components below the base directory.
    pub fn path(&self) -> (r: Vec<String>)
        ensures
            views_of(r@) == install_path(self@),
    {
        let (_, repo) = self.repo();
        let mut r: Vec<String> = Vec::new();
        r.push("pack".to_owned());
        r.push(self.category.clone());
        if self.opt {
            r.push("opt".to_owned());
        } else {
            r.push("start".to_owned());
        }
        r.push(repo.to_owned());
        proof {
            assert(views_of(r@) =~= install_path(self@));
        }
        r
    }

    /// Whether the package is installed: what `is_dir` says of its install
    /// directory, which it is given by its components below the base
    /// directory.
    pub fn is_installed<F: FnOnce(&Vec<String>) -> bool>(&self, is_dir: F) -> (r: bool)
        requires
            forall|p: Vec<String>|
                views_of(p@) == install_path(self@) ==> call_requires(is_dir, (&p,)),
        ensures
            exists|p: Vec<String>|
                views_of(p@) == install_path(self@) && call_ensures(is_dir, (&p,), r),
    {
        let path = self.path();
        is_dir(&path)
    }

    /// The configuration file, as its components below the base directory.
    pub fn config_path(&self) -> (r: Vec<String>)
        ensures
            views_of(r@) == config_file_path(self@),
    {
        let chars = chars_of(self.name.as_str());
        let flat = replace_char(&chars, '/', '-');
        let suffix = chars_of(".vim");
        let mut fname = string_of(&flat);
        if !chars_end_with(&flat, &suffix) {
            fname.append(".vim");
        }
        let mut r: Vec<String> = Vec::new();
        r.push(".pack".to_owned());
        r.push(fname);
        proof {
            assert(views_of(r@) =~= config_file_path(self@));
        }
        r
    }

    /// The line that describes the package to the user.
    pub fn describe(&self) -> (r: String)
        ensures
            r@ == description(self@),
    {
        let mut r = self.name.clone();
        r.append(" => pack/");
        r.append(self.category.as_str());
        r.append("/");
        r.append(if self.opt { "opt" } else { "start" });
        r.append(" ");
        match &self.load_command {
            Some(c) => {
                r.append("[Load on `");
                r.append(c.as_str());
                r.append("`]");
                proof {
                    assert(r@ =~= description(self@));
                }
            },
            None => {
                proof {
                    assert(r@ =~= description(self@));
                }
            },
        }
        r
    }
}

} // verus!
