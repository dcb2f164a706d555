//! The registry of wanted packages and its store: how a record of the store
//! becomes a package and a package a record, how the text of the store is
//! read, and how it is written.

use vstd::prelude::*;
use yaml_rust::Yaml;
use crate::error::Error;
use crate::order::{lemma_sorted_by_name_of_same_packages, names_distinct, sort_by_name,
    sorted_by_name, views};
use crate::package::{views_of, Package, PackageView};
use crate::yaml::{array, boolean, dump, entry, hash, load_documents, yaml_array, yaml_boolean,
    yaml_documents, yaml_dump, yaml_entry, yaml_flag, yaml_hash, yaml_items, yaml_scalar,
    yaml_text};

verus! {

/// What the store begins with.
pub const PACKFILE_HEADER: &'static str = "# vim: ft=yaml\n#\n# Generated by pack. DO NOT EDIT!\n\n";

/// Where the store lies, as its components below the base directory.
pub open spec fn store_path() -> Seq<Seq<char>> {
    seq![".pack"@, "packfile"@]
}

/// Where the store lies, as its components below the base directory.
pub fn packfile_path() -> (r: Vec<String>)
    ensures
        views_of(r@) == store_path(),
{
    let mut r: Vec<String> = Vec::new();
    r.push(".pack".to_owned());
    r.push("packfile".to_owned());
    proof {
        assert(views_of(r@) =~= store_path());
    }
    r
}

/// The package that the four fields of a record describe. A record without
/// a name, a category or the `opt` flag describes none.
pub open spec fn package_of_fields(
    name: Option<Seq<char>>,
    category: Option<Seq<char>>,
    opt: Option<bool>,
    on: Option<Seq<char>>,
) -> Result<PackageView, Error> {
    if name is Some && category is Some && opt is Some {
        Ok(PackageView { name: name->0, category: category->0, opt: opt->0, load_command: on })
    } else {
        Err(Error::Format)
    }
}

/// The package that the record `doc` describes: its name from the text under
/// `name`, its category from the text under `category`, its flag from the
/// boolean under `opt`, its command from the text under `on`.
pub open spec fn record_of(doc: Yaml) -> Result<PackageView, Error> {
    package_of_fields(
        yaml_text(yaml_entry(doc, "name"@)),
        yaml_text(yaml_entry(doc, "category"@)),
        yaml_flag(yaml_entry(doc, "opt"@)),
        yaml_text(yaml_entry(doc, "on"@)),
    )
}

/// The packages that the records `items` describe, in their order; an error
/// where one of them describes none.
pub open spec fn records_of(items: Seq<Yaml>) -> Result<Seq<PackageView>, Error> {
    if forall|i: int| 0 <= i < items.len() ==> (#[trigger] record_of(items[i])) is Ok {
        Ok(Seq::new(items.len(), |i: int| record_of(items[i])->Ok_0))
    } else {
        Err(Error::Format)
    }
}

/// The registry that the documents of a store hold: the records of the first
/// document where it is a list, and nothing where there is no document or
/// the first is no list.
pub open spec fn registry_of(docs: Seq<Yaml>) -> Result<Seq<PackageView>, Error> {
    if docs.len() == 0 {
        Ok(Seq::empty())
    } else {
        match yaml_items(docs[0]) {
            Some(items) => records_of(items),
            None => Ok(Seq::empty()),
        }
    }
}

/// The registry that a store holds. An absent store holds the empty registry;
/// a text that is no YAML, or a record that describes no package, is an error.
pub open spec fn loaded(store: Option<Seq<char>>) -> Result<Seq<PackageView>, Error> {
    match store {
        None => Ok(Seq::empty()),
        Some(text) => match yaml_documents(text) {
            Some(docs) => registry_of(docs),
            None => Err(Error::Format),
        },
    }
}

/// The pairs of the record that describes `p`, in the order in which they are
/// written: name, category, `opt`, and `on` where `p` has a command.
pub open spec fn record_entries(p: PackageView) -> Seq<(Yaml, Yaml)> {
    let fixed = seq![
        (yaml_scalar("name"@), yaml_scalar(p.name)),
        (yaml_scalar("category"@), yaml_scalar(p.category)),
        (yaml_scalar("opt"@), yaml_boolean(p.opt)),
    ];
    match p.load_command {
        Some(c) => fixed.push((yaml_scalar("on"@), yaml_scalar(c))),
        None => fixed,
    }
}

/// The record that describes `p`.
pub open spec fn record_for(p: PackageView) -> Yaml {
    yaml_hash(record_entries(p))
}

/// The document of the store for the packages `packs`: their records, by name.
pub open spec fn store_document(packs: Seq<PackageView>) -> Yaml {
    yaml_array(sorted_by_name(packs).map_values(|p: PackageView| record_for(p)))
}

/// The text `body` with the header of the store in front.
pub open spec fn with_header(body: Seq<char>) -> Seq<char> {
    PACKFILE_HEADER@ + body
}

/// The text of the store for the packages `packs`; an error where the
/// document cannot be written as text.
pub open spec fn store_text(packs: Seq<PackageView>) -> Result<Seq<char>, Error> {
    match yaml_dump(store_document(packs)) {
        Some(body) => Ok(with_header(body)),
        None => Err(Error::Emit),
    }
}

/// The store is written in one way only: two registries that hold the same
/// packages, none of a name twice, give the same text in whatever order they
/// hold them.
pub proof fn store_ignores_order(packs_a: Seq<PackageView>, packs_b: Seq<PackageView>)
    requires
        names_distinct(packs_a),
        packs_a.to_multiset() == packs_b.to_multiset(),
    ensures
        store_text(packs_a) == store_text(packs_b),
{
    lemma_sorted_by_name_of_same_packages(packs_a, packs_b);
}

/// A result with its package as a mathematical value.
pub open spec fn package_result(r: Result<Package, Error>) -> Result<PackageView, Error> {
    match r {
        Ok(p) => Ok(p@),
        Err(e) => Err(e),
    }
}

/// A result with its packages as mathematical values.
pub open spec fn registry_result(r: Result<Vec<Package>, Error>) -> Result<
    Seq<PackageView>,
    Error,
> {
    match r {
        Ok(v) => Ok(views(v@)),
        Err(e) => Err(e),
    }
}

/// A result with its text as a sequence of characters.
pub open spec fn text_result(r: Result<String, Error>) -> Result<Seq<char>, Error> {
    match r {
        Ok(s) => Ok(s@),
        Err(e) => Err(e),
    }
}

/// An optional text as a sequence of characters.
pub open spec fn text_option(o: Option<String>) -> Option<Seq<char>> {
    match o {
        Some(s) => Some(s@),
        None => None,
    }
}

/// The text of a string node as a string of its own.
fn text_of(node: &Yaml) -> (r: Option<String>)
    ensures
        text_option(r) == yaml_text(*node),
{
    match node.as_str() {
        Some(s) => Some(s.to_owned()),
        None => None,
    }
}

impl Package {
    /// The package that the four fields of a record describe; a format error
    /// where the name, the category or the flag is missing.
    pub fn from_fields(
        name: Option<String>,
        category: Option<String>,
        opt: Option<bool>,
        on: Option<String>,
    ) -> (r: Result<Package, Error>)
        ensures
            package_result(r) == package_of_fields(
                text_option(name),
                text_option(category),
                opt,
                text_option(on),
            ),
    {
        match (name, category, opt) {
            (Some(name), Some(category), Some(opt)) => Ok(
                Package { name: name, category: category, opt: opt, load_command: on },
            ),
            _ => Err(Error::Format),
        }
    }

    /// The package that a record of the store describes.
    pub fn from_yaml(doc: &Yaml) -> (r: Result<Package, Error>)
        ensures
            package_result(r) == record_of(*doc),
    {
        let name = text_of(entry(doc, "name"));
        let opt = entry(doc, "opt").as_bool();
        let category = text_of(entry(doc, "category"));
        let cmd = text_of(entry(doc, "on"));
        Package::from_fields(name, category, opt, cmd)
    }

    /// The record of the store that describes the package.
    pub fn into_yaml(self) -> (r: Yaml)
        ensures
            r == record_for(self@),
    {
        self.to_record()
    }

    /// The record of the store that describes the package, which stays.
    pub fn to_record(&self) -> (r: Yaml)
        ensures
            r == record_for(self@),
    {
        let mut doc: Vec<(Yaml, Yaml)> = Vec::new();
        doc.push((Yaml::from_str("name"), Yaml::from_str(self.name.as_str())));
        doc.push((Yaml::from_str("category"), Yaml::from_str(self.category.as_str())));
        doc.push((Yaml::from_str("opt"), boolean(self.opt)));
        if let Some(ref c) = self.load_command {
            doc.push((Yaml::from_str("on"), Yaml::from_str(c.as_str())));
        }
        proof {
            assert(doc@ =~= record_entries(self@));
        }
        hash(doc)
    }
}

/// The packages that the records `items` describe.
pub fn from_records(items: &Vec<Yaml>) -> (r: Result<Vec<Package>, Error>)
    ensures
        registry_result(r) == records_of(items@),
{
    let mut packs: Vec<Package> = Vec::new();
    let mut i: usize = 0;
    while i < items.len()
        invariant
            i <= items.len(),
            packs.len() == i,
            forall|j: int| 0 <= j < i ==> #[trigger] record_of(items@[j]) == Ok::<
                PackageView,
                Error,
            >(packs@[j]@),
        decreases items.len() - i,
    {
        match Package::from_yaml(&items[i]) {
            Ok(p) => {
                packs.push(p);
            },
            Err(_) => {
                assert(!(record_of(items@[i as int]) is Ok));
                return Err(Error::Format);
            },
        }
        i = i + 1;
    }
    proof {
        let found = Seq::new(items@.len(), |i: int| record_of(items@[i])->Ok_0);
        assert forall|j: int| 0 <= j < packs@.len() implies views(packs@)[j] == found[j] by {
            assert(record_of(items@[j]) is Ok);
        }
        assert(views(packs@) =~= found);
    }
    Ok(packs)
}

/// The registry that the documents of a store hold.
pub fn from_documents(docs: &Vec<Yaml>) -> (r: Result<Vec<Package>, Error>)
    ensures
        registry_result(r) == registry_of(docs@),
{
    if docs.len() == 0 {
        let none: Vec<Package> = Vec::new();
        proof {
            assert(views(none@) =~= Seq::<PackageView>::empty());
        }
        return Ok(none);
    }
    match docs[0].as_vec() {
        Some(items) => from_records(items),
        None => {
            let none: Vec<Package> = Vec::new();
            proof {
                assert(views(none@) =~= Seq::<PackageView>::empty());
            }
            Ok(none)
        },
    }
}

/// The registry that a store holds: `store` is its text, or `None` where
/// there is no store. Records that share a name are all kept, in their order.
pub fn fetch(store: Option<&str>) -> (r: Result<Vec<Package>, Error>)
    ensures
        registry_result(r) == loaded(
            match store {
                Some(text) => Some(text@),
                None => None,
            },
        ),
{
    match store {
        None => {
            let none: Vec<Package> = Vec::new();
            proof {
                assert(views(none@) =~= Seq::<PackageView>::empty());
            }
            Ok(none)
        },
        Some(text) => match load_documents(text) {
            Ok(docs) => from_documents(&docs),
            Err(_) => Err(Error::Format),
        },
    }
}

/// The text `body` with the header of the store in front.
pub fn packfile_text(body: &str) -> (r: String)
    ensures
        r@ == with_header(body@),
{
    let mut r = PACKFILE_HEADER.to_owned();
    r.append(body);
    r
}

/// The text of the store for the packages `packs`: the header, then their
/// records by name.
pub fn save(packs: Vec<Package>) -> (r: Result<String, Error>)
    ensures
        text_result(r) == store_text(views(packs@)),
{
    let ghost wanted = sorted_by_name(views(packs@)).map_values(|p: PackageView| record_for(p));
    let packs = sort_by_name(packs);
    let mut records: Vec<Yaml> = Vec::new();
    let mut i: usize = 0;
    while i < packs.len()
        invariant
            i <= packs.len(),
            records.len() == i,
            wanted.len() == packs.len(),
            forall|j: int| 0 <= j < packs.len() ==> #[trigger] wanted[j] == record_for(packs@[j]@),
            forall|j: int| 0 <= j < i ==> #[trigger] records@[j] == wanted[j],
        decreases packs.len() - i,
    {
        records.push(packs[i].to_record());
        i = i + 1;
    }
    proof {
        assert(records@ =~= wanted);
    }
    let doc = array(records);
    match dump(&doc) {
        Ok(out) => Ok(packfile_text(out.as_str())),
        Err(_) => Err(Error::Emit),
    }
}

} // verus!
