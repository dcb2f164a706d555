//! What this library takes on trust from the YAML crate: the shape of a node,
//! the loader and the emitter. Nothing here is proved; each item says what it
//! claims of the crate.

use vstd::prelude::*;
use yaml_rust::{EmitError, ScanError, Yaml, YamlEmitter, YamlLoader};

verus! {

/// A YAML node of the crate. Its inside is not visible here.
#[verifier::external_type_specification]
#[verifier::external_body]
pub struct ExYaml(Yaml);

/// The loader's error. Its inside is not visible here.
#[verifier::external_type_specification]
#[verifier::external_body]
pub struct ExScanError(ScanError);

/// The emitter's error. Its inside is not visible here.
#[verifier::external_type_specification]
#[verifier::external_body]
pub struct ExEmitError(EmitError);

/// The documents that the loader reads from `source`; `None` where it
/// reports an error.
pub uninterp spec fn yaml_documents(source: Seq<char>) -> Option<Seq<Yaml>>;

/// What stands under the string key `key` in the mapping `doc`.
pub uninterp spec fn yaml_entry(doc: Yaml, key: Seq<char>) -> Yaml;

/// The text of a string node; `None` for any other node.
pub uninterp spec fn yaml_text(node: Yaml) -> Option<Seq<char>>;

/// The value of a boolean node; `None` for any other node.
pub uninterp spec fn yaml_flag(node: Yaml) -> Option<bool>;

/// The items of a sequence node; `None` for any other node.
pub uninterp spec fn yaml_items(node: Yaml) -> Option<Seq<Yaml>>;

/// The node that the crate reads out of the plain scalar `text`.
pub uninterp spec fn yaml_scalar(text: Seq<char>) -> Yaml;

/// The boolean node of value `b`.
pub uninterp spec fn yaml_boolean(b: bool) -> Yaml;

/// The sequence node of the items `items`.
pub uninterp spec fn yaml_array(items: Seq<Yaml>) -> Yaml;

/// The mapping node that results from entering the pairs `entries`, key and
/// value, one after the other into an empty mapping.
pub uninterp spec fn yaml_hash(entries: Seq<(Yaml, Yaml)>) -> Yaml;

/// The text that the emitter writes for the document `doc`; `None` where it
/// reports an error.
pub uninterp spec fn yaml_dump(doc: Yaml) -> Option<Seq<char>>;

/// `YamlLoader::load_from_str` parses a text into its documents, or reports
/// why it cannot. The claim: the outcome depends on the text alone.
#[verifier::external_body]
pub(crate) fn load_documents(source: &str) -> (r: Result<Vec<Yaml>, ScanError>)
    ensures
        match r {
            Ok(docs) => yaml_documents(source@) == Some(docs@),
            Err(_) => yaml_documents(source@).is_none(),
        },
{
    YamlLoader::load_from_str(source)
}

/// Indexing a node by a string (`Index<&str>` of `Yaml`) yields the value under
/// that key, or the crate's bad value where the node is no mapping or has no
/// such key. The claim: the outcome depends on node and key alone.
#[verifier::external_body]
pub(crate) fn entry<'a>(doc: &'a Yaml, key: &str) -> (r: &'a Yaml)
    ensures
        *r == yaml_entry(*doc, key@),
{
    &doc[key]
}

/// `Yaml::as_str` yields the text of a string node and nothing for any other.
pub assume_specification<'a>[ Yaml::as_str ](node: &'a Yaml) -> (r: Option<&'a str>)
    ensures
        match r {
            Some(s) => yaml_text(*node) == Some(s@),
            None => yaml_text(*node).is_none(),
        },
;

/// `Yaml::as_bool` yields the value of a boolean node and nothing for any other.
pub assume_specification[ Yaml::as_bool ](node: &Yaml) -> (r: Option<bool>)
    ensures
        r == yaml_flag(*node),
;

/// `Yaml::as_vec` yields the items of a sequence node and nothing for any other.
pub assume_specification<'a>[ Yaml::as_vec ](node: &'a Yaml) -> (r: Option<&'a Vec<Yaml>>)
    ensures
        match r {
            Some(items) => yaml_items(*node) == Some(items@),
            None => yaml_items(*node).is_none(),
        },
;

/// `Yaml::from_str` reads a plain scalar: an integer, a real, a boolean, null,
/// or else the string itself. The claim: the outcome depends on the text alone.
pub assume_specification[ Yaml::from_str ](v: &str) -> (r: Yaml)
    ensures
        r == yaml_scalar(v@),
;

/// The variant `Yaml::Boolean` of the crate's node, made of its value.
#[verifier::external_body]
pub(crate) fn boolean(b: bool) -> (r: Yaml)
    ensures
        r == yaml_boolean(b),
{
    Yaml::Boolean(b)
}

/// The variant `Yaml::Array` of the crate's node, made of its items.
#[verifier::external_body]
pub(crate) fn array(items: Vec<Yaml>) -> (r: Yaml)
    ensures
        r == yaml_array(items@),
{
    Yaml::Array(items)
}

/// The variant `Yaml::Hash`, filled by the crate's map as it collects the
/// pairs, which enters them one after the other. The map keeps its pairs in
/// the order of entry, so that what is read of it, by key or in order, does
/// not depend on how a process seeds the map's hasher.
#[verifier::external_body]
pub(crate) fn hash(entries: Vec<(Yaml, Yaml)>) -> (r: Yaml)
    ensures
        r == yaml_hash(entries@),
{
    Yaml::Hash(entries.into_iter().collect())
}

/// `YamlEmitter::dump` writes a document as text into a string. The claim: the
/// outcome depends on the document alone.
#[verifier::external_body]
pub(crate) fn dump(doc: &Yaml) -> (r: Result<String, EmitError>)
    ensures
        match r {
            Ok(s) => yaml_dump(*doc) == Some(s@),
            Err(_) => yaml_dump(*doc).is_none(),
        },
{
    let mut out = String::new();
    YamlEmitter::new(&mut out).dump(doc)?;
    Ok(out)
}

} // verus!
