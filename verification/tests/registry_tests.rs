use pack::error::Error;
use pack::package::Package;
use pack::registry::{fetch, from_documents, from_records, packfile_path, packfile_text, save,
    PACKFILE_HEADER};
use yaml_rust::{Yaml, YamlLoader};

fn record(pairs: &[(&str, Yaml)]) -> Yaml {
    let mut h = yaml_rust::yaml::Hash::new();
    for (k, v) in pairs.iter() {
        h.insert(Yaml::String(k.to_string()), v.clone());
    }
    Yaml::Hash(h)
}

fn text(s: &str) -> Yaml {
    Yaml::String(s.to_string())
}

fn same(a: &Package, b: &Package) -> bool {
    a.name == b.name && a.category == b.category && a.opt == b.opt
        && a.load_command == b.load_command
}

#[test]
fn from_fields_needs_name_category_and_opt() {
    let ok = Package::from_fields(
        Some("a/b".to_string()),
        Some("c".to_string()),
        Some(true),
        Some("Cmd".to_string()),
    )
    .unwrap();
    let mut want = Package::new("a/b", "c", true);
    want.set_load_command("Cmd");
    assert!(same(&ok, &want));
    let bare = Package::from_fields(Some("a/b".to_string()), Some("c".to_string()), Some(false), None)
        .unwrap();
    assert!(same(&bare, &Package::new("a/b", "c", false)));
    assert_eq!(
        Package::from_fields(None, Some("c".to_string()), Some(true), None).err(),
        Some(Error::Format)
    );
    assert_eq!(
        Package::from_fields(Some("a".to_string()), None, Some(true), None).err(),
        Some(Error::Format)
    );
    assert_eq!(
        Package::from_fields(Some("a".to_string()), Some("c".to_string()), None, None).err(),
        Some(Error::Format)
    );
}

#[test]
fn from_yaml_reads_a_full_record() {
    let doc = record(&[
        ("name", text("user/repo")),
        ("category", text("lang")),
        ("opt", Yaml::Boolean(true)),
        ("on", text("Goyo")),
    ]);
    let p = Package::from_yaml(&doc).unwrap();
    let mut want = Package::new("user/repo", "lang", true);
    want.set_load_command("Goyo");
    assert!(same(&p, &want));
}

#[test]
fn from_yaml_without_on_has_no_command() {
    let doc = record(&[
        ("name", text("user/repo")),
        ("category", text("lang")),
        ("opt", Yaml::Boolean(false)),
    ]);
    let p = Package::from_yaml(&doc).unwrap();
    assert!(same(&p, &Package::new("user/repo", "lang", false)));
}

#[test]
fn from_yaml_rejects_a_record_without_name() {
    let doc = record(&[("category", text("lang")), ("opt", Yaml::Boolean(false))]);
    assert_eq!(Package::from_yaml(&doc).err(), Some(Error::Format));
}

#[test]
fn from_yaml_rejects_a_record_without_opt_or_category() {
    let doc = record(&[("name", text("a/b")), ("category", text("lang"))]);
    assert_eq!(Package::from_yaml(&doc).err(), Some(Error::Format));
    let doc = record(&[("name", text("a/b")), ("opt", Yaml::Boolean(false))]);
    assert_eq!(Package::from_yaml(&doc).err(), Some(Error::Format));
}

#[test]
fn from_yaml_rejects_fields_of_the_wrong_type() {
    let doc = record(&[
        ("name", Yaml::Integer(3)),
        ("category", text("lang")),
        ("opt", Yaml::Boolean(false)),
    ]);
    assert_eq!(Package::from_yaml(&doc).err(), Some(Error::Format));
    let doc = record(&[("name", text("a/b")), ("category", text("lang")), ("opt", text("yes"))]);
    assert_eq!(Package::from_yaml(&doc).err(), Some(Error::Format));
    assert_eq!(Package::from_yaml(&Yaml::Null).err(), Some(Error::Format));
    assert_eq!(Package::from_yaml(&text("name")).err(), Some(Error::Format));
}

#[test]
fn into_yaml_writes_the_fields_in_order() {
    let mut p = Package::new("user/repo", "lang", true);
    p.set_load_command("Goyo");
    let mut h = yaml_rust::yaml::Hash::new();
    h.insert(text("name"), text("user/repo"));
    h.insert(text("category"), text("lang"));
    h.insert(text("opt"), Yaml::Boolean(true));
    h.insert(text("on"), text("Goyo"));
    let got = p.into_yaml();
    assert_eq!(got, Yaml::Hash(h.clone()));
    let keys: Vec<Yaml> = got.as_hash().unwrap().keys().cloned().collect();
    assert_eq!(keys, vec![text("name"), text("category"), text("opt"), text("on")]);
}

#[test]
fn into_yaml_without_command_has_three_fields() {
    let p = Package::new("user/repo", "lang", false);
    let mut h = yaml_rust::yaml::Hash::new();
    h.insert(text("name"), text("user/repo"));
    h.insert(text("category"), text("lang"));
    h.insert(text("opt"), Yaml::Boolean(false));
    assert_eq!(p.to_record(), Yaml::Hash(h.clone()));
    assert_eq!(p.into_yaml(), Yaml::Hash(h));
}

#[test]
fn into_yaml_reads_scalars_as_the_crate_does() {
    let p = Package::new("123", "true", false);
    let got = p.into_yaml();
    assert_eq!(got["name"], Yaml::Integer(123));
    assert_eq!(got["category"], Yaml::Boolean(true));
    assert_eq!(Package::from_yaml(&got).err(), Some(Error::Format));
}

#[test]
fn record_round_trip() {
    let mut p = Package::new("user/repo", "lang", true);
    p.set_load_command("Goyo");
    let back = Package::from_yaml(&p.clone().into_yaml()).unwrap();
    assert!(same(&back, &p));
}

#[test]
fn fetch_of_an_absent_store_is_empty() {
    let packs = fetch(None).unwrap();
    assert!(packs.is_empty());
}

#[test]
fn fetch_of_an_empty_store_is_empty() {
    assert!(fetch(Some("")).unwrap().is_empty());
    assert!(fetch(Some("# only a comment\n")).unwrap().is_empty());
}

#[test]
fn fetch_of_a_store_that_is_no_list_is_empty() {
    assert!(fetch(Some("name: a/b\n")).unwrap().is_empty());
    assert!(fetch(Some("just text")).unwrap().is_empty());
}

#[test]
fn fetch_reads_the_records_in_order() {
    let store = "# vim: ft=yaml\n---\n- name: b/y\n  category: c\n  opt: true\n  on: Cmd\n- name: a/x\n  category: d\n  opt: false\n";
    let packs = fetch(Some(store)).unwrap();
    assert_eq!(packs.len(), 2);
    let mut first = Package::new("b/y", "c", true);
    first.set_load_command("Cmd");
    assert!(same(&packs[0], &first));
    assert!(same(&packs[1], &Package::new("a/x", "d", false)));
}

#[test]
fn fetch_of_a_record_without_name_is_a_format_error() {
    let store = "- name: a/x\n  category: c\n  opt: false\n- category: c\n  opt: true\n";
    assert_eq!(fetch(Some(store)).err(), Some(Error::Format));
}

#[test]
fn fetch_of_broken_yaml_is_a_format_error() {
    assert_eq!(fetch(Some("- name: [unclosed\n")).err(), Some(Error::Format));
}

#[test]
fn from_documents_reads_the_first_document_only() {
    let docs = YamlLoader::load_from_str(
        "- name: a/x\n  category: c\n  opt: false\n---\n- name: b/y\n  category: c\n  opt: false\n",
    )
    .unwrap();
    assert_eq!(docs.len(), 2);
    let packs = from_documents(&docs).unwrap();
    assert_eq!(packs.len(), 1);
    assert_eq!(packs[0].name, "a/x");
    assert!(from_documents(&Vec::new()).unwrap().is_empty());
    assert!(from_documents(&vec![Yaml::Null]).unwrap().is_empty());
}

#[test]
fn from_records_stops_at_a_bad_record() {
    let good = record(&[("name", text("a/b")), ("category", text("c")), ("opt", Yaml::Boolean(true))]);
    let bad = record(&[("name", text("a/b"))]);
    assert_eq!(from_records(&vec![good.clone(), good.clone()]).unwrap().len(), 2);
    assert_eq!(from_records(&vec![good.clone(), bad.clone()]).err(), Some(Error::Format));
    assert_eq!(from_records(&vec![bad, good]).err(), Some(Error::Format));
    assert!(from_records(&Vec::new()).unwrap().is_empty());
}

#[test]
fn packfile_text_puts_the_header_in_front() {
    assert_eq!(
        packfile_text("body"),
        "# vim: ft=yaml\n#\n# Generated by pack. DO NOT EDIT!\n\nbody"
    );
    assert_eq!(packfile_text(""), PACKFILE_HEADER);
}

#[test]
fn save_sorts_by_name_and_writes_the_header() {
    let packs = vec![
        Package::new("test/hello", "default", true),
        Package::new("rust-lang/rust.vim", "rust", false),
    ];
    let out = save(packs).unwrap();
    assert_eq!(
        out,
        "# vim: ft=yaml\n#\n# Generated by pack. DO NOT EDIT!\n\n---\n- name: rust-lang/rust.vim\n  category: rust\n  opt: false\n- name: test/hello\n  category: default\n  opt: true"
    );
}

#[test]
fn save_of_an_empty_registry() {
    assert_eq!(
        save(Vec::new()).unwrap(),
        "# vim: ft=yaml\n#\n# Generated by pack. DO NOT EDIT!\n\n---\n[]"
    );
}

#[test]
fn save_does_not_depend_on_the_order_given() {
    let a = vec![
        Package::new("b/y", "c", true),
        Package::new("a/x", "c", false),
        Package::new("c/z", "d", false),
    ];
    let b = vec![
        Package::new("c/z", "d", false),
        Package::new("a/x", "c", false),
        Package::new("b/y", "c", true),
    ];
    assert_eq!(save(a).unwrap(), save(b).unwrap());
}

#[test]
fn save_then_fetch_gives_the_registry_by_name() {
    let mut with_cmd = Package::new("b/y", "c", true);
    with_cmd.set_load_command("Goyo");
    let packs = vec![with_cmd.clone(), Package::new("a/x", "d", false)];
    let store = save(packs).unwrap();
    let back = fetch(Some(&store)).unwrap();
    assert_eq!(back.len(), 2);
    assert!(same(&back[0], &Package::new("a/x", "d", false)));
    assert!(same(&back[1], &with_cmd));
}

#[test]
fn the_store_lies_in_the_pack_directory() {
    assert_eq!(packfile_path(), vec![".pack".to_string(), "packfile".to_string()]);
}
