use pack::package::Package;
use pack::registry::save;
use pack::script::loader_script;
use pack::uninstall::{uninstall_plugin, uninstall_plugins};

fn strings(parts: &[&str]) -> Vec<String> {
    parts.iter().map(|s| s.to_string()).collect()
}

#[test]
fn uninstall_removes_the_install_directory() {
    let p = Package::new("user/repo", "lang", false);
    let r = uninstall_plugin(&p, false);
    assert_eq!(r.name, "user/repo");
    assert_eq!(r.dir, strings(&["pack", "lang", "start", "repo"]));
    assert_eq!(r.config, None);
}

#[test]
fn uninstall_with_all_removes_the_config_file_too() {
    let p = Package::new("user/repo", "lang", true);
    let r = uninstall_plugin(&p, true);
    assert_eq!(r.dir, strings(&["pack", "lang", "opt", "repo"]));
    assert_eq!(r.config, Some(strings(&[".pack", "user-repo.vim"])));
    let p = Package::new("user/repo.vim", "lang", true);
    assert_eq!(uninstall_plugin(&p, true).config, Some(strings(&[".pack", "user-repo.vim"])));
}

#[test]
fn uninstall_plugins_trims_registry_script_and_store() {
    let registry = vec![
        Package::new("c/z", "c", false),
        Package::new("a/x", "c", true),
        Package::new("b/y", "d", false),
    ];
    let out = uninstall_plugins(registry, &strings(&["a/x", "n/a"]), true);
    assert_eq!(out.removals.len(), 1);
    assert_eq!(out.removals[0].name, "a/x");
    assert_eq!(out.removals[0].dir, strings(&["pack", "c", "opt", "x"]));
    assert_eq!(out.removals[0].config, Some(strings(&[".pack", "a-x.vim"])));
    let left = vec![Package::new("b/y", "d", false), Package::new("c/z", "c", false)];
    assert_eq!(out.script, loader_script(&left));
    assert_eq!(out.store, save(left));
    assert_eq!(
        out.store.unwrap(),
        "# vim: ft=yaml\n#\n# Generated by pack. DO NOT EDIT!\n\n---\n- name: b/y\n  category: d\n  opt: false\n- name: c/z\n  category: c\n  opt: false"
    );
}

#[test]
fn uninstall_plugins_keeps_the_config_without_all() {
    let registry = vec![Package::new("a/x", "c", true), Package::new("b/y", "d", false)];
    let out = uninstall_plugins(registry, &strings(&["b/y", "a/x"]), false);
    assert_eq!(out.removals.len(), 2);
    assert_eq!(out.removals[0].name, "a/x");
    assert_eq!(out.removals[1].name, "b/y");
    assert!(out.removals.iter().all(|r| r.config.is_none()));
    assert_eq!(out.script, loader_script(&Vec::new()));
}

#[test]
fn uninstall_of_unknown_names_removes_nothing() {
    let registry = vec![Package::new("a/x", "c", true)];
    let out = uninstall_plugins(registry.clone(), &strings(&["n/a"]), true);
    assert!(out.removals.is_empty());
    assert_eq!(out.script, loader_script(&registry));
    assert_eq!(out.store, save(registry));
}
