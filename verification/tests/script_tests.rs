use pack::package::Package;
use pack::script::{loader_script, plugin_file_path, SCRIPT_HEADER};

#[test]
fn the_script_of_no_package_is_the_header() {
    assert_eq!(loader_script(&Vec::new()), SCRIPT_HEADER);
    assert_eq!(SCRIPT_HEADER, "\" Generated by pack. DO NOT EDIT!\n\n");
}

#[test]
fn the_script_lists_the_packages_by_name() {
    let packs = vec![Package::new("b/y", "c", false), Package::new("a/x", "d", true)];
    assert_eq!(
        loader_script(&packs),
        "\" Generated by pack. DO NOT EDIT!\n\n\" a/x\n\" b/y\n"
    );
}

#[test]
fn a_command_gets_its_definition() {
    let mut p = Package::new("junegunn/goyo.vim", "c", true);
    p.set_load_command("Goyo");
    assert_eq!(
        loader_script(&vec![p]),
        "\" Generated by pack. DO NOT EDIT!\n\n\" junegunn/goyo.vim\ncommand! -nargs=* -range -bang Goyo packadd goyo.vim | Goyo <args>\n"
    );
}

#[test]
fn the_script_does_not_depend_on_the_order_given() {
    let mut lazy = Package::new("c/z", "c", true);
    lazy.set_load_command("Z");
    let a = vec![Package::new("b/y", "c", false), lazy.clone(), Package::new("a/x", "c", false)];
    let b = vec![Package::new("a/x", "c", false), Package::new("b/y", "c", false), lazy.clone()];
    let c = vec![lazy, Package::new("b/y", "c", false), Package::new("a/x", "c", false)];
    assert_eq!(loader_script(&a), loader_script(&b));
    assert_eq!(loader_script(&a), loader_script(&c));
}

#[test]
fn the_script_lies_in_the_plugin_directory() {
    assert_eq!(plugin_file_path(), vec!["plugin".to_string(), "__pack.vim".to_string()]);
}
