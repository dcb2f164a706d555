use pack::error::Error;
use pack::package::Package;
use pack::script::loader_script;
use pack::update::{command, name_is_skipped, parse_skip, regenerate, resolve_workers,
    select_batch, update_packfile, update_plugin, update_plugins, worker_count, Command};

fn names(packs: &Vec<Package>) -> Vec<String> {
    packs.iter().map(|p| p.name.clone()).collect()
}

fn strings(parts: &[&str]) -> Vec<String> {
    parts.iter().map(|s| s.to_string()).collect()
}

#[test]
fn worker_count_takes_the_request_first() {
    assert_eq!(worker_count(Some(3), 8), Ok(3));
    assert_eq!(worker_count(None, 8), Ok(8));
    assert_eq!(worker_count(Some(1), 0), Ok(1));
}

#[test]
fn worker_count_rejects_zero() {
    assert_eq!(worker_count(Some(0), 8), Err(Error::Threads));
    assert_eq!(worker_count(None, 0), Err(Error::Threads));
}

#[test]
fn threads_with_a_request_does_not_ask_the_machine() {
    assert_eq!(resolve_workers(Some(7)), Ok(7));
    assert_eq!(resolve_workers(Some(0)), Err(Error::Threads));
}

#[test]
fn threads_without_a_request_is_the_machine_or_an_error() {
    match resolve_workers(None) {
        Ok(n) => assert!(n >= 1),
        Err(e) => assert_eq!(e, Error::Threads),
    }
}

#[test]
fn parse_skip_splits_trims_and_drops_the_empty() {
    assert_eq!(parse_skip("x"), strings(&["x"]));
    assert_eq!(parse_skip("x,y"), strings(&["x", "y"]));
    assert_eq!(parse_skip(" x , y ,, z\t"), strings(&["x", "y", "z"]));
    assert_eq!(parse_skip("a b, c"), strings(&["a b", "c"]));
    assert_eq!(parse_skip(""), Vec::<String>::new());
    assert_eq!(parse_skip(" , ,"), Vec::<String>::new());
    assert_eq!(parse_skip(",x,"), strings(&["x"]));
}

#[test]
fn name_is_skipped_looks_for_substrings() {
    assert!(name_is_skipped("a/x", &strings(&["x"])));
    assert!(name_is_skipped("a/x", &strings(&["q", "a/"])));
    assert!(!name_is_skipped("b/y", &strings(&["x"])));
    assert!(!name_is_skipped("b/y", &Vec::new()));
}

#[test]
fn skip_filtering_leaves_out_what_holds_a_skip_string() {
    let registry = vec![Package::new("a/x", "c", false), Package::new("b/y", "c", false)];
    let picked = select_batch(&registry, &Vec::new(), &strings(&["x"]));
    assert_eq!(names(&picked.batch), strings(&["b/y"]));
    assert_eq!(picked.skipped, strings(&["a/x"]));
}

#[test]
fn without_names_and_skips_the_batch_is_the_registry() {
    let registry = vec![Package::new("a/x", "c", false), Package::new("b/y", "c", false)];
    let picked = select_batch(&registry, &Vec::new(), &Vec::new());
    assert_eq!(names(&picked.batch), strings(&["a/x", "b/y"]));
    assert!(picked.skipped.is_empty());
}

#[test]
fn named_packages_are_the_batch_and_skip_plays_no_part() {
    let registry = vec![
        Package::new("a/x", "c", false),
        Package::new("b/y", "c", false),
        Package::new("c/z", "c", false),
    ];
    let picked = select_batch(&registry, &strings(&["c/z", "a/x", "n/a"]), &strings(&["x"]));
    assert_eq!(names(&picked.batch), strings(&["a/x", "c/z"]));
    assert!(picked.skipped.is_empty());
}

#[test]
fn update_plugin_fails_what_is_not_installed() {
    assert_eq!(update_plugin(false, false, || true), Err(Error::PluginNotInstalled));
    assert_eq!(update_plugin(false, true, || true), Err(Error::PluginNotInstalled));
}

#[test]
fn update_plugin_leaves_local_packages_alone() {
    let asked = std::cell::Cell::new(false);
    let r = update_plugin(true, true, || {
        asked.set(true);
        true
    });
    assert_eq!(r, Err(Error::SkipLocal));
    assert!(!asked.get());
}

#[test]
fn update_plugin_asks_the_client_otherwise() {
    assert_eq!(update_plugin(true, false, || true), Ok(()));
    assert_eq!(update_plugin(true, false, || false), Err(Error::Vcs));
}

#[test]
fn regenerate_leaves_out_the_failed() {
    let registry = vec![
        Package::new("b/y", "c", false),
        Package::new("a/x", "c", false),
        Package::new("c/z", "c", false),
    ];
    let left = vec![Package::new("b/y", "c", false)];
    assert_eq!(regenerate(&registry, &strings(&["c/z", "a/x"])), loader_script(&left));
    assert_eq!(regenerate(&registry, &strings(&["a/x", "c/z", "a/x"])), loader_script(&left));
    assert_eq!(regenerate(&registry, &Vec::new()), loader_script(&registry));
}

#[test]
fn end_to_end_update() {
    let registry = vec![Package::new("A/p", "c", false), Package::new("B/q", "c", true)];
    let before = pack::registry::save(registry.clone()).unwrap();
    let done = update_plugins(&registry, &Vec::new(), 2, &Vec::new(), |p: &Package| {
        let installed = p.name != "A/p";
        update_plugin(installed, false, || true)
    });
    assert_eq!(done.failed, strings(&["A/p"]));
    assert_eq!(names(&done.batch), strings(&["A/p", "B/q"]));
    assert!(done.skipped.is_empty());
    assert_eq!(done.script, "\" Generated by pack. DO NOT EDIT!\n\n\" B/q\n");
    assert!(!done.script.contains("A/p"));
    assert_eq!(names(&registry), strings(&["A/p", "B/q"]));
    assert_eq!(pack::registry::save(registry).unwrap(), before);
}

#[test]
fn update_with_skips_and_failures() {
    let mut lazy = Package::new("c/lazy", "c", true);
    lazy.set_load_command("Lazy");
    let registry = vec![
        Package::new("d/broken", "c", false),
        lazy,
        Package::new("a/skipme", "c", false),
        Package::new("b/fine", "c", false),
    ];
    let done = update_plugins(&registry, &Vec::new(), 3, &strings(&["skip"]), |p: &Package| {
        update_plugin(true, false, || p.name != "d/broken")
    });
    assert_eq!(done.skipped, strings(&["a/skipme"]));
    assert_eq!(names(&done.batch), strings(&["d/broken", "c/lazy", "b/fine"]));
    assert_eq!(done.failed, strings(&["d/broken"]));
    assert_eq!(
        done.script,
        "\" Generated by pack. DO NOT EDIT!\n\n\" a/skipme\n\" b/fine\n\" c/lazy\ncommand! -nargs=* -range -bang Lazy packadd lazy | Lazy <args>\n"
    );
}

#[test]
fn repeating_an_update_fails_the_same_packages() {
    let registry = vec![
        Package::new("a/x", "c", false),
        Package::new("b/y", "c", false),
        Package::new("c/z", "c", false),
    ];
    let op = |p: &Package| update_plugin(p.name != "b/y", false, || true);
    let first = update_plugins(&registry, &Vec::new(), 1, &Vec::new(), op);
    let second = update_plugins(&registry, &Vec::new(), 4, &Vec::new(), op);
    assert_eq!(first.failed, second.failed);
    assert_eq!(first.script, second.script);
}

#[test]
fn the_packfile_flag_wins() {
    let r = command(strings(&["a/x"]), Some(0), Some(true), "x,y");
    assert!(matches!(r, Ok(Command::Packfile)));
    let r = command(Vec::new(), None, Some(false), "");
    assert!(matches!(r, Ok(Command::Packfile)));
}

#[test]
fn command_for_plugins_holds_names_workers_and_skips() {
    match command(strings(&["a/x", "b/y"]), Some(3), None, " x, ,y ") {
        Ok(Command::Plugins { plugins, threads, skip }) => {
            assert_eq!(plugins, strings(&["a/x", "b/y"]));
            assert_eq!(threads, 3);
            assert_eq!(skip, strings(&["x", "y"]));
        }
        _ => panic!("packages were to be updated"),
    }
}

#[test]
fn command_rejects_zero_workers() {
    assert!(matches!(command(Vec::new(), Some(0), None, ""), Err(Error::Threads)));
}

#[test]
fn command_without_workers_counts_the_machine() {
    match command(Vec::new(), None, None, "") {
        Ok(Command::Plugins { plugins, threads, skip }) => {
            assert!(plugins.is_empty());
            assert!(threads >= 1);
            assert!(skip.is_empty());
        }
        Ok(Command::Packfile) => panic!("no flag was given"),
        Err(e) => assert_eq!(e, Error::Threads),
    }
}

#[test]
fn update_packfile_is_the_script_of_the_whole_registry() {
    let store = "- name: b/y\n  category: c\n  opt: true\n  on: Cmd\n- name: a/x\n  category: d\n  opt: false\n";
    assert_eq!(
        update_packfile(Some(store)).unwrap(),
        "\" Generated by pack. DO NOT EDIT!\n\n\" a/x\n\" b/y\ncommand! -nargs=* -range -bang Cmd packadd y | Cmd <args>\n"
    );
    assert_eq!(update_packfile(None).unwrap(), "\" Generated by pack. DO NOT EDIT!\n\n");
    assert_eq!(update_packfile(Some("- opt: true\n")).err(), Some(Error::Format));
}
