use pack::error::Error;
use pack::package::Package;

fn strings(parts: &[&str]) -> Vec<String> {
    parts.iter().map(|s| s.to_string()).collect()
}

#[test]
fn new_package_has_no_command() {
    let p = Package::new("maralla/completor.vim", "default", false);
    assert_eq!(p.name, "maralla/completor.vim");
    assert_eq!(p.category, "default");
    assert!(!p.opt);
    assert_eq!(p.load_command, None);
}

#[test]
fn setters_change_one_field_each() {
    let mut p = Package::new("a/b", "default", false);
    p.set_category("lang");
    assert_eq!(p.category, "lang");
    p.set_category(String::from("tools"));
    assert_eq!(p.category, "tools");
    p.set_opt(true);
    assert!(p.opt);
    p.set_load_command("Goyo");
    assert_eq!(p.load_command, Some("Goyo".to_string()));
    assert_eq!(p.name, "a/b");
    assert_eq!(p.category, "tools");
}

#[test]
fn clone_is_equal_field_by_field() {
    let mut p = Package::new("a/b", "c", true);
    p.set_load_command("Cmd");
    let q = p.clone();
    assert_eq!(q.name, p.name);
    assert_eq!(q.category, p.category);
    assert_eq!(q.opt, p.opt);
    assert_eq!(q.load_command, p.load_command);
}

#[test]
fn repo_splits_at_the_first_slash() {
    let p = Package::new("user/repo", "c", false);
    assert_eq!(p.repo(), ("user", "repo"));
    let p = Package::new("user/group/repo", "c", false);
    assert_eq!(p.repo(), ("user", "group/repo"));
}

#[test]
fn repo_without_a_slash_is_empty() {
    let p = Package::new("plain", "c", false);
    assert_eq!(p.repo(), ("plain", ""));
    let p = Package::new("", "c", false);
    assert_eq!(p.repo(), ("", ""));
    let p = Package::new("user/", "c", false);
    assert_eq!(p.repo(), ("user", ""));
    let p = Package::new("/repo", "c", false);
    assert_eq!(p.repo(), ("", "repo"));
}

#[test]
fn repo_counts_characters_not_bytes() {
    let p = Package::new("üser/répo", "c", false);
    assert_eq!(p.repo(), ("üser", "répo"));
}

#[test]
fn path_of_a_start_package() {
    let p = Package::new("user/repo", "lang", false);
    assert_eq!(p.path(), strings(&["pack", "lang", "start", "repo"]));
}

#[test]
fn path_of_an_opt_package() {
    let p = Package::new("user/repo", "lang", true);
    assert_eq!(p.path(), strings(&["pack", "lang", "opt", "repo"]));
}

#[test]
fn config_path_replaces_slashes_and_appends_the_suffix() {
    let p = Package::new("user/repo", "c", false);
    assert_eq!(p.config_path(), strings(&[".pack", "user-repo.vim"]));
    let p = Package::new("a/b/c", "c", false);
    assert_eq!(p.config_path(), strings(&[".pack", "a-b-c.vim"]));
}

#[test]
fn config_path_keeps_a_suffix_that_is_there() {
    let p = Package::new("user/repo.vim", "c", false);
    assert_eq!(p.config_path(), strings(&[".pack", "user-repo.vim"]));
    let p = Package::new(".vim", "c", false);
    assert_eq!(p.config_path(), strings(&[".pack", ".vim"]));
    let p = Package::new("vim", "c", false);
    assert_eq!(p.config_path(), strings(&[".pack", "vim.vim"]));
}

#[test]
fn describe_without_a_command() {
    let p = Package::new("user/repo", "lang", false);
    assert_eq!(p.describe(), "user/repo => pack/lang/start ");
}

#[test]
fn describe_with_a_command() {
    let mut p = Package::new("user/repo", "lang", true);
    p.set_load_command("Goyo");
    assert_eq!(p.describe(), "user/repo => pack/lang/opt [Load on `Goyo`]");
}

#[test]
fn errors_have_their_messages() {
    assert_eq!(Error::Format.message(), "Invalid packfile format");
    assert_eq!(Error::PluginNotInstalled.message(), "Plugin not installed");
    assert_eq!(Error::SkipLocal.message(), "Local plugin. Skipping");
    assert_eq!(Error::Vcs.message(), "Version control failure");
    assert_eq!(Error::Filesystem.message(), "Filesystem failure");
    assert_eq!(Error::Threads.message(), "Threads should be greater than 0");
    assert_eq!(Error::Emit.message(), "Fail to encode the packfile");
}

#[test]
fn per_item_errors_are_the_three_of_the_batch() {
    assert!(Error::PluginNotInstalled.is_per_item());
    assert!(Error::SkipLocal.is_per_item());
    assert!(Error::Vcs.is_per_item());
    assert!(!Error::Format.is_per_item());
    assert!(!Error::Filesystem.is_per_item());
    assert!(!Error::Threads.is_per_item());
    assert!(!Error::Emit.is_per_item());
}

#[test]
fn is_installed_asks_about_the_install_directory() {
    let p = Package::new("user/repo", "lang", false);
    let asked = std::cell::RefCell::new(Vec::new());
    let there = p.is_installed(|path: &Vec<String>| {
        asked.borrow_mut().push(path.clone());
        true
    });
    assert!(there);
    assert_eq!(*asked.borrow(), vec![strings(&["pack", "lang", "start", "repo"])]);
    assert!(!p.is_installed(|_path: &Vec<String>| false));
    let want = strings(&["pack", "lang", "opt", "repo"]);
    assert!(!p.is_installed(|path: &Vec<String>| *path == want));
    let q = Package::new("user/repo", "lang", true);
    assert!(q.is_installed(|path: &Vec<String>| *path == want));
}
