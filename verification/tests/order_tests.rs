use pack::order::sort_by_name;
use pack::package::Package;
use pack::select::{drop_named, has_name, keep_named};

fn names(packs: &Vec<Package>) -> Vec<String> {
    packs.iter().map(|p| p.name.clone()).collect()
}

fn strings(parts: &[&str]) -> Vec<String> {
    parts.iter().map(|s| s.to_string()).collect()
}

#[test]
fn sort_by_name_orders_as_strings_do() {
    let packs = vec![
        Package::new("b/y", "c", false),
        Package::new("a/x", "c", false),
        Package::new("B/q", "c", false),
        Package::new("a/", "c", false),
        Package::new("a", "c", false),
    ];
    let sorted = sort_by_name(packs);
    assert_eq!(names(&sorted), strings(&["B/q", "a", "a/", "a/x", "b/y"]));
}

#[test]
fn sort_by_name_keeps_the_order_of_equal_names() {
    let packs = vec![
        Package::new("b", "first", false),
        Package::new("a", "x", false),
        Package::new("b", "second", false),
        Package::new("b", "third", false),
    ];
    let sorted = sort_by_name(packs);
    assert_eq!(names(&sorted), strings(&["a", "b", "b", "b"]));
    assert_eq!(sorted[1].category, "first");
    assert_eq!(sorted[2].category, "second");
    assert_eq!(sorted[3].category, "third");
}

#[test]
fn sort_by_name_of_nothing_and_of_one() {
    assert!(sort_by_name(Vec::new()).is_empty());
    assert_eq!(names(&sort_by_name(vec![Package::new("z", "c", true)])), strings(&["z"]));
}

#[test]
fn sort_by_name_agrees_with_the_standard_sort() {
    let raw = ["m/n", "a/b", "z", "", "a/a", "M/n", "a/b/c", "é/x"];
    let packs: Vec<Package> = raw.iter().map(|n| Package::new(n, "c", false)).collect();
    let mut want: Vec<String> = raw.iter().map(|s| s.to_string()).collect();
    want.sort();
    assert_eq!(names(&sort_by_name(packs)), want);
}

#[test]
fn has_name_compares_whole_names() {
    let list = strings(&["a/x", "b/y"]);
    assert!(has_name(&list, &"a/x".to_string()));
    assert!(has_name(&list, &"b/y".to_string()));
    assert!(!has_name(&list, &"a".to_string()));
    assert!(!has_name(&Vec::new(), &"a/x".to_string()));
}

#[test]
fn keep_and_drop_split_the_registry() {
    let packs = vec![
        Package::new("a/x", "c", false),
        Package::new("b/y", "c", false),
        Package::new("c/z", "c", false),
    ];
    let asked = strings(&["c/z", "a/x", "n/a"]);
    assert_eq!(names(&keep_named(&packs, &asked)), strings(&["a/x", "c/z"]));
    assert_eq!(names(&drop_named(packs.clone(), &asked)), strings(&["b/y"]));
    assert_eq!(names(&drop_named(packs.clone(), &Vec::new())), strings(&["a/x", "b/y", "c/z"]));
    assert!(keep_named(&packs, &Vec::new()).is_empty());
}
