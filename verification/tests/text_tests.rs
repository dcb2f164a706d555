use pack::text::{chars_contain, chars_end_with, chars_lt, chars_of, find_char, find_char_from,
    matches_at, replace_char, str_lt, string_of, string_of_range, trim_range};

fn cs(s: &str) -> Vec<char> {
    s.chars().collect()
}

#[test]
fn chars_and_back() {
    assert_eq!(chars_of("añb"), vec!['a', 'ñ', 'b']);
    assert_eq!(chars_of(""), Vec::<char>::new());
    assert_eq!(string_of(&cs("añb")), "añb");
    assert_eq!(string_of_range(&cs("hello"), 1, 3), "el");
    assert_eq!(string_of_range(&cs("hello"), 2, 2), "");
}

#[test]
fn order_is_that_of_strings() {
    let samples = ["", "a", "ab", "b", "B", "a/b", "a-b", "é", "z", "zz", "ab "];
    for a in samples.iter() {
        for b in samples.iter() {
            assert_eq!(str_lt(a, b), a < b);
            assert_eq!(chars_lt(&cs(a), &cs(b)), a < b);
        }
    }
}

#[test]
fn a_prefix_comes_first() {
    assert!(str_lt("abc", "abcd"));
    assert!(!str_lt("abcd", "abc"));
    assert!(!str_lt("abc", "abc"));
}

#[test]
fn find_char_gives_the_first_or_the_length() {
    assert_eq!(find_char(&cs("a/b/c"), '/'), 1);
    assert_eq!(find_char(&cs("abc"), '/'), 3);
    assert_eq!(find_char(&cs(""), '/'), 0);
    assert_eq!(find_char_from(&cs("a/b/c"), 2, '/'), 3);
    assert_eq!(find_char_from(&cs("a/b/c"), 4, '/'), 5);
    assert_eq!(find_char_from(&cs("a/b/c"), 5, '/'), 5);
}

#[test]
fn replace_char_turns_every_one() {
    assert_eq!(replace_char(&cs("a/b/c"), '/', '-'), cs("a-b-c"));
    assert_eq!(replace_char(&cs("abc"), '/', '-'), cs("abc"));
}

#[test]
fn ends_with_and_contains() {
    assert!(chars_end_with(&cs("x.vim"), &cs(".vim")));
    assert!(chars_end_with(&cs(".vim"), &cs(".vim")));
    assert!(!chars_end_with(&cs("vim"), &cs(".vim")));
    assert!(chars_end_with(&cs("abc"), &cs("")));
    assert!(chars_contain(&cs("owner/repo"), &cs("er/re")));
    assert!(chars_contain(&cs("owner/repo"), &cs("repo")));
    assert!(chars_contain(&cs("owner/repo"), &cs("")));
    assert!(chars_contain(&cs(""), &cs("")));
    assert!(!chars_contain(&cs("owner/repo"), &cs("repos")));
    assert!(!chars_contain(&cs("ab"), &cs("abc")));
    assert!(matches_at(&cs("abcd"), &cs("bc"), 1));
    assert!(!matches_at(&cs("abcd"), &cs("bc"), 2));
}

#[test]
fn trim_range_drops_white_space_at_both_ends() {
    let v = cs("  a b\t, \u{a0}c ");
    assert_eq!(trim_range(&v, 0, 6), "a b");
    assert_eq!(trim_range(&v, 7, v.len()), "c");
    assert_eq!(trim_range(&v, 0, 2), "");
    assert_eq!(trim_range(&v, 3, 3), "");
    assert_eq!(trim_range(&v, 0, v.len()), "  a b\t, \u{a0}c ".trim());
}
