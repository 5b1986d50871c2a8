use ossia::pattern::{expand, find, wild};
use ossia::text::{chars_of, name_ok, split, unique};

fn glob(p: &str, s: &str) -> bool {
    ossia::pattern::matches(&chars_of(p), &chars_of(s))
}

#[test]
fn star_matches_any_run() {
    assert!(glob("foo*", "foo"));
    assert!(glob("foo*", "foobar"));
    assert!(!glob("foo*", "fo"));
    assert!(!glob("foo*", "xfoo"));
    assert!(glob("*", ""));
    assert!(glob("*", "anything"));
    assert!(glob("a*b*c", "aXbYc"));
    assert!(glob("a*b*c", "abc"));
    assert!(!glob("a*b*c", "acb"));
    assert!(glob("*.1", "foo.1"));
}

#[test]
fn question_mark_matches_one_character() {
    assert!(glob("?at", "cat"));
    assert!(!glob("?at", "at"));
    assert!(!glob("?at", "flat"));
}

#[test]
fn classes_match_ranges_and_their_negation() {
    assert!(glob("[a-c]x", "bx"));
    assert!(!glob("[a-c]x", "dx"));
    assert!(glob("[!a-c]x", "dx"));
    assert!(!glob("[!a-c]x", "ax"));
    assert!(glob("n[0-9]", "n7"));
    assert!(glob("[xyz]", "y"));
    assert!(!glob("[xyz]", "w"));
    assert!(glob("[a-cx]", "x"));
}

#[test]
fn braces_match_one_alternative() {
    assert!(glob("{ab,cd}e", "abe"));
    assert!(glob("{ab,cd}e", "cde"));
    assert!(!glob("{ab,cd}e", "ae"));
    assert!(glob("x{,y}", "x"));
    assert!(glob("x{,y}", "xy"));
    assert!(glob("{a,b}{c,d}", "bd"));
}

#[test]
fn unclosed_brackets_stand_for_themselves() {
    assert!(glob("a[", "a["));
    assert!(glob("a{b", "a{b"));
    assert!(!glob("a[", "a"));
}

#[test]
fn literal_patterns_match_themselves_only() {
    assert!(glob("foo", "foo"));
    assert!(!glob("foo", "fo"));
    assert!(!glob("foo", "fooo"));
    assert!(glob("", ""));
    assert!(!glob("", "a"));
}

#[test]
fn braces_expand_in_order() {
    assert_eq!(expand("x{a,b}y"), vec!["xay", "xby"]);
    assert_eq!(expand("{a,b}{c,d}"), vec!["ac", "ad", "bc", "bd"]);
    assert_eq!(expand("plain"), vec!["plain"]);
    assert_eq!(expand(""), vec![""]);
    assert_eq!(expand("a{b"), vec!["a{b"]);
    assert_eq!(expand("n{1,2,3}"), vec!["n1", "n2", "n3"]);
}

#[test]
fn wildcards_are_recognised() {
    assert!(wild(&chars_of("a*")));
    assert!(wild(&chars_of("a?")));
    assert!(wild(&chars_of("[ab]")));
    assert!(!wild(&chars_of("{a,b}")));
    assert!(!wild(&chars_of("plain")));
    assert_eq!(find(&chars_of("a,b"), 0, ','), Some(1));
    assert_eq!(find(&chars_of("a,b"), 2, ','), None);
}

#[test]
fn paths_split_into_names() {
    assert_eq!(split("/foo/bar"), vec!["foo", "bar"]);
    assert_eq!(split("foo/bar/"), vec!["foo", "bar"]);
    assert_eq!(split("//a///b"), vec!["a", "b"]);
    assert_eq!(split("/"), Vec::<String>::new());
    assert_eq!(split(""), Vec::<String>::new());
    assert_eq!(split("é/ü"), vec!["é", "ü"]);
}

#[test]
fn names_are_not_empty_and_hold_no_separator() {
    assert!(name_ok("foo"));
    assert!(!name_ok(""));
    assert!(!name_ok("a/b"));
}

#[test]
fn tags_are_kept_once() {
    assert_eq!(unique(&["a", "b", "a", "c", "b"]), vec!["a", "b", "c"]);
}
