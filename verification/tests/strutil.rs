use ush::strutil::StringSet;

#[test]
fn test_string_set() {
    let mut s = StringSet::new();
    s.add("foo");
    s.add("foo");
    s.add("bar");
    s.add("baz");
    s.remove("bar");

    assert!(s.contains("foo"));
    assert_eq!(s.sorted_strings(), vec!["baz", "foo"]);
}

#[test]
fn string_set_from_lines_skips_blanks_and_comments() {
    let lines: Vec<String> = ["hello", "", "# note", "world", "hello"].iter().map(|s| s.to_string()).collect();
    let s = StringSet::from_lines(&lines);
    assert_eq!(s.sorted_strings(), vec!["hello", "world"]);
    assert_eq!(s.len(), 2);
}

#[test]
fn string_set_add_remove_contains() {
    let mut s = StringSet::new();
    assert!(!s.contains("x"));
    s.add("x");
    assert!(s.contains("x"));
    s.remove("x");
    assert!(!s.contains("x"));
    s.remove("missing");
    assert_eq!(s.len(), 0);
    s.add("b");
    s.add("a");
    s.add("ab");
    assert_eq!(s.sorted_strings(), vec!["a", "ab", "b"]);
    let copy = s.duplicate();
    assert_eq!(copy.sorted_strings(), s.sorted_strings());
}
