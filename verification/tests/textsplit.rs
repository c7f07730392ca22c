use minsh::text::{split_on_semi, str_eq, tokenize};

#[test]
fn str_eq_basic() {
    assert!(str_eq("", ""));
    assert!(str_eq("abc", "abc"));
    assert!(!str_eq("abc", "abd"));
    assert!(!str_eq("abc", "ab"));
    assert!(!str_eq("ab", "abc"));
}

#[test]
fn split_keeps_empty_pieces() {
    assert_eq!(split_on_semi("a;b;;c"), vec!["a", "b", "", "c"]);
    assert_eq!(split_on_semi(""), vec![""]);
    assert_eq!(split_on_semi(";"), vec!["", ""]);
    assert_eq!(split_on_semi("echo a"), vec!["echo a"]);
}

#[test]
fn tokenize_drops_extra_whitespace() {
    assert_eq!(tokenize("  echo   hi "), vec!["echo", "hi"]);
    assert_eq!(tokenize("set x 1"), vec!["set", "x", "1"]);
    assert_eq!(tokenize("   "), Vec::<String>::new());
    assert_eq!(tokenize(""), Vec::<String>::new());
    assert_eq!(tokenize("one\ttwo\nthree"), vec!["one", "two", "three"]);
}
