use armamagna::text::{join_spaces, sort_strings, str_lex_le};

fn strings(words: &[&str]) -> Vec<String> {
    words.iter().map(|w| w.to_string()).collect()
}

#[test]
fn test_str_lex_le_order() {
    assert!(str_lex_le("a", "b"));
    assert!(!str_lex_le("b", "a"));
    assert!(str_lex_le("a", "ab"));
    assert!(!str_lex_le("ab", "a"));
    assert!(str_lex_le("abc", "abc"));
    assert!(str_lex_le("", "a"));
    // "bar man" < "bar nam": space sorts before letters, then m < n decides
    assert!(str_lex_le("bar man", "bar nam"));
}

#[test]
fn test_sort_strings_sorts_and_keeps_all() {
    let sorted = sort_strings(&strings(&["bb", "a", "ab", "a"]));
    assert_eq!(sorted, strings(&["a", "a", "ab", "bb"]));
}

#[test]
fn test_join_spaces() {
    assert_eq!(join_spaces(&strings(&[])), "");
    assert_eq!(join_spaces(&strings(&["one"])), "one");
    assert_eq!(join_spaces(&strings(&["a", "bc", "d"])), "a bc d");
}
