use peg_bootstrap::input::Input;
use peg_bootstrap::text::{join_spaced, str_eq};

#[test]
fn str_eq_compares_characters() {
    assert!(str_eq("", ""));
    assert!(str_eq("a", "a"));
    assert!(str_eq("你好", "你好"));
    assert!(!str_eq("a", ""));
    assert!(!str_eq("", "a"));
    assert!(!str_eq("a", "b"));
    assert!(!str_eq("ab", "abc"));
    assert!(!str_eq("abc", "abd"));
    assert!(!str_eq("你好", "你a"));
}

#[test]
fn join_spaced_puts_single_spaces_between() {
    assert_eq!("", join_spaced(&vec![]));
    assert_eq!("a", join_spaced(&vec!["a"]));
    assert_eq!("a b", join_spaced(&vec!["a", "b"]));
    assert_eq!("foo { 1 } bar", join_spaced(&vec!["foo", "{", "1", "}", "bar"]));
    assert_eq!(" a", join_spaced(&vec!["", "a"]));
    assert_eq!(" ", join_spaced(&vec!["", ""]));
}

#[test]
fn input_hands_out_grapheme_clusters() {
    let clusters: Vec<&str> = Input::new("你a好").collect();
    assert_eq!(vec!["你", "a", "好"], clusters);
    // A cluster may hold several characters.
    let clusters: Vec<&str> = Input::new("a\u{310}e\u{301}o\u{308}\u{332}").collect();
    assert_eq!(vec!["a\u{310}", "e\u{301}", "o\u{308}\u{332}"], clusters);
    let clusters: Vec<&str> = Input::new("a\r\nb").collect();
    assert_eq!(vec!["a", "\r\n", "b"], clusters);
    let clusters: Vec<&str> = Input::new("").collect();
    assert!(clusters.is_empty());
}

#[test]
fn input_stays_at_its_end() {
    let mut input = Input::new("ab");
    assert_eq!(Some("a"), input.next());
    assert_eq!(Some("b"), input.next());
    assert_eq!(None, input.next());
    assert_eq!(None, input.next());
}
