use tyuo::engine::model::text::chars_of;
use tyuo::engine::model::text::chars_precede;
use tyuo::engine::model::text::lowercase_all;
use tyuo::engine::model::text::string_of;
use tyuo::engine::model::text::text_in;
use tyuo::engine::model::text::trim;

fn chars(text: &str) -> Vec<char> {
    text.chars().collect()
}

#[test]
fn a_text_is_taken_apart_and_put_together() {
    assert_eq!(chars_of("héllo"), vec!['h', 'é', 'l', 'l', 'o']);
    assert!(chars_of("").is_empty());
    assert_eq!(string_of(&chars("héllo"), 1, 4), "éll");
    assert_eq!(string_of(&chars("héllo"), 2, 2), "");
    assert_eq!(string_of(&chars("héllo"), 0, 5), "héllo");
}

#[test]
fn texts_are_ordered_by_their_characters() {
    assert!(chars_precede(&chars("a"), &chars("b")));
    assert!(!chars_precede(&chars("b"), &chars("a")));
    assert!(chars_precede(&chars("ab"), &chars("abc")));
    assert!(!chars_precede(&chars("abc"), &chars("ab")));
    assert!(!chars_precede(&chars("abc"), &chars("abc")));
    assert!(chars_precede(&chars(""), &chars("a")));
    assert!(!chars_precede(&chars(""), &chars("")));
    assert!(chars_precede(&chars("Z"), &chars("a")));
    assert!(chars_precede(&chars("abd"), &chars("abé")));
}

#[test]
fn white_space_is_taken_from_both_ends_only() {
    assert_eq!(trim(&chars("  a b \t\n")), "a b");
    assert_eq!(trim(&chars("a")), "a");
    assert_eq!(trim(&chars(" \u{a0}\u{3000} ")), "");
    assert_eq!(trim(&chars("")), "");
    assert_eq!(trim(&chars("x  ")), "x");
    assert_eq!(trim(&chars("  x")), "x");
}

#[test]
fn texts_are_lowered_and_looked_for() {
    let all = lowercase_all(&vec!["Hello".to_string(), "ÄB".to_string(), "ok".to_string()]);
    assert_eq!(all, vec!["hello".to_string(), "äb".to_string(), "ok".to_string()]);
    assert!(text_in(&all, &"äb".to_string()));
    assert!(!text_in(&all, &"ÄB".to_string()));
    assert!(!text_in(&Vec::new(), &"".to_string()));
}
