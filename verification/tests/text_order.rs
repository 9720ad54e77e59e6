use cargo_skeleton::text::{compare_text, first_difference, text_eq};
use std::cmp::Ordering;

#[test]
fn comparison_agrees_with_str() {
    let samples = ["", "a", "ab", "abc", "b", "B", "a b", "ä", "z", "日本", "a\u{10ffff}", "\u{0}"];
    for a in samples {
        for b in samples {
            assert_eq!(compare_text(a, b), a.cmp(b), "{:?} against {:?}", a, b);
            assert_eq!(text_eq(a, b), a == b);
        }
    }
}

#[test]
fn prefix_comes_first() {
    assert_eq!(compare_text("app", "apple"), Ordering::Less);
    assert_eq!(compare_text("apple", "app"), Ordering::Greater);
    assert_eq!(compare_text("app", "app"), Ordering::Equal);
}

#[test]
fn first_difference_is_length_of_common_prefix() {
    assert_eq!(first_difference(b"abcd", b"abxd"), 2);
    assert_eq!(first_difference(b"abc", b"abc"), 3);
    assert_eq!(first_difference(b"", b"abc"), 0);
    assert_eq!(first_difference(b"ab", b"abc"), 2);
}
