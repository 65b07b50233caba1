use byo_inference::lists::{chained, copied, first_of, holds_text, join};
use byo_inference::text::{
    contains_chars, decimal, ends_with, integer, same_text, starts_with, text_not_after, trim,
    truncate,
};

fn owned(items: &[&str]) -> Vec<String> {
    items.iter().map(|item| (*item).to_owned()).collect()
}

#[test]
fn trimming_takes_off_white_space_at_both_ends() {
    assert_eq!(trim(" \t a b\n\u{3000}"), "a b");
    assert_eq!(trim(trim("  x ")), "x");
    assert_eq!(trim("\u{85}\u{a0}\u{2009}"), "");
    assert_eq!(trim(""), "");
    assert_eq!(trim("\u{200b}x"), "\u{200b}x", "a zero-width space is no white space");
}

#[test]
fn truncation_counts_characters() {
    assert_eq!(truncate("añb", 2), "añ");
    assert_eq!(truncate("añb", 5), "añb");
    assert_eq!(truncate("añb", 0), "");
}

#[test]
fn texts_are_compared_by_their_characters() {
    assert!(same_text("é", "é") && !same_text("e", "é") && !same_text("a", "ab"));
    assert!(starts_with("cargo test", "cargo ") && starts_with("a", "") && !starts_with("", "a"));
    assert!(ends_with("a/v1", "/v1") && ends_with("a", "") && !ends_with("v1", "/v1"));
    assert!(text_not_after("a/b", "a/c") && !text_not_after("b", "a"));
    assert!(text_not_after("a", "ab") && text_not_after("a", "a") && !text_not_after("ab", "a"));
    assert!(text_not_after("z", "é"));
}

#[test]
fn parts_are_found_anywhere() {
    let holds = |text: &str, part: &str| {
        contains_chars(
            &text.chars().collect::<Vec<char>>(),
            &part.chars().collect::<Vec<char>>(),
        )
    };
    assert!(holds("src/auth.rs", "auth"));
    assert!(holds("aab", "ab"));
    assert!(holds("x", ""));
    assert!(!holds("", "x"));
    assert!(!holds("ab", "ba"));
}

#[test]
fn numbers_are_written_in_decimal() {
    assert_eq!(decimal(0), "0");
    assert_eq!(decimal(1_080), "1080");
    assert_eq!(decimal(u32::MAX), "4294967295");
    assert_eq!(integer(-17), "-17");
    assert_eq!(integer(i32::MAX), "2147483647");
}

#[test]
fn lists_are_copied_chained_and_joined() {
    let list = owned(&["a", "b"]);
    assert_eq!(copied(&list), list);
    assert!(holds_text(&list, "b") && !holds_text(&list, "c"));
    assert_eq!(first_of(owned(&["a", "b", "c"]), 2), owned(&["a", "b"]));
    assert_eq!(first_of(owned(&["a"]), 2), owned(&["a"]));
    assert_eq!(chained(owned(&["x"]), &list), owned(&["x", "a", "b"]));
    assert_eq!(join(&list, ", "), "a, b");
    assert_eq!(join(&[], ", "), "");
}
