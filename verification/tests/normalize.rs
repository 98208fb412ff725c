use htmlvidiff::style::{normalize_style, tidied_rules, tidy};
use htmlvidiff::text::{is_whitespace, join, sort_words, split_ascii_whitespace, trim};
use htmlvidiff::tokenize::{collect_attributes_normalized, normalize_class, normalize_value};
use itertools::Itertools;

/// The style normal form as the two patterns give it, computed with the
/// regex crate itself.
fn style_by_regex(value: &str) -> String {
    let split = regex::Regex::new(r"\s*;+\s*").unwrap();
    let inner = regex::Regex::new(r"([a-zA-Z0-9_-]+)\s*:\s*(.+)").unwrap();
    split
        .split(value)
        .map(|rule| inner.replace(rule, "$1:$2"))
        .sorted()
        .join(" ")
        .trim()
        .to_owned()
}

fn pieces_by_regex(value: &str) -> Vec<String> {
    let split = regex::Regex::new(r"\s*;+\s*").unwrap();
    let inner = regex::Regex::new(r"([a-zA-Z0-9_-]+)\s*:\s*(.+)").unwrap();
    split
        .split(value)
        .map(|rule| inner.replace(rule, "$1:$2").into_owned())
        .collect()
}

const STYLE_SAMPLES: &[&str] = &[
    "",
    ";",
    ";;",
    " ; ",
    "a",
    "a:b",
    "a : b",
    "font-size: 16px; color: #fff",
    "color:#fff;  font-size: 16px ",
    "  color :  red  ;;; margin:0;",
    "x:\n",
    "x: \n y",
    "x:\n\n",
    "x: \n\n",
    "x:",
    "x: ",
    "  : b",
    "#a: b",
    "a b: c",
    "a\u{00A0}:\u{2003}b\u{3000};c:d",
    "a:b\nc:d",
    "a:b:c",
    "émoji: 😀; z:1",
    "--custom-prop :value ; _x: y",
    "a:\t\tb;\tc\t:\td",
    "background: url(a;b)",
    "\u{0085};x:y",
    ":::",
    "a;b;c",
    "c;b;a",
];

#[test]
fn style_matches_the_patterns() {
    for v in STYLE_SAMPLES {
        assert_eq!(normalize_style(v), style_by_regex(v), "value {:?}", v);
    }
}

#[test]
fn style_rules_match_the_patterns() {
    for v in STYLE_SAMPLES {
        assert_eq!(tidied_rules(v), pieces_by_regex(v), "value {:?}", v);
    }
}

#[test]
fn tidy_writes_name_colon_value() {
    assert_eq!(tidy("font-size :  16px"), "font-size:16px");
    assert_eq!(tidy("no declaration here"), "no declaration here");
    assert_eq!(tidy("pre a: b"), "pre a:b");
}

#[test]
fn style_order_does_not_matter() {
    assert_eq!(
        normalize_style("font-size: 16px; color: #fff"),
        normalize_style("color:#fff;  font-size: 16px ")
    );
    assert_eq!(normalize_style("b:1;a:2"), "a:2 b:1");
}

#[test]
fn class_words_are_sorted_and_joined() {
    assert_eq!(normalize_class("cls1  cls2"), "cls1 cls2");
    assert_eq!(normalize_class(" cls2 cls1 "), "cls1 cls2");
    assert_eq!(normalize_class("b a\tc\nd"), "a b c d");
    assert_eq!(normalize_class(""), "");
    assert_eq!(normalize_class("   "), "");
    assert_eq!(normalize_class("x x"), "x x");
}

#[test]
fn class_order_does_not_matter() {
    assert_eq!(normalize_class("z y x"), normalize_class("x\u{000C}z\ry"));
}

#[test]
fn class_splits_at_ascii_whitespace_only() {
    assert_eq!(normalize_class("b\u{00A0}a"), "b\u{00A0}a");
    assert_eq!(
        normalize_class("b a\u{00A0}c"),
        "b a\u{00A0}c".split_ascii_whitespace().sorted().join(" ")
    );
}

#[test]
fn other_attributes_are_kept() {
    let id = String::from("id");
    let value = String::from(" b  a ");
    assert_eq!(normalize_value(&id, &value), " b  a ");
    let class = String::from("class");
    assert_eq!(normalize_value(&class, &value), "a b");
    let style = String::from("style");
    let decl = String::from("b : 1 ; a:2");
    assert_eq!(normalize_value(&style, &decl), "a:2 b:1");
    // A value runs to the end of its rule, trailing space included.
    let decl = String::from("b : 1 ; a:2 ");
    assert_eq!(normalize_value(&style, &decl), "a:2  b:1");
    // A leading space stays with the first rule and sorts it first.
    let decl = String::from(" b : 1 ; a:2");
    assert_eq!(normalize_value(&style, &decl), "b:1 a:2");
}

#[test]
fn attributes_are_normalized_in_place() {
    let attrs = vec![
        (String::from("class"), String::from("y x")),
        (String::from("href"), String::from("#")),
        (String::from("style"), String::from("b:1; a:2")),
    ];
    assert_eq!(
        collect_attributes_normalized(&attrs),
        vec![
            (String::from("class"), String::from("x y")),
            (String::from("href"), String::from("#")),
            (String::from("style"), String::from("a:2 b:1")),
        ]
    );
}

#[test]
fn sorting_orders_lexicographically() {
    let words = vec![
        String::from("b"),
        String::from("ab"),
        String::from("a"),
        String::from("é"),
        String::from("Z"),
    ];
    assert_eq!(sort_words(words), vec!["Z", "a", "ab", "b", "é"]);
}

#[test]
fn join_puts_the_separator_between() {
    let words = vec![String::from("a"), String::from("b"), String::from("c")];
    assert_eq!(join(&words, ", "), "a, b, c");
    assert_eq!(join(&Vec::new(), ", "), "");
    assert_eq!(join(&vec![String::from("x")], ", "), "x");
}

#[test]
fn trim_removes_unicode_whitespace() {
    assert_eq!(trim("  a b \u{3000}\n"), "a b");
    assert_eq!(trim("\u{00A0}"), "");
    assert_eq!(trim("x"), "x");
}

#[test]
fn ascii_words_drop_empty_pieces() {
    assert_eq!(split_ascii_whitespace("  a  b\t"), vec!["a", "b"]);
    assert!(split_ascii_whitespace(" \r\n").is_empty());
}

#[test]
fn whitespace_set_matches_std() {
    for n in 0u32..=0x10FFFF {
        if let Some(c) = char::from_u32(n) {
            assert_eq!(is_whitespace(c), c.is_whitespace(), "{:?}", c);
        }
    }
}
