use htmlvidiff::classes::class_quote_exec;
use htmlvidiff::highlight::{highlight_changes, highlight_from_diff};
use htmlvidiff::tokenize::{HtmlToken, HtmlTokenKind, SimplifiedDiffTag};

#[test]
fn unchanged_document_gets_no_marks() {
    let html = r#"<p class="a">Hello <b>world</b></p>"#;
    assert_eq!(highlight_changes(html, html), html);
}

#[test]
fn new_element_is_wrapped_whole() {
    assert_eq!(highlight_changes("<p>a</p>", "<p>a</p><p>b</p>"), "<p>a</p><ins><p>b</p></ins>");
}

#[test]
fn new_void_element_is_wrapped() {
    assert_eq!(highlight_changes("a", "a<br>"), "a<ins><br></ins>");
}

#[test]
fn deleted_text_leaves_no_mark() {
    assert_eq!(highlight_changes("a b", "a"), "a");
    assert!(!highlight_changes("a b c", "a c").contains("<ins>"));
}

#[test]
fn consecutive_new_text_shares_one_mark() {
    assert_eq!(highlight_changes("x", "x new words"), "x <ins>new words</ins>");
}

#[test]
fn highlight_from_a_given_diff() {
    let tok = |span: std::ops::Range<usize>, kind: HtmlTokenKind, tag| {
        HtmlToken::new(span, kind).clone_with_diff_tag(tag)
    };
    let diff = vec![
        tok(0..3, HtmlTokenKind::StringSegment("old".to_string()), SimplifiedDiffTag::Equal),
        tok(0..2, HtmlTokenKind::StringSegment("gone".to_string()), SimplifiedDiffTag::Delete),
        tok(3..4, HtmlTokenKind::StringSegment(" ".to_string()), SimplifiedDiffTag::Insert),
        tok(4..7, HtmlTokenKind::StringSegment("new".to_string()), SimplifiedDiffTag::Insert),
        tok(7..9, HtmlTokenKind::StringSegment("é".to_string()), SimplifiedDiffTag::Equal),
    ];
    assert_eq!(highlight_from_diff("old newé", &diff), "old <ins>new</ins>é");
    // A span off the char boundaries of the source gives no text.
    let off = vec![tok(1..2, HtmlTokenKind::StringSegment("é".to_string()), SimplifiedDiffTag::Equal)];
    assert_eq!(highlight_from_diff("é", &off), "");
}

#[test]
fn marks_aside_the_output_is_the_new_document() {
    let old = r##"<h2>some text &with; &lt; <a href="#">a link</a></h2>"##;
    let new = r##"<h3>some</h3><h2>more text &without; &lt; <a href="#">any link</a></h2>"##;
    let out = highlight_changes(old, new);
    assert_eq!(out.replace("<ins>", "").replace("</ins>", ""), new);
    let out = highlight_changes("a b c", "x a <i>y</i> c z");
    assert_eq!(out.replace("<ins>", "").replace("</ins>", ""), "x a <i>y</i> c z");
}

#[test]
fn every_new_word_is_marked() {
    let out = highlight_changes("one two", "one new two");
    assert_eq!(out, "one <ins>new</ins> two");
}

#[test]
fn comments_and_doctype_are_kept() {
    let html = "<!DOCTYPE html><p>a<!--c-->b</p>";
    assert_eq!(highlight_changes(html, html), html);
    assert_eq!(highlight_changes("a<!--c-->b", "a<!--c-->b"), "a<!--c-->b");
    assert_eq!(
        highlight_changes("<!DOCTYPE html><p>x</p>", "<!DOCTYPE html><p>x</p><!-- note --><p>y</p>"),
        "<!DOCTYPE html><p>x</p><!-- note --><ins><p>y</p></ins>"
    );
}

#[test]
fn new_element_around_existing_content() {
    assert_eq!(
        highlight_changes("some more text", "some <p>more</p> text"),
        r#"some <p class="-wrapper"><ins class="-moved-into">more</ins></p> text"#
    );
}

#[test]
fn new_whitespace_alone_is_not_marked() {
    assert_eq!(highlight_changes("a", "a "), "a ");
    assert_eq!(highlight_changes("a b", "a  b"), "a  b");
}

#[test]
fn content_moved_into_an_element() {
    assert_eq!(
        highlight_changes("some <p>text</p>", "<p>some text</p>"),
        r#"<p class="-content-changed"><ins class="-moved-into">some </ins>text</p>"#
    );
}

#[test]
fn content_moved_into_and_out_of_an_element() {
    assert_eq!(
        highlight_changes("some <p>more text</p>", "<p>some more</p> text"),
        r#"<p class="-content-changed"><ins class="-moved-into">some </ins>more</p><ins class="-moved-outof"> text</ins>"#
    );
}

#[test]
fn new_element_around_new_text() {
    assert_eq!(highlight_changes("some text", "some <p>more</p> text"), "some <ins><p>more</p></ins> text");
}

#[test]
fn content_moved_out_of_an_element() {
    assert_eq!(
        highlight_changes("<p>some text</p>", "some <p>text</p>"),
        r#"<ins class="-moved-outof">some </ins><p class="-content-changed">text</p>"#
    );
}

#[test]
fn marks_and_classes_aside_the_output_is_the_new_document() {
    let strip = |s: String| {
        s.replace(r#"<ins class="-moved-into">"#, "")
            .replace(r#"<ins class="-moved-outof">"#, "")
            .replace("<ins>", "")
            .replace("</ins>", "")
            .replace(r#" class="-content-changed""#, "")
            .replace(r#" class="-wrapper""#, "")
    };
    for (old, new) in [
        ("some <p>text</p>", "<p>some text</p>"),
        ("some <p>more text</p>", "<p>some more</p> text"),
        ("<p>some text</p>", "some <p>text</p>"),
        ("<div><p>a b</p></div>", "<div>a <p>b c</p></div>"),
        ("some more text", "some <p>more</p> text"),
    ] {
        assert_eq!(strip(highlight_changes(old, new)), new);
    }
}

#[test]
fn class_goes_into_an_existing_class_list() {
    assert_eq!(
        highlight_changes(r#"some <p class="a">text</p>"#, r#"<p class="a">some text</p>"#),
        r#"<p class="a -content-changed"><ins class="-moved-into">some </ins>text</p>"#
    );
    assert_eq!(
        highlight_changes("some <p id=x CLASS='a b'>text</p>", "<p id=x CLASS='a b'>some text</p>"),
        r#"<p id=x CLASS='a b -content-changed'><ins class="-moved-into">some </ins>text</p>"#
    );
    assert_eq!(
        highlight_changes("some more text", r#"some <p class="">more</p> text"#),
        r#"some <p class=" -wrapper"><ins class="-moved-into">more</ins></p> text"#
    );
}

#[test]
fn class_list_is_found_in_the_tag_source() {
    let tag = r#"<p id="x" data-class="no" class="a b">"#;
    let q = class_quote_exec(tag.as_bytes(), 0, tag.len()).unwrap();
    assert_eq!(&tag[q..q + 1], "\"");
    assert_eq!(&tag[..q], r#"<p id="x" data-class="no" class="a b"#);
    assert_eq!(class_quote_exec(b"<p id=a>", 0, 8), None);
    assert_eq!(class_quote_exec(b"<p class=a>", 0, 11), None);
    assert_eq!(class_quote_exec(b"<p class>", 0, 9), None);
}
