use htmlvidiff::sanitize::sanitize;
use htmlvidiff::tokendiff::{diff_tokens_from_source, merge_diff, token_diff_ops, EditOp, OpTag};
use htmlvidiff::tokenize::{
    tokenize, tokens_from_events, HtmlToken, HtmlTokenKind, SimplifiedDiffTag, SourceEvent,
    SourceEventKind,
};

fn text(s: &str) -> HtmlTokenKind {
    HtmlTokenKind::StringSegment(s.to_string())
}

fn start(name: &str, attrs: &[(&str, &str)]) -> HtmlTokenKind {
    HtmlTokenKind::StartTag {
        name: name.to_string(),
        self_closing: false,
        attrs: attrs.iter().map(|(a, b)| (a.to_string(), b.to_string())).collect(),
    }
}

fn end(name: &str) -> HtmlTokenKind {
    HtmlTokenKind::EndTag(name.to_string())
}

fn parts(tokens: &[HtmlToken]) -> Vec<(HtmlTokenKind, std::ops::Range<usize>)> {
    tokens.iter().map(|t| (t.kind.clone(), t.span.clone())).collect()
}

#[test]
fn tokenize_splits_text_and_tags() {
    assert_eq!(
        parts(&tokenize("some <p>text</p>")),
        vec![
            (text("some"), 0..4),
            (text(" "), 4..5),
            (start("p", &[]), 5..8),
            (text("text"), 8..12),
            (end("p"), 12..16),
        ]
    );
}

#[test]
fn tokenize_groups_whitespace_runs() {
    assert_eq!(
        parts(&tokenize(" a  b\n")),
        vec![
            (text(" "), 0..1),
            (text("a"), 1..2),
            (text("  "), 2..4),
            (text("b"), 4..5),
            (text("\n"), 5..6),
        ]
    );
    assert!(tokenize("").is_empty());
}

#[test]
fn tokenize_keeps_the_source_span_of_references() {
    assert_eq!(
        parts(&tokenize("a &lt; b")),
        vec![
            (text("a"), 0..1),
            (text(" "), 1..2),
            (text("<"), 2..6),
            (text(" "), 6..7),
            (text("b"), 7..8),
        ]
    );
}

#[test]
fn tokenize_leaves_out_comments() {
    let kinds: Vec<HtmlTokenKind> = tokenize("a<!--c-->b").into_iter().map(|t| t.kind).collect();
    assert_eq!(kinds, vec![text("a"), text("b")]);
}

#[test]
fn tokenize_sorts_and_normalizes_attributes() {
    let tokens = tokenize(r#"<div id="x" class="z y" style="b: 2; a : 1"></div>"#);
    assert_eq!(
        tokens[0].kind,
        start("div", &[("class", "y z"), ("id", "x"), ("style", "a:1 b:2")])
    );
}

#[test]
fn tokenize_reads_self_closing_tags() {
    let tokens = tokenize("<br/>");
    assert_eq!(
        tokens[0].kind,
        HtmlTokenKind::StartTag { name: "br".to_string(), self_closing: true, attrs: vec![] }
    );
    assert_eq!(tokens[0].span, 0..5);
}

#[test]
fn tokenize_loses_no_text() {
    for html in ["a &lt; b", "<p>x <b>y</b>\tz</p>", "  lead and trail  ", "é ü\u{3000}x"] {
        let tokens = tokenize(html);
        let joined: String = tokens
            .iter()
            .filter_map(|t| match &t.kind {
                HtmlTokenKind::StringSegment(s) => Some(s.clone()),
                _ => None,
            })
            .collect();
        let plain = html
            .replace("&lt;", "<")
            .replace("<p>", "")
            .replace("</p>", "")
            .replace("<b>", "")
            .replace("</b>", "");
        assert_eq!(joined, plain);
        for t in &tokens {
            if let HtmlTokenKind::StringSegment(s) = &t.kind {
                assert!(!s.is_empty());
                let ws = s.chars().next().unwrap().is_whitespace();
                assert!(s.chars().all(|c| c.is_whitespace() == ws));
            }
        }
    }
}

#[test]
fn events_gather_into_tokens() {
    let events = vec![
        SourceEvent { kind: SourceEventKind::Char('a'), span: 0..1 },
        SourceEvent { kind: SourceEventKind::Char('b'), span: 1..2 },
        SourceEvent { kind: SourceEventKind::Char(' '), span: 2..3 },
        SourceEvent {
            kind: SourceEventKind::StartTag {
                name: "x".to_string(),
                self_closing: false,
                attrs: vec![("class".to_string(), "b a".to_string())],
            },
            span: 3..15,
        },
        SourceEvent { kind: SourceEventKind::Char('c'), span: 15..16 },
        SourceEvent { kind: SourceEventKind::Other, span: 16..16 },
    ];
    assert_eq!(
        parts(&tokens_from_events(&events)),
        vec![
            (text("ab"), 0..2),
            (text(" "), 2..3),
            (start("x", &[("class", "a b")]), 3..15),
            (text("c"), 15..16),
        ]
    );
    // Text that no later event ends is not made a token.
    let open = vec![SourceEvent { kind: SourceEventKind::Char('z'), span: 0..1 }];
    assert!(tokens_from_events(&open).is_empty());
}

#[test]
fn void_start_tags() {
    assert!(start("br", &[]).start_tag_is_void());
    assert!(start("img", &[("src", "a")]).start_tag_is_void());
    assert!(start("wbr", &[]).start_tag_is_void());
    assert!(!start("p", &[]).start_tag_is_void());
    assert!(!start("brr", &[]).start_tag_is_void());
}

#[test]
fn new_token_and_diff_copy() {
    let t = HtmlToken::new(3..7, text("abcd"));
    assert_eq!(t.span, 3..7);
    let d = t.clone_with_diff_tag(SimplifiedDiffTag::Insert);
    assert_eq!(d.span, 3..7);
    assert_eq!(d.kind, text("abcd"));
    assert_eq!(d.diff_tag, SimplifiedDiffTag::Insert);
}

fn tags_and_kinds(old: &str, new: &str) -> Vec<(SimplifiedDiffTag, HtmlTokenKind)> {
    diff_tokens_from_source(old, new).into_iter().map(|d| (d.diff_tag, d.kind)).collect()
}

#[test]
fn diff_marks_replaced_text() {
    assert_eq!(
        tags_and_kinds("a b", "a c"),
        vec![
            (SimplifiedDiffTag::Equal, text("a")),
            (SimplifiedDiffTag::Equal, text(" ")),
            (SimplifiedDiffTag::Delete, text("b")),
            (SimplifiedDiffTag::Insert, text("c")),
        ]
    );
}

#[test]
fn diff_of_equal_documents_is_all_equal() {
    let html = r#"<p class="a">Hello <b>world</b></p>"#;
    let diff = diff_tokens_from_source(html, html);
    assert_eq!(diff.len(), tokenize(html).len());
    assert!(diff.iter().all(|d| d.diff_tag == SimplifiedDiffTag::Equal));
}

#[test]
fn diff_holds_both_documents() {
    let old = r##"<h2>some text &with; &lt; <a href="#">a link</a></h2>"##;
    let new = r##"<h3>some</h3><h2>more text &without; &lt; <a href="#">any link</a></h2>"##;
    let diff = diff_tokens_from_source(old, new);
    let new_side: Vec<(HtmlTokenKind, std::ops::Range<usize>)> = diff
        .iter()
        .filter(|d| d.diff_tag != SimplifiedDiffTag::Delete)
        .map(|d| (d.kind.clone(), d.span.clone()))
        .collect();
    assert_eq!(new_side, parts(&tokenize(new)));
    let old_side: Vec<HtmlTokenKind> = diff
        .iter()
        .filter(|d| d.diff_tag != SimplifiedDiffTag::Insert)
        .map(|d| d.kind.clone())
        .collect();
    let old_kinds: Vec<HtmlTokenKind> = tokenize(old).into_iter().map(|t| t.kind).collect();
    assert_eq!(old_side, old_kinds);
}

#[test]
fn diff_ops_form_an_edit_script() {
    let old = tokenize("<p>a b</p> c");
    let new = tokenize("<p>a x b</p>");
    let ops = token_diff_ops(&old, &new);
    let (mut o, mut n) = (0, 0);
    for op in &ops {
        assert_eq!((op.old.start, op.new.start), (o, n));
        match op.tag {
            OpTag::Equal => {
                let a: Vec<&HtmlTokenKind> = old[op.old.clone()].iter().map(|t| &t.kind).collect();
                let b: Vec<&HtmlTokenKind> = new[op.new.clone()].iter().map(|t| &t.kind).collect();
                assert_eq!(a, b);
            }
            OpTag::Delete => assert!(op.new.is_empty()),
            OpTag::Insert => assert!(op.old.is_empty()),
            OpTag::Replace => {}
        }
        o = op.old.end;
        n = op.new.end;
    }
    assert_eq!((o, n), (old.len(), new.len()));
}

#[test]
fn merge_takes_equal_tokens_from_the_new_side() {
    let old = vec![HtmlToken::new(0..1, text("a")), HtmlToken::new(1..2, text("b"))];
    let new = vec![HtmlToken::new(5..6, text("a")), HtmlToken::new(6..7, text("c"))];
    let ops = vec![
        EditOp { tag: OpTag::Equal, old: 0..1, new: 0..1 },
        EditOp { tag: OpTag::Replace, old: 1..2, new: 1..2 },
    ];
    let merged: Vec<(SimplifiedDiffTag, HtmlTokenKind, std::ops::Range<usize>)> =
        merge_diff(&old, &new, &ops).into_iter().map(|d| (d.diff_tag, d.kind, d.span)).collect();
    assert_eq!(
        merged,
        vec![
            (SimplifiedDiffTag::Equal, text("a"), 5..6),
            (SimplifiedDiffTag::Delete, text("b"), 1..2),
            (SimplifiedDiffTag::Insert, text("c"), 6..7),
        ]
    );
}

#[test]
fn sanitize_builds_a_whole_document() {
    assert_eq!(sanitize("<p>hi"), "<html><head></head><body><p>hi</p></body></html>");
}

#[test]
fn describe_writes_the_debug_form() {
    let text = HtmlToken::new(3..7, HtmlTokenKind::StringSegment("a \"b\"".to_string()));
    assert_eq!(text.describe(), format!("{:?} at 3..7", "a \"b\""));
    let attrs = vec![("class".to_string(), "x y".to_string())];
    let start = HtmlToken::new(
        0..21,
        HtmlTokenKind::StartTag { name: "p".to_string(), self_closing: false, attrs: attrs.clone() },
    );
    assert_eq!(start.describe(), format!("<p> with attrs {:#?} at 0..21", attrs));
    let closed = HtmlToken::new(
        10..15,
        HtmlTokenKind::StartTag { name: "br".to_string(), self_closing: true, attrs: vec![] },
    );
    assert_eq!(closed.describe(), "<br/> with attrs [] at 10..15");
    let end = HtmlToken::new(120..124, HtmlTokenKind::EndTag("p".to_string()));
    assert_eq!(end.describe(), "</p> at 120..124");
}

#[test]
fn tokens_are_equal_by_kind() {
    let a = HtmlToken::new(0..3, HtmlTokenKind::StringSegment("abc".to_string()));
    let b = HtmlToken::new(7..10, HtmlTokenKind::StringSegment("abc".to_string()));
    let c = HtmlToken::new(0..3, HtmlTokenKind::StringSegment("abd".to_string()));
    assert!(a == b);
    assert!(a != c);
    let attrs = vec![("id".to_string(), "x".to_string())];
    let p1 = HtmlToken::new(0..9, HtmlTokenKind::StartTag { name: "p".to_string(), self_closing: false, attrs: attrs.clone() });
    let p2 = HtmlToken::new(20..29, HtmlTokenKind::StartTag { name: "p".to_string(), self_closing: false, attrs });
    let p3 = HtmlToken::new(0..9, HtmlTokenKind::StartTag { name: "p".to_string(), self_closing: false, attrs: vec![] });
    assert!(p1 == p2);
    assert!(p1 != p3);
    assert!(HtmlToken::new(0..4, HtmlTokenKind::EndTag("p".to_string())) != p1);
}

#[test]
fn deleted_tokens_keep_their_old_spans() {
    let old = "keep <b>gone</b> end";
    let new = "keep end";
    let old_tokens = tokenize(old);
    let diff = diff_tokens_from_source(old, new);
    let old_side: Vec<_> = diff.iter().filter(|d| d.diff_tag != SimplifiedDiffTag::Insert).collect();
    assert_eq!(old_side.len(), old_tokens.len());
    let mut deleted = 0;
    for (d, t) in old_side.iter().zip(old_tokens.iter()) {
        assert_eq!(d.kind, t.kind);
        if d.diff_tag == SimplifiedDiffTag::Delete {
            assert_eq!(d.span, t.span);
            deleted += 1;
        }
    }
    assert!(deleted > 0);
}

#[test]
fn describe_writes_several_attributes_as_debug_does() {
    let attrs = vec![
        ("a".to_string(), "say \"hi\"\n".to_string()),
        ("b".to_string(), String::new()),
    ];
    let tag = HtmlToken::new(
        5..40,
        HtmlTokenKind::StartTag { name: "x".to_string(), self_closing: false, attrs: attrs.clone() },
    );
    assert_eq!(tag.describe(), format!("<x> with attrs {:#?} at 5..40", attrs));
}
