//! Splitting an HTML document into the tokens that are diffed.

use vstd::prelude::*;

use html5tokenizer::offset::PosTrackingReader;
use html5tokenizer::trace::Trace;
use html5tokenizer::{NaiveParser, Token, TracingEmitter};

use crate::style::{normalize_style, normalized_style};
use crate::text::{
    ascii_words, is_whitespace, join, join_with, lex_le, push_char, sort_words, sorted_words,
    split_ascii_whitespace, unicode_white_space, views, words_ascending,
};

verus! {

/// What a token is: a run of text, a start tag or an end tag.
#[derive(Debug, Hash, PartialEq, Eq, PartialOrd, Ord, Clone)]
pub enum HtmlTokenKind {
    StringSegment(String),
    StartTag { name: String, self_closing: bool, attrs: Vec<(String, String)> },
    EndTag(String),
}

/// The mathematical value of an [`HtmlTokenKind`].
pub enum KindView {
    StringSegment(Seq<char>),
    StartTag { name: Seq<char>, self_closing: bool, attrs: Seq<(Seq<char>, Seq<char>)> },
    EndTag(Seq<char>),
}

/// The views of a list of attributes.
pub open spec fn attr_views(attrs: Seq<(String, String)>) -> Seq<(Seq<char>, Seq<char>)> {
    attrs.map_values(|a: (String, String)| (a.0@, a.1@))
}

impl View for HtmlTokenKind {
    type V = KindView;

    open spec fn view(&self) -> KindView {
        match self {
            HtmlTokenKind::StringSegment(s) => KindView::StringSegment(s@),
            HtmlTokenKind::StartTag { name, self_closing, attrs } => KindView::StartTag {
                name: name@,
                self_closing: *self_closing,
                attrs: attr_views(attrs@),
            },
            HtmlTokenKind::EndTag(n) => KindView::EndTag(n@),
        }
    }
}

/// A token together with the byte range of the source that it was read from.
pub struct HtmlToken {
    pub span: std::ops::Range<usize>,
    pub kind: HtmlTokenKind,
}

/// The mathematical value of an [`HtmlToken`].
pub struct TokenView {
    pub start: usize,
    pub end: usize,
    pub kind: KindView,
}

impl View for HtmlToken {
    type V = TokenView;

    open spec fn view(&self) -> TokenView {
        TokenView { start: self.span.start, end: self.span.end, kind: self.kind@ }
    }
}

fn strings_equal(a: &String, b: &String) -> (r: bool)
    ensures
        r == (a@ == b@),
{
    *a == *b
}

fn attrs_equal(a: &Vec<(String, String)>, b: &Vec<(String, String)>) -> (r: bool)
    ensures
        r == (attr_views(a@) == attr_views(b@)),
{
    if a.len() != b.len() {
        assert(attr_views(a@).len() != attr_views(b@).len());
        return false;
    }
    let mut k: usize = 0;
    while k < a.len()
        invariant
            k <= a.len() == b.len(),
            forall|j: int| 0 <= j < k ==> attr_views(a@)[j] == attr_views(b@)[j],
        decreases a.len() - k,
    {
        if !strings_equal(&a[k].0, &b[k].0) || !strings_equal(&a[k].1, &b[k].1) {
            assert(attr_views(a@)[k as int] != attr_views(b@)[k as int]);
            return false;
        }
        k = k + 1;
    }
    assert(attr_views(a@) =~= attr_views(b@));
    true
}

/// Whether two token kinds are equal.
pub fn kinds_equal(a: &HtmlTokenKind, b: &HtmlTokenKind) -> (r: bool)
    ensures
        r == (a@ == b@),
{
    match (a, b) {
        (HtmlTokenKind::StringSegment(x), HtmlTokenKind::StringSegment(y)) => strings_equal(x, y),
        (
            HtmlTokenKind::StartTag { name: n1, self_closing: c1, attrs: a1 },
            HtmlTokenKind::StartTag { name: n2, self_closing: c2, attrs: a2 },
        ) => strings_equal(n1, n2) && *c1 == *c2 && attrs_equal(a1, a2),
        (HtmlTokenKind::EndTag(x), HtmlTokenKind::EndTag(y)) => strings_equal(x, y),
        _ => false,
    }
}

/// Tokens are equal when their kinds are; where they were read from does
/// not count.
impl PartialEq for HtmlToken {
    fn eq(&self, other: &Self) -> (r: bool) {
        kinds_equal(&self.kind, &other.kind)
    }
}

impl vstd::std_specs::cmp::PartialEqSpecImpl for HtmlToken {
    open spec fn obeys_eq_spec() -> bool {
        true
    }

    open spec fn eq_spec(&self, other: &Self) -> bool {
        self.kind@ == other.kind@
    }
}

impl Eq for HtmlToken {}

/// The views of a list of tokens.
pub open spec fn token_views(ts: Seq<HtmlToken>) -> Seq<TokenView> {
    ts.map_values(|t: HtmlToken| t@)
}

/// A copy of a list of attributes.
fn copy_attrs(attrs: &Vec<(String, String)>) -> (r: Vec<(String, String)>)
    ensures
        attr_views(r@) == attr_views(attrs@),
{
    let mut r: Vec<(String, String)> = Vec::new();
    let mut i: usize = 0;
    while i < attrs.len()
        invariant
            i <= attrs.len(),
            r.len() == i,
            attr_views(r@) == attr_views(attrs@).take(i as int),
        decreases attrs.len() - i,
    {
        let a = (attrs[i].0.clone(), attrs[i].1.clone());
        let ghost prev = r@;
        assert(a.0@ == attrs@[i as int].0@ && a.1@ == attrs@[i as int].1@);
        r.push(a);
        i = i + 1;
        assert(r@ == prev.push(a));
        assert forall|k: int| 0 <= k < i implies #[trigger] attr_views(r@)[k] == attr_views(
            attrs@,
        )[k] by {
            if k < i - 1 {
                assert(attr_views(prev)[k] == attr_views(attrs@).take(i - 1)[k]);
            }
        }
        assert(attr_views(r@) =~= attr_views(attrs@).take(i as int));
    }
    assert(attr_views(attrs@).take(attrs.len() as int) == attr_views(attrs@));
    r
}

impl HtmlTokenKind {
    /// A copy of this kind.
    pub fn deep_copy(&self) -> (r: Self)
        ensures
            r@ == self@,
    {
        match self {
            HtmlTokenKind::StringSegment(s) => HtmlTokenKind::StringSegment(s.clone()),
            HtmlTokenKind::StartTag { name, self_closing, attrs } => HtmlTokenKind::StartTag {
                name: name.clone(),
                self_closing: *self_closing,
                attrs: copy_attrs(attrs),
            },
            HtmlTokenKind::EndTag(n) => HtmlTokenKind::EndTag(n.clone()),
        }
    }
}


/// The name `class`.
pub open spec fn class_name() -> Seq<char> {
    seq!['c', 'l', 'a', 's', 's']
}

/// The name `style`.
pub open spec fn style_name() -> Seq<char> {
    seq!['s', 't', 'y', 'l', 'e']
}

/// The normal form of a `class` value: its ASCII-whitespace separated words,
/// sorted and joined with single spaces.
pub open spec fn normalized_class(v: Seq<char>) -> Seq<char> {
    join_with(sorted_words(ascii_words(v)), seq![' '])
}

/// The normal form of the value of attribute `name`: `class` and `style`
/// values are normalised, others are kept.
pub open spec fn normalized_value(name: Seq<char>, value: Seq<char>) -> Seq<char> {
    if name == class_name() {
        normalized_class(value)
    } else if name == style_name() {
        normalized_style(value)
    } else {
        value
    }
}

/// Each attribute with its value normalised.
pub open spec fn normalized_attrs(attrs: Seq<(Seq<char>, Seq<char>)>) -> Seq<(Seq<char>, Seq<char>)> {
    attrs.map_values(|a: (Seq<char>, Seq<char>)| (a.0, normalized_value(a.0, a.1)))
}

/// The order of classes does not matter: two `class` values with the same
/// words, counted with repeats, normalise alike.
pub proof fn lemma_class_order_irrelevant(a: Seq<char>, b: Seq<char>)
    requires
        ascii_words(a).to_multiset() == ascii_words(b).to_multiset(),
    ensures
        normalized_class(a) == normalized_class(b),
{
    crate::text::lemma_sorted_words_same_multiset(ascii_words(a), ascii_words(b));
}

/// No class is lost or added: the normal form of a `class` value is its
/// ASCII-whitespace words, each as often as it occurs, in ascending order,
/// joined with single spaces.
pub proof fn lemma_class_words_kept(v: Seq<char>)
    ensures
        exists|l: Seq<Seq<char>>|
            #![trigger join_with(l, seq![' '])]
            l.to_multiset() == ascii_words(v).to_multiset() && words_ascending(l) && normalized_class(v)
                == join_with(l, seq![' ']),
{
    crate::text::lemma_sorted_words_permutation(ascii_words(v));
    let l = sorted_words(ascii_words(v));
    assert(normalized_class(v) == join_with(l, seq![' ']));
}

/// Normalises a `class` value.
pub fn normalize_class(v: &str) -> (r: String)
    ensures
        r@ == normalized_class(v@),
        exists|l: Seq<Seq<char>>|
            #![trigger join_with(l, seq![' '])]
            l.to_multiset() == ascii_words(v@).to_multiset() && words_ascending(l) && r@ == join_with(
                l,
                seq![' '],
            ),
{
    proof {
        lemma_class_words_kept(v@);
    }
    let words = split_ascii_whitespace(v);
    let sorted = sort_words(words);
    proof {
        reveal_strlit(" ");
        assert(" "@ =~= seq![' ']);
    }
    join(&sorted, " ")
}

/// Normalises the value of attribute `name`.
pub fn normalize_value(name: &String, value: &String) -> (r: String)
    ensures
        r@ == normalized_value(name@, value@),
{
    let class = String::from_str("class");
    let style = String::from_str("style");
    proof {
        reveal_strlit("class");
        reveal_strlit("style");
        assert(class@ =~= class_name());
        assert(style@ =~= style_name());
    }
    if *name == class {
        normalize_class(value.as_str())
    } else if *name == style {
        normalize_style(value.as_str())
    } else {
        value.clone()
    }
}

/// The attributes with the values of `class` and `style` normalised, so
/// that their order of classes and of style rules does not matter.
pub fn collect_attributes_normalized(attrs: &Vec<(String, String)>) -> (r: Vec<(String, String)>)
    ensures
        attr_views(r@) == normalized_attrs(attr_views(attrs@)),
{
    let mut r: Vec<(String, String)> = Vec::new();
    let mut i: usize = 0;
    while i < attrs.len()
        invariant
            i <= attrs.len(),
            r.len() == i,
            attr_views(r@) == normalized_attrs(attr_views(attrs@)).take(i as int),
        decreases attrs.len() - i,
    {
        let a = (attrs[i].0.clone(), normalize_value(&attrs[i].0, &attrs[i].1));
        let ghost prev = r@;
        assert(a.0@ == attrs@[i as int].0@);
        r.push(a);
        i = i + 1;
        assert(r@ == prev.push(a));
        assert forall|k: int| 0 <= k < i implies #[trigger] attr_views(r@)[k] == normalized_attrs(
            attr_views(attrs@),
        )[k] by {
            if k < i - 1 {
                assert(attr_views(prev)[k] == normalized_attrs(attr_views(attrs@)).take(i - 1)[k]);
            }
        }
        assert(attr_views(r@) =~= normalized_attrs(attr_views(attrs@)).take(i as int));
    }
    assert(normalized_attrs(attr_views(attrs@)).take(attrs.len() as int) == normalized_attrs(
        attr_views(attrs@),
    ));
    r
}

/// `html5tokenizer::Token`, carried through unread.
#[verifier::external_type_specification]
#[verifier::external_body]
pub struct ExToken(Token);

/// `html5tokenizer::trace::Trace`, carried through unread.
#[verifier::external_type_specification]
#[verifier::external_body]
pub struct ExTrace(Trace);

/// What the tokenizer reported, with the outside types replaced by plain ones.
pub enum SourceEventKind {
    Char(char),
    StartTag { name: String, self_closing: bool, attrs: Vec<(String, String)> },
    EndTag(String),
    /// A comment, a doctype or the end of the input.
    Other,
}

/// One report of the tokenizer and the byte range of the source it covers.
pub struct SourceEvent {
    pub kind: SourceEventKind,
    pub span: std::ops::Range<usize>,
}

/// The mathematical value of a [`SourceEventKind`].
pub enum EventKindView {
    Char(char),
    StartTag { name: Seq<char>, self_closing: bool, attrs: Seq<(Seq<char>, Seq<char>)> },
    EndTag(Seq<char>),
    Other,
}

/// The mathematical value of a [`SourceEvent`].
pub struct EventView {
    pub kind: EventKindView,
    pub start: usize,
    pub end: usize,
}

impl View for SourceEvent {
    type V = EventView;

    open spec fn view(&self) -> EventView {
        EventView {
            kind: match &self.kind {
                SourceEventKind::Char(c) => EventKindView::Char(*c),
                SourceEventKind::StartTag { name, self_closing, attrs } => EventKindView::StartTag {
                    name: name@,
                    self_closing: *self_closing,
                    attrs: attr_views(attrs@),
                },
                SourceEventKind::EndTag(n) => EventKindView::EndTag(n@),
                SourceEventKind::Other => EventKindView::Other,
            },
            start: self.span.start,
            end: self.span.end,
        }
    }
}

/// The views of a list of events.
pub open spec fn event_views(es: Seq<SourceEvent>) -> Seq<EventView> {
    es.map_values(|e: SourceEvent| e@)
}

/// Whether the names of `attrs` strictly ascend.
pub open spec fn names_ascending(attrs: Seq<(Seq<char>, Seq<char>)>) -> bool {
    forall|a: int, b: int|
        0 <= a < b < attrs.len() ==> lex_le(#[trigger] attrs[a].0, #[trigger] attrs[b].0)
            && attrs[a].0 != attrs[b].0
}

/// Whether every start tag among `es` has its attribute names in ascending order.
pub open spec fn start_tags_ascending(es: Seq<EventView>) -> bool {
    forall|i: int|
        0 <= i < es.len() ==> match #[trigger] es[i].kind {
            EventKindView::StartTag { attrs, .. } => names_ascending(attrs),
            _ => true,
        }
}

/// The events that `html5tokenizer`'s `NaiveParser` with a `TracingEmitter`
/// reports for a document.
pub uninterp spec fn tokenizer_events(html: Seq<char>) -> Seq<EventView>;

/// The span of an `html5tokenizer::trace::Trace`, read from its variant's
/// field (`span`, or `data_span` for a comment), from `DoctypeTrace::span`
/// for a doctype, and the empty range at the offset for the end of input.
/// Nothing is stated of the result: the trace is opaque here.
#[verifier::external_body]
fn trace_span(trace: Trace) -> std::ops::Range<usize> {
    match trace {
        Trace::Char(span) => span,
        Trace::StartTag(t) => t.span,
        Trace::EndTag(t) => t.span,
        Trace::Comment(t) => t.data_span,
        Trace::Doctype(t) => t.span(),
        Trace::EndOfFile(offset) => offset..offset,
    }
}

/// An `html5tokenizer::Token` as a plain value, fields moved over; a start
/// tag's attributes are taken from `AttributeMap::into_iter` in the map's
/// own order. Nothing is stated of the result here: the token is opaque;
/// what holds of the events is stated where they are all made.
#[verifier::external_body]
fn event_kind(token: Token) -> SourceEventKind {
    match token {
        Token::Char(c) => SourceEventKind::Char(c),
        Token::StartTag(t) => SourceEventKind::StartTag {
            name: t.name,
            self_closing: t.self_closing,
            attrs: t.attributes.into_iter().map(|a| (a.name, a.value)).collect(),
        },
        Token::EndTag(t) => SourceEventKind::EndTag(t.name),
        _ => SourceEventKind::Other,
    }
}

/// One tokenizer report as a plain event.
fn convert_event(token: Token, trace: Trace) -> SourceEvent {
    SourceEvent { kind: event_kind(token), span: trace_span(trace) }
}

/// Runs `html5tokenizer::NaiveParser` with a `TracingEmitter` over `html`.
/// The events are named `tokenizer_events`. Two facts are stated of them:
/// attribute names come out ascending and without repeats, since the
/// tokenizer keeps a tag's attributes in a `BTreeMap` keyed by name; and the
/// last event is the end of the input, since the tokenizer emits it last and
/// then stops. What events a document gives is not stated, nor that the
/// spans are ordered byte ranges on char boundaries: the source shows that
/// they need not be: a `<` that starts no tag is given the one-byte span
/// that ends where the char after it ends, and that char, read again, its
/// own span, which starts earlier; in `<é` the first span starts inside
/// `é` and the second goes back before it.
#[verifier::external_body]
fn source_events(html: &str) -> (r: Vec<SourceEvent>)
    ensures
        event_views(r@) == tokenizer_events(html@),
        start_tags_ascending(event_views(r@)),
        r@.len() > 0 && r@.last().kind is Other,
{
    let parser = NaiveParser::new_with_emitter(PosTrackingReader::new(html), TracingEmitter::default());
    parser.flatten().map(|(token, trace)| convert_event(token, trace)).collect()
}

/// The state of the tokenizer between two events: the tokens made so far,
/// the text being collected (if any), whether that text is whitespace, and
/// where it started.
pub struct TokenizerState {
    pub tokens: Seq<TokenView>,
    pub buf: Option<Seq<char>>,
    pub last_ws: bool,
    pub str_start: usize,
}

/// The state before the first event.
pub open spec fn initial_state() -> TokenizerState {
    TokenizerState { tokens: Seq::empty(), buf: None, last_ws: false, str_start: 0 }
}

/// The collected text, if any, made a text token that ends at `end`.
pub open spec fn flush(st: TokenizerState, end: usize) -> TokenizerState {
    match st.buf {
        Some(b) => TokenizerState {
            tokens: st.tokens.push(
                TokenView { start: st.str_start, end: end, kind: KindView::StringSegment(b) },
            ),
            buf: None,
            last_ws: st.last_ws,
            str_start: st.str_start,
        },
        None => st,
    }
}

/// The state after one more event. A char is added to the collected text;
/// where it changes between whitespace and non-whitespace, the text so far
/// becomes a token first. Any other event ends the collected text; a start
/// or end tag then becomes a token of its own, with the start tag's
/// attribute values normalised.
pub open spec fn step(st: TokenizerState, ev: EventView) -> TokenizerState {
    match ev.kind {
        EventKindView::Char(c) => {
            let ws = unicode_white_space(c);
            let st1 = if ws != st.last_ws {
                flush(st, ev.start)
            } else {
                st
            };
            let st2 = if st1.buf is None {
                TokenizerState {
                    tokens: st1.tokens,
                    buf: Some(Seq::empty()),
                    last_ws: ws,
                    str_start: ev.start,
                }
            } else {
                st1
            };
            TokenizerState {
                tokens: st2.tokens,
                buf: Some(st2.buf.unwrap().push(c)),
                last_ws: st2.last_ws,
                str_start: st2.str_start,
            }
        },
        EventKindView::StartTag { name, self_closing, attrs } => {
            let st1 = flush(st, ev.start);
            TokenizerState {
                tokens: st1.tokens.push(
                    TokenView {
                        start: ev.start,
                        end: ev.end,
                        kind: KindView::StartTag {
                            name: name,
                            self_closing: self_closing,
                            attrs: normalized_attrs(attrs),
                        },
                    },
                ),
                buf: st1.buf,
                last_ws: st1.last_ws,
                str_start: st1.str_start,
            }
        },
        EventKindView::EndTag(name) => {
            let st1 = flush(st, ev.start);
            TokenizerState {
                tokens: st1.tokens.push(
                    TokenView { start: ev.start, end: ev.end, kind: KindView::EndTag(name) },
                ),
                buf: st1.buf,
                last_ws: st1.last_ws,
                str_start: st1.str_start,
            }
        },
        EventKindView::Other => flush(st, ev.start),
    }
}

/// The state after all of `events`.
pub open spec fn run(events: Seq<EventView>) -> TokenizerState
    decreases events.len(),
{
    if events.len() == 0 {
        initial_state()
    } else {
        step(run(events.drop_last()), events.last())
    }
}

/// The tokens that a list of events gives.
pub open spec fn tokens_of_events(events: Seq<EventView>) -> Seq<TokenView> {
    run(events).tokens
}

/// Whether every char of `s` is whitespace (`ws`) or every char is not.
pub open spec fn uniform(s: Seq<char>, ws: bool) -> bool {
    forall|k: int| 0 <= k < s.len() ==> unicode_white_space(#[trigger] s[k]) == ws
}

/// Whether every text token is non-empty and all whitespace or all
/// non-whitespace.
pub open spec fn text_runs_uniform(ts: Seq<TokenView>) -> bool {
    forall|i: int|
        0 <= i < ts.len() ==> match #[trigger] ts[i].kind {
            KindView::StringSegment(b) => b.len() > 0 && uniform(b, unicode_white_space(b[0])),
            _ => true,
        }
}

/// Whether every start tag token has its attribute names in ascending order.
pub open spec fn tag_attrs_ascending(ts: Seq<TokenView>) -> bool {
    forall|i: int|
        0 <= i < ts.len() ==> match #[trigger] ts[i].kind {
            KindView::StartTag { attrs, .. } => names_ascending(attrs),
            _ => true,
        }
}

/// The text of the text tokens, in order.
pub open spec fn segment_text(ts: Seq<TokenView>) -> Seq<char>
    decreases ts.len(),
{
    if ts.len() == 0 {
        Seq::empty()
    } else {
        segment_text(ts.drop_last()) + match ts.last().kind {
            KindView::StringSegment(b) => b,
            _ => Seq::empty(),
        }
    }
}

/// The chars of the char events, in order.
pub open spec fn event_chars(es: Seq<EventView>) -> Seq<char>
    decreases es.len(),
{
    if es.len() == 0 {
        Seq::empty()
    } else {
        event_chars(es.drop_last()) + match es.last().kind {
            EventKindView::Char(c) => seq![c],
            _ => Seq::empty(),
        }
    }
}

/// The text still collected after all of `events`, which no event has
/// ended.
pub open spec fn pending_text(events: Seq<EventView>) -> Seq<char> {
    match run(events).buf {
        Some(b) => b,
        None => Seq::empty(),
    }
}

proof fn lemma_flush_keeps(st: TokenizerState, end: usize)
    requires
        text_runs_uniform(st.tokens),
        st.buf matches Some(b) ==> b.len() > 0 && uniform(b, st.last_ws),
    ensures
        text_runs_uniform(flush(st, end).tokens),
        tag_attrs_ascending(st.tokens) ==> tag_attrs_ascending(flush(st, end).tokens),
        flush(st, end).buf is None,
        flush(st, end).last_ws == st.last_ws,
        segment_text(flush(st, end).tokens) == segment_text(st.tokens) + match st.buf {
            Some(b) => b,
            None => Seq::<char>::empty(),
        },
{
    match st.buf {
        Some(b) => {
            let ts = flush(st, end).tokens;
            assert(ts.drop_last() == st.tokens);
            assert(unicode_white_space(b[0]) == st.last_ws);
            assert forall|i: int| 0 <= i < ts.len() implies match #[trigger] ts[i].kind {
                KindView::StringSegment(b) => b.len() > 0 && uniform(b, unicode_white_space(b[0])),
                _ => true,
            } by {
                if i < ts.len() - 1 {
                    assert(ts[i] == st.tokens[i]);
                }
            }
            if tag_attrs_ascending(st.tokens) {
                assert forall|i: int| 0 <= i < ts.len() implies match #[trigger] ts[i].kind {
                    KindView::StartTag { attrs, .. } => names_ascending(attrs),
                    _ => true,
                } by {
                    if i < ts.len() - 1 {
                        assert(ts[i] == st.tokens[i]);
                    }
                }
            }
        },
        None => {
            assert(segment_text(st.tokens) + Seq::<char>::empty() =~= segment_text(st.tokens));
        },
    }
}

proof fn lemma_normalized_names(attrs: Seq<(Seq<char>, Seq<char>)>)
    requires
        names_ascending(attrs),
    ensures
        names_ascending(normalized_attrs(attrs)),
{
    let n = normalized_attrs(attrs);
    assert forall|a: int, b: int| 0 <= a < b < n.len() implies lex_le(#[trigger] n[a].0, #[trigger] n[b].0)
        && n[a].0 != n[b].0 by {
        assert(n[a].0 == attrs[a].0);
        assert(n[b].0 == attrs[b].0);
    }
}

proof fn lemma_push_tag_keeps(ts: Seq<TokenView>, t: TokenView)
    requires
        text_runs_uniform(ts),
        !(t.kind is StringSegment),
    ensures
        text_runs_uniform(ts.push(t)),
        tag_attrs_ascending(ts) && (t.kind matches KindView::StartTag { attrs, .. }
            ==> names_ascending(attrs)) ==> tag_attrs_ascending(ts.push(t)),
        segment_text(ts.push(t)) == segment_text(ts),
{
    let ts2 = ts.push(t);
    assert(ts2.drop_last() == ts);
    assert forall|i: int| 0 <= i < ts2.len() implies match #[trigger] ts2[i].kind {
        KindView::StringSegment(b) => b.len() > 0 && uniform(b, unicode_white_space(b[0])),
        _ => true,
    } by {
        if i < ts.len() {
            assert(ts2[i] == ts[i]);
        }
    }
    if tag_attrs_ascending(ts) && (t.kind matches KindView::StartTag { attrs, .. }
        ==> names_ascending(attrs)) {
        assert forall|i: int| 0 <= i < ts2.len() implies match #[trigger] ts2[i].kind {
            KindView::StartTag { attrs, .. } => names_ascending(attrs),
            _ => true,
        } by {
            if i < ts.len() {
                assert(ts2[i] == ts[i]);
            }
        }
    }
    assert(segment_text(ts) + Seq::<char>::empty() =~= segment_text(ts));
}

/// What every state of the tokenizer satisfies: each text token is a
/// non-empty run of whitespace or of non-whitespace, and so is the text
/// still being collected; no char is lost, added or moved, for the text
/// tokens followed by the collected text are the chars of the char events;
/// and where the events' attribute names ascend, so do the tokens'.
pub proof fn lemma_run_invariants(events: Seq<EventView>)
    ensures
        text_runs_uniform(run(events).tokens),
        start_tags_ascending(events) ==> tag_attrs_ascending(run(events).tokens),
        run(events).buf matches Some(b) ==> b.len() > 0 && uniform(b, run(events).last_ws),
        segment_text(run(events).tokens) + pending_text(events) == event_chars(events),
    decreases events.len(),
{
    if events.len() == 0 {
        assert(segment_text(Seq::<TokenView>::empty()) + Seq::<char>::empty() =~= Seq::<char>::empty());
    } else {
        let prev = events.drop_last();
        if start_tags_ascending(events) {
            assert forall|i: int| 0 <= i < prev.len() implies match #[trigger] prev[i].kind {
                EventKindView::StartTag { attrs, .. } => names_ascending(attrs),
                _ => true,
            } by {
                assert(prev[i] == events[i]);
            }
        }
        lemma_run_invariants(prev);
        let st = run(prev);
        let ev = events.last();
        assert(events[events.len() - 1] == ev);
        let pend = pending_text(prev);
        match ev.kind {
            EventKindView::Char(c) => {
                let ws = unicode_white_space(c);
                let st1 = if ws != st.last_ws {
                    flush(st, ev.start)
                } else {
                    st
                };
                lemma_flush_keeps(st, ev.start);
                let st2 = if st1.buf is None {
                    TokenizerState {
                        tokens: st1.tokens,
                        buf: Some(Seq::empty()),
                        last_ws: ws,
                        str_start: ev.start,
                    }
                } else {
                    st1
                };
                let b2 = st2.buf.unwrap();
                assert(uniform(b2, st2.last_ws));
                assert(st2.last_ws == ws);
                assert(uniform(b2.push(c), ws));
                assert(segment_text(st2.tokens) + b2 == segment_text(st.tokens) + pend);
                assert(segment_text(st2.tokens) + b2.push(c) =~= segment_text(st2.tokens) + b2 + seq![c]);
                assert(event_chars(events) == event_chars(prev) + seq![c]);
            },
            EventKindView::StartTag { name, self_closing, attrs } => {
                lemma_flush_keeps(st, ev.start);
                if names_ascending(attrs) {
                    lemma_normalized_names(attrs);
                }
                let st1 = flush(st, ev.start);
                let t = TokenView {
                    start: ev.start,
                    end: ev.end,
                    kind: KindView::StartTag {
                        name: name,
                        self_closing: self_closing,
                        attrs: normalized_attrs(attrs),
                    },
                };
                lemma_push_tag_keeps(st1.tokens, t);
                assert(event_chars(events) =~= event_chars(prev));
                assert(segment_text(st1.tokens) + Seq::<char>::empty() =~= segment_text(st1.tokens));
            },
            EventKindView::EndTag(name) => {
                lemma_flush_keeps(st, ev.start);
                let st1 = flush(st, ev.start);
                let t = TokenView { start: ev.start, end: ev.end, kind: KindView::EndTag(name) };
                lemma_push_tag_keeps(st1.tokens, t);
                assert(event_chars(events) =~= event_chars(prev));
                assert(segment_text(st1.tokens) + Seq::<char>::empty() =~= segment_text(st1.tokens));
            },
            EventKindView::Other => {
                lemma_flush_keeps(st, ev.start);
                assert(event_chars(events) =~= event_chars(prev));
                let st1 = flush(st, ev.start);
                assert(segment_text(st1.tokens) + Seq::<char>::empty() =~= segment_text(st1.tokens));
            },
        }
    }
}

/// The view of the collected text.
pub open spec fn buf_view(b: Option<String>) -> Option<Seq<char>> {
    match b {
        Some(s) => Some(s@),
        None => None,
    }
}

fn flush_text(
    tokens: &mut Vec<HtmlToken>,
    strbuf: &mut Option<String>,
    last_ws: bool,
    str_start: usize,
    end: usize,
)
    ensures
        ({
            let st = TokenizerState {
                tokens: token_views(old(tokens)@),
                buf: buf_view(*old(strbuf)),
                last_ws: last_ws,
                str_start: str_start,
            };
            &&& token_views(final(tokens)@) == flush(st, end).tokens
            &&& buf_view(*final(strbuf)) == flush(st, end).buf
        }),
{
    let ghost prev = tokens@;
    if let Some(b) = strbuf.take() {
        let t = HtmlToken { span: str_start..end, kind: HtmlTokenKind::StringSegment(b) };
        tokens.push(t);
        assert(token_views(tokens@) =~= token_views(prev).push(t@));
    }
}

/// Gathers tokenizer events into tokens (see [`step`]).
pub fn tokens_from_events(events: &Vec<SourceEvent>) -> (r: Vec<HtmlToken>)
    ensures
        token_views(r@) == tokens_of_events(event_views(events@)),
{
    let mut tokens: Vec<HtmlToken> = Vec::new();
    let mut strbuf: Option<String> = None;
    let mut last_ws = false;
    let mut str_start: usize = 0;
    let mut i: usize = 0;
    assert(token_views(tokens@) =~= Seq::<TokenView>::empty());
    assert(event_views(events@).take(0) =~= Seq::<EventView>::empty());
    while i < events.len()
        invariant
            i <= events.len(),
            run(event_views(events@).take(i as int)) == (TokenizerState {
                tokens: token_views(tokens@),
                buf: buf_view(strbuf),
                last_ws: last_ws,
                str_start: str_start,
            }),
        decreases events.len() - i,
    {
        let ghost evs = event_views(events@);
        assert(evs.take(i + 1).drop_last() == evs.take(i as int));
        assert(evs.take(i + 1).last() == events@[i as int]@);
        let ev = &events[i];
        let start = ev.span.start;
        match &ev.kind {
            SourceEventKind::Char(c) => {
                let ws = is_whitespace(*c);
                if ws != last_ws {
                    flush_text(&mut tokens, &mut strbuf, last_ws, str_start, start);
                }
                if strbuf.is_none() {
                    strbuf = Some(String::new());
                    last_ws = ws;
                    str_start = start;
                }
                let mut b = strbuf.unwrap();
                push_char(&mut b, *c);
                strbuf = Some(b);
            },
            SourceEventKind::StartTag { name, self_closing, attrs } => {
                flush_text(&mut tokens, &mut strbuf, last_ws, str_start, start);
                let ghost prev = tokens@;
                let t = HtmlToken {
                    span: start..ev.span.end,
                    kind: HtmlTokenKind::StartTag {
                        name: name.clone(),
                        self_closing: *self_closing,
                        attrs: collect_attributes_normalized(attrs),
                    },
                };
                tokens.push(t);
                assert(token_views(tokens@) =~= token_views(prev).push(t@));
            },
            SourceEventKind::EndTag(name) => {
                flush_text(&mut tokens, &mut strbuf, last_ws, str_start, start);
                let ghost prev = tokens@;
                let t = HtmlToken { span: start..ev.span.end, kind: HtmlTokenKind::EndTag(name.clone()) };
                tokens.push(t);
                assert(token_views(tokens@) =~= token_views(prev).push(t@));
            },
            SourceEventKind::Other => {
                flush_text(&mut tokens, &mut strbuf, last_ws, str_start, start);
            },
        }
        i = i + 1;
    }
    assert(event_views(events@).take(events.len() as int) == event_views(events@));
    tokens
}

/// Splits `html` into tokens: runs of whitespace, runs of other text, start
/// tags (with normalised `class` and `style` values) and end tags; comments
/// and doctypes are left out. Each token keeps the byte range of `html` it
/// was read from. Every text token is a non-empty run of whitespace or of
/// non-whitespace, the text tokens together hold exactly the document's text
/// chars in order, and every start tag's attribute names ascend.
pub fn tokenize(html: &str) -> (r: Vec<HtmlToken>)
    ensures
        token_views(r@) == tokens_of_events(tokenizer_events(html@)),
        text_runs_uniform(token_views(r@)),
        tag_attrs_ascending(token_views(r@)),
        segment_text(token_views(r@)) == event_chars(tokenizer_events(html@)),
{
    let events = source_events(html);
    proof {
        let evs = event_views(events@);
        lemma_run_invariants(evs);
        assert(evs.last() == events@.last()@);
        assert(pending_text(evs) == Seq::<char>::empty());
        assert(segment_text(run(evs).tokens) + Seq::<char>::empty() =~= segment_text(run(evs).tokens));
    }
    tokens_from_events(&events)
}


/// Whether `name` is that of a void element, which has no end tag.
pub open spec fn is_void_element(name: Seq<char>) -> bool {
    name == "area"@ || name == "base"@ || name == "br"@ || name == "col"@ || name == "embed"@
        || name == "hr"@ || name == "img"@ || name == "input"@ || name == "link"@ || name
        == "meta"@ || name == "param"@ || name == "source"@ || name == "track"@ || name == "wbr"@
}

/// The fourteen void elements of HTML, which have no end tag: area, base,
/// br, col, embed, hr, img, input, link, meta, param, source, track, wbr.
pub open spec fn void_element_names() -> Seq<Seq<char>> {
    seq![
        seq!['a', 'r', 'e', 'a'],
        seq!['b', 'a', 's', 'e'],
        seq!['b', 'r'],
        seq!['c', 'o', 'l'],
        seq!['e', 'm', 'b', 'e', 'd'],
        seq!['h', 'r'],
        seq!['i', 'm', 'g'],
        seq!['i', 'n', 'p', 'u', 't'],
        seq!['l', 'i', 'n', 'k'],
        seq!['m', 'e', 't', 'a'],
        seq!['p', 'a', 'r', 'a', 'm'],
        seq!['s', 'o', 'u', 'r', 'c', 'e'],
        seq!['t', 'r', 'a', 'c', 'k'],
        seq!['w', 'b', 'r'],
    ]
}

/// A name is that of a void element exactly when it is one of the
/// fourteen names of the list.
pub proof fn lemma_void_elements(name: Seq<char>)
    ensures
        is_void_element(name) <==> void_element_names().contains(name),
{
    reveal_strlit("area");
    reveal_strlit("base");
    reveal_strlit("br");
    reveal_strlit("col");
    reveal_strlit("embed");
    reveal_strlit("hr");
    reveal_strlit("img");
    reveal_strlit("input");
    reveal_strlit("link");
    reveal_strlit("meta");
    reveal_strlit("param");
    reveal_strlit("source");
    reveal_strlit("track");
    reveal_strlit("wbr");
    assert("area"@ =~= seq!['a', 'r', 'e', 'a']);
    assert("base"@ =~= seq!['b', 'a', 's', 'e']);
    assert("br"@ =~= seq!['b', 'r']);
    assert("col"@ =~= seq!['c', 'o', 'l']);
    assert("embed"@ =~= seq!['e', 'm', 'b', 'e', 'd']);
    assert("hr"@ =~= seq!['h', 'r']);
    assert("img"@ =~= seq!['i', 'm', 'g']);
    assert("input"@ =~= seq!['i', 'n', 'p', 'u', 't']);
    assert("link"@ =~= seq!['l', 'i', 'n', 'k']);
    assert("meta"@ =~= seq!['m', 'e', 't', 'a']);
    assert("param"@ =~= seq!['p', 'a', 'r', 'a', 'm']);
    assert("source"@ =~= seq!['s', 'o', 'u', 'r', 'c', 'e']);
    assert("track"@ =~= seq!['t', 'r', 'a', 'c', 'k']);
    assert("wbr"@ =~= seq!['w', 'b', 'r']);
    let l = void_element_names();
    if is_void_element(name) {
        if name == seq!['a', 'r', 'e', 'a'] { assert(l[0] == name); }
        if name == seq!['b', 'a', 's', 'e'] { assert(l[1] == name); }
        if name == seq!['b', 'r'] { assert(l[2] == name); }
        if name == seq!['c', 'o', 'l'] { assert(l[3] == name); }
        if name == seq!['e', 'm', 'b', 'e', 'd'] { assert(l[4] == name); }
        if name == seq!['h', 'r'] { assert(l[5] == name); }
        if name == seq!['i', 'm', 'g'] { assert(l[6] == name); }
        if name == seq!['i', 'n', 'p', 'u', 't'] { assert(l[7] == name); }
        if name == seq!['l', 'i', 'n', 'k'] { assert(l[8] == name); }
        if name == seq!['m', 'e', 't', 'a'] { assert(l[9] == name); }
        if name == seq!['p', 'a', 'r', 'a', 'm'] { assert(l[10] == name); }
        if name == seq!['s', 'o', 'u', 'r', 'c', 'e'] { assert(l[11] == name); }
        if name == seq!['t', 'r', 'a', 'c', 'k'] { assert(l[12] == name); }
        if name == seq!['w', 'b', 'r'] { assert(l[13] == name); }
    }
    if l.contains(name) {
        let i = choose|i: int| 0 <= i < l.len() && l[i] == name;
        assert(i == 0 ==> name == seq!['a', 'r', 'e', 'a']);
        assert(i == 1 ==> name == seq!['b', 'a', 's', 'e']);
        assert(i == 2 ==> name == seq!['b', 'r']);
        assert(i == 3 ==> name == seq!['c', 'o', 'l']);
        assert(i == 4 ==> name == seq!['e', 'm', 'b', 'e', 'd']);
        assert(i == 5 ==> name == seq!['h', 'r']);
        assert(i == 6 ==> name == seq!['i', 'm', 'g']);
        assert(i == 7 ==> name == seq!['i', 'n', 'p', 'u', 't']);
        assert(i == 8 ==> name == seq!['l', 'i', 'n', 'k']);
        assert(i == 9 ==> name == seq!['m', 'e', 't', 'a']);
        assert(i == 10 ==> name == seq!['p', 'a', 'r', 'a', 'm']);
        assert(i == 11 ==> name == seq!['s', 'o', 'u', 'r', 'c', 'e']);
        assert(i == 12 ==> name == seq!['t', 'r', 'a', 'c', 'k']);
        assert(i == 13 ==> name == seq!['w', 'b', 'r']);
    }
}

fn is_one_of(name: &String, words: &Vec<&str>) -> (r: bool)
    ensures
        r == exists|i: int| 0 <= i < words.len() && name@ == words@[i]@,
{
    let mut i: usize = 0;
    while i < words.len()
        invariant
            i <= words.len(),
            forall|k: int| 0 <= k < i ==> name@ != #[trigger] words@[k]@,
        decreases words.len() - i,
    {
        if *name == String::from_str(words[i]) {
            return true;
        }
        i = i + 1;
    }
    false
}

impl HtmlTokenKind {
    /// Whether this start tag is that of a void element (see
    /// <https://developer.mozilla.org/en-US/docs/Glossary/Void_element>).
    /// Meant for start tags only.
    pub fn start_tag_is_void(&self) -> (r: bool)
        requires
            self is StartTag,
        ensures
            r == is_void_element(self->name@),
            r == void_element_names().contains(self->name@),
    {
        let HtmlTokenKind::StartTag { name, .. } = self else {
            return false;
        };
        let words = vec![
            "area", "base", "br", "col", "embed", "hr", "img", "input", "link", "meta", "param",
            "source", "track", "wbr",
        ];
        let r = is_one_of(name, &words);
        proof {
            if is_void_element(name@) {
                if name@ == "area"@ { assert(name@ == words@[0]@); }
                if name@ == "base"@ { assert(name@ == words@[1]@); }
                if name@ == "br"@ { assert(name@ == words@[2]@); }
                if name@ == "col"@ { assert(name@ == words@[3]@); }
                if name@ == "embed"@ { assert(name@ == words@[4]@); }
                if name@ == "hr"@ { assert(name@ == words@[5]@); }
                if name@ == "img"@ { assert(name@ == words@[6]@); }
                if name@ == "input"@ { assert(name@ == words@[7]@); }
                if name@ == "link"@ { assert(name@ == words@[8]@); }
                if name@ == "meta"@ { assert(name@ == words@[9]@); }
                if name@ == "param"@ { assert(name@ == words@[10]@); }
                if name@ == "source"@ { assert(name@ == words@[11]@); }
                if name@ == "track"@ { assert(name@ == words@[12]@); }
                if name@ == "wbr"@ { assert(name@ == words@[13]@); }
            }
            lemma_void_elements(name@);
        }
        r
    }
}

/// How a token fared in the diff. (Unlike a diff op there is no
/// replacement: that is a deletion followed by an insertion.)
#[derive(Clone, Copy, PartialEq, Eq, Structural, Debug)]
pub enum SimplifiedDiffTag {
    Equal,
    Delete,
    Insert,
}

/// A token of the merged diff of two documents.
pub struct HtmlTokenWithDiff {
    pub span: std::ops::Range<usize>,
    pub kind: HtmlTokenKind,
    pub diff_tag: SimplifiedDiffTag,
}

/// The mathematical value of an [`HtmlTokenWithDiff`].
pub struct DiffTokenView {
    pub token: TokenView,
    pub tag: SimplifiedDiffTag,
}

impl View for HtmlTokenWithDiff {
    type V = DiffTokenView;

    open spec fn view(&self) -> DiffTokenView {
        DiffTokenView {
            token: TokenView { start: self.span.start, end: self.span.end, kind: self.kind@ },
            tag: self.diff_tag,
        }
    }
}

/// What `{:?}` writes for a string: the string quoted, with quotes,
/// backslashes and control chars escaped.
pub uninterp spec fn debug_text(s: Seq<char>) -> Seq<char>;

/// Formats a string with `{:?}` (`<str as Debug>::fmt`); the result is
/// named `debug_text` of the string.
#[verifier::external_body]
fn debug_string(s: &String) -> (r: String)
    ensures
        r@ == debug_text(s@),
{
    format!("{:?}", s)
}

/// What `{:#?}` writes for one name-value pair inside a list: the pair on
/// lines of its own, indented.
pub open spec fn pretty_pair(p: (Seq<char>, Seq<char>)) -> Seq<char> {
    "    (\n        "@ + debug_text(p.0) + ",\n        "@ + debug_text(p.1) + ",\n    ),\n"@
}

/// The pretty forms of the pairs, one after the other.
pub open spec fn pretty_pairs(ps: Seq<(Seq<char>, Seq<char>)>) -> Seq<char>
    decreases ps.len(),
{
    if ps.len() == 0 {
        Seq::empty()
    } else {
        pretty_pairs(ps.drop_last()) + pretty_pair(ps.last())
    }
}

/// What `{:#?}` writes for a list of name-value pairs: `[]` when empty,
/// else `[`, a line for each part of each pair, and `]`.
pub open spec fn pretty_attrs(attrs: Seq<(Seq<char>, Seq<char>)>) -> Seq<char> {
    if attrs.len() == 0 {
        "[]"@
    } else {
        "[\n"@ + pretty_pairs(attrs) + "]"@
    }
}

/// Writes attribute pairs as `{:#?}` does (see [`pretty_attrs`]).
fn debug_attrs(attrs: &Vec<(String, String)>) -> (r: String)
    ensures
        r@ == pretty_attrs(attr_views(attrs@)),
{
    let ghost av = attr_views(attrs@);
    if attrs.len() == 0 {
        let mut r = String::new();
        r.append("[]");
        proof {
            reveal_strlit("[]");
            assert(Seq::<char>::empty() + "[]"@ =~= "[]"@);
        }
        return r;
    }
    let mut r = String::new();
    r.append("[\n");
    let mut k: usize = 0;
    proof {
        assert(av.take(0) =~= Seq::<(Seq<char>, Seq<char>)>::empty());
        assert(Seq::<char>::empty() + "[\n"@ =~= "[\n"@ + pretty_pairs(av.take(0)));
    }
    while k < attrs.len()
        invariant
            k <= attrs.len(),
            av == attr_views(attrs@),
            r@ == "[\n"@ + pretty_pairs(av.take(k as int)),
        decreases attrs.len() - k,
    {
        let a = debug_string(&attrs[k].0);
        let b = debug_string(&attrs[k].1);
        let ghost before = r@;
        r.append("    (\n        ");
        r.append(a.as_str());
        r.append(",\n        ");
        r.append(b.as_str());
        r.append(",\n    ),\n");
        proof {
            assert(av[k as int] == (attrs@[k as int].0@, attrs@[k as int].1@));
            assert(av.take(k + 1).drop_last() =~= av.take(k as int));
            assert(av.take(k + 1).last() == av[k as int]);
            assert(r@ =~= before + pretty_pair(av[k as int]));
        }
        k = k + 1;
    }
    assert(av.take(attrs.len() as int) =~= av);
    r.append("]");
    r
}

/// The decimal digit of `d` (below ten).
pub open spec fn digit_char(d: nat) -> char {
    ((48 + d) as u8) as char
}

/// The decimal form of `n`, without leading zeros.
pub open spec fn decimal(n: nat) -> Seq<char>
    decreases n,
{
    if n < 10 {
        seq![digit_char(n)]
    } else {
        decimal(n / 10).push(digit_char(n % 10))
    }
}

/// Writes `n` in decimal.
pub fn decimal_string(n: usize) -> (r: String)
    ensures
        r@ == decimal(n as nat),
    decreases n,
{
    let d: u8 = (n % 10) as u8;
    let c: char = (48u8 + d) as char;
    if n < 10 {
        let mut r = String::new();
        push_char(&mut r, c);
        r
    } else {
        let mut r = decimal_string(n / 10);
        push_char(&mut r, c);
        r
    }
}

/// The debug form of a token: a text run as `{:?}` writes it, a start tag
/// as `<name>` (`<name/>` when self-closing) followed by ` with attrs ` and
/// its attributes as `{:#?}` writes them, an end tag as `</name>`; then
/// ` at ` and the byte range as `start..end`.
pub open spec fn token_debug(t: TokenView) -> Seq<char> {
    let head = match t.kind {
        KindView::StringSegment(s) => debug_text(s),
        KindView::StartTag { name, self_closing, attrs } => "<"@ + name + (if self_closing {
            "/"@
        } else {
            Seq::empty()
        }) + "> with attrs "@ + pretty_attrs(attrs),
        KindView::EndTag(name) => "</"@ + name + ">"@,
    };
    head + " at "@ + decimal(t.start as nat) + ".."@ + decimal(t.end as nat)
}

impl HtmlToken {
    /// The debug form of this token (see [`token_debug`]).
    pub fn describe(&self) -> (r: String)
        ensures
            r@ == token_debug(self@),
    {
        let mut out = match &self.kind {
            HtmlTokenKind::StringSegment(s) => debug_string(s),
            HtmlTokenKind::StartTag { name, self_closing, attrs } => {
                let mut h = String::new();
                h.append("<");
                h.append(name.as_str());
                if *self_closing {
                    h.append("/");
                }
                h.append("> with attrs ");
                let a = debug_attrs(attrs);
                h.append(a.as_str());
                h
            },
            HtmlTokenKind::EndTag(name) => {
                let mut h = String::new();
                h.append("</");
                h.append(name.as_str());
                h.append(">");
                h
            },
        };
        out.append(" at ");
        let a = decimal_string(self.span.start);
        out.append(a.as_str());
        out.append("..");
        let b = decimal_string(self.span.end);
        out.append(b.as_str());
        proof {
            let e: Seq<char> = Seq::empty();
            assert(e + "<"@ =~= "<"@);
            assert(e + "</"@ =~= "</"@);
        }
        out
    }
}

impl HtmlToken {
    /// A token of `kind` read from `span`.
    pub fn new(span: std::ops::Range<usize>, kind: HtmlTokenKind) -> (r: Self)
        ensures
            r.span == span,
            r.kind == kind,
    {
        Self { span, kind }
    }

    /// A copy of this token marked with `diff_tag`.
    pub fn clone_with_diff_tag(&self, diff_tag: SimplifiedDiffTag) -> (r: HtmlTokenWithDiff)
        ensures
            r@ == (DiffTokenView { token: self@, tag: diff_tag }),
    {
        HtmlTokenWithDiff {
            diff_tag,
            span: self.span.start..self.span.end,
            kind: self.kind.deep_copy(),
        }
    }
}

} // verus!
