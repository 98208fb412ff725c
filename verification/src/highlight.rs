//! Marking what is new in the new document.

use vstd::prelude::*;

use crate::tokendiff::{diff_tokens_from_source, diff_views, html_tokens, merged_diff, new_side};
use crate::classes::{class_quote, class_quote_exec};
use crate::text::{chars_of, is_whitespace, unicode_white_space};
use crate::tokenize::{
    is_void_element, DiffTokenView, HtmlTokenKind, HtmlTokenWithDiff, KindView, SimplifiedDiffTag,
    TokenView,
};

verus! {

/// The tokens of the merged stream that are not deleted, in order.
pub open spec fn kept(ds: Seq<DiffTokenView>) -> Seq<DiffTokenView>
    decreases ds.len(),
{
    if ds.len() == 0 {
        Seq::empty()
    } else if ds.last().tag == SimplifiedDiffTag::Delete {
        kept(ds.drop_last())
    } else {
        kept(ds.drop_last()).push(ds.last())
    }
}

/// The index of the end tag that closes a start tag named `name`, searching
/// from `j` with `depth` same-named elements still open inside it.
pub open spec fn matching_end_from(ks: Seq<DiffTokenView>, name: Seq<char>, j: int, depth: nat) -> Option<
    int,
>
    decreases ks.len() - j,
{
    if j < 0 || j >= ks.len() {
        None
    } else {
        match ks[j].token.kind {
            KindView::StartTag { name: n, self_closing, .. } => if n == name && !self_closing {
                matching_end_from(ks, name, j + 1, depth + 1)
            } else {
                matching_end_from(ks, name, j + 1, depth)
            },
            KindView::EndTag(n) => if n == name {
                if depth == 0 {
                    Some(j)
                } else {
                    matching_end_from(ks, name, j + 1, (depth - 1) as nat)
                }
            } else {
                matching_end_from(ks, name, j + 1, depth)
            },
            KindView::StringSegment(_) => matching_end_from(ks, name, j + 1, depth),
        }
    }
}

/// The number of non-self-closing start tags named `name` among the
/// tokens from `a` up to `b`.
pub open spec fn same_opens(ks: Seq<DiffTokenView>, name: Seq<char>, a: int, b: int) -> int
    decreases b - a,
{
    if a < 0 || a >= b || a >= ks.len() {
        0
    } else {
        (if ks[a].token.kind matches KindView::StartTag { name: n, self_closing, .. } && n == name
            && !self_closing {
            1int
        } else {
            0int
        }) + same_opens(ks, name, a + 1, b)
    }
}

/// The number of end tags named `name` among the tokens from `a` up to `b`.
pub open spec fn same_closes(ks: Seq<DiffTokenView>, name: Seq<char>, a: int, b: int) -> int
    decreases b - a,
{
    if a < 0 || a >= b || a >= ks.len() {
        0
    } else {
        (if ks[a].token.kind == KindView::EndTag(name) {
            1int
        } else {
            0int
        }) + same_closes(ks, name, a + 1, b)
    }
}

/// Whether token `m` is an end tag named `name` that closes an element
/// opened `depth` levels out from token `j`: between `j` and `m`, the end
/// tags of that name outnumber its start tags by `depth`.
pub open spec fn closes_from(ks: Seq<DiffTokenView>, name: Seq<char>, j: int, m: int, depth: int) -> bool {
    &&& j <= m < ks.len()
    &&& ks[m].token.kind == KindView::EndTag(name)
    &&& same_opens(ks, name, j, m) + depth == same_closes(ks, name, j, m)
}

proof fn lemma_matching_end_depth(ks: Seq<DiffTokenView>, name: Seq<char>, j: int, depth: nat)
    requires
        0 <= j,
    ensures
        match matching_end_from(ks, name, j, depth) {
            Some(m) => closes_from(ks, name, j, m, depth as int) && forall|x: int|
                j <= x < m ==> !#[trigger] closes_from(ks, name, j, x, depth as int),
            None => forall|x: int| !#[trigger] closes_from(ks, name, j, x, depth as int),
        },
    decreases ks.len() - j,
{
    if j < ks.len() {
        let nd: nat = match ks[j].token.kind {
            KindView::StartTag { name: n, self_closing, .. } => if n == name && !self_closing {
                depth + 1
            } else {
                depth
            },
            KindView::EndTag(n) => if n == name && depth > 0 {
                (depth - 1) as nat
            } else {
                depth
            },
            _ => depth,
        };
        assert(same_opens(ks, name, j, j) == 0 && same_closes(ks, name, j, j) == 0);
        if ks[j].token.kind == KindView::EndTag(name) && depth == 0 {
            assert(matching_end_from(ks, name, j, depth) == Some(j));
            assert(closes_from(ks, name, j, j, 0));
        } else {
            lemma_matching_end_depth(ks, name, j + 1, nd);
            assert(matching_end_from(ks, name, j, depth) == matching_end_from(ks, name, j + 1, nd));
            assert(!closes_from(ks, name, j, j, depth as int));
            assert forall|x: int| j < x implies (#[trigger] closes_from(ks, name, j, x, depth as int))
                == closes_from(ks, name, j + 1, x, nd as int) by {
                if x < ks.len() {
                    assert(same_opens(ks, name, j, x) == (if ks[j].token.kind matches KindView::StartTag {
                        name: n,
                        self_closing,
                        ..
                    } && n == name && !self_closing {
                        1int
                    } else {
                        0int
                    }) + same_opens(ks, name, j + 1, x));
                    assert(same_closes(ks, name, j, x) == (if ks[j].token.kind == KindView::EndTag(name) {
                        1int
                    } else {
                        0int
                    }) + same_closes(ks, name, j + 1, x));
                }
            }
        }
    }
}

/// The end tag found for a start tag is the one that closes its element:
/// searching from token `j`, `matching_end_from` gives the first end tag
/// named `name` before which the start and end tags of that name
/// (self-closing ones aside) are balanced, so that nested elements of the
/// same name are passed over; and none when there is no such end tag.
pub proof fn lemma_matching_end_balanced(ks: Seq<DiffTokenView>, name: Seq<char>, j: int)
    requires
        0 <= j,
    ensures
        match matching_end_from(ks, name, j, 0) {
            Some(m) => j <= m < ks.len() && ks[m].token.kind == KindView::EndTag(name) && same_opens(
                ks,
                name,
                j,
                m,
            ) == same_closes(ks, name, j, m) && forall|x: int|
                j <= x < m && ks[x].token.kind == KindView::EndTag(name) ==> #[trigger] same_opens(
                    ks,
                    name,
                    j,
                    x,
                ) != same_closes(ks, name, j, x),
            None => forall|x: int|
                j <= x < ks.len() && ks[x].token.kind == KindView::EndTag(name) ==> #[trigger] same_opens(
                    ks,
                    name,
                    j,
                    x,
                ) != same_closes(ks, name, j, x),
        },
{
    lemma_matching_end_depth(ks, name, j, 0);
    match matching_end_from(ks, name, j, 0) {
        Some(m) => {
            assert forall|x: int|
                j <= x < m && ks[x].token.kind == KindView::EndTag(name) implies #[trigger] same_opens(
                ks,
                name,
                j,
                x,
            ) != same_closes(ks, name, j, x) by {
                assert(!closes_from(ks, name, j, x, 0));
            }
        },
        None => {
            assert forall|x: int|
                j <= x < ks.len() && ks[x].token.kind == KindView::EndTag(name) implies #[trigger] same_opens(
                ks,
                name,
                j,
                x,
            ) != same_closes(ks, name, j, x) by {
                assert(!closes_from(ks, name, j, x, 0));
            }
        },
    }
}

/// Where the unit of output that starts at token `i` ends, and whether it
/// is new. An inserted run of text is new. An inserted start tag is new
/// together with its whole element when the element has no end tag (void
/// or self-closing) or when its end tag is inserted too; otherwise the tag
/// stands alone and is not marked, as does every other token. (Where the
/// element's content changed or the element wraps existing content, the
/// output treats the start tag apart; see [`render_from`].)
pub open spec fn unit_at(ks: Seq<DiffTokenView>, i: int) -> (int, bool) {
    let d = ks[i];
    if d.tag == SimplifiedDiffTag::Insert {
        match d.token.kind {
            KindView::StringSegment(_) => (i + 1, true),
            KindView::StartTag { name, self_closing, .. } => if self_closing || is_void_element(
                name,
            ) {
                (i + 1, true)
            } else {
                match matching_end_from(ks, name, i + 1, 0) {
                    Some(m) => if ks[m].tag == SimplifiedDiffTag::Insert {
                        (m + 1, true)
                    } else {
                        (i + 1, false)
                    },
                    None => (i + 1, false),
                }
            },
            KindView::EndTag(_) => (i + 1, false),
        }
    } else {
        (i + 1, false)
    }
}

/// Whether token `k` lies inside an element whose start tag and end tag
/// are both inserted.
pub open spec fn in_new_element(ks: Seq<DiffTokenView>, k: int) -> bool {
    exists|i: int, m: int|
        #![trigger ks[i], ks[m]]
        0 <= i < k < m < ks.len() && ks[i].tag == SimplifiedDiffTag::Insert && ks[m].tag
            == SimplifiedDiffTag::Insert && (ks[i].token.kind matches KindView::StartTag {
            name,
            ..
        } && matching_end_from(ks, name, i + 1, 0) == Some(m))
}

/// Whether `s` is a non-empty run of whitespace.
pub open spec fn is_blank(s: Seq<char>) -> bool {
    s.len() > 0 && forall|k: int| 0 <= k < s.len() ==> unicode_white_space(#[trigger] s[k])
}

/// Whether token `i` is inserted whitespace, which is marked only between
/// two marked units.
pub open spec fn neutral(ks: Seq<DiffTokenView>, i: int) -> bool {
    &&& ks[i].tag == SimplifiedDiffTag::Insert
    &&& ks[i].token.kind matches KindView::StringSegment(s) && is_blank(s)
}

/// The deleted tokens of the merged stream `ds`, gathered between the kept
/// ones: gap `k` holds the kinds of the deleted tokens just before kept
/// token `k`, and the last gap those after the last kept token.
pub open spec fn gaps(ds: Seq<DiffTokenView>) -> Seq<Seq<KindView>>
    decreases ds.len(),
{
    if ds.len() == 0 {
        seq![Seq::empty()]
    } else {
        let g = gaps(ds.drop_last());
        if ds.last().tag == SimplifiedDiffTag::Delete {
            g.update(g.len() - 1, g.last().push(ds.last().token.kind))
        } else {
            g.push(Seq::empty())
        }
    }
}

/// Whether `k` is a start tag named `name`.
pub open spec fn opens_named(k: KindView, name: Seq<char>) -> bool {
    k matches KindView::StartTag { name: n, .. } && n == name
}

/// Whether the gap `g` holds a start tag named `name` (an end tag when
/// `end`).
pub open spec fn gap_holds(g: Seq<KindView>, name: Seq<char>, end: bool) -> bool {
    exists|x: int|
        #![trigger g[x]]
        0 <= x < g.len() && (if end {
            g[x] == KindView::EndTag(name)
        } else {
            opens_named(g[x], name)
        })
}

/// The first gap from `j` up to `b` that holds a deleted start tag named
/// `name` (an end tag when `end`).
pub open spec fn first_gap(gs: Seq<Seq<KindView>>, name: Seq<char>, end: bool, j: int, b: int) -> Option<int>
    decreases b - j,
{
    if j < 0 || j >= b || j >= gs.len() {
        None
    } else if gap_holds(gs[j], name, end) {
        Some(j)
    } else {
        first_gap(gs, name, end, j + 1, b)
    }
}

/// Whether the element of the inserted start tag at `s` has a changed
/// content, its element ending at a kept end tag `e`. Either a deleted
/// start tag of the same name stands between them, first in gap `d`, and
/// the kept tokens from `s + 1` up to `d` were moved into the element; or
/// the end tag is not new and such a deleted start tag stands before `s`
/// with only equal tokens between, which were moved out of the element
/// (then `d` is `s + 1`). Gives `(d, e)`.
pub open spec fn changed_at(ks: Seq<DiffTokenView>, gs: Seq<Seq<KindView>>, s: int) -> Option<(int, int)> {
    if 0 <= s < ks.len() && ks[s].tag == SimplifiedDiffTag::Insert {
        match ks[s].token.kind {
            KindView::StartTag { name, self_closing, .. } => if self_closing || is_void_element(name) {
                None
            } else {
                match matching_end_from(ks, name, s + 1, 0) {
                    Some(e) => match first_gap(gs, name, false, s + 1, e + 1) {
                        Some(d) => Some((d, e)),
                        None => if ks[e].tag != SimplifiedDiffTag::Insert && opened_in_run(
                            ks,
                            gs,
                            name,
                            s - 1,
                        ) {
                            Some((s + 1, e))
                        } else {
                            None
                        },
                    },
                    None => None,
                }
            },
            _ => None,
        }
    } else {
        None
    }
}

/// Whether, going back from kept token `j` over equal tokens only, a gap
/// holds a deleted start tag named `name`: the equal content from there on
/// stood inside such an element in the old document.
pub open spec fn opened_in_run(ks: Seq<DiffTokenView>, gs: Seq<Seq<KindView>>, name: Seq<char>, j: int) -> bool
    decreases j + 1,
{
    if j < 0 || j >= ks.len() || j >= gs.len() {
        false
    } else if ks[j].tag != SimplifiedDiffTag::Equal {
        false
    } else if gap_holds(gs[j], name, false) {
        true
    } else {
        opened_in_run(ks, gs, name, j - 1)
    }
}

/// Whether every token from `a` up to `b` is inserted.
pub open spec fn all_inserted(ks: Seq<DiffTokenView>, a: int, b: int) -> bool {
    forall|k: int| a <= k < b ==> (#[trigger] ks[k]).tag == SimplifiedDiffTag::Insert
}

/// Whether the inserted start tag at `s` wraps existing content: no deleted
/// token stands just before it (it replaces no tag), its element ends at an
/// inserted end tag `e`, not all between is inserted, and its content did
/// not change in the sense of [`changed_at`]. Gives `e`.
pub open spec fn wrapped_at(ks: Seq<DiffTokenView>, gs: Seq<Seq<KindView>>, s: int) -> Option<int> {
    if 0 <= s < ks.len() && s < gs.len() && ks[s].tag == SimplifiedDiffTag::Insert && gs[s].len() == 0
        && changed_at(ks, gs, s) is None {
        match ks[s].token.kind {
            KindView::StartTag { name, self_closing, .. } => if self_closing || is_void_element(name) {
                None
            } else {
                match matching_end_from(ks, name, s + 1, 0) {
                    Some(e) => if ks[e].tag == SimplifiedDiffTag::Insert && !all_inserted(ks, s + 1, e) {
                        Some(e)
                    } else {
                        None
                    },
                    None => None,
                }
            },
            _ => None,
        }
    } else {
        None
    }
}

/// The first kept token from `j` on that is not an equal one (the number
/// of tokens when there is none).
pub open spec fn next_unequal(ks: Seq<DiffTokenView>, j: int) -> int
    decreases ks.len() - j,
{
    if j < 0 || j >= ks.len() {
        ks.len() as int
    } else if ks[j].tag != SimplifiedDiffTag::Equal {
        j
    } else {
        next_unequal(ks, j + 1)
    }
}

/// Where content moved out of an element ends, when it starts at token
/// `j`: after the inserted end tag of an element whose content changed (see
/// [`outof_at`]), or at a gap holding a deleted start tag whose name the
/// next new start tag has, with only equal tokens between, when that start
/// tag's element changed.
pub open spec fn outof_here(ks: Seq<DiffTokenView>, gs: Seq<Seq<KindView>>, j: int) -> Option<int> {
    if outof_at(ks, gs, j) matches Some(d) && d > j {
        outof_at(ks, gs, j)
    } else {
        let s = next_unequal(ks, j);
        if 0 <= j < s < ks.len() && j < gs.len() && ks[s].tag == SimplifiedDiffTag::Insert && (
        ks[s].token.kind matches KindView::StartTag { name, .. } && gap_holds(gs[j], name, false))
            && changed_at(ks, gs, s) is Some {
            Some(s)
        } else {
            None
        }
    }
}

/// The last start tag at or before `s` whose content changed and whose
/// element ends at `e`.
pub open spec fn opener_of(ks: Seq<DiffTokenView>, gs: Seq<Seq<KindView>>, e: int, s: int) -> Option<int>
    decreases s + 1,
{
    if s < 0 {
        None
    } else if changed_at(ks, gs, s) matches Some((_, e2)) && e2 == e {
        Some(s)
    } else {
        opener_of(ks, gs, e, s - 1)
    }
}

/// Where the content moved out of a changed element ends, when it starts at
/// `j`: the token before `j` is the inserted end tag of an element whose
/// content changed, and a deleted end tag of the same name stands after it,
/// first in gap `d`; the kept tokens from `j` up to `d` were moved out.
pub open spec fn outof_at(ks: Seq<DiffTokenView>, gs: Seq<Seq<KindView>>, j: int) -> Option<int> {
    if 1 <= j <= ks.len() && ks[j - 1].tag == SimplifiedDiffTag::Insert {
        match ks[j - 1].token.kind {
            KindView::EndTag(name) => match opener_of(ks, gs, j - 1, j - 2) {
                Some(_) => first_gap(gs, name, true, j, ks.len() + 1int),
                None => None,
            },
            _ => None,
        }
    } else {
        None
    }
}

/// Whether the next unit from token `j` on that is not inserted whitespace
/// is marked.
pub open spec fn upcoming_marked(ks: Seq<DiffTokenView>, gs: Seq<Seq<KindView>>, j: int) -> bool
    decreases ks.len() - j,
{
    if j < 0 || j >= ks.len() {
        false
    } else if neutral(ks, j) {
        upcoming_marked(ks, gs, j + 1)
    } else {
        changed_at(ks, gs, j) is None && wrapped_at(ks, gs, j) is None && unit_at(ks, j).1
    }
}

/// Whether the unit at token `i` is marked, `open` telling whether the unit
/// before it was: inserted whitespace is marked when it stands between
/// marked units, any other unit when it is new.
pub open spec fn unit_mark(ks: Seq<DiffTokenView>, gs: Seq<Seq<KindView>>, i: int, open: bool) -> bool {
    if neutral(ks, i) {
        open && upcoming_marked(ks, gs, i + 1)
    } else {
        unit_at(ks, i).1
    }
}

/// The tokens of a merged stream, their diff tags aside.
pub open spec fn toks(ks: Seq<DiffTokenView>) -> Seq<TokenView> {
    ks.map_values(|d: DiffTokenView| d.token)
}

/// The text of `src` from byte offset `a` up to `b` of its UTF-8 encoding,
/// or nothing when the two are not char boundaries in order.
pub open spec fn source_slice(src: Seq<char>, a: int, b: int) -> Seq<char> {
    let bytes = vstd::utf8::encode_utf8(src);
    if 0 <= a <= b <= bytes.len() && vstd::utf8::is_char_boundary(bytes, a)
        && vstd::utf8::is_char_boundary(bytes, b) {
        vstd::utf8::decode_utf8(bytes.subrange(a, b))
    } else {
        Seq::empty()
    }
}

/// Where the piece of source that token `k` stands for ends: where the
/// next token starts, or at the end of the source.
pub open spec fn piece_end(ts: Seq<TokenView>, src: Seq<char>, k: int) -> int {
    if k + 1 < ts.len() {
        ts[k + 1].start as int
    } else {
        vstd::utf8::encode_utf8(src).len() as int
    }
}

/// The piece of source that token `k` stands for: from its start up to the
/// next token, so that what no token covers (a comment, a doctype) stays
/// with the token before it.
pub open spec fn piece(ts: Seq<TokenView>, src: Seq<char>, k: int) -> Seq<char> {
    source_slice(src, ts[k].start as int, piece_end(ts, src, k))
}

/// The source before the first token (all of it when there is none).
pub open spec fn lead(ts: Seq<TokenView>, src: Seq<char>) -> Seq<char> {
    source_slice(
        src,
        0,
        if ts.len() > 0 {
            ts[0].start as int
        } else {
            vstd::utf8::encode_utf8(src).len() as int
        },
    )
}

/// The class written into a start tag whose content changed, or, when
/// `wrapper`, into a new start tag that wraps existing content: added to
/// the tag's class list when `into_list`, else as a class attribute of its
/// own.
pub open spec fn class_text(wrapper: bool, into_list: bool) -> Seq<char> {
    if into_list {
        if wrapper {
            " -wrapper"@
        } else {
            " -content-changed"@
        }
    } else if wrapper {
        " class=\"-wrapper\""@
    } else {
        " class=\"-content-changed\""@
    }
}

/// Whether start tag `k` has a quoted class list in its source (see
/// [`class_quote`]).
pub open spec fn has_class_list(ts: Seq<TokenView>, src: Seq<char>, k: int) -> bool {
    class_quote(vstd::utf8::encode_utf8(src), ts[k].start as int, ts[k].end as int) is Some
}

/// Where in the source the class of start tag `k` is written: before the
/// closing quote of its class list when it has one, else before the `>`
/// that ends the tag.
pub open spec fn class_point(ts: Seq<TokenView>, src: Seq<char>, k: int) -> int {
    match class_quote(vstd::utf8::encode_utf8(src), ts[k].start as int, ts[k].end as int) {
        Some(q) => q,
        None => ts[k].end - 1,
    }
}

/// Whether the piece of token `k` can be cut where its class is written:
/// the piece's ends and the cut are char boundaries, in order, within the
/// source.
pub open spec fn class_split(ts: Seq<TokenView>, src: Seq<char>, k: int) -> bool {
    let bytes = vstd::utf8::encode_utf8(src);
    let p = class_point(ts, src, k);
    let e = piece_end(ts, src, k);
    &&& 0 <= ts[k].start <= p <= e <= bytes.len()
    &&& vstd::utf8::is_char_boundary(bytes, ts[k].start as int)
    &&& vstd::utf8::is_char_boundary(bytes, p)
    &&& vstd::utf8::is_char_boundary(bytes, e)
}

/// The piece of start tag `k` with its class (see [`class_text`]) written
/// where [`class_point`] says, when the piece can be cut there.
pub open spec fn classed_piece(ts: Seq<TokenView>, src: Seq<char>, k: int, wrapper: bool) -> Seq<char> {
    if class_split(ts, src, k) {
        let p = class_point(ts, src, k);
        source_slice(src, ts[k].start as int, p) + class_text(wrapper, has_class_list(ts, src, k)) + source_slice(
            src,
            p,
            piece_end(ts, src, k),
        )
    } else {
        piece(ts, src, k)
    }
}

/// The pieces of the tokens from `a` up to `b`.
pub open spec fn texts(ts: Seq<TokenView>, src: Seq<char>, a: int, b: int) -> Seq<char>
    decreases b - a,
{
    if b <= a {
        Seq::empty()
    } else {
        texts(ts, src, a, b - 1) + piece(ts, src, b - 1)
    }
}

/// The source as the token list `ts` covers it: what stands before the
/// first token, then the piece of each token.
pub open spec fn source_text(ts: Seq<TokenView>, src: Seq<char>) -> Seq<char> {
    lead(ts, src) + texts(ts, src, 0, ts.len() as int)
}

/// What opens or closes an `<ins>` between two units: an `<ins>` when the
/// unit is marked and the one before was not, an `</ins>` in the other case
/// of a change.
pub open spec fn switch(marked: bool, open: bool) -> Seq<char> {
    if marked && !open {
        "<ins>"@
    } else if !marked && open {
        "</ins>"@
    } else {
        Seq::empty()
    }
}

/// The output from token `i` on. `open` tells whether the unit before was
/// marked; `until`, where the content moved into or out of a changed
/// element ends, if such content is being written.
///
/// A marked unit opens an `<ins>` unless one is open, an unmarked one
/// closes it, so that consecutive marked units share one `<ins>`. A start
/// tag whose content changed (see [`changed_at`]) gets the class
/// `-content-changed`, and the content moved into its element is wrapped in
/// `<ins class="-moved-into">`; the content moved out of it, after its
/// inserted end tag or before it, is wrapped in `<ins class="-moved-outof">`
/// (see [`outof_here`]). A new element around existing content (see
/// [`wrapped_at`]) gets the class `-wrapper` and its content is wrapped in
/// `<ins class="-moved-into">`.
pub open spec fn render_from(
    ks: Seq<DiffTokenView>,
    gs: Seq<Seq<KindView>>,
    src: Seq<char>,
    i: int,
    open: bool,
    until: Option<int>,
) -> Seq<char>
    decreases ks.len() - i, if until is Some { 1int } else { 0int },
{
    let close = if open {
        "</ins>"@
    } else {
        Seq::empty()
    };
    if until matches Some(u) && (i >= u || i >= ks.len()) {
        close + "</ins>"@ + render_from(ks, gs, src, i, false, None)
    } else if i < 0 || i >= ks.len() {
        close
    } else {
        let (classed, wrapper, d) = match changed_at(ks, gs, i) {
            Some((d, _)) => (true, false, d),
            None => match wrapped_at(ks, gs, i) {
                Some(e) => (true, true, e),
                None => (false, false, 0),
            },
        };
        if classed {
            let head = close + classed_piece(toks(ks), src, i, wrapper);
            if until is None && d > i + 1 {
                head + "<ins class=\"-moved-into\">"@ + render_from(ks, gs, src, i + 1, false, Some(d))
            } else {
                head + render_from(ks, gs, src, i + 1, false, until)
            }
        } else {
            {
                let starts_outof = until is None && outof_here(ks, gs, i) is Some;
                let opening = if starts_outof {
                    close + "<ins class=\"-moved-outof\">"@
                } else {
                    Seq::empty()
                };
                let open1 = if starts_outof {
                    false
                } else {
                    open
                };
                let until1 = if starts_outof {
                    outof_here(ks, gs, i)
                } else {
                    until
                };
                let e = unit_at(ks, i).0;
                let marked = unit_mark(ks, gs, i, open1);
                if i < e <= ks.len() {
                    opening + switch(marked, open1) + texts(toks(ks), src, i, e) + render_from(
                        ks,
                        gs,
                        src,
                        e,
                        marked,
                        until1,
                    )
                } else {
                    Seq::empty()
                }
            }
        }
    }
}

/// The new document `src` with what the merged diff `ds` marks as new
/// wrapped in `<ins>` tags, and changed elements marked with classes (see
/// [`render_from`]).
pub open spec fn highlighted(src: Seq<char>, ds: Seq<DiffTokenView>) -> Seq<char> {
    lead(toks(kept(ds)), src) + render_from(kept(ds), gaps(ds), src, 0, false, None)
}

proof fn lemma_unit_range(ks: Seq<DiffTokenView>, i: int)
    requires
        0 <= i < ks.len(),
    ensures
        i < unit_at(ks, i).0 <= ks.len(),
        !unit_at(ks, i).1 ==> unit_at(ks, i).0 == i + 1,
        unit_at(ks, i).1 ==> ks[i].tag == SimplifiedDiffTag::Insert,
        unit_at(ks, i).1 ==> forall|k: int|
            i < k < unit_at(ks, i).0 ==> (#[trigger] ks[k]).tag == SimplifiedDiffTag::Insert
                || in_new_element(ks, k),
        neutral(ks, i) ==> unit_at(ks, i) == (i + 1, true),
{
    match ks[i].token.kind {
        KindView::StartTag { name, .. } => {
            lemma_matching_end_range(ks, name, i + 1, 0);
            let e = unit_at(ks, i).0;
            if unit_at(ks, i).1 && e > i + 1 {
                let m = e - 1;
                assert(matching_end_from(ks, name, i + 1, 0) == Some(m));
                assert(ks[m].tag == SimplifiedDiffTag::Insert);
                assert forall|k: int| i < k < e implies (#[trigger] ks[k]).tag
                    == SimplifiedDiffTag::Insert || in_new_element(ks, k) by {
                    if k < m {
                        assert(ks[i] == ks[i] && ks[m] == ks[m]);
                    }
                }
            }
        },
        _ => {},
    }
}

proof fn lemma_texts_split(ts: Seq<TokenView>, src: Seq<char>, a: int, b: int, c: int)
    requires
        a <= b <= c,
    ensures
        texts(ts, src, a, b) + texts(ts, src, b, c) == texts(ts, src, a, c),
    decreases c - b,
{
    if b == c {
        assert(texts(ts, src, a, b) + Seq::<char>::empty() =~= texts(ts, src, a, b));
    } else {
        lemma_texts_split(ts, src, a, b, c - 1);
        assert(texts(ts, src, a, b) + (texts(ts, src, b, c - 1) + piece(ts, src, c - 1))
            =~= (texts(ts, src, a, b) + texts(ts, src, b, c - 1)) + piece(ts, src, c - 1));
    }
}

proof fn lemma_render_unchanged(ks: Seq<DiffTokenView>, gs: Seq<Seq<KindView>>, src: Seq<char>, i: int)
    requires
        0 <= i <= ks.len(),
        forall|k: int| 0 <= k < ks.len() ==> (#[trigger] ks[k]).tag != SimplifiedDiffTag::Insert,
    ensures
        render_from(ks, gs, src, i, false, None) == texts(toks(ks), src, i, ks.len() as int),
    decreases ks.len() - i,
{
    if i < ks.len() {
        lemma_unit_range(ks, i);
        assert(changed_at(ks, gs, i) is None);
        if i >= 1 {
            assert(ks[i - 1].tag != SimplifiedDiffTag::Insert);
        }
        assert(outof_at(ks, gs, i) is None);
        lemma_next_unequal(ks, i);
        assert(outof_here(ks, gs, i) is None);
        lemma_render_unchanged(ks, gs, src, i + 1);
        lemma_texts_split(toks(ks), src, i, i + 1, ks.len() as int);
        assert(Seq::<char>::empty() + Seq::<char>::empty() + texts(toks(ks), src, i, i + 1) =~= texts(
            toks(ks),
            src,
            i,
            i + 1,
        ));
    }
}

proof fn lemma_kept_no_insert(ds: Seq<DiffTokenView>)
    requires
        forall|k: int| 0 <= k < ds.len() ==> (#[trigger] ds[k]).tag != SimplifiedDiffTag::Insert,
    ensures
        forall|k: int|
            0 <= k < kept(ds).len() ==> (#[trigger] kept(ds)[k]).tag != SimplifiedDiffTag::Insert,
    decreases ds.len(),
{
    if ds.len() > 0 {
        let p = ds.drop_last();
        assert forall|k: int| 0 <= k < p.len() implies (#[trigger] p[k]).tag
            != SimplifiedDiffTag::Insert by {
            assert(p[k] == ds[k]);
        }
        lemma_kept_no_insert(p);
        assert(ds[ds.len() - 1] == ds.last());
    }
}

proof fn lemma_kept_toks(ds: Seq<DiffTokenView>)
    ensures
        toks(kept(ds)) == new_side(ds),
    decreases ds.len(),
{
    if ds.len() > 0 {
        let p = ds.drop_last();
        lemma_kept_toks(p);
        if ds.last().tag != SimplifiedDiffTag::Delete {
            assert(toks(kept(p).push(ds.last())) =~= toks(kept(p)).push(ds.last().token));
        }
    } else {
        assert(toks(kept(ds)) =~= Seq::<TokenView>::empty());
    }
}

/// Where nothing is inserted, nothing is marked: the output is the source
/// as the tokens of the new document that the stream holds cover it, with
/// no `<ins>` in it.
pub proof fn lemma_no_insert_no_marks(src: Seq<char>, ds: Seq<DiffTokenView>)
    requires
        forall|k: int| 0 <= k < ds.len() ==> (#[trigger] ds[k]).tag != SimplifiedDiffTag::Insert,
    ensures
        highlighted(src, ds) == source_text(new_side(ds), src),
{
    lemma_kept_no_insert(ds);
    lemma_render_unchanged(kept(ds), gaps(ds), src, 0);
    lemma_kept_toks(ds);
}

fn copy_diff_token(d: &HtmlTokenWithDiff) -> (r: HtmlTokenWithDiff)
    ensures
        r@ == d@,
{
    HtmlTokenWithDiff {
        span: d.span.start..d.span.end,
        kind: d.kind.deep_copy(),
        diff_tag: d.diff_tag,
    }
}

/// The tokens of the merged stream that are not deleted.
pub fn keep_undeleted(ds: &Vec<HtmlTokenWithDiff>) -> (r: Vec<HtmlTokenWithDiff>)
    ensures
        diff_views(r@) == kept(diff_views(ds@)),
{
    let mut r: Vec<HtmlTokenWithDiff> = Vec::new();
    let mut i: usize = 0;
    assert(diff_views(r@) =~= Seq::<DiffTokenView>::empty());
    assert(diff_views(ds@).take(0) =~= Seq::<DiffTokenView>::empty());
    while i < ds.len()
        invariant
            i <= ds.len(),
            diff_views(r@) == kept(diff_views(ds@).take(i as int)),
        decreases ds.len() - i,
    {
        assert(diff_views(ds@).take(i + 1).drop_last() =~= diff_views(ds@).take(i as int));
        assert(diff_views(ds@).take(i + 1).last() == ds@[i as int]@);
        if ds[i].diff_tag != SimplifiedDiffTag::Delete {
            let d = copy_diff_token(&ds[i]);
            let ghost prev = r@;
            r.push(d);
            assert(diff_views(r@) =~= diff_views(prev).push(d@));
        }
        i = i + 1;
    }
    assert(diff_views(ds@).take(ds.len() as int) =~= diff_views(ds@));
    r
}

proof fn lemma_matching_end_range(ks: Seq<DiffTokenView>, name: Seq<char>, j: int, depth: nat)
    requires
        0 <= j,
    ensures
        matching_end_from(ks, name, j, depth) matches Some(m) ==> j <= m < ks.len(),
    decreases ks.len() - j,
{
    if j < ks.len() {
        lemma_matching_end_range(ks, name, j + 1, depth + 1);
        lemma_matching_end_range(ks, name, j + 1, depth);
        if depth > 0 {
            lemma_matching_end_range(ks, name, j + 1, (depth - 1) as nat);
        }
    }
}

fn find_matching_end(ks: &Vec<HtmlTokenWithDiff>, name: &String, from: usize) -> (r: Option<usize>)
    requires
        from <= ks.len(),
    ensures
        r matches Some(m) ==> matching_end_from(diff_views(ks@), name@, from as int, 0) == Some(
            m as int,
        ),
        r is None ==> matching_end_from(diff_views(ks@), name@, from as int, 0) is None,
{
    let ghost v = diff_views(ks@);
    let mut j = from;
    let mut depth: usize = 0;
    while j < ks.len()
        invariant
            from <= j <= ks.len(),
            depth <= j - from,
            v == diff_views(ks@),
            matching_end_from(v, name@, j as int, depth as nat) == matching_end_from(
                v,
                name@,
                from as int,
                0,
            ),
        decreases ks.len() - j,
    {
        assert(v[j as int] == ks@[j as int]@);
        match &ks[j].kind {
            HtmlTokenKind::StartTag { name: n, self_closing, .. } => {
                if *n == *name && !*self_closing {
                    depth = depth + 1;
                }
            },
            HtmlTokenKind::EndTag(n) => {
                if *n == *name {
                    if depth == 0 {
                        return Some(j);
                    }
                    depth = depth - 1;
                }
            },
            HtmlTokenKind::StringSegment(_) => {},
        }
        j = j + 1;
    }
    None
}

fn unit_at_exec(ks: &Vec<HtmlTokenWithDiff>, i: usize) -> (r: (usize, bool))
    requires
        i < ks.len(),
    ensures
        (r.0 as int, r.1) == unit_at(diff_views(ks@), i as int),
        i < r.0 <= ks.len(),
{
    let ghost v = diff_views(ks@);
    assert(v[i as int] == ks@[i as int]@);
    let d = &ks[i];
    if d.diff_tag != SimplifiedDiffTag::Insert {
        return (i + 1, false);
    }
    match &d.kind {
        HtmlTokenKind::StringSegment(_) => (i + 1, true),
        HtmlTokenKind::StartTag { name, self_closing, .. } => {
            if *self_closing || d.kind.start_tag_is_void() {
                (i + 1, true)
            } else {
                proof {
                    lemma_matching_end_range(v, name@, i + 1, 0);
                }
                match find_matching_end(ks, name, i + 1) {
                    Some(m) => {
                        assert(v[m as int] == ks@[m as int]@);
                        if ks[m].diff_tag == SimplifiedDiffTag::Insert {
                            (m + 1, true)
                        } else {
                            (i + 1, false)
                        }
                    },
                    None => (i + 1, false),
                }
            }
        },
        HtmlTokenKind::EndTag(_) => (i + 1, false),
    }
}

/// The views of the gaps of deleted kinds.
pub open spec fn gap_views(gs: Seq<Vec<HtmlTokenKind>>) -> Seq<Seq<KindView>> {
    gs.map_values(|g: Vec<HtmlTokenKind>| g@.map_values(|k: HtmlTokenKind| k@))
}

proof fn lemma_gaps_len(ds: Seq<DiffTokenView>)
    ensures
        gaps(ds).len() == kept(ds).len() + 1,
    decreases ds.len(),
{
    if ds.len() > 0 {
        lemma_gaps_len(ds.drop_last());
    }
}

/// The kinds of the deleted tokens of the merged stream, gathered between
/// the kept ones (see [`gaps`]).
pub fn deleted_gaps(ds: &Vec<HtmlTokenWithDiff>) -> (r: Vec<Vec<HtmlTokenKind>>)
    ensures
        gap_views(r@) == gaps(diff_views(ds@)),
{
    let ghost dv = diff_views(ds@);
    let mut gs: Vec<Vec<HtmlTokenKind>> = Vec::new();
    let mut cur: Vec<HtmlTokenKind> = Vec::new();
    let mut i: usize = 0;
    assert(dv.take(0) =~= Seq::<DiffTokenView>::empty());
    assert(gap_views(gs@) =~= Seq::<Seq<KindView>>::empty());
    assert(cur@.map_values(|k: HtmlTokenKind| k@) =~= Seq::<KindView>::empty());
    assert(gap_views(gs@).push(cur@.map_values(|k: HtmlTokenKind| k@)) =~= gaps(dv.take(0)));
    while i < ds.len()
        invariant
            i <= ds.len(),
            dv == diff_views(ds@),
            gap_views(gs@).push(cur@.map_values(|k: HtmlTokenKind| k@)) == gaps(dv.take(i as int)),
        decreases ds.len() - i,
    {
        assert(dv.take(i + 1).drop_last() =~= dv.take(i as int));
        assert(dv.take(i + 1).last() == ds@[i as int]@);
        let ghost g = gaps(dv.take(i as int));
        if ds[i].diff_tag == SimplifiedDiffTag::Delete {
            let k = ds[i].kind.deep_copy();
            let ghost before = cur@;
            cur.push(k);
            assert(cur@.map_values(|k: HtmlTokenKind| k@) =~= before.map_values(|k: HtmlTokenKind| k@).push(
                k@,
            ));
            assert(gap_views(gs@).push(cur@.map_values(|k: HtmlTokenKind| k@)) =~= g.update(
                g.len() - 1,
                g.last().push(ds@[i as int]@.token.kind),
            ));
        } else {
            let ghost before = gs@;
            let done = cur;
            gs.push(done);
            cur = Vec::new();
            assert(gap_views(gs@) =~= gap_views(before).push(done@.map_values(|k: HtmlTokenKind| k@)));
            assert(cur@.map_values(|k: HtmlTokenKind| k@) =~= Seq::<KindView>::empty());
            assert(gaps(dv.take(i + 1)) == g.push(Seq::<KindView>::empty()));
            assert(gap_views(gs@).push(cur@.map_values(|k: HtmlTokenKind| k@)) =~= g.push(
                Seq::<KindView>::empty(),
            ));
        }
        i = i + 1;
    }
    assert(dv.take(ds.len() as int) =~= dv);
    let ghost before = gs@;
    gs.push(cur);
    assert(gap_views(gs@) =~= gap_views(before).push(cur@.map_values(|k: HtmlTokenKind| k@)));
    gs
}

fn gap_holds_exec(g: &Vec<HtmlTokenKind>, name: &String, end: bool) -> (r: bool)
    ensures
        r == gap_holds(g@.map_values(|k: HtmlTokenKind| k@), name@, end),
{
    let ghost gv = g@.map_values(|k: HtmlTokenKind| k@);
    let mut x: usize = 0;
    while x < g.len()
        invariant
            x <= g.len(),
            gv == g@.map_values(|k: HtmlTokenKind| k@),
            forall|y: int|
                #![trigger gv[y]]
                0 <= y < x ==> !(if end {
                    gv[y] == KindView::EndTag(name@)
                } else {
                    opens_named(gv[y], name@)
                }),
        decreases g.len() - x,
    {
        assert(gv[x as int] == g@[x as int]@);
        let hit = match &g[x] {
            HtmlTokenKind::StartTag { name: n, .. } => !end && *n == *name,
            HtmlTokenKind::EndTag(n) => end && *n == *name,
            HtmlTokenKind::StringSegment(_) => false,
        };
        if hit {
            return true;
        }
        x = x + 1;
    }
    false
}

fn first_gap_exec(gs: &Vec<Vec<HtmlTokenKind>>, name: &String, end: bool, from: usize, b: usize) -> (r: Option<usize>)
    requires
        from <= b <= gs.len(),
    ensures
        r matches Some(d) ==> first_gap(gap_views(gs@), name@, end, from as int, b as int) == Some(d as int),
        r is None ==> first_gap(gap_views(gs@), name@, end, from as int, b as int) is None,
{
    let ghost gv = gap_views(gs@);
    let mut j = from;
    while j < b
        invariant
            from <= j <= b <= gs.len(),
            gv == gap_views(gs@),
            first_gap(gv, name@, end, j as int, b as int) == first_gap(gv, name@, end, from as int, b as int),
        decreases b - j,
    {
        assert(gv[j as int] == gs@[j as int]@.map_values(|k: HtmlTokenKind| k@));
        if gap_holds_exec(&gs[j], name, end) {
            return Some(j);
        }
        j = j + 1;
    }
    None
}

fn changed_at_exec(ks: &Vec<HtmlTokenWithDiff>, gs: &Vec<Vec<HtmlTokenKind>>, s: usize) -> (r: Option<(usize, usize)>)
    requires
        s < ks.len(),
        gs.len() == ks.len() + 1,
    ensures
        r matches Some((d, e)) ==> changed_at(diff_views(ks@), gap_views(gs@), s as int) == Some(
            (d as int, e as int),
        ),
        r is None ==> changed_at(diff_views(ks@), gap_views(gs@), s as int) is None,
{
    let ghost v = diff_views(ks@);
    assert(v[s as int] == ks@[s as int]@);
    let d = &ks[s];
    if d.diff_tag != SimplifiedDiffTag::Insert {
        return None;
    }
    match &d.kind {
        HtmlTokenKind::StartTag { name, self_closing, .. } => {
            if *self_closing || d.kind.start_tag_is_void() {
                None
            } else {
                proof {
                    lemma_matching_end_range(v, name@, s + 1, 0);
                }
                match find_matching_end(ks, name, s + 1) {
                    Some(e) => match first_gap_exec(gs, name, false, s + 1, e + 1) {
                        Some(dd) => Some((dd, e)),
                        None => {
                            assert(v[e as int] == ks@[e as int]@);
                            if ks[e].diff_tag != SimplifiedDiffTag::Insert && opened_in_run_exec(ks, gs, name, s) {
                                Some((s + 1, e))
                            } else {
                                None
                            }
                        },
                    },
                    None => None,
                }
            }
        },
        _ => None,
    }
}

fn outof_at_exec(ks: &Vec<HtmlTokenWithDiff>, gs: &Vec<Vec<HtmlTokenKind>>, j: usize) -> (r: Option<usize>)
    requires
        j <= ks.len(),
        gs.len() == ks.len() + 1,
    ensures
        r matches Some(d) ==> outof_at(diff_views(ks@), gap_views(gs@), j as int) == Some(d as int),
        r is None ==> outof_at(diff_views(ks@), gap_views(gs@), j as int) is None,
{
    let ghost v = diff_views(ks@);
    let ghost gv = gap_views(gs@);
    if j == 0 {
        return None;
    }
    assert(v[j - 1] == ks@[j - 1]@);
    if ks[j - 1].diff_tag != SimplifiedDiffTag::Insert {
        return None;
    }
    match &ks[j - 1].kind {
        HtmlTokenKind::EndTag(name) => {
            let mut t = j - 1;
            assert(v[j - 1].token.kind == KindView::EndTag(name@));
            while t > 0
                invariant
                    t <= j - 1,
                    1 <= j <= ks.len(),
                    v[j - 1].token.kind == KindView::EndTag(name@),
                    v[j - 1].tag == SimplifiedDiffTag::Insert,
                    gs.len() == ks.len() + 1,
                    v == diff_views(ks@),
                    gv == gap_views(gs@),
                    (opener_of(v, gv, j - 1, t - 1) is Some) == (opener_of(v, gv, j - 1, j - 2) is Some),
                decreases t,
            {
                match changed_at_exec(ks, gs, t - 1) {
                    Some((_, e2)) => {
                        if e2 == j - 1 {
                            assert(opener_of(v, gv, j - 1, t - 1) is Some);
                            assert(v[j - 1].token.kind == KindView::EndTag(name@));
                            return first_gap_exec(gs, name, true, j, ks.len() + 1);
                        }
                    },
                    None => {},
                }
                assert(opener_of(v, gv, j - 1, t - 1) == opener_of(v, gv, j - 1, t - 2));
                t = t - 1;
            }
            assert(opener_of(v, gv, j - 1, -1) is None);
            None
        },
        _ => None,
    }
}

/// An optional index as an integer.
pub open spec fn int_opt(o: Option<usize>) -> Option<int> {
    match o {
        Some(u) => Some(u as int),
        None => None,
    }
}

proof fn lemma_first_gap_range(gs: Seq<Seq<KindView>>, name: Seq<char>, end: bool, j: int, b: int)
    ensures
        first_gap(gs, name, end, j, b) matches Some(d) ==> j <= d < b && d < gs.len(),
    decreases b - j,
{
    if !(j < 0 || j >= b || j >= gs.len()) && !gap_holds(gs[j], name, end) {
        lemma_first_gap_range(gs, name, end, j + 1, b);
    }
}

proof fn lemma_changed_range(ks: Seq<DiffTokenView>, gs: Seq<Seq<KindView>>, s: int)
    ensures
        changed_at(ks, gs, s) matches Some((d, e)) ==> s < d <= e < ks.len(),
{
    if 0 <= s < ks.len() {
        match ks[s].token.kind {
            KindView::StartTag { name, .. } => {
                lemma_matching_end_range(ks, name, s + 1, 0);
                match matching_end_from(ks, name, s + 1, 0) {
                    Some(e) => {
                        lemma_first_gap_range(gs, name, false, s + 1, e + 1);
                    },
                    None => {},
                }
            },
            _ => {},
        }
    }
}

proof fn lemma_next_unequal(ks: Seq<DiffTokenView>, j: int)
    requires
        0 <= j,
    ensures
        j <= next_unequal(ks, j) <= ks.len() || (j > ks.len() && next_unequal(ks, j) == ks.len()),
        forall|k: int| j <= k < next_unequal(ks, j) ==> (#[trigger] ks[k]).tag == SimplifiedDiffTag::Equal,
        next_unequal(ks, j) < ks.len() ==> ks[next_unequal(ks, j)].tag != SimplifiedDiffTag::Equal,
    decreases ks.len() - j,
{
    if j < ks.len() && ks[j].tag == SimplifiedDiffTag::Equal {
        lemma_next_unequal(ks, j + 1);
    }
}

proof fn lemma_outof_here_range(ks: Seq<DiffTokenView>, gs: Seq<Seq<KindView>>, j: int)
    requires
        0 <= j,
    ensures
        outof_here(ks, gs, j) matches Some(d) ==> j < d <= ks.len(),
{
    if 1 <= j <= ks.len() && ks[j - 1].tag == SimplifiedDiffTag::Insert {
        match ks[j - 1].token.kind {
            KindView::EndTag(name) => {
                lemma_first_gap_range(gs, name, true, j, ks.len() + 1int);
            },
            _ => {},
        }
    }
}

fn next_unequal_exec(ks: &Vec<HtmlTokenWithDiff>, from: usize) -> (r: usize)
    requires
        from <= ks.len(),
    ensures
        r as int == next_unequal(diff_views(ks@), from as int),
{
    let ghost v = diff_views(ks@);
    let mut j = from;
    while j < ks.len()
        invariant
            from <= j <= ks.len(),
            v == diff_views(ks@),
            next_unequal(v, j as int) == next_unequal(v, from as int),
        decreases ks.len() - j,
    {
        assert(v[j as int] == ks@[j as int]@);
        if ks[j].diff_tag != SimplifiedDiffTag::Equal {
            return j;
        }
        j = j + 1;
    }
    j
}

fn opened_in_run_exec(ks: &Vec<HtmlTokenWithDiff>, gs: &Vec<Vec<HtmlTokenKind>>, name: &String, lim: usize) -> (r: bool)
    requires
        lim <= ks.len(),
        gs.len() == ks.len() + 1,
    ensures
        r == opened_in_run(diff_views(ks@), gap_views(gs@), name@, lim - 1),
{
    let ghost v = diff_views(ks@);
    let ghost gv = gap_views(gs@);
    let mut t = lim;
    while t > 0
        invariant
            t <= lim <= ks.len(),
            gs.len() == ks.len() + 1,
            v == diff_views(ks@),
            gv == gap_views(gs@),
            opened_in_run(v, gv, name@, t - 1) == opened_in_run(v, gv, name@, lim - 1),
        decreases t,
    {
        let j = t - 1;
        assert(v[j as int] == ks@[j as int]@);
        assert(gv[j as int] == gs@[j as int]@.map_values(|k: HtmlTokenKind| k@));
        if ks[j].diff_tag != SimplifiedDiffTag::Equal {
            return false;
        }
        if gap_holds_exec(&gs[j], name, false) {
            return true;
        }
        t = t - 1;
    }
    false
}

fn outof_here_exec(ks: &Vec<HtmlTokenWithDiff>, gs: &Vec<Vec<HtmlTokenKind>>, j: usize) -> (r: Option<usize>)
    requires
        j < ks.len(),
        gs.len() == ks.len() + 1,
    ensures
        r matches Some(d) ==> outof_here(diff_views(ks@), gap_views(gs@), j as int) == Some(d as int),
        r is None ==> outof_here(diff_views(ks@), gap_views(gs@), j as int) is None,
{
    let ghost v = diff_views(ks@);
    let ghost gv = gap_views(gs@);
    match outof_at_exec(ks, gs, j) {
        Some(d) => {
            if d > j {
                return Some(d);
            }
        },
        None => {},
    }
    let s = next_unequal_exec(ks, j);
    if j < s && s < ks.len() {
        assert(v[s as int] == ks@[s as int]@);
        assert(gv[j as int] == gs@[j as int]@.map_values(|k: HtmlTokenKind| k@));
        if ks[s].diff_tag == SimplifiedDiffTag::Insert {
            match &ks[s].kind {
                HtmlTokenKind::StartTag { name, .. } => {
                    if gap_holds_exec(&gs[j], name, false) && changed_at_exec(ks, gs, s).is_some() {
                        return Some(s);
                    }
                },
                _ => {},
            }
        }
    }
    None
}

proof fn lemma_wrapped_range(ks: Seq<DiffTokenView>, gs: Seq<Seq<KindView>>, s: int)
    ensures
        wrapped_at(ks, gs, s) matches Some(e) ==> s < e < ks.len(),
{
    if 0 <= s < ks.len() {
        match ks[s].token.kind {
            KindView::StartTag { name, .. } => {
                lemma_matching_end_range(ks, name, s + 1, 0);
            },
            _ => {},
        }
    }
}

fn all_inserted_exec(ks: &Vec<HtmlTokenWithDiff>, a: usize, b: usize) -> (r: bool)
    requires
        a <= b <= ks.len(),
    ensures
        r == all_inserted(diff_views(ks@), a as int, b as int),
{
    let ghost v = diff_views(ks@);
    let mut k = a;
    while k < b
        invariant
            a <= k <= b <= ks.len(),
            v == diff_views(ks@),
            all_inserted(v, a as int, k as int),
        decreases b - k,
    {
        assert(v[k as int] == ks@[k as int]@);
        if ks[k].diff_tag != SimplifiedDiffTag::Insert {
            return false;
        }
        k = k + 1;
    }
    true
}

fn wrapped_at_exec(ks: &Vec<HtmlTokenWithDiff>, gs: &Vec<Vec<HtmlTokenKind>>, s: usize) -> (r: Option<usize>)
    requires
        s < ks.len(),
        gs.len() == ks.len() + 1,
    ensures
        r matches Some(e) ==> wrapped_at(diff_views(ks@), gap_views(gs@), s as int) == Some(e as int),
        r is None ==> wrapped_at(diff_views(ks@), gap_views(gs@), s as int) is None,
{
    let ghost v = diff_views(ks@);
    let ghost gv = gap_views(gs@);
    assert(v[s as int] == ks@[s as int]@);
    assert(gv[s as int] == gs@[s as int]@.map_values(|k: HtmlTokenKind| k@));
    let d = &ks[s];
    if d.diff_tag != SimplifiedDiffTag::Insert || gs[s].len() != 0 || changed_at_exec(ks, gs, s).is_some() {
        return None;
    }
    match &d.kind {
        HtmlTokenKind::StartTag { name, self_closing, .. } => {
            if *self_closing || d.kind.start_tag_is_void() {
                None
            } else {
                proof {
                    lemma_matching_end_range(v, name@, s + 1, 0);
                }
                match find_matching_end(ks, name, s + 1) {
                    Some(e) => {
                        assert(v[e as int] == ks@[e as int]@);
                        if ks[e].diff_tag == SimplifiedDiffTag::Insert && !all_inserted_exec(ks, s + 1, e) {
                            Some(e)
                        } else {
                            None
                        }
                    },
                    None => None,
                }
            }
        },
        _ => None,
    }
}

fn is_blank_exec(s: &String) -> (r: bool)
    ensures
        r == is_blank(s@),
{
    let cs = chars_of(s.as_str());
    if cs.len() == 0 {
        return false;
    }
    let mut k: usize = 0;
    while k < cs.len()
        invariant
            k <= cs.len(),
            cs@ == s@,
            forall|j: int| 0 <= j < k ==> unicode_white_space(#[trigger] s@[j]),
        decreases cs.len() - k,
    {
        if !is_whitespace(cs[k]) {
            return false;
        }
        k = k + 1;
    }
    true
}

fn neutral_exec(ks: &Vec<HtmlTokenWithDiff>, i: usize) -> (r: bool)
    requires
        i < ks.len(),
    ensures
        r == neutral(diff_views(ks@), i as int),
{
    let ghost v = diff_views(ks@);
    assert(v[i as int] == ks@[i as int]@);
    if ks[i].diff_tag != SimplifiedDiffTag::Insert {
        return false;
    }
    match &ks[i].kind {
        HtmlTokenKind::StringSegment(s) => is_blank_exec(s),
        _ => false,
    }
}

fn upcoming_marked_exec(ks: &Vec<HtmlTokenWithDiff>, gs: &Vec<Vec<HtmlTokenKind>>, from: usize) -> (r: bool)
    requires
        from <= ks.len(),
        gs.len() == ks.len() + 1,
    ensures
        r == upcoming_marked(diff_views(ks@), gap_views(gs@), from as int),
{
    let ghost v = diff_views(ks@);
    let ghost gv = gap_views(gs@);
    let mut j = from;
    while j < ks.len() && neutral_exec(ks, j)
        invariant
            from <= j <= ks.len(),
            v == diff_views(ks@),
            gv == gap_views(gs@),
            upcoming_marked(v, gv, j as int) == upcoming_marked(v, gv, from as int),
        decreases ks.len() - j,
    {
        j = j + 1;
    }
    if j < ks.len() {
        changed_at_exec(ks, gs, j).is_none() && wrapped_at_exec(ks, gs, j).is_none() && unit_at_exec(ks, j).1
    } else {
        false
    }
}

proof fn lemma_boundary_in_suffix(bytes: Seq<u8>, s: int, e: int)
    requires
        vstd::utf8::valid_utf8(bytes),
        vstd::utf8::is_char_boundary(bytes, s),
        vstd::utf8::is_char_boundary(bytes, e),
        0 <= s <= e <= bytes.len(),
    ensures
        vstd::utf8::is_char_boundary(bytes.subrange(s, bytes.len() as int), e - s),
{
    let rest = bytes.subrange(s, bytes.len() as int);
    vstd::utf8::valid_utf8_split(bytes, s);
    if e == bytes.len() {
        vstd::utf8::is_char_boundary_start_end_of_seq(rest);
    } else {
        vstd::utf8::is_char_boundary_iff_not_is_continuation_byte(bytes, e);
        assert(rest[e - s] == bytes[e]);
        vstd::utf8::is_char_boundary_iff_not_is_continuation_byte(rest, e - s);
    }
}

fn append_slice(out: &mut String, src: &str, start: usize, end: usize)
    ensures
        final(out)@ == old(out)@ + source_slice(src@, start as int, end as int),
{
    if start <= end && end <= src.as_bytes().len() && src.is_char_boundary(start) && src.is_char_boundary(end) {
        let ghost bytes = vstd::utf8::encode_utf8(src@);
        proof {
            vstd::utf8::encode_utf8_valid_utf8(src@);
            lemma_boundary_in_suffix(bytes, start as int, end as int);
        }
        let (_, rest) = src.split_at(start);
        let (mid, _) = rest.split_at(end - start);
        proof {
            assert(vstd::utf8::encode_utf8(mid@) =~= bytes.subrange(start as int, end as int));
            vstd::utf8::encode_utf8_decode_utf8(mid@);
            assert(mid@ == source_slice(src@, start as int, end as int));
        }
        out.append(mid);
    } else {
        assert(old(out)@ + Seq::<char>::empty() =~= old(out)@);
    }
}

fn append_piece(out: &mut String, src: &str, ks: &Vec<HtmlTokenWithDiff>, k: usize, n: usize)
    requires
        k < ks.len(),
        n == vstd::utf8::encode_utf8(src@).len(),
    ensures
        final(out)@ == old(out)@ + piece(toks(diff_views(ks@)), src@, k as int),
{
    let ghost ts = toks(diff_views(ks@));
    assert(ts[k as int] == ks@[k as int]@.token);
    let stop = if k + 1 < ks.len() {
        assert(ts[k + 1] == ks@[k + 1]@.token);
        ks[k + 1].span.start
    } else {
        n
    };
    append_slice(out, src, ks[k].span.start, stop);
}

fn append_classed_piece(out: &mut String, src: &str, ks: &Vec<HtmlTokenWithDiff>, k: usize, n: usize, wrapper: bool)
    requires
        k < ks.len(),
        n == vstd::utf8::encode_utf8(src@).len(),
    ensures
        final(out)@ == old(out)@ + classed_piece(toks(diff_views(ks@)), src@, k as int, wrapper),
{
    let ghost ts = toks(diff_views(ks@));
    assert(ts[k as int] == ks@[k as int]@.token);
    let start = ks[k].span.start;
    let end = ks[k].span.end;
    let stop = if k + 1 < ks.len() {
        assert(ts[k + 1] == ks@[k + 1]@.token);
        ks[k + 1].span.start
    } else {
        n
    };
    let quote = class_quote_exec(src.as_bytes(), start, end);
    let into_list = quote.is_some();
    let p: usize = match quote {
        Some(q) => q,
        None => if end >= 1 {
            end - 1
        } else {
            0
        },
    };
    if (quote.is_some() || end >= 1) && start <= p && p <= stop && stop <= n && src.is_char_boundary(start)
        && src.is_char_boundary(p) && src.is_char_boundary(stop) {
        assert(class_point(ts, src@, k as int) == p);
        assert(class_split(ts, src@, k as int));
        let ghost before = out@;
        append_slice(out, src, start, p);
        if into_list {
            if wrapper {
                out.append(" -wrapper");
            } else {
                out.append(" -content-changed");
            }
        } else if wrapper {
            out.append(" class=\"-wrapper\"");
        } else {
            out.append(" class=\"-content-changed\"");
        }
        append_slice(out, src, p, stop);
        proof {
            reveal_strlit(" class=\"-content-changed\"");
            reveal_strlit(" class=\"-wrapper\"");
            reveal_strlit(" -content-changed");
            reveal_strlit(" -wrapper");
        }
        assert(out@ == before + classed_piece(ts, src@, k as int, wrapper));
    } else {
        assert(!class_split(ts, src@, k as int));
        append_piece(out, src, ks, k, n);
    }
}

fn close_moved(
    out: &mut String,
    ks: &Vec<HtmlTokenWithDiff>,
    gs: &Vec<Vec<HtmlTokenKind>>,
    src: &str,
    i: usize,
    open: bool,
    until: Option<usize>,
)
    requires
        until matches Some(u) && i >= u,
    ensures
        final(out)@ + render_from(diff_views(ks@), gap_views(gs@), src@, i as int, false, None) == old(out)@
            + render_from(diff_views(ks@), gap_views(gs@), src@, i as int, open, int_opt(until)),
{
    let ghost v = diff_views(ks@);
    let ghost gv = gap_views(gs@);
    let ghost close = if open {
        "</ins>"@
    } else {
        Seq::<char>::empty()
    };
    proof {
        reveal_strlit("</ins>");
    }
    if open {
        out.append("</ins>");
    }
    out.append("</ins>");
    assert(out@ == old(out)@ + close + "</ins>"@);
    assert(render_from(v, gv, src@, i as int, open, int_opt(until)) == close + "</ins>"@ + render_from(
        v,
        gv,
        src@,
        i as int,
        false,
        None,
    ));
    assert(old(out)@ + (close + "</ins>"@ + render_from(v, gv, src@, i as int, false, None)) =~= old(out)@
        + close + "</ins>"@ + render_from(v, gv, src@, i as int, false, None));
}

fn close_moved_at_end(
    out: &mut String,
    ks: &Vec<HtmlTokenWithDiff>,
    gs: &Vec<Vec<HtmlTokenKind>>,
    src: &str,
    open: bool,
    until: Option<usize>,
)
    requires
        until matches Some(u) ==> u <= ks.len(),
    ensures
        final(out)@ == old(out)@ + render_from(
            diff_views(ks@),
            gap_views(gs@),
            src@,
            ks.len() as int,
            open,
            int_opt(until),
        ),
{
    let ghost v = diff_views(ks@);
    let ghost gv = gap_views(gs@);
    let ghost close = if open {
        "</ins>"@
    } else {
        Seq::<char>::empty()
    };
    proof {
        reveal_strlit("</ins>");
    }
    if open {
        out.append("</ins>");
    }
    assert(render_from(v, gv, src@, ks.len() as int, false, None) == Seq::<char>::empty());
    if until.is_some() {
        out.append("</ins>");
        assert(out@ =~= old(out)@ + (close + "</ins>"@ + Seq::<char>::empty()));
    } else {
        assert(out@ =~= old(out)@ + close);
    }
}

#[verifier::rlimit(60)]
#[verifier::spinoff_prover]
fn render_changed(
    out: &mut String,
    src: &str,
    ks: &Vec<HtmlTokenWithDiff>,
    gs: &Vec<Vec<HtmlTokenKind>>,
    n: usize,
    i: usize,
    open: bool,
    until: Option<usize>,
    d: usize,
    wrapper: bool,
) -> (r: Option<usize>)
    requires
        i < ks.len(),
        i < d <= ks.len(),
        n == vstd::utf8::encode_utf8(src@).len(),
        (if wrapper {
            changed_at(diff_views(ks@), gap_views(gs@), i as int) is None && wrapped_at(
                diff_views(ks@),
                gap_views(gs@),
                i as int,
            ) == Some(d as int)
        } else {
            changed_at(diff_views(ks@), gap_views(gs@), i as int) matches Some((d2, _)) && d2 == d
        }),
        !(until matches Some(u) && i >= u),
        until matches Some(u) ==> u <= ks.len(),
    ensures
        r matches Some(u) ==> u <= ks.len(),
        final(out)@ + render_from(diff_views(ks@), gap_views(gs@), src@, i + 1, false, int_opt(r))
            == old(out)@ + render_from(diff_views(ks@), gap_views(gs@), src@, i as int, open, int_opt(until)),
{
    let ghost v = diff_views(ks@);
    let ghost gv = gap_views(gs@);
    let ghost ts = toks(v);
    let ghost close = if open {
        "</ins>"@
    } else {
        Seq::<char>::empty()
    };
    proof {
        reveal_strlit("</ins>");
        reveal_strlit("<ins class=\"-moved-into\">");
    }
    if open {
        out.append("</ins>");
    }
    append_classed_piece(out, src, ks, i, n, wrapper);
    let ghost head = close + classed_piece(ts, src@, i as int, wrapper);
    assert(out@ == old(out)@ + head);
    if until.is_none() && d > i + 1 {
        out.append("<ins class=\"-moved-into\">");
        assert(old(out)@ + (head + "<ins class=\"-moved-into\">"@ + render_from(v, gv, src@, i + 1, false, Some(d as int)))
            =~= out@ + render_from(v, gv, src@, i + 1, false, Some(d as int)));
        Some(d)
    } else {
        assert(old(out)@ + (head + render_from(v, gv, src@, i + 1, false, int_opt(until))) =~= out@
            + render_from(v, gv, src@, i + 1, false, int_opt(until)));
        until
    }
}

#[verifier::rlimit(60)]
#[verifier::spinoff_prover]
fn render_unit(
    out: &mut String,
    src: &str,
    ks: &Vec<HtmlTokenWithDiff>,
    gs: &Vec<Vec<HtmlTokenKind>>,
    n: usize,
    i: usize,
    open: bool,
    until: Option<usize>,
) -> (r: (usize, bool, Option<usize>))
    requires
        i < ks.len(),
        gs.len() == ks.len() + 1,
        n == vstd::utf8::encode_utf8(src@).len(),
        changed_at(diff_views(ks@), gap_views(gs@), i as int) is None,
        wrapped_at(diff_views(ks@), gap_views(gs@), i as int) is None,
        !(until matches Some(u) && i >= u),
        until matches Some(u) ==> u <= ks.len(),
    ensures
        i < r.0 <= ks.len(),
        r.2 matches Some(u) ==> u <= ks.len(),
        final(out)@ + render_from(diff_views(ks@), gap_views(gs@), src@, r.0 as int, r.1, int_opt(r.2))
            == old(out)@ + render_from(diff_views(ks@), gap_views(gs@), src@, i as int, open, int_opt(until)),
{
    let ghost v = diff_views(ks@);
    let ghost gv = gap_views(gs@);
    let ghost ts = toks(v);
    let ghost close = if open {
        "</ins>"@
    } else {
        Seq::<char>::empty()
    };
    proof {
        reveal_strlit("</ins>");
        reveal_strlit("<ins>");
        reveal_strlit("<ins class=\"-moved-outof\">");
    }
    let mut open1 = open;
    let mut until1 = until;
    let mut starts_outof = false;
    if until.is_none() {
        match outof_here_exec(ks, gs, i) {
            Some(d) => {
                proof {
                    lemma_outof_here_range(v, gv, i as int);
                }
                starts_outof = true;
                if open {
                    out.append("</ins>");
                }
                out.append("<ins class=\"-moved-outof\">");
                open1 = false;
                until1 = Some(d);
            },
            None => {},
        }
    }
    let ghost opening = if starts_outof {
        close + "<ins class=\"-moved-outof\">"@
    } else {
        Seq::<char>::empty()
    };
    assert(out@ == old(out)@ + opening);
    let (e, _) = unit_at_exec(ks, i);
    let marked = if neutral_exec(ks, i) {
        open1 && upcoming_marked_exec(ks, gs, i + 1)
    } else {
        unit_at_exec(ks, i).1
    };
    let ghost after_open = out@;
    if marked && !open1 {
        out.append("<ins>");
    } else if !marked && open1 {
        out.append("</ins>");
    }
    assert(out@ == after_open + switch(marked, open1));
    let ghost after_pre = out@;
    let mut k = i;
    while k < e
        invariant
            i <= k <= e <= ks.len(),
            v == diff_views(ks@),
            ts == toks(v),
            n == vstd::utf8::encode_utf8(src@).len(),
            out@ == after_pre + texts(ts, src@, i as int, k as int),
        decreases e - k,
    {
        append_piece(out, src, ks, k, n);
        k = k + 1;
        assert(texts(ts, src@, i as int, k as int) == texts(ts, src@, i as int, k - 1) + piece(ts, src@, k - 1));
    }
    proof {
        let rest = render_from(v, gv, src@, e as int, marked, int_opt(until1));
        assert(render_from(v, gv, src@, i as int, open, int_opt(until)) == opening + switch(marked, open1)
            + texts(ts, src@, i as int, e as int) + rest);
        assert(old(out)@ + (opening + switch(marked, open1) + texts(ts, src@, i as int, e as int) + rest)
            =~= out@ + rest);
    }
    (e, marked, until1)
}

fn render_step(
    out: &mut String,
    src: &str,
    ks: &Vec<HtmlTokenWithDiff>,
    gs: &Vec<Vec<HtmlTokenKind>>,
    n: usize,
    i: usize,
    open: bool,
    until: Option<usize>,
) -> (r: (usize, bool, Option<usize>))
    requires
        i < ks.len(),
        gs.len() == ks.len() + 1,
        n == vstd::utf8::encode_utf8(src@).len(),
        !(until matches Some(u) && i >= u),
        until matches Some(u) ==> u <= ks.len(),
    ensures
        i < r.0 <= ks.len(),
        r.2 matches Some(u) ==> u <= ks.len(),
        final(out)@ + render_from(diff_views(ks@), gap_views(gs@), src@, r.0 as int, r.1, int_opt(r.2))
            == old(out)@ + render_from(diff_views(ks@), gap_views(gs@), src@, i as int, open, int_opt(until)),
{
    match changed_at_exec(ks, gs, i) {
        Some((d, _)) => {
            proof {
                lemma_changed_range(diff_views(ks@), gap_views(gs@), i as int);
            }
            let u = render_changed(out, src, ks, gs, n, i, open, until, d, false);
            (i + 1, false, u)
        },
        None => match wrapped_at_exec(ks, gs, i) {
            Some(e) => {
                proof {
                    lemma_wrapped_range(diff_views(ks@), gap_views(gs@), i as int);
                }
                let u = render_changed(out, src, ks, gs, n, i, open, until, e, true);
                (i + 1, false, u)
            },
            None => render_unit(out, src, ks, gs, n, i, open, until),
        },
    }
}

/// The new document `new_html` with what `diff` marks as new wrapped in
/// `<ins>` tags, and changed elements marked with classes (see
/// [`render_from`]). Deleted tokens are left out, but a deleted start tag
/// of the same name inside a new element tells that its content changed;
/// each other token stands for the source of `new_html` from its start up
/// to the next token.
pub fn highlight_from_diff(new_html: &str, diff: &Vec<HtmlTokenWithDiff>) -> (r: String)
    ensures
        r@ == highlighted(new_html@, diff_views(diff@)),
        r@ == flat(highlight_segs(new_html@, diff_views(diff@))),
        text_of(highlight_segs(new_html@, diff_views(diff@))) == source_text(
            new_side(diff_views(diff@)),
            new_html@,
        ),
        marks_ok(highlight_segs(new_html@, diff_views(diff@))),
{
    proof {
        lemma_highlight_parts(new_html@, diff_views(diff@));
    }
    let ks = keep_undeleted(diff);
    let gs = deleted_gaps(diff);
    proof {
        lemma_gaps_len(diff_views(diff@));
    }
    let ghost v = diff_views(ks@);
    let ghost gv = gap_views(gs@);
    let ghost ts = toks(v);
    let n = new_html.as_bytes().len();
    let mut out = String::new();
    let lead_end = if ks.len() > 0 {
        assert(ts[0] == ks@[0]@.token);
        ks[0].span.start
    } else {
        n
    };
    append_slice(&mut out, new_html, 0, lead_end);
    assert(out@ == lead(ts, new_html@));
    let mut i: usize = 0;
    let mut open = false;
    let mut until: Option<usize> = None;
    proof {
        reveal_strlit("</ins>");
        reveal_strlit("<ins>");
    }
    while i < ks.len()
        invariant
            i <= ks.len(),
            gs.len() == ks.len() + 1,
            v == diff_views(ks@),
            gv == gap_views(gs@),
            n == vstd::utf8::encode_utf8(new_html@).len(),
            until matches Some(u) ==> u <= ks.len(),
            out@ + render_from(v, gv, new_html@, i as int, open, int_opt(until)) == highlighted(
                new_html@,
                diff_views(diff@),
            ),
        decreases ks.len() - i,
    {
        let due = match until {
            Some(u) => i >= u,
            None => false,
        };
        if due {
            close_moved(&mut out, &ks, &gs, new_html, i, open, until);
            open = false;
            until = None;
        }
        let (e, o2, u2) = render_step(&mut out, new_html, &ks, &gs, n, i, open, until);
        i = e;
        open = o2;
        until = u2;
    }
    close_moved_at_end(&mut out, &ks, &gs, new_html, open, until);
    out
}

/// Whether the tokens `ts` start in order, each on a char boundary of the
/// UTF-8 encoding of `src` and within it.
pub open spec fn spans_in_order(ts: Seq<TokenView>, src: Seq<char>) -> bool {
    let bytes = vstd::utf8::encode_utf8(src);
    forall|k: int|
        0 <= k < ts.len() ==> (#[trigger] ts[k]).start <= bytes.len() && vstd::utf8::is_char_boundary(
            bytes,
            ts[k].start as int,
        ) && (k + 1 < ts.len() ==> ts[k].start <= ts[k + 1].start)
}

proof fn lemma_slice_concat(src: Seq<char>, a: int, b: int, c: int)
    requires
        0 <= a <= b <= c <= vstd::utf8::encode_utf8(src).len(),
        vstd::utf8::is_char_boundary(vstd::utf8::encode_utf8(src), a),
        vstd::utf8::is_char_boundary(vstd::utf8::encode_utf8(src), b),
        vstd::utf8::is_char_boundary(vstd::utf8::encode_utf8(src), c),
    ensures
        source_slice(src, a, b) + source_slice(src, b, c) == source_slice(src, a, c),
{
    let bytes = vstd::utf8::encode_utf8(src);
    vstd::utf8::encode_utf8_valid_utf8(src);
    let rest = bytes.subrange(a, bytes.len() as int);
    vstd::utf8::valid_utf8_split(bytes, a);
    lemma_boundary_in_suffix(bytes, a, b);
    lemma_boundary_in_suffix(bytes, a, c);
    let x = rest.subrange(0, c - a);
    vstd::utf8::valid_utf8_split(rest, c - a);
    assert(x =~= bytes.subrange(a, c));
    if b < c {
        vstd::utf8::is_char_boundary_iff_not_is_continuation_byte(rest, b - a);
        vstd::utf8::is_char_boundary_iff_not_is_continuation_byte(x, b - a);
        assert(x[b - a] == rest[b - a]);
    } else {
        vstd::utf8::is_char_boundary_start_end_of_seq(x);
    }
    vstd::utf8::decode_utf8_split(x, b - a);
    assert(x.subrange(0, b - a) =~= bytes.subrange(a, b));
    assert(x.subrange(b - a, x.len() as int) =~= bytes.subrange(b, c));
}

proof fn lemma_source_text_prefix(ts: Seq<TokenView>, src: Seq<char>, k: int)
    requires
        spans_in_order(ts, src),
        0 <= k <= ts.len(),
    ensures
        lead(ts, src) + texts(ts, src, 0, k) == source_slice(
            src,
            0,
            if k < ts.len() {
                ts[k].start as int
            } else {
                vstd::utf8::encode_utf8(src).len() as int
            },
        ),
    decreases k,
{
    let bytes = vstd::utf8::encode_utf8(src);
    vstd::utf8::encode_utf8_valid_utf8(src);
    vstd::utf8::is_char_boundary_start_end_of_seq(bytes);
    if k == 0 {
        assert(lead(ts, src) + Seq::<char>::empty() =~= lead(ts, src));
    } else {
        lemma_source_text_prefix(ts, src, k - 1);
        let s = ts[k - 1].start as int;
        let e = piece_end(ts, src, k - 1);
        assert(ts[k - 1].start <= bytes.len());
        if k < ts.len() {
            assert(ts[k].start <= bytes.len());
        }
        lemma_slice_concat(src, 0, s, e);
        assert(lead(ts, src) + (texts(ts, src, 0, k - 1) + piece(ts, src, k - 1)) =~= (lead(ts, src)
            + texts(ts, src, 0, k - 1)) + piece(ts, src, k - 1));
    }
}

/// The source as its tokens cover it is the whole source, when the tokens
/// start in order on char boundaries.
pub proof fn lemma_source_text_whole(ts: Seq<TokenView>, src: Seq<char>)
    requires
        spans_in_order(ts, src),
    ensures
        source_text(ts, src) == src,
{
    lemma_source_text_prefix(ts, src, ts.len() as int);
    let bytes = vstd::utf8::encode_utf8(src);
    vstd::utf8::encode_utf8_valid_utf8(src);
    vstd::utf8::is_char_boundary_start_end_of_seq(bytes);
    vstd::utf8::encode_utf8_decode_utf8(src);
    assert(bytes.subrange(0, bytes.len() as int) =~= bytes);
}

/// A part of the output: a mark (an `<ins>` tag, with or without a class,
/// an `</ins>`, or a class attribute added to a start tag), or a stretch of
/// the new document's source, the pieces of tokens `from` up to `to`, which
/// `ins` tells to stand inside a plain `<ins>`.
pub enum Seg {
    Mark(Seq<char>),
    Text { text: Seq<char>, from: int, to: int, ins: bool },
}

/// The output that a list of parts writes.
pub open spec fn flat(ss: Seq<Seg>) -> Seq<char>
    decreases ss.len(),
{
    if ss.len() == 0 {
        Seq::empty()
    } else {
        flat(ss.drop_last()) + match ss.last() {
            Seg::Mark(m) => m,
            Seg::Text { text, .. } => text,
        }
    }
}

/// The text of a list of parts with every mark left out.
pub open spec fn text_of(ss: Seq<Seg>) -> Seq<char>
    decreases ss.len(),
{
    if ss.len() == 0 {
        Seq::empty()
    } else {
        text_of(ss.drop_last()) + match ss.last() {
            Seg::Mark(_) => Seq::empty(),
            Seg::Text { text, .. } => text,
        }
    }
}

/// Whether `m` is one of the marks the output adds: a plain `<ins>`, an
/// `</ins>`, an `<ins>` with the class of moved content, or an added class
/// attribute.
pub open spec fn is_mark(m: Seq<char>) -> bool {
    ||| m == "<ins>"@
    ||| m == "</ins>"@
    ||| m == "<ins class=\"-moved-into\">"@
    ||| m == "<ins class=\"-moved-outof\">"@
    ||| m == class_text(true, true)
    ||| m == class_text(false, true)
    ||| m == class_text(true, false)
    ||| m == class_text(false, false)
}

/// Whether a plain `<ins>` is open before part `k`: the last mark before it
/// is a plain `<ins>` (when no mark stands before it, `open0`).
pub open spec fn plain_open_at(ss: Seq<Seg>, k: int, open0: bool) -> bool
    decreases k,
{
    if k <= 0 || k > ss.len() {
        open0
    } else {
        match ss[k - 1] {
            Seg::Mark(m) => m == "<ins>"@,
            Seg::Text { .. } => plain_open_at(ss, k - 1, open0),
        }
    }
}

/// An `</ins>` when `open`.
pub open spec fn closing_segs(open: bool) -> Seq<Seg> {
    if open {
        seq![Seg::Mark("</ins>"@)]
    } else {
        Seq::empty()
    }
}

/// The marks of [`switch`].
pub open spec fn switch_segs(marked: bool, open: bool) -> Seq<Seg> {
    if marked && !open {
        seq![Seg::Mark("<ins>"@)]
    } else if !marked && open {
        seq![Seg::Mark("</ins>"@)]
    } else {
        Seq::empty()
    }
}

/// The parts of [`classed_piece`].
pub open spec fn classed_segs(ts: Seq<TokenView>, src: Seq<char>, k: int, wrapper: bool) -> Seq<Seg> {
    if class_split(ts, src, k) {
        let p = class_point(ts, src, k);
        seq![
            Seg::Text { text: source_slice(src, ts[k].start as int, p), from: k, to: k + 1, ins: false },
            Seg::Mark(class_text(wrapper, has_class_list(ts, src, k))),
            Seg::Text { text: source_slice(src, p, piece_end(ts, src, k)), from: k, to: k + 1, ins: false },
        ]
    } else {
        seq![Seg::Text { text: piece(ts, src, k), from: k, to: k + 1, ins: false }]
    }
}

/// The parts of [`render_from`], step for step.
pub open spec fn render_segs(
    ks: Seq<DiffTokenView>,
    gs: Seq<Seq<KindView>>,
    src: Seq<char>,
    i: int,
    open: bool,
    until: Option<int>,
) -> Seq<Seg>
    decreases ks.len() - i, if until is Some { 1int } else { 0int },
{
    if until matches Some(u) && (i >= u || i >= ks.len()) {
        closing_segs(open) + seq![Seg::Mark("</ins>"@)] + render_segs(ks, gs, src, i, false, None)
    } else if i < 0 || i >= ks.len() {
        closing_segs(open)
    } else {
        let (classed, wrapper, d) = match changed_at(ks, gs, i) {
            Some((d, _)) => (true, false, d),
            None => match wrapped_at(ks, gs, i) {
                Some(e) => (true, true, e),
                None => (false, false, 0),
            },
        };
        if classed {
            let head = closing_segs(open) + classed_segs(toks(ks), src, i, wrapper);
            if until is None && d > i + 1 {
                head + seq![Seg::Mark("<ins class=\"-moved-into\">"@)] + render_segs(
                    ks,
                    gs,
                    src,
                    i + 1,
                    false,
                    Some(d),
                )
            } else {
                head + render_segs(ks, gs, src, i + 1, false, until)
            }
        } else {
            let starts_outof = until is None && outof_here(ks, gs, i) is Some;
            let opening = if starts_outof {
                closing_segs(open) + seq![Seg::Mark("<ins class=\"-moved-outof\">"@)]
            } else {
                Seq::empty()
            };
            let open1 = if starts_outof {
                false
            } else {
                open
            };
            let until1 = if starts_outof {
                outof_here(ks, gs, i)
            } else {
                until
            };
            let e = unit_at(ks, i).0;
            let marked = unit_mark(ks, gs, i, open1);
            if i < e <= ks.len() {
                opening + switch_segs(marked, open1) + seq![
                    Seg::Text { text: texts(toks(ks), src, i, e), from: i, to: e, ins: marked },
                ] + render_segs(ks, gs, src, e, marked, until1)
            } else {
                Seq::empty()
            }
        }
    }
}

/// The parts of the whole output (see [`highlighted`]): the source before
/// the first token, then those of [`render_from`].
pub open spec fn highlight_segs(src: Seq<char>, ds: Seq<DiffTokenView>) -> Seq<Seg> {
    seq![Seg::Text { text: lead(toks(kept(ds)), src), from: 0, to: 0, ins: false }] + render_segs(
        kept(ds),
        gaps(ds),
        src,
        0,
        false,
        None,
    )
}

proof fn lemma_flat_concat(a: Seq<Seg>, b: Seq<Seg>)
    ensures
        flat(a + b) == flat(a) + flat(b),
        text_of(a + b) == text_of(a) + text_of(b),
    decreases b.len(),
{
    if b.len() == 0 {
        assert(a + b =~= a);
        assert(flat(a) + flat(b) =~= flat(a));
        assert(text_of(a) + text_of(b) =~= text_of(a));
    } else {
        lemma_flat_concat(a, b.drop_last());
        assert((a + b).drop_last() =~= a + b.drop_last());
        assert((a + b).last() == b.last());
        let fl = match b.last() {
            Seg::Mark(m) => m,
            Seg::Text { text, .. } => text,
        };
        let tl = match b.last() {
            Seg::Mark(_) => Seq::<char>::empty(),
            Seg::Text { text, .. } => text,
        };
        assert(flat(a) + flat(b.drop_last()) + fl =~= flat(a) + (flat(b.drop_last()) + fl));
        assert(text_of(a) + text_of(b.drop_last()) + tl =~= text_of(a) + (text_of(b.drop_last()) + tl));
    }
}

proof fn lemma_plain_open_concat(a: Seq<Seg>, b: Seq<Seg>, k: int, open0: bool)
    requires
        0 <= k <= b.len(),
    ensures
        plain_open_at(a + b, a.len() + k, open0) == plain_open_at(b, k, plain_open_at(a, a.len() as int, open0)),
    decreases k,
{
    if k == 0 {
        lemma_plain_open_prefix(a, b, a.len() as int, open0);
    } else {
        lemma_plain_open_concat(a, b, k - 1, open0);
        assert((a + b)[a.len() + k - 1] == b[k - 1]);
    }
}

proof fn lemma_plain_open_prefix(a: Seq<Seg>, b: Seq<Seg>, k: int, open0: bool)
    requires
        0 <= k <= a.len(),
    ensures
        plain_open_at(a + b, k, open0) == plain_open_at(a, k, open0),
    decreases k,
{
    if k > 0 {
        lemma_plain_open_prefix(a, b, k - 1, open0);
        assert((a + b)[k - 1] == a[k - 1]);
    }
}

/// Whether every mark among `ss` is one that [`is_mark`] lists.
pub open spec fn marks_ok(ss: Seq<Seg>) -> bool {
    forall|k: int| 0 <= k < ss.len() ==> (#[trigger] ss[k] matches Seg::Mark(m) ==> is_mark(m))
}

/// Whether each text part of `ss` stands inside a plain `<ins>` exactly when
/// its `ins` says so, `open0` telling whether one is open before them.
pub open spec fn ins_consistent(ss: Seq<Seg>, open0: bool) -> bool {
    forall|k: int|
        0 <= k < ss.len() ==> (#[trigger] ss[k] matches Seg::Text { ins, .. } ==> ins == plain_open_at(
            ss,
            k,
            open0,
        ))
}

/// Whether token `t` lies inside a new element that takes the place of
/// deleted tokens: its start tag and end tag are both inserted, and a gap
/// of deleted tokens stands just before its start tag.
pub open spec fn in_replacing_element(ks: Seq<DiffTokenView>, gs: Seq<Seq<KindView>>, t: int) -> bool {
    exists|i: int, m: int|
        #![trigger ks[i], ks[m]]
        0 <= i < t < m < ks.len() && i < gs.len() && gs[i].len() > 0 && ks[i].tag
            == SimplifiedDiffTag::Insert && ks[m].tag == SimplifiedDiffTag::Insert && (
        ks[i].token.kind matches KindView::StartTag { name, .. } && matching_end_from(ks, name, i + 1, 0)
            == Some(m))
}

/// Whether every text part of `ss` that stands inside a plain `<ins>` holds
/// only new tokens of `ks`: inserted ones, or, where a new element takes the
/// place of deleted tokens and is marked whole, the tokens inside it.
pub open spec fn only_new_in_ins(ks: Seq<DiffTokenView>, gs: Seq<Seq<KindView>>, ss: Seq<Seg>) -> bool {
    forall|k: int, t: int|
        0 <= k < ss.len() && (#[trigger] ss[k] matches Seg::Text { from, to, ins, .. } && ins && from <= t < to)
            ==> 0 <= t < ks.len() && ((#[trigger] ks[t]).tag == SimplifiedDiffTag::Insert
            || in_replacing_element(ks, gs, t))
}

/// Whether token `t` lies in a text part of `ss` that stands inside a plain
/// `<ins>`.
pub open spec fn in_ins(ss: Seq<Seg>, t: int) -> bool {
    exists|k: int| 0 <= k < ss.len() && (#[trigger] ss[k] matches Seg::Text { from, to, ins, .. } && ins && from <= t < to)
}

/// Whether token `t` is an inserted run of text that is not whitespace.
pub open spec fn new_text(ks: Seq<DiffTokenView>, t: int) -> bool {
    &&& ks[t].tag == SimplifiedDiffTag::Insert
    &&& ks[t].token.kind matches KindView::StringSegment(s) && !is_blank(s)
}

proof fn lemma_flat_one(x: Seg)
    ensures
        flat(seq![x]) == match x {
            Seg::Mark(m) => m,
            Seg::Text { text, .. } => text,
        },
        text_of(seq![x]) == match x {
            Seg::Mark(_) => Seq::<char>::empty(),
            Seg::Text { text, .. } => text,
        },
        forall|o: bool| #[trigger] plain_open_at(seq![x], 1, o) == match x {
            Seg::Mark(m) => m == "<ins>"@,
            Seg::Text { .. } => o,
        },
{
    let one = seq![x];
    assert(one.drop_last() =~= Seq::<Seg>::empty());
    assert(one.last() == x);
    assert(one[0] == x);
    let f = match x {
        Seg::Mark(m) => m,
        Seg::Text { text, .. } => text,
    };
    let t = match x {
        Seg::Mark(_) => Seq::<char>::empty(),
        Seg::Text { text, .. } => text,
    };
    assert(flat(one) == flat(one.drop_last()) + f);
    assert(Seq::<char>::empty() + f =~= f);
    assert(text_of(one) == text_of(one.drop_last()) + t);
    assert(Seq::<char>::empty() + t =~= t);
    assert forall|o: bool| #[trigger] plain_open_at(one, 1, o) == match x {
        Seg::Mark(m) => m == "<ins>"@,
        Seg::Text { .. } => o,
    } by {
        assert(plain_open_at(one, 0, o) == o);
    }
}

proof fn lemma_parts_concat(ks: Seq<DiffTokenView>, gs: Seq<Seq<KindView>>, a: Seq<Seg>, b: Seq<Seg>, open0: bool)
    requires
        marks_ok(a),
        marks_ok(b),
        ins_consistent(a, open0),
        ins_consistent(b, plain_open_at(a, a.len() as int, open0)),
        only_new_in_ins(ks, gs, a),
        only_new_in_ins(ks, gs, b),
    ensures
        marks_ok(a + b),
        ins_consistent(a + b, open0),
        only_new_in_ins(ks, gs, a + b),
        plain_open_at(a + b, (a + b).len() as int, open0) == plain_open_at(
            b,
            b.len() as int,
            plain_open_at(a, a.len() as int, open0),
        ),
        flat(a + b) == flat(a) + flat(b),
        text_of(a + b) == text_of(a) + text_of(b),
        forall|t: int| in_ins(a, t) || in_ins(b, t) ==> #[trigger] in_ins(a + b, t),
{
    lemma_flat_concat(a, b);
    lemma_plain_open_concat(a, b, b.len() as int, open0);
    let ab = a + b;
    assert forall|k: int| 0 <= k < ab.len() implies (#[trigger] ab[k] matches Seg::Mark(m) ==> is_mark(m)) by {
        if k < a.len() {
            assert(ab[k] == a[k]);
        } else {
            assert(ab[k] == b[k - a.len()]);
        }
    }
    assert forall|k: int|
        0 <= k < ab.len() implies (#[trigger] ab[k] matches Seg::Text { ins, .. } ==> ins == plain_open_at(
            ab,
            k,
            open0,
        )) by {
        if k < a.len() {
            assert(ab[k] == a[k]);
            lemma_plain_open_prefix(a, b, k, open0);
        } else {
            assert(ab[k] == b[k - a.len()]);
            lemma_plain_open_concat(a, b, k - a.len(), open0);
        }
    }
    assert forall|k: int, t: int|
        0 <= k < ab.len() && (#[trigger] ab[k] matches Seg::Text { from, to, ins, .. } && ins && from <= t < to)
            implies 0 <= t < ks.len() && ((#[trigger] ks[t]).tag == SimplifiedDiffTag::Insert
            || in_replacing_element(ks, gs, t)) by {
        if k < a.len() {
            assert(ab[k] == a[k]);
            assert(a[k] matches Seg::Text { from, to, ins, .. } && ins && from <= t < to);
        } else {
            assert(ab[k] == b[k - a.len()]);
            assert(b[k - a.len()] matches Seg::Text { from, to, ins, .. } && ins && from <= t < to);
        }
    }
    assert forall|t: int| in_ins(a, t) || in_ins(b, t) implies #[trigger] in_ins(ab, t) by {
        if in_ins(a, t) {
            let k = choose|k: int| 0 <= k < a.len() && (#[trigger] a[k] matches Seg::Text { from, to, ins, .. } && ins && from <= t < to);
            assert(ab[k] == a[k]);
        } else {
            let k = choose|k: int| 0 <= k < b.len() && (#[trigger] b[k] matches Seg::Text { from, to, ins, .. } && ins && from <= t < to);
            assert(ab[k + a.len()] == b[k]);
        }
    }
}

proof fn lemma_mark_part(m: Seq<char>, o: bool)
    requires
        is_mark(m),
    ensures
        marks_ok(seq![Seg::Mark(m)]),
        forall|o2: bool| ins_consistent(seq![Seg::Mark(m)], o2),
        forall|ks: Seq<DiffTokenView>, gs: Seq<Seq<KindView>>| only_new_in_ins(ks, gs, seq![Seg::Mark(m)]),
        forall|t: int| !in_ins(seq![Seg::Mark(m)], t),
        flat(seq![Seg::Mark(m)]) == m,
        text_of(seq![Seg::Mark(m)]) == Seq::<char>::empty(),
        plain_open_at(seq![Seg::Mark(m)], 1, o) == (m == "<ins>"@),
{
    lemma_flat_one(Seg::Mark(m));
    assert(seq![Seg::Mark(m)][0] == Seg::Mark(m));
}

proof fn lemma_no_parts(o: bool)
    ensures
        marks_ok(Seq::<Seg>::empty()),
        ins_consistent(Seq::<Seg>::empty(), o),
        forall|ks: Seq<DiffTokenView>, gs: Seq<Seq<KindView>>| only_new_in_ins(ks, gs, Seq::<Seg>::empty()),
        forall|t: int| !in_ins(Seq::<Seg>::empty(), t),
        flat(Seq::<Seg>::empty()) == Seq::<char>::empty(),
        text_of(Seq::<Seg>::empty()) == Seq::<char>::empty(),
        plain_open_at(Seq::<Seg>::empty(), 0, o) == o,
{
}

proof fn lemma_closing_parts(open: bool)
    ensures
        marks_ok(closing_segs(open)),
        ins_consistent(closing_segs(open), open),
        forall|ks: Seq<DiffTokenView>, gs: Seq<Seq<KindView>>| only_new_in_ins(ks, gs, closing_segs(open)),
        forall|t: int| !in_ins(closing_segs(open), t),
        flat(closing_segs(open)) == (if open {
            "</ins>"@
        } else {
            Seq::<char>::empty()
        }),
        text_of(closing_segs(open)) == Seq::<char>::empty(),
        !plain_open_at(closing_segs(open), closing_segs(open).len() as int, open),
{
    reveal_strlit("</ins>");
    reveal_strlit("<ins>");
    if open {
        lemma_mark_part("</ins>"@, open);
    } else {
        lemma_no_parts(open);
    }
}

proof fn lemma_switch_parts(marked: bool, open: bool)
    ensures
        marks_ok(switch_segs(marked, open)),
        ins_consistent(switch_segs(marked, open), open),
        forall|ks: Seq<DiffTokenView>, gs: Seq<Seq<KindView>>| only_new_in_ins(ks, gs, switch_segs(marked, open)),
        forall|t: int| !in_ins(switch_segs(marked, open), t),
        flat(switch_segs(marked, open)) == switch(marked, open),
        text_of(switch_segs(marked, open)) == Seq::<char>::empty(),
        plain_open_at(switch_segs(marked, open), switch_segs(marked, open).len() as int, open) == marked,
{
    reveal_strlit("</ins>");
    reveal_strlit("<ins>");
    if marked && !open {
        lemma_mark_part("<ins>"@, open);
    } else if !marked && open {
        lemma_mark_part("</ins>"@, open);
    } else {
        lemma_no_parts(open);
    }
}

proof fn lemma_text_part(text: Seq<char>, from: int, to: int, ins: bool)
    ensures
        marks_ok(seq![Seg::Text { text, from, to, ins }]),
        ins_consistent(seq![Seg::Text { text, from, to, ins }], ins),
        flat(seq![Seg::Text { text, from, to, ins }]) == text,
        text_of(seq![Seg::Text { text, from, to, ins }]) == text,
        plain_open_at(seq![Seg::Text { text, from, to, ins }], 1, ins) == ins,
        forall|t: int| ins && from <= t < to ==> #[trigger] in_ins(seq![Seg::Text { text, from, to, ins }], t),
{
    let x = Seg::Text { text, from, to, ins };
    lemma_flat_one(x);
    assert(seq![x][0] == x);
    assert(plain_open_at(seq![x], 0, ins) == ins);
}

proof fn lemma_classed_parts(ts: Seq<TokenView>, src: Seq<char>, k: int, wrapper: bool)
    requires
        0 <= k < ts.len(),
    ensures
        marks_ok(classed_segs(ts, src, k, wrapper)),
        ins_consistent(classed_segs(ts, src, k, wrapper), false),
        forall|ks: Seq<DiffTokenView>, gs: Seq<Seq<KindView>>| only_new_in_ins(ks, gs, classed_segs(ts, src, k, wrapper)),
        forall|t: int| !in_ins(classed_segs(ts, src, k, wrapper), t),
        flat(classed_segs(ts, src, k, wrapper)) == classed_piece(ts, src, k, wrapper),
        text_of(classed_segs(ts, src, k, wrapper)) == piece(ts, src, k),
        !plain_open_at(classed_segs(ts, src, k, wrapper), classed_segs(ts, src, k, wrapper).len() as int, false),
{
    reveal_strlit("<ins>");
    reveal_strlit(" class=\"-wrapper\"");
    reveal_strlit(" class=\"-content-changed\"");
    reveal_strlit(" -wrapper");
    reveal_strlit(" -content-changed");
    let cs = classed_segs(ts, src, k, wrapper);
    if class_split(ts, src, k) {
        let p = class_point(ts, src, k);
        let e = piece_end(ts, src, k);
        let x = Seg::Text { text: source_slice(src, ts[k].start as int, p), from: k, to: k + 1, ins: false };
        let y = Seg::Mark(class_text(wrapper, has_class_list(ts, src, k)));
        let z = Seg::Text { text: source_slice(src, p, e), from: k, to: k + 1, ins: false };
        assert(cs =~= seq![x] + seq![y] + seq![z]);
        lemma_text_part(source_slice(src, ts[k].start as int, p), k, k + 1, false);
        lemma_mark_part(class_text(wrapper, has_class_list(ts, src, k)), false);
        lemma_text_part(source_slice(src, p, e), k, k + 1, false);
        lemma_parts_concat(Seq::<DiffTokenView>::empty(), Seq::<Seq<KindView>>::empty(), seq![x], seq![y], false);
        assert forall|ks: Seq<DiffTokenView>, gs: Seq<Seq<KindView>>| only_new_in_ins(ks, gs, seq![x]) && only_new_in_ins(ks, gs, seq![z]) by {
            assert(seq![x][0] == x);
            assert(seq![z][0] == z);
        }
        assert forall|ks: Seq<DiffTokenView>, gs: Seq<Seq<KindView>>| only_new_in_ins(ks, gs, cs) by {
            lemma_parts_concat(ks, gs, seq![x], seq![y], false);
            lemma_parts_concat(ks, gs, seq![x] + seq![y], seq![z], false);
        }
        lemma_parts_concat(Seq::<DiffTokenView>::empty(), Seq::<Seq<KindView>>::empty(), seq![x] + seq![y], seq![z], false);
        assert forall|t: int| !in_ins(cs, t) by {
            if in_ins(cs, t) {
                let j = choose|j: int| 0 <= j < cs.len() && (#[trigger] cs[j] matches Seg::Text { from, to, ins, .. } && ins && from <= t < to);
                assert(cs[0] == x && cs[1] == y && cs[2] == z);
            }
        }
        let bytes = vstd::utf8::encode_utf8(src);
        lemma_slice_concat(src, ts[k].start as int, p, e);
    } else {
        let x = Seg::Text { text: piece(ts, src, k), from: k, to: k + 1, ins: false };
        lemma_text_part(piece(ts, src, k), k, k + 1, false);
        assert forall|ks: Seq<DiffTokenView>, gs: Seq<Seq<KindView>>| only_new_in_ins(ks, gs, cs) by {
            assert(cs[0] == x);
        }
        assert forall|t: int| !in_ins(cs, t) by {
            assert(cs[0] == x);
        }
    }
}

/// What holds of the parts of the output from token `i` on, besides that
/// they write it.
pub open spec fn parts_hold(
    ks: Seq<DiffTokenView>,
    gs: Seq<Seq<KindView>>,
    src: Seq<char>,
    i: int,
    open: bool,
    ss: Seq<Seg>,
) -> bool {
    &&& text_of(ss) == texts(toks(ks), src, i, ks.len() as int)
    &&& marks_ok(ss)
    &&& ins_consistent(ss, open)
    &&& only_new_in_ins(ks, gs, ss)
    &&& forall|t: int| i <= t < ks.len() && new_text(ks, t) ==> #[trigger] in_ins(ss, t)
}

proof fn lemma_unit_element(ks: Seq<DiffTokenView>, gs: Seq<Seq<KindView>>, i: int)
    requires
        0 <= i < ks.len(),
        gs.len() > ks.len(),
        changed_at(ks, gs, i) is None,
        wrapped_at(ks, gs, i) is None,
        unit_at(ks, i).1,
        unit_at(ks, i).0 > i + 1,
    ensures
        forall|t: int|
            i <= t < unit_at(ks, i).0 ==> (#[trigger] ks[t]).tag == SimplifiedDiffTag::Insert
                || in_replacing_element(ks, gs, t),
{
    let e = unit_at(ks, i).0;
    let m = e - 1;
    match ks[i].token.kind {
        KindView::StartTag { name, .. } => {
            lemma_matching_end_range(ks, name, i + 1, 0);
            assert(matching_end_from(ks, name, i + 1, 0) == Some(m));
            assert(ks[m].tag == SimplifiedDiffTag::Insert);
            assert(gs[i].len() > 0 || all_inserted(ks, i + 1, m));
            assert forall|t: int| i <= t < e implies (#[trigger] ks[t]).tag == SimplifiedDiffTag::Insert
                || in_replacing_element(ks, gs, t) by {
                if i < t < m && gs[i].len() > 0 {
                    assert(ks[i] == ks[i] && ks[m] == ks[m]);
                }
            }
        },
        _ => {},
    }
}

proof fn lemma_segs_close_step(
    ks: Seq<DiffTokenView>,
    gs: Seq<Seq<KindView>>,
    src: Seq<char>,
    i: int,
    open: bool,
    until: Option<int>,
)
    requires
        0 <= i <= ks.len(),
        until matches Some(u) && (i >= u || i >= ks.len()),
        render_from(ks, gs, src, i, false, None) == flat(render_segs(ks, gs, src, i, false, None)),
        parts_hold(ks, gs, src, i, false, render_segs(ks, gs, src, i, false, None)),
    ensures
        render_from(ks, gs, src, i, open, until) == flat(render_segs(ks, gs, src, i, open, until)),
        parts_hold(ks, gs, src, i, open, render_segs(ks, gs, src, i, open, until)),
{
    reveal_strlit("</ins>");
    reveal_strlit("<ins>");
    let segs = render_segs(ks, gs, src, i, open, until);
    lemma_closing_parts(open);
    let cl = closing_segs(open);
    assert(only_new_in_ins(ks, gs, cl));
    let rest = render_segs(ks, gs, src, i, false, None);
    let m = seq![Seg::Mark("</ins>"@)];
    lemma_mark_part("</ins>"@, false);
    assert(only_new_in_ins(ks, gs, m));
    assert(ins_consistent(m, false));
    lemma_parts_concat(ks, gs, cl, m, open);
    lemma_parts_concat(ks, gs, cl + m, rest, open);
    assert(segs == cl + m + rest);
    assert(text_of(cl + m) =~= Seq::<char>::empty());
    assert(text_of(cl + m + rest) =~= text_of(rest));
}

proof fn lemma_classed_unfold(
    ks: Seq<DiffTokenView>,
    gs: Seq<Seq<KindView>>,
    src: Seq<char>,
    i: int,
    open: bool,
    until: Option<int>,
    wrapper: bool,
    d: int,
)
    requires
        0 <= i < ks.len(),
        !(until matches Some(u) && (i >= u || i >= ks.len())),
        (if wrapper {
            changed_at(ks, gs, i) is None && wrapped_at(ks, gs, i) == Some(d)
        } else {
            changed_at(ks, gs, i) matches Some((d2, _)) && d2 == d
        }),
    ensures
        ({
            let moved = until is None && d > i + 1;
            let nu = if moved { Some(d) } else { until };
            let mv = if moved { seq![Seg::Mark("<ins class=\"-moved-into\">"@)] } else { Seq::<Seg>::empty() };
            let mvs = if moved { "<ins class=\"-moved-into\">"@ } else { Seq::<char>::empty() };
            let close = if open { "</ins>"@ } else { Seq::<char>::empty() };
            &&& render_segs(ks, gs, src, i, open, until) == closing_segs(open) + classed_segs(toks(ks), src, i, wrapper) + mv
                + render_segs(ks, gs, src, i + 1, false, nu)
            &&& render_from(ks, gs, src, i, open, until) == close + classed_piece(toks(ks), src, i, wrapper) + mvs
                + render_from(ks, gs, src, i + 1, false, nu)
            &&& ks[i].token.kind is StartTag
        }),
{
    let moved = until is None && d > i + 1;
    if moved {
    } else {
        assert(closing_segs(open) + classed_segs(toks(ks), src, i, wrapper) + Seq::<Seg>::empty()
            =~= closing_segs(open) + classed_segs(toks(ks), src, i, wrapper));
        let close = if open { "</ins>"@ } else { Seq::<char>::empty() };
        assert(close + classed_piece(toks(ks), src, i, wrapper) + Seq::<char>::empty()
            =~= close + classed_piece(toks(ks), src, i, wrapper));
    }
}

proof fn lemma_classed_parts_step(
    ks: Seq<DiffTokenView>,
    gs: Seq<Seq<KindView>>,
    src: Seq<char>,
    i: int,
    open: bool,
    wrapper: bool,
    moved: bool,
    rest: Seq<Seg>,
)
    requires
        0 <= i < ks.len(),
        ks[i].token.kind is StartTag,
        parts_hold(ks, gs, src, i + 1, false, rest),
    ensures
        ({
            let mv = if moved { seq![Seg::Mark("<ins class=\"-moved-into\">"@)] } else { Seq::<Seg>::empty() };
            let mvs = if moved { "<ins class=\"-moved-into\">"@ } else { Seq::<char>::empty() };
            let close = if open { "</ins>"@ } else { Seq::<char>::empty() };
            let all = closing_segs(open) + classed_segs(toks(ks), src, i, wrapper) + mv + rest;
            &&& parts_hold(ks, gs, src, i, open, all)
            &&& flat(all) == close + classed_piece(toks(ks), src, i, wrapper) + mvs + flat(rest)
        }),
{
    reveal_strlit("</ins>");
    reveal_strlit("<ins>");
    reveal_strlit("<ins class=\"-moved-into\">");
    let ts = toks(ks);
    lemma_closing_parts(open);
    let cl = closing_segs(open);
    assert(only_new_in_ins(ks, gs, cl));
    lemma_texts_split(ts, src, i, i + 1, ks.len() as int);
    assert(texts(ts, src, i, i) == Seq::<char>::empty());
    assert(texts(ts, src, i, i + 1) == texts(ts, src, i, i) + piece(ts, src, i));
    assert(Seq::<char>::empty() + piece(ts, src, i) =~= piece(ts, src, i));
    assert(!new_text(ks, i));
    lemma_classed_parts(ts, src, i, wrapper);
    let cs = classed_segs(ts, src, i, wrapper);
    assert(only_new_in_ins(ks, gs, cs));
    lemma_parts_concat(ks, gs, cl, cs, open);
    let head = cl + cs;
    let mv = if moved { seq![Seg::Mark("<ins class=\"-moved-into\">"@)] } else { Seq::<Seg>::empty() };
    if moved {
        lemma_mark_part("<ins class=\"-moved-into\">"@, false);
    } else {
        lemma_no_parts(false);
    }
    assert(only_new_in_ins(ks, gs, mv));
    assert(ins_consistent(mv, false));
    lemma_parts_concat(ks, gs, head, mv, open);
    lemma_parts_concat(ks, gs, head + mv, rest, open);
    assert(text_of(head + mv) =~= piece(ts, src, i));
    assert forall|t: int| i <= t < ks.len() && new_text(ks, t) implies #[trigger] in_ins(head + mv + rest, t) by {
        assert(t != i);
    }
}

#[verifier::rlimit(100)]
#[verifier::spinoff_prover]
proof fn lemma_segs_unit_step(
    ks: Seq<DiffTokenView>,
    gs: Seq<Seq<KindView>>,
    src: Seq<char>,
    i: int,
    open: bool,
    until: Option<int>,
)
    requires
        0 <= i < ks.len(),
        gs.len() > ks.len(),
        !(until matches Some(u) && (i >= u || i >= ks.len())),
        changed_at(ks, gs, i) is None,
        wrapped_at(ks, gs, i) is None,
        ({
            let starts_outof = until is None && outof_here(ks, gs, i) is Some;
            let open1 = if starts_outof { false } else { open };
            let until1 = if starts_outof { outof_here(ks, gs, i) } else { until };
            let e = unit_at(ks, i).0;
            let marked = unit_mark(ks, gs, i, open1);
            &&& render_from(ks, gs, src, e, marked, until1) == flat(render_segs(ks, gs, src, e, marked, until1))
            &&& parts_hold(ks, gs, src, e, marked, render_segs(ks, gs, src, e, marked, until1))
        }),
    ensures
        render_from(ks, gs, src, i, open, until) == flat(render_segs(ks, gs, src, i, open, until)),
        parts_hold(ks, gs, src, i, open, render_segs(ks, gs, src, i, open, until)),
{
    reveal_strlit("</ins>");
    reveal_strlit("<ins>");
    reveal_strlit("<ins class=\"-moved-outof\">");
    let ts = toks(ks);
    let segs = render_segs(ks, gs, src, i, open, until);
    lemma_closing_parts(open);
    let cl = closing_segs(open);
    assert(only_new_in_ins(ks, gs, cl));
    lemma_unit_range(ks, i);
    let starts_outof = until is None && outof_here(ks, gs, i) is Some;
    let opening = if starts_outof {
        cl + seq![Seg::Mark("<ins class=\"-moved-outof\">"@)]
    } else {
        Seq::<Seg>::empty()
    };
    let open1 = if starts_outof {
        false
    } else {
        open
    };
    let until1 = if starts_outof {
        outof_here(ks, gs, i)
    } else {
        until
    };
    let e = unit_at(ks, i).0;
    let marked = unit_mark(ks, gs, i, open1);
    if starts_outof {
        let m = seq![Seg::Mark("<ins class=\"-moved-outof\">"@)];
        lemma_mark_part("<ins class=\"-moved-outof\">"@, false);
        assert(only_new_in_ins(ks, gs, m));
        assert(ins_consistent(m, false));
        lemma_parts_concat(ks, gs, cl, m, open);
    } else {
        lemma_no_parts(open);
        assert(only_new_in_ins(ks, gs, opening));
    }
    assert(plain_open_at(opening, opening.len() as int, open) == open1);
    lemma_switch_parts(marked, open1);
    let sw = switch_segs(marked, open1);
    assert(only_new_in_ins(ks, gs, sw));
    lemma_parts_concat(ks, gs, opening, sw, open);
    let txt = seq![Seg::Text { text: texts(ts, src, i, e), from: i, to: e, ins: marked }];
    lemma_text_part(texts(ts, src, i, e), i, e, marked);
    assert(only_new_in_ins(ks, gs, txt)) by {
        assert(txt[0] == Seg::Text { text: texts(ts, src, i, e), from: i, to: e, ins: marked });
        if marked {
            if neutral(ks, i) {
                assert(e == i + 1);
            } else if e > i + 1 {
                lemma_unit_element(ks, gs, i);
            }
        }
    }
    lemma_parts_concat(ks, gs, opening + sw, txt, open);
    let rest = render_segs(ks, gs, src, e, marked, until1);
    lemma_parts_concat(ks, gs, opening + sw + txt, rest, open);
    assert(segs == opening + sw + txt + rest);
    lemma_texts_split(ts, src, i, e, ks.len() as int);
    assert(text_of(opening + sw + txt) =~= texts(ts, src, i, e));
    assert forall|t: int| i <= t < ks.len() && new_text(ks, t) implies #[trigger] in_ins(segs, t) by {
        if t < e {
            assert(!neutral(ks, i) || e == i + 1);
            if e == i + 1 {
                assert(t == i);
                assert(!neutral(ks, i));
            }
            assert(marked);
            assert(in_ins(txt, t));
        }
    }
    if starts_outof {
        assert(flat(opening) == (if open { "</ins>"@ } else { Seq::<char>::empty() }) + "<ins class=\"-moved-outof\">"@);
    }
}

proof fn lemma_render_segs(
    ks: Seq<DiffTokenView>,
    gs: Seq<Seq<KindView>>,
    src: Seq<char>,
    i: int,
    open: bool,
    until: Option<int>,
)
    requires
        0 <= i <= ks.len(),
        gs.len() > ks.len(),
    ensures
        render_from(ks, gs, src, i, open, until) == flat(render_segs(ks, gs, src, i, open, until)),
        parts_hold(ks, gs, src, i, open, render_segs(ks, gs, src, i, open, until)),
    decreases ks.len() - i, if until is Some { 1int } else { 0int },
{
    if until matches Some(u) && (i >= u || i >= ks.len()) {
        lemma_render_segs(ks, gs, src, i, false, None);
        lemma_segs_close_step(ks, gs, src, i, open, until);
    } else if i >= ks.len() {
        lemma_closing_parts(open);
        assert(texts(toks(ks), src, i, ks.len() as int) == Seq::<char>::empty());
    } else {
        match changed_at(ks, gs, i) {
            Some((d, _)) => {
                let nu = if until is None && d > i + 1 { Some(d) } else { until };
                lemma_render_segs(ks, gs, src, i + 1, false, nu);
                lemma_classed_unfold(ks, gs, src, i, open, until, false, d);
                lemma_classed_parts_step(ks, gs, src, i, open, false, until is None && d > i + 1,
                    render_segs(ks, gs, src, i + 1, false, nu));
            },
            None => match wrapped_at(ks, gs, i) {
                Some(d) => {
                    let nu = if until is None && d > i + 1 { Some(d) } else { until };
                    lemma_render_segs(ks, gs, src, i + 1, false, nu);
                    lemma_classed_unfold(ks, gs, src, i, open, until, true, d);
                    lemma_classed_parts_step(ks, gs, src, i, open, true, until is None && d > i + 1,
                        render_segs(ks, gs, src, i + 1, false, nu));
                },
                None => {
                    lemma_unit_range(ks, i);
                    let starts_outof = until is None && outof_here(ks, gs, i) is Some;
                    let open1 = if starts_outof { false } else { open };
                    let until1 = if starts_outof { outof_here(ks, gs, i) } else { until };
                    let e = unit_at(ks, i).0;
                    let marked = unit_mark(ks, gs, i, open1);
                    lemma_render_segs(ks, gs, src, e, marked, until1);
                    lemma_segs_unit_step(ks, gs, src, i, open, until);
                },
            },
        }
    }
}

/// The output is made of parts ([`highlight_segs`]), and of them holds:
/// they write the output; with the marks left out they are the new document
/// as its tokens cover it; every mark is one of the fixed list of
/// [`is_mark`]; a stretch of source stands inside a plain `<ins>` exactly
/// when it says so; such a stretch holds only new tokens; and every
/// inserted run of text that is not whitespace stands in such a stretch.
pub proof fn lemma_highlight_parts(src: Seq<char>, ds: Seq<DiffTokenView>)
    ensures
        highlighted(src, ds) == flat(highlight_segs(src, ds)),
        text_of(highlight_segs(src, ds)) == source_text(new_side(ds), src),
        marks_ok(highlight_segs(src, ds)),
        ins_consistent(highlight_segs(src, ds), false),
        only_new_in_ins(kept(ds), gaps(ds), highlight_segs(src, ds)),
        forall|t: int|
            0 <= t < kept(ds).len() && new_text(kept(ds), t) ==> #[trigger] in_ins(highlight_segs(src, ds), t),
{
    let ks = kept(ds);
    let gs = gaps(ds);
    lemma_gaps_len(ds);
    lemma_render_segs(ks, gaps(ds), src, 0, false, None);
    let rest = render_segs(ks, gaps(ds), src, 0, false, None);
    let ld = lead(toks(ks), src);
    let first = seq![Seg::Text { text: ld, from: 0, to: 0, ins: false }];
    lemma_text_part(ld, 0, 0, false);
    assert(only_new_in_ins(ks, gs, first)) by {
        assert(first[0] == Seg::Text { text: ld, from: 0, to: 0, ins: false });
    }
    lemma_parts_concat(ks, gs, first, rest, false);
    lemma_kept_toks(ds);
}

/// Highlights the changes in `new_html` against `old_html`: the documents
/// are tokenized and diffed, what is new is wrapped in `<ins>` tags, and
/// content moved into or out of a changed element is wrapped in
/// `<ins class="-moved-into">` or `<ins class="-moved-outof">`, the
/// element's start tag getting the class `-content-changed` (or `-wrapper`
/// for a new element around existing content; see [`render_from`]). The
/// output is made of marks from a fixed list and stretches of the new
/// document's source (see [`lemma_highlight_parts`]): the marks left out,
/// it is the new document as its tokens cover it; a stretch inside a plain
/// `<ins>` holds only new tokens, and every new run of text stands in one.
/// Where the two documents are equal nothing is marked,
/// and the output is the document itself when its tokens start in order on
/// char boundaries (see [`spans_in_order`]).
pub fn highlight_changes(old_html: &str, new_html: &str) -> (r: String)
    ensures
        r@ == highlighted(new_html@, merged_diff(old_html@, new_html@)),
        r@ == flat(highlight_segs(new_html@, merged_diff(old_html@, new_html@))),
        text_of(highlight_segs(new_html@, merged_diff(old_html@, new_html@))) == source_text(
            html_tokens(new_html@),
            new_html@,
        ),
        marks_ok(highlight_segs(new_html@, merged_diff(old_html@, new_html@))),
        ins_consistent(highlight_segs(new_html@, merged_diff(old_html@, new_html@)), false),
        only_new_in_ins(
            kept(merged_diff(old_html@, new_html@)),
            gaps(merged_diff(old_html@, new_html@)),
            highlight_segs(new_html@, merged_diff(old_html@, new_html@)),
        ),
        forall|t: int|
            0 <= t < kept(merged_diff(old_html@, new_html@)).len() && new_text(
                kept(merged_diff(old_html@, new_html@)),
                t,
            ) ==> #[trigger] in_ins(highlight_segs(new_html@, merged_diff(old_html@, new_html@)), t),
        old_html@ == new_html@ ==> r@ == source_text(html_tokens(new_html@), new_html@),
        old_html@ == new_html@ && spans_in_order(html_tokens(new_html@), new_html@) ==> r@
            == new_html@,
{
    let diff = diff_tokens_from_source(old_html, new_html);
    proof {
        lemma_highlight_parts(new_html@, diff_views(diff@));
        if old_html@ == new_html@ {
            lemma_no_insert_no_marks(new_html@, diff_views(diff@));
            if spans_in_order(html_tokens(new_html@), new_html@) {
                lemma_source_text_whole(html_tokens(new_html@), new_html@);
            }
        }
    }
    highlight_from_diff(new_html, &diff)
}

} // verus!
