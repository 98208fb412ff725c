//! Normalisation of inline `style` declarations.
//!
//! A style value is cut into rules at every separator made of optional
//! whitespace, one or more `;` and optional whitespace (leftmost first, as the
//! pattern `\s*;+\s*` finds them); in each rule the first
//! `name ws* : ws* value` is rewritten to `name:value`, where the name is a
//! run of ASCII letters, digits, `_` and `-` and the value runs to the end of
//! the line (the pattern `([a-zA-Z0-9_-]+)\s*:\s*(.+)` replaced by `$1:$2`).

use vstd::prelude::*;

use crate::text::{join, sort_words, sorted_words, trim, trim_ws, unicode_white_space, views, join_with, words_ascending};

verus! {

/// The first index at or after `i` that is the end of `s` or holds a
/// non-whitespace char.
pub open spec fn ws_run_end(s: Seq<char>, i: int) -> int
    decreases s.len() - i,
{
    if i < 0 || i >= s.len() || !unicode_white_space(s[i]) {
        i
    } else {
        ws_run_end(s, i + 1)
    }
}

/// The first index at or after `i` that is the end of `s` or holds no `;`.
pub open spec fn semi_run_end(s: Seq<char>, i: int) -> int
    decreases s.len() - i,
{
    if i < 0 || i >= s.len() || s[i] != ';' {
        i
    } else {
        semi_run_end(s, i + 1)
    }
}

/// Whether a separator (`ws* ;+ ws*`) starts at `i`.
pub open spec fn sep_at(s: Seq<char>, i: int) -> bool {
    let j = ws_run_end(s, i);
    0 <= i && j < s.len() && s[j] == ';'
}

/// Where the separator that starts at `i` ends.
pub open spec fn sep_end(s: Seq<char>, i: int) -> int {
    ws_run_end(s, semi_run_end(s, ws_run_end(s, i)))
}

/// The leftmost start of a separator at or after `p`.
pub open spec fn next_sep(s: Seq<char>, p: int) -> Option<int>
    decreases s.len() - p,
{
    if p < 0 || p >= s.len() {
        None
    } else if sep_at(s, p) {
        Some(p)
    } else {
        next_sep(s, p + 1)
    }
}

/// The pieces of `s` from `p` on, cut at each separator.
pub open spec fn style_pieces(s: Seq<char>, p: int) -> Seq<Seq<char>>
    decreases s.len() - p,
{
    if p < 0 || p > s.len() {
        Seq::empty()
    } else {
        match next_sep(s, p) {
            Some(i) => if p <= i < sep_end(s, i) <= s.len() {
                seq![s.subrange(p, i)] + style_pieces(s, sep_end(s, i))
            } else {
                Seq::empty()
            },
            None => seq![s.subrange(p, s.len() as int)],
        }
    }
}

/// A char of a declaration name: an ASCII letter or digit, `_` or `-`.
pub open spec fn is_name_char(c: char) -> bool {
    ('a' <= c && c <= 'z') || ('A' <= c && c <= 'Z') || ('0' <= c && c <= '9') || c == '_'
        || c == '-'
}

/// The first index at or after `i` that is the end of `s` or holds no name char.
pub open spec fn name_run_end(s: Seq<char>, i: int) -> int
    decreases s.len() - i,
{
    if i < 0 || i >= s.len() || !is_name_char(s[i]) {
        i
    } else {
        name_run_end(s, i + 1)
    }
}

/// The first index at or after `i` that is the end of `s` or holds a line feed.
pub open spec fn line_end(s: Seq<char>, i: int) -> int
    decreases s.len() - i,
{
    if i < 0 || i >= s.len() || s[i] == '\n' {
        i
    } else {
        line_end(s, i + 1)
    }
}

/// The greatest index in `lo..=q` that holds a char other than a line feed.
pub open spec fn value_start(s: Seq<char>, lo: int, q: int) -> Option<int>
    decreases q - lo,
{
    if q < lo {
        None
    } else if 0 <= q < s.len() && s[q] != '\n' {
        Some(q)
    } else if q == lo {
        None
    } else {
        value_start(s, lo, q - 1)
    }
}

/// The declaration that starts at `i`, if one does: the end of its name, and
/// the start and end of its value.
pub open spec fn decl_at(s: Seq<char>, i: int) -> Option<(int, int, int)> {
    let e1 = name_run_end(s, i);
    let w1 = ws_run_end(s, e1);
    if !(0 <= i < s.len() && is_name_char(s[i])) || !(w1 < s.len() && s[w1] == ':') {
        None
    } else {
        match value_start(s, w1 + 1, ws_run_end(s, w1 + 1)) {
            Some(q) => Some((e1, q, line_end(s, q))),
            None => None,
        }
    }
}

/// The leftmost declaration at or after `i`: its start, the end of its
/// name, and the start and end of its value.
pub open spec fn first_decl(s: Seq<char>, i: int) -> Option<(int, int, int, int)>
    decreases s.len() - i,
{
    if i < 0 || i >= s.len() {
        None
    } else {
        match decl_at(s, i) {
            Some((e1, q, e2)) => Some((i, e1, q, e2)),
            None => first_decl(s, i + 1),
        }
    }
}

/// `rule` with its first declaration written as `name:value`.
pub open spec fn tidy_rule(rule: Seq<char>) -> Seq<char> {
    match first_decl(rule, 0) {
        Some((i, e1, q, e2)) => rule.subrange(0, e1) + seq![':'] + rule.subrange(q, e2)
            + rule.subrange(e2, rule.len() as int),
        None => rule,
    }
}

/// Each rule tidied.
pub open spec fn tidy_all(rules: Seq<Seq<char>>) -> Seq<Seq<char>> {
    rules.map_values(|r: Seq<char>| tidy_rule(r))
}

/// The normal form of a `style` value: its rules tidied, sorted, joined with
/// single spaces and trimmed.
pub open spec fn normalized_style(v: Seq<char>) -> Seq<char> {
    trim_ws(join_with(sorted_words(tidy_all(style_pieces(v, 0))), seq![' ']))
}


/// No rule is lost or added: the normal form of a `style` value is its
/// tidied rules, each as often as it occurs, in ascending order, joined
/// with single spaces, with the whitespace at both ends trimmed.
pub proof fn lemma_style_rules_kept(v: Seq<char>)
    ensures
        exists|l: Seq<Seq<char>>|
            #![trigger join_with(l, seq![' '])]
            l.to_multiset() == tidy_all(style_pieces(v, 0)).to_multiset() && words_ascending(l)
                && normalized_style(v) == trim_ws(join_with(l, seq![' '])),
{
    crate::text::lemma_sorted_words_permutation(tidy_all(style_pieces(v, 0)));
    let l = sorted_words(tidy_all(style_pieces(v, 0)));
    assert(normalized_style(v) == trim_ws(join_with(l, seq![' '])));
}

/// The order of style rules does not matter: two `style` values whose
/// tidied rules are the same, counted with repeats, normalise alike.
pub proof fn lemma_style_order_irrelevant(a: Seq<char>, b: Seq<char>)
    requires
        tidy_all(style_pieces(a, 0)).to_multiset() == tidy_all(style_pieces(b, 0)).to_multiset(),
    ensures
        normalized_style(a) == normalized_style(b),
{
    crate::text::lemma_sorted_words_same_multiset(
        tidy_all(style_pieces(a, 0)),
        tidy_all(style_pieces(b, 0)),
    );
}

/// Cuts `text` at the matches of `pattern` with `regex::Regex::split`, the
/// pattern compiled by `Regex::new`. For the separator pattern `\s*;+\s*`,
/// which compiles, the pieces are the ones `style_pieces` describes: the
/// text between leftmost-first, longest matches, an empty piece included
/// where the text starts or ends with a separator (`\s` is the Unicode
/// `White_Space` class).
#[verifier::external_body]
fn regex_split(pattern: &str, text: &str) -> (r: Vec<String>)
    requires
        pattern@ == "\\s*;+\\s*"@,
    ensures
        views(r@) == style_pieces(text@, 0),
{
    regex::Regex::new(pattern).unwrap().split(text).map(|piece| piece.to_owned()).collect()
}

/// Replaces the first match of `pattern` in `text` by `rep` with
/// `regex::Regex::replace`, the pattern compiled by `Regex::new`. For the
/// declaration pattern `([a-zA-Z0-9_-]+)\s*:\s*(.+)` and the replacement
/// `$1:$2` the result is the one `tidy_rule` describes: the leftmost match
/// is found at the first name that a colon follows after optional
/// whitespace, the name run taken whole and the value running to the end of
/// the line, and the text around the match is kept.
#[verifier::external_body]
fn regex_replace(pattern: &str, text: &str, rep: &str) -> (r: String)
    requires
        pattern@ == "([a-zA-Z0-9_-]+)\\s*:\\s*(.+)"@,
        rep@ == "$1:$2"@,
    ensures
        r@ == tidy_rule(text@),
{
    regex::Regex::new(pattern).unwrap().replace(text, rep).into_owned()
}

/// Writes the first declaration of `rule` as `name:value`.
pub fn tidy(rule: &str) -> (r: String)
    ensures
        r@ == tidy_rule(rule@),
{
    regex_replace("([a-zA-Z0-9_-]+)\\s*:\\s*(.+)", rule, "$1:$2")
}

/// The rules of a `style` value, each tidied.
pub fn tidied_rules(v: &str) -> (r: Vec<String>)
    ensures
        views(r@) == tidy_all(style_pieces(v@, 0)),
{
    let pieces = regex_split("\\s*;+\\s*", v);
    let mut r: Vec<String> = Vec::new();
    let mut k: usize = 0;
    while k < pieces.len()
        invariant
            k <= pieces.len(),
            views(pieces@) == style_pieces(v@, 0),
            views(r@) == tidy_all(views(pieces@).take(k as int)),
        decreases pieces.len() - k,
    {
        let t = tidy(pieces[k].as_str());
        proof {
            assert(views(pieces@)[k as int] == pieces@[k as int]@);
            assert(views(pieces@).take(k + 1) == views(pieces@).take(k as int).push(pieces@[k as int]@));
            assert(views(r@.push(t)) == views(r@).push(t@));
        }
        r.push(t);
        k = k + 1;
        assert(views(r@) =~= tidy_all(views(pieces@).take(k as int)));
    }
    assert(views(pieces@).take(pieces.len() as int) =~= views(pieces@));
    r
}

/// The normal form of a `style` attribute value.
pub fn normalize_style(v: &str) -> (r: String)
    ensures
        r@ == normalized_style(v@),
        exists|l: Seq<Seq<char>>|
            #![trigger join_with(l, seq![' '])]
            l.to_multiset() == tidy_all(style_pieces(v@, 0)).to_multiset() && words_ascending(l) && r@
                == trim_ws(join_with(l, seq![' '])),
{
    proof {
        lemma_style_rules_kept(v@);
    }
    let rules = tidied_rules(v);
    let sorted = sort_words(rules);
    let joined = join(&sorted, " ");
    proof {
        reveal_strlit(" ");
        assert(" "@ =~= seq![' ']);
    }
    trim(joined.as_str())
}

} // verus!
