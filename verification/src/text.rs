//! Character and string helpers with their specifications.

use vstd::prelude::*;

verus! {

/// Whether `c` has the Unicode `White_Space` property: the ASCII controls
/// TAB, LF, VT, FF and CR, SPACE, NEL, NO-BREAK SPACE, OGHAM SPACE MARK,
/// the spaces U+2000 to U+200A, LINE SEPARATOR, PARAGRAPH SEPARATOR,
/// NARROW NO-BREAK SPACE, MEDIUM MATHEMATICAL SPACE and IDEOGRAPHIC SPACE.
pub open spec fn unicode_white_space(c: char) -> bool {
    let n = c as u32;
    ||| 0x09 <= n <= 0x0d
    ||| n == 0x20
    ||| n == 0x85
    ||| n == 0xa0
    ||| n == 0x1680
    ||| 0x2000 <= n <= 0x200a
    ||| n == 0x2028
    ||| n == 0x2029
    ||| n == 0x202f
    ||| n == 0x205f
    ||| n == 0x3000
}

/// Whether `c` is whitespace, in the sense of `char::is_whitespace`.
pub fn is_whitespace(c: char) -> (r: bool)
    ensures
        r == unicode_white_space(c),
{
    let n: u32 = c as u32;
    (0x09 <= n && n <= 0x0d) || n == 0x20 || n == 0x85 || n == 0xa0 || n == 0x1680
        || (0x2000 <= n && n <= 0x200a) || n == 0x2028 || n == 0x2029 || n == 0x202f
        || n == 0x205f || n == 0x3000
}

/// Calls `String::push`, which appends one char.
#[verifier::external_body]
pub(crate) fn push_char(s: &mut String, c: char)
    ensures
        final(s)@ == old(s)@.push(c),
{
    s.push(c)
}

/// The chars of `s`, in order.
pub fn chars_of(s: &str) -> (r: Vec<char>)
    ensures
        r@ == s@,
{
    let mut r: Vec<char> = Vec::new();
    for c in it: s.chars()
        invariant
            r@ == it.seq().take(it.index() as int),
    {
        r.push(c);
    }
    r
}


/// A `String` holding exactly the chars of `cs`.
pub fn string_of(cs: &Vec<char>) -> (r: String)
    ensures
        r@ == cs@,
{
    let mut r = String::new();
    let mut i: usize = 0;
    while i < cs.len()
        invariant
            i <= cs.len(),
            r@ == cs@.take(i as int),
        decreases cs.len() - i,
    {
        push_char(&mut r, cs[i]);
        i = i + 1;
        assert(cs@.take(i as int) == cs@.take(i - 1).push(cs@[i - 1]));
    }
    assert(cs@.take(cs.len() as int) == cs@);
    r
}

/// Lexicographic order on char sequences by code point, the order in which
/// `str` compares (byte-wise UTF-8 order agrees with code point order).
pub open spec fn lex_le(a: Seq<char>, b: Seq<char>) -> bool
    decreases a.len(),
{
    if a.len() == 0 {
        true
    } else if b.len() == 0 {
        false
    } else if a[0] != b[0] {
        (a[0] as u32) < (b[0] as u32)
    } else {
        lex_le(a.drop_first(), b.drop_first())
    }
}

/// `lex_le` as a relation value.
pub open spec fn lex_order() -> spec_fn(Seq<char>, Seq<char>) -> bool {
    |a: Seq<char>, b: Seq<char>| lex_le(a, b)
}

proof fn lemma_lex_reflexive(a: Seq<char>)
    ensures
        lex_le(a, a),
    decreases a.len(),
{
    if a.len() > 0 {
        lemma_lex_reflexive(a.drop_first());
    }
}

proof fn lemma_lex_antisymmetric(a: Seq<char>, b: Seq<char>)
    requires
        lex_le(a, b),
        lex_le(b, a),
    ensures
        a == b,
    decreases a.len(),
{
    if a.len() == 0 {
        assert(b.len() == 0);
        assert(a =~= b);
    } else {
        assert(b.len() > 0);
        if a[0] == b[0] {
            lemma_lex_antisymmetric(a.drop_first(), b.drop_first());
            assert(a =~= seq![a[0]] + a.drop_first());
            assert(b =~= seq![b[0]] + b.drop_first());
        } else {
            assert((a[0] as u32) != (b[0] as u32));
        }
    }
}

proof fn lemma_lex_transitive(a: Seq<char>, b: Seq<char>, c: Seq<char>)
    requires
        lex_le(a, b),
        lex_le(b, c),
    ensures
        lex_le(a, c),
    decreases a.len(),
{
    if a.len() > 0 {
        assert(b.len() > 0);
        assert(c.len() > 0);
        if a[0] == b[0] && b[0] == c[0] {
            lemma_lex_transitive(a.drop_first(), b.drop_first(), c.drop_first());
        } else if a[0] != c[0] {
            assert((a[0] as u32) <= (b[0] as u32));
            assert((b[0] as u32) <= (c[0] as u32));
            assert((a[0] as u32) != (c[0] as u32)) by {
                vstd::utf8::char_u32_cast(a[0], a[0] as u32);
                vstd::utf8::char_u32_cast(c[0], c[0] as u32);
            }
        } else {
            assert((a[0] as u32) <= (b[0] as u32));
            assert((b[0] as u32) <= (c[0] as u32));
            assert((a[0] as u32) == (b[0] as u32));
            vstd::utf8::char_u32_cast(a[0], a[0] as u32);
            vstd::utf8::char_u32_cast(b[0], b[0] as u32);
        }
    }
}

proof fn lemma_lex_total(a: Seq<char>, b: Seq<char>)
    ensures
        lex_le(a, b) || lex_le(b, a),
    decreases a.len(),
{
    if a.len() > 0 && b.len() > 0 {
        if a[0] == b[0] {
            lemma_lex_total(a.drop_first(), b.drop_first());
        } else {
            vstd::utf8::char_u32_cast(a[0], a[0] as u32);
            vstd::utf8::char_u32_cast(b[0], b[0] as u32);
        }
    }
}

/// `lex_le` is a total order.
pub proof fn lemma_lex_total_ordering()
    ensures
        vstd::relations::total_ordering(lex_order()),
{
    assert forall|a: Seq<char>| #[trigger] lex_order()(a, a) by {
        lemma_lex_reflexive(a);
    }
    assert forall|a: Seq<char>, b: Seq<char>|
        #[trigger] lex_order()(a, b) && #[trigger] lex_order()(b, a) implies a == b by {
        lemma_lex_antisymmetric(a, b);
    }
    assert forall|a: Seq<char>, b: Seq<char>, c: Seq<char>|
        #[trigger] lex_order()(a, b) && #[trigger] lex_order()(b, c) implies lex_order()(a, c) by {
        lemma_lex_transitive(a, b, c);
    }
    assert forall|a: Seq<char>, b: Seq<char>|
        #[trigger] lex_order()(a, b) || #[trigger] lex_order()(b, a) by {
        lemma_lex_total(a, b);
    }
}

/// The views of a sequence of strings.
pub open spec fn views(ws: Seq<String>) -> Seq<Seq<char>> {
    ws.map_values(|w: String| w@)
}

/// The words of `ws` in ascending `lex_le` order (a sorted permutation).
pub open spec fn sorted_words(ws: Seq<Seq<char>>) -> Seq<Seq<char>> {
    ws.sort_by(lex_order())
}

/// Sorting depends on the words alone, not on their order: two lists with
/// the same words, counted with repeats, sort to the same list.
pub proof fn lemma_sorted_words_same_multiset(a: Seq<Seq<char>>, b: Seq<Seq<char>>)
    requires
        a.to_multiset() == b.to_multiset(),
    ensures
        sorted_words(a) == sorted_words(b),
{
    lemma_lex_total_ordering();
    a.lemma_sort_by_ensures(lex_order());
    b.lemma_sort_by_ensures(lex_order());
    vstd::seq_lib::lemma_sorted_unique(a.sort_by(lex_order()), b.sort_by(lex_order()), lex_order());
}

/// Whether the words of `l` ascend in `lex_le` order.
pub open spec fn words_ascending(l: Seq<Seq<char>>) -> bool {
    forall|i: int, j: int| 0 <= i < j < l.len() ==> lex_le(#[trigger] l[i], #[trigger] l[j])
}

/// Sorting keeps every word and puts them in order: `sorted_words(ws)`
/// holds the words of `ws`, counted with repeats, ascending.
pub proof fn lemma_sorted_words_permutation(ws: Seq<Seq<char>>)
    ensures
        sorted_words(ws).to_multiset() == ws.to_multiset(),
        words_ascending(sorted_words(ws)),
{
    lemma_lex_total_ordering();
    ws.lemma_sort_by_ensures(lex_order());
    let l = sorted_words(ws);
    assert forall|i: int, j: int| 0 <= i < j < l.len() implies lex_le(#[trigger] l[i], #[trigger] l[j]) by {
        assert(lex_order()(l[i], l[j]));
    }
}

/// Calls `itertools::Itertools::sorted`, which sorts the items in ascending
/// order of `String`'s `Ord`, i.e. lexicographically: the result holds the
/// same strings and is ordered by `lex_le`.
#[verifier::external_body]
fn itertools_sorted(words: Vec<String>) -> (r: Vec<String>)
    ensures
        views(r@).to_multiset() == views(words@).to_multiset(),
        vstd::relations::sorted_by(views(r@), lex_order()),
{
    itertools::Itertools::sorted(words.into_iter()).collect()
}

/// Sorts `words` in ascending order.
pub fn sort_words(words: Vec<String>) -> (r: Vec<String>)
    ensures
        views(r@) == sorted_words(views(words@)),
{
    let ghost before = views(words@);
    let r = itertools_sorted(words);
    proof {
        lemma_lex_total_ordering();
        before.lemma_sort_by_ensures(lex_order());
        vstd::seq_lib::lemma_sorted_unique(views(r@), before.sort_by(lex_order()), lex_order());
    }
    r
}

/// The words of `ws` joined with `sep` between each two.
pub open spec fn join_with(ws: Seq<Seq<char>>, sep: Seq<char>) -> Seq<char>
    decreases ws.len(),
{
    if ws.len() == 0 {
        Seq::empty()
    } else if ws.len() == 1 {
        ws[0]
    } else {
        join_with(ws.drop_last(), sep) + sep + ws.last()
    }
}

/// Joins `words` with `sep`.
pub fn join(words: &Vec<String>, sep: &str) -> (r: String)
    ensures
        r@ == join_with(views(words@), sep@),
{
    let mut r = String::new();
    let mut i: usize = 0;
    while i < words.len()
        invariant
            i <= words.len(),
            r@ == join_with(views(words@).take(i as int), sep@),
        decreases words.len() - i,
    {
        if i > 0 {
            r.append(sep);
        }
        r.append(words[i].as_str());
        i = i + 1;
        assert(views(words@).take(i as int).drop_last() == views(words@).take(i - 1));
    }
    assert(views(words@).take(words.len() as int) == views(words@));
    r
}


/// The chars that `str::split_ascii_whitespace` splits at: space, tab, line
/// feed, form feed and carriage return.
pub open spec fn is_ascii_ws(c: char) -> bool {
    c == ' ' || c == '\t' || c == '\n' || c == '\x0C' || c == '\r'
}

/// The words read so far from `s` and the word still being read.
pub open spec fn ascii_words_state(s: Seq<char>) -> (Seq<Seq<char>>, Seq<char>)
    decreases s.len(),
{
    if s.len() == 0 {
        (Seq::empty(), Seq::empty())
    } else {
        let (ws, cur) = ascii_words_state(s.drop_last());
        if is_ascii_ws(s.last()) {
            if cur.len() > 0 {
                (ws.push(cur), Seq::empty())
            } else {
                (ws, Seq::empty())
            }
        } else {
            (ws, cur.push(s.last()))
        }
    }
}

/// The maximal non-empty runs of non-ASCII-whitespace chars of `s`, in order.
pub open spec fn ascii_words(s: Seq<char>) -> Seq<Seq<char>> {
    let (ws, cur) = ascii_words_state(s);
    if cur.len() > 0 {
        ws.push(cur)
    } else {
        ws
    }
}

/// Splits `s` at ASCII whitespace, dropping empty words.
pub fn split_ascii_whitespace(s: &str) -> (r: Vec<String>)
    ensures
        views(r@) == ascii_words(s@),
{
    let cs = chars_of(s);
    let mut words: Vec<String> = Vec::new();
    let mut cur = String::new();
    let mut i: usize = 0;
    while i < cs.len()
        invariant
            i <= cs.len(),
            cs@ == s@,
            (views(words@), cur@) == ascii_words_state(cs@.take(i as int)),
        decreases cs.len() - i,
    {
        let c = cs[i];
        assert(cs@.take(i + 1).drop_last() == cs@.take(i as int));
        if c == ' ' || c == '\t' || c == '\n' || c == '\x0C' || c == '\r' {
            if !cur.as_str().is_empty() {
                let w = cur;
                words.push(w);
                cur = String::new();
            }
        } else {
            push_char(&mut cur, c);
        }
        i = i + 1;
        assert(views(words@) == ascii_words_state(cs@.take(i as int)).0);
    }
    assert(cs@.take(cs.len() as int) == cs@);
    if !cur.as_str().is_empty() {
        words.push(cur);
    }
    words
}

/// `s` without its leading `White_Space` chars.
pub open spec fn trim_start_ws(s: Seq<char>) -> Seq<char>
    decreases s.len(),
{
    if s.len() > 0 && unicode_white_space(s[0]) {
        trim_start_ws(s.drop_first())
    } else {
        s
    }
}

/// `s` without its trailing `White_Space` chars.
pub open spec fn trim_end_ws(s: Seq<char>) -> Seq<char>
    decreases s.len(),
{
    if s.len() > 0 && unicode_white_space(s.last()) {
        trim_end_ws(s.drop_last())
    } else {
        s
    }
}

/// `s` without leading and trailing `White_Space` chars, as `str::trim` gives.
pub open spec fn trim_ws(s: Seq<char>) -> Seq<char> {
    trim_end_ws(trim_start_ws(s))
}

/// The chars of `cs` from `from` up to `to`.
pub fn slice_chars(cs: &Vec<char>, from: usize, to: usize) -> (r: Vec<char>)
    requires
        from <= to <= cs.len(),
    ensures
        r@ == cs@.subrange(from as int, to as int),
{
    let mut r: Vec<char> = Vec::new();
    let mut i = from;
    while i < to
        invariant
            from <= i <= to <= cs.len(),
            r@ == cs@.subrange(from as int, i as int),
        decreases to - i,
    {
        r.push(cs[i]);
        i = i + 1;
    }
    r
}

/// Removes leading and trailing whitespace.
pub fn trim(s: &str) -> (r: String)
    ensures
        r@ == trim_ws(s@),
{
    let cs = chars_of(s);
    let mut a: usize = 0;
    assert(cs@.subrange(0, cs.len() as int) == cs@);
    while a < cs.len() && is_whitespace(cs[a])
        invariant
            a <= cs.len(),
            trim_start_ws(cs@.subrange(a as int, cs.len() as int)) == trim_start_ws(cs@),
        decreases cs.len() - a,
    {
        assert(cs@.subrange(a + 1, cs.len() as int) == cs@.subrange(a as int, cs.len() as int).drop_first());
        a = a + 1;
    }
    assert(trim_start_ws(cs@) == cs@.subrange(a as int, cs.len() as int));
    let mut b: usize = cs.len();
    while b > a && is_whitespace(cs[b - 1])
        invariant
            a <= b <= cs.len(),
            trim_end_ws(cs@.subrange(a as int, b as int)) == trim_ws(cs@),
        decreases b - a,
    {
        assert(cs@.subrange(a as int, b - 1) == cs@.subrange(a as int, b as int).drop_last());
        b = b - 1;
    }
    string_of(&slice_chars(&cs, a, b))
}

} // verus!
