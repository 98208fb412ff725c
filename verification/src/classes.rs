//! Finding the class list of a start tag in its source, so that a class can
//! be added to it.
//!
//! The tag's source is read byte by byte, as the HTML tokenizer reads
//! attributes: after `<` and the tag name come attributes, each a name, and
//! optionally `=` and a value that is quoted with `"` or `'`, or unquoted,
//! separated by whitespace or `/`. The first attribute named `class` (in any
//! case) with a quoted value is the class list; a class is added before its
//! closing quote.

use vstd::prelude::*;

verus! {

/// Whether `c` is whitespace between the parts of a tag.
pub open spec fn is_tag_space(c: u8) -> bool {
    c == 9 || c == 10 || c == 12 || c == 13 || c == 32
}

/// The first index from `j` below `e` whose byte is whitespace, `/` or `>`
/// (`e` when there is none): where a tag name ends.
pub open spec fn tag_name_end(b: Seq<u8>, j: int, e: int) -> int
    decreases e - j,
{
    if j < 0 || j >= e || j >= b.len() || is_tag_space(b[j]) || b[j] == 47 || b[j] == 62 {
        j
    } else {
        tag_name_end(b, j + 1, e)
    }
}

/// The first index from `j` below `e` whose byte is whitespace, `/`, `>` or
/// `=`: where an attribute name ends.
pub open spec fn attr_name_end(b: Seq<u8>, j: int, e: int) -> int
    decreases e - j,
{
    if j < 0 || j >= e || j >= b.len() || is_tag_space(b[j]) || b[j] == 47 || b[j] == 62 || b[j] == 61 {
        j
    } else {
        attr_name_end(b, j + 1, e)
    }
}

/// The first index from `j` below `e` whose byte is not whitespace (or `/`
/// as well, when `slash`).
pub open spec fn skip_space(b: Seq<u8>, j: int, e: int, slash: bool) -> int
    decreases e - j,
{
    if j < 0 || j >= e || j >= b.len() || !(is_tag_space(b[j]) || (slash && b[j] == 47)) {
        j
    } else {
        skip_space(b, j + 1, e, slash)
    }
}

/// The first index from `j` below `e` whose byte is `q` (`e` when there is
/// none).
pub open spec fn find_byte(b: Seq<u8>, j: int, e: int, q: u8) -> int
    decreases e - j,
{
    if j < 0 || j >= e || j >= b.len() || b[j] == q {
        j
    } else {
        find_byte(b, j + 1, e, q)
    }
}

/// The first index from `j` below `e` whose byte is whitespace or `>`:
/// where an unquoted value ends.
pub open spec fn unquoted_end(b: Seq<u8>, j: int, e: int) -> int
    decreases e - j,
{
    if j < 0 || j >= e || j >= b.len() || is_tag_space(b[j]) || b[j] == 62 {
        j
    } else {
        unquoted_end(b, j + 1, e)
    }
}

/// `c` in lower case, for ASCII letters.
pub open spec fn lower(c: u8) -> u8 {
    if 65 <= c <= 90 {
        (c + 32) as u8
    } else {
        c
    }
}

/// Whether the bytes from `a` up to `z` spell `class` in any case.
pub open spec fn is_class_name(b: Seq<u8>, a: int, z: int) -> bool {
    &&& z == a + 5
    &&& 0 <= a
    &&& z <= b.len()
    &&& lower(b[a]) == 99 && lower(b[a + 1]) == 108 && lower(b[a + 2]) == 97
    &&& lower(b[a + 3]) == 115 && lower(b[a + 4]) == 115
}

/// Scanning the attributes from `j` up to `e` (where the tag's `>` is): the
/// index of the closing quote of the first `class` attribute, when its value
/// is quoted. `None` when the first `class` attribute has an unquoted value
/// or none, or when there is no `class` attribute.
pub open spec fn class_quote_from(b: Seq<u8>, j: int, e: int) -> Option<int>
    decreases e - j,
{
    let j1 = skip_space(b, j, e, true);
    if j < 0 || j1 >= e || j1 >= b.len() || e > b.len() || b[j1] == 62 {
        None
    } else {
        proof {
            lemma_scan_bounds(b, j, e, 0);
            lemma_scan_bounds(b, j1 + 1, e, 0);
            lemma_scan_bounds(b, attr_name_end(b, j1 + 1, e), e, 0);
            let k = skip_space(b, attr_name_end(b, j1 + 1, e), e, false);
            lemma_scan_bounds(b, k + 1, e, 0);
            let v = skip_space(b, k + 1, e, false);
            if v < e {
                lemma_scan_bounds(b, v + 1, e, b[v]);
                lemma_scan_bounds(b, v, e, 0);
                assert(find_byte(b, v + 1, e, b[v]) + 1 > j);
            }
        }
        let n1 = attr_name_end(b, j1 + 1, e);
        let k = skip_space(b, n1, e, false);
        if k < e && b[k] == 61 {
            let v = skip_space(b, k + 1, e, false);
            if v < e && (b[v] == 34 || b[v] == 39) {
                let q = find_byte(b, v + 1, e, b[v]);
                if q >= e {
                    None
                } else if is_class_name(b, j1, n1) {
                    Some(q)
                } else {
                    class_quote_from(b, q + 1, e)
                }
            } else if is_class_name(b, j1, n1) {
                None
            } else {
                class_quote_from(b, unquoted_end(b, v, e), e)
            }
        } else if is_class_name(b, j1, n1) {
            None
        } else {
            class_quote_from(b, k, e)
        }
    }
}

/// The index of the closing quote of the class list of the start tag whose
/// source runs from byte `start` up to `end` of `b` (its last byte being
/// the `>`), when it has a quoted one.
pub open spec fn class_quote(b: Seq<u8>, start: int, end: int) -> Option<int> {
    if 0 <= start < end <= b.len() {
        class_quote_from(b, tag_name_end(b, start + 1, end - 1), end - 1)
    } else {
        None
    }
}

/// Each scan ends at or after where it starts, and within the bound it is
/// given.
pub proof fn lemma_scan_bounds(b: Seq<u8>, j: int, e: int, q: u8)
    requires
        0 <= j,
    ensures
        j <= tag_name_end(b, j, e),
        j <= attr_name_end(b, j, e),
        j <= skip_space(b, j, e, true),
        j <= skip_space(b, j, e, false),
        j <= find_byte(b, j, e, q),
        j <= unquoted_end(b, j, e),
        e <= b.len() && j <= e ==> tag_name_end(b, j, e) <= e && attr_name_end(b, j, e) <= e
            && skip_space(b, j, e, true) <= e && skip_space(b, j, e, false) <= e && unquoted_end(
            b,
            j,
            e,
        ) <= e,
    decreases e - j,
{
    if j < e && j < b.len() {
        lemma_scan_bounds(b, j + 1, e, q);
    }
}

fn tag_name_end_exec(b: &[u8], j: usize, e: usize) -> (r: usize)
    requires
        j <= e <= b@.len(),
    ensures
        r as int == tag_name_end(b@, j as int, e as int),
        j <= r <= e,
{
    let mut k = j;
    while k < e && !(is_tag_space_exec(b[k]) || b[k] == 47 || b[k] == 62)
        invariant
            j <= k <= e <= b@.len(),
            tag_name_end(b@, k as int, e as int) == tag_name_end(b@, j as int, e as int),
        decreases e - k,
    {
        k = k + 1;
    }
    k
}

fn attr_name_end_exec(b: &[u8], j: usize, e: usize) -> (r: usize)
    requires
        j <= e <= b@.len(),
    ensures
        r as int == attr_name_end(b@, j as int, e as int),
        j <= r <= e,
{
    let mut k = j;
    while k < e && !(is_tag_space_exec(b[k]) || b[k] == 47 || b[k] == 62 || b[k] == 61)
        invariant
            j <= k <= e <= b@.len(),
            attr_name_end(b@, k as int, e as int) == attr_name_end(b@, j as int, e as int),
        decreases e - k,
    {
        k = k + 1;
    }
    k
}

fn skip_space_exec(b: &[u8], j: usize, e: usize, slash: bool) -> (r: usize)
    requires
        j <= e <= b@.len(),
    ensures
        r as int == skip_space(b@, j as int, e as int, slash),
        j <= r <= e,
{
    let mut k = j;
    while k < e && (is_tag_space_exec(b[k]) || (slash && b[k] == 47))
        invariant
            j <= k <= e <= b@.len(),
            skip_space(b@, k as int, e as int, slash) == skip_space(b@, j as int, e as int, slash),
        decreases e - k,
    {
        k = k + 1;
    }
    k
}

fn find_byte_exec(b: &[u8], j: usize, e: usize, q: u8) -> (r: usize)
    requires
        j <= e <= b@.len(),
    ensures
        r as int == find_byte(b@, j as int, e as int, q),
        j <= r <= e,
{
    let mut k = j;
    while k < e && b[k] != q
        invariant
            j <= k <= e <= b@.len(),
            find_byte(b@, k as int, e as int, q) == find_byte(b@, j as int, e as int, q),
        decreases e - k,
    {
        k = k + 1;
    }
    k
}

fn unquoted_end_exec(b: &[u8], j: usize, e: usize) -> (r: usize)
    requires
        j <= e <= b@.len(),
    ensures
        r as int == unquoted_end(b@, j as int, e as int),
        j <= r <= e,
{
    let mut k = j;
    while k < e && !(is_tag_space_exec(b[k]) || b[k] == 62)
        invariant
            j <= k <= e <= b@.len(),
            unquoted_end(b@, k as int, e as int) == unquoted_end(b@, j as int, e as int),
        decreases e - k,
    {
        k = k + 1;
    }
    k
}

fn is_tag_space_exec(c: u8) -> (r: bool)
    ensures
        r == is_tag_space(c),
{
    c == 9 || c == 10 || c == 12 || c == 13 || c == 32
}

fn lower_exec(c: u8) -> (r: u8)
    ensures
        r == lower(c),
{
    if 65 <= c && c <= 90 {
        c + 32
    } else {
        c
    }
}

fn is_class_name_exec(b: &[u8], a: usize, z: usize) -> (r: bool)
    requires
        a <= z <= b@.len(),
    ensures
        r == is_class_name(b@, a as int, z as int),
{
    z - a == 5 && lower_exec(b[a]) == 99 && lower_exec(b[a + 1]) == 108 && lower_exec(b[a + 2]) == 97
        && lower_exec(b[a + 3]) == 115 && lower_exec(b[a + 4]) == 115
}

/// The index of the closing quote of the class list of the start tag whose
/// source runs from byte `start` up to `end` of `b` (see [`class_quote`]).
pub fn class_quote_exec(b: &[u8], start: usize, end: usize) -> (r: Option<usize>)
    ensures
        r matches Some(q) ==> class_quote(b@, start as int, end as int) == Some(q as int),
        r is None ==> class_quote(b@, start as int, end as int) is None,
        r matches Some(q) ==> start < q < end,
{
    if !(start < end && end <= b.len()) {
        return None;
    }
    let e = end - 1;
    if start + 1 > e {
        return None;
    }
    let mut j = tag_name_end_exec(b, start + 1, e);
    let ghost j0 = j;
    while j < e
        invariant
            start < j0 <= j <= e < end <= b@.len(),
            class_quote_from(b@, j as int, e as int) == class_quote_from(b@, j0 as int, e as int),
            class_quote(b@, start as int, end as int) == class_quote_from(b@, j0 as int, e as int),
        decreases e - j,
    {
        let j1 = skip_space_exec(b, j, e, true);
        if j1 >= e || b[j1] == 62 {
            return None;
        }
        let n1 = attr_name_end_exec(b, j1 + 1, e);
        let k = skip_space_exec(b, n1, e, false);
        let class = is_class_name_exec(b, j1, n1);
        if k < e && b[k] == 61 {
            let v = skip_space_exec(b, k + 1, e, false);
            if v < e && (b[v] == 34 || b[v] == 39) {
                let q = find_byte_exec(b, v + 1, e, b[v]);
                if class {
                    if q < e {
                        return Some(q);
                    } else {
                        return None;
                    }
                }
                if q >= e {
                    return None;
                }
                j = q + 1;
            } else {
                if class {
                    return None;
                }
                j = unquoted_end_exec(b, v, e);
            }
        } else {
            if class {
                return None;
            }
            j = k;
        }
    }
    assert(class_quote_from(b@, j as int, e as int) is None);
    None
}

} // verus!
