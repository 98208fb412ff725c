//! The token diff of two documents, merged into one stream.

use vstd::prelude::*;

use similar::{Algorithm, DiffTag};

use crate::tokenize::{
    token_views, tokenize, tokenizer_events, tokens_of_events, DiffTokenView, HtmlToken,
    HtmlTokenWithDiff, KindView, SimplifiedDiffTag, TokenView,
};

verus! {

/// The kind of a diff op.
#[derive(Clone, Copy, PartialEq, Eq, Structural, Debug)]
pub enum OpTag {
    Equal,
    Delete,
    Insert,
    Replace,
}

/// A diff op: the range of old tokens and the range of new tokens it covers.
pub struct EditOp {
    pub tag: OpTag,
    pub old: std::ops::Range<usize>,
    pub new: std::ops::Range<usize>,
}

/// The kinds of a list of tokens.
pub open spec fn kind_views(ts: Seq<TokenView>) -> Seq<KindView> {
    ts.map_values(|t: TokenView| t.kind)
}

/// Whether `ops`, from the `k`-th on, is an edit script that turns
/// `old[o..]` into `new[n..]`: each op starts where the one before ended, an
/// equal op covers equal stretches of both, a deletion covers no new token,
/// an insertion no old one, and the last op ends at the ends of both.
pub open spec fn edit_script_from(
    old: Seq<KindView>,
    new: Seq<KindView>,
    ops: Seq<EditOp>,
    k: int,
    o: int,
    n: int,
) -> bool
    decreases ops.len() - k,
{
    if k < 0 || k >= ops.len() {
        o == old.len() && n == new.len()
    } else {
        let op = ops[k];
        &&& op.old.start == o
        &&& op.new.start == n
        &&& o <= op.old.end <= old.len()
        &&& n <= op.new.end <= new.len()
        &&& match op.tag {
            OpTag::Equal => old.subrange(o, op.old.end as int) == new.subrange(n, op.new.end as int),
            OpTag::Delete => op.new.end == n,
            OpTag::Insert => op.old.end == o,
            OpTag::Replace => true,
        }
        &&& edit_script_from(old, new, ops, k + 1, op.old.end as int, op.new.end as int)
    }
}

/// Whether `ops` is an edit script that turns `old` into `new`.
pub open spec fn edit_script(old: Seq<KindView>, new: Seq<KindView>, ops: Seq<EditOp>) -> bool {
    edit_script_from(old, new, ops, 0, 0, 0)
}

/// The ops that `similar`'s patience diff gives for two lists of token kinds.
pub uninterp spec fn patience_ops(old: Seq<KindView>, new: Seq<KindView>) -> Seq<EditOp>;

/// Calls `similar::capture_diff_slices` with `Algorithm::Patience` on the
/// kinds of the tokens, and turns each op into its tag and ranges
/// (`DiffOp::as_tag_tuple`). The ops are named `patience_ops`; of them is
/// stated what `similar` documents and its source shows, that they form an
/// edit script from the old kinds to the new (its hooks are called in order
/// over both inputs, and equal stretches are found by `==`, which for
/// token kinds compares their contents). Of two equal lists it states that
/// every op is an equal one: the Myers pass over the unique items and the
/// Myers passes between them start with the common prefix, which is then
/// the whole rest, so only `equal` hooks are called. Which edit script it
/// is otherwise, is not stated.
#[verifier::external_body]
fn patience_diff(old: &Vec<HtmlToken>, new: &Vec<HtmlToken>) -> (r: Vec<EditOp>)
    ensures
        r@ == patience_ops(kind_views(token_views(old@)), kind_views(token_views(new@))),
        edit_script(kind_views(token_views(old@)), kind_views(token_views(new@)), r@),
        kind_views(token_views(old@)) == kind_views(token_views(new@)) ==> forall|k: int|
            0 <= k < r@.len() ==> (#[trigger] r@[k]).tag == OpTag::Equal,
{
    let old: Vec<_> = old.iter().map(|t| &t.kind).collect();
    let new: Vec<_> = new.iter().map(|t| &t.kind).collect();
    let ops = similar::capture_diff_slices(Algorithm::Patience, &old, &new);
    ops.iter().map(|op| {
        let (tag, old, new) = op.as_tag_tuple();
        let tag = match tag {
            DiffTag::Equal => OpTag::Equal,
            DiffTag::Delete => OpTag::Delete,
            DiffTag::Insert => OpTag::Insert,
            DiffTag::Replace => OpTag::Replace,
        };
        EditOp { tag, old, new }
    }).collect()
}


/// `ts`, each marked with `tag`.
pub open spec fn tagged(ts: Seq<TokenView>, tag: SimplifiedDiffTag) -> Seq<DiffTokenView> {
    ts.map_values(|t: TokenView| DiffTokenView { token: t, tag: tag })
}

/// The merged tokens of one op: an equal stretch as the new tokens, a
/// deletion as the old tokens, an insertion as the new tokens, a replacement
/// as the deleted old tokens followed by the inserted new ones.
pub open spec fn op_tokens(old: Seq<TokenView>, new: Seq<TokenView>, op: EditOp) -> Seq<DiffTokenView> {
    let olds = old.subrange(op.old.start as int, op.old.end as int);
    let news = new.subrange(op.new.start as int, op.new.end as int);
    match op.tag {
        OpTag::Equal => tagged(news, SimplifiedDiffTag::Equal),
        OpTag::Delete => tagged(olds, SimplifiedDiffTag::Delete),
        OpTag::Insert => tagged(news, SimplifiedDiffTag::Insert),
        OpTag::Replace => tagged(olds, SimplifiedDiffTag::Delete) + tagged(
            news,
            SimplifiedDiffTag::Insert,
        ),
    }
}

/// The merged tokens of the first `k` ops.
pub open spec fn merged_upto(old: Seq<TokenView>, new: Seq<TokenView>, ops: Seq<EditOp>, k: int) -> Seq<
    DiffTokenView,
>
    decreases k,
{
    if k <= 0 || k > ops.len() {
        Seq::empty()
    } else {
        merged_upto(old, new, ops, k - 1) + op_tokens(old, new, ops[k - 1])
    }
}

/// The merged tokens of all ops.
pub open spec fn merged(old: Seq<TokenView>, new: Seq<TokenView>, ops: Seq<EditOp>) -> Seq<DiffTokenView> {
    merged_upto(old, new, ops, ops.len() as int)
}

/// Whether every op's ranges lie within the token lists.
pub open spec fn ops_in_bounds(ops: Seq<EditOp>, old_len: int, new_len: int) -> bool {
    forall|k: int|
        0 <= k < ops.len() ==> (#[trigger] ops[k]).old.start <= ops[k].old.end <= old_len
            && ops[k].new.start <= ops[k].new.end <= new_len
}

/// The views of a list of merged tokens.
pub open spec fn diff_views(ds: Seq<HtmlTokenWithDiff>) -> Seq<DiffTokenView> {
    ds.map_values(|d: HtmlTokenWithDiff| d@)
}

fn extend_tagged(
    out: &mut Vec<HtmlTokenWithDiff>,
    ts: &Vec<HtmlToken>,
    from: usize,
    to: usize,
    tag: SimplifiedDiffTag,
)
    requires
        from <= to <= ts.len(),
    ensures
        diff_views(final(out)@) == diff_views(old(out)@) + tagged(
            token_views(ts@).subrange(from as int, to as int),
            tag,
        ),
{
    let ghost start = diff_views(out@);
    let mut i = from;
    while i < to
        invariant
            from <= i <= to <= ts.len(),
            diff_views(out@) == start + tagged(token_views(ts@).subrange(from as int, i as int), tag),
        decreases to - i,
    {
        let d = ts[i].clone_with_diff_tag(tag);
        let ghost prev = out@;
        out.push(d);
        i = i + 1;
        assert(diff_views(out@) =~= diff_views(prev).push(d@));
        assert(tagged(token_views(ts@).subrange(from as int, i as int), tag) =~= tagged(
            token_views(ts@).subrange(from as int, i - 1),
            tag,
        ).push(d@));
    }
}

/// Merges the old and new tokens along the diff ops into one stream, each
/// token marked equal, deleted or inserted. Equal stretches are taken from
/// the new tokens, since the highlighted document is built from the new
/// source.
pub fn merge_diff(old: &Vec<HtmlToken>, new: &Vec<HtmlToken>, ops: &Vec<EditOp>) -> (r: Vec<
    HtmlTokenWithDiff,
>)
    requires
        ops_in_bounds(ops@, old.len() as int, new.len() as int),
    ensures
        diff_views(r@) == merged(token_views(old@), token_views(new@), ops@),
{
    let mut unified: Vec<HtmlTokenWithDiff> = Vec::new();
    let mut k: usize = 0;
    assert(diff_views(unified@) =~= Seq::<DiffTokenView>::empty());
    while k < ops.len()
        invariant
            k <= ops.len(),
            ops_in_bounds(ops@, old.len() as int, new.len() as int),
            diff_views(unified@) == merged_upto(token_views(old@), token_views(new@), ops@, k as int),
        decreases ops.len() - k,
    {
        let op = &ops[k];
        assert(ops@[k as int].old.start <= ops@[k as int].old.end <= old.len());
        match op.tag {
            OpTag::Equal => {
                extend_tagged(&mut unified, new, op.new.start, op.new.end, SimplifiedDiffTag::Equal);
            },
            OpTag::Delete => {
                extend_tagged(&mut unified, old, op.old.start, op.old.end, SimplifiedDiffTag::Delete);
            },
            OpTag::Insert => {
                extend_tagged(&mut unified, new, op.new.start, op.new.end, SimplifiedDiffTag::Insert);
            },
            OpTag::Replace => {
                extend_tagged(&mut unified, old, op.old.start, op.old.end, SimplifiedDiffTag::Delete);
                extend_tagged(&mut unified, new, op.new.start, op.new.end, SimplifiedDiffTag::Insert);
            },
        }
        k = k + 1;
    }
    unified
}


/// The tokens of the merged stream that the new document has: all but the
/// deleted ones.
pub open spec fn new_side(ds: Seq<DiffTokenView>) -> Seq<TokenView>
    decreases ds.len(),
{
    if ds.len() == 0 {
        Seq::empty()
    } else if ds.last().tag == SimplifiedDiffTag::Delete {
        new_side(ds.drop_last())
    } else {
        new_side(ds.drop_last()).push(ds.last().token)
    }
}

/// The tokens of the merged stream that stand for the old document: all but
/// the inserted ones.
pub open spec fn old_side(ds: Seq<DiffTokenView>) -> Seq<TokenView>
    decreases ds.len(),
{
    if ds.len() == 0 {
        Seq::empty()
    } else if ds.last().tag == SimplifiedDiffTag::Insert {
        old_side(ds.drop_last())
    } else {
        old_side(ds.drop_last()).push(ds.last().token)
    }
}

/// The tokens of the merged stream that stand for the old document, with
/// their diff tags: all but the inserted ones.
pub open spec fn old_side_tagged(ds: Seq<DiffTokenView>) -> Seq<DiffTokenView>
    decreases ds.len(),
{
    if ds.len() == 0 {
        Seq::empty()
    } else if ds.last().tag == SimplifiedDiffTag::Insert {
        old_side_tagged(ds.drop_last())
    } else {
        old_side_tagged(ds.drop_last()).push(ds.last())
    }
}

/// Whether the deleted tokens among `os` are the tokens of `old` at their
/// places, spans included.
pub open spec fn deleted_in_place(os: Seq<DiffTokenView>, old: Seq<TokenView>) -> bool {
    &&& os.len() == old.len()
    &&& forall|j: int|
        0 <= j < os.len() && (#[trigger] os[j]).tag == SimplifiedDiffTag::Delete ==> os[j].token == old[j]
}

proof fn lemma_old_tagged_concat(a: Seq<DiffTokenView>, b: Seq<DiffTokenView>)
    ensures
        old_side_tagged(a + b) == old_side_tagged(a) + old_side_tagged(b),
    decreases b.len(),
{
    if b.len() == 0 {
        assert(a + b =~= a);
        assert(old_side_tagged(a) + old_side_tagged(b) =~= old_side_tagged(a));
    } else {
        assert((a + b).drop_last() =~= a + b.drop_last());
        lemma_old_tagged_concat(a, b.drop_last());
        assert(old_side_tagged(a) + old_side_tagged(b.drop_last()).push(b.last()) =~= (old_side_tagged(a)
            + old_side_tagged(b.drop_last())).push(b.last()));
    }
}

proof fn lemma_old_tagged_tagged(ts: Seq<TokenView>, tag: SimplifiedDiffTag)
    ensures
        old_side_tagged(tagged(ts, tag)) == (if tag == SimplifiedDiffTag::Insert {
            Seq::empty()
        } else {
            tagged(ts, tag)
        }),
    decreases ts.len(),
{
    if ts.len() > 0 {
        assert(tagged(ts, tag).drop_last() =~= tagged(ts.drop_last(), tag));
        lemma_old_tagged_tagged(ts.drop_last(), tag);
        if tag != SimplifiedDiffTag::Insert {
            assert(tagged(ts.drop_last(), tag).push(tagged(ts, tag).last()) =~= tagged(ts, tag));
        }
    } else {
        assert(tagged(ts, tag) =~= Seq::<DiffTokenView>::empty());
    }
}

proof fn lemma_sides_concat(a: Seq<DiffTokenView>, b: Seq<DiffTokenView>)
    ensures
        new_side(a + b) == new_side(a) + new_side(b),
        old_side(a + b) == old_side(a) + old_side(b),
    decreases b.len(),
{
    if b.len() == 0 {
        assert(a + b =~= a);
        assert(new_side(a) + new_side(b) =~= new_side(a));
        assert(old_side(a) + old_side(b) =~= old_side(a));
    } else {
        assert((a + b).drop_last() =~= a + b.drop_last());
        lemma_sides_concat(a, b.drop_last());
        assert(new_side(a) + new_side(b.drop_last()).push(b.last().token) =~= (new_side(a)
            + new_side(b.drop_last())).push(b.last().token));
        assert(old_side(a) + old_side(b.drop_last()).push(b.last().token) =~= (old_side(a)
            + old_side(b.drop_last())).push(b.last().token));
    }
}

proof fn lemma_sides_tagged(ts: Seq<TokenView>, tag: SimplifiedDiffTag)
    ensures
        new_side(tagged(ts, tag)) == (if tag == SimplifiedDiffTag::Delete {
            Seq::empty()
        } else {
            ts
        }),
        old_side(tagged(ts, tag)) == (if tag == SimplifiedDiffTag::Insert {
            Seq::empty()
        } else {
            ts
        }),
    decreases ts.len(),
{
    if ts.len() > 0 {
        assert(tagged(ts, tag).drop_last() =~= tagged(ts.drop_last(), tag));
        lemma_sides_tagged(ts.drop_last(), tag);
        assert(ts.drop_last().push(ts.last()) =~= ts);
    } else {
        assert(tagged(ts, tag) =~= Seq::<DiffTokenView>::empty());
    }
}

proof fn lemma_merged_upto_sides(old: Seq<TokenView>, new: Seq<TokenView>, ops: Seq<EditOp>, k: int)
    requires
        edit_script(kind_views(old), kind_views(new), ops),
        0 <= k <= ops.len(),
    ensures
        ({
            let o = if k == 0 { 0 } else { ops[k - 1].old.end as int };
            let n = if k == 0 { 0 } else { ops[k - 1].new.end as int };
            &&& edit_script_from(kind_views(old), kind_views(new), ops, k, o, n)
            &&& new_side(merged_upto(old, new, ops, k)) == new.take(n)
            &&& kind_views(old_side(merged_upto(old, new, ops, k))) == kind_views(old).take(o)
            &&& deleted_in_place(old_side_tagged(merged_upto(old, new, ops, k)), old.take(o))
        }),
    decreases k,
{
    if k == 0 {
        assert(new.take(0) =~= Seq::<TokenView>::empty());
        assert(kind_views(old).take(0) =~= Seq::<KindView>::empty());
        assert(kind_views(Seq::<TokenView>::empty()) =~= Seq::<KindView>::empty());
        assert(old.take(0) =~= Seq::<TokenView>::empty());
    } else {
        lemma_merged_upto_sides(old, new, ops, k - 1);
        let o = if k - 1 == 0 { 0 } else { ops[k - 2].old.end as int };
        let n = if k - 1 == 0 { 0 } else { ops[k - 2].new.end as int };
        let op = ops[k - 1];
        let prev = merged_upto(old, new, ops, k - 1);
        let olds = old.subrange(o, op.old.end as int);
        let news = new.subrange(n, op.new.end as int);
        lemma_sides_concat(prev, op_tokens(old, new, op));
        lemma_sides_tagged(olds, SimplifiedDiffTag::Delete);
        lemma_sides_tagged(news, SimplifiedDiffTag::Insert);
        lemma_sides_tagged(news, SimplifiedDiffTag::Equal);
        lemma_sides_concat(tagged(olds, SimplifiedDiffTag::Delete), tagged(news, SimplifiedDiffTag::Insert));
        assert(new.take(op.new.end as int) =~= new.take(n) + news);
        assert(kind_views(old).take(op.old.end as int) =~= kind_views(old).take(o) + kind_views(olds));
        assert(kind_views(old).subrange(o, op.old.end as int) =~= kind_views(olds));
        assert(kind_views(new).subrange(n, op.new.end as int) =~= kind_views(news));
        let left = old_side(prev);
        let lt = old_side_tagged(prev);
        lemma_old_tagged_concat(prev, op_tokens(old, new, op));
        lemma_old_tagged_tagged(olds, SimplifiedDiffTag::Delete);
        lemma_old_tagged_tagged(news, SimplifiedDiffTag::Insert);
        lemma_old_tagged_tagged(news, SimplifiedDiffTag::Equal);
        lemma_old_tagged_concat(tagged(olds, SimplifiedDiffTag::Delete), tagged(news, SimplifiedDiffTag::Insert));
        assert(old.take(op.old.end as int) =~= old.take(o) + olds);
        let cur = old_side_tagged(op_tokens(old, new, op));
        assert(cur.len() == olds.len()) by {
            assert(kind_views(olds).len() == olds.len());
            if op.tag == OpTag::Equal {
                assert(olds.len() == news.len()) by {
                    assert(kind_views(old).subrange(o, op.old.end as int).len() == kind_views(new).subrange(
                        n,
                        op.new.end as int,
                    ).len());
                }
            }
        }
        assert forall|j: int|
            0 <= j < cur.len() && (#[trigger] cur[j]).tag == SimplifiedDiffTag::Delete implies cur[j].token
            == olds[j] by {
            if op.tag == OpTag::Replace {
                assert(cur =~= tagged(olds, SimplifiedDiffTag::Delete));
            }
        }
        assert forall|j: int|
            0 <= j < (lt + cur).len() && (#[trigger] (lt + cur)[j]).tag == SimplifiedDiffTag::Delete
                implies (lt + cur)[j].token == (old.take(o) + olds)[j] by {
            if j < lt.len() {
                assert((lt + cur)[j] == lt[j]);
            } else {
                assert((lt + cur)[j] == cur[j - lt.len()]);
            }
        }
        match op.tag {
            OpTag::Equal => {
                assert(kind_views(left + news) =~= kind_views(left) + kind_views(news));
            },
            OpTag::Delete => {
                assert(news =~= Seq::<TokenView>::empty());
                assert(kind_views(left + olds) =~= kind_views(left) + kind_views(olds));
            },
            OpTag::Insert => {
                assert(olds =~= Seq::<TokenView>::empty());
                assert(kind_views(olds) =~= Seq::<KindView>::empty());
                assert(left + Seq::<TokenView>::empty() =~= left);
            },
            OpTag::Replace => {
                assert(kind_views(left + olds) =~= kind_views(left) + kind_views(olds));
            },
        }
    }
}

/// The merged stream of an edit script holds both documents: without the
/// deleted tokens it is the new token list, spans included, and without the
/// inserted tokens it has the kinds of the old token list, its deleted
/// tokens being the old tokens at their places, spans included.
pub proof fn lemma_merged_sides(old: Seq<TokenView>, new: Seq<TokenView>, ops: Seq<EditOp>)
    requires
        edit_script(kind_views(old), kind_views(new), ops),
    ensures
        new_side(merged(old, new, ops)) == new,
        kind_views(old_side(merged(old, new, ops))) == kind_views(old),
        deleted_in_place(old_side_tagged(merged(old, new, ops)), old),
{
    lemma_merged_upto_sides(old, new, ops, ops.len() as int);
    let k = ops.len() as int;
    let o = if k == 0 { 0 } else { ops[k - 1].old.end as int };
    let n = if k == 0 { 0 } else { ops[k - 1].new.end as int };
    assert(o == kind_views(old).len() && n == kind_views(new).len());
    assert(new.take(n) =~= new);
    assert(kind_views(old).take(o) =~= kind_views(old));
    assert(old.take(o) =~= old);
}


proof fn lemma_equal_ops_merged_upto(old: Seq<TokenView>, new: Seq<TokenView>, ops: Seq<EditOp>, k: int)
    requires
        forall|j: int| 0 <= j < ops.len() ==> (#[trigger] ops[j]).tag == OpTag::Equal,
    ensures
        forall|i: int|
            0 <= i < merged_upto(old, new, ops, k).len() ==> (#[trigger] merged_upto(
                old,
                new,
                ops,
                k,
            )[i]).tag == SimplifiedDiffTag::Equal,
    decreases k,
{
    if 0 < k <= ops.len() {
        lemma_equal_ops_merged_upto(old, new, ops, k - 1);
        let prev = merged_upto(old, new, ops, k - 1);
        let cur = op_tokens(old, new, ops[k - 1]);
        assert(ops[k - 1].tag == OpTag::Equal);
        assert forall|i: int| 0 <= i < (prev + cur).len() implies (#[trigger] (prev + cur)[i]).tag
            == SimplifiedDiffTag::Equal by {
            if i >= prev.len() {
                assert((prev + cur)[i] == cur[i - prev.len()]);
            } else {
                assert((prev + cur)[i] == prev[i]);
            }
        }
    }
}

/// The merged stream of ops that are all equal marks every token equal.
pub proof fn lemma_equal_ops_merged(old: Seq<TokenView>, new: Seq<TokenView>, ops: Seq<EditOp>)
    requires
        forall|j: int| 0 <= j < ops.len() ==> (#[trigger] ops[j]).tag == OpTag::Equal,
    ensures
        forall|i: int|
            0 <= i < merged(old, new, ops).len() ==> (#[trigger] merged(old, new, ops)[i]).tag
                == SimplifiedDiffTag::Equal,
{
    lemma_equal_ops_merged_upto(old, new, ops, ops.len() as int);
}

proof fn lemma_script_in_bounds_from(
    old: Seq<KindView>,
    new: Seq<KindView>,
    ops: Seq<EditOp>,
    k: int,
    o: int,
    n: int,
)
    requires
        0 <= k,
        0 <= o,
        0 <= n,
        edit_script_from(old, new, ops, k, o, n),
    ensures
        forall|j: int|
            k <= j < ops.len() ==> (#[trigger] ops[j]).old.start <= ops[j].old.end <= old.len()
                && ops[j].new.start <= ops[j].new.end <= new.len(),
    decreases ops.len() - k,
{
    if k < ops.len() {
        lemma_script_in_bounds_from(old, new, ops, k + 1, ops[k].old.end as int, ops[k].new.end as int);
    }
}

/// The patience diff ops between two token lists: an edit script from the
/// old kinds to the new.
pub fn token_diff_ops(old: &Vec<HtmlToken>, new: &Vec<HtmlToken>) -> (r: Vec<EditOp>)
    ensures
        r@ == patience_ops(kind_views(token_views(old@)), kind_views(token_views(new@))),
        edit_script(kind_views(token_views(old@)), kind_views(token_views(new@)), r@),
        ops_in_bounds(r@, old.len() as int, new.len() as int),
        kind_views(token_views(old@)) == kind_views(token_views(new@)) ==> forall|k: int|
            0 <= k < r@.len() ==> (#[trigger] r@[k]).tag == OpTag::Equal,
{
    let ops = patience_diff(old, new);
    proof {
        lemma_script_in_bounds_from(
            kind_views(token_views(old@)),
            kind_views(token_views(new@)),
            ops@,
            0,
            0,
            0,
        );
    }
    ops
}

/// The tokens of a document.
pub open spec fn html_tokens(html: Seq<char>) -> Seq<TokenView> {
    tokens_of_events(tokenizer_events(html))
}

/// The merged token diff of two documents (see [`merged`]).
pub open spec fn merged_diff(old_html: Seq<char>, new_html: Seq<char>) -> Seq<DiffTokenView> {
    let old = html_tokens(old_html);
    let new = html_tokens(new_html);
    merged(old, new, patience_ops(kind_views(old), kind_views(new)))
}

/// Tokenizes both documents, diffs the token lists with the patience
/// algorithm and merges the result into one stream. Without its deleted
/// tokens the stream is the new document's token list; without its inserted
/// tokens it has the old document's token kinds, and its deleted tokens are
/// the old document's tokens at their places, spans into `old_html`
/// included.
pub fn diff_tokens_from_source(old_html: &str, new_html: &str) -> (r: Vec<HtmlTokenWithDiff>)
    ensures
        diff_views(r@) == merged_diff(old_html@, new_html@),
        new_side(diff_views(r@)) == html_tokens(new_html@),
        kind_views(old_side(diff_views(r@))) == kind_views(html_tokens(old_html@)),
        deleted_in_place(old_side_tagged(diff_views(r@)), html_tokens(old_html@)),
        old_html@ == new_html@ ==> forall|i: int|
            0 <= i < r@.len() ==> (#[trigger] diff_views(r@)[i]).tag == SimplifiedDiffTag::Equal,
{
    let old_tokens = tokenize(old_html);
    let new_tokens = tokenize(new_html);
    let ops = token_diff_ops(&old_tokens, &new_tokens);
    proof {
        lemma_merged_sides(token_views(old_tokens@), token_views(new_tokens@), ops@);
        if old_html@ == new_html@ {
            lemma_equal_ops_merged(token_views(old_tokens@), token_views(new_tokens@), ops@);
        }
    }
    merge_diff(&old_tokens, &new_tokens, &ops)
}

} // verus!
