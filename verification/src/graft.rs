//! How well-formedness and lookups carry over when the tree is rebuilt:
//! a node stored in a page, a node cut into runs, a child replaced by the
//! nodes that take its place.

use crate::keys::{
    key_le, key_lt, lemma_le_lt, lemma_lt_asymmetric, lemma_lt_irreflexive, lemma_lt_le,
    lemma_lt_transitive, lemma_not_lt, lemma_rank_splits, lemma_sorted_subrange, rank,
    strictly_sorted,
};
use crate::node::{entries_wf, keys_of, lemma_adjacent_sorted, EntryModel, NodeModel};
use crate::ops::{child_index, has_key, lemma_child_index, lemma_subrange_wf};
use crate::route::{lemma_child_index_bounds, lemma_find_cut, lemma_route_cut, lemma_sorted_le};
use crate::shape::{apart, below, in_kids, in_subtree, kid_wf, kids_get, kids_wf, lemma_kid_same, lemma_same_get, lemma_same_kids_pages, lemma_same_kids_wf, node_at, node_get, node_wf, page_ok, same_kids, slot, subtree_wf, upper};
use vstd::prelude::*;

verus! {

/// The bound on a run of entries that ends before position `to`: the key at
/// `to`, or the bound of the whole sequence when the run reaches its end.
pub open spec fn bound_at(es: Seq<EntryModel>, to: int, hi: Option<Seq<u8>>) -> Option<Seq<u8>> {
    if to < es.len() {
        Some(es[to].key)
    } else {
        hi
    }
}

/// The first key of a well-formed subtree is under the subtree's bound.
pub proof fn lemma_first_below(pages: Seq<Seq<u8>>, id: u64, h: nat, hi: Option<Seq<u8>>)
    requires
        subtree_wf(pages, id, h, hi),
    ensures
        below(node_at(pages, id).entries[0].key, hi),
        node_at(pages, id).entries.len() > 0,
{
    let es = node_at(pages, id).entries;
    lemma_sorted_le(keys_of(es), 0, es.len() - 1);
    if hi is Some {
        lemma_le_lt(es[0].key, es.last().key, hi->0);
    }
}

/// The separators of well-formed children increase and stay under the
/// bound.
pub proof fn lemma_kids_sorted(pages: Seq<Seq<u8>>, es: Seq<EntryModel>, h: nat, hi: Option<Seq<u8>>)
    requires
        kids_wf(pages, es, h, hi),
    ensures
        strictly_sorted(keys_of(es)),
        es.len() > 0 ==> below(es.last().key, hi),
        forall|i: int| 0 <= i < es.len() ==> below((#[trigger] es[i]).key, upper(es, i, hi)),
{
    let ks = keys_of(es);
    assert forall|i: int| 0 <= i < es.len() implies below(
        (#[trigger] es[i]).key,
        upper(es, i, hi),
    ) by {
        assert(kid_wf(pages, slot(es, i), h, upper(es, i, hi)));
        lemma_first_below(pages, es[i].ptr, h, upper(es, i, hi));
        if upper(es, i, hi) is Some {
            lemma_le_lt(es[i].key, node_at(pages, es[i].ptr).entries[0].key, upper(es, i, hi)->0);
        }
    }
    assert forall|i: int| 1 <= i < ks.len() implies key_lt(ks[i - 1], #[trigger] ks[i]) by {
        assert(below(es[i - 1].key, upper(es, i - 1, hi)));
    }
    lemma_adjacent_sorted(ks);
    if es.len() > 0 {
        assert(below(es[es.len() - 1].key, upper(es, es.len() - 1, hi)));
    }
}

/// A run of well-formed children is well formed under the bound of the
/// run.
pub proof fn lemma_kids_sub_wf(
    pages: Seq<Seq<u8>>,
    es: Seq<EntryModel>,
    from: int,
    to: int,
    h: nat,
    hi: Option<Seq<u8>>,
)
    requires
        kids_wf(pages, es, h, hi),
        0 <= from <= to <= es.len(),
    ensures
        kids_wf(pages, es.subrange(from, to), h, bound_at(es, to, hi)),
{
    let sub = es.subrange(from, to);
    let b = bound_at(es, to, hi);
    assert forall|i: int| 0 <= i < sub.len() implies kid_wf(
        pages,
        #[trigger] slot(sub, i),
        h,
        upper(sub, i, b),
    ) by {
        assert(sub[i] == es[from + i]);
        assert(kid_wf(pages, slot(es, from + i), h, upper(es, from + i, hi)));
        if i + 1 < sub.len() {
            assert(sub[i + 1] == es[from + i + 1]);
        }
    }
    assert forall|i: int, j: int|
        0 <= i < sub.len() && 0 <= j < sub.len() && i != j implies apart(
        pages,
        (#[trigger] slot(sub, i)).ptr,
        (#[trigger] slot(sub, j)).ptr,
        h,
    ) by {
        assert(sub[i] == es[from + i] && sub[j] == es[from + j]);
        assert(apart(pages, slot(es, from + i).ptr, slot(es, from + j).ptr, h));
    }
}

/// A page of a run of children is a page of the children.
pub proof fn lemma_in_kids_sub(
    pages: Seq<Seq<u8>>,
    es: Seq<EntryModel>,
    from: int,
    to: int,
    h: nat,
    p: u64,
)
    requires
        0 <= from <= to <= es.len(),
        in_kids(pages, es.subrange(from, to), h, p),
    ensures
        in_kids(pages, es, h, p),
{
    let sub = es.subrange(from, to);
    let i = choose|i: int| 0 <= i < sub.len() && in_subtree(pages, (#[trigger] slot(sub, i)).ptr, h, p);
    assert(sub[i] == es[from + i]);
    assert(in_subtree(pages, slot(es, from + i).ptr, h, p));
}

/// The pages of two runs of children joined are the pages of either.
pub proof fn lemma_in_kids_concat(
    pages: Seq<Seq<u8>>,
    a: Seq<EntryModel>,
    b: Seq<EntryModel>,
    h: nat,
    p: u64,
)
    ensures
        in_kids(pages, a + b, h, p) <==> in_kids(pages, a, h, p) || in_kids(pages, b, h, p),
{
    let ab = a + b;
    if in_kids(pages, ab, h, p) {
        let i = choose|i: int|
            0 <= i < ab.len() && in_subtree(pages, (#[trigger] slot(ab, i)).ptr, h, p);
        if i < a.len() {
            assert(ab[i] == a[i]);
            assert(in_subtree(pages, slot(a, i).ptr, h, p));
        } else {
            assert(ab[i] == b[i - a.len()]);
            assert(in_subtree(pages, slot(b, i - a.len()).ptr, h, p));
        }
    }
    if in_kids(pages, a, h, p) {
        let i = choose|i: int| 0 <= i < a.len() && in_subtree(pages, (#[trigger] slot(a, i)).ptr, h, p);
        assert(ab[i] == a[i]);
        assert(in_subtree(pages, slot(ab, i).ptr, h, p));
    }
    if in_kids(pages, b, h, p) {
        let i = choose|i: int| 0 <= i < b.len() && in_subtree(pages, (#[trigger] slot(b, i)).ptr, h, p);
        assert(ab[i + a.len()] == b[i]);
        assert(in_subtree(pages, slot(ab, i + a.len()).ptr, h, p));
    }
}

/// Two runs of well-formed children that share no page, the first bounded
/// by the first separator of the second, are well formed when joined.
pub proof fn lemma_kids_concat_wf(
    pages: Seq<Seq<u8>>,
    a: Seq<EntryModel>,
    b: Seq<EntryModel>,
    h: nat,
    hi: Option<Seq<u8>>,
)
    requires
        kids_wf(pages, a, h, bound_at(b, 0, hi)),
        kids_wf(pages, b, h, hi),
        forall|p: u64| #[trigger] in_kids(pages, a, h, p) ==> !in_kids(pages, b, h, p),
    ensures
        kids_wf(pages, a + b, h, hi),
{
    let ab = a + b;
    let n = a.len() as int;
    assert forall|i: int| 0 <= i < ab.len() implies kid_wf(
        pages,
        #[trigger] slot(ab, i),
        h,
        upper(ab, i, hi),
    ) by {
        if i < n {
            assert(ab[i] == a[i]);
            assert(kid_wf(pages, slot(a, i), h, upper(a, i, bound_at(b, 0, hi))));
            if i + 1 < n {
                assert(ab[i + 1] == a[i + 1]);
            } else if b.len() > 0 {
                assert(ab[i + 1] == b[0]);
            }
        } else {
            assert(ab[i] == b[i - n]);
            assert(kid_wf(pages, slot(b, i - n), h, upper(b, i - n, hi)));
            if i + 1 < ab.len() {
                assert(ab[i + 1] == b[i + 1 - n]);
            }
        }
    }
    assert forall|i: int, j: int|
        0 <= i < ab.len() && 0 <= j < ab.len() && i != j implies apart(
        pages,
        (#[trigger] slot(ab, i)).ptr,
        (#[trigger] slot(ab, j)).ptr,
        h,
    ) by {
        if i < n && j < n {
            assert(ab[i] == a[i] && ab[j] == a[j]);
            assert(apart(pages, slot(a, i).ptr, slot(a, j).ptr, h));
        } else if i >= n && j >= n {
            assert(ab[i] == b[i - n] && ab[j] == b[j - n]);
            assert(apart(pages, slot(b, i - n).ptr, slot(b, j - n).ptr, h));
        } else if i < n {
            assert(ab[i] == a[i] && ab[j] == b[j - n]);
            assert forall|p: u64| #[trigger] in_subtree(pages, a[i].ptr, h, p) implies !in_subtree(
                pages,
                b[j - n].ptr,
                h,
                p,
            ) by {
                assert(in_subtree(pages, slot(a, i).ptr, h, p));
                assert(in_kids(pages, a, h, p));
                if in_subtree(pages, b[j - n].ptr, h, p) {
                    assert(in_subtree(pages, slot(b, j - n).ptr, h, p));
                    assert(in_kids(pages, b, h, p));
                }
            }
        } else {
            assert(ab[i] == b[i - n] && ab[j] == a[j]);
            assert forall|p: u64| #[trigger] in_subtree(pages, b[i - n].ptr, h, p) implies !in_subtree(
                pages,
                a[j].ptr,
                h,
                p,
            ) by {
                if in_subtree(pages, a[j].ptr, h, p) {
                    assert(in_subtree(pages, slot(a, j).ptr, h, p));
                    assert(in_subtree(pages, slot(b, i - n).ptr, h, p));
                    assert(in_kids(pages, a, h, p));
                    assert(in_kids(pages, b, h, p));
                }
            }
        }
    }
}

/// A well-formed node written to a page of its own, its children left as
/// they were, is a well-formed subtree.
pub proof fn lemma_stored_wf(
    then: Seq<Seq<u8>>,
    now: Seq<Seq<u8>>,
    id: u64,
    m: NodeModel,
    h: nat,
    hi: Option<Seq<u8>>,
)
    requires
        node_wf(then, m, h, hi),
        page_ok(now, id),
        node_at(now, id) == m,
        h > 0 ==> same_kids(then, now, m.entries, (h - 1) as nat),
        h > 0 ==> !in_kids(then, m.entries, (h - 1) as nat, id),
    ensures
        subtree_wf(now, id, h, hi),
        node_wf(now, m, h, hi),
{
    if h > 0 {
        lemma_same_kids_wf(then, now, m.entries, (h - 1) as nat, hi);
        lemma_same_kids_pages(then, now, m.entries, (h - 1) as nat, id);
    }
}

/// The subtree made by storing a node uses the page and the pages of the
/// node's children.
pub proof fn lemma_stored_pages(
    then: Seq<Seq<u8>>,
    now: Seq<Seq<u8>>,
    id: u64,
    m: NodeModel,
    h: nat,
    p: u64,
)
    requires
        node_at(now, id) == m,
        h > 0 ==> same_kids(then, now, m.entries, (h - 1) as nat),
    ensures
        in_subtree(now, id, h, p) <==> p == id || (h > 0 && in_kids(
            then,
            m.entries,
            (h - 1) as nat,
            p,
        )),
{
    if h > 0 {
        lemma_same_kids_pages(then, now, m.entries, (h - 1) as nat, p);
    }
}

/// A node whose children are left as they were answers as before.
pub proof fn lemma_node_same_get(
    then: Seq<Seq<u8>>,
    now: Seq<Seq<u8>>,
    m: NodeModel,
    h: nat,
    hi: Option<Seq<u8>>,
    key: Seq<u8>,
)
    requires
        node_wf(then, m, h, hi),
        h > 0 ==> same_kids(then, now, m.entries, (h - 1) as nat),
    ensures
        node_get(now, m, h, key) == node_get(then, m, h, key),
{
    if h > 0 {
        let es = m.entries;
        lemma_child_index(keys_of(es), key);
        let c = child_index(keys_of(es), key);
        lemma_kid_same(then, now, es, (h - 1) as nat, c);
        assert(kid_wf(then, slot(es, c), (h - 1) as nat, upper(es, c, hi)));
        lemma_same_get(then, now, es[c].ptr, (h - 1) as nat, upper(es, c, hi), key);
    }
}

/// A run of the entries of a well-formed node is a well-formed node under
/// the bound of the run.
pub proof fn lemma_sub_node_wf(
    pages: Seq<Seq<u8>>,
    m: NodeModel,
    from: int,
    to: int,
    h: nat,
    hi: Option<Seq<u8>>,
)
    requires
        node_wf(pages, m, h, hi),
        0 <= from < to <= m.entries.len(),
    ensures
        node_wf(
            pages,
            NodeModel { leaf: m.leaf, entries: m.entries.subrange(from, to) },
            h,
            bound_at(m.entries, to, hi),
        ),
{
    let es = m.entries;
    let sub = es.subrange(from, to);
    lemma_subrange_wf(es, from, to);
    assert(sub.last() == es[to - 1]);
    if to < es.len() {
        assert(key_lt(keys_of(es)[to - 1], keys_of(es)[to]));
    }
    if h > 0 {
        lemma_kids_sub_wf(pages, es, from, to, (h - 1) as nat, hi);
    }
}

/// A key between the first key of a run and the key after the run gets
/// from the run what it gets from the whole node.
pub proof fn lemma_sub_node_get(
    pages: Seq<Seq<u8>>,
    m: NodeModel,
    from: int,
    to: int,
    h: nat,
    key: Seq<u8>,
)
    requires
        entries_wf(m.entries),
        0 <= from < to <= m.entries.len(),
        from > 0 ==> key_le(m.entries[from].key, key),
        to < m.entries.len() ==> key_lt(key, m.entries[to].key),
    ensures
        node_get(pages, NodeModel { leaf: m.leaf, entries: m.entries.subrange(from, to) }, h, key)
            == node_get(pages, m, h, key),
{
    let es = m.entries;
    let n = es.len() as int;
    let ks = keys_of(es);
    let head = es.take(to);
    let sub = es.subrange(from, to);
    let hk = keys_of(head);
    let sk = keys_of(sub);
    assert(hk =~= ks.take(to));
    assert(sk =~= hk.skip(from));
    assert(head.skip(from) =~= sub);
    lemma_sorted_subrange(ks, 0, to);
    assert(ks.take(to) =~= ks.subrange(0, to));
    if to < n {
        lemma_find_cut(ks, to, key);
        lemma_route_cut(ks, to, key);
    } else {
        assert(hk =~= ks);
    }
    if from > 0 {
        assert(hk[from] == es[from].key);
        lemma_not_lt(key, hk[from]);
        lemma_find_cut(hk, from, key);
        lemma_route_cut(hk, from, key);
    } else {
        assert(sk =~= hk);
    }
    lemma_sorted_subrange(ks, from, to);
    assert(sk =~= ks.subrange(from, to));
    if h == 0 {
        lemma_rank_splits(sk, key);
        if has_key(ks, key) {
            assert(sub[rank(sk, key)] == es[from + rank(sk, key)]);
        }
    } else {
        lemma_child_index(sk, key);
        let c = child_index(sk, key);
        assert(sub[c] == es[from + c]);
    }
}

/// A well-formed node holds no key at or over its bound.
pub proof fn lemma_none_above(
    pages: Seq<Seq<u8>>,
    m: NodeModel,
    h: nat,
    hi: Option<Seq<u8>>,
    key: Seq<u8>,
)
    requires
        node_wf(pages, m, h, hi),
        !below(key, hi),
    ensures
        node_get(pages, m, h, key) is None,
    decreases h,
{
    let es = m.entries;
    let keys = keys_of(es);
    let n = es.len() as int;
    if h == 0 {
        if has_key(keys, key) {
            lemma_rank_splits(keys, key);
            lemma_sorted_le(keys, rank(keys, key), n - 1);
            lemma_le_lt(key, es.last().key, hi->0);
        }
    } else {
        lemma_child_index_bounds(keys, key);
        let c = child_index(keys, key);
        if c + 1 < n {
            assert(key_lt(key, keys[c + 1]));
            lemma_sorted_le(keys, c + 1, n - 1);
            lemma_lt_le(key, es[c + 1].key, es.last().key);
            lemma_lt_transitive(key, es.last().key, hi->0);
        }
        assert(kid_wf(pages, slot(es, c), (h - 1) as nat, upper(es, c, hi)));
        lemma_none_above(pages, node_at(pages, es[c].ptr), (h - 1) as nat, hi, key);
    }
}

/// A well-formed node holds no key before its first key.
pub proof fn lemma_none_below(
    pages: Seq<Seq<u8>>,
    m: NodeModel,
    h: nat,
    hi: Option<Seq<u8>>,
    key: Seq<u8>,
)
    requires
        node_wf(pages, m, h, hi),
        key_lt(key, m.entries[0].key),
    ensures
        node_get(pages, m, h, key) is None,
    decreases h,
{
    let es = m.entries;
    let keys = keys_of(es);
    if h == 0 {
        if has_key(keys, key) {
            lemma_rank_splits(keys, key);
            lemma_sorted_le(keys, 0, rank(keys, key));
            lemma_lt_le(key, es[0].key, key);
            lemma_lt_irreflexive(key);
        }
    } else {
        lemma_child_index(keys, key);
        lemma_not_lt(keys[0], key);
        lemma_lt_asymmetric(key, keys[0]);
        let c = child_index(keys, key);
        assert(c == 0);
        assert(kid_wf(pages, slot(es, 0), (h - 1) as nat, upper(es, 0, hi)));
        let first = node_at(pages, es[0].ptr).entries[0].key;
        lemma_lt_le(key, es[0].key, first);
        lemma_none_below(pages, node_at(pages, es[0].ptr), (h - 1) as nat, upper(es, 0, hi), key);
    }
}

/// The children `es` with those from `from` up to `to` replaced by the
/// children `run`.
pub open spec fn regrown(es: Seq<EntryModel>, from: int, to: int, run: Seq<EntryModel>) -> Seq<
    EntryModel,
> {
    es.take(from) + run + es.skip(to)
}

/// Page `p` is part of a child of `es` outside the run from `from` up to
/// `to`.
pub open spec fn in_outside(
    pages: Seq<Seq<u8>>,
    es: Seq<EntryModel>,
    from: int,
    to: int,
    h: nat,
    p: u64,
) -> bool {
    exists|i: int|
        0 <= i < es.len() && (i < from || i >= to) && in_subtree(
            pages,
            (#[trigger] slot(es, i)).ptr,
            h,
            p,
        )
}

/// `now` holds every child of `es` outside the run from `from` up to `to`
/// as `then` does.
pub open spec fn same_outside(
    then: Seq<Seq<u8>>,
    now: Seq<Seq<u8>>,
    es: Seq<EntryModel>,
    from: int,
    to: int,
    h: nat,
) -> bool {
    &&& then.len() <= now.len()
    &&& forall|p: u64| #[trigger]
        in_outside(then, es, from, to, h, p) ==> now[p as int] == then[p as int]
}

/// The children on one side of a replaced run are left as they were, and
/// their pages are pages outside the run.
pub proof fn lemma_outside_same(
    then: Seq<Seq<u8>>,
    now: Seq<Seq<u8>>,
    es: Seq<EntryModel>,
    from: int,
    to: int,
    lo: int,
    up: int,
    h: nat,
)
    requires
        0 <= from <= to <= es.len(),
        0 <= lo <= up <= es.len(),
        up <= from || to <= lo,
        same_outside(then, now, es, from, to, h),
    ensures
        same_kids(then, now, es.subrange(lo, up), h),
        forall|p: u64| #[trigger]
            in_kids(now, es.subrange(lo, up), h, p) ==> in_outside(then, es, from, to, h, p),
{
    let sub = es.subrange(lo, up);
    assert forall|p: u64| #[trigger] in_kids(then, sub, h, p) implies in_outside(
        then,
        es,
        from,
        to,
        h,
        p,
    ) by {
        let i = choose|i: int|
            0 <= i < sub.len() && in_subtree(then, (#[trigger] slot(sub, i)).ptr, h, p);
        assert(sub[i] == es[lo + i]);
        assert(in_subtree(then, slot(es, lo + i).ptr, h, p));
    }
    assert forall|p: u64| #[trigger] in_kids(then, sub, h, p) implies now[p as int]
        == then[p as int] by {
        assert(in_outside(then, es, from, to, h, p));
    }
    assert forall|p: u64| #[trigger] in_kids(now, sub, h, p) implies in_outside(
        then,
        es,
        from,
        to,
        h,
        p,
    ) by {
        lemma_same_kids_pages(then, now, sub, h, p);
        assert(in_kids(then, sub, h, p));
    }
}

/// Replacing a run of children by well-formed children that keep its
/// first separator and its bound, and share no page with the children
/// outside the run, leaves well-formed children.
pub proof fn lemma_regrown_wf(
    then: Seq<Seq<u8>>,
    now: Seq<Seq<u8>>,
    es: Seq<EntryModel>,
    from: int,
    to: int,
    run: Seq<EntryModel>,
    h: nat,
    hi: Option<Seq<u8>>,
)
    requires
        kids_wf(then, es, h, hi),
        0 <= from < to <= es.len(),
        run.len() > 0,
        from > 0 ==> run[0].key == es[from].key,
        kids_wf(now, run, h, bound_at(es, to, hi)),
        same_outside(then, now, es, from, to, h),
        forall|p: u64| #[trigger] in_kids(now, run, h, p) ==> !in_outside(then, es, from, to, h, p),
    ensures
        kids_wf(now, regrown(es, from, to, run), h, hi),
{
    let n = es.len() as int;
    let left = es.take(from);
    let right = es.skip(to);
    assert(left =~= es.subrange(0, from));
    assert(right =~= es.subrange(to, n));
    lemma_outside_same(then, now, es, from, to, 0, from, h);
    lemma_outside_same(then, now, es, from, to, to, n, h);
    assert(kids_wf(now, left, h, bound_at(run, 0, bound_at(es, to, hi)))) by {
        lemma_kids_sub_wf(then, es, 0, from, h, hi);
        lemma_same_kids_wf(then, now, left, h, bound_at(es, from, hi));
    }
    assert(kids_wf(now, right, h, hi)) by {
        lemma_kids_sub_wf(then, es, to, n, h, hi);
        lemma_same_kids_wf(then, now, right, h, hi);
    }
    assert(bound_at(right, 0, hi) == bound_at(es, to, hi)) by {
        if to < n {
            assert(right[0] == es[to]);
        }
    }
    assert(kids_wf(now, left + run, h, bound_at(right, 0, hi))) by {
        lemma_kids_concat_wf(now, left, run, h, bound_at(es, to, hi));
    }
    assert forall|p: u64| #[trigger] in_kids(now, left + run, h, p) implies !in_kids(
        now,
        right,
        h,
        p,
    ) by {
        lemma_in_kids_concat(now, left, run, h, p);
        if in_kids(now, right, h, p) && in_kids(now, left, h, p) {
            lemma_same_kids_pages(then, now, left, h, p);
            lemma_same_kids_pages(then, now, right, h, p);
            let i = choose|i: int|
                0 <= i < left.len() && in_subtree(then, (#[trigger] slot(left, i)).ptr, h, p);
            let j = choose|j: int|
                0 <= j < right.len() && in_subtree(then, (#[trigger] slot(right, j)).ptr, h, p);
            assert(left[i] == es[i] && right[j] == es[to + j]);
            assert(apart(then, slot(es, i).ptr, slot(es, to + j).ptr, h));
        }
    }
    lemma_kids_concat_wf(now, left + run, right, h, hi);
}

/// The pages of the children after a run is replaced are those of the
/// replacement and of the children outside the run.
pub proof fn lemma_regrown_pages(
    then: Seq<Seq<u8>>,
    now: Seq<Seq<u8>>,
    es: Seq<EntryModel>,
    from: int,
    to: int,
    run: Seq<EntryModel>,
    h: nat,
    p: u64,
)
    requires
        0 <= from <= to <= es.len(),
        same_outside(then, now, es, from, to, h),
    ensures
        in_kids(now, regrown(es, from, to, run), h, p) <==> in_kids(now, run, h, p) || in_outside(
            then,
            es,
            from,
            to,
            h,
            p,
        ),
{
    let n = es.len() as int;
    let left = es.take(from);
    let right = es.skip(to);
    assert(left =~= es.subrange(0, from));
    assert(right =~= es.subrange(to, n));
    lemma_in_kids_concat(now, left + run, right, h, p);
    lemma_in_kids_concat(now, left, run, h, p);
    lemma_outside_same(then, now, es, from, to, 0, from, h);
    lemma_outside_same(then, now, es, from, to, to, n, h);
    if in_outside(then, es, from, to, h, p) {
        let i = choose|i: int|
            0 <= i < n && (i < from || i >= to) && in_subtree(
                then,
                (#[trigger] slot(es, i)).ptr,
                h,
                p,
            );
        if i < from {
            assert(left[i] == es[i]);
            assert(in_subtree(then, slot(left, i).ptr, h, p));
            lemma_same_kids_pages(then, now, left, h, p);
        } else {
            assert(right[i - to] == es[i]);
            assert(in_subtree(then, slot(right, i - to).ptr, h, p));
            lemma_same_kids_pages(then, now, right, h, p);
        }
    }
}

/// After a run is replaced a key gets from the children what it got from
/// the child outside the run that owned it, or what the replacement gives
/// if a child of the run owned it.
pub proof fn lemma_regrown_get(
    then: Seq<Seq<u8>>,
    now: Seq<Seq<u8>>,
    es: Seq<EntryModel>,
    from: int,
    to: int,
    run: Seq<EntryModel>,
    h: nat,
    hi: Option<Seq<u8>>,
    key: Seq<u8>,
)
    requires
        kids_wf(then, es, h, hi),
        0 <= from < to <= es.len(),
        run.len() > 0,
        from > 0 ==> run[0].key == es[from].key,
        from == 0 ==> key_le(run[0].key, es[0].key),
        kids_wf(now, regrown(es, from, to, run), h, hi),
        same_outside(then, now, es, from, to, h),
    ensures
        kids_get(now, regrown(es, from, to, run), h, key) == if from <= child_index(
            keys_of(es),
            key,
        ) < to {
            kids_get(now, run, h, key)
        } else {
            kids_get(then, es, h, key)
        },
{
    let out = regrown(es, from, to, run);
    let n = es.len() as int;
    let m = run.len() as int;
    lemma_kids_sorted(then, es, h, hi);
    lemma_kids_sorted(now, out, h, hi);
    assert(keys_of(out) =~= crate::route::respliced(keys_of(es), from, to, keys_of(run)));
    crate::route::lemma_route_resplice(keys_of(es), from, to, keys_of(run), key);
    lemma_child_index(keys_of(es), key);
    let c = child_index(keys_of(es), key);
    if from <= c < to {
        lemma_sorted_subrange(keys_of(out), from, from + m);
        assert(keys_of(run) =~= keys_of(out).subrange(from, from + m));
        lemma_child_index(keys_of(run), key);
        let r = child_index(keys_of(run), key);
        assert(out[from + r] == run[r]);
    } else {
        let c2 = if c < from {
            c
        } else {
            c - (to - from) + m
        };
        assert(out[c2] == es[c]);
        assert(kid_wf(then, slot(es, c), h, upper(es, c, hi)));
        assert forall|p: u64| #[trigger] in_subtree(then, es[c].ptr, h, p) implies now[p as int]
            == then[p as int] by {
            assert(in_subtree(then, slot(es, c).ptr, h, p));
            assert(in_outside(then, es, from, to, h, p));
        }
        lemma_same_get(then, now, es[c].ptr, h, upper(es, c, hi), key);
    }
}

/// The bound `lo` admits no key that `hi` refuses.
pub open spec fn within(lo: Option<Seq<u8>>, hi: Option<Seq<u8>>) -> bool {
    match hi {
        None => true,
        Some(h) => lo matches Some(l) && key_le(l, h),
    }
}

/// A key under a bound is under every wider bound.
pub proof fn lemma_below_widen(key: Seq<u8>, lo: Option<Seq<u8>>, hi: Option<Seq<u8>>)
    requires
        below(key, lo),
        within(lo, hi),
    ensures
        below(key, hi),
{
    if hi is Some {
        lemma_lt_le(key, lo->0, hi->0);
    }
}

/// A well-formed node is well formed under every wider bound.
pub proof fn lemma_widen(
    pages: Seq<Seq<u8>>,
    m: NodeModel,
    h: nat,
    lo: Option<Seq<u8>>,
    hi: Option<Seq<u8>>,
)
    requires
        node_wf(pages, m, h, lo),
        within(lo, hi),
    ensures
        node_wf(pages, m, h, hi),
    decreases h,
{
    let es = m.entries;
    let n = es.len() as int;
    lemma_below_widen(es.last().key, lo, hi);
    if h > 0 {
        let hk = (h - 1) as nat;
        assert forall|i: int| 0 <= i < n implies kid_wf(
            pages,
            #[trigger] slot(es, i),
            hk,
            upper(es, i, hi),
        ) by {
            assert(kid_wf(pages, slot(es, i), hk, upper(es, i, lo)));
            if i + 1 == n {
                lemma_widen(pages, node_at(pages, es[i].ptr), hk, lo, hi);
            }
        }
        assert forall|i: int, j: int| 0 <= i < n && 0 <= j < n && i != j implies apart(
            pages,
            (#[trigger] slot(es, i)).ptr,
            (#[trigger] slot(es, j)).ptr,
            hk,
        ) by {
            assert(apart(pages, slot(es, i).ptr, slot(es, j).ptr, hk));
        }
    }
}

/// Two well-formed nodes side by side, the first bounded by a separator at
/// or before the first key of the second and sharing no page with it, are
/// one well-formed node when joined.
pub proof fn lemma_node_concat_wf(
    pages: Seq<Seq<u8>>,
    a: NodeModel,
    b: NodeModel,
    h: nat,
    sep: Seq<u8>,
    hi: Option<Seq<u8>>,
)
    requires
        node_wf(pages, a, h, Some(sep)),
        node_wf(pages, b, h, hi),
        key_le(sep, b.entries[0].key),
        h > 0 ==> forall|p: u64| #[trigger]
            in_kids(pages, a.entries, (h - 1) as nat, p) ==> !in_kids(
                pages,
                b.entries,
                (h - 1) as nat,
                p,
            ),
    ensures
        node_wf(pages, NodeModel { leaf: a.leaf, entries: a.entries + b.entries }, h, hi),
{
    let out = a.entries + b.entries;
    lemma_lt_le(a.entries.last().key, sep, b.entries[0].key);
    crate::ops::lemma_concat_wf(a.entries, b.entries);
    assert(out.last() == b.entries.last());
    if h > 0 {
        lemma_widen(pages, a, h, Some(sep), Some(b.entries[0].key));
        lemma_kids_concat_wf(pages, a.entries, b.entries, (h - 1) as nat, hi);
    }
}

/// What a key gets from two nodes joined: what the first gives if the key
/// is before the first key of the second, else what the second gives.
pub proof fn lemma_node_concat_get(
    pages: Seq<Seq<u8>>,
    a: NodeModel,
    b: NodeModel,
    h: nat,
    key: Seq<u8>,
)
    requires
        entries_wf(a.entries + b.entries),
        a.entries.len() > 0,
        b.entries.len() > 0,
        a.leaf == b.leaf,
    ensures
        node_get(pages, NodeModel { leaf: a.leaf, entries: a.entries + b.entries }, h, key)
            == if key_lt(key, b.entries[0].key) {
            node_get(pages, a, h, key)
        } else {
            node_get(pages, b, h, key)
        },
{
    let v = NodeModel { leaf: a.leaf, entries: a.entries + b.entries };
    let la = a.entries.len() as int;
    let n = v.entries.len() as int;
    assert(v.entries[la] == b.entries[0]);
    assert(v.entries.subrange(0, la) =~= a.entries);
    assert(v.entries.subrange(la, n) =~= b.entries);
    if key_lt(key, b.entries[0].key) {
        lemma_sub_node_get(pages, v, 0, la, h, key);
    } else {
        lemma_not_lt(key, b.entries[0].key);
        lemma_sub_node_get(pages, v, la, n, h, key);
    }
}

} // verus!
