//! What an update owes: the statements that the rebuilt path of an insert
//! or a delete satisfies, level by level, and the proofs that carry them
//! from a child to its parent.

use crate::graft::{lemma_kids_sorted};
use crate::keys::{
    key_le, key_lt, lemma_le_lt, lemma_lt_asymmetric, lemma_not_lt, strictly_sorted,
};
use crate::node::{keys_of, EntryModel, NodeModel, BTREE_MAX_KEY_SIZE, BTREE_MAX_VAL_SIZE};
use crate::ops::{
    child_entry, child_index, leaf_get, lemma_child_index, lemma_upsert, lemma_upsert_ends,
    lemma_upsert_get, min_key, upsert,
};
use crate::pager::{PageManager, META_PAGE};
use crate::route::{lemma_le_transitive, lemma_route_lower_first};
use crate::shape::{
    apart, below, in_kids, in_subtree, kid_wf, kids_get, kids_wf, lemma_same_get,
    lemma_same_pages, lemma_same_wf, node_at, node_get, node_wf, slot, subtree_get, subtree_wf,
    upper,
};
use crate::store::{all_live, grows, kid_pages, kids_sound, lemma_grows_live, lemma_grows_trans, placed_get, placed_pages};
use vstd::prelude::*;

verus! {

/// What a key gets after an update that binds `key` to `val` (or removes
/// it, for `None`), given what it got before.
pub open spec fn updated(key: Seq<u8>, val: Option<Seq<u8>>, k: Seq<u8>, before: Option<Seq<u8>>) -> Option<
    Seq<u8>,
> {
    if k == key {
        val
    } else {
        before
    }
}

/// The node holding `m`, not yet written to a page, can take the place of
/// the subtree at `id`: it is well formed over the pages as they are now,
/// it answers as the subtree did but for `key`, the pages below it are
/// live and are new or were below `id`, and nothing but pages of the old
/// subtree has been freed.
pub open spec fn rebuilt(
    then: PageManager,
    now: PageManager,
    id: u64,
    h: nat,
    hi: Option<Seq<u8>>,
    key: Seq<u8>,
    val: Option<Seq<u8>>,
    m: NodeModel,
) -> bool {
    &&& node_wf(now.pages(), m, h, hi)
    &&& forall|k: Seq<u8>| #[trigger]
        node_get(now.pages(), m, h, k) == updated(
            key,
            val,
            k,
            subtree_get(then.pages(), id, h, k),
        )
    &&& forall|p: u64| #[trigger]
        kid_pages(now.pages(), m, h, p) ==> now.live(p) && p != id && (!then.live(p) || in_subtree(
            then.pages(),
            id,
            h,
            p,
        ))
    &&& forall|p: u64| #[trigger]
        now.pending().contains(p) ==> then.pending().contains(p) || (p != id && in_subtree(
            then.pages(),
            id,
            h,
            p,
        ))
}

/// The children `ks` can take the place of the subtree at `id`: they are
/// well formed, they answer as the subtree did but for `key`, their pages
/// are live and are new or were pages of the subtree, and nothing but
/// pages of the old subtree has been freed.
pub open spec fn replaced(
    then: PageManager,
    now: PageManager,
    id: u64,
    h: nat,
    hi: Option<Seq<u8>>,
    key: Seq<u8>,
    val: Option<Seq<u8>>,
    ks: Seq<EntryModel>,
) -> bool {
    &&& kids_wf(now.pages(), ks, h, hi)
    &&& forall|k: Seq<u8>| #[trigger]
        kids_get(now.pages(), ks, h, k) == updated(
            key,
            val,
            k,
            subtree_get(then.pages(), id, h, k),
        )
    &&& forall|p: u64| #[trigger]
        in_kids(now.pages(), ks, h, p) ==> now.live(p) && (!then.live(p) || in_subtree(
            then.pages(),
            id,
            h,
            p,
        ))
    &&& forall|p: u64| #[trigger]
        now.pending().contains(p) ==> then.pending().contains(p) || in_subtree(
            then.pages(),
            id,
            h,
            p,
        )
}

/// What freeing a live page does to the store, in the terms updates are
/// described in.
pub proof fn lemma_freed(a: PageManager, b: PageManager, id: u64)
    requires
        a.wf(),
        b.wf(),
        b.pages() == a.pages(),
        b.free_list() == a.free_list(),
        b.root() == a.root(),
        b.pending() == a.pending().push(id),
    ensures
        grows(a, b),
        !b.live(id),
        forall|p: u64| #[trigger] a.live(p) && p != id ==> b.live(p),
        forall|p: u64| #[trigger] b.pending().contains(p) ==> a.pending().contains(p) || p == id,
{
    assert(b.pending()[a.pending().len() as int] == id);
    assert forall|p: u64| #[trigger] a.pending().contains(p) implies b.pending().contains(p) by {
        let i = choose|i: int| 0 <= i < a.pending().len() && a.pending()[i] == p;
        assert(b.pending()[i] == p);
    }
    assert forall|p: u64| #[trigger] b.pending().contains(p) implies a.pending().contains(p) || p
        == id by {
        let i = choose|i: int| 0 <= i < b.pending().len() && b.pending()[i] == p;
        if i < a.pending().len() {
            assert(a.pending()[i] == p);
        }
    }
}

/// The node that was rebuilt has been written out as the children `ks`
/// and the old page `id` has been freed: the children take the place of
/// the old subtree.
pub proof fn lemma_finish(
    then: PageManager,
    mid: PageManager,
    put: PageManager,
    now: PageManager,
    id: u64,
    h: nat,
    hi: Option<Seq<u8>>,
    key: Seq<u8>,
    val: Option<Seq<u8>>,
    m: NodeModel,
    ks: Seq<EntryModel>,
)
    requires
        then.live(id),
        grows(then, mid),
        rebuilt(then, mid, id, h, hi, key, val, m),
        grows(mid, put),
        put.pending() == mid.pending(),
        kids_wf(put.pages(), ks, h, hi),
        placed_get(mid.pages(), put.pages(), m, h, ks, m.entries.len() as int),
        placed_pages(mid, put, m, h, ks, m.entries.len() as int),
        now.wf(),
        now.pages() == put.pages(),
        now.free_list() == put.free_list(),
        now.root() == put.root(),
        now.pending() == put.pending().push(id),
    ensures
        grows(then, now),
        replaced(then, now, id, h, hi, key, val, ks),
{
    let n = m.entries.len() as int;
    lemma_freed(put, now, id);
    lemma_grows_trans(then, mid, put);
    lemma_grows_trans(then, put, now);
    assert(m.entries.take(n) =~= m.entries);
    assert forall|k: Seq<u8>| #[trigger]
        kids_get(now.pages(), ks, h, k) == updated(
            key,
            val,
            k,
            subtree_get(then.pages(), id, h, k),
        ) by {
        assert(kids_get(put.pages(), ks, h, k) == node_get(mid.pages(), m, h, k));
    }
    assert forall|p: u64| #[trigger] in_kids(now.pages(), ks, h, p) implies now.live(p) && (
    !then.live(p) || in_subtree(then.pages(), id, h, p)) by {
        assert(put.live(p));
        lemma_grows_live(then, mid, p);
        lemma_grows_live(mid, put, p);
        if !mid.live(p) {
            // a page that was not in use when the node was placed
            if then.live(p) {
                assert(mid.pending().contains(p));
                assert(put.pending().contains(p));
            }
        } else {
            assert(kid_pages(mid.pages(), m, h, p));
        }
        assert(p != id) by {
            if p == id {
                lemma_grows_live(then, mid, id);
                if mid.live(id) {
                    assert(kid_pages(mid.pages(), m, h, id));
                } else {
                    assert(mid.pending().contains(id));
                    assert(put.pending().contains(id));
                }
            }
        }
    }
    assert forall|p: u64| #[trigger] now.pending().contains(p) implies then.pending().contains(p)
        || in_subtree(then.pages(), id, h, p) by {
        if p != id {
            assert(put.pending().contains(p));
            assert(mid.pending().contains(p));
        }
    }
}

/// The children `ks` with the first separator lowered to `first`.
pub open spec fn lowered(ks: Seq<EntryModel>, first: Seq<u8>) -> Seq<EntryModel> {
    ks.update(0, child_entry(first, ks[0].ptr))
}

/// Lowering the first separator of well-formed children leaves them well
/// formed.
pub proof fn lemma_lowered_wf(
    pages: Seq<Seq<u8>>,
    ks: Seq<EntryModel>,
    first: Seq<u8>,
    h: nat,
    hi: Option<Seq<u8>>,
)
    requires
        kids_wf(pages, ks, h, hi),
        ks.len() > 0,
        key_le(first, ks[0].key),
    ensures
        kids_wf(pages, lowered(ks, first), h, hi),
{
    let low = lowered(ks, first);
    assert forall|i: int| 0 <= i < low.len() implies kid_wf(
        pages,
        #[trigger] slot(low, i),
        h,
        upper(low, i, hi),
    ) by {
        assert(kid_wf(pages, slot(ks, i), h, upper(ks, i, hi)));
        if i + 1 < low.len() {
            assert(low[i + 1] == ks[i + 1]);
        }
        if i == 0 {
            lemma_le_transitive(first, ks[0].key, node_at(pages, ks[0].ptr).entries[0].key);
        } else {
            assert(low[i] == ks[i]);
        }
    }
    assert forall|i: int, j: int|
        0 <= i < low.len() && 0 <= j < low.len() && i != j implies apart(
        pages,
        (#[trigger] slot(low, i)).ptr,
        (#[trigger] slot(low, j)).ptr,
        h,
    ) by {
        assert(apart(pages, slot(ks, i).ptr, slot(ks, j).ptr, h));
    }
}

/// Lowering the first separator changes no page of the children.
pub proof fn lemma_lowered_pages(
    pages: Seq<Seq<u8>>,
    ks: Seq<EntryModel>,
    first: Seq<u8>,
    h: nat,
    p: u64,
)
    requires
        ks.len() > 0,
    ensures
        in_kids(pages, lowered(ks, first), h, p) == in_kids(pages, ks, h, p),
{
    let low = lowered(ks, first);
    if in_kids(pages, low, h, p) {
        let i = choose|i: int|
            0 <= i < low.len() && in_subtree(pages, (#[trigger] slot(low, i)).ptr, h, p);
        assert(in_subtree(pages, slot(ks, i).ptr, h, p));
    }
    if in_kids(pages, ks, h, p) {
        let i = choose|i: int|
            0 <= i < ks.len() && in_subtree(pages, (#[trigger] slot(ks, i)).ptr, h, p);
        assert(in_subtree(pages, slot(low, i).ptr, h, p));
    }
}

/// Lowering the first separator changes no answer of the children.
pub proof fn lemma_lowered_get(
    pages: Seq<Seq<u8>>,
    ks: Seq<EntryModel>,
    first: Seq<u8>,
    h: nat,
    hi: Option<Seq<u8>>,
    key: Seq<u8>,
)
    requires
        kids_wf(pages, ks, h, hi),
        ks.len() > 0,
        key_le(first, ks[0].key),
    ensures
        kids_get(pages, lowered(ks, first), h, key) == kids_get(pages, ks, h, key),
{
    let low = lowered(ks, first);
    lemma_kids_sorted(pages, ks, h, hi);
    lemma_route_lower_first(keys_of(ks), first, key);
    assert(keys_of(low) =~= keys_of(ks).update(0, first));
    lemma_child_index(keys_of(ks), key);
    let c = child_index(keys_of(ks), key);
    assert(low[c].ptr == ks[c].ptr);
}

/// A leaf with an entry put in, not yet written to a page, can take the
/// place of the leaf it was made from.
pub proof fn lemma_leaf_rebuilt(
    then: PageManager,
    id: u64,
    hi: Option<Seq<u8>>,
    key: Seq<u8>,
    val: Seq<u8>,
)
    requires
        then.wf(),
        subtree_wf(then.pages(), id, 0, hi),
        all_live(then, id, 0),
        below(key, hi),
        key.len() <= BTREE_MAX_KEY_SIZE,
        val.len() <= BTREE_MAX_VAL_SIZE,
    ensures
        rebuilt(
            then,
            then,
            id,
            0,
            hi,
            key,
            Some(val),
            NodeModel {
                leaf: true,
                entries: upsert(
                    node_at(then.pages(), id).entries,
                    EntryModel { ptr: 0, key, val },
                ),
            },
        ),
{
    let es = node_at(then.pages(), id).entries;
    let e = EntryModel { ptr: 0, key, val };
    let m = NodeModel { leaf: true, entries: upsert(es, e) };
    lemma_upsert(es, e);
    lemma_upsert_ends(es, e);
    assert forall|k: Seq<u8>| #[trigger]
        node_get(then.pages(), m, 0, k) == updated(
            key,
            Some(val),
            k,
            subtree_get(then.pages(), id, 0, k),
        ) by {
        lemma_upsert_get(es, e, k);
        assert(node_get(then.pages(), m, 0, k) == leaf_get(m.entries, k));
        assert(subtree_get(then.pages(), id, 0, k) == leaf_get(es, k));
    }
}

/// The smaller of a key and a separator is at or before the smaller of
/// the key and any key at or after the separator.
pub proof fn lemma_min_mono(key: Seq<u8>, sep: Seq<u8>, first: Seq<u8>)
    requires
        key_le(sep, first),
    ensures
        key_le(min_key(key, sep), min_key(key, first)),
        key_le(min_key(key, sep), sep),
        !key_lt(key, sep) ==> min_key(key, sep) == sep,
{
    lemma_not_lt(key, sep);
    lemma_not_lt(key, first);
    if key_lt(key, sep) {
        if !key_lt(key, first) {
            lemma_lt_asymmetric(key, sep);
            if first != key {
                crate::keys::lemma_lt_transitive(first, key, sep);
                lemma_le_lt(sep, first, sep);
                crate::keys::lemma_lt_irreflexive(sep);
            }
        }
    } else {
        if key_lt(key, first) {
        } else {
        }
    }
}

/// A single child answers for every key, and its pages are the pages of
/// the children.
pub proof fn lemma_single_kid(pages: Seq<Seq<u8>>, ks: Seq<EntryModel>, h: nat, key: Seq<u8>, p: u64)
    requires
        ks.len() == 1,
    ensures
        kids_get(pages, ks, h, key) == subtree_get(pages, ks[0].ptr, h, key),
        in_kids(pages, ks, h, p) == in_subtree(pages, ks[0].ptr, h, p),
{
    let keys = keys_of(ks);
    assert(strictly_sorted(keys));
    lemma_child_index(keys, key);
    if in_kids(pages, ks, h, p) {
        let i = choose|i: int|
            0 <= i < ks.len() && in_subtree(pages, (#[trigger] slot(ks, i)).ptr, h, p);
        assert(i == 0);
    }
    if in_subtree(pages, ks[0].ptr, h, p) {
        assert(in_subtree(pages, slot(ks, 0).ptr, h, p));
    }
}

/// What the tree rooted at `root` held for `key`; the root 0 stands for
/// the empty tree.
pub open spec fn held(pm: PageManager, root: u64, h: nat, key: Seq<u8>) -> Option<Seq<u8>> {
    if root == 0 {
        None
    } else {
        subtree_get(pm.pages(), root, h, key)
    }
}

/// The subtree at `root` can become the tree after an update that binds
/// `key` to `val` (or removes it): it is well formed, its pages are live,
/// and it answers as the old tree did but for `key`.
pub open spec fn candidate(
    then: PageManager,
    old_root: u64,
    old_h: nat,
    now: PageManager,
    root: u64,
    h: nat,
    key: Seq<u8>,
    val: Option<Seq<u8>>,
) -> bool {
    &&& subtree_wf(now.pages(), root, h, None)
    &&& all_live(now, root, h)
    &&& forall|k: Seq<u8>| #[trigger]
        subtree_get(now.pages(), root, h, k) == updated(key, val, k, held(then, old_root, old_h, k))
}

/// A single child that takes the place of the old root can become the
/// tree.
pub proof fn lemma_candidate_single(
    then: PageManager,
    now: PageManager,
    id: u64,
    h: nat,
    key: Seq<u8>,
    val: Option<Seq<u8>>,
    ks: Seq<EntryModel>,
)
    requires
        id != 0,
        replaced(then, now, id, h, None, key, val, ks),
        ks.len() == 1,
    ensures
        candidate(then, id, h, now, ks[0].ptr, h, key, val),
{
    let np = now.pages();
    assert(kid_wf(np, slot(ks, 0), h, upper(ks, 0, None)));
    assert forall|p: u64| #[trigger] in_subtree(np, ks[0].ptr, h, p) implies now.live(p) by {
        lemma_single_kid(np, ks, h, key, p);
        assert(in_kids(np, ks, h, p));
    }
    assert forall|k: Seq<u8>| #[trigger]
        subtree_get(np, ks[0].ptr, h, k) == updated(key, val, k, held(then, id, h, k)) by {
        lemma_single_kid(np, ks, h, k, 0);
        assert(kids_get(np, ks, h, k) == updated(key, val, k, subtree_get(then.pages(), id, h, k)));
    }
}

/// The single node written out for a node that has been rebuilt, or built
/// anew, can become the tree.
pub proof fn lemma_candidate_placed(
    then: PageManager,
    old_root: u64,
    old_h: nat,
    mid: PageManager,
    now: PageManager,
    m: NodeModel,
    h: nat,
    key: Seq<u8>,
    val: Option<Seq<u8>>,
    ks: Seq<EntryModel>,
)
    requires
        ks.len() == 1,
        kids_wf(now.pages(), ks, h, None),
        placed_get(mid.pages(), now.pages(), m, h, ks, m.entries.len() as int),
        placed_pages(mid, now, m, h, ks, m.entries.len() as int),
        forall|k: Seq<u8>| #[trigger]
            node_get(mid.pages(), m, h, k) == updated(key, val, k, held(then, old_root, old_h, k)),
    ensures
        candidate(then, old_root, old_h, now, ks[0].ptr, h, key, val),
{
    let np = now.pages();
    assert(kid_wf(np, slot(ks, 0), h, upper(ks, 0, None)));
    assert forall|p: u64| #[trigger] in_subtree(np, ks[0].ptr, h, p) implies now.live(p) by {
        lemma_single_kid(np, ks, h, key, p);
        assert(in_kids(np, ks, h, p));
    }
    assert forall|k: Seq<u8>| #[trigger]
        subtree_get(np, ks[0].ptr, h, k) == updated(key, val, k, held(then, old_root, old_h, k)) by {
        lemma_single_kid(np, ks, h, k, 0);
        assert(kids_get(np, ks, h, k) == node_get(mid.pages(), m, h, k));
    }
}

/// The children that take the place of the old root, put under a node of
/// their own, make a well-formed node over live pages that answers as the
/// children do.
pub proof fn lemma_root_over(
    then: PageManager,
    now: PageManager,
    id: u64,
    h: nat,
    key: Seq<u8>,
    val: Option<Seq<u8>>,
    ks: Seq<EntryModel>,
)
    requires
        id != 0,
        replaced(then, now, id, h, None, key, val, ks),
        kids_sound(ks),
        ks.len() > 0,
    ensures
        node_wf(now.pages(), NodeModel { leaf: false, entries: ks }, h + 1, None),
        crate::store::node_live(now, NodeModel { leaf: false, entries: ks }, h + 1),
        forall|k: Seq<u8>| #[trigger]
            node_get(now.pages(), NodeModel { leaf: false, entries: ks }, h + 1, k) == updated(
                key,
                val,
                k,
                held(then, id, h, k),
            ),
{
    let m = NodeModel { leaf: false, entries: ks };
    assert forall|k: Seq<u8>| #[trigger]
        node_get(now.pages(), m, h + 1, k) == updated(key, val, k, held(then, id, h, k)) by {
        assert(kids_get(now.pages(), ks, h, k) == updated(
            key,
            val,
            k,
            subtree_get(then.pages(), id, h, k),
        ));
    }
    assert forall|p: u64| #[trigger] kid_pages(now.pages(), m, h + 1, p) implies now.live(p) by {
        assert(in_kids(now.pages(), ks, h, p));
    }
}

/// A commit leaves a subtree of live pages as it was, and its pages live.
pub proof fn lemma_committed(a: PageManager, b: PageManager, root: u64, h: nat)
    requires
        a.wf(),
        b.wf(),
        subtree_wf(a.pages(), root, h, None),
        all_live(a, root, h),
        b.free_list() == a.free_list() + a.pending(),
        b.pending().len() == 0,
        b.pages().len() == a.pages().len(),
        forall|p: int|
            0 <= p < a.pages().len() && p != META_PAGE && !a.pending().contains(p as u64)
                ==> #[trigger] b.pages()[p] == a.pages()[p],
    ensures
        subtree_wf(b.pages(), root, h, None),
        all_live(b, root, h),
        forall|k: Seq<u8>| #[trigger]
            subtree_get(b.pages(), root, h, k) == subtree_get(a.pages(), root, h, k),
{
    let ap = a.pages();
    let bp = b.pages();
    assert forall|p: u64| #[trigger] in_subtree(ap, root, h, p) implies bp[p as int]
        == ap[p as int] by {
        assert(a.live(p));
        assert(bp[p as int] == ap[p as int]);
    }
    lemma_same_wf(ap, bp, root, h, None);
    assert forall|p: u64| #[trigger] in_subtree(bp, root, h, p) implies b.live(p) by {
        lemma_same_pages(ap, bp, root, h, p);
        assert(a.live(p));
        if b.free_list().contains(p) {
            let i = choose|i: int| 0 <= i < b.free_list().len() && b.free_list()[i] == p;
            if i < a.free_list().len() {
                assert(a.free_list()[i] == p);
            } else {
                assert(a.pending()[i - a.free_list().len()] == p);
            }
        }
    }
    assert forall|k: Seq<u8>| #[trigger]
        subtree_get(bp, root, h, k) == subtree_get(ap, root, h, k) by {
        lemma_same_get(ap, bp, root, h, None, k);
    }
}

/// Children with their first separator lowered are still entries an
/// internal node can hold.
pub proof fn lemma_lowered_sound(ks: Seq<EntryModel>, first: Seq<u8>)
    requires
        kids_sound(ks),
        ks.len() > 0,
        first.len() <= BTREE_MAX_KEY_SIZE,
        key_le(first, ks[0].key),
    ensures
        kids_sound(lowered(ks, first)),
{
    let low = lowered(ks, first);
    lemma_route_lower_first(keys_of(ks), first, first);
    assert(keys_of(low) =~= keys_of(ks).update(0, first));
    assert forall|i: int| 0 <= i < low.len() implies (#[trigger] low[i]).key.len()
        <= BTREE_MAX_KEY_SIZE && low[i].val.len() <= BTREE_MAX_VAL_SIZE && low[i].val.len()
        == 0 by {
        if i > 0 {
            assert(low[i] == ks[i]);
        }
    }
}

} // verus!
