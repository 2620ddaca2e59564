//! Rebuilding a node after a delete below it: the child that lost the key
//! is stored again, alone or joined with a sibling, and the entries that
//! named it and the sibling are replaced by the entries for what was
//! stored.

use crate::graft::{
    bound_at, in_outside, lemma_in_kids_concat, lemma_kids_sorted, lemma_node_concat_get, lemma_node_concat_wf,
    lemma_node_same_get, lemma_none_above, lemma_none_below, lemma_regrown_get,
    lemma_regrown_pages, lemma_regrown_wf, lemma_widen, regrown, same_outside, within,
};
use crate::keys::{key_le, key_lt, lemma_lt_le, lemma_not_lt};
use crate::route::{lemma_child_index_bounds, lemma_le_transitive};
use crate::shape::{below, lemma_same_kids_pages, lemma_same_kids_wf, same_kids};
use crate::node::{
    encoded_size, entries_wf, keys_of, lemma_records_size_concat, EntryModel, NodeModel,
    BTREE_MAX_KEY_SIZE, BTREE_MAX_VAL_SIZE,
};
use crate::ops::{
    child_index, has_key, leaf_get, lemma_child_index, lemma_without_ends, lemma_without_get,
    without,
};
use crate::pager::PageManager;
use crate::shape::{
    apart, in_kids, in_subtree, kid_wf, kids_get, kids_wf, node_at, node_get, node_wf, slot,
    subtree_get, subtree_wf, upper,
};
use crate::store::{
    all_live, grows, kid_pages, kids_sound, lemma_descend, lemma_grows_live, lemma_grows_trans,
    node_live, placed_get, placed_pages,
};
use crate::update::{
    candidate, held, lemma_freed, lemma_lowered_get, lemma_lowered_pages, lemma_lowered_wf,
    lemma_single_kid, lowered, rebuilt, updated,
};
use vstd::prelude::*;

verus! {

/// Page `p` is part of one of the children of `es` from `from` up to `to`.
pub open spec fn in_run(
    pages: Seq<Seq<u8>>,
    es: Seq<EntryModel>,
    from: int,
    to: int,
    h: nat,
    p: u64,
) -> bool {
    exists|i: int| from <= i < to && in_subtree(pages, (#[trigger] slot(es, i)).ptr, h, p)
}

/// Page `p` is the root of one of the children of `es` from `from` up to
/// `to`.
pub open spec fn run_root(es: Seq<EntryModel>, from: int, to: int, p: u64) -> bool {
    exists|i: int| from <= i < to && (#[trigger] slot(es, i)).ptr == p
}

/// The children `ks` can take the place of the children of the node at
/// `id` from `from` up to `to`: they are well formed under the bound of
/// the run, a key that one of the run owned gets from them what it got
/// before but for `key`, their pages are live and are new or were pages of
/// the run, and nothing but pages of the run has been freed.
pub open spec fn run_replaced(
    then: PageManager,
    now: PageManager,
    id: u64,
    h: nat,
    hi: Option<Seq<u8>>,
    key: Seq<u8>,
    val: Option<Seq<u8>>,
    from: int,
    to: int,
    ks: Seq<EntryModel>,
) -> bool {
    let es = node_at(then.pages(), id).entries;
    let hk = (h - 1) as nat;
    &&& kids_wf(now.pages(), ks, hk, bound_at(es, to, hi))
    &&& forall|k: Seq<u8>|
        from <= child_index(keys_of(es), k) < to ==> #[trigger] kids_get(now.pages(), ks, hk, k)
            == updated(key, val, k, kids_get(then.pages(), es, hk, k))
    &&& forall|p: u64| #[trigger]
        in_kids(now.pages(), ks, hk, p) ==> now.live(p) && (!then.live(p) || in_run(
            then.pages(),
            es,
            from,
            to,
            hk,
            p,
        ))
    &&& forall|p: u64| #[trigger]
        now.pending().contains(p) ==> then.pending().contains(p) || in_run(
            then.pages(),
            es,
            from,
            to,
            hk,
            p,
        )
}

/// What is known when children of the node at `id` have been replaced and
/// the node is to be rebuilt.
pub open spec fn regrow_pre(
    then: PageManager,
    now: PageManager,
    id: u64,
    h: nat,
    hi: Option<Seq<u8>>,
    key: Seq<u8>,
    val: Option<Seq<u8>>,
    from: int,
    to: int,
    ks: Seq<EntryModel>,
    sep: Seq<u8>,
) -> bool {
    let es = node_at(then.pages(), id).entries;
    let c = child_index(keys_of(es), key);
    &&& h > 0
    &&& subtree_wf(then.pages(), id, h, hi)
    &&& all_live(then, id, h)
    &&& grows(then, now)
    &&& 0 <= from <= c < to <= es.len()
    &&& ks.len() > 0
    &&& kids_sound(ks)
    &&& sep.len() <= BTREE_MAX_KEY_SIZE
    &&& from > 0 ==> sep == es[from].key
    &&& from == 0 ==> key_le(sep, es[0].key)
    &&& key_le(sep, ks[0].key)
    &&& run_replaced(then, now, id, h, hi, key, val, from, to, ks)
}

/// The children of a node outside a run that has been replaced are live,
/// untouched, no page of the run, and not the node's own page.
pub proof fn lemma_outside_run(
    then: PageManager,
    now: PageManager,
    id: u64,
    h: nat,
    hi: Option<Seq<u8>>,
    from: int,
    to: int,
    p: u64,
)
    requires
        h > 0,
        subtree_wf(then.pages(), id, h, hi),
        all_live(then, id, h),
        grows(then, now),
        0 <= from <= to <= node_at(then.pages(), id).entries.len(),
        forall|q: u64| #[trigger]
            now.pending().contains(q) ==> then.pending().contains(q) || in_run(
                then.pages(),
                node_at(then.pages(), id).entries,
                from,
                to,
                (h - 1) as nat,
                q,
            ),
        in_outside(then.pages(), node_at(then.pages(), id).entries, from, to, (h - 1) as nat, p),
    ensures
        then.live(p),
        now.live(p),
        p != id,
        in_subtree(then.pages(), id, h, p),
        now.pages()[p as int] == then.pages()[p as int],
        !in_run(then.pages(), node_at(then.pages(), id).entries, from, to, (h - 1) as nat, p),
{
    let t = then.pages();
    let es = node_at(t, id).entries;
    let hk = (h - 1) as nat;
    let i = choose|i: int|
        0 <= i < es.len() && (i < from || i >= to) && in_subtree(
            t,
            (#[trigger] slot(es, i)).ptr,
            hk,
            p,
        );
    assert(in_kids(t, es, hk, p));
    assert(in_subtree(t, id, h, p));
    lemma_grows_live(then, now, p);
    if in_run(t, es, from, to, hk, p) {
        let j = choose|j: int| from <= j < to && in_subtree(t, (#[trigger] slot(es, j)).ptr, hk, p);
        assert(apart(t, slot(es, i).ptr, slot(es, j).ptr, hk));
    }
}

/// With a run of children replaced, the node rebuilt from its entries can
/// take the place of the subtree.
pub proof fn lemma_regrow(
    then: PageManager,
    now: PageManager,
    id: u64,
    h: nat,
    hi: Option<Seq<u8>>,
    key: Seq<u8>,
    val: Option<Seq<u8>>,
    from: int,
    to: int,
    ks: Seq<EntryModel>,
    sep: Seq<u8>,
)
    requires
        regrow_pre(then, now, id, h, hi, key, val, from, to, ks, sep),
    ensures
        rebuilt(
            then,
            now,
            id,
            h,
            hi,
            key,
            val,
            NodeModel {
                leaf: false,
                entries: regrown(node_at(then.pages(), id).entries, from, to, lowered(ks, sep)),
            },
        ),
{
    let t = then.pages();
    let np = now.pages();
    let es = node_at(t, id).entries;
    let c = child_index(keys_of(es), key);
    let hk = (h - 1) as nat;
    let hb = bound_at(es, to, hi);
    let low = lowered(ks, sep);
    let out = regrown(es, from, to, low);
    let m = NodeModel { leaf: false, entries: out };
    assert(in_subtree(t, id, h, id));
    assert forall|p: u64| #[trigger] in_outside(t, es, from, to, hk, p) implies np[p as int]
        == t[p as int] by {
        lemma_outside_run(then, now, id, h, hi, from, to, p);
    }
    assert(same_outside(t, np, es, from, to, hk));
    lemma_lowered_wf(np, ks, sep, hk, hb);
    assert forall|p: u64| #[trigger] in_kids(np, low, hk, p) implies !in_outside(
        t,
        es,
        from,
        to,
        hk,
        p,
    ) by {
        lemma_lowered_pages(np, ks, sep, hk, p);
        assert(in_kids(np, ks, hk, p));
        if in_outside(t, es, from, to, hk, p) {
            lemma_outside_run(then, now, id, h, hi, from, to, p);
        }
    }
    lemma_regrown_wf(t, np, es, from, to, low, hk, hi);
    lemma_kids_sorted(np, out, hk, hi);
    assert(entries_wf(out)) by {
        assert forall|i: int| 0 <= i < out.len() implies (#[trigger] out[i]).key.len()
            <= BTREE_MAX_KEY_SIZE && out[i].val.len() <= BTREE_MAX_VAL_SIZE by {
            if i < from {
                assert(out[i] == es[i]);
            } else if i < from + low.len() {
                assert(out[i] == low[i - from]);
                if i > from {
                    assert(low[i - from] == ks[i - from]);
                }
            } else {
                assert(out[i] == es[i - low.len() + (to - from)]);
            }
        }
    }
    assert forall|k: Seq<u8>| #[trigger]
        node_get(np, m, h, k) == updated(key, val, k, subtree_get(t, id, h, k)) by {
        lemma_regrown_get(t, np, es, from, to, low, hk, hi, k);
        lemma_lowered_get(np, ks, sep, hk, hb, k);
        if from <= child_index(keys_of(es), k) < to {
            assert(kids_get(np, ks, hk, k) == updated(key, val, k, kids_get(t, es, hk, k)));
        }
    }
    assert forall|p: u64| #[trigger] kid_pages(np, m, h, p) implies now.live(p) && p != id && (
    !then.live(p) || in_subtree(t, id, h, p)) by {
        lemma_regrown_pages(t, np, es, from, to, low, hk, p);
        if in_kids(np, low, hk, p) {
            lemma_lowered_pages(np, ks, sep, hk, p);
            assert(in_kids(np, ks, hk, p));
            if then.live(p) {
                let j = choose|j: int|
                    from <= j < to && in_subtree(t, (#[trigger] slot(es, j)).ptr, hk, p);
                assert(in_kids(t, es, hk, p));
            }
        } else {
            lemma_outside_run(then, now, id, h, hi, from, to, p);
        }
    }
    assert forall|p: u64| #[trigger] now.pending().contains(p) implies then.pending().contains(p)
        || (p != id && in_subtree(t, id, h, p)) by {
        if !then.pending().contains(p) {
            let j = choose|j: int|
                from <= j < to && in_subtree(t, (#[trigger] slot(es, j)).ptr, hk, p);
            assert(in_kids(t, es, hk, p));
        }
    }
}

/// Children that take the place of the one child that owns `key` take the
/// place of the run of that one child.
pub proof fn lemma_replaced_run(
    then: PageManager,
    now: PageManager,
    id: u64,
    h: nat,
    hi: Option<Seq<u8>>,
    key: Seq<u8>,
    val: Option<Seq<u8>>,
    ks: Seq<EntryModel>,
)
    requires
        h > 0,
        subtree_wf(then.pages(), id, h, hi),
        crate::update::replaced(
            then,
            now,
            node_at(then.pages(), id).entries[child_index(
                keys_of(node_at(then.pages(), id).entries),
                key,
            )].ptr,
            (h - 1) as nat,
            upper(
                node_at(then.pages(), id).entries,
                child_index(keys_of(node_at(then.pages(), id).entries), key),
                hi,
            ),
            key,
            val,
            ks,
        ),
    ensures
        ({
            let c = child_index(keys_of(node_at(then.pages(), id).entries), key);
            run_replaced(then, now, id, h, hi, key, val, c, c + 1, ks)
        }),
{
    let t = then.pages();
    let es = node_at(t, id).entries;
    let c = child_index(keys_of(es), key);
    let hk = (h - 1) as nat;
    lemma_child_index(keys_of(es), key);
    assert(bound_at(es, c + 1, hi) == upper(es, c, hi));
    assert forall|p: u64| #[trigger] in_subtree(t, es[c].ptr, hk, p) implies in_run(
        t,
        es,
        c,
        c + 1,
        hk,
        p,
    ) by {
        assert(in_subtree(t, slot(es, c).ptr, hk, p));
    }
    assert forall|k: Seq<u8>| c <= child_index(keys_of(es), k) < c + 1 implies #[trigger] kids_get(
        now.pages(),
        ks,
        hk,
        k,
    ) == updated(key, val, k, kids_get(t, es, hk, k)) by {
        assert(kids_get(t, es, hk, k) == subtree_get(t, es[c].ptr, hk, k));
    }
}

/// The node holding `v`, not yet written out, can take the place of the
/// children of the node at `id` from `from` up to `to`.
#[verifier::opaque]
pub open spec fn run_node(
    then: PageManager,
    mid: PageManager,
    id: u64,
    h: nat,
    hi: Option<Seq<u8>>,
    key: Seq<u8>,
    val: Option<Seq<u8>>,
    from: int,
    to: int,
    v: NodeModel,
) -> bool {
    let es = node_at(then.pages(), id).entries;
    let hk = (h - 1) as nat;
    &&& node_wf(mid.pages(), v, hk, bound_at(es, to, hi))
    &&& node_live(mid, v, hk)
    &&& key_le(es[from].key, v.entries[0].key)
    &&& forall|k: Seq<u8>|
        from <= child_index(keys_of(es), k) < to ==> #[trigger] node_get(mid.pages(), v, hk, k)
            == updated(key, val, k, kids_get(then.pages(), es, hk, k))
    &&& forall|p: u64| #[trigger]
        kid_pages(mid.pages(), v, hk, p) ==> !run_root(es, from, to, p) && (!then.live(p) || in_run(
            then.pages(),
            es,
            from,
            to,
            hk,
            p,
        ))
    &&& forall|p: u64| #[trigger]
        mid.pending().contains(p) ==> then.pending().contains(p) || (!run_root(es, from, to, p)
            && in_run(then.pages(), es, from, to, hk, p))
}

/// The node that stands for a run of children has been written out as the
/// children `ks` and the old pages of the run have been freed: the
/// children take the place of the run.
pub proof fn lemma_run_done(
    then: PageManager,
    mid: PageManager,
    put: PageManager,
    now: PageManager,
    id: u64,
    h: nat,
    hi: Option<Seq<u8>>,
    key: Seq<u8>,
    val: Option<Seq<u8>>,
    from: int,
    to: int,
    v: NodeModel,
    ks: Seq<EntryModel>,
)
    requires
        h > 0,
        subtree_wf(then.pages(), id, h, hi),
        all_live(then, id, h),
        grows(then, mid),
        0 <= from < to <= node_at(then.pages(), id).entries.len(),
        run_node(then, mid, id, h, hi, key, val, from, to, v),
        grows(mid, put),
        put.pending() == mid.pending(),
        kids_wf(
            put.pages(),
            ks,
            (h - 1) as nat,
            bound_at(node_at(then.pages(), id).entries, to, hi),
        ),
        placed_get(mid.pages(), put.pages(), v, (h - 1) as nat, ks, v.entries.len() as int),
        placed_pages(mid, put, v, (h - 1) as nat, ks, v.entries.len() as int),
        now.wf(),
        now.pages() == put.pages(),
        now.free_list() == put.free_list(),
        now.root() == put.root(),
        forall|p: u64| #[trigger]
            now.pending().contains(p) <==> put.pending().contains(p) || run_root(
                node_at(then.pages(), id).entries,
                from,
                to,
                p,
            ),
    ensures
        grows(then, now),
        run_replaced(then, now, id, h, hi, key, val, from, to, ks),
{
    reveal(run_node);
    let t = then.pages();
    let es = node_at(t, id).entries;
    let hk = (h - 1) as nat;
    let vn = v.entries.len() as int;
    assert(grows(put, now));
    lemma_grows_trans(then, mid, put);
    lemma_grows_trans(then, put, now);
    assert(v.entries.take(vn) =~= v.entries);
    assert forall|k: Seq<u8>| from <= child_index(keys_of(es), k) < to implies #[trigger] kids_get(
        now.pages(),
        ks,
        hk,
        k,
    ) == updated(key, val, k, kids_get(t, es, hk, k)) by {
        assert(kids_get(put.pages(), ks, hk, k) == node_get(mid.pages(), v, hk, k));
    }
    assert forall|p: u64| #[trigger] run_root(es, from, to, p) implies then.live(p) && mid.live(
        p,
    ) && in_run(
        t,
        es,
        from,
        to,
        hk,
        p,
    ) by {
        let i = choose|i: int| from <= i < to && (#[trigger] slot(es, i)).ptr == p;
        assert(in_subtree(t, slot(es, i).ptr, hk, p));
        assert(in_kids(t, es, hk, p));
        assert(in_subtree(t, id, h, p));
        lemma_grows_live(then, mid, p);
        if mid.pending().contains(p) {
        }
    }
    assert forall|p: u64| #[trigger] in_kids(now.pages(), ks, hk, p) implies now.live(p) && (
    !then.live(p) || in_run(t, es, from, to, hk, p)) by {
        assert(put.live(p));
        lemma_grows_live(then, mid, p);
        lemma_grows_live(mid, put, p);
        if mid.live(p) {
            assert(kid_pages(mid.pages(), v, hk, p));
        } else {
            if then.live(p) {
                assert(mid.pending().contains(p));
            }
            if run_root(es, from, to, p) {
                assert(mid.live(p));
            }
        }
        if now.pending().contains(p) {
        }
    }
    assert forall|p: u64| #[trigger] now.pending().contains(p) implies then.pending().contains(p)
        || in_run(t, es, from, to, hk, p) by {
        if put.pending().contains(p) {
            assert(mid.pending().contains(p));
        }
    }
}

/// The node holding `up`, not yet written out and possibly empty, is what
/// is left of the subtree at `id` once `key` is gone from it.
pub open spec fn removed(
    then: PageManager,
    mid: PageManager,
    id: u64,
    h: nat,
    hi: Option<Seq<u8>>,
    key: Seq<u8>,
    up: NodeModel,
) -> bool {
    &&& up.leaf == (h == 0)
    &&& entries_wf(up.entries)
    &&& forall|p: u64| #[trigger]
        mid.pending().contains(p) ==> then.pending().contains(p) || (p != id && in_subtree(
            then.pages(),
            id,
            h,
            p,
        ))
    &&& up.entries.len() > 0 ==> rebuilt(then, mid, id, h, hi, key, None, up) && key_le(
        node_at(then.pages(), id).entries[0].key,
        up.entries[0].key,
    )
    &&& up.entries.len() == 0 ==> forall|k: Seq<u8>|
        k != key ==> #[trigger] subtree_get(then.pages(), id, h, k) is None
}

/// What is known at the node at `id` when `key` has been removed below
/// its child that owns the key, leaving the node holding `up` for that
/// child.
pub open spec fn shrunk(
    then: PageManager,
    mid: PageManager,
    id: u64,
    h: nat,
    hi: Option<Seq<u8>>,
    key: Seq<u8>,
    up: NodeModel,
) -> bool {
    let es = node_at(then.pages(), id).entries;
    let c = child_index(keys_of(es), key);
    &&& h > 0
    &&& subtree_wf(then.pages(), id, h, hi)
    &&& all_live(then, id, h)
    &&& grows(then, mid)
    &&& removed(then, mid, es[c].ptr, (h - 1) as nat, upper(es, c, hi), key, up)
}

/// A node whose children are left as they were stays well formed.
pub proof fn lemma_node_same_wf(
    then: Seq<Seq<u8>>,
    now: Seq<Seq<u8>>,
    m: NodeModel,
    h: nat,
    hi: Option<Seq<u8>>,
)
    requires
        node_wf(then, m, h, hi),
        h > 0 ==> same_kids(then, now, m.entries, (h - 1) as nat),
    ensures
        node_wf(now, m, h, hi),
{
    if h > 0 {
        lemma_same_kids_wf(then, now, m.entries, (h - 1) as nat, hi);
    }
}

/// A sibling of the child that lost the key: its node, read from its page,
/// is well formed over the pages as they are now, its pages are live, and
/// it answers as it did.
pub proof fn lemma_sibling(
    then: PageManager,
    mid: PageManager,
    id: u64,
    h: nat,
    hi: Option<Seq<u8>>,
    key: Seq<u8>,
    up: NodeModel,
    i: int,
)
    requires
        shrunk(then, mid, id, h, hi, key, up),
        0 <= i < node_at(then.pages(), id).entries.len(),
        i != child_index(keys_of(node_at(then.pages(), id).entries), key),
    ensures
        ({
            let es = node_at(then.pages(), id).entries;
            let sib = node_at(then.pages(), es[i].ptr);
            let hk = (h - 1) as nat;
            &&& mid.live(es[i].ptr)
            &&& mid.pages()[es[i].ptr as int] == then.pages()[es[i].ptr as int]
            &&& crate::shape::page_ok(then.pages(), es[i].ptr)
            &&& node_wf(mid.pages(), sib, hk, upper(es, i, hi))
            &&& node_wf(then.pages(), sib, hk, upper(es, i, hi))
            &&& node_live(mid, sib, hk)
            &&& sib.leaf == (hk == 0)
            &&& key_le(es[i].key, sib.entries[0].key)
            &&& hk > 0 ==> same_kids(then.pages(), mid.pages(), sib.entries, (hk - 1) as nat)
            &&& forall|p: u64| #[trigger]
                kid_pages(mid.pages(), sib, hk, p) ==> then.live(p) && mid.live(p) && p
                    != es[i].ptr && in_subtree(then.pages(), es[i].ptr, hk, p)
            &&& forall|k: Seq<u8>| #[trigger]
                node_get(mid.pages(), sib, hk, k) == subtree_get(then.pages(), es[i].ptr, hk, k)
        }),
{
    let t = then.pages();
    let mp = mid.pages();
    let es = node_at(t, id).entries;
    let c = child_index(keys_of(es), key);
    let sib = node_at(t, es[i].ptr);
    let hk = (h - 1) as nat;
    lemma_descend(then, id, h, hi, key);
    assert(kid_wf(t, slot(es, i), hk, upper(es, i, hi)));
    assert(apart(t, slot(es, i).ptr, slot(es, c).ptr, hk));
    assert forall|p: u64| #[trigger] in_subtree(t, es[i].ptr, hk, p) implies then.live(p)
        && mid.live(p) && mp[p as int] == t[p as int] by {
        assert(in_subtree(t, slot(es, i).ptr, hk, p));
        assert(in_kids(t, es, hk, p));
        assert(in_subtree(t, id, h, p));
        lemma_grows_live(then, mid, p);
        if mid.pending().contains(p) {
        }
    }
    assert(in_subtree(t, es[i].ptr, hk, es[i].ptr));
    if hk > 0 {
        assert forall|p: u64| #[trigger] in_kids(
            t,
            sib.entries,
            (hk - 1) as nat,
            p,
        ) implies mp[p as int] == t[p as int] by {
            assert(in_subtree(t, es[i].ptr, hk, p));
        }
        assert forall|p: u64| #[trigger] kid_pages(mp, sib, hk, p) implies then.live(p) && p
            != es[i].ptr && in_subtree(t, es[i].ptr, hk, p) && mid.live(p) by {
            lemma_same_kids_pages(t, mp, sib.entries, (hk - 1) as nat, p);
            assert(in_subtree(t, es[i].ptr, hk, p));
        }
    }
    lemma_node_same_wf(t, mp, sib, hk, upper(es, i, hi));
    assert forall|k: Seq<u8>| #[trigger]
        node_get(mp, sib, hk, k) == subtree_get(t, es[i].ptr, hk, k) by {
        lemma_node_same_get(t, mp, sib, hk, upper(es, i, hi), k);
    }
}

/// The child that lost the key, rebuilt and not empty, can take its own
/// place.
pub proof fn lemma_run_alone(
    then: PageManager,
    mid: PageManager,
    id: u64,
    h: nat,
    hi: Option<Seq<u8>>,
    key: Seq<u8>,
    up: NodeModel,
)
    requires
        shrunk(then, mid, id, h, hi, key, up),
        up.entries.len() > 0,
    ensures
        ({
            let c = child_index(keys_of(node_at(then.pages(), id).entries), key);
            run_node(then, mid, id, h, hi, key, None, c, c + 1, up)
        }),
{
    reveal(run_node);
    let t = then.pages();
    let es = node_at(t, id).entries;
    let c = child_index(keys_of(es), key);
    let hk = (h - 1) as nat;
    lemma_descend(then, id, h, hi, key);
    lemma_le_transitive(es[c].key, node_at(t, es[c].ptr).entries[0].key, up.entries[0].key);
    assert forall|p: u64| #[trigger] run_root(es, c, c + 1, p) implies p == es[c].ptr by {
        let i = choose|i: int| c <= i < c + 1 && (#[trigger] slot(es, i)).ptr == p;
    }
    assert forall|p: u64| #[trigger] in_subtree(t, es[c].ptr, hk, p) implies in_run(
        t,
        es,
        c,
        c + 1,
        hk,
        p,
    ) by {
        assert(in_subtree(t, slot(es, c).ptr, hk, p));
    }
    assert forall|p: u64| #[trigger] kid_pages(mid.pages(), up, hk, p) implies !run_root(
        es,
        c,
        c + 1,
        p,
    ) && (!then.live(p) || in_run(t, es, c, c + 1, hk, p)) by {
        if run_root(es, c, c + 1, p) {
            assert(p == es[c].ptr);
        }
        if then.live(p) {
            assert(in_subtree(t, es[c].ptr, hk, p));
        }
    }
    assert forall|p: u64| #[trigger] mid.pending().contains(p) implies then.pending().contains(p)
        || (!run_root(es, c, c + 1, p) && in_run(t, es, c, c + 1, hk, p)) by {
        if !then.pending().contains(p) {
            assert(in_subtree(t, es[c].ptr, hk, p));
            if run_root(es, c, c + 1, p) {
                assert(p == es[c].ptr);
            }
        }
    }
}

/// Two nodes side by side as one: the entries of the first, then those of
/// the second.
pub open spec fn beside(a: NodeModel, b: NodeModel) -> NodeModel {
    NodeModel { leaf: a.leaf, entries: a.entries + b.entries }
}

/// The separators of the children of a well-formed node: each is under the
/// next, and the child that owns a key has its separator at or before the
/// key unless it is the first child.
pub proof fn lemma_separators(
    then: PageManager,
    id: u64,
    h: nat,
    hi: Option<Seq<u8>>,
    key: Seq<u8>,
    i: int,
)
    requires
        h > 0,
        subtree_wf(then.pages(), id, h, hi),
        0 <= i < node_at(then.pages(), id).entries.len(),
    ensures
        ({
            let es = node_at(then.pages(), id).entries;
            let c = child_index(keys_of(es), key);
            &&& below(es[i].key, upper(es, i, hi))
            &&& within(Some(es[i].key), upper(es, i, hi))
            &&& 0 <= c < es.len()
            &&& c > 0 ==> key_le(es[c].key, key)
            &&& c + 1 < es.len() ==> key_lt(key, es[c + 1].key)
        }),
{
    let es = node_at(then.pages(), id).entries;
    lemma_kids_sorted(then.pages(), es, (h - 1) as nat, hi);
    lemma_child_index_bounds(keys_of(es), key);
    let c = child_index(keys_of(es), key);
    if c + 1 < es.len() {
        assert(key_lt(key, keys_of(es)[c + 1]));
    }
}

/// The left sibling joined with what is left of the child that lost the
/// key is a well-formed node under the child's bound.
pub proof fn lemma_left_wf(
    then: PageManager,
    mid: PageManager,
    id: u64,
    h: nat,
    hi: Option<Seq<u8>>,
    key: Seq<u8>,
    up: NodeModel,
)
    requires
        shrunk(then, mid, id, h, hi, key, up),
        child_index(keys_of(node_at(then.pages(), id).entries), key) > 0,
    ensures
        ({
            let es = node_at(then.pages(), id).entries;
            let c = child_index(keys_of(es), key);
            let left = node_at(then.pages(), es[c - 1].ptr);
            &&& node_wf(mid.pages(), beside(left, up), (h - 1) as nat, upper(es, c, hi))
            &&& node_live(mid, beside(left, up), (h - 1) as nat)
            &&& key_le(es[c - 1].key, beside(left, up).entries[0].key)
            &&& forall|p: u64| #[trigger]
                kid_pages(mid.pages(), beside(left, up), (h - 1) as nat, p) ==> !run_root(
                    es,
                    c - 1,
                    c + 1,
                    p,
                ) && (!then.live(p) || in_run(then.pages(), es, c - 1, c + 1, (h - 1) as nat, p))
            &&& forall|p: u64| #[trigger]
                mid.pending().contains(p) ==> then.pending().contains(p) || (!run_root(
                    es,
                    c - 1,
                    c + 1,
                    p,
                ) && in_run(then.pages(), es, c - 1, c + 1, (h - 1) as nat, p))
        }),
{
    let t = then.pages();
    let mp = mid.pages();
    let es = node_at(t, id).entries;
    let c = child_index(keys_of(es), key);
    let hk = (h - 1) as nat;
    let hc = upper(es, c, hi);
    let left = node_at(t, es[c - 1].ptr);
    let sep = es[c].key;
    let v = beside(left, up);
    lemma_descend(then, id, h, hi, key);
    lemma_sibling(then, mid, id, h, hi, key, up, c - 1);
    lemma_separators(then, id, h, hi, key, c);
    assert(apart(t, slot(es, c - 1).ptr, slot(es, c).ptr, hk));
    assert(in_subtree(t, es[c].ptr, hk, es[c].ptr));
    assert(in_subtree(t, es[c - 1].ptr, hk, es[c - 1].ptr));
    assert forall|p: u64| #[trigger] run_root(es, c - 1, c + 1, p) implies p == es[c - 1].ptr || p
        == es[c].ptr by {
        let i = choose|i: int| c - 1 <= i < c + 1 && (#[trigger] slot(es, i)).ptr == p;
    }
    assert forall|p: u64| #[trigger] in_subtree(t, es[c].ptr, hk, p) implies in_run(
        t,
        es,
        c - 1,
        c + 1,
        hk,
        p,
    ) && p != es[c - 1].ptr by {
        assert(in_subtree(t, slot(es, c).ptr, hk, p));
    }
    assert forall|p: u64| #[trigger] in_subtree(t, es[c - 1].ptr, hk, p) implies in_run(
        t,
        es,
        c - 1,
        c + 1,
        hk,
        p,
    ) && p != es[c].ptr by {
        assert(in_subtree(t, slot(es, c - 1).ptr, hk, p));
    }
    if up.entries.len() == 0 {
        assert(v.entries =~= left.entries);
        lemma_widen(mp, left, hk, Some(sep), hc);
    } else {
        lemma_le_transitive(sep, node_at(t, es[c].ptr).entries[0].key, up.entries[0].key);
        if hk > 0 {
            assert forall|p: u64| #[trigger] in_kids(
                mp,
                left.entries,
                (hk - 1) as nat,
                p,
            ) implies !in_kids(mp, up.entries, (hk - 1) as nat, p) by {
                assert(kid_pages(mp, left, hk, p));
                if in_kids(mp, up.entries, (hk - 1) as nat, p) {
                    assert(kid_pages(mp, up, hk, p));
                }
            }
        }
        lemma_node_concat_wf(mp, left, up, hk, sep, hc);
        assert(v.entries[0] == left.entries[0]);
    }
    assert forall|p: u64| #[trigger] kid_pages(mp, v, hk, p) implies mid.live(p) && !run_root(
        es,
        c - 1,
        c + 1,
        p,
    ) && (!then.live(p) || in_run(t, es, c - 1, c + 1, hk, p)) by {
        lemma_in_kids_concat(mp, left.entries, up.entries, (hk - 1) as nat, p);
        if in_kids(mp, left.entries, (hk - 1) as nat, p) {
            assert(kid_pages(mp, left, hk, p));
        } else {
            assert(kid_pages(mp, up, hk, p));
            if then.live(p) {
                assert(in_subtree(t, es[c].ptr, hk, p));
            } else {
                assert(then.live(es[c - 1].ptr)) by {
                    assert(in_subtree(t, slot(es, c - 1).ptr, hk, es[c - 1].ptr));
                    assert(in_kids(t, es, hk, es[c - 1].ptr));
                    assert(in_subtree(t, id, h, es[c - 1].ptr));
                }
            }
        }
    }
    assert forall|p: u64| #[trigger] mid.pending().contains(p) implies then.pending().contains(p)
        || (!run_root(es, c - 1, c + 1, p) && in_run(t, es, c - 1, c + 1, hk, p)) by {
        if !then.pending().contains(p) {
            assert(in_subtree(t, es[c].ptr, hk, p));
        }
    }
}

/// A key owned by the left sibling or by the child that lost the key gets
/// from the two joined what it got before, but for the key that is gone.
pub proof fn lemma_left_get(
    then: PageManager,
    mid: PageManager,
    id: u64,
    h: nat,
    hi: Option<Seq<u8>>,
    key: Seq<u8>,
    up: NodeModel,
    k: Seq<u8>,
)
    requires
        shrunk(then, mid, id, h, hi, key, up),
        child_index(keys_of(node_at(then.pages(), id).entries), key) > 0,
        child_index(keys_of(node_at(then.pages(), id).entries), key) - 1 <= child_index(
            keys_of(node_at(then.pages(), id).entries),
            k,
        ) <= child_index(keys_of(node_at(then.pages(), id).entries), key),
    ensures
        ({
            let es = node_at(then.pages(), id).entries;
            let c = child_index(keys_of(es), key);
            let left = node_at(then.pages(), es[c - 1].ptr);
            node_get(mid.pages(), beside(left, up), (h - 1) as nat, k) == updated(
                key,
                None,
                k,
                kids_get(then.pages(), es, (h - 1) as nat, k),
            )
        }),
{
    let t = then.pages();
    let mp = mid.pages();
    let es = node_at(t, id).entries;
    let c = child_index(keys_of(es), key);
    let ck = child_index(keys_of(es), k);
    let hk = (h - 1) as nat;
    let hc = upper(es, c, hi);
    let left = node_at(t, es[c - 1].ptr);
    let sep = es[c].key;
    let v = beside(left, up);
    lemma_left_wf(then, mid, id, h, hi, key, up);
    lemma_descend(then, id, h, hi, key);
    lemma_sibling(then, mid, id, h, hi, key, up, c - 1);
    lemma_separators(then, id, h, hi, k, c);
    lemma_separators(then, id, h, hi, key, c);
    // what the left sibling alone gives
    let from_left = node_get(mp, left, hk, k);
    let before = kids_get(t, es, hk, k);
    let want = updated(key, None, k, before);
    assert(from_left == subtree_get(t, es[c - 1].ptr, hk, k));
    assert(before == subtree_get(t, es[ck].ptr, hk, k));
    if ck == c {
        lemma_not_lt(k, sep);
        lemma_none_above(mp, left, hk, Some(sep), k);
        assert(from_left is None);
    } else {
        assert(k != key);
        assert(want == from_left);
        assert(key_lt(k, sep));
    }
    if up.entries.len() == 0 {
        assert(v.entries =~= left.entries);
        assert(v == left);
        if ck == c && k != key {
            assert(subtree_get(t, es[c].ptr, hk, k) is None);
        }
    } else {
        lemma_le_transitive(sep, node_at(t, es[c].ptr).entries[0].key, up.entries[0].key);
        lemma_node_concat_get(mp, left, up, hk, k);
        let from_up = node_get(mp, up, hk, k);
        assert(from_up == updated(key, None, k, subtree_get(t, es[c].ptr, hk, k)));
        if ck == c - 1 {
            lemma_lt_le(k, sep, up.entries[0].key);
        } else if key_lt(k, up.entries[0].key) {
            lemma_none_below(mp, up, hk, hc, k);
        }
    }
}

/// What is left of the child that lost the key joined with the right
/// sibling is a well-formed node under the sibling's bound.
pub proof fn lemma_right_wf(
    then: PageManager,
    mid: PageManager,
    id: u64,
    h: nat,
    hi: Option<Seq<u8>>,
    key: Seq<u8>,
    up: NodeModel,
)
    requires
        shrunk(then, mid, id, h, hi, key, up),
        child_index(keys_of(node_at(then.pages(), id).entries), key) + 1 < node_at(
            then.pages(),
            id,
        ).entries.len(),
    ensures
        ({
            let es = node_at(then.pages(), id).entries;
            let c = child_index(keys_of(es), key);
            let right = node_at(then.pages(), es[c + 1].ptr);
            &&& node_wf(mid.pages(), beside(up, right), (h - 1) as nat, upper(es, c + 1, hi))
            &&& node_live(mid, beside(up, right), (h - 1) as nat)
            &&& key_le(es[c].key, beside(up, right).entries[0].key)
            &&& forall|p: u64| #[trigger]
                kid_pages(mid.pages(), beside(up, right), (h - 1) as nat, p) ==> !run_root(
                    es,
                    c,
                    c + 2,
                    p,
                ) && (!then.live(p) || in_run(then.pages(), es, c, c + 2, (h - 1) as nat, p))
            &&& forall|p: u64| #[trigger]
                mid.pending().contains(p) ==> then.pending().contains(p) || (!run_root(
                    es,
                    c,
                    c + 2,
                    p,
                ) && in_run(then.pages(), es, c, c + 2, (h - 1) as nat, p))
        }),
{
    let t = then.pages();
    let mp = mid.pages();
    let es = node_at(t, id).entries;
    let c = child_index(keys_of(es), key);
    let hk = (h - 1) as nat;
    let hb = upper(es, c + 1, hi);
    let right = node_at(t, es[c + 1].ptr);
    let sep = es[c + 1].key;
    let v = beside(up, right);
    lemma_descend(then, id, h, hi, key);
    lemma_sibling(then, mid, id, h, hi, key, up, c + 1);
    lemma_separators(then, id, h, hi, key, c);
    assert(apart(t, slot(es, c + 1).ptr, slot(es, c).ptr, hk));
    assert(in_subtree(t, es[c].ptr, hk, es[c].ptr));
    assert(in_subtree(t, es[c + 1].ptr, hk, es[c + 1].ptr));
    assert forall|p: u64| #[trigger] run_root(es, c, c + 2, p) implies p == es[c + 1].ptr || p
        == es[c].ptr by {
        let i = choose|i: int| c <= i < c + 2 && (#[trigger] slot(es, i)).ptr == p;
    }
    assert forall|p: u64| #[trigger] in_subtree(t, es[c].ptr, hk, p) implies in_run(
        t,
        es,
        c,
        c + 2,
        hk,
        p,
    ) && p != es[c + 1].ptr by {
        assert(in_subtree(t, slot(es, c).ptr, hk, p));
    }
    assert forall|p: u64| #[trigger] in_subtree(t, es[c + 1].ptr, hk, p) implies in_run(
        t,
        es,
        c,
        c + 2,
        hk,
        p,
    ) && p != es[c].ptr by {
        assert(in_subtree(t, slot(es, c + 1).ptr, hk, p));
    }
    crate::keys::lemma_lt_le(es[c].key, sep, right.entries[0].key);
    if up.entries.len() == 0 {
        assert(v.entries =~= right.entries);
    } else {
        lemma_le_transitive(es[c].key, node_at(t, es[c].ptr).entries[0].key, up.entries[0].key);
        if hk > 0 {
            assert forall|p: u64| #[trigger] in_kids(
                mp,
                up.entries,
                (hk - 1) as nat,
                p,
            ) implies !in_kids(mp, right.entries, (hk - 1) as nat, p) by {
                assert(kid_pages(mp, up, hk, p));
                if in_kids(mp, right.entries, (hk - 1) as nat, p) {
                    assert(kid_pages(mp, right, hk, p));
                }
            }
        }
        lemma_node_concat_wf(mp, up, right, hk, sep, hb);
        assert(v.entries[0] == up.entries[0]);
    }
    assert forall|p: u64| #[trigger] kid_pages(mp, v, hk, p) implies mid.live(p) && !run_root(
        es,
        c,
        c + 2,
        p,
    ) && (!then.live(p) || in_run(t, es, c, c + 2, hk, p)) by {
        lemma_in_kids_concat(mp, up.entries, right.entries, (hk - 1) as nat, p);
        if in_kids(mp, right.entries, (hk - 1) as nat, p) {
            assert(kid_pages(mp, right, hk, p));
        } else {
            assert(kid_pages(mp, up, hk, p));
            if then.live(p) {
                assert(in_subtree(t, es[c].ptr, hk, p));
            } else {
                assert(then.live(es[c + 1].ptr)) by {
                    assert(in_subtree(t, slot(es, c + 1).ptr, hk, es[c + 1].ptr));
                    assert(in_kids(t, es, hk, es[c + 1].ptr));
                    assert(in_subtree(t, id, h, es[c + 1].ptr));
                }
            }
        }
    }
    assert forall|p: u64| #[trigger] mid.pending().contains(p) implies then.pending().contains(p)
        || (!run_root(es, c, c + 2, p) && in_run(t, es, c, c + 2, hk, p)) by {
        if !then.pending().contains(p) {
            assert(in_subtree(t, es[c].ptr, hk, p));
        }
    }
}

/// A key owned by the child that lost the key or by the right sibling gets
/// from the two joined what it got before, but for the key that is gone.
pub proof fn lemma_right_get(
    then: PageManager,
    mid: PageManager,
    id: u64,
    h: nat,
    hi: Option<Seq<u8>>,
    key: Seq<u8>,
    up: NodeModel,
    k: Seq<u8>,
)
    requires
        shrunk(then, mid, id, h, hi, key, up),
        child_index(keys_of(node_at(then.pages(), id).entries), key) + 1 < node_at(
            then.pages(),
            id,
        ).entries.len(),
        child_index(keys_of(node_at(then.pages(), id).entries), key) <= child_index(
            keys_of(node_at(then.pages(), id).entries),
            k,
        ) <= child_index(keys_of(node_at(then.pages(), id).entries), key) + 1,
    ensures
        ({
            let es = node_at(then.pages(), id).entries;
            let c = child_index(keys_of(es), key);
            let right = node_at(then.pages(), es[c + 1].ptr);
            node_get(mid.pages(), beside(up, right), (h - 1) as nat, k) == updated(
                key,
                None,
                k,
                kids_get(then.pages(), es, (h - 1) as nat, k),
            )
        }),
{
    let t = then.pages();
    let mp = mid.pages();
    let es = node_at(t, id).entries;
    let c = child_index(keys_of(es), key);
    let ck = child_index(keys_of(es), k);
    let hk = (h - 1) as nat;
    let hb = upper(es, c + 1, hi);
    let right = node_at(t, es[c + 1].ptr);
    let sep = es[c + 1].key;
    let v = beside(up, right);
    lemma_right_wf(then, mid, id, h, hi, key, up);
    lemma_descend(then, id, h, hi, key);
    lemma_sibling(then, mid, id, h, hi, key, up, c + 1);
    lemma_separators(then, id, h, hi, k, c);
    lemma_separators(then, id, h, hi, key, c);
    let from_right = node_get(mp, right, hk, k);
    let before = kids_get(t, es, hk, k);
    let want = updated(key, None, k, before);
    assert(from_right == subtree_get(t, es[c + 1].ptr, hk, k));
    assert(before == subtree_get(t, es[ck].ptr, hk, k));
    if ck == c {
        assert(key_lt(k, sep));
        lemma_lt_le(k, sep, right.entries[0].key);
        lemma_none_below(mp, right, hk, hb, k);
        assert(from_right is None);
    } else {
        assert(k != key);
        assert(want == from_right);
        assert(key_le(sep, k));
        lemma_not_lt(k, sep);
    }
    if up.entries.len() == 0 {
        assert(v.entries =~= right.entries);
        assert(v == right);
        if ck == c && k != key {
            assert(subtree_get(t, es[c].ptr, hk, k) is None);
        }
    } else {
        lemma_node_concat_get(mp, up, right, hk, k);
        let from_up = node_get(mp, up, hk, k);
        assert(from_up == updated(key, None, k, subtree_get(t, es[c].ptr, hk, k)));
        if ck == c + 1 && key_lt(k, right.entries[0].key) {
            lemma_none_above(mp, up, hk, Some(sep), k);
            lemma_none_below(mp, right, hk, hb, k);
        }
    }
}

/// A leaf with an entry taken out, not yet written to a page, is what is
/// left of the leaf once the key is gone.
pub proof fn lemma_leaf_removed(then: PageManager, id: u64, hi: Option<Seq<u8>>, key: Seq<u8>)
    requires
        then.wf(),
        subtree_wf(then.pages(), id, 0, hi),
        all_live(then, id, 0),
    ensures
        removed(
            then,
            then,
            id,
            0,
            hi,
            key,
            NodeModel { leaf: true, entries: without(node_at(then.pages(), id).entries, key) },
        ),
        subtree_get(then.pages(), id, 0, key) is Some <==> has_key(
            keys_of(node_at(then.pages(), id).entries),
            key,
        ),
{
    let t = then.pages();
    let es = node_at(t, id).entries;
    let out = without(es, key);
    let m = NodeModel { leaf: true, entries: out };
    lemma_without_ends(es, key);
    if out.len() > 0 {
        if hi is Some {
            crate::keys::lemma_le_lt(out.last().key, es.last().key, hi->0);
        }
        assert forall|k: Seq<u8>| #[trigger]
            node_get(t, m, 0, k) == updated(key, None, k, subtree_get(t, id, 0, k)) by {
            lemma_without_get(es, key, k);
            assert(node_get(t, m, 0, k) == leaf_get(out, k));
            assert(subtree_get(t, id, 0, k) == leaf_get(es, k));
        }
    } else {
        assert forall|k: Seq<u8>| k != key implies #[trigger] subtree_get(t, id, 0, k) is None by {
            lemma_without_get(es, key, k);
            assert(subtree_get(t, id, 0, k) == leaf_get(es, k));
            assert(keys_of(out).len() == 0);
        }
    }
}

/// With its single child gone, a node holds nothing but the key that was
/// removed.
pub proof fn lemma_vanished(
    then: PageManager,
    mid: PageManager,
    now: PageManager,
    id: u64,
    h: nat,
    hi: Option<Seq<u8>>,
    key: Seq<u8>,
    up: NodeModel,
)
    requires
        shrunk(then, mid, id, h, hi, key, up),
        up.entries.len() == 0,
        node_at(then.pages(), id).entries.len() == 1,
        now.wf(),
        now.pages() == mid.pages(),
        now.free_list() == mid.free_list(),
        now.root() == mid.root(),
        now.pending() == mid.pending().push(node_at(then.pages(), id).entries[0].ptr),
    ensures
        grows(then, now),
        removed(
            then,
            now,
            id,
            h,
            hi,
            key,
            NodeModel { leaf: false, entries: Seq::<EntryModel>::empty() },
        ),
{
    let t = then.pages();
    let es = node_at(t, id).entries;
    let hk = (h - 1) as nat;
    let kid = es[0].ptr;
    lemma_descend(then, id, h, hi, key);
    crate::update::lemma_freed(mid, now, kid);
    lemma_grows_trans(then, mid, now);
    assert(in_subtree(t, kid, hk, kid));
    assert(in_subtree(t, slot(es, 0).ptr, hk, kid));
    assert(in_kids(t, es, hk, kid));
    assert(keys_of(Seq::<EntryModel>::empty()).len() == 0);
    assert forall|k: Seq<u8>| k != key implies #[trigger] subtree_get(t, id, h, k) is None by {
        lemma_child_index(keys_of(es), k);
        assert(subtree_get(t, kid, hk, k) is None);
    }
    assert forall|p: u64| #[trigger] now.pending().contains(p) implies then.pending().contains(p)
        || (p != id && in_subtree(t, id, h, p)) by {
        if p != kid && !then.pending().contains(p) {
            assert(mid.pending().contains(p));
            assert(in_subtree(t, slot(es, 0).ptr, hk, p));
            assert(in_kids(t, es, hk, p));
        }
    }
}

/// The left sibling joined with what is left of the child that lost the
/// key can take the place of the two.
pub proof fn lemma_run_left(
    then: PageManager,
    mid: PageManager,
    id: u64,
    h: nat,
    hi: Option<Seq<u8>>,
    key: Seq<u8>,
    up: NodeModel,
)
    requires
        shrunk(then, mid, id, h, hi, key, up),
        child_index(keys_of(node_at(then.pages(), id).entries), key) > 0,
    ensures
        ({
            let es = node_at(then.pages(), id).entries;
            let c = child_index(keys_of(es), key);
            run_node(
                then,
                mid,
                id,
                h,
                hi,
                key,
                None,
                c - 1,
                c + 1,
                beside(node_at(then.pages(), es[c - 1].ptr), up),
            )
        }),
{
    reveal(run_node);
    let es = node_at(then.pages(), id).entries;
    let c = child_index(keys_of(es), key);
    let v = beside(node_at(then.pages(), es[c - 1].ptr), up);
    lemma_left_wf(then, mid, id, h, hi, key, up);
    assert(bound_at(es, c + 1, hi) == upper(es, c, hi));
    assert forall|k: Seq<u8>| c - 1 <= child_index(keys_of(es), k) < c + 1 implies #[trigger] node_get(
        mid.pages(),
        v,
        (h - 1) as nat,
        k,
    ) == updated(key, None, k, kids_get(then.pages(), es, (h - 1) as nat, k)) by {
        lemma_left_get(then, mid, id, h, hi, key, up, k);
    }
}

/// What is left of the child that lost the key joined with the right
/// sibling can take the place of the two.
pub proof fn lemma_run_right(
    then: PageManager,
    mid: PageManager,
    id: u64,
    h: nat,
    hi: Option<Seq<u8>>,
    key: Seq<u8>,
    up: NodeModel,
)
    requires
        shrunk(then, mid, id, h, hi, key, up),
        child_index(keys_of(node_at(then.pages(), id).entries), key) + 1 < node_at(
            then.pages(),
            id,
        ).entries.len(),
    ensures
        ({
            let es = node_at(then.pages(), id).entries;
            let c = child_index(keys_of(es), key);
            run_node(
                then,
                mid,
                id,
                h,
                hi,
                key,
                None,
                c,
                c + 2,
                beside(up, node_at(then.pages(), es[c + 1].ptr)),
            )
        }),
{
    reveal(run_node);
    let es = node_at(then.pages(), id).entries;
    let c = child_index(keys_of(es), key);
    let v = beside(up, node_at(then.pages(), es[c + 1].ptr));
    lemma_right_wf(then, mid, id, h, hi, key, up);
    assert(bound_at(es, c + 2, hi) == upper(es, c + 1, hi));
    assert forall|k: Seq<u8>| c <= child_index(keys_of(es), k) < c + 2 implies #[trigger] node_get(
        mid.pages(),
        v,
        (h - 1) as nat,
        k,
    ) == updated(key, None, k, kids_get(then.pages(), es, (h - 1) as nat, k)) by {
        lemma_right_get(then, mid, id, h, hi, key, up, k);
    }
}

/// What is known when the node holding `whole` is about to be stored in
/// place of the children of the node at `id` from `from` up to `to`, one
/// of which owned `key`.
#[verifier::opaque]
pub open spec fn applying(
    then: PageManager,
    mid: PageManager,
    id: u64,
    h: nat,
    hi: Option<Seq<u8>>,
    key: Seq<u8>,
    from: int,
    to: int,
    whole: NodeModel,
) -> bool {
    let es = node_at(then.pages(), id).entries;
    let c = child_index(keys_of(es), key);
    &&& h > 0
    &&& subtree_wf(then.pages(), id, h, hi)
    &&& all_live(then, id, h)
    &&& grows(then, mid)
    &&& 0 <= from <= c < to <= es.len()
    &&& run_node(then, mid, id, h, hi, key, None, from, to, whole)
}

/// The node about to be stored is well formed over the pages as they
/// are, and the pages below it are live.
pub proof fn lemma_applying_node(
    then: PageManager,
    mid: PageManager,
    id: u64,
    h: nat,
    hi: Option<Seq<u8>>,
    key: Seq<u8>,
    from: int,
    to: int,
    whole: NodeModel,
)
    requires
        applying(then, mid, id, h, hi, key, from, to, whole),
    ensures
        h > 0,
        node_wf(
            mid.pages(),
            whole,
            (h - 1) as nat,
            bound_at(node_at(then.pages(), id).entries, to, hi),
        ),
        node_live(mid, whole, (h - 1) as nat),
{
    reveal(applying);
    reveal(run_node);
}

/// The pages of the children to be replaced are live until they are
/// freed, and no two of them are the same page.
pub proof fn lemma_applying_roots(
    then: PageManager,
    mid: PageManager,
    put: PageManager,
    id: u64,
    h: nat,
    hi: Option<Seq<u8>>,
    key: Seq<u8>,
    from: int,
    to: int,
    whole: NodeModel,
    i: int,
    j: int,
)
    requires
        applying(then, mid, id, h, hi, key, from, to, whole),
        grows(mid, put),
        put.pending() == mid.pending(),
        from <= i < to,
        from <= j < to,
    ensures
        put.live(node_at(then.pages(), id).entries[i].ptr),
        i != j ==> node_at(then.pages(), id).entries[i].ptr != node_at(
            then.pages(),
            id,
        ).entries[j].ptr,
{
    reveal(applying);
    reveal(run_node);
    let t = then.pages();
    let es = node_at(t, id).entries;
    let hk = (h - 1) as nat;
    let p = es[i].ptr;
    assert(run_root(es, from, to, slot(es, i).ptr));
    assert(in_subtree(t, slot(es, i).ptr, hk, p));
    assert(in_kids(t, es, hk, p));
    assert(in_subtree(t, id, h, p));
    lemma_grows_live(then, mid, p);
    lemma_grows_live(mid, put, p);
    if mid.pending().contains(p) {
    }
    if i != j {
        assert(apart(t, slot(es, i).ptr, slot(es, j).ptr, hk));
        assert(in_subtree(t, es[j].ptr, hk, es[j].ptr));
    }
}

/// Entries without values, with keys within the size limit, take at most
/// 1014 bytes each.
pub proof fn lemma_kids_size(ks: Seq<EntryModel>)
    requires
        kids_sound(ks),
    ensures
        encoded_size(ks) <= 4 + 1014 * ks.len(),
    decreases ks.len(),
{
    if ks.len() > 0 {
        let rest = ks.drop_last();
        assert(kids_sound(rest)) by {
            crate::ops::lemma_subrange_wf(ks, 0, ks.len() - 1);
            assert(rest =~= ks.subrange(0, ks.len() - 1));
            assert forall|i: int| 0 <= i < rest.len() implies (#[trigger] rest[i]).val.len()
                == 0 by {
                assert(rest[i] == ks[i]);
            }
        }
        lemma_kids_size(rest);
        assert(ks.last() == ks[ks.len() - 1]);
    }
}

/// A node with a run of its entries replaced is no larger than the node
/// and the replacement together.
pub proof fn lemma_regrown_size(es: Seq<EntryModel>, from: int, to: int, run: Seq<EntryModel>)
    requires
        0 <= from <= to <= es.len(),
    ensures
        encoded_size(regrown(es, from, to, run)) <= encoded_size(es) + encoded_size(run) - 4,
        regrown(es, from, to, run).len() == es.len() - (to - from) + run.len(),
{
    let a = es.take(from);
    let b = es.subrange(from, to);
    let c = es.skip(to);
    assert(es =~= a + b + c);
    lemma_records_size_concat(a, b);
    lemma_records_size_concat(a + b, c);
    lemma_records_size_concat(a, run);
    lemma_records_size_concat(a + run, c);
    lemma_records_size_concat(b, b);
}

/// The node has been stored as the children `ks`, the old pages of the
/// run have been freed, and the node above is rebuilt with `ks` in place
/// of the run: the rebuilt node is what is left of the subtree once the
/// key is gone.
pub proof fn lemma_applying_done(
    then: PageManager,
    mid: PageManager,
    put: PageManager,
    now: PageManager,
    id: u64,
    h: nat,
    hi: Option<Seq<u8>>,
    key: Seq<u8>,
    from: int,
    to: int,
    whole: NodeModel,
    ks: Seq<EntryModel>,
)
    requires
        applying(then, mid, id, h, hi, key, from, to, whole),
        grows(mid, put),
        put.pending() == mid.pending(),
        ks.len() > 0,
        kids_sound(ks),
        ks[0].key == whole.entries[0].key,
        kids_wf(
            put.pages(),
            ks,
            (h - 1) as nat,
            bound_at(node_at(then.pages(), id).entries, to, hi),
        ),
        placed_get(mid.pages(), put.pages(), whole, (h - 1) as nat, ks, whole.entries.len() as int),
        placed_pages(mid, put, whole, (h - 1) as nat, ks, whole.entries.len() as int),
        now.wf(),
        now.pages() == put.pages(),
        now.free_list() == put.free_list(),
        now.root() == put.root(),
        forall|p: u64| #[trigger]
            now.pending().contains(p) <==> put.pending().contains(p) || run_root(
                node_at(then.pages(), id).entries,
                from,
                to,
                p,
            ),
    ensures
        grows(then, now),
        removed(
            then,
            now,
            id,
            h,
            hi,
            key,
            NodeModel {
                leaf: false,
                entries: regrown(
                    node_at(then.pages(), id).entries,
                    from,
                    to,
                    lowered(ks, node_at(then.pages(), id).entries[from].key),
                ),
            },
        ),
        regrown(
            node_at(then.pages(), id).entries,
            from,
            to,
            lowered(ks, node_at(then.pages(), id).entries[from].key),
        ).len() > 0,
        encoded_size(
            regrown(
                node_at(then.pages(), id).entries,
                from,
                to,
                lowered(ks, node_at(then.pages(), id).entries[from].key),
            ),
        ) <= encoded_size(node_at(then.pages(), id).entries) + 1014 * ks.len(),
        crate::node::fits(
            regrown(
                node_at(then.pages(), id).entries,
                from,
                to,
                lowered(ks, node_at(then.pages(), id).entries[from].key),
            ),
        ) || encoded_size(node_at(then.pages(), id).entries) + 1014 * ks.len() > 60000,
        entries_wf(
            regrown(
                node_at(then.pages(), id).entries,
                from,
                to,
                lowered(ks, node_at(then.pages(), id).entries[from].key),
            ),
        ),
{
    reveal(applying);
    let es = node_at(then.pages(), id).entries;
    let sep = es[from].key;
    let low = lowered(ks, sep);
    let out = regrown(es, from, to, low);
    assert(key_le(sep, ks[0].key)) by {
        reveal(run_node);
    }
    lemma_run_done(then, mid, put, now, id, h, hi, key, None, from, to, whole, ks);
    assert(in_subtree(then.pages(), id, h, id));
    assert(sep.len() <= BTREE_MAX_KEY_SIZE) by {
        assert(es[from].key.len() <= BTREE_MAX_KEY_SIZE);
    }
    lemma_regrow(then, now, id, h, hi, key, None, from, to, ks, sep);
    crate::update::lemma_lowered_sound(ks, sep);
    lemma_kids_size(low);
    lemma_regrown_size(es, from, to, low);
    lemma_records_size_concat(out, out);
    assert(out[0].key == es[0].key) by {
        if from == 0 {
            assert(out[0] == low[0]);
        } else {
            assert(out[0] == es[0]);
        }
    }
}

/// The page of the child that lost the key is still live: it is for the
/// node above to free.
pub proof fn lemma_child_live(
    then: PageManager,
    mid: PageManager,
    id: u64,
    h: nat,
    hi: Option<Seq<u8>>,
    key: Seq<u8>,
    up: NodeModel,
)
    requires
        shrunk(then, mid, id, h, hi, key, up),
    ensures
        mid.live(
            node_at(then.pages(), id).entries[child_index(
                keys_of(node_at(then.pages(), id).entries),
                key,
            )].ptr,
        ),
{
    let t = then.pages();
    let es = node_at(t, id).entries;
    let c = child_index(keys_of(es), key);
    let hk = (h - 1) as nat;
    lemma_descend(then, id, h, hi, key);
    assert(in_subtree(t, es[c].ptr, hk, es[c].ptr));
    lemma_grows_live(then, mid, es[c].ptr);
    if mid.pending().contains(es[c].ptr) {
    }
}

/// What is left of the root is an internal node with a single child, and
/// the old root has been freed: the child can become the tree, one level
/// lower.
pub proof fn lemma_candidate_collapse(
    then: PageManager,
    mid: PageManager,
    now: PageManager,
    id: u64,
    h: nat,
    key: Seq<u8>,
    up: NodeModel,
)
    requires
        id != 0,
        h > 0,
        then.live(id),
        grows(then, mid),
        removed(then, mid, id, h, None, key, up),
        up.entries.len() == 1,
        now.wf(),
        now.pages() == mid.pages(),
        now.free_list() == mid.free_list(),
        now.root() == mid.root(),
        now.pending() == mid.pending().push(id),
    ensures
        grows(then, now),
        candidate(then, id, h, now, up.entries[0].ptr, (h - 1) as nat, key, None),
{
    let np = now.pages();
    let es = up.entries;
    let hk = (h - 1) as nat;
    lemma_freed(mid, now, id);
    lemma_grows_trans(then, mid, now);
    assert(kid_wf(np, slot(es, 0), hk, upper(es, 0, None)));
    assert forall|p: u64| #[trigger] in_subtree(np, es[0].ptr, hk, p) implies now.live(p) by {
        assert(in_subtree(np, slot(es, 0).ptr, hk, p));
        assert(in_kids(np, es, hk, p));
        assert(kid_pages(mid.pages(), up, h, p));
    }
    assert forall|k: Seq<u8>| #[trigger]
        subtree_get(np, es[0].ptr, hk, k) == updated(key, None, k, held(then, id, h, k)) by {
        lemma_single_kid(np, es, hk, k, 0);
        assert(node_get(mid.pages(), up, h, k) == updated(
            key,
            None,
            k,
            subtree_get(then.pages(), id, h, k),
        ));
    }
}

/// What is left of the root has no entries: the tree held nothing but the
/// key.
pub proof fn lemma_emptied(
    then: PageManager,
    mid: PageManager,
    id: u64,
    h: nat,
    key: Seq<u8>,
    up: NodeModel,
    k: Seq<u8>,
)
    requires
        id != 0,
        removed(then, mid, id, h, None, key, up),
        up.entries.len() == 0,
    ensures
        updated(key, None, k, held(then, id, h, k)) is None,
{
    if k != key {
        assert(subtree_get(then.pages(), id, h, k) is None);
    }
}

} // verus!
