//! What it means for pages to hold a tree.
//!
//! A tree of height `h` rooted at a page is described by four mutually
//! recursive notions, each taken over the contents of all pages: whether
//! the subtree is well formed, which pages it uses, and what it returns for
//! a key. All are spec functions; the executable tree is in `tree`.
//!
//! An internal node holds one entry per child: the child's page number and
//! a separator key at or before every key of the child. A key belongs to
//! the last child whose separator is at or before it, and to the first
//! child when it sorts before all of them.

use crate::keys::{key_le, key_lt, rank};
use crate::node::{
    entries_wf, keys_of, node_of, well_formed, EntryModel, NodeModel, BTREE_PAGE_SIZE,
};
use crate::ops::{child_index, has_key, lemma_child_index};
use crate::pager::FIRST_PAGE;
use vstd::prelude::*;

verus! {

/// `key` is under the bound `hi`; no bound admits every key.
pub open spec fn below(key: Seq<u8>, hi: Option<Seq<u8>>) -> bool {
    match hi {
        Some(h) => key_lt(key, h),
        None => true,
    }
}

/// The bound on the keys of child `i`: the first key of the child after it,
/// or the bound of the whole node for the last child.
pub open spec fn upper(es: Seq<EntryModel>, i: int, hi: Option<Seq<u8>>) -> Option<Seq<u8>> {
    if i + 1 < es.len() {
        Some(es[i + 1].key)
    } else {
        hi
    }
}

/// Entry `i` of `es`. Statements about every child of a node are made of
/// `slot(es, i)`, so that they are only brought up where a proof names a
/// child.
pub open spec fn slot(es: Seq<EntryModel>, i: int) -> EntryModel {
    es[i]
}

/// What page `id` holds when read as a node.
pub open spec fn node_at(pages: Seq<Seq<u8>>, id: u64) -> NodeModel {
    node_of(pages[id as int])
}

/// Page `id` exists, has the page size, and decodes as a node.
pub open spec fn page_ok(pages: Seq<Seq<u8>>, id: u64) -> bool {
    &&& FIRST_PAGE <= id < pages.len()
    &&& pages[id as int].len() == BTREE_PAGE_SIZE
    &&& well_formed(pages[id as int])
    &&& entries_wf(node_of(pages[id as int]).entries)
}

/// Page `p` is part of one of the subtrees of height `h` that `es` names.
pub open spec fn in_kids(pages: Seq<Seq<u8>>, es: Seq<EntryModel>, h: nat, p: u64) -> bool
    decreases h, 1nat,
{
    exists|i: int| 0 <= i < es.len() && in_subtree(pages, (#[trigger] slot(es, i)).ptr, h, p)
}

/// Page `p` is part of the subtree of height `h` rooted at `id`.
pub open spec fn in_subtree(pages: Seq<Seq<u8>>, id: u64, h: nat, p: u64) -> bool
    decreases h, 0nat,
{
    p == id || (h > 0 && in_kids(pages, node_at(pages, id).entries, (h - 1) as nat, p))
}

/// A node holding `m`, whose children are subtrees of height `h - 1`, is
/// well formed: it has entries, they are sound, its keys are under `hi`, a
/// leaf stands exactly at height 0, and the children of an internal node
/// are well formed.
pub open spec fn node_wf(pages: Seq<Seq<u8>>, m: NodeModel, h: nat, hi: Option<Seq<u8>>) -> bool
    decreases h, 0nat,
{
    &&& entries_wf(m.entries)
    &&& m.entries.len() > 0
    &&& m.leaf == (h == 0)
    &&& below(m.entries.last().key, hi)
    &&& h > 0 ==> kids_wf(pages, m.entries, (h - 1) as nat, hi)
}

/// The subtree of height `h` rooted at page `id` is well formed, with every
/// key under `hi`: the page is a node, the node is well formed, and the
/// page is not part of a subtree below itself.
pub open spec fn subtree_wf(pages: Seq<Seq<u8>>, id: u64, h: nat, hi: Option<Seq<u8>>) -> bool
    decreases h, 1nat,
{
    &&& page_ok(pages, id)
    &&& node_wf(pages, node_at(pages, id), h, hi)
    &&& h > 0 ==> !in_kids(pages, node_at(pages, id).entries, (h - 1) as nat, id)
}

/// The entry `e` names a well-formed subtree of height `h` whose keys
/// begin at or after the entry's key and stay under `hi`.
pub open spec fn kid_wf(pages: Seq<Seq<u8>>, e: EntryModel, h: nat, hi: Option<Seq<u8>>) -> bool
    decreases h, 2nat,
{
    &&& subtree_wf(pages, e.ptr, h, hi)
    &&& key_le(e.key, node_at(pages, e.ptr).entries[0].key)
}

/// The subtrees of height `h` rooted at `a` and `b` share no page.
pub open spec fn apart(pages: Seq<Seq<u8>>, a: u64, b: u64, h: nat) -> bool {
    forall|p: u64| #[trigger] in_subtree(pages, a, h, p) ==> !in_subtree(pages, b, h, p)
}

/// The entries `es` name well-formed subtrees of height `h`, each with its
/// keys under the key of the next entry, that share no page.
pub open spec fn kids_wf(pages: Seq<Seq<u8>>, es: Seq<EntryModel>, h: nat, hi: Option<Seq<u8>>) -> bool
    decreases h, 3nat,
{
    &&& forall|i: int| 0 <= i < es.len() ==> kid_wf(pages, #[trigger] slot(es, i), h, upper(es, i, hi))
    &&& forall|i: int, j: int|
        0 <= i < es.len() && 0 <= j < es.len() && i != j ==> apart(
            pages,
            (#[trigger] slot(es, i)).ptr,
            (#[trigger] slot(es, j)).ptr,
            h,
        )
}

/// What a node holding `m` returns for `key`: a leaf its value for the
/// key, an internal node what the child that owns the key returns.
pub open spec fn node_get(pages: Seq<Seq<u8>>, m: NodeModel, h: nat, key: Seq<u8>) -> Option<
    Seq<u8>,
>
    decreases h, 0nat,
{
    if h == 0 {
        if has_key(keys_of(m.entries), key) {
            Some(m.entries[rank(keys_of(m.entries), key)].val)
        } else {
            None
        }
    } else {
        kids_get(pages, m.entries, (h - 1) as nat, key)
    }
}

/// What the subtree of height `h` rooted at page `id` returns for `key`.
pub open spec fn subtree_get(pages: Seq<Seq<u8>>, id: u64, h: nat, key: Seq<u8>) -> Option<
    Seq<u8>,
>
    decreases h, 1nat,
{
    node_get(pages, node_at(pages, id), h, key)
}

/// What the subtrees of height `h` named by `es` return for `key`: the
/// answer of the one that owns the key.
pub open spec fn kids_get(pages: Seq<Seq<u8>>, es: Seq<EntryModel>, h: nat, key: Seq<u8>) -> Option<
    Seq<u8>,
>
    decreases h, 2nat,
{
    subtree_get(pages, es[child_index(keys_of(es), key)].ptr, h, key)
}

/// `now` holds every page of the subtree at `id` as `then` does.
pub open spec fn same_subtree(then: Seq<Seq<u8>>, now: Seq<Seq<u8>>, id: u64, h: nat) -> bool {
    &&& then.len() <= now.len()
    &&& forall|p: u64| #[trigger] in_subtree(then, id, h, p) ==> now[p as int] == then[p as int]
}

/// `now` holds every page of the subtrees named by `es` as `then` does.
pub open spec fn same_kids(then: Seq<Seq<u8>>, now: Seq<Seq<u8>>, es: Seq<EntryModel>, h: nat) -> bool {
    &&& then.len() <= now.len()
    &&& forall|p: u64| #[trigger] in_kids(then, es, h, p) ==> now[p as int] == then[p as int]
}

/// A subtree whose pages are unchanged uses the same pages.
pub proof fn lemma_same_pages(then: Seq<Seq<u8>>, now: Seq<Seq<u8>>, id: u64, h: nat, p: u64)
    requires
        same_subtree(then, now, id, h),
    ensures
        in_subtree(now, id, h, p) == in_subtree(then, id, h, p),
    decreases h, 0nat,
{
    assert(in_subtree(then, id, h, id));
    if h > 0 {
        let es = node_at(then, id).entries;
        assert(node_at(now, id).entries == es);
        assert forall|q: u64| #[trigger] in_kids(then, es, (h - 1) as nat, q) implies now[q as int]
            == then[q as int] by {
            assert(in_subtree(then, id, h, q));
        }
        lemma_same_kids_pages(then, now, es, (h - 1) as nat, p);
    }
}

/// Subtrees whose pages are unchanged use the same pages.
pub proof fn lemma_same_kids_pages(
    then: Seq<Seq<u8>>,
    now: Seq<Seq<u8>>,
    es: Seq<EntryModel>,
    h: nat,
    p: u64,
)
    requires
        same_kids(then, now, es, h),
    ensures
        in_kids(now, es, h, p) == in_kids(then, es, h, p),
    decreases h, 1nat,
{
    assert forall|i: int| 0 <= i < es.len() implies in_subtree(
        now,
        (#[trigger] slot(es, i)).ptr,
        h,
        p,
    ) == in_subtree(then, slot(es, i).ptr, h, p) by {
        lemma_kid_same(then, now, es, h, i);
        lemma_same_pages(then, now, es[i].ptr, h, p);
    }
}

/// Each of several unchanged subtrees is unchanged.
pub proof fn lemma_kid_same(then: Seq<Seq<u8>>, now: Seq<Seq<u8>>, es: Seq<EntryModel>, h: nat, i: int)
    requires
        same_kids(then, now, es, h),
        0 <= i < es.len(),
    ensures
        same_subtree(then, now, es[i].ptr, h),
{
    assert forall|q: u64| #[trigger] in_subtree(then, es[i].ptr, h, q) implies now[q as int]
        == then[q as int] by {
        assert(in_subtree(then, slot(es, i).ptr, h, q));
        assert(in_kids(then, es, h, q));
    }
}

/// The children of an unchanged subtree are unchanged.
pub proof fn lemma_same_below(then: Seq<Seq<u8>>, now: Seq<Seq<u8>>, id: u64, h: nat)
    requires
        same_subtree(then, now, id, h),
        h > 0,
    ensures
        node_at(now, id) == node_at(then, id),
        same_kids(then, now, node_at(then, id).entries, (h - 1) as nat),
{
    assert(in_subtree(then, id, h, id));
    let es = node_at(then, id).entries;
    assert forall|q: u64| #[trigger] in_kids(then, es, (h - 1) as nat, q) implies now[q as int]
        == then[q as int] by {
        assert(in_subtree(then, id, h, q));
    }
}

/// A subtree whose pages are unchanged stays well formed.
pub proof fn lemma_same_wf(
    then: Seq<Seq<u8>>,
    now: Seq<Seq<u8>>,
    id: u64,
    h: nat,
    hi: Option<Seq<u8>>,
)
    requires
        same_subtree(then, now, id, h),
        subtree_wf(then, id, h, hi),
    ensures
        subtree_wf(now, id, h, hi),
    decreases h, 0nat,
{
    assert(in_subtree(then, id, h, id));
    if h > 0 {
        let es = node_at(then, id).entries;
        lemma_same_below(then, now, id, h);
        lemma_same_kids_wf(then, now, es, (h - 1) as nat, hi);
        lemma_same_kids_pages(then, now, es, (h - 1) as nat, id);
    }
}

/// Subtrees whose pages are unchanged stay well formed.
pub proof fn lemma_same_kids_wf(
    then: Seq<Seq<u8>>,
    now: Seq<Seq<u8>>,
    es: Seq<EntryModel>,
    h: nat,
    hi: Option<Seq<u8>>,
)
    requires
        same_kids(then, now, es, h),
        kids_wf(then, es, h, hi),
    ensures
        kids_wf(now, es, h, hi),
    decreases h, 1nat,
{
    assert forall|i: int| 0 <= i < es.len() implies kid_wf(
        now,
        #[trigger] slot(es, i),
        h,
        upper(es, i, hi),
    ) by {
        assert(kid_wf(then, slot(es, i), h, upper(es, i, hi)));
        lemma_kid_same(then, now, es, h, i);
        lemma_same_wf(then, now, es[i].ptr, h, upper(es, i, hi));
        assert(in_subtree(then, es[i].ptr, h, es[i].ptr));
    }
    assert forall|i: int, j: int|
        0 <= i < es.len() && 0 <= j < es.len() && i != j implies apart(
        now,
        (#[trigger] slot(es, i)).ptr,
        (#[trigger] slot(es, j)).ptr,
        h,
    ) by {
        assert(apart(then, slot(es, i).ptr, slot(es, j).ptr, h));
        lemma_kid_same(then, now, es, h, i);
        lemma_kid_same(then, now, es, h, j);
        assert forall|p: u64| #[trigger] in_subtree(now, es[i].ptr, h, p) implies !in_subtree(
            now,
            es[j].ptr,
            h,
            p,
        ) by {
            lemma_same_pages(then, now, es[i].ptr, h, p);
            lemma_same_pages(then, now, es[j].ptr, h, p);
        }
    }
}

/// A subtree whose pages are unchanged answers as before.
pub proof fn lemma_same_get(
    then: Seq<Seq<u8>>,
    now: Seq<Seq<u8>>,
    id: u64,
    h: nat,
    hi: Option<Seq<u8>>,
    key: Seq<u8>,
)
    requires
        same_subtree(then, now, id, h),
        subtree_wf(then, id, h, hi),
    ensures
        subtree_get(now, id, h, key) == subtree_get(then, id, h, key),
    decreases h,
{
    assert(in_subtree(then, id, h, id));
    if h > 0 {
        let es = node_at(then, id).entries;
        lemma_same_below(then, now, id, h);
        lemma_child_index(keys_of(es), key);
        let c = child_index(keys_of(es), key);
        lemma_kid_same(then, now, es, (h - 1) as nat, c);
        assert(kid_wf(then, slot(es, c), (h - 1) as nat, upper(es, c, hi)));
        lemma_same_get(then, now, es[c].ptr, (h - 1) as nat, upper(es, c, hi), key);
    }
}

} // verus!
