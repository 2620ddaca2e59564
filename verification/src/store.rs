//! Nodes in pages: reading a node from the store, and writing the nodes a
//! split makes to pages of their own.

use crate::error::Error;
use crate::graft::{
    bound_at, lemma_in_kids_concat, lemma_in_kids_sub, lemma_kids_concat_wf, lemma_kids_sorted,
    lemma_node_same_get, lemma_stored_pages, lemma_stored_wf, lemma_sub_node_get,
    lemma_sub_node_wf,
};
use crate::keys::{key_le, key_lt, lemma_not_lt, strictly_sorted};
use crate::node::{
    encoded_size, entries_wf, keys_of, lemma_adjacent_sorted, models, node_of, BNode, Entry,
    EntryModel, NodeModel, BTREE_MAX_KEY_SIZE, BTREE_PAGE_SIZE,
};
use crate::ops::{
    child_entry, child_index, cut_at, lemma_child_index, lemma_split_cuts, sibling_holds,
    split_if_oversized, split_parts, Sibling, SPLIT_MAX,
};
use crate::pager::{padded, PageManager};
use crate::route::{lemma_route_cut};
use crate::shape::{apart, below, in_kids, in_subtree, kid_wf, kids_get, kids_wf, lemma_same_get, lemma_same_kids_wf, node_at, node_get, node_wf, page_ok, same_kids, slot, subtree_get, subtree_wf, upper};
use vstd::prelude::*;
use vstd::slice::slice_to_vec;

verus! {

/// What an update may do to the store between two commits: the root stays,
/// the file only grows, pages that were not free keep their contents, the
/// free list only loses pages and the pending list only gains them.
pub open spec fn grows(a: PageManager, b: PageManager) -> bool {
    &&& a.wf()
    &&& b.wf()
    &&& b.root() == a.root()
    &&& a.pages().len() <= b.pages().len()
    &&& forall|p: u64|
        a.in_range(p) && !a.free_list().contains(p) ==> #[trigger] b.pages()[p as int]
            == a.pages()[p as int]
    &&& forall|p: u64| #[trigger] b.free_list().contains(p) ==> a.free_list().contains(p)
    &&& forall|p: u64| #[trigger] a.pending().contains(p) ==> b.pending().contains(p)
}

/// `grows` is transitive.
pub proof fn lemma_grows_trans(a: PageManager, b: PageManager, c: PageManager)
    requires
        grows(a, b),
        grows(b, c),
    ensures
        grows(a, c),
{
    assert forall|p: u64| a.in_range(p) && !a.free_list().contains(p) implies #[trigger] c.pages()[p as int]
        == a.pages()[p as int] by {
        assert(b.pages()[p as int] == a.pages()[p as int]);
        if b.free_list().contains(p) {
        }
    }
}

/// A page that is live after an update was live before it, or was not in
/// use before it; a page that was live before is live or pending after.
pub proof fn lemma_grows_live(a: PageManager, b: PageManager, p: u64)
    requires
        grows(a, b),
    ensures
        a.live(p) ==> b.live(p) || b.pending().contains(p),
        a.live(p) ==> b.pages()[p as int] == a.pages()[p as int],
        b.live(p) && !a.live(p) ==> a.free_list().contains(p) || p >= a.pages().len(),
{
    if b.free_list().contains(p) {
    }
    if a.pending().contains(p) {
    }
}

/// Page `p` belongs to a child of a node holding `m`.
pub open spec fn kid_pages(pages: Seq<Seq<u8>>, m: NodeModel, h: nat, p: u64) -> bool {
    h > 0 && in_kids(pages, m.entries, (h - 1) as nat, p)
}

/// Every page below a node holding `m` is live.
pub open spec fn node_live(pm: PageManager, m: NodeModel, h: nat) -> bool {
    forall|p: u64| #[trigger] kid_pages(pm.pages(), m, h, p) ==> pm.live(p)
}

/// Every page of the subtree at `id` is live.
pub open spec fn all_live(pm: PageManager, id: u64, h: nat) -> bool {
    forall|p: u64| #[trigger] in_subtree(pm.pages(), id, h, p) ==> pm.live(p)
}

/// Reads page `id` as a node. Succeeds on every readable page that holds a
/// node.
pub fn load(pm: &PageManager, id: u64) -> (r: Result<BNode, Error>)
    requires
        pm.wf(),
    ensures
        r is Ok <==> pm.readable(id) && page_ok_at(pm.pages(), id),
        r matches Ok(node) ==> node.valid() && node@ == pm.pages()[id as int] && node.model()
            == node_at(pm.pages(), id) && node@.len() == BTREE_PAGE_SIZE,
        r matches Err(e) ==> e == if pm.readable(id) {
            Error::CorruptPage
        } else {
            Error::InvalidPageId
        },
{
    match pm.get(id) {
        Ok(page) => BNode::decode(slice_to_vec(page)),
        Err(e) => Err(e),
    }
}

/// Page `id` decodes as a node.
pub open spec fn page_ok_at(pages: Seq<Seq<u8>>, id: u64) -> bool {
    crate::node::well_formed(pages[id as int]) && entries_wf(node_of(pages[id as int]).entries)
}

/// The root of a well-formed subtree of live pages can be read and holds
/// a node of the kind its height asks for.
pub proof fn lemma_at_node(pm: PageManager, id: u64, h: nat, hi: Option<Seq<u8>>)
    requires
        subtree_wf(pm.pages(), id, h, hi),
        all_live(pm, id, h),
    ensures
        pm.live(id),
        pm.readable(id),
        page_ok_at(pm.pages(), id),
        node_at(pm.pages(), id).entries.len() > 0,
        node_at(pm.pages(), id).leaf == (h == 0),
{
    assert(in_subtree(pm.pages(), id, h, id));
}

/// One step down a well-formed subtree: the child that owns `key` is a
/// well-formed subtree of live pages, it answers for `key` as the subtree
/// does, and `key` is under its bound if it is under the subtree's.
pub proof fn lemma_descend(pm: PageManager, id: u64, h: nat, hi: Option<Seq<u8>>, key: Seq<u8>)
    requires
        subtree_wf(pm.pages(), id, h, hi),
        all_live(pm, id, h),
        h > 0,
    ensures
        ({
            let es = node_at(pm.pages(), id).entries;
            let c = child_index(keys_of(es), key);
            &&& 0 <= c < es.len()
            &&& subtree_wf(pm.pages(), es[c].ptr, (h - 1) as nat, upper(es, c, hi))
            &&& all_live(pm, es[c].ptr, (h - 1) as nat)
            &&& subtree_get(pm.pages(), es[c].ptr, (h - 1) as nat, key) == subtree_get(
                pm.pages(),
                id,
                h,
                key,
            )
            &&& below(key, hi) ==> below(key, upper(es, c, hi))
            &&& key_le(es[c].key, node_at(pm.pages(), es[c].ptr).entries[0].key)
            &&& c > 0 ==> key_le(es[c].key, key)
        }),
{
    let pages = pm.pages();
    let es = node_at(pages, id).entries;
    lemma_child_index(keys_of(es), key);
    crate::route::lemma_child_index_bounds(keys_of(es), key);
    let c = child_index(keys_of(es), key);
    assert(kid_wf(pages, slot(es, c), (h - 1) as nat, upper(es, c, hi)));
    assert forall|p: u64| #[trigger] in_subtree(pages, es[c].ptr, (h - 1) as nat, p) implies pm.live(
        p,
    ) by {
        assert(in_subtree(pages, slot(es, c).ptr, (h - 1) as nat, p));
        assert(in_subtree(pages, id, h, p));
    }
    if c + 1 < es.len() {
        assert(key_lt(key, keys_of(es)[c + 1]));
    }
}

/// A key before entry `c` of a node holding `m` gets from the children
/// `ks` what it got from the node.
pub open spec fn placed_get(
    then: Seq<Seq<u8>>,
    now: Seq<Seq<u8>>,
    m: NodeModel,
    h: nat,
    ks: Seq<EntryModel>,
    c: int,
) -> bool {
    forall|k: Seq<u8>|
        (c < m.entries.len() ==> key_lt(k, m.entries[c].key)) ==> #[trigger] kids_get(
            now,
            ks,
            h,
            k,
        ) == node_get(then, m, h, k)
}

/// The pages of the children `ks`, which stand for the first `c` entries
/// of a node holding `m`, are live, and each is new or a page below one of
/// those entries.
pub open spec fn placed_pages(
    then: PageManager,
    now: PageManager,
    m: NodeModel,
    h: nat,
    ks: Seq<EntryModel>,
    c: int,
) -> bool {
    forall|p: u64| #[trigger]
        in_kids(now.pages(), ks, h, p) ==> now.live(p) && (!then.live(p) || kid_pages(
            then.pages(),
            NodeModel { leaf: m.leaf, entries: m.entries.take(c) },
            h,
            p,
        ))
}

/// The run of entries `c` to `c2` of a well-formed node, stored in a page
/// of its own while the pages below the node stay as they were, is a
/// well-formed subtree that the entry for it can name.
pub proof fn lemma_part_stored(
    then: Seq<Seq<u8>>,
    now: Seq<Seq<u8>>,
    m: NodeModel,
    h: nat,
    hi: Option<Seq<u8>>,
    c: int,
    c2: int,
    id: u64,
)
    requires
        node_wf(then, m, h, hi),
        0 <= c < c2 <= m.entries.len(),
        then.len() <= now.len(),
        forall|p: u64| #[trigger] kid_pages(then, m, h, p) ==> now[p as int] == then[p as int],
        !kid_pages(then, m, h, id),
        page_ok(now, id),
        node_at(now, id) == (NodeModel { leaf: m.leaf, entries: m.entries.subrange(c, c2) }),
    ensures
        subtree_wf(now, id, h, bound_at(m.entries, c2, hi)),
        kid_wf(now, child_entry(m.entries[c].key, id), h, bound_at(m.entries, c2, hi)),
        h > 0 ==> same_kids(then, now, m.entries.subrange(c, c2), (h - 1) as nat),
        node_wf(
            then,
            NodeModel { leaf: m.leaf, entries: m.entries.subrange(c, c2) },
            h,
            bound_at(m.entries, c2, hi),
        ),
{
    let es = m.entries;
    let part = NodeModel { leaf: m.leaf, entries: es.subrange(c, c2) };
    let b2 = bound_at(es, c2, hi);
    lemma_sub_node_wf(then, m, c, c2, h, hi);
    if h > 0 {
        assert forall|p: u64| #[trigger] in_kids(
            then,
            part.entries,
            (h - 1) as nat,
            p,
        ) implies now[p as int] == then[p as int] by {
            lemma_in_kids_sub(then, es, c, c2, (h - 1) as nat, p);
            assert(kid_pages(then, m, h, p));
        }
        assert(!in_kids(then, part.entries, (h - 1) as nat, id)) by {
            if in_kids(then, part.entries, (h - 1) as nat, id) {
                lemma_in_kids_sub(then, es, c, c2, (h - 1) as nat, id);
                assert(kid_pages(then, m, h, id));
            }
        }
    }
    lemma_stored_wf(then, now, id, part, h, b2);
    assert(part.entries[0] == es[c]);
}

/// A page of the stored run is its own page or a page below the run.
pub proof fn lemma_part_pages(
    then: Seq<Seq<u8>>,
    now: Seq<Seq<u8>>,
    m: NodeModel,
    h: nat,
    c: int,
    c2: int,
    id: u64,
    p: u64,
)
    requires
        0 <= c < c2 <= m.entries.len(),
        h > 0 ==> same_kids(then, now, m.entries.subrange(c, c2), (h - 1) as nat),
        node_at(now, id) == (NodeModel { leaf: m.leaf, entries: m.entries.subrange(c, c2) }),
    ensures
        in_subtree(now, id, h, p) <==> p == id || (h > 0 && in_kids(
            then,
            m.entries.subrange(c, c2),
            (h - 1) as nat,
            p,
        )),
        in_subtree(now, id, h, p) && p != id ==> kid_pages(then, m, h, p),
{
    let part = NodeModel { leaf: m.leaf, entries: m.entries.subrange(c, c2) };
    lemma_stored_pages(then, now, id, part, h, p);
    if h > 0 && in_kids(then, m.entries.subrange(c, c2), (h - 1) as nat, p) {
        lemma_in_kids_sub(then, m.entries, c, c2, (h - 1) as nat, p);
    }
}

/// A key in the range of the stored run gets from it what it got from the
/// node.
pub proof fn lemma_part_get(
    then: Seq<Seq<u8>>,
    now: Seq<Seq<u8>>,
    m: NodeModel,
    h: nat,
    hi: Option<Seq<u8>>,
    c: int,
    c2: int,
    id: u64,
    key: Seq<u8>,
)
    requires
        node_wf(then, m, h, hi),
        0 <= c < c2 <= m.entries.len(),
        h > 0 ==> same_kids(then, now, m.entries.subrange(c, c2), (h - 1) as nat),
        node_at(now, id) == (NodeModel { leaf: m.leaf, entries: m.entries.subrange(c, c2) }),
        c > 0 ==> key_le(m.entries[c].key, key),
        c2 < m.entries.len() ==> key_lt(key, m.entries[c2].key),
    ensures
        subtree_get(now, id, h, key) == node_get(then, m, h, key),
{
    let part = NodeModel { leaf: m.leaf, entries: m.entries.subrange(c, c2) };
    lemma_sub_node_wf(then, m, c, c2, h, hi);
    lemma_sub_node_get(then, m, c, c2, h, key);
    lemma_node_same_get(then, now, part, h, bound_at(m.entries, c2, hi), key);
}

/// A well-formed child that shares no page with well-formed children
/// bounded by its separator can be put after them.
pub proof fn lemma_push_wf(
    then: Seq<Seq<u8>>,
    now: Seq<Seq<u8>>,
    ks: Seq<EntryModel>,
    kid: EntryModel,
    h: nat,
    hi: Option<Seq<u8>>,
)
    requires
        ks.len() > 0 ==> kids_wf(then, ks, h, Some(kid.key)) && same_kids(then, now, ks, h),
        kid_wf(now, kid, h, hi),
        forall|p: u64| #[trigger] in_kids(then, ks, h, p) ==> !in_subtree(now, kid.ptr, h, p),
    ensures
        kids_wf(now, ks.push(kid), h, hi),
{
    let one = seq![kid];
    assert(kids_wf(now, one, h, hi)) by {
        assert forall|i: int| 0 <= i < one.len() implies kid_wf(
            now,
            #[trigger] slot(one, i),
            h,
            upper(one, i, hi),
        ) by {
            assert(one[i] == kid);
        }
    }
    assert(ks.push(kid) =~= ks + one);
    if ks.len() > 0 {
        lemma_same_kids_wf(then, now, ks, h, Some(kid.key));
        assert(bound_at(one, 0, hi) == Some(kid.key));
        assert forall|p: u64| #[trigger] in_kids(now, ks, h, p) implies !in_kids(now, one, h, p) by {
            crate::shape::lemma_same_kids_pages(then, now, ks, h, p);
            if in_kids(now, one, h, p) {
                let i = choose|i: int|
                    0 <= i < one.len() && in_subtree(now, (#[trigger] slot(one, i)).ptr, h, p);
                assert(one[i] == kid);
            }
        }
        lemma_kids_concat_wf(now, ks, one, h, hi);
    } else {
        assert(ks + one =~= one);
    }
}

/// A page of children with one more put after them is a page of the
/// children or of the one.
pub proof fn lemma_push_pages(
    now: Seq<Seq<u8>>,
    ks: Seq<EntryModel>,
    kid: EntryModel,
    h: nat,
    p: u64,
)
    ensures
        in_kids(now, ks.push(kid), h, p) <==> in_kids(now, ks, h, p) || in_subtree(
            now,
            kid.ptr,
            h,
            p,
        ),
{
    let one = seq![kid];
    assert(ks.push(kid) =~= ks + one);
    lemma_in_kids_concat(now, ks, one, h, p);
    if in_kids(now, one, h, p) {
        let i = choose|i: int|
            0 <= i < one.len() && in_subtree(now, (#[trigger] slot(one, i)).ptr, h, p);
        assert(one[i] == kid);
    }
    if in_subtree(now, kid.ptr, h, p) {
        assert(in_subtree(now, slot(one, 0).ptr, h, p));
    }
}

/// How a key routes through children with one more put after them: a key
/// before the new separator goes where it went, any other key to the new
/// child.
pub proof fn lemma_push_get(
    then: Seq<Seq<u8>>,
    now: Seq<Seq<u8>>,
    ks: Seq<EntryModel>,
    kid: EntryModel,
    h: nat,
    hi: Option<Seq<u8>>,
    key: Seq<u8>,
)
    requires
        kids_wf(now, ks.push(kid), h, hi),
        ks.len() > 0 ==> kids_wf(then, ks, h, Some(kid.key)) && same_kids(then, now, ks, h),
    ensures
        kids_get(now, ks.push(kid), h, key) == if ks.len() > 0 && key_lt(key, kid.key) {
            kids_get(then, ks, h, key)
        } else {
            subtree_get(now, kid.ptr, h, key)
        },
{
    let out = ks.push(kid);
    let one = seq![kid];
    let oks = keys_of(out);
    let j = ks.len() as int;
    lemma_kids_sorted(now, out, h, hi);
    lemma_child_index(oks, key);
    assert(oks[j] == kid.key);
    if j > 0 {
        lemma_route_cut(oks, j, key);
        assert(oks.take(j) =~= keys_of(ks));
        assert(oks.skip(j) =~= keys_of(one));
    } else {
        assert(oks =~= keys_of(one));
    }
    assert(strictly_sorted(keys_of(one))) by {
        crate::keys::lemma_sorted_subrange(oks, j, j + 1);
        assert(keys_of(one) =~= oks.subrange(j, j + 1));
    }
    lemma_child_index(keys_of(one), key);
    if j > 0 && key_lt(key, kid.key) {
        let ci = child_index(keys_of(ks), key);
        lemma_kids_sorted(then, ks, h, Some(kid.key));
        lemma_child_index(keys_of(ks), key);
        assert(out[ci] == ks[ci]);
        assert(kid_wf(then, slot(ks, ci), h, upper(ks, ci, Some(kid.key))));
        crate::shape::lemma_kid_same(then, now, ks, h, ci);
        lemma_same_get(then, now, ks[ci].ptr, h, upper(ks, ci, Some(kid.key)), key);
    } else {
        assert(child_index(oks, key) == j);
        assert(out[j] == kid);
    }
}

/// The children of two disjoint runs of a well-formed node share no page.
pub proof fn lemma_parts_apart(
    pages: Seq<Seq<u8>>,
    es: Seq<EntryModel>,
    c: int,
    c2: int,
    h: nat,
    hi: Option<Seq<u8>>,
    p: u64,
)
    requires
        kids_wf(pages, es, h, hi),
        0 <= c <= c2 <= es.len(),
        in_kids(pages, es.subrange(c, c2), h, p),
    ensures
        !in_kids(pages, es.take(c), h, p),
{
    let a = es.take(c);
    let b = es.subrange(c, c2);
    if in_kids(pages, a, h, p) {
        let i = choose|i: int| 0 <= i < a.len() && in_subtree(pages, (#[trigger] slot(a, i)).ptr, h, p);
        let j = choose|j: int| 0 <= j < b.len() && in_subtree(pages, (#[trigger] slot(b, j)).ptr, h, p);
        assert(a[i] == es[i]);
        assert(b[j] == es[c + j]);
        assert(apart(pages, slot(es, i).ptr, slot(es, c + j).ptr, h));
    }
}

/// What an allocation does to the store, in the terms updates are
/// described in.
pub proof fn lemma_allocated(mid: PageManager, now: PageManager, id: u64, page: Seq<u8>)
    requires
        mid.wf(),
        now.wf(),
        now.live(id),
        now.root() == mid.root(),
        now.pending() == mid.pending(),
        page.len() == BTREE_PAGE_SIZE,
        mid.free_list().len() > 0 ==> id == mid.free_list().last() && now.free_list()
            == mid.free_list().drop_last() && now.pages() == mid.pages().update(
            id as int,
            padded(page),
        ),
        mid.free_list().len() == 0 ==> id == mid.pages().len() && now.free_list()
            == mid.free_list() && now.pages() == mid.pages().push(padded(page)),
    ensures
        grows(mid, now),
        mid.free_list().contains(id) || id == mid.pages().len(),
        !mid.live(id),
        now.pages()[id as int] == page,
        forall|p: u64|
            p != id && p < mid.pages().len() ==> #[trigger] now.pages()[p as int]
                == mid.pages()[p as int],
        forall|p: u64| #[trigger] mid.live(p) ==> now.live(p),
{
    assert(padded(page) =~= page);
    if mid.free_list().len() > 0 {
        let f = mid.free_list();
        assert(f[f.len() - 1] == id);
        assert forall|p: u64| #[trigger] now.free_list().contains(p) implies f.contains(p) by {
            let i = choose|i: int| 0 <= i < now.free_list().len() && now.free_list()[i] == p;
            assert(f[i] == p);
        }
    }
}

/// One step of writing out the parts of a node: the run of entries `c` to
/// `c2` has been stored in the page `id`, which was not in use, and the
/// entry for it is put after the children placed so far.
pub proof fn lemma_place_step(
    then: PageManager,
    mid: PageManager,
    now: PageManager,
    m: NodeModel,
    h: nat,
    hi: Option<Seq<u8>>,
    ks: Seq<EntryModel>,
    c: int,
    c2: int,
    id: u64,
)
    requires
        node_wf(then.pages(), m, h, hi),
        node_live(then, m, h),
        grows(then, mid),
        grows(mid, now),
        mid.pending() == then.pending(),
        now.pending() == then.pending(),
        0 <= c < c2 <= m.entries.len(),
        ks.len() == 0 <==> c == 0,
        ks.len() > 0 ==> kids_wf(mid.pages(), ks, h, bound_at(m.entries, c, hi)),
        ks.len() > 0 ==> placed_get(then.pages(), mid.pages(), m, h, ks, c),
        placed_pages(then, mid, m, h, ks, c),
        mid.free_list().contains(id) || id == mid.pages().len(),
        now.live(id),
        forall|p: u64|
            p != id && p < mid.pages().len() ==> #[trigger] now.pages()[p as int]
                == mid.pages()[p as int],
        forall|p: u64| #[trigger] mid.live(p) ==> now.live(p),
        page_ok(now.pages(), id),
        node_at(now.pages(), id) == (NodeModel {
            leaf: m.leaf,
            entries: m.entries.subrange(c, c2),
        }),
    ensures
        kids_wf(
            now.pages(),
            ks.push(child_entry(m.entries[c].key, id)),
            h,
            bound_at(m.entries, c2, hi),
        ),
        placed_get(
            then.pages(),
            now.pages(),
            m,
            h,
            ks.push(child_entry(m.entries[c].key, id)),
            c2,
        ),
        placed_pages(then, now, m, h, ks.push(child_entry(m.entries[c].key, id)), c2),
{
    let es = m.entries;
    let n = es.len() as int;
    let kid = child_entry(es[c].key, id);
    let out = ks.push(kid);
    let b2 = bound_at(es, c2, hi);
    let t = then.pages();
    let mp = mid.pages();
    let np = now.pages();
    lemma_grows_trans(then, mid, now);
    assert(!then.live(id)) by {
        lemma_grows_live(then, mid, id);
    }
    assert forall|p: u64| #[trigger] kid_pages(t, m, h, p) implies np[p as int] == t[p as int] by {
        lemma_grows_live(then, now, p);
    }
    lemma_part_stored(t, np, m, h, hi, c, c2, id);
    assert(ks.len() > 0 ==> same_kids(mp, np, ks, h)) by {
        if ks.len() > 0 {
            assert forall|p: u64| #[trigger] in_kids(mp, ks, h, p) implies np[p as int]
                == mp[p as int] by {
                assert(mid.live(p));
            }
        }
    }
    assert forall|p: u64| #[trigger] in_kids(mp, ks, h, p) implies !in_subtree(np, id, h, p) by {
        assert(mid.live(p));
        lemma_part_pages(t, np, m, h, c, c2, id, p);
        if in_subtree(np, id, h, p) {
            assert(kid_pages(t, m, h, p));
            assert(then.live(p));
            assert(es.take(c) =~= es.subrange(0, c));
            lemma_parts_apart(t, es, c, c2, (h - 1) as nat, hi, p);
        }
    }
    assert(bound_at(es, c, hi) == Some(kid.key));
    lemma_push_wf(mp, np, ks, kid, h, b2);
    assert forall|k: Seq<u8>| (c2 < n ==> key_lt(k, es[c2].key)) implies #[trigger] kids_get(
        np,
        out,
        h,
        k,
    ) == node_get(t, m, h, k) by {
        lemma_push_get(mp, np, ks, kid, h, b2, k);
        if ks.len() > 0 && key_lt(k, kid.key) {
            assert(kids_get(mp, ks, h, k) == node_get(t, m, h, k));
        } else {
            if c > 0 {
                lemma_not_lt(k, es[c].key);
            }
            lemma_part_get(t, np, m, h, hi, c, c2, id, k);
        }
    }
    assert forall|p: u64| #[trigger] in_kids(np, out, h, p) implies now.live(p) && (!then.live(p)
        || kid_pages(t, NodeModel { leaf: m.leaf, entries: es.take(c2) }, h, p)) by {
        lemma_push_pages(np, ks, kid, h, p);
        if in_subtree(np, id, h, p) {
            lemma_part_pages(t, np, m, h, c, c2, id, p);
            if p != id {
                assert(kid_pages(t, m, h, p));
                assert(then.live(p));
                lemma_grows_live(then, now, p);
                assert(es.take(c2).subrange(c, c2) =~= es.subrange(c, c2));
                lemma_in_kids_sub(t, es.take(c2), c, c2, (h - 1) as nat, p);
            }
        } else {
            if ks.len() > 0 {
                crate::shape::lemma_same_kids_pages(mp, np, ks, h, p);
            } else {
                lemma_no_kids(np, ks, h, p);
            }
            assert(in_kids(mp, ks, h, p));
            assert(mid.live(p));
            if then.live(p) {
                assert(es.take(c2).subrange(0, c) =~= es.take(c));
                lemma_in_kids_sub(t, es.take(c2), 0, c, (h - 1) as nat, p);
            }
        }
    }
}

/// No page belongs to no children.
pub proof fn lemma_no_kids(pages: Seq<Seq<u8>>, ks: Seq<EntryModel>, h: nat, p: u64)
    requires
        ks.len() == 0,
    ensures
        !in_kids(pages, ks, h, p),
{
}

/// The entries `ks` are what an internal node can hold for children: keys
/// increasing and within the size limit, no values.
pub open spec fn kids_sound(ks: Seq<EntryModel>) -> bool {
    &&& entries_wf(ks)
    &&& forall|i: int| 0 <= i < ks.len() ==> (#[trigger] ks[i]).val.len() == 0
}

/// The positions `cuts` cut the entries `es` into runs, none empty.
pub open spec fn cut_into(es: Seq<EntryModel>, cuts: Seq<int>) -> bool {
    &&& cuts.len() >= 2
    &&& cuts[0] == 0
    &&& cuts.last() == es.len()
    &&& forall|i: int, j: int| 0 <= i < j < cuts.len() ==> #[trigger] cuts[i] < #[trigger] cuts[j]
}

/// Entries that name the runs of a node under their first keys are
/// entries an internal node can hold.
proof fn lemma_place_done(es: Seq<EntryModel>, cuts: Seq<int>, ks: Seq<EntryModel>)
    requires
        entries_wf(es),
        cut_into(es, cuts),
        ks.len() == cuts.len() - 1,
        forall|i: int|
            0 <= i < ks.len() ==> (#[trigger] ks[i]).key == es[cuts[i]].key && ks[i].val.len() == 0,
    ensures
        kids_sound(ks),
        ks[0].key == es[0].key,
{
    let keys = keys_of(ks);
    assert forall|i: int| 1 <= i < keys.len() implies key_lt(keys[i - 1], #[trigger] keys[i]) by {
        assert(ks[i].key == es[cuts[i]].key);
        assert(ks[i - 1].key == es[cuts[i - 1]].key);
        assert(cuts[i - 1] < cuts[i]);
        assert(cuts[i] < cuts[cuts.len() - 1]);
        assert(cuts[0] <= cuts[i - 1]) by {
            if i - 1 > 0 {
                assert(cuts[0] < cuts[i - 1]);
            }
        }
        assert(key_lt(keys_of(es)[cuts[i - 1]], keys_of(es)[cuts[i]]));
    }
    lemma_adjacent_sorted(keys);
    assert forall|i: int| 0 <= i < ks.len() implies (#[trigger] ks[i]).key.len()
        <= BTREE_MAX_KEY_SIZE && ks[i].val.len() <= crate::node::BTREE_MAX_VAL_SIZE by {
        assert(ks[i].key == es[cuts[i]].key);
        assert(cuts[i] < cuts[cuts.len() - 1]);
        assert(cuts[0] <= cuts[i]) by {
            if i > 0 {
                assert(cuts[0] < cuts[i]);
            }
        }
        assert(es[cuts[i]].key.len() <= BTREE_MAX_KEY_SIZE);
    }
    assert(ks[0].key == es[cuts[0]].key);
}

/// Writes the runs of a node, each already encoded as a node that fits a
/// page, to pages of their own, and gives the entries that name them: for
/// each the page it was written to, under its first key.
#[verifier::rlimit(40)]
pub(crate) fn place_parts(
    pm: &mut PageManager,
    parts: &Vec<Sibling>,
    Ghost(m): Ghost<NodeModel>,
    Ghost(cuts): Ghost<Seq<int>>,
    Ghost(h): Ghost<nat>,
    Ghost(hi): Ghost<Option<Seq<u8>>>,
) -> (kids: Vec<Entry>)
    requires
        old(pm).wf(),
        entries_wf(m.entries),
        cut_into(m.entries, cuts),
        parts@.len() == cuts.len() - 1,
        forall|i: int|
            0 <= i < parts@.len() ==> sibling_holds(
                #[trigger] parts@[i],
                m.leaf,
                m.entries.subrange(cuts[i], cuts[i + 1]),
            ),
    ensures
        grows(*old(pm), *final(pm)),
        final(pm).pending() == old(pm).pending(),
        kids@.len() == parts@.len(),
        kids_sound(models(kids@)),
        models(kids@)[0].key == m.entries[0].key,
        forall|i: int| 0 <= i < kids@.len() ==> final(pm).live(#[trigger] models(kids@)[i].ptr),
        forall|i: int|
            0 <= i < kids@.len() ==> (#[trigger] models(kids@)[i]).key == m.entries[cuts[i]].key,
        node_wf(old(pm).pages(), m, h, hi) && node_live(*old(pm), m, h) ==> {
            &&& kids_wf(final(pm).pages(), models(kids@), h, hi)
            &&& placed_get(
                old(pm).pages(),
                final(pm).pages(),
                m,
                h,
                models(kids@),
                m.entries.len() as int,
            )
            &&& placed_pages(*old(pm), *final(pm), m, h, models(kids@), m.entries.len() as int)
        },
{
    let ghost start = *pm;
    let ghost es = m.entries;
    let ghost n = es.len() as int;
    let ghost sound = node_wf(start.pages(), m, h, hi) && node_live(start, m, h);
    let count = parts.len();
    let mut kids: Vec<Entry> = Vec::new();
    let mut j: usize = 0;
    proof {
        lemma_grows_refl(start);
        assert forall|p: u64| #[trigger] in_kids(pm.pages(), models(kids@), h, p) implies false by {
            lemma_no_kids(pm.pages(), models(kids@), h, p);
        }
    }
    while j < count
        invariant
            start.wf(),
            m.entries == es,
            n == es.len(),
            entries_wf(es),
            cut_into(es, cuts),
            count == parts@.len(),
            count == cuts.len() - 1,
            j <= count,
            sound == (node_wf(start.pages(), m, h, hi) && node_live(start, m, h)),
            forall|i: int|
                0 <= i < count ==> sibling_holds(
                    #[trigger] parts@[i],
                    m.leaf,
                    es.subrange(cuts[i], cuts[i + 1]),
                ),
            grows(start, *pm),
            pm.pending() == start.pending(),
            kids@.len() == j,
            forall|i: int|
                0 <= i < j ==> #[trigger] models(kids@)[i] == child_entry(
                    es[cuts[i]].key,
                    models(kids@)[i].ptr,
                ) && pm.live(models(kids@)[i].ptr),
            sound && j > 0 ==> kids_wf(pm.pages(), models(kids@), h, bound_at(es, cuts[j as int], hi)),
            sound && j > 0 ==> placed_get(
                start.pages(),
                pm.pages(),
                m,
                h,
                models(kids@),
                cuts[j as int],
            ),
            sound ==> placed_pages(start, *pm, m, h, models(kids@), cuts[j as int]),
        decreases count - j,
    {
        let ghost mid = *pm;
        let ghost ks = models(kids@);
        let ghost c = cuts[j as int];
        let ghost c2 = cuts[j + 1];
        assert(0 <= c < c2 <= n) by {
            assert(cuts[j as int] < cuts[j + 1]);
            if j > 0 {
                assert(cuts[0] < cuts[j as int]);
            }
            if j + 1 < cuts.len() - 1 {
                assert(cuts[j + 1] < cuts[cuts.len() - 1]);
            }
        }
        assert(sibling_holds(parts@[j as int], m.leaf, es.subrange(c, c2)));
        let page = parts[j].node.to_page();
        let id = pm.allocate(page.as_slice());
        let key = slice_to_vec(parts[j].key.as_slice());
        kids.push(Entry { ptr: id, key, val: Vec::new() });
        proof {
            let kid = child_entry(es[c].key, id);
            assert(es.subrange(c, c2)[0] == es[c]);
            assert(models(kids@) =~= ks.push(kid));
            lemma_allocated(mid, *pm, id, page@);
            lemma_grows_trans(start, mid, *pm);
            assert forall|i: int| 0 <= i < j + 1 implies #[trigger] models(kids@)[i]
                == child_entry(es[cuts[i]].key, models(kids@)[i].ptr) && pm.live(
                models(kids@)[i].ptr,
            ) by {
                if i < j {
                    assert(models(kids@)[i] == ks[i]);
                    assert(mid.live(ks[i].ptr));
                }
            }
            if sound {
                assert(page_ok(pm.pages(), id));
                lemma_place_step(start, mid, *pm, m, h, hi, ks, c, c2, id);
            }
        }
        j += 1;
    }
    proof {
        lemma_place_done(es, cuts, models(kids@));
        assert(es.take(n) =~= es);
    }
    kids
}

/// Any store has grown from itself.
pub proof fn lemma_grows_refl(a: PageManager)
    requires
        a.wf(),
    ensures
        grows(a, a),
{
}

/// Writes a node to the store, split into as many nodes as it takes for
/// each to fit a page, and gives the entries that name them: for each the
/// page it was written to, under its first key.
pub(crate) fn place(
    pm: &mut PageManager,
    node: BNode,
    Ghost(h): Ghost<nat>,
    Ghost(hi): Ghost<Option<Seq<u8>>>,
) -> (kids: Vec<Entry>)
    requires
        old(pm).wf(),
        node.valid(),
        node.model().entries.len() > 0,
        encoded_size(node.model().entries) <= SPLIT_MAX,
    ensures
        grows(*old(pm), *final(pm)),
        final(pm).pending() == old(pm).pending(),
        1 <= kids@.len() <= 3,
        kids@.len() == 1 <==> encoded_size(node.model().entries) <= BTREE_PAGE_SIZE,
        kids_sound(models(kids@)),
        models(kids@)[0].key == node.model().entries[0].key,
        forall|i: int| 0 <= i < kids@.len() ==> final(pm).live(#[trigger] models(kids@)[i].ptr),
        node_wf(old(pm).pages(), node.model(), h, hi) && node_live(*old(pm), node.model(), h) ==> {
            &&& kids_wf(final(pm).pages(), models(kids@), h, hi)
            &&& placed_get(
                old(pm).pages(),
                final(pm).pages(),
                node.model(),
                h,
                models(kids@),
                node.model().entries.len() as int,
            )
            &&& placed_pages(
                *old(pm),
                *final(pm),
                node.model(),
                h,
                models(kids@),
                node.model().entries.len() as int,
            )
        },
{
    let ghost m = node.model();
    let ghost es = m.entries;
    let ghost ps = split_parts(es);
    let ghost cuts = Seq::new((ps.len() + 1) as nat, |i: int| cut_at(ps, i));
    proof {
        lemma_split_cuts(es);
        crate::ops::lemma_split_parts(es);
    }
    let parts = split_if_oversized(node);
    proof {
        assert forall|i: int| 0 <= i < parts@.len() implies sibling_holds(
            #[trigger] parts@[i],
            m.leaf,
            es.subrange(cuts[i], cuts[i + 1]),
        ) by {
            assert(ps[i] == es.subrange(cut_at(ps, i), cut_at(ps, i + 1)));
        }
        assert forall|i: int, j: int| 0 <= i < j < cuts.len() implies #[trigger] cuts[i]
            < #[trigger] cuts[j] by {
            assert(cut_at(ps, i) < cut_at(ps, j));
        }
    }
    place_parts(pm, &parts, Ghost(m), Ghost(cuts), Ghost(h), Ghost(hi))
}

} // verus!
