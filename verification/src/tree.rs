//! The tree: lookups, inserts and deletes over a store of pages.
//!
//! An update never writes to a page the tree uses. It builds the new path
//! from the leaf up in pages of its own, hands the pages of the old path to
//! the store to be freed, and publishes the new root with one commit.

use crate::error::Error;
use crate::graft::{lemma_kids_sorted, regrown};
use crate::height::{lemma_height_bound, lemma_height_unique};
use crate::keys::{compare_keys, key_le, key_lt, lemma_le_lt, lemma_lt_le, KeyOrder};
use crate::node::{
    encoded_size, keys_of, lemma_well_formed_fits, models, BNode, Entry, EntryModel, NodeModel,
    NodeType, BTREE_MAX_KEY_SIZE, BTREE_MAX_VAL_SIZE, BTREE_PAGE_SIZE,
};
use crate::ops::{child_entry, insert_child_pointer, insert_leaf, lemma_size_insert, lemma_upsert, lemma_upsert_ends, lemma_update_wf, lookup_child, min_key, replace_child_pointer, upsert, Lookup};
use crate::pager::PageManager;
use crate::prune::{delete_rec};
use crate::route::{lemma_child_index_bounds, lemma_sorted_le};
use crate::shrink::{
    lemma_candidate_collapse, lemma_emptied, lemma_regrow, lemma_replaced_run,
};
use crate::shape::{below, node_at, subtree_get, subtree_wf, upper};
use crate::store::{
    all_live, grows, kids_sound, lemma_at_node, lemma_descend, lemma_grows_live,
    lemma_grows_refl, lemma_grows_trans, load, place,
};
use crate::update::{
    candidate, held, lemma_candidate_placed, lemma_candidate_single, lemma_committed,
    lemma_finish, lemma_freed, lemma_leaf_rebuilt, lemma_min_mono,
    lemma_root_over, lowered, replaced, updated,
};
use vstd::prelude::*;
use vstd::slice::slice_to_vec;

verus! {

/// The subtree at `id` is well formed, its pages are live, and `key` is
/// under its bound: what an update of the subtree can rely on.
pub open spec fn ready(pm: PageManager, id: u64, h: nat, hi: Option<Seq<u8>>, key: Seq<u8>) -> bool {
    subtree_wf(pm.pages(), id, h, hi) && all_live(pm, id, h) && below(key, hi)
}

/// Rebuilds an internal node with the child at `c` replaced by the
/// children `kids`, the first of them under the separator `sep`. Fails if
/// the separators of `kids` do not fit between their neighbours.
fn regraft(node: &BNode, c: u16, sep: &[u8], kids: &Vec<Entry>) -> (r: Result<BNode, Error>)
    requires
        node.valid(),
        !node.model().leaf,
        node@.len() == BTREE_PAGE_SIZE,
        c < node.model().entries.len(),
        1 <= kids@.len() <= 3,
        kids_sound(models(kids@)),
        sep@.len() <= BTREE_MAX_KEY_SIZE,
        c > 0 ==> sep@ == node.model().entries[c as int].key,
        c == 0 ==> key_le(sep@, node.model().entries[0].key),
    ensures
        r matches Ok(new) ==> {
            &&& new.valid()
            &&& new.model() == (NodeModel {
                leaf: false,
                entries: regrown(node.model().entries, c as int, c + 1, lowered(models(kids@), sep@)),
            })
            &&& encoded_size(new.model().entries) <= BTREE_PAGE_SIZE + 1014 * kids@.len()
        },
        r matches Err(e) ==> e == Error::CorruptPage,
        fits_between(node.model().entries, c as int, sep@, models(kids@)) ==> r is Ok,
{
    let ghost es = node.model().entries;
    let ghost ks = models(kids@);
    let ghost low = lowered(ks, sep@);
    let n = node.key_count();
    proof {
        lemma_well_formed_fits(node@);
        let keys = keys_of(es);
        if c > 0 {
            assert(key_lt(keys[c - 1], keys[c as int]));
        }
        if c + 1 < n {
            assert(key_lt(keys[c as int], keys[c + 1]));
            lemma_le_lt(sep@, es[c as int].key, es[c + 1].key);
        }
        lemma_update_wf(es, c as int, child_entry(sep@, ks[0].ptr));
        assert(es.update(c as int, low[0]) =~= regrown(es, c as int, c + 1, low.take(1)));
    }
    let mut new = replace_child_pointer(node, c, sep, kids[0].ptr);
    let count = kids.len();
    let mut t: usize = 1;
    while t < count
        invariant
            1 <= t <= count,
            count == kids@.len(),
            count <= 3,
            ks == models(kids@),
            kids_sound(ks),
            low == lowered(ks, sep@),
            es == node.model().entries,
            n as int == es.len(),
            c < n,
            new.valid(),
            new.model() == (NodeModel {
                leaf: false,
                entries: regrown(es, c as int, c + 1, low.take(t as int)),
            }),
            new@.len() == encoded_size(new.model().entries),
            encoded_size(new.model().entries) <= BTREE_PAGE_SIZE + 1014 * t,
            fits_between(es, c as int, sep@, ks) ==> forall|i: int|
                1 <= i < ks.len() ==> key_lt(sep@, #[trigger] ks[i].key),
        decreases count - t,
    {
        let ghost cur = new.model().entries;
        let at: u16 = c + t as u16;
        proof {
            lemma_well_formed_fits(new@);
            assert(cur[at - 1] == low[t - 1]);
            if (at as int) < cur.len() {
                assert(cur[at as int] == es[c + 1]);
            }
            assert(low[t as int] == ks[t as int]);
        }
        let before_ok = match compare_keys(new.key_at(at - 1), kids[t].key.as_slice()) {
            KeyOrder::Before => true,
            _ => false,
        };
        let after_ok = if at < new.key_count() {
            match compare_keys(kids[t].key.as_slice(), new.key_at(at)) {
                KeyOrder::Before => true,
                _ => false,
            }
        } else {
            true
        };
        if !before_ok || !after_ok {
            proof {
                if fits_between(es, c as int, sep@, ks) {
                    if t > 1 {
                        assert(key_lt(keys_of(ks)[t - 1], keys_of(ks)[t as int]));
                    }
                    assert(false);
                }
            }
            return Err(Error::CorruptPage);
        }
        proof {
            lemma_size_insert(cur, at as int, child_entry(ks[t as int].key, ks[t as int].ptr));
            assert(ks[t as int].val =~= Seq::<u8>::empty());
            assert(cur.insert(at as int, ks[t as int]) =~= regrown(
                es,
                c as int,
                c + 1,
                low.take(t + 1),
            ));
        }
        new = insert_child_pointer(&new, at, kids[t].key.as_slice(), kids[t].ptr);
        t += 1;
    }
    proof {
        assert(low.take(count as int) =~= low);
    }
    Ok(new)
}

/// The separators of the children `ks` that take the place of the child at
/// `c` fit between the separators around it.
pub open spec fn fits_between(es: Seq<EntryModel>, c: int, sep: Seq<u8>, ks: Seq<EntryModel>) -> bool {
    &&& forall|i: int| 1 <= i < ks.len() ==> key_lt(sep, #[trigger] ks[i].key)
    &&& c + 1 < es.len() ==> forall|i: int|
        1 <= i < ks.len() ==> key_lt(#[trigger] ks[i].key, es[c + 1].key)
}

/// Puts `key` with `val` into the subtree at `id`, without touching its
/// pages: builds the nodes that take its place in pages of their own and
/// gives the entries that name them. The page `id`, and every page of the
/// old path below it, is handed to the store to be freed.
fn insert_rec(
    pm: &mut PageManager,
    id: u64,
    depth: usize,
    key: &[u8],
    val: &[u8],
    Ghost(hi): Ghost<Option<Seq<u8>>>,
) -> (r: Result<Vec<Entry>, Error>)
    requires
        old(pm).wf(),
        key@.len() <= BTREE_MAX_KEY_SIZE,
        val@.len() <= BTREE_MAX_VAL_SIZE,
    ensures
        grows(*old(pm), *final(pm)),
        r matches Ok(kids) ==> 1 <= kids@.len() <= 3 && kids_sound(models(kids@)),
        ready(*old(pm), id, depth as nat, hi, key@) ==> r is Ok,
        ready(*old(pm), id, depth as nat, hi, key@) ==> (r matches Ok(kids) ==> replaced(
            *old(pm),
            *final(pm),
            id,
            depth as nat,
            hi,
            key@,
            Some(val@),
            models(kids@),
        ) && models(kids@)[0].key == min_key(key@, node_at(old(pm).pages(), id).entries[0].key)),
    decreases depth,
{
    let ghost start = *pm;
    let ghost h = depth as nat;
    let ghost sound = ready(start, id, h, hi, key@);
    proof {
        lemma_grows_refl(start);
        if sound {
            lemma_at_node(start, id, h, hi);
        }
    }
    let node = match load(pm, id) {
        Ok(n) => n,
        Err(e) => {
            return Err(e);
        },
    };
    let ghost es = node.model().entries;
    proof {
        lemma_well_formed_fits(node@);
    }
    if depth == 0 {
        match node.node_type() {
            NodeType::Internal => {
                return Err(Error::CorruptPage);
            },
            NodeType::Leaf => {},
        }
        let new = match insert_leaf(&node, key, val) {
            Ok(n) => n,
            Err(e) => {
                return Err(e);
            },
        };
        let ghost e = EntryModel { ptr: 0, key: key@, val: val@ };
        proof {
            lemma_upsert(es, e);
            if sound {
                lemma_upsert_ends(es, e);
            }
        }
        let kids = place(pm, new, Ghost(0nat), Ghost(hi));
        let ghost put = *pm;
        proof {
            lemma_grows_live(start, put, id);
        }
        match pm.free(id) {
            Ok(()) => {},
            Err(e) => {
                return Err(e);
            },
        }
        proof {
            lemma_freed(put, *pm, id);
            lemma_grows_trans(start, put, *pm);
            if sound {
                lemma_leaf_rebuilt(start, id, hi, key@, val@);
                lemma_finish(
                    start,
                    start,
                    put,
                    *pm,
                    id,
                    0,
                    hi,
                    key@,
                    Some(val@),
                    new.model(),
                    models(kids@),
                );
            }
        }
        return Ok(kids);
    }
    match node.node_type() {
        NodeType::Leaf => {
            return Err(Error::CorruptPage);
        },
        NodeType::Internal => {},
    }
    if node.key_count() == 0 {
        return Err(Error::CorruptPage);
    }
    let (c, child) = match lookup_child(&node, key) {
        Lookup::Child { index, page } => (index, page),
        _ => {
            return Err(Error::CorruptPage);
        },
    };
    let ghost hc = upper(es, c as int, hi);
    proof {
        lemma_child_index_bounds(keys_of(es), key@);
        if sound {
            lemma_descend(start, id, h, hi, key@);
        }
    }
    let below_kids = match insert_rec(pm, child, depth - 1, key, val, Ghost(hc)) {
        Ok(k) => k,
        Err(e) => {
            return Err(e);
        },
    };
    let ghost mid = *pm;
    let ghost ks = models(below_kids@);
    let sep: Vec<u8> = match compare_keys(key, node.key_at(c)) {
        KeyOrder::Before => slice_to_vec(key),
        _ => slice_to_vec(node.key_at(c)),
    };
    proof {
        assert(sep@ == min_key(key@, es[c as int].key));
        lemma_min_mono(key@, es[c as int].key, es[c as int].key);
        if c > 0 {
            crate::keys::lemma_not_lt(key@, es[c as int].key);
        }
        if sound {
            let first = node_at(start.pages(), child).entries[0].key;
            lemma_min_mono(key@, es[c as int].key, first);
            lemma_kids_sorted(mid.pages(), ks, (h - 1) as nat, hc);
            assert forall|i: int| 1 <= i < ks.len() implies key_lt(sep@, #[trigger] ks[i].key) by {
                assert(key_lt(keys_of(ks)[0], keys_of(ks)[i]));
                lemma_le_lt(sep@, ks[0].key, ks[i].key);
            }
            if c + 1 < es.len() {
                assert forall|i: int| 1 <= i < ks.len() implies key_lt(
                    #[trigger] ks[i].key,
                    es[c + 1].key,
                ) by {
                    lemma_sorted_le(keys_of(ks), i, ks.len() - 1);
                    lemma_le_lt(ks[i].key, ks.last().key, es[c + 1].key);
                }
            }
            assert(fits_between(es, c as int, sep@, ks));
        }
    }
    let new = match regraft(&node, c, sep.as_slice(), &below_kids) {
        Ok(n) => n,
        Err(e) => {
            return Err(e);
        },
    };
    proof {
        if sound {
            lemma_replaced_run(start, mid, id, h, hi, key@, Some(val@), ks);
            lemma_regrow(start, mid, id, h, hi, key@, Some(val@), c as int, c + 1, ks, sep@);
        }
    }
    let kids = place(pm, new, Ghost(h), Ghost(hi));
    let ghost put = *pm;
    proof {
        lemma_grows_trans(start, mid, put);
        lemma_grows_live(start, put, id);
    }
    match pm.free(id) {
        Ok(()) => {},
        Err(e) => {
            return Err(e);
        },
    }
    proof {
        lemma_freed(put, *pm, id);
        lemma_grows_trans(start, put, *pm);
        if sound {
            lemma_finish(
                start,
                mid,
                put,
                *pm,
                id,
                h,
                hi,
                key@,
                Some(val@),
                new.model(),
                models(kids@),
            );
            let out = new.model().entries;
            if c > 0 {
                assert(out[0] == es[0]);
                assert(key_lt(keys_of(es)[0], keys_of(es)[c as int]));
                lemma_lt_le(es[0].key, es[c as int].key, key@);
                crate::keys::lemma_lt_asymmetric(es[0].key, key@);
            } else {
                assert(out[0] == lowered(ks, sep@)[0]);
            }
        }
    }
    Ok(kids)
}

/// Up to three entries without values fit a page with room to spare.
proof fn lemma_top_size(ks: Seq<EntryModel>)
    requires
        kids_sound(ks),
        ks.len() <= 3,
    ensures
        encoded_size(ks) <= BTREE_PAGE_SIZE,
        crate::node::fits(ks),
{
    reveal_with_fuel(crate::node::records_size, 4);
    if ks.len() > 0 {
        assert(ks[0].key.len() <= BTREE_MAX_KEY_SIZE && ks[0].val.len() == 0);
    }
    if ks.len() > 1 {
        assert(ks[1].key.len() <= BTREE_MAX_KEY_SIZE && ks[1].val.len() == 0);
        assert(ks.drop_last()[0] == ks[0]);
    }
    if ks.len() > 2 {
        assert(ks[2].key.len() <= BTREE_MAX_KEY_SIZE && ks[2].val.len() == 0);
        assert(ks.drop_last()[1] == ks[1]);
        assert(ks.drop_last().drop_last()[0] == ks[0]);
    }
}

/// Makes a root for the children `kids` that take the place of the old
/// root: the single child itself, or a new node over two or three. Gives
/// the page of the root and its height.
fn raise(
    pm: &mut PageManager,
    kids: Vec<Entry>,
    height: usize,
    Ghost(then): Ghost<PageManager>,
    Ghost(id): Ghost<u64>,
    Ghost(key): Ghost<Seq<u8>>,
    Ghost(val): Ghost<Option<Seq<u8>>>,
) -> (r: Result<(u64, usize), Error>)
    requires
        old(pm).wf(),
        1 <= kids@.len() <= 3,
        kids_sound(models(kids@)),
    ensures
        grows(*old(pm), *final(pm)),
        final(pm).pending() == old(pm).pending(),
        r matches Ok(x) ==> x.1 == height || x.1 == height + 1,
        id != 0 && height < usize::MAX && replaced(
            then,
            *old(pm),
            id,
            height as nat,
            None,
            key,
            val,
            models(kids@),
        ) ==> r is Ok,
        id != 0 && height < usize::MAX && replaced(
            then,
            *old(pm),
            id,
            height as nat,
            None,
            key,
            val,
            models(kids@),
        ) ==> (r matches Ok(x) ==> candidate(
            then,
            id,
            height as nat,
            *final(pm),
            x.0,
            x.1 as nat,
            key,
            val,
        )),
{
    let ghost mid = *pm;
    let ghost h = height as nat;
    let ghost ks = models(kids@);
    let ghost sound = id != 0 && height < usize::MAX && replaced(then, mid, id, h, None, key, val, ks);
    proof {
        lemma_grows_refl(mid);
    }
    if kids.len() == 1 {
        proof {
            if sound {
                lemma_candidate_single(then, mid, id, h, key, val, ks);
            }
        }
        return Ok((kids[0].ptr, height));
    }
    if height == usize::MAX {
        return Err(Error::CorruptPage);
    }
    proof {
        lemma_top_size(ks);
    }
    let node = match BNode::build(NodeType::Internal, &kids) {
        Some(n) => n,
        None => {
            return Err(Error::CorruptPage);
        },
    };
    let top = place(pm, node, Ghost((h + 1) as nat), Ghost(None));
    proof {
        if sound {
            lemma_root_over(then, mid, id, h, key, val, ks);
            lemma_candidate_placed(
                then,
                id,
                h,
                mid,
                *pm,
                node.model(),
                (h + 1) as nat,
                key,
                val,
                models(top@),
            );
        }
    }
    Ok((top[0].ptr, height + 1))
}

/// A copy-on-write B+tree over a page store.
#[derive(Debug)]
pub struct BTree {
    pager: PageManager,
    root: u64,
    height: usize,
}

/// Whether a looked-up value is the one the tree holds.
pub open spec fn value_is(got: Option<Vec<u8>>, held: Option<Seq<u8>>) -> bool {
    match got {
        Some(v) => held == Some(v@),
        None => held is None,
    }
}

/// The value a map holds for `key`, if any.
pub open spec fn bound_in(m: Map<Seq<u8>, Seq<u8>>, key: Seq<u8>) -> Option<Seq<u8>> {
    if m.dom().contains(key) {
        Some(m[key])
    } else {
        None
    }
}

impl View for BTree {
    type V = Map<Seq<u8>, Seq<u8>>;

    /// The keys the tree holds, each with its value.
    open spec fn view(&self) -> Map<Seq<u8>, Seq<u8>> {
        Map::new(|k: Seq<u8>| self.value_of(k) is Some, |k: Seq<u8>| self.value_of(k)->0)
    }
}

impl BTree {
    /// The store the tree lives in.
    pub closed spec fn store(&self) -> PageManager {
        self.pager
    }

    /// The page of the root node, or 0 for an empty tree.
    pub closed spec fn root_page(&self) -> u64 {
        self.root
    }

    /// The number of steps from the root to any leaf.
    pub closed spec fn levels(&self) -> nat {
        self.height as nat
    }

    /// What holds of every tree, whatever its pages hold: the store is
    /// sound, no update is under way, and the store's committed root is
    /// the tree's root.
    pub open spec fn inv(&self) -> bool {
        &&& self.store().wf()
        &&& self.store().pending().len() == 0
        &&& self.store().root() == self.root_page()
        &&& self.root_page() == 0 ==> self.levels() == 0
    }

    /// The pages hold a tree: the meta page is up to date, every leaf is
    /// `levels` steps below the root, every node holds increasing keys
    /// within its range and fits a page, no page is used twice, and every
    /// page in use is live.
    pub open spec fn wf(&self) -> bool {
        &&& self.inv()
        &&& self.store().synced()
        &&& self.root_page() != 0 ==> subtree_wf(
            self.store().pages(),
            self.root_page(),
            self.levels(),
            None,
        ) && all_live(self.store(), self.root_page(), self.levels())
    }

    /// The value the tree holds for `key`, if any.
    pub open spec fn value_of(&self, key: Seq<u8>) -> Option<Seq<u8>> {
        if self.root_page() == 0 {
            None
        } else {
            subtree_get(self.store().pages(), self.root_page(), self.levels(), key)
        }
    }

    /// An empty tree over a store of its own.
    pub fn new() -> (tree: BTree)
        ensures
            tree.wf(),
            tree@ == Map::<Seq<u8>, Seq<u8>>::empty(),
            tree.root_page() == 0,
            tree.levels() == 0,
    {
        let tree = BTree { pager: PageManager::new(), root: 0, height: 0 };
        assert(tree@ =~= Map::<Seq<u8>, Seq<u8>>::empty());
        tree
    }

    /// The store `pm` holds a tree of height `h` under its committed root.
    pub open spec fn holds_tree(pm: PageManager, h: nat) -> bool {
        &&& pm.wf()
        &&& pm.synced()
        &&& pm.pending().len() == 0
        &&& pm.root() == 0 ==> h == 0
        &&& pm.root() != 0 ==> subtree_wf(pm.pages(), pm.root(), h, None) && all_live(
            pm,
            pm.root(),
            h,
        )
    }

    /// The tree under the committed root of a store. The height is found
    /// by walking down to a leaf; on pages that hold a tree the walk ends
    /// and the tree is well formed.
    pub fn open(pager: PageManager) -> (r: Result<BTree, Error>)
        requires
            pager.wf(),
            pager.pending().len() == 0,
        ensures
            r matches Ok(tree) ==> tree.inv() && tree.store() == pager,
            r matches Err(e) ==> e == Error::CorruptPage || e == Error::InvalidPageId,
            forall|h: nat| #[trigger]
                BTree::holds_tree(pager, h) ==> (r matches Ok(tree) && tree.wf() && tree.levels()
                    == h),
    {
        let root = pager.current_root();
        if root == 0 {
            return Ok(BTree { pager, root, height: 0 });
        }
        let ghost pages = pager.pages();
        let ghost any = exists|h: nat| BTree::holds_tree(pager, h);
        let ghost top = choose|h: nat| BTree::holds_tree(pager, h);
        let ghost mut hi: Option<Seq<u8>> = None;
        let fuel = pager.extent();
        let mut id = root;
        let mut depth: usize = 0;
        proof {
            if any {
                lemma_height_bound(pages, root, top, None);
            }
        }
        while depth < fuel
            invariant
                pager.wf(),
                pager.pending().len() == 0,
                pages == pager.pages(),
                fuel == pages.len(),
                depth <= fuel,
                root == pager.root(),
                root != 0,
                any == (exists|h: nat| BTree::holds_tree(pager, h)),
                any ==> BTree::holds_tree(pager, top) && top < fuel && depth <= top && subtree_wf(
                    pages,
                    id,
                    (top - depth) as nat,
                    hi,
                ) && all_live(pager, id, (top - depth) as nat),
            decreases fuel - depth,
        {
            proof {
                if any {
                    lemma_at_node(pager, id, (top - depth) as nat, hi);
                    if top > depth {
                        lemma_descend(pager, id, (top - depth) as nat, hi, Seq::empty());
                    }
                }
            }
            let node = match load(&pager, id) {
                Ok(n) => n,
                Err(e) => {
                    return Err(e);
                },
            };
            match node.node_type() {
                NodeType::Leaf => {
                    proof {
                        assert forall|h: nat| #[trigger]
                            BTree::holds_tree(pager, h) implies h == depth by {
                            assert(any);
                            lemma_height_unique(pages, root, h, None, top, None);
                        }
                    }
                    return Ok(BTree { pager, root, height: depth });
                },
                NodeType::Internal => {},
            }
            if node.key_count() == 0 {
                return Err(Error::CorruptPage);
            }
            let ghost es = node.model().entries;
            proof {
                if any {
                    assert(crate::shape::kid_wf(
                        pages,
                        crate::shape::slot(es, 0),
                        (top - depth - 1) as nat,
                        upper(es, 0, hi),
                    ));
                    assert forall|p: u64| #[trigger]
                        crate::shape::in_subtree(
                            pages,
                            es[0].ptr,
                            (top - depth - 1) as nat,
                            p,
                        ) implies pager.live(p) by {
                        assert(crate::shape::in_subtree(
                            pages,
                            crate::shape::slot(es, 0).ptr,
                            (top - depth - 1) as nat,
                            p,
                        ));
                        assert(crate::shape::in_kids(pages, es, (top - depth - 1) as nat, p));
                        assert(crate::shape::in_subtree(pages, id, (top - depth) as nat, p));
                    }
                    hi = upper(es, 0, hi);
                }
            }
            id = node.child_pointer(0);
            depth += 1;
        }
        Err(Error::CorruptPage)
    }

    /// Gives up the tree for its store.
    pub fn into_pager(self) -> (pm: PageManager)
        ensures
            pm == self.store(),
    {
        self.pager
    }

    /// The page of the root node, or 0 for an empty tree.
    pub fn root(&self) -> (r: u64)
        ensures
            r == self.root_page(),
    {
        self.root
    }

    /// The number of steps from the root to any leaf; 0 for an empty tree
    /// and for a tree of one leaf.
    pub fn height(&self) -> (h: usize)
        ensures
            h == self.levels(),
    {
        self.height
    }

    /// The store the tree lives in.
    pub fn pager(&self) -> (pm: &PageManager)
        ensures
            *pm == self.store(),
    {
        &self.pager
    }

    /// Binds `key` to `val`, in place of the value the key had if it had
    /// one. Keys and values over the size limits are refused and leave the
    /// tree as it was. On pages that hold a tree nothing else fails.
    pub fn insert(&mut self, key: &[u8], val: &[u8]) -> (r: Result<(), Error>)
        requires
            old(self).inv(),
        ensures
            final(self).inv(),
            key@.len() > BTREE_MAX_KEY_SIZE ==> r == Err::<(), Error>(Error::KeyTooLarge),
            key@.len() <= BTREE_MAX_KEY_SIZE && val@.len() > BTREE_MAX_VAL_SIZE ==> r == Err::<
                (),
                Error,
            >(Error::ValueTooLarge),
            key@.len() > BTREE_MAX_KEY_SIZE || val@.len() > BTREE_MAX_VAL_SIZE ==> *final(self)
                == *old(self),
            r is Err ==> final(self).root_page() == old(self).root_page() && final(self).levels()
                == old(self).levels(),
            key@.len() <= BTREE_MAX_KEY_SIZE && val@.len() <= BTREE_MAX_VAL_SIZE && old(self).wf()
                ==> {
                &&& r is Ok
                &&& final(self).wf()
                &&& final(self)@ == old(self)@.insert(key@, val@)
                &&& old(self).levels() <= final(self).levels() <= old(self).levels() + 1
            },
    {
        if key.len() > BTREE_MAX_KEY_SIZE {
            return Err(Error::KeyTooLarge);
        }
        if val.len() > BTREE_MAX_VAL_SIZE {
            return Err(Error::ValueTooLarge);
        }
        let ghost before = *self;
        let ghost start = self.pager;
        let ghost sound = before.wf();
        let ghost h = self.height as nat;
        let ghost want = Some(val@);
        let extent = self.pager.extent();
        proof {
            if sound && self.root != 0 {
                lemma_height_bound(start.pages(), self.root, h, None);
            }
        }
        let root: u64;
        let height: usize;
        if self.root == 0 {
            let mut es: Vec<Entry> = Vec::new();
            es.push(Entry { ptr: 0, key: slice_to_vec(key), val: slice_to_vec(val) });
            let ghost e = EntryModel { ptr: 0, key: key@, val: val@ };
            proof {
                let none = Seq::<EntryModel>::empty();
                assert(crate::node::entries_wf(none)) by {
                    assert(crate::keys::strictly_sorted(keys_of(none)));
                }
                lemma_upsert(none, e);
                assert(keys_of(none).len() == 0);
                assert(models(es@) =~= upsert(none, e));
            }
            let node = match BNode::build(NodeType::Leaf, &es) {
                Some(n) => n,
                None => {
                    return Err(Error::CorruptPage);
                },
            };
            let kids = place(&mut self.pager, node, Ghost(0nat), Ghost(None));
            proof {
                let m = node.model();
                assert(m.entries[0] == e);
                assert forall|k: Seq<u8>| #[trigger]
                    crate::shape::node_get(start.pages(), m, 0, k) == updated(
                        key@,
                        want,
                        k,
                        held(start, 0, h, k),
                    ) by {
                    crate::ops::lemma_upsert_get(Seq::<EntryModel>::empty(), e, k);
                }
                lemma_candidate_placed(
                    start,
                    0,
                    h,
                    start,
                    self.pager,
                    m,
                    0,
                    key@,
                    want,
                    models(kids@),
                );
            }
            root = kids[0].ptr;
            height = 0;
        } else {
            let kids = match insert_rec(
                &mut self.pager,
                self.root,
                self.height,
                key,
                val,
                Ghost(None),
            ) {
                Ok(k) => k,
                Err(e) => {
                    self.pager.abandon();
                    return Err(e);
                },
            };
            let ghost mid = self.pager;
            match raise(
                &mut self.pager,
                kids,
                self.height,
                Ghost(start),
                Ghost(before.root),
                Ghost(key@),
                Ghost(want),
            ) {
                Ok(x) => {
                    root = x.0;
                    height = x.1;
                },
                Err(e) => {
                    self.pager.abandon();
                    return Err(e);
                },
            }
            proof {
                lemma_grows_trans(start, mid, self.pager);
            }
        }
        let ghost put = self.pager;
        proof {
            assert(grows(start, put));
            if sound {
                assert(candidate(start, before.root, h, put, root, height as nat, key@, want));
                lemma_at_node(put, root, height as nat, None);
            }
        }
        if root == 0 {
            self.pager.abandon();
            return Err(Error::CorruptPage);
        }
        match self.pager.commit(root) {
            Ok(()) => {
                self.root = root;
                self.height = height;
                proof {
                    if sound {
                        lemma_committed(put, self.pager, root, height as nat);
                        assert forall|k: Seq<u8>| #[trigger]
                            self.value_of(k) == updated(key@, want, k, before.value_of(k)) by {
                            assert(subtree_get(put.pages(), root, height as nat, k) == updated(
                                key@,
                                want,
                                k,
                                held(start, before.root, h, k),
                            ));
                        }
                        assert(self@ =~= before@.insert(key@, val@));
                    }
                }
                Ok(())
            },
            Err(e) => {
                self.pager.abandon();
                Err(e)
            },
        }
    }

    /// Takes `key` out of the tree and says whether it was there. A key that
    /// is not there leaves the tree as it was. On pages that hold a tree
    /// this never fails.
    pub fn del(&mut self, key: &[u8]) -> (r: Result<bool, Error>)
        requires
            old(self).inv(),
        ensures
            final(self).inv(),
            r matches Ok(found) ==> !found ==> *final(self) == *old(self),
            r is Err ==> final(self).root_page() == old(self).root_page() && final(self).levels()
                == old(self).levels(),
            old(self).wf() ==> {
                &&& r is Ok
                &&& r matches Ok(found) ==> found == old(self)@.dom().contains(key@)
                &&& final(self).wf()
                &&& final(self)@ == old(self)@.remove(key@)
                &&& final(self).levels() <= old(self).levels() + 1
            },
    {
        let ghost before = *self;
        let ghost start = self.pager;
        let ghost sound = before.wf();
        let ghost h = self.height as nat;
        let ghost id = self.root;
        let extent = self.pager.extent();
        proof {
            if sound && self.root != 0 {
                lemma_height_bound(start.pages(), self.root, h, None);
            }
        }
        if self.root == 0 {
            proof {
                assert(before@ =~= before@.remove(key@));
            }
            return Ok(false);
        }
        proof {
            if sound {
                lemma_at_node(start, id, h, None);
            }
        }
        let up = match delete_rec(&mut self.pager, self.root, self.height, key, Ghost(None)) {
            Ok(Some(u)) => u,
            Ok(None) => {
                proof {
                    if sound {
                        assert(before.value_of(key@) is None);
                        assert(before@ =~= before@.remove(key@));
                    }
                }
                return Ok(false);
            },
            Err(e) => {
                self.pager.abandon();
                return Err(e);
            },
        };
        let ghost mid = self.pager;
        let ghost upm = up.model();
        let count = up.key_count();
        let root: u64;
        let height: usize;
        proof {
            lemma_grows_live(start, mid, id);
            if sound {
                assert(mid.live(id)) by {
                    if mid.pending().contains(id) {
                    }
                }
            }
        }
        let collapse = match up.node_type() {
            NodeType::Internal => count == 1 && self.height > 0,
            NodeType::Leaf => false,
        };
        if count == 0 || collapse {
            match self.pager.free(self.root) {
                Ok(()) => {},
                Err(e) => {
                    self.pager.abandon();
                    return Err(e);
                },
            }
            if count == 0 {
                root = 0;
                height = 0;
            } else {
                proof {
                    if sound {
                        lemma_candidate_collapse(start, mid, self.pager, id, h, key@, upm);
                    }
                }
                root = up.child_pointer(0);
                height = self.height - 1;
            }
        } else {
            let kids = place(&mut self.pager, up, Ghost(h), Ghost(None));
            let ghost put = self.pager;
            proof {
                lemma_grows_live(mid, put, id);
            }
            match self.pager.free(self.root) {
                Ok(()) => {},
                Err(e) => {
                    self.pager.abandon();
                    return Err(e);
                },
            }
            let ghost freed = self.pager;
            proof {
                lemma_freed(put, freed, id);
                if sound {
                    lemma_finish(start, mid, put, freed, id, h, None, key@, None, upm, models(kids@));
                }
            }
            match raise(
                &mut self.pager,
                kids,
                self.height,
                Ghost(start),
                Ghost(id),
                Ghost(key@),
                Ghost(None),
            ) {
                Ok(x) => {
                    root = x.0;
                    height = x.1;
                },
                Err(e) => {
                    self.pager.abandon();
                    return Err(e);
                },
            }
        }
        let ghost put = self.pager;
        proof {
            if sound && root != 0 {
                assert(candidate(start, id, h, put, root, height as nat, key@, None));
                lemma_at_node(put, root, height as nat, None);
            }
        }
        if root == 0 && height != 0 {
            self.pager.abandon();
            return Err(Error::CorruptPage);
        }
        match self.pager.commit(root) {
            Ok(()) => {
                self.root = root;
                self.height = height;
                proof {
                    if sound {
                        if root != 0 {
                            lemma_committed(put, self.pager, root, height as nat);
                        }
                        assert forall|k: Seq<u8>| #[trigger]
                            self.value_of(k) == updated(key@, None, k, before.value_of(k)) by {
                            if root != 0 {
                                assert(subtree_get(put.pages(), root, height as nat, k) == updated(
                                    key@,
                                    None,
                                    k,
                                    held(start, id, h, k),
                                ));
                            } else {
                                lemma_emptied(start, mid, id, h, key@, upm, k);
                            }
                        }
                        assert(self@ =~= before@.remove(key@));
                    }
                }
                Ok(true)
            },
            Err(e) => {
                self.pager.abandon();
                Err(e)
            },
        }
    }

    /// The value stored under `key`, if there is one. The tree is not
    /// changed. On pages that hold a tree this never fails.
    pub fn get(&self, key: &[u8]) -> (r: Result<Option<Vec<u8>>, Error>)
        requires
            self.inv(),
        ensures
            self.wf() ==> r is Ok,
            self.wf() ==> (r matches Ok(v) && value_is(v, bound_in(self@, key@))),
    {
        assert(bound_in(self@, key@) == self.value_of(key@));
        if self.root == 0 {
            return Ok(None);
        }
        let ghost pages = self.pager.pages();
        let ghost mut hi: Option<Seq<u8>> = None;
        let mut id = self.root;
        let mut depth = self.height;
        while depth > 0
            invariant
                self.inv(),
                pages == self.store().pages(),
                self.root_page() != 0,
                self.wf() ==> subtree_wf(pages, id, depth as nat, hi) && all_live(
                    self.store(),
                    id,
                    depth as nat,
                ) && subtree_get(pages, id, depth as nat, key@) == self.value_of(key@),
            decreases depth,
        {
            proof {
                if self.wf() {
                    lemma_at_node(self.store(), id, depth as nat, hi);
                    lemma_descend(self.store(), id, depth as nat, hi, key@);
                }
            }
            let node = match load(&self.pager, id) {
                Ok(n) => n,
                Err(e) => {
                    return Err(e);
                },
            };
            match node.node_type() {
                NodeType::Leaf => {
                    return Err(Error::CorruptPage);
                },
                NodeType::Internal => {},
            }
            if node.key_count() == 0 {
                return Err(Error::CorruptPage);
            }
            match lookup_child(&node, key) {
                Lookup::Child { index, page } => {
                    proof {
                        if self.wf() {
                            hi = upper(node_at(pages, id).entries, index as int, hi);
                        }
                    }
                    id = page;
                },
                _ => {
                    return Err(Error::CorruptPage);
                },
            }
            depth -= 1;
        }
        proof {
            if self.wf() {
                lemma_at_node(self.store(), id, 0, hi);
            }
        }
        let node = match load(&self.pager, id) {
            Ok(n) => n,
            Err(e) => {
                return Err(e);
            },
        };
        match node.node_type() {
            NodeType::Internal => {
                return Err(Error::CorruptPage);
            },
            NodeType::Leaf => {},
        }
        match lookup_child(&node, key) {
            Lookup::Value(v) => Ok(Some(v)),
            Lookup::Absent => Ok(None),
            _ => Err(Error::CorruptPage),
        }
    }
}

} // verus!
