//! What holds of the tree across operations, stated over the map a tree
//! stands for and over the shape of its pages.
//!
//! `BTree::new` gives a tree whose map is empty; `insert` makes the map
//! `old.insert(key, val)`, `del` makes it `old.remove(key)` and reports
//! whether the key was in it, and `get` gives `bound_in(map, key)`. The
//! laws below say what follows for runs of operations.

use crate::keys::strictly_sorted;
use crate::node::{keys_of, BTREE_PAGE_SIZE};
use crate::pager::{chain, describes, lemma_chain_unique, meta_of, PageManager, META_PAGE};
use crate::shape::{kid_wf, node_at, slot, subtree_wf, upper};
use crate::tree::{bound_in, BTree};
use vstd::prelude::*;

verus! {

/// The map after the inserts `ops`, in order, into `m`.
pub open spec fn after_inserts(
    m: Map<Seq<u8>, Seq<u8>>,
    ops: Seq<(Seq<u8>, Seq<u8>)>,
) -> Map<Seq<u8>, Seq<u8>>
    decreases ops.len(),
{
    if ops.len() == 0 {
        m
    } else {
        after_inserts(m, ops.drop_last()).insert(ops.last().0, ops.last().1)
    }
}

/// The value of the last insert of `key` among `ops`, if there is one.
pub open spec fn last_insert(ops: Seq<(Seq<u8>, Seq<u8>)>, key: Seq<u8>) -> Option<Seq<u8>>
    decreases ops.len(),
{
    if ops.len() == 0 {
        None
    } else if ops.last().0 == key {
        Some(ops.last().1)
    } else {
        last_insert(ops.drop_last(), key)
    }
}

/// After any run of inserts into an empty tree, a lookup gives for every
/// key the value it was last inserted with, and nothing for a key that
/// was never inserted.
pub proof fn law_get_after_inserts(ops: Seq<(Seq<u8>, Seq<u8>)>, key: Seq<u8>)
    ensures
        bound_in(after_inserts(Map::empty(), ops), key) == last_insert(ops, key),
    decreases ops.len(),
{
    if ops.len() > 0 {
        law_get_after_inserts(ops.drop_last(), key);
    }
}

/// A key inserted and then deleted is absent, and every other key has the
/// value it had before the two.
pub proof fn law_insert_then_delete(
    m: Map<Seq<u8>, Seq<u8>>,
    key: Seq<u8>,
    val: Seq<u8>,
    other: Seq<u8>,
)
    ensures
        bound_in(m.insert(key, val).remove(key), key) is None,
        other != key ==> bound_in(m.insert(key, val).remove(key), other) == bound_in(m, other),
{
}

/// Deleting a key that is absent changes the value of no key.
pub proof fn law_delete_absent(m: Map<Seq<u8>, Seq<u8>>, key: Seq<u8>)
    requires
        !m.dom().contains(key),
    ensures
        m.remove(key) == m,
{
    assert(m.remove(key) =~= m);
}

/// Deleting a key a second time finds it absent and changes nothing.
pub proof fn law_delete_twice(m: Map<Seq<u8>, Seq<u8>>, key: Seq<u8>)
    ensures
        !m.remove(key).dom().contains(key),
        m.remove(key).remove(key) == m.remove(key),
{
    assert(m.remove(key).remove(key) =~= m.remove(key));
}

/// Page `p` is `steps` child pointers below page `from`.
pub open spec fn reaches(pages: Seq<Seq<u8>>, from: u64, steps: nat, p: u64) -> bool
    decreases steps,
{
    if steps == 0 {
        p == from
    } else {
        !node_at(pages, from).leaf && exists|i: int|
            0 <= i < node_at(pages, from).entries.len() && reaches(
                pages,
                (#[trigger] slot(node_at(pages, from).entries, i)).ptr,
                (steps - 1) as nat,
                p,
            )
    }
}

/// In a well-formed subtree of height `h`, a page `steps` pointers below
/// the root, for `steps` up to `h`, has the page size, holds strictly
/// increasing keys, and is a leaf exactly when `steps` is `h`.
pub proof fn law_shape_below(
    pages: Seq<Seq<u8>>,
    id: u64,
    h: nat,
    hi: Option<Seq<u8>>,
    steps: nat,
    p: u64,
)
    requires
        subtree_wf(pages, id, h, hi),
        steps <= h,
        reaches(pages, id, steps, p),
    ensures
        pages[p as int].len() == BTREE_PAGE_SIZE,
        strictly_sorted(keys_of(node_at(pages, p).entries)),
        node_at(pages, p).leaf <==> steps == h,
    decreases steps,
{
    if steps > 0 {
        let es = node_at(pages, id).entries;
        let i = choose|i: int|
            0 <= i < es.len() && reaches(pages, (#[trigger] slot(es, i)).ptr, (steps - 1) as nat, p);
        assert(kid_wf(pages, slot(es, i), (h - 1) as nat, upper(es, i, hi)));
        law_shape_below(pages, es[i].ptr, (h - 1) as nat, upper(es, i, hi), (steps - 1) as nat, p);
    }
}

/// In a well-formed tree every page reached from the root has the page
/// size and holds strictly increasing keys, and the leaves are exactly
/// the pages `levels` pointers below the root: the tree is balanced.
pub proof fn law_balanced(tree: BTree, steps: nat, p: u64)
    requires
        tree.wf(),
        tree.root_page() != 0,
        steps <= tree.levels(),
        reaches(tree.store().pages(), tree.root_page(), steps, p),
    ensures
        tree.store().pages()[p as int].len() == BTREE_PAGE_SIZE,
        strictly_sorted(keys_of(node_at(tree.store().pages(), p).entries)),
        node_at(tree.store().pages(), p).leaf <==> steps == tree.levels(),
{
    law_shape_below(tree.store().pages(), tree.root_page(), tree.levels(), None, steps, p);
}

/// What a store wrote survives a restart: after a commit the pages are an
/// image that `PageManager::open` accepts, and a store opened from them
/// has the same root and the same free list.
pub proof fn law_restart(pm: PageManager, again: PageManager)
    requires
        pm.wf(),
        pm.synced(),
        pm.pending().len() == 0,
        again.pages() == pm.pages(),
        again.root() == meta_of(pm.pages()[META_PAGE as int]).root,
        describes(again.pages(), again.free_list()),
    ensures
        describes(pm.pages(), pm.free_list()),
        again.root() == pm.root(),
        again.free_list() == pm.free_list(),
{
    let pages = pm.pages();
    let head = meta_of(pages[META_PAGE as int]).free_head;
    assert(pm.free_list() + pm.pending() =~= pm.free_list());
    assert(chain(pages, pm.free_list(), head));
    assert(chain(pages, again.free_list(), head));
    lemma_chain_unique(pages, pm.free_list(), again.free_list(), head);
}

} // verus!
