//! Taking a key out of a subtree: the leaf that held it is rebuilt
//! without it, and every node above is rebuilt around what is left of its
//! child, which is stored again alone, joined with a sibling, or with an
//! entry moved over from a sibling, as `merge_if_undersized` decides.

use crate::error::Error;
use crate::graft::{bound_at, regrown};
use crate::keys::{compare_keys, key_lt, KeyOrder};
use crate::node::{encoded_size, entries_wf, fits, keys_of, lemma_well_formed_fits, models, BNode, Entry, EntryModel, NodeModel, NodeType, BTREE_PAGE_SIZE};
use crate::ops::{child_index, lemma_concat_wf, lemma_split_cuts, lemma_split_parts, lemma_subrange_wf, lookup_child, merge_if_undersized, merged_holds, ordered, remove_leaf, sibling_holds, sibling_of, split_if_oversized, split_parts, without, Lookup, Merged, Sibling, cut_at, SPLIT_MAX};
use crate::pager::PageManager;
use crate::route::lemma_child_index_bounds;
use crate::shape::{node_at, subtree_get, subtree_wf, upper};
use crate::shrink::{applying, beside, lemma_applying_done, lemma_child_live, lemma_applying_node, lemma_applying_roots, lemma_leaf_removed, lemma_left_wf, lemma_right_wf, lemma_run_alone, lemma_run_left, lemma_run_right, lemma_sibling, lemma_vanished, removed, run_node, run_root, shrunk};
use crate::shape::slot;
use crate::store::{
    all_live, cut_into, grows, kids_sound, lemma_at_node, lemma_descend, lemma_grows_refl,
    lemma_grows_trans, load, place_parts,
};
use crate::update::{lowered, rebuilt};
use vstd::prelude::*;
use vstd::slice::slice_to_vec;

verus! {

/// The nodes to store in place of a run of children of a node: the nodes
/// themselves, the run they replace, and, for the proofs, the entries they
/// hold together and where those are cut.
pub struct Run {
    pub parts: Vec<Sibling>,
    pub from: u16,
    pub to: u16,
    pub whole: Ghost<NodeModel>,
    pub cuts: Ghost<Seq<int>>,
}

/// The run is one or two children of a node of `n` children, among them
/// child `c`, and its parts are runs of sound entries that fit a page
/// each. A run without parts is the child `c` alone.
pub open spec fn run_ok(run: Run, n: int, c: int) -> bool {
    &&& 0 <= run.from <= c < run.to <= n
    &&& run.to <= run.from + 2
    &&& run.parts@.len() <= 3
    &&& run.parts@.len() > 0 ==> {
        &&& entries_wf(run.whole@.entries)
        &&& cut_into(run.whole@.entries, run.cuts@)
        &&& run.parts@.len() == run.cuts@.len() - 1
        &&& forall|i: int|
            0 <= i < run.parts@.len() ==> sibling_holds(
                #[trigger] run.parts@[i],
                run.whole@.leaf,
                run.whole@.entries.subrange(run.cuts@[i], run.cuts@[i + 1]),
            )
    }
    &&& run.parts@.len() == 0 ==> run.from == c && run.to == c + 1
}

/// Encodes entries and checks that the result is a node.
pub fn rebuild(kind: NodeType, es: &Vec<Entry>) -> (r: Result<BNode, Error>)
    ensures
        r is Ok <==> fits(models(es@)) && entries_wf(models(es@)),
        r matches Ok(node) ==> {
            &&& node.valid()
            &&& node.model() == (NodeModel {
                leaf: kind == NodeType::Leaf,
                entries: models(es@),
            })
            &&& node@.len() == encoded_size(models(es@))
        },
        r matches Err(e) ==> e == Error::CorruptPage,
{
    match BNode::build(kind, es) {
        Some(node) => BNode::decode(node.into_bytes()),
        None => Err(Error::CorruptPage),
    }
}

/// A run of one node.
fn one_part(m: BNode) -> (r: Result<Vec<Sibling>, Error>)
    requires
        m.valid(),
    ensures
        r is Ok <==> m.model().entries.len() > 0 && encoded_size(m.model().entries)
            <= BTREE_PAGE_SIZE,
        r matches Ok(parts) ==> parts@.len() == 1 && sibling_holds(
            parts@[0],
            m.model().leaf,
            m.model().entries,
        ),
        r matches Err(e) ==> e == Error::CorruptPage,
{
    if m.key_count() == 0 || m.encoded_size() > BTREE_PAGE_SIZE {
        return Err(Error::CorruptPage);
    }
    let mut parts: Vec<Sibling> = Vec::new();
    parts.push(sibling_of(m));
    Ok(parts)
}

/// A run of two nodes.
fn two_parts(a: BNode, b: BNode) -> (r: Result<Vec<Sibling>, Error>)
    requires
        a.valid(),
        b.valid(),
    ensures
        r is Ok <==> a.model().entries.len() > 0 && encoded_size(a.model().entries)
            <= BTREE_PAGE_SIZE && b.model().entries.len() > 0 && encoded_size(b.model().entries)
            <= BTREE_PAGE_SIZE,
        r matches Ok(parts) ==> parts@.len() == 2 && sibling_holds(
            parts@[0],
            a.model().leaf,
            a.model().entries,
        ) && sibling_holds(parts@[1], b.model().leaf, b.model().entries),
        r matches Err(e) ==> e == Error::CorruptPage,
{
    if a.key_count() == 0 || a.encoded_size() > BTREE_PAGE_SIZE || b.key_count() == 0
        || b.encoded_size() > BTREE_PAGE_SIZE {
        return Err(Error::CorruptPage);
    }
    let mut parts: Vec<Sibling> = Vec::new();
    parts.push(sibling_of(a));
    parts.push(sibling_of(b));
    Ok(parts)
}

/// Reads the sibling at `ptr`, which must be of the given kind.
fn load_sibling(pm: &PageManager, ptr: u64, kind: NodeType) -> (r: Result<BNode, Error>)
    requires
        pm.wf(),
    ensures
        r matches Ok(node) ==> {
            &&& node.valid()
            &&& node.model() == node_at(pm.pages(), ptr)
            &&& node.model().leaf == (kind == NodeType::Leaf)
            &&& encoded_size(node.model().entries) <= BTREE_PAGE_SIZE
        },
        pm.readable(ptr) && crate::store::page_ok_at(pm.pages(), ptr) && node_at(
            pm.pages(),
            ptr,
        ).leaf == (kind == NodeType::Leaf) ==> r is Ok,
{
    let node = match load(pm, ptr) {
        Ok(n) => n,
        Err(e) => {
            return Err(e);
        },
    };
    proof {
        lemma_well_formed_fits(node@);
    }
    let same = match (node.node_type(), kind) {
        (NodeType::Leaf, NodeType::Leaf) => true,
        (NodeType::Internal, NodeType::Internal) => true,
        _ => false,
    };
    if !same {
        return Err(Error::CorruptPage);
    }
    Ok(node)
}

/// Whether every key of `a` sorts before every key of `b`, both being
/// sorted.
fn in_order(a: &BNode, b: &BNode) -> (ok: bool)
    requires
        a.valid(),
        b.valid(),
    ensures
        ok == ordered(a.model().entries, b.model().entries),
{
    let na = a.key_count();
    if na == 0 || b.key_count() == 0 {
        return true;
    }
    match compare_keys(a.key_at(na - 1), b.key_at(0)) {
        KeyOrder::Before => true,
        _ => false,
    }
}

/// What `plan_run` can rely on when the pages hold a tree: `up` is what
/// is left of child `c` of the node at `id`, which `node` holds.
#[verifier::opaque]
pub open spec fn planned(
    then: PageManager,
    mid: PageManager,
    id: u64,
    h: nat,
    hi: Option<Seq<u8>>,
    key: Seq<u8>,
    m: NodeModel,
    c: int,
    up: NodeModel,
) -> bool {
    &&& shrunk(then, mid, id, h, hi, key, up)
    &&& m == node_at(then.pages(), id)
    &&& c == child_index(keys_of(m.entries), key)
}

/// The sibling `sib` of a node holding `up` can be joined with it on the
/// given side: it is sound, of the same kind, fits a page, and its keys
/// are on that side of the keys of `up`.
pub open spec fn neighbour_ok(sib: Option<BNode>, up: NodeModel, before: bool) -> bool {
    sib matches Some(s) ==> {
        &&& s.valid()
        &&& s.model().leaf == up.leaf
        &&& encoded_size(s.model().entries) <= BTREE_PAGE_SIZE
        &&& if before {
            ordered(s.model().entries, up.entries) && entries_wf(s.model().entries + up.entries)
        } else {
            ordered(up.entries, s.model().entries) && entries_wf(up.entries + s.model().entries)
        }
    }
}

/// Reads the sibling on one side of child `c` of `node`, if there is one,
/// and checks that it can be joined with `up`.
fn neighbour(
    pm: &PageManager,
    node: &BNode,
    c: u16,
    up: &BNode,
    before: bool,
    Ghost(then): Ghost<PageManager>,
    Ghost(id): Ghost<u64>,
    Ghost(h): Ghost<nat>,
    Ghost(hi): Ghost<Option<Seq<u8>>>,
    Ghost(key): Ghost<Seq<u8>>,
) -> (r: Result<Option<BNode>, Error>)
    requires
        pm.wf(),
        node.valid(),
        !node.model().leaf,
        c < node.model().entries.len(),
        up.valid(),
    ensures
        r matches Ok(sib) ==> neighbour_ok(sib, up.model(), before) && (sib is Some <==> if before {
            c > 0
        } else {
            c + 1 < node.model().entries.len()
        }),
        planned(then, *pm, id, h, hi, key, node.model(), c as int, up.model()) ==> r is Ok,
        planned(then, *pm, id, h, hi, key, node.model(), c as int, up.model()) ==> (r matches Ok(
            Some(s),
        ) ==> s.model() == node_at(
            then.pages(),
            node.model().entries[if before {
                c - 1
            } else {
                c + 1
            }].ptr,
        )),
{
    let ghost es = node.model().entries;
    let ghost upm = up.model();
    let ghost sound = planned(then, *pm, id, h, hi, key, node.model(), c as int, upm);
    proof {
        reveal(planned);
    }
    let n = node.key_count();
    if (before && c == 0) || (!before && c + 1 >= n) {
        return Ok(None);
    }
    let at: u16 = if before {
        c - 1
    } else {
        c + 1
    };
    proof {
        if sound {
            lemma_descend(then, id, h, hi, key);
            lemma_sibling(then, *pm, id, h, hi, key, upm, at as int);
            if before {
                lemma_left_wf(then, *pm, id, h, hi, key, upm);
            } else {
                lemma_right_wf(then, *pm, id, h, hi, key, upm);
            }
        }
    }
    let sib = match load_sibling(pm, node.child_pointer(at), up.node_type()) {
        Ok(s) => s,
        Err(e) => {
            return Err(e);
        },
    };
    let ghost sm = sib.model();
    let ok = if before {
        in_order(&sib, up)
    } else {
        in_order(up, &sib)
    };
    proof {
        if sound && !ok {
            if before {
                let v = beside(sm, upm).entries;
                let nl = sm.entries.len() as int;
                assert(key_lt(keys_of(v)[nl - 1], keys_of(v)[nl]));
                assert(v[nl - 1] == sm.entries[nl - 1] && v[nl] == upm.entries[0]);
            } else {
                let v = beside(upm, sm).entries;
                let nu = upm.entries.len() as int;
                assert(key_lt(keys_of(v)[nu - 1], keys_of(v)[nu]));
                assert(v[nu - 1] == upm.entries[nu - 1] && v[nu] == sm.entries[0]);
            }
        }
    }
    if !ok {
        return Err(Error::CorruptPage);
    }
    proof {
        if before {
            lemma_concat_wf(sm.entries, upm.entries);
        } else {
            lemma_concat_wf(upm.entries, sm.entries);
        }
    }
    Ok(Some(sib))
}

/// The run that stores `up` alone, split if it is too large for a page.
fn run_alone(up: BNode, c: u16, Ghost(n): Ghost<int>) -> (r: Result<Run, Error>)
    requires
        up.valid(),
        up.model().entries.len() > 0,
        encoded_size(up.model().entries) <= SPLIT_MAX,
        c < n <= u16::MAX,
    ensures
        r matches Ok(run) ==> run_ok(run, n, c as int) && run.parts@.len() > 0 && run.from == c
            && run.to == c + 1 && run.whole@ == up.model(),
        r is Ok,
{
    let ghost upm = up.model();
    let ghost ps = split_parts(upm.entries);
    let ghost cuts = Seq::new((ps.len() + 1) as nat, |i: int| cut_at(ps, i));
    proof {
        lemma_split_cuts(upm.entries);
        lemma_split_parts(upm.entries);
    }
    let parts = split_if_oversized(up);
    proof {
        assert forall|i: int| 0 <= i < parts@.len() implies sibling_holds(
            #[trigger] parts@[i],
            upm.leaf,
            upm.entries.subrange(cuts[i], cuts[i + 1]),
        ) by {
            assert(ps[i] == upm.entries.subrange(cut_at(ps, i), cut_at(ps, i + 1)));
        }
        assert forall|i: int, j: int| 0 <= i < j < cuts.len() implies #[trigger] cuts[i]
            < #[trigger] cuts[j] by {
            assert(cut_at(ps, i) < cut_at(ps, j));
        }
    }
    Ok(Run { parts, from: c, to: c + 1, whole: Ghost(upm), cuts: Ghost(cuts) })
}

/// The node has entries and fits a page.
pub open spec fn part_fits(m: BNode) -> bool {
    m.model().entries.len() > 0 && encoded_size(m.model().entries) <= BTREE_PAGE_SIZE
}

/// The run that stores one node in place of the children from `from` up to
/// `to`.
fn run_one(m: BNode, from: u16, to: u16, Ghost(n): Ghost<int>, Ghost(c): Ghost<int>) -> (r: Result<
    Run,
    Error,
>)
    requires
        m.valid(),
        0 <= from <= c < to <= n,
        to <= from + 2,
    ensures
        r matches Ok(run) ==> run_ok(run, n, c) && run.parts@.len() > 0 && run.from == from
            && run.to == to && run.whole@ == m.model(),
        part_fits(m) ==> r is Ok,
{
    let ghost whole = m.model();
    let ghost len = whole.entries.len() as int;
    let parts = match one_part(m) {
        Ok(p) => p,
        Err(e) => {
            return Err(e);
        },
    };
    let ghost cuts = seq![0int, len];
    proof {
        assert(whole.entries.subrange(0, len) =~= whole.entries);
        assert(cuts[0] == 0 && cuts[1] == len);
    }
    Ok(Run { parts, from, to, whole: Ghost(whole), cuts: Ghost(cuts) })
}

/// The run that stores two nodes, which hold the entries `whole` cut at
/// `cut`, in place of the children from `from` up to `to`.
fn run_two(
    a: BNode,
    b: BNode,
    from: u16,
    to: u16,
    Ghost(n): Ghost<int>,
    Ghost(c): Ghost<int>,
    Ghost(whole): Ghost<NodeModel>,
    Ghost(cut): Ghost<int>,
) -> (r: Result<Run, Error>)
    requires
        a.valid(),
        b.valid(),
        0 <= from <= c < to <= n,
        to <= from + 2,
        entries_wf(whole.entries),
        0 <= cut <= whole.entries.len(),
        a.model() == (NodeModel { leaf: whole.leaf, entries: whole.entries.subrange(0, cut) }),
        b.model() == (NodeModel {
            leaf: whole.leaf,
            entries: whole.entries.subrange(cut, whole.entries.len() as int),
        }),
    ensures
        r matches Ok(run) ==> run_ok(run, n, c) && run.parts@.len() > 0 && run.from == from
            && run.to == to && run.whole@ == whole,
        part_fits(a) && part_fits(b) ==> r is Ok,
{
    let ghost len = whole.entries.len() as int;
    let parts = match two_parts(a, b) {
        Ok(p) => p,
        Err(e) => {
            return Err(e);
        },
    };
    let ghost cuts = seq![0int, cut, len];
    proof {
        assert(cuts[0] == 0 && cuts[1] == cut && cuts[2] == len);
    }
    Ok(Run { parts, from, to, whole: Ghost(whole), cuts: Ghost(cuts) })
}

/// The entries of a sibling as `merge_if_undersized` is given them.
pub open spec fn lent(sib: Option<BNode>) -> Option<Seq<EntryModel>> {
    match sib {
        Some(s) => Some(s.model().entries),
        None => None,
    }
}

/// What is left of the child, if not empty, can take its own place.
proof fn lemma_plan_alone(
    then: PageManager,
    mid: PageManager,
    id: u64,
    h: nat,
    hi: Option<Seq<u8>>,
    key: Seq<u8>,
    m: NodeModel,
    c: int,
    up: NodeModel,
)
    requires
        planned(then, mid, id, h, hi, key, m, c, up),
        up.entries.len() > 0,
    ensures
        run_node(then, mid, id, h, hi, key, None, c, c + 1, up),
{
    reveal(planned);
    lemma_run_alone(then, mid, id, h, hi, key, up);
}

/// The sibling on one side of the child, joined with what is left of the
/// child, can take the place of the two; the sibling has entries.
proof fn lemma_plan_beside(
    then: PageManager,
    mid: PageManager,
    id: u64,
    h: nat,
    hi: Option<Seq<u8>>,
    key: Seq<u8>,
    m: NodeModel,
    c: int,
    up: NodeModel,
    before: bool,
)
    requires
        planned(then, mid, id, h, hi, key, m, c, up),
        0 <= c < m.entries.len(),
        if before {
            c > 0
        } else {
            c + 1 < m.entries.len()
        },
    ensures
        before ==> run_node(
            then,
            mid,
            id,
            h,
            hi,
            key,
            None,
            c - 1,
            c + 1,
            beside(node_at(then.pages(), m.entries[c - 1].ptr), up),
        ) && node_at(then.pages(), m.entries[c - 1].ptr).entries.len() > 0 && node_at(
            then.pages(),
            m.entries[c - 1].ptr,
        ).leaf == up.leaf,
        !before ==> run_node(
            then,
            mid,
            id,
            h,
            hi,
            key,
            None,
            c,
            c + 2,
            beside(up, node_at(then.pages(), m.entries[c + 1].ptr)),
        ) && node_at(then.pages(), m.entries[c + 1].ptr).entries.len() > 0 && node_at(
            then.pages(),
            m.entries[c + 1].ptr,
        ).leaf == up.leaf,
{
    reveal(planned);
    lemma_descend(then, id, h, hi, key);
    if before {
        lemma_sibling(then, mid, id, h, hi, key, up, c - 1);
        lemma_run_left(then, mid, id, h, hi, key, up);
    } else {
        lemma_sibling(then, mid, id, h, hi, key, up, c + 1);
        lemma_run_right(then, mid, id, h, hi, key, up);
    }
}

/// Decides what to store in place of child `c` of `node`, of which `up`
/// is left after the delete below: `up` alone, split if it grew too large
/// for a page; or, where `merge_if_undersized` says so, `up` joined with
/// a sibling, or `up` and a sibling with one entry moved over. Nothing is
/// stored if `up` is empty and has no sibling to join.
pub(crate) fn plan_run(
    pm: &PageManager,
    node: &BNode,
    c: u16,
    up: BNode,
    Ghost(then): Ghost<PageManager>,
    Ghost(id): Ghost<u64>,
    Ghost(h): Ghost<nat>,
    Ghost(hi): Ghost<Option<Seq<u8>>>,
    Ghost(key): Ghost<Seq<u8>>,
) -> (r: Result<Run, Error>)
    requires
        pm.wf(),
        node.valid(),
        !node.model().leaf,
        c < node.model().entries.len(),
        up.valid(),
        encoded_size(up.model().entries) <= SPLIT_MAX,
    ensures
        r matches Ok(run) ==> run_ok(run, node.model().entries.len() as int, c as int),
        planned(then, *pm, id, h, hi, key, node.model(), c as int, up.model()) ==> r is Ok,
        planned(then, *pm, id, h, hi, key, node.model(), c as int, up.model()) ==> (r matches Ok(
            run,
        ) ==> (run.parts@.len() > 0 ==> run_node(
            then,
            *pm,
            id,
            h,
            hi,
            key,
            None,
            run.from as int,
            run.to as int,
            run.whole@,
        )) && (run.parts@.len() == 0 ==> up.model().entries.len() == 0
            && node.model().entries.len() == 1)),
{
    let ghost nm = node.model();
    let ghost es = nm.entries;
    let ghost upm = up.model();
    let ghost sound = planned(then, *pm, id, h, hi, key, nm, c as int, upm);
    let n = node.key_count();
    let count = up.key_count();
    proof {
        lemma_well_formed_fits(up@);
        lemma_well_formed_fits(node@);
        if sound && count > 0 {
            lemma_plan_alone(then, *pm, id, h, hi, key, nm, c as int, upm);
        }
    }
    if up.encoded_size() > BTREE_PAGE_SIZE {
        assert(count > 0) by {
            if count == 0 {
                assert(crate::node::records_size(upm.entries) == 0);
            }
        }
        return run_alone(up, c, Ghost(n as int));
    }
    let left = match neighbour(
        pm,
        node,
        c,
        &up,
        true,
        Ghost(then),
        Ghost(id),
        Ghost(h),
        Ghost(hi),
        Ghost(key),
    ) {
        Ok(l) => l,
        Err(e) => {
            return Err(e);
        },
    };
    let right = match neighbour(
        pm,
        node,
        c,
        &up,
        false,
        Ghost(then),
        Ghost(id),
        Ghost(h),
        Ghost(hi),
        Ghost(key),
    ) {
        Ok(x) => x,
        Err(e) => {
            return Err(e);
        },
    };
    let ghost le = lent(left);
    let ghost re = lent(right);
    let merged = merge_if_undersized(&up, left.as_ref(), right.as_ref());
    assert(merged_holds(merged, upm.leaf, upm.entries, le, re));
    proof {
        if sound {
            if c > 0 {
                lemma_plan_beside(then, *pm, id, h, hi, key, nm, c as int, upm, true);
            }
            if c + 1 < n {
                lemma_plan_beside(then, *pm, id, h, hi, key, nm, c as int, upm, false);
            }
        }
    }
    match merged {
        Merged::Keep => {
            if count == 0 {
                proof {
                    if le is Some {
                        assert(le->0 + upm.entries =~= le->0);
                    }
                    if re is Some {
                        assert(upm.entries + re->0 =~= re->0);
                    }
                }
                let ghost cuts = Seq::<int>::empty();
                Ok(Run { parts: Vec::new(), from: c, to: c + 1, whole: Ghost(upm), cuts: Ghost(cuts) })
            } else {
                run_one(up, c, c + 1, Ghost(n as int), Ghost(c as int))
            }
        },
        Merged::WithLeft(m) => {
            proof {
                assert(m.model() == beside(NodeModel { leaf: upm.leaf, entries: le->0 }, upm));
            }
            run_one(m, (c - 1) as u16, c + 1, Ghost(n as int), Ghost(c as int))
        },
        Merged::WithRight(m) => {
            proof {
                assert(m.model() == beside(upm, NodeModel { leaf: upm.leaf, entries: re->0 }));
            }
            run_one(m, c, c + 2, Ghost(n as int), Ghost(c as int))
        },
        Merged::BorrowLeft { left: l2, node: n2 } => {
            let ghost lm = NodeModel { leaf: upm.leaf, entries: le->0 };
            let ghost whole = beside(lm, upm);
            let ghost cut = lm.entries.len() - 1;
            proof {
                lemma_borrow_left(lm.entries, upm.entries);
            }
            run_two(
                l2,
                n2,
                (c - 1) as u16,
                c + 1,
                Ghost(n as int),
                Ghost(c as int),
                Ghost(whole),
                Ghost(cut),
            )
        },
        Merged::BorrowRight { node: n2, right: r2 } => {
            let ghost rm = NodeModel { leaf: upm.leaf, entries: re->0 };
            let ghost whole = beside(upm, rm);
            let ghost cut = upm.entries.len() as int + 1;
            proof {
                lemma_borrow_right(upm.entries, rm.entries);
            }
            run_two(
                n2,
                r2,
                c,
                c + 2,
                Ghost(n as int),
                Ghost(c as int),
                Ghost(whole),
                Ghost(cut),
            )
        },
    }
}

/// Moving the last entry of the left run to the front of the right one
/// cuts the two joined one entry earlier.
proof fn lemma_borrow_left(a: Seq<EntryModel>, b: Seq<EntryModel>)
    requires
        entries_wf(a),
        a.len() >= 2,
        encoded_size(a) <= BTREE_PAGE_SIZE,
    ensures
        (a + b).subrange(0, a.len() - 1) == a.drop_last(),
        (a + b).subrange(a.len() - 1, (a + b).len() as int) == seq![a.last()] + b,
        a.drop_last().len() > 0,
        encoded_size(a.drop_last()) <= BTREE_PAGE_SIZE,
{
    let cut = a.len() - 1;
    lemma_subrange_wf(a, 0, cut);
    assert(a.drop_last() =~= a.subrange(0, cut));
    assert((a + b).subrange(0, cut) =~= a.drop_last());
    assert((a + b).subrange(cut, (a + b).len() as int) =~= seq![a.last()] + b);
}

/// Moving the first entry of the right run to the end of the left one
/// cuts the two joined one entry later.
proof fn lemma_borrow_right(a: Seq<EntryModel>, b: Seq<EntryModel>)
    requires
        entries_wf(b),
        b.len() >= 2,
        encoded_size(b) <= BTREE_PAGE_SIZE,
    ensures
        (a + b).subrange(0, a.len() as int + 1) == a + seq![b[0]],
        (a + b).subrange(a.len() as int + 1, (a + b).len() as int) == b.skip(1),
        b.skip(1).len() > 0,
        encoded_size(b.skip(1)) <= BTREE_PAGE_SIZE,
{
    let cut = a.len() as int + 1;
    lemma_subrange_wf(b, 1, b.len() as int);
    assert(b.skip(1) =~= b.subrange(1, b.len() as int));
    assert((a + b).subrange(0, cut) =~= a + seq![b[0]]);
    assert((a + b).subrange(cut, (a + b).len() as int) =~= b.skip(1));
}

/// From what `plan_run` relied on and what it found, what `apply_run`
/// can rely on.
proof fn lemma_planned_applying(
    then: PageManager,
    mid: PageManager,
    id: u64,
    h: nat,
    hi: Option<Seq<u8>>,
    key: Seq<u8>,
    m: NodeModel,
    c: int,
    up: NodeModel,
    from: int,
    to: int,
    whole: NodeModel,
)
    requires
        planned(then, mid, id, h, hi, key, m, c, up),
        run_node(then, mid, id, h, hi, key, None, from, to, whole),
        0 <= from <= c < to <= m.entries.len(),
    ensures
        applying(then, mid, id, h, hi, key, from, to, whole),
        m == node_at(then.pages(), id),
{
    reveal(planned);
    reveal(applying);
}

/// Frees the pages of the children of `node` from `from` up to `to`.
fn free_run(pm: &mut PageManager, node: &BNode, from: u16, to: u16) -> (r: Result<(), Error>)
    requires
        old(pm).wf(),
        node.valid(),
        !node.model().leaf,
        from <= to <= node.model().entries.len(),
        to <= from + 2,
    ensures
        grows(*old(pm), *final(pm)),
        r is Ok ==> {
            &&& final(pm).pages() == old(pm).pages()
            &&& final(pm).free_list() == old(pm).free_list()
            &&& final(pm).root() == old(pm).root()
            &&& forall|p: u64| #[trigger]
                final(pm).pending().contains(p) <==> old(pm).pending().contains(p) || run_root(
                    node.model().entries,
                    from as int,
                    to as int,
                    p,
                )
        },
        (forall|i: int| from <= i < to ==> old(pm).live(#[trigger] node.model().entries[i].ptr))
            && (to == from + 2 ==> node.model().entries[from as int].ptr
            != node.model().entries[from + 1].ptr) ==> r is Ok,
{
    let ghost start = *pm;
    let ghost es = node.model().entries;
    proof {
        lemma_grows_refl(start);
    }
    let mut i: u16 = from;
    while i < to
        invariant
            start == *old(pm),
            start.wf(),
            pm.wf(),
            node.valid(),
            !node.model().leaf,
            es == node.model().entries,
            from <= i <= to <= es.len(),
            to <= from + 2,
            grows(start, *pm),
            pm.pages() == start.pages(),
            pm.free_list() == start.free_list(),
            pm.root() == start.root(),
            forall|p: u64| #[trigger]
                pm.pending().contains(p) <==> start.pending().contains(p) || run_root(
                    es,
                    from as int,
                    i as int,
                    p,
                ),
        decreases to - i,
    {
        let ghost before = *pm;
        let ptr = node.child_pointer(i);
        proof {
            if before.pending().contains(ptr) && !start.pending().contains(ptr) {
                let w = choose|w: int| from <= w < i && (#[trigger] slot(es, w)).ptr == ptr;
                assert(w == from && i == from + 1);
            }
        }
        match pm.free(ptr) {
            Ok(()) => {},
            Err(e) => {
                proof {
                    assert(*pm == before);
                    assert(!before.live(ptr));
                    if start.live(es[i as int].ptr) {
                        assert(before.pending().contains(ptr));
                        assert(run_root(es, from as int, i as int, ptr));
                    }
                }
                return Err(e);
            },
        }
        proof {
            crate::update::lemma_freed(before, *pm, ptr);
            lemma_grows_trans(start, before, *pm);
            assert forall|p: u64| #[trigger]
                pm.pending().contains(p) <==> start.pending().contains(p) || run_root(
                    es,
                    from as int,
                    i + 1,
                    p,
                ) by {
                if run_root(es, from as int, i + 1, p) {
                    let w = choose|w: int| from <= w < i + 1 && (#[trigger] slot(es, w)).ptr == p;
                    if w < i {
                        assert(run_root(es, from as int, i as int, p));
                        assert(before.pending().contains(p));
                    } else {
                        assert(p == ptr);
                        assert(pm.pending()[before.pending().len() as int] == ptr);
                    }
                }
                if pm.pending().contains(p) {
                    if p == ptr {
                        assert(slot(es, i as int).ptr == p);
                    } else {
                        assert(before.pending().contains(p));
                        if run_root(es, from as int, i as int, p) {
                            let w = choose|w: int|
                                from <= w < i && (#[trigger] slot(es, w)).ptr == p;
                            assert(slot(es, w).ptr == p);
                        }
                    }
                }
                if start.pending().contains(p) {
                    assert(before.pending().contains(p));
                }
            }
        }
        i += 1;
    }
    Ok(())
}

/// The entries of `node` with those from `from` up to `to` replaced by
/// the entries `kids`, the first of them under the separator that was at
/// `from`.
fn regrow(node: &BNode, from: u16, to: u16, kids: &Vec<Entry>) -> (es: Vec<Entry>)
    requires
        node.valid(),
        from < to <= node.model().entries.len(),
        to <= from + 2,
        1 <= kids@.len() <= 3,
        kids_sound(models(kids@)),
    ensures
        models(es@) == regrown(
            node.model().entries,
            from as int,
            to as int,
            lowered(models(kids@), node.model().entries[from as int].key),
        ),
{
    let ghost old_es = node.model().entries;
    let ghost ks = models(kids@);
    let ghost low = lowered(ks, old_es[from as int].key);
    let sep = slice_to_vec(node.key_at(from));
    let mut es = node.entries();
    let _ = es.remove(from as usize);
    if to > from + 1 {
        let _ = es.remove(from as usize);
    }
    assert(models(es@) =~= old_es.take(from as int) + old_es.skip(to as int));
    es.insert(from as usize, Entry { ptr: kids[0].ptr, key: sep, val: Vec::new() });
    assert(models(es@) =~= old_es.take(from as int) + low.take(1) + old_es.skip(to as int));
    let count = kids.len();
    let mut j: usize = 1;
    while j < count
        invariant
            1 <= j <= count,
            count == kids@.len(),
            count <= 3,
            ks == models(kids@),
            kids_sound(ks),
            low == lowered(ks, old_es[from as int].key),
            from < to <= old_es.len(),
            es@.len() == old_es.len() - (to - from) + j,
            models(es@) == old_es.take(from as int) + low.take(j as int) + old_es.skip(to as int),
        decreases count - j,
    {
        let ghost before = models(es@);
        proof {
            assert(ks[j as int].val =~= Seq::<u8>::empty());
            assert(low[j as int] == ks[j as int]);
        }
        es.insert(
            from as usize + j,
            Entry { ptr: kids[j].ptr, key: slice_to_vec(kids[j].key.as_slice()), val: Vec::new() },
        );
        proof {
            assert(models(es@) =~= before.insert(from + j, low[j as int]));
            assert(before.insert(from + j, low[j as int]) =~= old_es.take(from as int) + low.take(
                j + 1,
            ) + old_es.skip(to as int));
        }
        j += 1;
    }
    proof {
        assert(low.take(count as int) =~= low);
    }
    es
}

/// Stores the parts of a run in pages of their own, frees the pages of
/// the children they replace, and rebuilds the node around the entries
/// for what was stored.
pub(crate) fn apply_run(
    pm: &mut PageManager,
    node: &BNode,
    run: Run,
    Ghost(c): Ghost<int>,
    Ghost(then): Ghost<PageManager>,
    Ghost(id): Ghost<u64>,
    Ghost(h): Ghost<nat>,
    Ghost(hi): Ghost<Option<Seq<u8>>>,
    Ghost(key): Ghost<Seq<u8>>,
) -> (r: Result<BNode, Error>)
    requires
        old(pm).wf(),
        node.valid(),
        !node.model().leaf,
        node@.len() == BTREE_PAGE_SIZE,
        run_ok(run, node.model().entries.len() as int, c),
        run.parts@.len() > 0,
    ensures
        grows(*old(pm), *final(pm)),
        r matches Ok(new) ==> new.valid() && encoded_size(new.model().entries) <= SPLIT_MAX,
        applying(then, *old(pm), id, h, hi, key, run.from as int, run.to as int, run.whole@)
            && node.model() == node_at(then.pages(), id) ==> r is Ok,
        applying(then, *old(pm), id, h, hi, key, run.from as int, run.to as int, run.whole@)
            && node.model() == node_at(then.pages(), id) ==> (r matches Ok(new) ==> removed(
            then,
            *final(pm),
            id,
            h,
            hi,
            key,
            new.model(),
        ) && new.model().entries.len() > 0),
{
    let ghost mid = *pm;
    let ghost es = node.model().entries;
    let ghost from = run.from as int;
    let ghost to = run.to as int;
    let ghost whole = run.whole@;
    let ghost sound = applying(then, mid, id, h, hi, key, from, to, whole) && node.model()
        == node_at(then.pages(), id);
    let ghost hk = (h - 1) as nat;
    let ghost hb = bound_at(es, to, hi);
    proof {
        lemma_well_formed_fits(node@);
        if sound {
            lemma_applying_node(then, mid, id, h, hi, key, from, to, whole);
        }
    }
    let kids = place_parts(pm, &run.parts, Ghost(whole), Ghost(run.cuts@), Ghost(hk), Ghost(hb));
    let ghost put = *pm;
    let ghost ks = models(kids@);
    proof {
        if sound {
            assert forall|i: int| from <= i < to implies put.live(#[trigger] es[i].ptr) by {
                lemma_applying_roots(then, mid, put, id, h, hi, key, from, to, whole, i, i);
            }
            if to == from + 2 {
                lemma_applying_roots(then, mid, put, id, h, hi, key, from, to, whole, from, from + 1);
            }
        }
    }
    match free_run(pm, node, run.from, run.to) {
        Ok(()) => {},
        Err(e) => {
            proof {
                lemma_grows_trans(mid, put, *pm);
            }
            return Err(e);
        },
    }
    proof {
        lemma_grows_trans(mid, put, *pm);
    }
    let entries = regrow(node, run.from, run.to, &kids);
    proof {
        if sound {
            lemma_applying_done(then, mid, put, *pm, id, h, hi, key, from, to, whole, ks);
        }
    }
    let new = match rebuild(NodeType::Internal, &entries) {
        Ok(n) => n,
        Err(e) => {
            return Err(e);
        },
    };
    if new.encoded_size() > SPLIT_MAX {
        return Err(Error::CorruptPage);
    }
    Ok(new)
}

/// The pages hold a subtree of live pages at `id`.
pub open spec fn held_at(pm: PageManager, id: u64, h: nat, hi: Option<Seq<u8>>) -> bool {
    subtree_wf(pm.pages(), id, h, hi) && all_live(pm, id, h)
}

/// What is known once the delete below child `c` has come back.
proof fn lemma_planned(
    then: PageManager,
    mid: PageManager,
    id: u64,
    h: nat,
    hi: Option<Seq<u8>>,
    key: Seq<u8>,
    m: NodeModel,
    c: int,
    up: NodeModel,
)
    requires
        h > 0,
        held_at(then, id, h, hi),
        grows(then, mid),
        m == node_at(then.pages(), id),
        c == child_index(keys_of(m.entries), key),
        removed(then, mid, m.entries[c].ptr, (h - 1) as nat, upper(m.entries, c, hi), key, up),
    ensures
        planned(then, mid, id, h, hi, key, m, c, up),
        mid.live(m.entries[c].ptr),
{
    reveal(planned);
    lemma_child_live(then, mid, id, h, hi, key, up);
}

/// With its only child gone, a node is left without entries.
proof fn lemma_planned_vanished(
    then: PageManager,
    mid: PageManager,
    now: PageManager,
    id: u64,
    h: nat,
    hi: Option<Seq<u8>>,
    key: Seq<u8>,
    m: NodeModel,
    c: int,
    up: NodeModel,
)
    requires
        planned(then, mid, id, h, hi, key, m, c, up),
        up.entries.len() == 0,
        m.entries.len() == 1,
        now.wf(),
        now.pages() == mid.pages(),
        now.free_list() == mid.free_list(),
        now.root() == mid.root(),
        now.pending() == mid.pending().push(m.entries[c].ptr),
    ensures
        grows(then, now),
        removed(
            then,
            now,
            id,
            h,
            hi,
            key,
            NodeModel { leaf: false, entries: Seq::<EntryModel>::empty() },
        ),
{
    reveal(planned);
    lemma_child_index_bounds(keys_of(m.entries), key);
    lemma_descend(then, id, h, hi, key);
    lemma_vanished(then, mid, now, id, h, hi, key, up);
}

/// Takes `key` out of the subtree at `id`, without touching its pages.
/// Gives `None`, with nothing changed, if the subtree does not hold the
/// key; else the node that is left of the node at `id`, not yet stored
/// and possibly without entries. The pages of the old path below `id`
/// are handed to the store to be freed; the page `id` itself is left for
/// the caller to free.
pub(crate) fn delete_rec(
    pm: &mut PageManager,
    id: u64,
    depth: usize,
    key: &[u8],
    Ghost(hi): Ghost<Option<Seq<u8>>>,
) -> (r: Result<Option<BNode>, Error>)
    requires
        old(pm).wf(),
    ensures
        grows(*old(pm), *final(pm)),
        r matches Ok(None) ==> *final(pm) == *old(pm),
        r matches Ok(Some(node)) ==> node.valid() && encoded_size(node.model().entries)
            <= SPLIT_MAX,
        held_at(*old(pm), id, depth as nat, hi) ==> r is Ok,
        held_at(*old(pm), id, depth as nat, hi) ==> (r matches Ok(found) ==> (found is Some
            <==> subtree_get(old(pm).pages(), id, depth as nat, key@) is Some)),
        held_at(*old(pm), id, depth as nat, hi) ==> (r matches Ok(Some(node)) ==> removed(
            *old(pm),
            *final(pm),
            id,
            depth as nat,
            hi,
            key@,
            node.model(),
        )),
    decreases depth,
{
    let ghost start = *pm;
    let ghost h = depth as nat;
    let ghost sound = held_at(start, id, h, hi);
    proof {
        lemma_grows_refl(start);
        if sound {
            lemma_at_node(start, id, h, hi);
        }
    }
    let node = match load(pm, id) {
        Ok(n) => n,
        Err(e) => {
            return Err(e);
        },
    };
    let ghost es = node.model().entries;
    proof {
        lemma_well_formed_fits(node@);
    }
    if depth == 0 {
        match node.node_type() {
            NodeType::Internal => {
                return Err(Error::CorruptPage);
            },
            NodeType::Leaf => {},
        }
        let (new, found) = remove_leaf(&node, key);
        proof {
            if sound {
                lemma_leaf_removed(start, id, hi, key@);
            }
            if found {
                crate::keys::lemma_rank_splits(keys_of(es), key@);
                crate::ops::lemma_without_ends(es, key@);
            }
        }
        if !found {
            return Ok(None);
        }
        return Ok(Some(new));
    }
    match node.node_type() {
        NodeType::Leaf => {
            return Err(Error::CorruptPage);
        },
        NodeType::Internal => {},
    }
    if node.key_count() == 0 {
        return Err(Error::CorruptPage);
    }
    let (c, child) = match lookup_child(&node, key) {
        Lookup::Child { index, page } => (index, page),
        _ => {
            return Err(Error::CorruptPage);
        },
    };
    let ghost hc = upper(es, c as int, hi);
    proof {
        lemma_child_index_bounds(keys_of(es), key@);
        if sound {
            lemma_descend(start, id, h, hi, key@);
        }
    }
    let up = match delete_rec(pm, child, depth - 1, key, Ghost(hc)) {
        Ok(Some(u)) => u,
        Ok(None) => {
            return Ok(None);
        },
        Err(e) => {
            return Err(e);
        },
    };
    let ghost mid = *pm;
    let ghost upm = up.model();
    proof {
        if sound {
            lemma_planned(start, mid, id, h, hi, key@, node.model(), c as int, upm);
        }
    }
    let run = match plan_run(
        pm,
        &node,
        c,
        up,
        Ghost(start),
        Ghost(id),
        Ghost(h),
        Ghost(hi),
        Ghost(key@),
    ) {
        Ok(x) => x,
        Err(e) => {
            return Err(e);
        },
    };
    if run.parts.len() == 0 {
        match pm.free(child) {
            Ok(()) => {},
            Err(e) => {
                return Err(e);
            },
        }
        let none: Vec<Entry> = Vec::new();
        proof {
            crate::update::lemma_freed(mid, *pm, child);
            lemma_grows_trans(start, mid, *pm);
            assert(models(none@) =~= Seq::<EntryModel>::empty());
            assert(entries_wf(models(none@))) by {
                assert(keys_of(models(none@)).len() == 0);
            }
            if sound {
                lemma_planned_vanished(
                    start,
                    mid,
                    *pm,
                    id,
                    h,
                    hi,
                    key@,
                    node.model(),
                    c as int,
                    upm,
                );
            }
        }
        let new = match rebuild(NodeType::Internal, &none) {
            Ok(x) => x,
            Err(e) => {
                return Err(e);
            },
        };
        return Ok(Some(new));
    }
    proof {
        if sound {
            lemma_planned_applying(
                start,
                mid,
                id,
                h,
                hi,
                key@,
                node.model(),
                c as int,
                upm,
                run.from as int,
                run.to as int,
                run.whole@,
            );
        }
    }
    let new = match apply_run(
        pm,
        &node,
        run,
        Ghost(c as int),
        Ghost(start),
        Ghost(id),
        Ghost(h),
        Ghost(hi),
        Ghost(key@),
    ) {
        Ok(x) => x,
        Err(e) => {
            proof {
                lemma_grows_trans(start, mid, *pm);
            }
            return Err(e);
        },
    };
    proof {
        lemma_grows_trans(start, mid, *pm);
    }
    Ok(Some(new))
}

} // verus!
