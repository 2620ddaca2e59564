//! Node operations: pure functions that build new nodes from old ones.
//!
//! No operation changes a node it is given. Each reads the entries of its
//! inputs, rearranges them, and encodes the result into a fresh buffer.

use crate::error::Error;
use crate::keys::{
    compare_keys, key_le, key_lt, lemma_lt_asymmetric, lemma_lt_irreflexive, lemma_lt_total,
    lemma_lt_transitive, lemma_not_lt, lemma_rank_splits, lemma_rank_unique, lemma_sorted_concat,
    lemma_sorted_insert, lemma_sorted_remove, lemma_sorted_subrange, rank, strictly_sorted,
    KeyOrder,
};
use crate::node::{
    encoded_size, entries_wf, fits, keys_of, lemma_records_size_concat, lemma_records_size_mono,
    lemma_records_size_step, lemma_well_formed_fits, models, record_size, records_size, BNode,
    Entry, EntryModel, NodeModel, NodeType, BTREE_MAX_KEY_SIZE, BTREE_MAX_VAL_SIZE,
    BTREE_PAGE_SIZE, HEADER,
};
use vstd::prelude::*;
use vstd::slice::slice_to_vec;

verus! {

/// Whether `key` is one of `keys`.
pub open spec fn has_key(keys: Seq<Seq<u8>>, key: Seq<u8>) -> bool {
    rank(keys, key) < keys.len() && keys[rank(keys, key)] == key
}

/// The child of an internal node that owns `key`: the last one whose
/// separator is at or before `key`, or the first child when `key` sorts
/// before every separator.
pub open spec fn child_index(keys: Seq<Seq<u8>>, key: Seq<u8>) -> int {
    let r = rank(keys, key);
    if has_key(keys, key) {
        r
    } else if r == 0 {
        0
    } else {
        r - 1
    }
}

/// `es` with `e` put at its sorted position, in place of an entry with the
/// same key if there is one.
pub open spec fn upsert(es: Seq<EntryModel>, e: EntryModel) -> Seq<EntryModel> {
    let r = rank(keys_of(es), e.key);
    if has_key(keys_of(es), e.key) {
        es.update(r, e)
    } else {
        es.insert(r, e)
    }
}

/// `es` without the entry of `key`, if there is one.
pub open spec fn without(es: Seq<EntryModel>, key: Seq<u8>) -> Seq<EntryModel> {
    if has_key(keys_of(es), key) {
        es.remove(rank(keys_of(es), key))
    } else {
        es
    }
}

/// In a sorted sequence a key is present exactly when some slot holds it.
pub proof fn lemma_has_key(keys: Seq<Seq<u8>>, key: Seq<u8>)
    requires
        strictly_sorted(keys),
    ensures
        has_key(keys, key) <==> exists|i: int| 0 <= i < keys.len() && keys[i] == key,
        forall|i: int| 0 <= i < keys.len() && keys[i] == key ==> i == rank(keys, key),
{
    lemma_rank_splits(keys, key);
    let r = rank(keys, key);
    lemma_lt_irreflexive(key);
    assert forall|i: int| 0 <= i < keys.len() && keys[i] == key implies i == r by {
        if i < r {
            assert(key_lt(keys[i], key));
        } else if i > r {
            assert(key_lt(keys[r], keys[i]));
            assert(!key_lt(keys[r], key));
        }
    }
}

/// The child chosen for `key` is the last whose separator is at or before
/// it.
pub proof fn lemma_child_index(keys: Seq<Seq<u8>>, key: Seq<u8>)
    requires
        strictly_sorted(keys),
        keys.len() > 0,
    ensures
        0 <= child_index(keys, key) < keys.len(),
        forall|j: int| child_index(keys, key) < j < keys.len() ==> key_lt(key, #[trigger] keys[j]),
        forall|j: int| 0 <= j <= child_index(keys, key) && key_le(keys[0], key) ==> key_le(
            #[trigger] keys[j],
            key,
        ),
        !key_le(keys[0], key) ==> child_index(keys, key) == 0,
{
    lemma_rank_splits(keys, key);
    let r = rank(keys, key);
    let c = child_index(keys, key);
    assert forall|j: int| c < j < keys.len() implies key_lt(key, #[trigger] keys[j]) by {
        lemma_not_lt(keys[j], key);
        if has_key(keys, key) {
            assert(key_lt(keys[r], keys[j]));
        } else {
            assert(!key_lt(keys[j], key));
            if keys[j] == key {
                assert(j >= r);
                if j > r {
                    assert(key_lt(keys[r], keys[j]));
                    assert(!key_lt(keys[r], key));
                }
            }
        }
    }
    assert forall|j: int| 0 <= j <= c && key_le(keys[0], key) implies key_le(
        #[trigger] keys[j],
        key,
    ) by {
        if j < r {
            assert(key_lt(keys[j], key));
        }
    }
    lemma_not_lt(keys[0], key);
    if !key_le(keys[0], key) {
        lemma_lt_asymmetric(key, keys[0]);
        if r > 0 {
            assert(key_lt(keys[0], key));
        }
    }
}

/// The position of `key` among the keys of `node`: how many keys sort
/// before it, and whether the key at that position is `key` itself.
pub fn search(node: &BNode, key: &[u8]) -> (r: (u16, bool))
    requires
        node.valid(),
    ensures
        r.0 as int == rank(keys_of(node.model().entries), key@),
        r.1 == has_key(keys_of(node.model().entries), key@),
{
    let ghost keys = keys_of(node.model().entries);
    let n = node.key_count();
    let mut lo: u16 = 0;
    let mut hi: u16 = n;
    while lo < hi
        invariant
            node.valid(),
            keys == keys_of(node.model().entries),
            n as int == keys.len(),
            lo <= hi <= n,
            forall|j: int| 0 <= j < lo ==> key_lt(#[trigger] keys[j], key@),
            forall|j: int| hi <= j < n ==> !key_lt(#[trigger] keys[j], key@),
        decreases hi - lo,
    {
        let mid: u16 = lo + (hi - lo) / 2;
        let probe = node.key_at(mid);
        assert(probe@ == keys[mid as int]);
        match compare_keys(probe, key) {
            KeyOrder::Before => {
                proof {
                    assert forall|j: int| 0 <= j < mid + 1 implies key_lt(
                        #[trigger] keys[j],
                        key@,
                    ) by {
                        if j < mid {
                            assert(key_lt(keys[j], keys[mid as int]));
                            lemma_lt_transitive(keys[j], keys[mid as int], key@);
                        }
                    }
                }
                lo = mid + 1;
            },
            _ => {
                proof {
                    assert forall|j: int| mid <= j < n implies !key_lt(#[trigger] keys[j], key@) by {
                        if j > mid && key_lt(keys[j], key@) {
                            assert(key_lt(keys[mid as int], keys[j]));
                            lemma_lt_transitive(keys[mid as int], keys[j], key@);
                        }
                    }
                }
                hi = mid;
            },
        }
    }
    proof {
        lemma_rank_unique(keys, key@, lo as int);
    }
    if lo < n {
        let at = node.key_at(lo);
        match compare_keys(at, key) {
            KeyOrder::Same => (lo, true),
            _ => (lo, false),
        }
    } else {
        (lo, false)
    }
}

/// What a lookup in one node gives.
#[derive(Debug)]
pub enum Lookup {
    /// The node is internal; the search goes on in this child.
    Child { index: u16, page: u64 },
    /// The node is a leaf and holds the key with this value.
    Value(Vec<u8>),
    /// The node is a leaf and does not hold the key.
    Absent,
}

/// What `lookup_child` gives on a node holding `m`.
pub open spec fn lookup_spec(m: NodeModel, key: Seq<u8>, r: Lookup) -> bool {
    let keys = keys_of(m.entries);
    if m.leaf {
        if has_key(keys, key) {
            r matches Lookup::Value(v) && v@ == m.entries[rank(keys, key)].val
        } else {
            r is Absent
        }
    } else {
        r matches Lookup::Child { index, page } && index as int == child_index(keys, key) && page
            == m.entries[child_index(keys, key)].ptr
    }
}

/// Looks `key` up in one node. In an internal node the result names the
/// child that owns the key's range; in a leaf it is the key's value, or
/// `Absent`.
pub fn lookup_child(node: &BNode, key: &[u8]) -> (r: Lookup)
    requires
        node.valid(),
        !node.model().leaf ==> node.model().entries.len() > 0,
    ensures
        lookup_spec(node.model(), key@, r),
{
    let (pos, found) = search(node, key);
    proof {
        lemma_rank_splits(keys_of(node.model().entries), key@);
    }
    match node.node_type() {
        NodeType::Leaf => {
            if found {
                Lookup::Value(slice_to_vec(node.value_at(pos)))
            } else {
                Lookup::Absent
            }
        },
        NodeType::Internal => {
            let index: u16 = if found || pos == 0 {
                pos
            } else {
                pos - 1
            };
            Lookup::Child { index, page: node.child_pointer(index) }
        },
    }
}

/// Putting an entry in adds its record.
pub proof fn lemma_size_insert(es: Seq<EntryModel>, i: int, e: EntryModel)
    requires
        0 <= i <= es.len(),
    ensures
        records_size(es.insert(i, e)) == records_size(es) + record_size(e),
        encoded_size(es.insert(i, e)) == encoded_size(es) + 10 + record_size(e),
{
    let one = seq![e];
    assert(one.drop_last().len() == 0);
    assert(records_size(one.drop_last()) == 0);
    assert(one.last() == e);
    assert(records_size(one) == record_size(e));
    assert(es.insert(i, e) =~= es.take(i) + one + es.skip(i));
    assert(es =~= es.take(i) + es.skip(i));
    lemma_records_size_concat(es.take(i), es.skip(i));
    lemma_records_size_concat(es.take(i), one);
    lemma_records_size_concat(es.take(i) + one, es.skip(i));
}

/// Taking an entry out removes its record.
pub proof fn lemma_size_remove(es: Seq<EntryModel>, i: int)
    requires
        0 <= i < es.len(),
    ensures
        records_size(es.remove(i)) == records_size(es) - record_size(es[i]),
        encoded_size(es.remove(i)) == encoded_size(es) - 10 - record_size(es[i]),
{
    lemma_size_insert(es.remove(i), i, es[i]);
    assert(es.remove(i).insert(i, es[i]) =~= es);
}

/// The node holding two sequences joined is as large as both nodes less
/// one header.
pub proof fn lemma_size_concat(a: Seq<EntryModel>, b: Seq<EntryModel>)
    ensures
        encoded_size(a + b) == encoded_size(a) + encoded_size(b) - 4,
        encoded_size(a) >= 4,
{
    lemma_records_size_concat(a, b);
}

/// An entry put at its sorted position keeps the entries sound.
pub proof fn lemma_upsert(es: Seq<EntryModel>, e: EntryModel)
    requires
        entries_wf(es),
        e.key.len() <= BTREE_MAX_KEY_SIZE,
        e.val.len() <= BTREE_MAX_VAL_SIZE,
    ensures
        entries_wf(upsert(es, e)),
        encoded_size(upsert(es, e)) <= encoded_size(es) + 10 + record_size(e),
        1 <= upsert(es, e).len() <= es.len() + 1,
{
    let keys = keys_of(es);
    let r = rank(keys, e.key);
    let out = upsert(es, e);
    lemma_rank_splits(keys, e.key);
    if has_key(keys, e.key) {
        assert(keys_of(out) =~= keys);
        lemma_size_remove(es, r);
        lemma_size_insert(es.remove(r), r, e);
        assert(es.remove(r).insert(r, e) =~= out);
    } else {
        if r < keys.len() {
            lemma_lt_total(e.key, keys[r]);
        }
        lemma_sorted_insert(keys, r, e.key);
        assert(keys_of(out) =~= keys.insert(r, e.key));
        lemma_size_insert(es, r, e);
    }
    assert forall|i: int| 0 <= i < out.len() implies (#[trigger] out[i]).key.len()
        <= BTREE_MAX_KEY_SIZE && out[i].val.len() <= BTREE_MAX_VAL_SIZE by {
        if out[i] != e {
            if has_key(keys, e.key) {
                assert(out[i] == es[i]);
            } else if i < r {
                assert(out[i] == es[i]);
            } else {
                assert(out[i] == es[i - 1]);
            }
        }
    }
}

/// Taking an entry out keeps the entries sound.
pub proof fn lemma_remove_wf(es: Seq<EntryModel>, i: int)
    requires
        entries_wf(es),
        0 <= i < es.len(),
    ensures
        entries_wf(es.remove(i)),
        encoded_size(es.remove(i)) <= encoded_size(es),
{
    lemma_sorted_remove(keys_of(es), i);
    assert(keys_of(es.remove(i)) =~= keys_of(es).remove(i));
    lemma_size_remove(es, i);
    let out = es.remove(i);
    assert forall|j: int| 0 <= j < out.len() implies (#[trigger] out[j]).key.len()
        <= BTREE_MAX_KEY_SIZE && out[j].val.len() <= BTREE_MAX_VAL_SIZE by {
        if j < i {
            assert(out[j] == es[j]);
        } else {
            assert(out[j] == es[j + 1]);
        }
    }
}

/// A separator put between its neighbours keeps the entries sound.
pub proof fn lemma_insert_wf(es: Seq<EntryModel>, i: int, e: EntryModel)
    requires
        entries_wf(es),
        0 <= i <= es.len(),
        e.key.len() <= BTREE_MAX_KEY_SIZE,
        e.val.len() <= BTREE_MAX_VAL_SIZE,
        i > 0 ==> key_lt(es[i - 1].key, e.key),
        i < es.len() ==> key_lt(e.key, es[i].key),
    ensures
        entries_wf(es.insert(i, e)),
{
    let keys = keys_of(es);
    lemma_sorted_insert(keys, i, e.key);
    let out = es.insert(i, e);
    assert(keys_of(out) =~= keys.insert(i, e.key));
    assert forall|j: int| 0 <= j < out.len() implies (#[trigger] out[j]).key.len()
        <= BTREE_MAX_KEY_SIZE && out[j].val.len() <= BTREE_MAX_VAL_SIZE by {
        if j < i {
            assert(out[j] == es[j]);
        } else if j > i {
            assert(out[j] == es[j - 1]);
        }
    }
}

/// A separator replaced by one that fits between its neighbours keeps the
/// entries sound.
pub proof fn lemma_update_wf(es: Seq<EntryModel>, i: int, e: EntryModel)
    requires
        entries_wf(es),
        0 <= i < es.len(),
        e.key.len() <= BTREE_MAX_KEY_SIZE,
        e.val.len() <= BTREE_MAX_VAL_SIZE,
        i > 0 ==> key_lt(es[i - 1].key, e.key),
        i + 1 < es.len() ==> key_lt(e.key, es[i + 1].key),
    ensures
        entries_wf(es.update(i, e)),
        encoded_size(es.update(i, e)) == encoded_size(es) - record_size(es[i]) + record_size(e),
{
    lemma_remove_wf(es, i);
    let rest = es.remove(i);
    if i > 0 {
        assert(rest[i - 1] == es[i - 1]);
    }
    if i < rest.len() {
        assert(rest[i] == es[i + 1]);
    }
    lemma_insert_wf(rest, i, e);
    assert(rest.insert(i, e) =~= es.update(i, e));
    lemma_size_remove(es, i);
    lemma_size_insert(rest, i, e);
}

/// The smaller of two keys.
pub open spec fn min_key(a: Seq<u8>, b: Seq<u8>) -> Seq<u8> {
    if key_lt(a, b) {
        a
    } else {
        b
    }
}

/// The value a leaf holding `es` has for `key`, if any.
pub open spec fn leaf_get(es: Seq<EntryModel>, key: Seq<u8>) -> Option<Seq<u8>> {
    if has_key(keys_of(es), key) {
        Some(es[rank(keys_of(es), key)].val)
    } else {
        None
    }
}

/// After an entry is put in, its key has its value and every other key
/// has the value it had.
pub proof fn lemma_upsert_get(es: Seq<EntryModel>, e: EntryModel, key: Seq<u8>)
    requires
        entries_wf(es),
        e.key.len() <= BTREE_MAX_KEY_SIZE,
        e.val.len() <= BTREE_MAX_VAL_SIZE,
    ensures
        leaf_get(upsert(es, e), key) == if key == e.key {
            Some(e.val)
        } else {
            leaf_get(es, key)
        },
{
    let keys = keys_of(es);
    let out = upsert(es, e);
    let okeys = keys_of(out);
    let r = rank(keys, e.key);
    lemma_upsert(es, e);
    lemma_rank_splits(keys, e.key);
    lemma_has_key(keys, key);
    lemma_has_key(okeys, key);
    lemma_has_key(keys, e.key);
    if has_key(keys, e.key) {
        assert(okeys =~= keys);
        if key != e.key && has_key(keys, key) {
            assert(out[rank(keys, key)] == es[rank(keys, key)]);
        }
    } else {
        assert(okeys =~= keys.insert(r, e.key));
        if key == e.key {
            assert(okeys[r] == key);
        } else {
            if has_key(keys, key) {
                let q = rank(keys, key);
                let q2 = if q < r {
                    q
                } else {
                    q + 1
                };
                assert(okeys[q2] == key);
                assert(out[q2] == es[q]);
            }
            if has_key(okeys, key) {
                let q2 = rank(okeys, key);
                let q = if q2 < r {
                    q2
                } else {
                    q2 - 1
                };
                assert(keys[q] == key);
            }
        }
    }
}

/// After an entry is put in, the first key is the smaller of its key and
/// the old first key, and every key is its key or an old key.
pub proof fn lemma_upsert_ends(es: Seq<EntryModel>, e: EntryModel)
    requires
        entries_wf(es),
        es.len() > 0,
    ensures
        upsert(es, e).len() > 0,
        upsert(es, e)[0].key == min_key(e.key, es[0].key),
        upsert(es, e).last().key == e.key || upsert(es, e).last().key == es.last().key,
{
    let keys = keys_of(es);
    let r = rank(keys, e.key);
    lemma_rank_splits(keys, e.key);
    lemma_lt_irreflexive(e.key);
    if has_key(keys, e.key) {
        if r > 0 {
            assert(key_lt(keys[0], keys[r]));
            lemma_lt_asymmetric(keys[0], keys[r]);
        }
    } else {
        if r == 0 {
            lemma_lt_total(e.key, keys[0]);
        } else {
            assert(key_lt(keys[0], e.key));
            lemma_lt_asymmetric(keys[0], e.key);
        }
    }
}

/// After an entry is taken out, its key is gone and every other key has
/// the value it had.
pub proof fn lemma_without_get(es: Seq<EntryModel>, gone: Seq<u8>, key: Seq<u8>)
    requires
        entries_wf(es),
    ensures
        leaf_get(without(es, gone), key) == if key == gone {
            None
        } else {
            leaf_get(es, key)
        },
{
    let keys = keys_of(es);
    let out = without(es, gone);
    let okeys = keys_of(out);
    let r = rank(keys, gone);
    lemma_rank_splits(keys, gone);
    lemma_has_key(keys, key);
    lemma_has_key(keys, gone);
    if has_key(keys, gone) {
        lemma_remove_wf(es, r);
        assert(okeys =~= keys.remove(r));
        lemma_has_key(okeys, key);
        if has_key(okeys, key) {
            let q2 = rank(okeys, key);
            let q = if q2 < r {
                q2
            } else {
                q2 + 1
            };
            assert(keys[q] == key);
            assert(out[q2] == es[q]);
            if key == gone {
                assert(q == r);
            }
        }
        if key != gone && has_key(keys, key) {
            let q = rank(keys, key);
            let q2 = if q < r {
                q
            } else {
                q - 1
            };
            assert(okeys[q2] == key);
        }
    } else {
        lemma_lt_irreflexive(key);
    }
}

/// After an entry is taken out, every entry left is one that was there,
/// and the first key is no earlier than it was.
pub proof fn lemma_without_ends(es: Seq<EntryModel>, gone: Seq<u8>)
    requires
        entries_wf(es),
        es.len() > 0,
    ensures
        entries_wf(without(es, gone)),
        encoded_size(without(es, gone)) <= encoded_size(es),
        without(es, gone).len() > 0 ==> key_le(es[0].key, without(es, gone)[0].key) && key_le(
            without(es, gone).last().key,
            es.last().key,
        ),
{
    let keys = keys_of(es);
    let r = rank(keys, gone);
    lemma_rank_splits(keys, gone);
    if has_key(keys, gone) {
        lemma_remove_wf(es, r);
        let out = es.remove(r);
        if out.len() > 0 {
            if r == 0 {
                assert(out[0] == es[1]);
                assert(key_lt(keys[0], keys[1]));
            } else {
                assert(out[0] == es[0]);
            }
            if r == es.len() - 1 {
                assert(out.last() == es[es.len() - 2]);
                assert(key_lt(keys[es.len() - 2], keys[es.len() - 1]));
            } else {
                assert(out.last() == es.last());
            }
        }
    }
}

/// Encodes entries known to be sound and to fit the format's fields.
fn encode(kind: NodeType, es: &Vec<Entry>) -> (node: BNode)
    requires
        entries_wf(models(es@)),
        fits(models(es@)),
    ensures
        node.valid(),
        node.model() == (NodeModel { leaf: kind == NodeType::Leaf, entries: models(es@) }),
        node@.len() == encoded_size(models(es@)),
{
    match BNode::build(kind, es) {
        Some(node) => node,
        None => {
            proof {
                assert(false);
            }
            BNode::from_bytes(Vec::new())
        },
    }
}

/// A new leaf with `key` bound to `val`: inserted at its sorted position,
/// or replacing the value the key had. Keys and values over the size limits
/// are refused.
pub fn insert_leaf(node: &BNode, key: &[u8], val: &[u8]) -> (r: Result<BNode, Error>)
    requires
        node.valid(),
        node.model().leaf,
        encoded_size(node.model().entries) <= BTREE_PAGE_SIZE,
    ensures
        key@.len() > BTREE_MAX_KEY_SIZE ==> r == Err::<BNode, Error>(Error::KeyTooLarge),
        key@.len() <= BTREE_MAX_KEY_SIZE && val@.len() > BTREE_MAX_VAL_SIZE ==> r == Err::<
            BNode,
            Error,
        >(Error::ValueTooLarge),
        key@.len() <= BTREE_MAX_KEY_SIZE && val@.len() <= BTREE_MAX_VAL_SIZE ==> r is Ok,
        r matches Ok(new) ==> {
            &&& new.valid()
            &&& new.model() == (NodeModel {
                leaf: true,
                entries: upsert(node.model().entries, EntryModel { ptr: 0, key: key@, val: val@ }),
            })
            &&& new@.len() == encoded_size(new.model().entries)
        },
{
    if key.len() > BTREE_MAX_KEY_SIZE {
        return Err(Error::KeyTooLarge);
    }
    if val.len() > BTREE_MAX_VAL_SIZE {
        return Err(Error::ValueTooLarge);
    }
    let ghost old_es = node.model().entries;
    let ghost e = EntryModel { ptr: 0, key: key@, val: val@ };
    let (pos, found) = search(node, key);
    let mut es = node.entries();
    proof {
        lemma_rank_splits(keys_of(old_es), key@);
        lemma_upsert(old_es, e);
        lemma_well_formed_fits(node@);
    }
    if found {
        let _ = es.remove(pos as usize);
    }
    es.insert(pos as usize, Entry { ptr: 0, key: slice_to_vec(key), val: slice_to_vec(val) });
    proof {
        if found {
            assert(old_es.remove(pos as int).insert(pos as int, e) =~= old_es.update(
                pos as int,
                e,
            ));
        }
        assert(models(es@) =~= upsert(old_es, e));
    }
    Ok(encode(NodeType::Leaf, &es))
}

/// A new leaf without `key`, and whether the key was there. When it was
/// not, the result is a copy of the node, byte for byte.
pub fn remove_leaf(node: &BNode, key: &[u8]) -> (r: (BNode, bool))
    requires
        node.valid(),
        node.model().leaf,
    ensures
        r.1 == has_key(keys_of(node.model().entries), key@),
        r.0.valid(),
        r.0.model() == (NodeModel { leaf: true, entries: without(node.model().entries, key@) }),
        !r.1 ==> r.0@ == node@,
        r.1 ==> r.0@.len() == encoded_size(r.0.model().entries),
{
    let ghost old_es = node.model().entries;
    let (pos, found) = search(node, key);
    if !found {
        return (BNode::from_bytes(slice_to_vec(node.as_bytes())), false);
    }
    let mut es = node.entries();
    proof {
        lemma_rank_splits(keys_of(old_es), key@);
        lemma_remove_wf(old_es, pos as int);
        lemma_well_formed_fits(node@);
        lemma_size_remove(old_es, pos as int);
    }
    let _ = es.remove(pos as usize);
    proof {
        assert(models(es@) =~= old_es.remove(pos as int));
    }
    (encode(NodeType::Leaf, &es), true)
}

/// The entry an internal node keeps for a child: its separator key and its
/// page number.
pub open spec fn child_entry(key: Seq<u8>, child: u64) -> EntryModel {
    EntryModel { ptr: child, key, val: Seq::empty() }
}

/// A new internal node in which slot `index` names `child` under the
/// separator `key`.
pub fn replace_child_pointer(node: &BNode, index: u16, key: &[u8], child: u64) -> (new: BNode)
    requires
        node.valid(),
        !node.model().leaf,
        encoded_size(node.model().entries) <= 2 * BTREE_PAGE_SIZE,
        index < node.model().entries.len(),
        key@.len() <= BTREE_MAX_KEY_SIZE,
        index > 0 ==> key_lt(node.model().entries[index - 1].key, key@),
        index + 1 < node.model().entries.len() ==> key_lt(
            key@,
            node.model().entries[index + 1].key,
        ),
    ensures
        new.valid(),
        new.model() == (NodeModel {
            leaf: false,
            entries: node.model().entries.update(index as int, child_entry(key@, child)),
        }),
        new@.len() == encoded_size(new.model().entries),
{
    let ghost old_es = node.model().entries;
    let ghost e = child_entry(key@, child);
    let mut es = node.entries();
    proof {
        lemma_update_wf(old_es, index as int, e);
        lemma_well_formed_fits(node@);
    }
    let _ = es.remove(index as usize);
    es.insert(index as usize, Entry { ptr: child, key: slice_to_vec(key), val: Vec::new() });
    proof {
        assert(models(es@) =~= old_es.update(index as int, e));
    }
    encode(NodeType::Internal, &es)
}

/// A new internal node with the separator `key` and the page number
/// `child` inserted as slot `index`.
pub fn insert_child_pointer(node: &BNode, index: u16, key: &[u8], child: u64) -> (new: BNode)
    requires
        node.valid(),
        !node.model().leaf,
        encoded_size(node.model().entries) <= 2 * BTREE_PAGE_SIZE,
        index <= node.model().entries.len(),
        key@.len() <= BTREE_MAX_KEY_SIZE,
        index > 0 ==> key_lt(node.model().entries[index - 1].key, key@),
        index < node.model().entries.len() ==> key_lt(key@, node.model().entries[index as int].key),
    ensures
        new.valid(),
        new.model() == (NodeModel {
            leaf: false,
            entries: node.model().entries.insert(index as int, child_entry(key@, child)),
        }),
        new@.len() == encoded_size(new.model().entries),
{
    let ghost old_es = node.model().entries;
    let ghost e = child_entry(key@, child);
    let mut es = node.entries();
    proof {
        lemma_insert_wf(old_es, index as int, e);
        lemma_size_insert(old_es, index as int, e);
        lemma_well_formed_fits(node@);
    }
    es.insert(index as usize, Entry { ptr: child, key: slice_to_vec(key), val: Vec::new() });
    proof {
        assert(models(es@) =~= old_es.insert(index as int, e));
    }
    encode(NodeType::Internal, &es)
}

/// A node smaller than this after a delete looks for a sibling to merge
/// with: a quarter of a page.
pub const LOW_WATER: usize = 1024;

/// The largest node `split_if_oversized` accepts: any node that held a
/// page's worth before one insert is within it.
pub const SPLIT_MAX: usize = 8188;

/// A contiguous part of sound entries is sound, and no larger.
pub proof fn lemma_subrange_wf(es: Seq<EntryModel>, from: int, to: int)
    requires
        entries_wf(es),
        0 <= from <= to <= es.len(),
    ensures
        entries_wf(es.subrange(from, to)),
        encoded_size(es.subrange(from, to)) <= encoded_size(es),
        records_size(es.subrange(from, to)) <= records_size(es),
{
    lemma_sorted_subrange(keys_of(es), from, to);
    let out = es.subrange(from, to);
    assert(keys_of(out) =~= keys_of(es).subrange(from, to));
    assert forall|j: int| 0 <= j < out.len() implies (#[trigger] out[j]).key.len()
        <= BTREE_MAX_KEY_SIZE && out[j].val.len() <= BTREE_MAX_VAL_SIZE by {
        assert(out[j] == es[j + from]);
    }
    let a = es.subrange(0, from);
    let c = es.subrange(to, es.len() as int);
    assert(es =~= a + out + c);
    lemma_records_size_concat(a, out);
    lemma_records_size_concat(a + out, c);
    lemma_records_size_concat(c, c);
}

/// Two runs of sound entries, the first ending before the second begins,
/// are sound when joined.
pub proof fn lemma_concat_wf(a: Seq<EntryModel>, b: Seq<EntryModel>)
    requires
        entries_wf(a),
        entries_wf(b),
        a.len() > 0 && b.len() > 0 ==> key_lt(a.last().key, b[0].key),
    ensures
        entries_wf(a + b),
        encoded_size(a + b) == encoded_size(a) + encoded_size(b) - 4,
{
    lemma_sorted_concat(keys_of(a), keys_of(b));
    let out = a + b;
    assert(keys_of(out) =~= keys_of(a) + keys_of(b));
    assert forall|j: int| 0 <= j < out.len() implies (#[trigger] out[j]).key.len()
        <= BTREE_MAX_KEY_SIZE && out[j].val.len() <= BTREE_MAX_VAL_SIZE by {
        if j < a.len() {
            assert(out[j] == a[j]);
        } else {
            assert(out[j] == b[j - a.len()]);
        }
    }
    lemma_size_concat(a, b);
}

/// How many entries at the front of `es` fit a page together.
pub open spec fn fit_prefix(es: Seq<EntryModel>) -> int
    decreases es.len(),
{
    if encoded_size(es) <= BTREE_PAGE_SIZE || es.len() == 0 {
        es.len() as int
    } else {
        fit_prefix(es.drop_last())
    }
}

/// A longer prefix makes a larger node.
pub proof fn lemma_prefix_size_mono(es: Seq<EntryModel>, i: int, j: int)
    requires
        0 <= i <= j <= es.len(),
    ensures
        4 <= encoded_size(es.take(i)) <= encoded_size(es.take(j)),
        encoded_size(es.take(es.len() as int)) == encoded_size(es),
{
    lemma_records_size_mono(es, i, j);
    assert(es.take(es.len() as int) =~= es);
}

/// `fit_prefix` is the longest prefix that fits a page.
pub proof fn lemma_fit_prefix(es: Seq<EntryModel>)
    ensures
        0 <= fit_prefix(es) <= es.len(),
        encoded_size(es.take(fit_prefix(es))) <= BTREE_PAGE_SIZE,
        fit_prefix(es) < es.len() ==> encoded_size(es.take(fit_prefix(es) + 1)) > BTREE_PAGE_SIZE,
        fit_prefix(es) == es.len() <==> encoded_size(es) <= BTREE_PAGE_SIZE,
    decreases es.len(),
{
    let n = es.len() as int;
    assert(es.take(n) =~= es);
    if encoded_size(es) <= BTREE_PAGE_SIZE || n == 0 {
        assert(es.take(0).len() == 0);
    } else {
        let dl = es.drop_last();
        lemma_fit_prefix(dl);
        let a = fit_prefix(dl);
        assert(dl.take(a) =~= es.take(a));
        if a < n - 1 {
            assert(dl.take(a + 1) =~= es.take(a + 1));
        }
    }
}

/// A prefix that fits, and that one more entry would overfill, is the
/// longest one.
pub proof fn lemma_fit_prefix_unique(es: Seq<EntryModel>, a: int)
    requires
        0 <= a <= es.len(),
        encoded_size(es.take(a)) <= BTREE_PAGE_SIZE,
        a < es.len() ==> encoded_size(es.take(a + 1)) > BTREE_PAGE_SIZE,
    ensures
        fit_prefix(es) == a,
{
    lemma_fit_prefix(es);
    let f = fit_prefix(es);
    if f < a {
        lemma_prefix_size_mono(es, f + 1, a);
    } else if a < f {
        lemma_prefix_size_mono(es, a + 1, f);
    }
}

/// How many entries at the front of `es` it takes to hold half of `total`
/// bytes: the fewest whose node is at least half as large.
pub open spec fn half_prefix(es: Seq<EntryModel>, total: int) -> int
    decreases es.len(),
{
    if es.len() == 0 {
        0
    } else if 2 * encoded_size(es.drop_last()) >= total {
        half_prefix(es.drop_last(), total)
    } else {
        es.len() as int
    }
}

/// `half_prefix` is the shortest prefix at least half as large as
/// `total`, or all entries if there is none.
pub proof fn lemma_half_prefix(es: Seq<EntryModel>, total: int)
    ensures
        0 <= half_prefix(es, total) <= es.len(),
        half_prefix(es, total) > 0 ==> 2 * encoded_size(es.take(half_prefix(es, total) - 1))
            < total,
        half_prefix(es, total) < es.len() ==> 2 * encoded_size(es.take(half_prefix(es, total)))
            >= total,
    decreases es.len(),
{
    let n = es.len() as int;
    if n > 0 {
        let dl = es.drop_last();
        assert(es.take(n - 1) =~= dl);
        if 2 * encoded_size(dl) >= total {
            lemma_half_prefix(dl, total);
            let a = half_prefix(dl, total);
            if a > 0 {
                assert(dl.take(a - 1) =~= es.take(a - 1));
            }
            if a < n - 1 {
                assert(dl.take(a) =~= es.take(a));
            }
        }
    }
}

/// A prefix at least half as large as `total`, with the one before it
/// smaller, is the shortest such.
pub proof fn lemma_half_prefix_unique(es: Seq<EntryModel>, total: int, a: int)
    requires
        0 <= a <= es.len(),
        a > 0 ==> 2 * encoded_size(es.take(a - 1)) < total,
        a < es.len() ==> 2 * encoded_size(es.take(a)) >= total,
    ensures
        half_prefix(es, total) == a,
{
    lemma_half_prefix(es, total);
    let f = half_prefix(es, total);
    if f < a {
        lemma_prefix_size_mono(es, f, a - 1);
    } else if a < f {
        lemma_prefix_size_mono(es, a, f - 1);
    }
}

/// Where a split cuts first: all entries if they fit a page; else after
/// the shortest prefix that holds half of the bytes, or after the longest
/// prefix that fits a page if that is shorter.
#[verifier::opaque]
pub open spec fn first_cut(es: Seq<EntryModel>) -> int {
    let fit = fit_prefix(es);
    let half = half_prefix(es, encoded_size(es));
    if fit < es.len() && 1 <= half < fit {
        half
    } else {
        fit
    }
}

/// The first cut leaves a first part that is not empty and fits a page,
/// and either no longer prefix fits or the part holds half of the bytes.
pub proof fn lemma_first_cut(es: Seq<EntryModel>)
    requires
        entries_wf(es),
    ensures
        0 <= first_cut(es) <= es.len(),
        encoded_size(es) <= BTREE_PAGE_SIZE ==> first_cut(es) == es.len(),
        encoded_size(es) > BTREE_PAGE_SIZE ==> 1 <= first_cut(es) < es.len(),
        encoded_size(es.take(first_cut(es))) <= BTREE_PAGE_SIZE,
        first_cut(es) < es.len() ==> encoded_size(es.take(first_cut(es) + 1)) > BTREE_PAGE_SIZE
            || 2 * encoded_size(es.take(first_cut(es))) >= encoded_size(es),
{
    reveal(first_cut);
    lemma_fit_prefix(es);
    if es.len() > 0 {
        lemma_first_fits(es);
    } else {
        assert(es.take(0) =~= es);
    }
    lemma_half_prefix(es, encoded_size(es));
    let fit = fit_prefix(es);
    let half = half_prefix(es, encoded_size(es));
    if fit < es.len() && 1 <= half < fit {
        lemma_prefix_size_mono(es, half, fit);
    }
}

/// The entries of the nodes a split makes: the entries up to the first
/// cut, then the longest prefix of what is left that fits a page, then
/// the rest.
pub open spec fn split_parts(es: Seq<EntryModel>) -> Seq<Seq<EntryModel>> {
    let a = first_cut(es);
    if a == es.len() {
        seq![es]
    } else {
        let rest = es.skip(a);
        let b = fit_prefix(rest);
        if b == rest.len() {
            seq![es.take(a), rest]
        } else {
            seq![es.take(a), rest.take(b), rest.skip(b)]
        }
    }
}

/// The parts joined in order.
pub open spec fn joined(parts: Seq<Seq<EntryModel>>) -> Seq<EntryModel>
    decreases parts.len(),
{
    if parts.len() == 0 {
        Seq::empty()
    } else {
        joined(parts.drop_last()) + parts.last()
    }
}

/// How many entries the first `j` parts hold together.
pub open spec fn cut_at(parts: Seq<Seq<EntryModel>>, j: int) -> int
    decreases j,
{
    if j <= 0 {
        0
    } else {
        cut_at(parts, j - 1) + parts[j - 1].len()
    }
}

/// A single sound entry fits a page with room to spare.
proof fn lemma_first_fits(es: Seq<EntryModel>)
    requires
        entries_wf(es),
        es.len() > 0,
    ensures
        encoded_size(es.take(1)) <= BTREE_PAGE_SIZE,
        fit_prefix(es) >= 1,
{
    assert(es.take(0).len() == 0);
    lemma_records_size_step(es, 0);
    assert(es[0].key.len() <= BTREE_MAX_KEY_SIZE);
    lemma_fit_prefix(es);
    if fit_prefix(es) == 0 {
        assert(encoded_size(es.take(1)) > BTREE_PAGE_SIZE);
    }
}

/// After a first cut that leaves no longer prefix fitting a page, or that
/// cuts off half of the bytes, and a second cut, what is left fits a page.
proof fn lemma_rest_fits(es: Seq<EntryModel>, a: int, b: int)
    requires
        encoded_size(es) <= SPLIT_MAX,
        1 <= a < es.len(),
        encoded_size(es.take(a + 1)) > BTREE_PAGE_SIZE || 2 * encoded_size(es.take(a))
            >= encoded_size(es),
        1 <= b < es.len() - a,
    ensures
        encoded_size(es.skip(a).skip(b)) <= BTREE_PAGE_SIZE,
{
    let p1 = es.take(a);
    let rest = es.skip(a);
    let p2 = rest.take(b);
    let p3 = rest.skip(b);
    assert(p1 + rest =~= es);
    assert(p2 + p3 =~= rest);
    assert(p1 + p2 =~= es.take(a + b));
    lemma_size_concat(p1, rest);
    lemma_size_concat(p2, p3);
    lemma_size_concat(p1, p2);
    lemma_prefix_size_mono(es, a + 1, a + b);
    lemma_prefix_size_mono(rest, 1, b);
    assert(rest.take(0).len() == 0);
    lemma_records_size_step(rest, 0);
}

/// What a split makes of sound entries no larger than `SPLIT_MAX`: one to
/// three parts, one exactly when the entries fit a page; each part sound
/// and no larger than a page; no part empty unless the entries are; the
/// parts joined are the entries.
pub proof fn lemma_split_parts(es: Seq<EntryModel>)
    requires
        entries_wf(es),
        encoded_size(es) <= SPLIT_MAX,
    ensures
        1 <= split_parts(es).len() <= 3,
        split_parts(es).len() == 1 <==> encoded_size(es) <= BTREE_PAGE_SIZE,
        joined(split_parts(es)) == es,
        forall|i: int|
            0 <= i < split_parts(es).len() ==> entries_wf(#[trigger] split_parts(es)[i])
                && encoded_size(split_parts(es)[i]) <= BTREE_PAGE_SIZE,
        es.len() > 0 ==> forall|i: int|
            0 <= i < split_parts(es).len() ==> (#[trigger] split_parts(es)[i]).len() > 0,
{
    let n = es.len() as int;
    let parts = split_parts(es);
    let a = first_cut(es);
    reveal_with_fuel(joined, 4);
    lemma_first_cut(es);
    if a == n {
        assert(es.take(n) =~= es);
        assert(joined(parts) =~= es);
    } else {
        let p1 = es.take(a);
        let rest = es.skip(a);
        lemma_subrange_wf(es, 0, a);
        lemma_subrange_wf(es, a, n);
        assert(rest =~= es.subrange(a, n));
        assert(p1 =~= es.subrange(0, a));
        let b = fit_prefix(rest);
        lemma_fit_prefix(rest);
        lemma_first_fits(rest);
        let m = rest.len() as int;
        assert(rest.take(m) =~= rest);
        if b == m {
            assert(parts =~= seq![p1, rest]);
            assert(joined(parts) =~= es);
        } else {
            let p2 = rest.take(b);
            let p3 = rest.skip(b);
            lemma_subrange_wf(rest, 0, b);
            lemma_subrange_wf(rest, b, m);
            assert(p2 =~= rest.subrange(0, b));
            assert(p3 =~= rest.subrange(b, m));
            assert(encoded_size(p3) <= BTREE_PAGE_SIZE) by {
                lemma_rest_fits(es, a, b);
            }
            assert(parts =~= seq![p1, p2, p3]);
            assert(joined(parts) =~= es);
        }
    }
}

/// Each part a split makes is a run of the entries, one after the other,
/// and none is empty.
pub proof fn lemma_split_cuts(es: Seq<EntryModel>)
    requires
        entries_wf(es),
        encoded_size(es) <= SPLIT_MAX,
        es.len() > 0,
    ensures
        forall|j: int|
            0 <= j < split_parts(es).len() ==> #[trigger] split_parts(es)[j] == es.subrange(
                cut_at(split_parts(es), j),
                cut_at(split_parts(es), j + 1),
            ) && 0 <= cut_at(split_parts(es), j) < cut_at(split_parts(es), j + 1) <= es.len(),
        cut_at(split_parts(es), split_parts(es).len() as int) == es.len(),
        cut_at(split_parts(es), 0) == 0,
        forall|i: int, j: int|
            0 <= i < j <= split_parts(es).len() ==> #[trigger] cut_at(split_parts(es), i)
                < #[trigger] cut_at(split_parts(es), j),
{
    let n = es.len() as int;
    let parts = split_parts(es);
    let a = first_cut(es);
    lemma_split_parts(es);
    lemma_first_cut(es);
    reveal_with_fuel(cut_at, 5);
    if a == n {
        assert(es.subrange(0, n) =~= es);
    } else {
        lemma_first_fits(es);
        let rest = es.skip(a);
        lemma_subrange_wf(es, a, n);
        assert(rest =~= es.subrange(a, n));
        let b = fit_prefix(rest);
        lemma_fit_prefix(rest);
        lemma_first_fits(rest);
        assert(es.take(a) =~= es.subrange(0, a));
        if b == rest.len() {
        } else {
            assert(rest.take(b) =~= es.subrange(a, a + b));
            assert(rest.skip(b) =~= es.subrange(a + b, n));
        }
    }
}

/// The number of entries at the front of `es` that fit a page together.
fn fit_count(es: &Vec<Entry>) -> (a: usize)
    requires
        fits(models(es@)),
    ensures
        a as int == fit_prefix(models(es@)),
{
    let ghost m = models(es@);
    let n = es.len();
    let mut size: usize = HEADER;
    let mut a: usize = 0;
    assert(m.take(0).len() == 0);
    while a < n
        invariant
            m == models(es@),
            fits(m),
            n == es@.len(),
            a <= n,
            size as int == encoded_size(m.take(a as int)),
            size <= BTREE_PAGE_SIZE,
        decreases n - a,
    {
        proof {
            lemma_records_size_step(m, a as int);
            lemma_records_size_mono(m, a + 1, n as int);
            lemma_records_size_mono(m, 0, a as int);
        }
        let next: usize = size + 14 + es[a].key.len() + es[a].val.len();
        if next > BTREE_PAGE_SIZE {
            proof {
                lemma_fit_prefix_unique(m, a as int);
            }
            return a;
        }
        size = next;
        a += 1;
    }
    proof {
        lemma_fit_prefix_unique(m, n as int);
    }
    a
}

/// Where a split of `es` cuts first.
fn cut_count(es: &Vec<Entry>) -> (a: usize)
    requires
        fits(models(es@)),
        encoded_size(models(es@)) <= SPLIT_MAX,
    ensures
        a as int == first_cut(models(es@)),
{
    let ghost m = models(es@);
    let fit = fit_count(es);
    let n = es.len();
    proof {
        reveal(first_cut);
        lemma_fit_prefix(m);
    }
    if fit == n {
        return fit;
    }
    proof {
        lemma_prefix_size_mono(m, 0, n as int);
    }
    // the size of the whole node
    let mut total: usize = HEADER;
    let mut i: usize = 0;
    assert(m.take(0).len() == 0);
    while i < n
        invariant
            m == models(es@),
            fits(m),
            encoded_size(m) <= SPLIT_MAX,
            n == es@.len(),
            i <= n,
            total as int == encoded_size(m.take(i as int)),
            fit as int == fit_prefix(m),
        decreases n - i,
    {
        proof {
            lemma_records_size_step(m, i as int);
            lemma_prefix_size_mono(m, i + 1, n as int);
        }
        total += 14 + es[i].key.len() + es[i].val.len();
        i += 1;
    }
    assert(m.take(n as int) =~= m);
    // the shortest prefix that holds half of it
    let mut size: usize = HEADER;
    let mut half: usize = 0;
    while half < n && 2 * size < total
        invariant
            m == models(es@),
            fits(m),
            encoded_size(m) <= SPLIT_MAX,
            total as int == encoded_size(m),
            n == es@.len(),
            half <= n,
            size as int == encoded_size(m.take(half as int)),
            size <= SPLIT_MAX,
            half > 0 ==> 2 * encoded_size(m.take(half - 1)) < total,
            fit as int == fit_prefix(m),
        decreases n - half,
    {
        proof {
            lemma_records_size_step(m, half as int);
            lemma_prefix_size_mono(m, half + 1, n as int);
            assert(m.take(half + 1 - 1) =~= m.take(half as int));
        }
        size += 14 + es[half].key.len() + es[half].val.len();
        half += 1;
    }
    proof {
        lemma_half_prefix_unique(m, total as int, half as int);
    }
    if 1 <= half && half < fit {
        half
    } else {
        fit
    }
}

/// One of the nodes a split makes, with the key that separates it from the
/// sibling before it: its first key (empty for a node without entries).
#[derive(Debug)]
pub struct Sibling {
    pub key: Vec<u8>,
    pub node: BNode,
}

/// `node` is sound, of the given kind, holds exactly `es`, and takes
/// exactly their encoded size.
pub open spec fn node_holds(node: BNode, leaf: bool, es: Seq<EntryModel>) -> bool {
    &&& node.valid()
    &&& node.model() == (NodeModel { leaf, entries: es })
    &&& node@.len() == encoded_size(es)
}

/// `s` is the sibling that holds `es`.
pub open spec fn sibling_holds(s: Sibling, leaf: bool, es: Seq<EntryModel>) -> bool {
    &&& s.node.valid()
    &&& s.node.model() == (NodeModel { leaf, entries: es })
    &&& encoded_size(es) <= BTREE_PAGE_SIZE
    &&& s.key@ == if es.len() > 0 {
        es[0].key
    } else {
        Seq::<u8>::empty()
    }
}

/// Pairs a node with its first key.
pub fn sibling_of(node: BNode) -> (s: Sibling)
    requires
        node.valid(),
        encoded_size(node.model().entries) <= BTREE_PAGE_SIZE,
    ensures
        sibling_holds(s, node.model().leaf, node.model().entries),
        s.node == node,
{
    let key = if node.key_count() > 0 {
        slice_to_vec(node.key_at(0))
    } else {
        Vec::new()
    };
    Sibling { key, node }
}

/// Where a second cut is needed, what is left after it fits a page.
proof fn lemma_third_fits(es: Seq<EntryModel>)
    requires
        entries_wf(es),
        encoded_size(es) <= SPLIT_MAX,
        split_parts(es).len() == 3,
    ensures
        encoded_size(split_parts(es)[2]) <= BTREE_PAGE_SIZE,
{
    lemma_split_parts(es);
}

/// Encodes a run of the entries of a node being split.
fn encode_part(kind: NodeType, part: &Vec<Entry>, Ghost(es): Ghost<Seq<EntryModel>>, Ghost(
    from,
): Ghost<int>) -> (s: Sibling)
    requires
        entries_wf(es),
        fits(es),
        0 <= from <= from + part@.len() <= es.len(),
        models(part@) == es.subrange(from, from + part@.len()),
        encoded_size(models(part@)) <= BTREE_PAGE_SIZE,
    ensures
        sibling_holds(s, kind == NodeType::Leaf, models(part@)),
{
    proof {
        lemma_subrange_wf(es, from, from + part@.len());
    }
    sibling_of(encode(kind, part))
}

/// Splits a node that may be too large for a page into one, two or three
/// nodes that each fit: see `split_parts` for where the cuts fall and
/// `lemma_split_parts` for what holds of the parts. A node that fits is
/// handed back as it is.
#[verifier::rlimit(80)]
pub fn split_if_oversized(node: BNode) -> (parts: Vec<Sibling>)
    requires
        node.valid(),
        encoded_size(node.model().entries) <= SPLIT_MAX,
    ensures
        parts@.len() == split_parts(node.model().entries).len(),
        forall|i: int|
            0 <= i < parts@.len() ==> sibling_holds(
                #[trigger] parts@[i],
                node.model().leaf,
                split_parts(node.model().entries)[i],
            ),
        parts@.len() == 1 ==> parts@[0].node == node,
{
    let ghost es = node.model().entries;
    let ghost n = es.len() as int;
    let ghost leaf = node.model().leaf;
    proof {
        lemma_well_formed_fits(node@);
        lemma_first_cut(es);
    }
    let kind = node.node_type();
    let mut first = node.entries();
    let a = cut_count(&first);
    let mut parts: Vec<Sibling> = Vec::new();
    if a == first.len() {
        parts.push(sibling_of(node));
        return parts;
    }
    let ghost rest = es.skip(a as int);
    let mut second = first.split_off(a);
    assert(models(first@) == es.subrange(0, a as int) && models(second@) == rest && rest
        == es.subrange(a as int, n) && es.take(a as int) == es.subrange(0, a as int)) by {
        assert(models(first@) =~= es.take(a as int));
        assert(models(second@) =~= es.skip(a as int));
        assert(es.take(a as int) =~= es.subrange(0, a as int));
        assert(es.skip(a as int) =~= es.subrange(a as int, n));
    }
    assert(fits(rest)) by {
        lemma_subrange_wf(es, a as int, n);
    }
    let s1 = encode_part(kind, &first, Ghost(es), Ghost(0));
    let b = fit_count(&second);
    proof {
        lemma_fit_prefix(rest);
    }
    if b == second.len() {
        let s2 = encode_part(kind, &second, Ghost(es), Ghost(a as int));
        parts.push(s1);
        parts.push(s2);
        assert(split_parts(es) =~= seq![es.take(a as int), rest]);
        return parts;
    }
    let third = second.split_off(b);
    assert(split_parts(es) =~= seq![es.take(a as int), rest.take(b as int), rest.skip(b as int)]);
    assert(models(second@) == es.subrange(a as int, a + b) && models(third@) == es.subrange(
        a + b,
        n,
    ) && models(second@) == rest.take(b as int) && models(third@) == rest.skip(b as int)) by {
        assert(models(second@) =~= rest.take(b as int));
        assert(models(third@) =~= rest.skip(b as int));
        assert(rest.take(b as int) =~= es.subrange(a as int, a + b));
        assert(rest.skip(b as int) =~= es.subrange(a + b, n));
    }
    assert(encoded_size(models(third@)) <= BTREE_PAGE_SIZE) by {
        lemma_third_fits(es);
    }
    let s2 = encode_part(kind, &second, Ghost(es), Ghost(a as int));
    let s3 = encode_part(kind, &third, Ghost(es), Ghost(a + b));
    parts.push(s1);
    parts.push(s2);
    parts.push(s3);
    parts
}

/// What to do with a node after a delete.
#[derive(Clone, Copy, Debug, PartialEq, Eq, Structural)]
pub enum MergePlan {
    /// Leave the node as it is.
    Keep,
    /// Join the node to the end of its left sibling.
    WithLeft,
    /// Join the right sibling to the end of the node.
    WithRight,
    /// Move the last entry of the left sibling to the front of the node.
    BorrowLeft,
    /// Move the first entry of the right sibling to the end of the node.
    BorrowRight,
}

/// The plan for a node holding `es` with the given siblings. A node at or
/// over the low-water mark is kept. Otherwise the node merges with the left
/// sibling if the two fit a page, else with the right one; where neither
/// merge fits, it takes one boundary entry from the left sibling if that
/// leaves the sibling an entry and fits, else from the right one; else it
/// is kept.
pub open spec fn merge_plan(
    es: Seq<EntryModel>,
    left: Option<Seq<EntryModel>>,
    right: Option<Seq<EntryModel>>,
) -> MergePlan {
    if encoded_size(es) >= LOW_WATER {
        MergePlan::Keep
    } else if left is Some && encoded_size(left->0 + es) <= BTREE_PAGE_SIZE {
        MergePlan::WithLeft
    } else if right is Some && encoded_size(es + right->0) <= BTREE_PAGE_SIZE {
        MergePlan::WithRight
    } else if left is Some && left->0.len() >= 2 && encoded_size(seq![left->0.last()] + es)
        <= BTREE_PAGE_SIZE {
        MergePlan::BorrowLeft
    } else if right is Some && right->0.len() >= 2 && encoded_size(es + seq![right->0[0]])
        <= BTREE_PAGE_SIZE {
        MergePlan::BorrowRight
    } else {
        MergePlan::Keep
    }
}

/// The nodes that carrying out a plan makes.
#[derive(Debug)]
pub enum Merged {
    /// Nothing changes.
    Keep,
    /// The node that replaces the left sibling and the node.
    WithLeft(BNode),
    /// The node that replaces the node and the right sibling.
    WithRight(BNode),
    /// The new left sibling and the new node.
    BorrowLeft { left: BNode, node: BNode },
    /// The new node and the new right sibling.
    BorrowRight { node: BNode, right: BNode },
}

/// `r` carries out the plan for `es` and its siblings.
pub open spec fn merged_holds(
    r: Merged,
    leaf: bool,
    es: Seq<EntryModel>,
    left: Option<Seq<EntryModel>>,
    right: Option<Seq<EntryModel>>,
) -> bool {
    match merge_plan(es, left, right) {
        MergePlan::Keep => r is Keep,
        MergePlan::WithLeft => r matches Merged::WithLeft(m) && node_holds(m, leaf, left->0 + es),
        MergePlan::WithRight => r matches Merged::WithRight(m) && node_holds(
            m,
            leaf,
            es + right->0,
        ),
        MergePlan::BorrowLeft => r matches Merged::BorrowLeft { left: l, node: n } && node_holds(
            l,
            leaf,
            left->0.drop_last(),
        ) && node_holds(n, leaf, seq![left->0.last()] + es),
        MergePlan::BorrowRight => r matches Merged::BorrowRight { node: n, right: rr }
            && node_holds(n, leaf, es + seq![right->0[0]]) && node_holds(
            rr,
            leaf,
            right->0.skip(1),
        ),
    }
}

/// The entries of a sibling, where there is one.
pub open spec fn entries_of(node: Option<&BNode>) -> Option<Seq<EntryModel>> {
    match node {
        Some(n) => Some(n.model().entries),
        None => None,
    }
}

/// `sib` can stand beside a node of the given kind: it is sound, of that
/// kind, and fits a page.
pub open spec fn sibling_ready(sib: Option<&BNode>, leaf: bool) -> bool {
    sib matches Some(n) ==> n.valid() && n.model().leaf == leaf && encoded_size(n.model().entries)
        <= BTREE_PAGE_SIZE
}

/// Every key of `a` sorts before every key of `b`, given that both are
/// sorted.
pub open spec fn ordered(a: Seq<EntryModel>, b: Seq<EntryModel>) -> bool {
    a.len() > 0 && b.len() > 0 ==> key_lt(a.last().key, b[0].key)
}

/// Joins two neighbouring nodes if the result fits a page.
fn join(a: &BNode, b: &BNode) -> (r: Option<BNode>)
    requires
        a.valid(),
        b.valid(),
        a.model().leaf == b.model().leaf,
        encoded_size(a.model().entries) <= BTREE_PAGE_SIZE,
        encoded_size(b.model().entries) <= BTREE_PAGE_SIZE,
        ordered(a.model().entries, b.model().entries),
    ensures
        r is Some <==> encoded_size(a.model().entries + b.model().entries) <= BTREE_PAGE_SIZE,
        r matches Some(m) ==> node_holds(m, a.model().leaf, a.model().entries + b.model().entries),
{
    let ghost aes = a.model().entries;
    let ghost bes = b.model().entries;
    proof {
        lemma_concat_wf(aes, bes);
        lemma_well_formed_fits(a@);
        lemma_well_formed_fits(b@);
        lemma_records_size_concat(aes, bes);
    }
    if a.encoded_size() + b.encoded_size() - HEADER <= BTREE_PAGE_SIZE {
        let kind = a.node_type();
        let mut es = a.entries();
        let mut tail = b.entries();
        es.append(&mut tail);
        assert(models(es@) =~= aes + bes);
        Some(encode(kind, &es))
    } else {
        None
    }
}

/// Moves the last entry of `from` to the front of `to`, if `from` keeps an
/// entry and the grown node fits a page. Gives the new `from` and the new
/// `to`.
fn borrow_last(from: &BNode, to: &BNode) -> (r: Option<(BNode, BNode)>)
    requires
        from.valid(),
        to.valid(),
        from.model().leaf == to.model().leaf,
        encoded_size(from.model().entries) <= BTREE_PAGE_SIZE,
        encoded_size(to.model().entries) <= BTREE_PAGE_SIZE,
        ordered(from.model().entries, to.model().entries),
    ensures
        r is Some <==> from.model().entries.len() >= 2 && encoded_size(
            seq![from.model().entries.last()] + to.model().entries,
        ) <= BTREE_PAGE_SIZE,
        r matches Some(pair) ==> node_holds(
            pair.0,
            to.model().leaf,
            from.model().entries.drop_last(),
        ) && node_holds(
            pair.1,
            to.model().leaf,
            seq![from.model().entries.last()] + to.model().entries,
        ),
{
    let ghost fes = from.model().entries;
    let ghost tes = to.model().entries;
    let mut rest = from.entries();
    let count = rest.len();
    if count < 2 {
        return None;
    }
    let ghost one = seq![fes.last()];
    proof {
        lemma_well_formed_fits(from@);
        lemma_well_formed_fits(to@);
        assert(one =~= fes.subrange(count - 1, count as int));
        lemma_subrange_wf(fes, count - 1, count as int);
        lemma_subrange_wf(fes, 0, count - 1);
        assert(fes.drop_last() =~= fes.subrange(0, count - 1));
        lemma_concat_wf(one, tes);
        lemma_size_insert(tes, 0, fes.last());
        assert(tes.insert(0, fes.last()) =~= one + tes);
        lemma_records_size_concat(one, tes);
    }
    let moved_size: usize = 14 + rest[count - 1].key.len() + rest[count - 1].val.len();
    if to.encoded_size() + moved_size > BTREE_PAGE_SIZE {
        return None;
    }
    let kind = to.node_type();
    let moved = rest.remove(count - 1);
    let mut mine = to.entries();
    mine.insert(0, moved);
    proof {
        assert(models(rest@) =~= fes.drop_last());
        assert(models(mine@) =~= one + tes);
    }
    Some((encode(kind, &rest), encode(kind, &mine)))
}

/// Moves the first entry of `from` to the end of `to`, if `from` keeps an
/// entry and the grown node fits a page. Gives the new `to` and the new
/// `from`.
fn borrow_first(to: &BNode, from: &BNode) -> (r: Option<(BNode, BNode)>)
    requires
        from.valid(),
        to.valid(),
        from.model().leaf == to.model().leaf,
        encoded_size(from.model().entries) <= BTREE_PAGE_SIZE,
        encoded_size(to.model().entries) <= BTREE_PAGE_SIZE,
        ordered(to.model().entries, from.model().entries),
    ensures
        r is Some <==> from.model().entries.len() >= 2 && encoded_size(
            to.model().entries + seq![from.model().entries[0]],
        ) <= BTREE_PAGE_SIZE,
        r matches Some(pair) ==> node_holds(
            pair.0,
            to.model().leaf,
            to.model().entries + seq![from.model().entries[0]],
        ) && node_holds(pair.1, to.model().leaf, from.model().entries.skip(1)),
{
    let ghost fes = from.model().entries;
    let ghost tes = to.model().entries;
    let mut rest = from.entries();
    let count = rest.len();
    if count < 2 {
        return None;
    }
    let ghost one = seq![fes[0]];
    proof {
        lemma_well_formed_fits(from@);
        lemma_well_formed_fits(to@);
        assert(one =~= fes.subrange(0, 1));
        lemma_subrange_wf(fes, 0, 1);
        lemma_subrange_wf(fes, 1, count as int);
        assert(fes.skip(1) =~= fes.subrange(1, count as int));
        lemma_concat_wf(tes, one);
        lemma_size_insert(tes, tes.len() as int, fes[0]);
        assert(tes.insert(tes.len() as int, fes[0]) =~= tes + one);
        lemma_records_size_concat(tes, one);
    }
    let moved_size: usize = 14 + rest[0].key.len() + rest[0].val.len();
    if to.encoded_size() + moved_size > BTREE_PAGE_SIZE {
        return None;
    }
    let kind = to.node_type();
    let moved = rest.remove(0);
    let mut mine = to.entries();
    mine.push(moved);
    proof {
        assert(models(rest@) =~= fes.skip(1));
        assert(models(mine@) =~= tes + one);
    }
    Some((encode(kind, &mine), encode(kind, &rest)))
}

/// After a delete, merges an undersized node with a sibling or moves one
/// boundary entry over from a sibling, as `merge_plan` decides.
pub fn merge_if_undersized(node: &BNode, left: Option<&BNode>, right: Option<&BNode>) -> (r:
    Merged)
    requires
        node.valid(),
        encoded_size(node.model().entries) <= BTREE_PAGE_SIZE,
        sibling_ready(left, node.model().leaf),
        sibling_ready(right, node.model().leaf),
        left matches Some(l) ==> ordered(l.model().entries, node.model().entries),
        right matches Some(rr) ==> ordered(node.model().entries, rr.model().entries),
    ensures
        merged_holds(
            r,
            node.model().leaf,
            node.model().entries,
            entries_of(left),
            entries_of(right),
        ),
{
    if node.encoded_size() >= LOW_WATER {
        return Merged::Keep;
    }
    if let Some(l) = left {
        if let Some(m) = join(l, node) {
            return Merged::WithLeft(m);
        }
    }
    if let Some(rr) = right {
        if let Some(m) = join(node, rr) {
            return Merged::WithRight(m);
        }
    }
    if let Some(l) = left {
        if let Some(pair) = borrow_last(l, node) {
            return Merged::BorrowLeft { left: pair.0, node: pair.1 };
        }
    }
    if let Some(rr) = right {
        if let Some(pair) = borrow_first(node, rr) {
            return Merged::BorrowRight { node: pair.0, right: pair.1 };
        }
    }
    Merged::Keep
}

} // verus!
