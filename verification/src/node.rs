//! The page codec: a node is a byte buffer, read and written only through
//! bounds-checked accessors.
//!
//! Layout of a node with `n` keys:
//!
//! ```text
//! | type | nkeys | pointers | offsets | key-values
//! |  2B  |  2B   |  n * 8B  | n * 2B  | ...
//! ```
//!
//! and each key-value record is
//!
//! ```text
//! | klen | vlen | key | val |
//! |  2B  |  2B  | ... | ... |
//! ```
//!
//! Offset `i` (for `1 <= i <= n`) is the end of record `i - 1`, counted from
//! the start of the key-value area; offset `0` is zero and is not stored.

use crate::endian::{
    le_bytes_u16, le_bytes_u64, lemma_le_u16_roundtrip, lemma_le_u64_roundtrip, read_u16, read_u64,
    u16_at, u64_at, write_u16, write_u64,
};
use crate::error::Error;
use crate::keys::{compare_keys, key_lt, lemma_lt_transitive, strictly_sorted, KeyOrder};
use vstd::prelude::*;
use vstd::slice::{slice_subrange, slice_to_vec};

verus! {

/// Bytes taken by the type and key-count fields.
pub const HEADER: usize = 4;

/// The size of a page of the backing file.
pub const BTREE_PAGE_SIZE: usize = 4096;

/// The longest key the tree accepts.
pub const BTREE_MAX_KEY_SIZE: usize = 1000;

/// The longest value the tree accepts.
pub const BTREE_MAX_VAL_SIZE: usize = 3000;

/// Type tag of an internal node.
pub const BNODE_NODE: u16 = 1;

/// Type tag of a leaf node.
pub const BNODE_LEAF: u16 = 2;

/// The largest value of a two-byte field, which bounds both the key count
/// and the size of the key-value area of any node.
pub const FIELD_MAX: usize = 65535;

/// The two kinds of node.
#[derive(Clone, Copy, Debug, PartialEq, Eq, Structural)]
pub enum NodeType {
    /// Internal nodes hold separator keys and child page numbers.
    Internal,
    /// Leaf nodes hold keys with their values.
    Leaf,
}

/// One slot of a node: a child page number (meaningful in internal nodes),
/// a key, and a value (meaningful in leaves).
#[derive(Debug)]
pub struct Entry {
    pub ptr: u64,
    pub key: Vec<u8>,
    pub val: Vec<u8>,
}

/// The mathematical content of an `Entry`.
pub struct EntryModel {
    pub ptr: u64,
    pub key: Seq<u8>,
    pub val: Seq<u8>,
}

impl View for Entry {
    type V = EntryModel;

    open spec fn view(&self) -> EntryModel {
        EntryModel { ptr: self.ptr, key: self.key@, val: self.val@ }
    }
}

/// The contents of a vector of entries.
pub open spec fn models(es: Seq<Entry>) -> Seq<EntryModel> {
    Seq::new(es.len(), |i: int| es[i]@)
}

/// The mathematical content of a node.
pub struct NodeModel {
    pub leaf: bool,
    pub entries: Seq<EntryModel>,
}

/// The keys of a sequence of entries, in order.
pub open spec fn keys_of(es: Seq<EntryModel>) -> Seq<Seq<u8>> {
    Seq::new(es.len(), |i: int| es[i].key)
}

/// Every key and value is within the engine's limits.
pub open spec fn within_limits(es: Seq<EntryModel>) -> bool {
    forall|i: int|
        0 <= i < es.len() ==> (#[trigger] es[i]).key.len() <= BTREE_MAX_KEY_SIZE
            && es[i].val.len() <= BTREE_MAX_VAL_SIZE
}

/// The entries a node may hold: keys strictly increasing, sizes within
/// limits.
pub open spec fn entries_wf(es: Seq<EntryModel>) -> bool {
    strictly_sorted(keys_of(es)) && within_limits(es)
}

/// Bytes a record takes in the key-value area.
pub open spec fn record_size(e: EntryModel) -> int {
    4 + e.key.len() as int + e.val.len() as int
}

/// Bytes the records of `es` take together.
pub open spec fn records_size(es: Seq<EntryModel>) -> int
    decreases es.len(),
{
    if es.len() == 0 {
        0
    } else {
        records_size(es.drop_last()) + record_size(es.last())
    }
}

/// The size of the node that holds exactly `es`.
pub open spec fn encoded_size(es: Seq<EntryModel>) -> int {
    4 + 10 * (es.len() as int) + records_size(es)
}

/// The two-byte fields of the format can describe `es`.
pub open spec fn fits(es: Seq<EntryModel>) -> bool {
    es.len() <= FIELD_MAX && records_size(es) <= FIELD_MAX
}

/// The type tag that stands for a kind of node.
pub open spec fn tag_of(leaf: bool) -> int {
    if leaf {
        BNODE_LEAF as int
    } else {
        BNODE_NODE as int
    }
}

/// The key count stored in `d`.
pub open spec fn raw_nkeys(d: Seq<u8>) -> int {
    u16_at(d, 2)
}

/// Where pointer `i` is stored.
pub open spec fn ptr_pos(i: int) -> int {
    4 + 8 * i
}

/// Where offset `i` is stored in a node of `n` keys, for `1 <= i <= n`.
pub open spec fn offset_pos(n: int, i: int) -> int {
    4 + 8 * n + 2 * (i - 1)
}

/// Offset `i` of `d`: the end of record `i - 1`.
pub open spec fn raw_offset(d: Seq<u8>, i: int) -> int {
    if i == 0 {
        0
    } else {
        u16_at(d, offset_pos(raw_nkeys(d), i))
    }
}

/// Where record `i` of `d` begins.
pub open spec fn kv_pos(d: Seq<u8>, i: int) -> int {
    4 + 10 * raw_nkeys(d) + raw_offset(d, i)
}

/// Slot `i` of `d`, read without any checks.
pub open spec fn raw_entry(d: Seq<u8>, i: int) -> EntryModel {
    let p = kv_pos(d, i);
    let klen = u16_at(d, p);
    let vlen = u16_at(d, p + 2);
    EntryModel {
        ptr: u64_at(d, ptr_pos(i)) as u64,
        key: d.subrange(p + 4, p + 4 + klen),
        val: d.subrange(p + 4 + klen, p + 4 + klen + vlen),
    }
}

/// Record `i` lies inside `d` and ends where offset `i + 1` says.
pub open spec fn record_ok(d: Seq<u8>, i: int) -> bool {
    let p = kv_pos(d, i);
    &&& p + 4 <= d.len()
    &&& raw_offset(d, i + 1) == raw_offset(d, i) + 4 + u16_at(d, p) + u16_at(d, p + 2)
    &&& kv_pos(d, i + 1) <= d.len()
}

/// The fixed-width part of `d` (header, pointers, offsets) lies inside it.
pub open spec fn header_ok(d: Seq<u8>) -> bool {
    d.len() >= 4 && 4 + 10 * raw_nkeys(d) <= d.len()
}

/// `d` is structurally a node: a known type tag, and every field and record
/// inside the buffer.
pub open spec fn well_formed(d: Seq<u8>) -> bool {
    &&& header_ok(d)
    &&& (u16_at(d, 0) == BNODE_NODE || u16_at(d, 0) == BNODE_LEAF)
    &&& forall|i: int| 0 <= i < raw_nkeys(d) ==> #[trigger] record_ok(d, i)
}

/// What `d` holds when read as a node.
pub open spec fn node_of(d: Seq<u8>) -> NodeModel {
    NodeModel {
        leaf: u16_at(d, 0) == BNODE_LEAF,
        entries: Seq::new(raw_nkeys(d) as nat, |i: int| raw_entry(d, i)),
    }
}

/// Adding one entry adds its record.
pub proof fn lemma_records_size_step(es: Seq<EntryModel>, i: int)
    requires
        0 <= i < es.len(),
    ensures
        records_size(es.take(i + 1)) == records_size(es.take(i)) + record_size(es[i]),
        record_size(es[i]) >= 4,
{
    assert(es.take(i + 1).drop_last() =~= es.take(i));
}

/// A shorter prefix takes no more bytes than a longer one.
pub proof fn lemma_records_size_mono(es: Seq<EntryModel>, i: int, j: int)
    requires
        0 <= i <= j <= es.len(),
    ensures
        0 <= records_size(es.take(i)) <= records_size(es.take(j)),
        records_size(es.take(es.len() as int)) == records_size(es),
    decreases j,
{
    assert(es.take(es.len() as int) =~= es);
    if j == 0 {
        assert(es.take(0).len() == 0);
    } else if i == j {
        lemma_records_size_mono(es, 0, j - 1);
        lemma_records_size_step(es, j - 1);
    } else {
        lemma_records_size_mono(es, i, j - 1);
        lemma_records_size_step(es, j - 1);
    }
}

/// The records of a concatenation are those of its parts.
pub proof fn lemma_records_size_concat(a: Seq<EntryModel>, b: Seq<EntryModel>)
    ensures
        records_size(a + b) == records_size(a) + records_size(b),
        records_size(a) >= 0,
    decreases b.len(),
{
    lemma_records_size_mono(a, 0, 0);
    lemma_records_size_mono(a, 0, a.len() as int);
    if b.len() == 0 {
        assert(a + b =~= a);
    } else {
        lemma_records_size_concat(a, b.drop_last());
        assert((a + b).drop_last() =~= a + b.drop_last());
    }
}

/// In a well-formed node, offset `i` is the size of the first `i` records.
pub proof fn lemma_offsets(d: Seq<u8>, i: int)
    requires
        well_formed(d),
        0 <= i <= raw_nkeys(d),
    ensures
        raw_offset(d, i) == records_size(node_of(d).entries.take(i)),
        kv_pos(d, i) <= d.len(),
        kv_pos(d, i) == encoded_size(node_of(d).entries.take(i)) + 10 * (raw_nkeys(d) - i),
    decreases i,
{
    let es = node_of(d).entries;
    if i == 0 {
        assert(es.take(0).len() == 0);
    } else {
        lemma_offsets(d, i - 1);
        assert(record_ok(d, i - 1));
        lemma_records_size_step(es, i - 1);
    }
}

/// A well-formed buffer's fields can describe what it holds.
pub proof fn lemma_well_formed_fits(d: Seq<u8>)
    requires
        well_formed(d),
    ensures
        fits(node_of(d).entries),
        encoded_size(node_of(d).entries) == kv_pos(d, raw_nkeys(d)),
        encoded_size(node_of(d).entries) <= d.len(),
{
    let es = node_of(d).entries;
    lemma_offsets(d, raw_nkeys(d));
    assert(es.take(es.len() as int) =~= es);
}

/// Keys that increase from each slot to the next increase throughout.
pub proof fn lemma_adjacent_sorted(keys: Seq<Seq<u8>>)
    requires
        forall|i: int| 1 <= i < keys.len() ==> key_lt(keys[i - 1], #[trigger] keys[i]),
    ensures
        strictly_sorted(keys),
{
    assert forall|i: int, j: int| 0 <= i < j < keys.len() implies key_lt(
        #[trigger] keys[i],
        #[trigger] keys[j],
    ) by {
        lemma_adjacent_upto(keys, i, j);
    }
}

proof fn lemma_adjacent_upto(keys: Seq<Seq<u8>>, i: int, j: int)
    requires
        forall|k: int| 1 <= k < keys.len() ==> key_lt(keys[k - 1], #[trigger] keys[k]),
        0 <= i < j < keys.len(),
    ensures
        key_lt(keys[i], keys[j]),
    decreases j - i,
{
    if j > i + 1 {
        lemma_adjacent_upto(keys, i, j - 1);
        assert(key_lt(keys[j - 1], keys[j]));
        lemma_lt_transitive(keys[i], keys[j - 1], keys[j]);
    } else {
        assert(key_lt(keys[j - 1], keys[j]));
    }
}

/// The offset at which record `i` of a node holding `es` begins.
pub open spec fn off_of(es: Seq<EntryModel>, i: int) -> int {
    records_size(es.take(i))
}

/// The position at which record `i` of a node holding `es` begins.
pub open spec fn kv_of(es: Seq<EntryModel>, i: int) -> int {
    4 + 10 * (es.len() as int) + off_of(es, i)
}

/// Slot `j` of `d` holds entry `j` of `es`: its pointer, the offset of its
/// end, and its record.
pub open spec fn slot_ok(d: Seq<u8>, es: Seq<EntryModel>, j: int) -> bool {
    let p = kv_of(es, j);
    let e = es[j];
    &&& u64_at(d, ptr_pos(j)) == e.ptr
    &&& u16_at(d, offset_pos(es.len() as int, j + 1)) == off_of(es, j + 1)
    &&& u16_at(d, p) == e.key.len()
    &&& u16_at(d, p + 2) == e.val.len()
    &&& d.subrange(p + 4, p + 4 + e.key.len()) == e.key
    &&& d.subrange(p + 4 + e.key.len(), p + 4 + e.key.len() + e.val.len()) == e.val
}

/// Byte `k` belongs to slot `j` of a node holding `es`.
pub open spec fn in_slot(es: Seq<EntryModel>, j: int, k: int) -> bool {
    ||| ptr_pos(j) <= k < ptr_pos(j) + 8
    ||| offset_pos(es.len() as int, j + 1) <= k < offset_pos(es.len() as int, j + 1) + 2
    ||| kv_of(es, j) <= k < kv_of(es, j + 1)
}

/// `d` is an encoding of `m`: the header names its kind and key count and
/// every slot holds its entry. Bytes past the encoded size are free.
pub open spec fn encodes(d: Seq<u8>, m: NodeModel) -> bool {
    &&& fits(m.entries)
    &&& d.len() >= encoded_size(m.entries)
    &&& u16_at(d, 0) == tag_of(m.leaf)
    &&& raw_nkeys(d) == m.entries.len()
    &&& forall|j: int| 0 <= j < m.entries.len() ==> #[trigger] slot_ok(d, m.entries, j)
}

/// In an encoding of `m`, slot `i` is a sound record and reads back as
/// entry `i` of `m`.
proof fn lemma_encodes_slot(d: Seq<u8>, m: NodeModel, i: int)
    requires
        encodes(d, m),
        0 <= i < m.entries.len(),
    ensures
        record_ok(d, i),
        raw_entry(d, i) == m.entries[i],
{
    let es = m.entries;
    let n = es.len() as int;
    assert(es.take(0).len() == 0);
    assert(slot_ok(d, es, i));
    if i > 0 {
        assert(slot_ok(d, es, i - 1));
    }
    lemma_records_size_step(es, i);
    lemma_records_size_mono(es, i + 1, n);
    lemma_records_size_mono(es, 0, i);
    lemma_records_size_mono(es, 0, n);
    assert(raw_offset(d, i) == off_of(es, i));
    assert(raw_offset(d, i + 1) == off_of(es, i + 1));
    assert(kv_pos(d, i) == kv_of(es, i));
}

/// An encoding of `m` is well formed and reads back as `m`.
pub proof fn lemma_encodes(d: Seq<u8>, m: NodeModel)
    requires
        encodes(d, m),
    ensures
        well_formed(d),
        node_of(d) == m,
{
    let es = m.entries;
    let n = es.len() as int;
    lemma_records_size_mono(es, 0, n);
    assert forall|i: int| 0 <= i < n implies #[trigger] record_ok(d, i) by {
        lemma_encodes_slot(d, m, i);
    }
    assert forall|i: int| 0 <= i < n implies #[trigger] node_of(d).entries[i] == es[i] by {
        lemma_encodes_slot(d, m, i);
    }
    assert(node_of(d).entries =~= es);
}

/// A slot keeps its entry when none of its bytes change.
pub proof fn lemma_slot_frame(d1: Seq<u8>, d2: Seq<u8>, es: Seq<EntryModel>, j: int)
    requires
        0 <= j < es.len(),
        slot_ok(d1, es, j),
        d1.len() >= encoded_size(es),
        d2.len() >= encoded_size(es),
        forall|k: int| 0 <= k < encoded_size(es) && in_slot(es, j, k) ==> d1[k] == d2[k],
    ensures
        slot_ok(d2, es, j),
{
    let n = es.len() as int;
    let p = kv_of(es, j);
    let e = es[j];
    lemma_records_size_step(es, j);
    lemma_records_size_mono(es, j + 1, n);
    lemma_records_size_mono(es, 0, j);
    assert(kv_of(es, j + 1) == p + 4 + e.key.len() + e.val.len());
    assert(in_slot(es, j, ptr_pos(j)));
    assert forall|k: int| ptr_pos(j) <= k < ptr_pos(j) + 8 implies d1[k] == d2[k] by {
        assert(in_slot(es, j, k));
    }
    assert(d2.subrange(ptr_pos(j), ptr_pos(j) + 8) =~= d1.subrange(ptr_pos(j), ptr_pos(j) + 8));
    let o = offset_pos(n, j + 1);
    assert forall|k: int| o <= k < o + 2 implies d1[k] == d2[k] by {
        assert(in_slot(es, j, k));
    }
    assert(d2.subrange(o, o + 2) =~= d1.subrange(o, o + 2));
    assert forall|k: int| p <= k < kv_of(es, j + 1) implies d1[k] == d2[k] by {
        assert(in_slot(es, j, k));
    }
    assert(d2.subrange(p, p + 2) =~= d1.subrange(p, p + 2));
    assert(d2.subrange(p + 2, p + 4) =~= d1.subrange(p + 2, p + 4));
    assert(d2.subrange(p + 4, p + 4 + e.key.len()) =~= d1.subrange(p + 4, p + 4 + e.key.len()));
    assert(d2.subrange(p + 4 + e.key.len(), p + 4 + e.key.len() + e.val.len()) =~= d1.subrange(
        p + 4 + e.key.len(),
        p + 4 + e.key.len() + e.val.len(),
    ));
}

/// Copies `src` over the bytes of `buf` that begin at `pos`.
fn copy_into(buf: &mut Vec<u8>, pos: usize, src: &[u8])
    requires
        pos + src@.len() <= old(buf)@.len(),
    ensures
        final(buf)@.len() == old(buf)@.len(),
        final(buf)@.subrange(pos as int, pos + src@.len()) == src@,
        forall|k: int|
            0 <= k < old(buf)@.len() && !(pos <= k < pos + src@.len()) ==> final(buf)@[k] == old(
                buf,
            )@[k],
{
    let total: usize = buf.len();
    let mut t: usize = 0;
    while t < src.len()
        invariant
            t <= src@.len(),
            total == buf@.len(),
            buf@.len() == old(buf)@.len(),
            pos + src@.len() <= buf@.len(),
            forall|k: int| pos <= k < pos + t ==> buf@[k] == src@[k - pos],
            forall|k: int|
                0 <= k < buf@.len() && !(pos <= k < pos + src@.len()) ==> buf@[k] == old(buf)@[k],
        decreases src@.len() - t,
    {
        let b: u8 = src[t];
        let at: usize = pos + t;
        buf[at] = b;
        t += 1;
    }
    assert(buf@.subrange(pos as int, pos + src@.len()) =~= src@);
}

/// Record `i` of `d` is in place and its key and value are within the size
/// limits.
pub open spec fn slot_valid(d: Seq<u8>, i: int) -> bool {
    &&& record_ok(d, i)
    &&& raw_entry(d, i).key.len() <= BTREE_MAX_KEY_SIZE
    &&& raw_entry(d, i).val.len() <= BTREE_MAX_VAL_SIZE
}

/// Key `i` of `d` sorts after key `i - 1`.
pub open spec fn follows(d: Seq<u8>, i: int) -> bool {
    key_lt(raw_entry(d, i - 1).key, raw_entry(d, i).key)
}

/// A buffer with an unsound slot is not a node.
proof fn lemma_unsound_slot(d: Seq<u8>, i: int)
    requires
        0 <= i < raw_nkeys(d),
        !slot_valid(d, i),
    ensures
        !(well_formed(d) && entries_wf(node_of(d).entries)),
{
    let es = node_of(d).entries;
    if well_formed(d) {
        assert(record_ok(d, i));
        assert(es[i] == raw_entry(d, i));
        assert(!within_limits(es));
    }
}

/// A buffer with a key out of order is not a node.
proof fn lemma_unsorted(d: Seq<u8>, i: int)
    requires
        1 <= i < raw_nkeys(d),
        !follows(d, i),
    ensures
        !(well_formed(d) && entries_wf(node_of(d).entries)),
{
    let ks = keys_of(node_of(d).entries);
    assert(ks[i - 1] == raw_entry(d, i - 1).key);
    assert(ks[i] == raw_entry(d, i).key);
    assert(!key_lt(ks[i - 1], ks[i]));
}

/// A buffer whose header, slots and key order are sound is a node.
proof fn lemma_sound(d: Seq<u8>)
    requires
        header_ok(d),
        u16_at(d, 0) == BNODE_NODE || u16_at(d, 0) == BNODE_LEAF,
        forall|j: int| 0 <= j < raw_nkeys(d) ==> #[trigger] slot_valid(d, j),
        forall|j: int| 1 <= j < raw_nkeys(d) ==> #[trigger] follows(d, j),
    ensures
        well_formed(d),
        entries_wf(node_of(d).entries),
{
    let es = node_of(d).entries;
    let ks = keys_of(es);
    assert forall|j: int| 0 <= j < raw_nkeys(d) implies #[trigger] record_ok(d, j) by {
        assert(slot_valid(d, j));
    }
    assert forall|j: int| 1 <= j < ks.len() implies key_lt(ks[j - 1], #[trigger] ks[j]) by {
        assert(follows(d, j));
        assert(ks[j - 1] == raw_entry(d, j - 1).key);
        assert(ks[j] == raw_entry(d, j).key);
    }
    lemma_adjacent_sorted(ks);
    assert forall|j: int| 0 <= j < es.len() implies (#[trigger] es[j]).key.len()
        <= BTREE_MAX_KEY_SIZE && es[j].val.len() <= BTREE_MAX_VAL_SIZE by {
        assert(slot_valid(d, j));
        assert(es[j] == raw_entry(d, j));
    }
}

/// A node: a byte buffer laid out as described at the top of this module.
#[derive(Debug)]
pub struct BNode {
    data: Vec<u8>,
}

impl View for BNode {
    type V = Seq<u8>;

    closed spec fn view(&self) -> Seq<u8> {
        self.data@
    }
}

#[allow(non_snake_case)]
impl BNode {
    /// The node holds a structurally sound encoding of entries that a node
    /// may hold.
    pub open spec fn valid(&self) -> bool {
        well_formed(self@) && entries_wf(node_of(self@).entries)
    }

    /// What the node holds.
    pub open spec fn model(&self) -> NodeModel {
        node_of(self@)
    }

    /// Wraps a buffer without looking at it.
    pub fn from_bytes(data: Vec<u8>) -> (node: BNode)
        ensures
            node@ == data@,
    {
        BNode { data }
    }

    /// The bytes of the node.
    pub fn as_bytes(&self) -> (bytes: &[u8])
        ensures
            bytes@ == self@,
    {
        self.data.as_slice()
    }

    /// Gives the buffer back.
    pub fn into_bytes(self) -> (data: Vec<u8>)
        ensures
            data@ == self@,
    {
        self.data
    }

    /// The type tag.
    pub fn btype(&self) -> (t: u16)
        requires
            self@.len() >= 2,
        ensures
            t as int == u16_at(self@, 0),
    {
        read_u16(slice_subrange(self.data.as_slice(), 0, 2))
    }

    /// The number of keys.
    pub fn nkeys(&self) -> (n: u16)
        requires
            self@.len() >= HEADER,
        ensures
            n as int == raw_nkeys(self@),
    {
        read_u16(slice_subrange(self.data.as_slice(), 2, 4))
    }

    /// Writes the type tag and the key count; nothing else changes.
    pub fn setHeader(&mut self, btype: u16, nkeys: u16)
        requires
            old(self)@.len() >= HEADER,
        ensures
            final(self)@.len() == old(self)@.len(),
            final(self)@.subrange(0, 2) == le_bytes_u16(btype),
            final(self)@.subrange(2, 4) == le_bytes_u16(nkeys),
            u16_at(final(self)@, 0) == btype,
            raw_nkeys(final(self)@) == nkeys,
            forall|i: int| 4 <= i < old(self)@.len() ==> final(self)@[i] == old(self)@[i],
    {
        write_u16(&mut self.data, 0, btype);
        let ghost mid = self.data@;
        write_u16(&mut self.data, 2, nkeys);
        proof {
            lemma_le_u16_roundtrip(btype);
            lemma_le_u16_roundtrip(nkeys);
            assert(self.data@.subrange(0, 2) =~= mid.subrange(0, 2));
        }
    }

    /// Child pointer `idx`.
    pub fn getPtr(&self, idx: u16) -> (p: u64)
        requires
            header_ok(self@),
            idx < raw_nkeys(self@),
        ensures
            p as int == u64_at(self@, ptr_pos(idx as int)),
    {
        let pos: usize = HEADER + 8 * (idx as usize);
        read_u64(slice_subrange(self.data.as_slice(), pos, pos + 8))
    }

    /// Writes child pointer `idx`; nothing else changes.
    pub fn setPtr(&mut self, idx: u16, val: u64)
        requires
            header_ok(old(self)@),
            idx < raw_nkeys(old(self)@),
        ensures
            final(self)@.len() == old(self)@.len(),
            final(self)@.subrange(ptr_pos(idx as int), ptr_pos(idx as int) + 8) == le_bytes_u64(
                val,
            ),
            u64_at(final(self)@, ptr_pos(idx as int)) == val,
            forall|i: int|
                0 <= i < old(self)@.len() && !(ptr_pos(idx as int) <= i < ptr_pos(idx as int) + 8)
                    ==> final(self)@[i] == old(self)@[i],
    {
        let pos: usize = HEADER + 8 * (idx as usize);
        write_u64(&mut self.data, pos, val);
        proof {
            lemma_le_u64_roundtrip(val);
        }
    }

    /// Where offset `idx` is stored.
    pub fn offsetPos(node: &BNode, idx: u16) -> (pos: usize)
        requires
            node@.len() >= HEADER,
            1 <= idx <= raw_nkeys(node@),
        ensures
            pos as int == offset_pos(raw_nkeys(node@), idx as int),
    {
        HEADER + 8 * (node.nkeys() as usize) + 2 * ((idx - 1) as usize)
    }

    /// Offset `idx`: where record `idx` begins, counted from the start of
    /// the key-value area.
    pub fn getOffset(&self, idx: u16) -> (off: u16)
        requires
            header_ok(self@),
            idx <= raw_nkeys(self@),
        ensures
            off as int == raw_offset(self@, idx as int),
    {
        if idx == 0 {
            0
        } else {
            let pos = BNode::offsetPos(self, idx);
            read_u16(slice_subrange(self.data.as_slice(), pos, pos + 2))
        }
    }

    /// Writes offset `idx`; nothing else changes.
    pub fn setOffset(&mut self, idx: u16, offset: u16)
        requires
            header_ok(old(self)@),
            1 <= idx <= raw_nkeys(old(self)@),
        ensures
            final(self)@.len() == old(self)@.len(),
            final(self)@.subrange(
                offset_pos(raw_nkeys(old(self)@), idx as int),
                offset_pos(raw_nkeys(old(self)@), idx as int) + 2,
            ) == le_bytes_u16(offset),
            u16_at(final(self)@, offset_pos(raw_nkeys(old(self)@), idx as int)) == offset,
            forall|i: int|
                0 <= i < old(self)@.len() && !(offset_pos(raw_nkeys(old(self)@), idx as int) <= i
                    < offset_pos(raw_nkeys(old(self)@), idx as int) + 2) ==> final(self)@[i] == old(
                    self,
                )@[i],
    {
        let pos = BNode::offsetPos(self, idx);
        write_u16(&mut self.data, pos, offset);
        proof {
            lemma_le_u16_roundtrip(offset);
        }
    }

    /// Where record `idx` begins, counted from the start of the node; for
    /// `idx == nkeys` this is the size of the node.
    pub fn kvPos(&self, idx: u16) -> (pos: usize)
        requires
            header_ok(self@),
            idx <= raw_nkeys(self@),
        ensures
            pos as int == kv_pos(self@, idx as int),
    {
        HEADER + 10 * (self.nkeys() as usize) + (self.getOffset(idx) as usize)
    }
}

impl NodeType {
    /// The tag stored in the first two bytes of a node of this kind.
    pub fn tag(self) -> (t: u16)
        ensures
            t as int == tag_of(self == NodeType::Leaf),
    {
        match self {
            NodeType::Internal => BNODE_NODE,
            NodeType::Leaf => BNODE_LEAF,
        }
    }
}

impl BNode {
    /// The key of slot `i`, for a slot whose record lies inside the buffer.
    fn key_slice(&self, i: u16) -> (k: &[u8])
        requires
            header_ok(self@),
            i < raw_nkeys(self@),
            record_ok(self@, i as int),
        ensures
            k@ == raw_entry(self@, i as int).key,
    {
        let p = self.kvPos(i);
        let klen = read_u16(slice_subrange(self.data.as_slice(), p, p + 2)) as usize;
        let ghost vlen = u16_at(self@, p + 2);
        proof {
            crate::endian::lemma_le_bounds(self@.subrange(p + 2, p + 4));
        }
        slice_subrange(self.data.as_slice(), p + 4, p + 4 + klen)
    }

    /// The value of slot `i`, for a slot whose record lies inside the buffer.
    fn val_slice(&self, i: u16) -> (v: &[u8])
        requires
            header_ok(self@),
            i < raw_nkeys(self@),
            record_ok(self@, i as int),
        ensures
            v@ == raw_entry(self@, i as int).val,
    {
        let p = self.kvPos(i);
        let klen = read_u16(slice_subrange(self.data.as_slice(), p, p + 2)) as usize;
        let vlen = read_u16(slice_subrange(self.data.as_slice(), p + 2, p + 4)) as usize;
        slice_subrange(self.data.as_slice(), p + 4 + klen, p + 4 + klen + vlen)
    }

    /// Whether slot `i` is sound.
    fn check_slot(&self, i: u16) -> (ok: bool)
        requires
            header_ok(self@),
            i < raw_nkeys(self@),
        ensures
            ok == slot_valid(self@, i as int),
    {
        let len = self.data.len();
        let p = self.kvPos(i);
        if p + 4 > len {
            return false;
        }
        let klen = read_u16(slice_subrange(self.data.as_slice(), p, p + 2)) as usize;
        let vlen = read_u16(slice_subrange(self.data.as_slice(), p + 2, p + 4)) as usize;
        let off = self.getOffset(i) as usize;
        let next = self.getOffset(i + 1) as usize;
        if next != off + 4 + klen + vlen || HEADER + 10 * (self.nkeys() as usize) + next > len {
            return false;
        }
        klen <= BTREE_MAX_KEY_SIZE && vlen <= BTREE_MAX_VAL_SIZE
    }

    /// Whether key `i` sorts after the key before it.
    fn check_order(&self, i: u16) -> (ok: bool)
        requires
            header_ok(self@),
            1 <= i < raw_nkeys(self@),
            slot_valid(self@, i - 1),
            slot_valid(self@, i as int),
        ensures
            ok == follows(self@, i as int),
    {
        let prev = self.key_slice(i - 1);
        let cur = self.key_slice(i);
        match compare_keys(prev, cur) {
            KeyOrder::Before => true,
            _ => false,
        }
    }

    /// Reads a buffer as a node. Succeeds exactly on buffers that are
    /// structurally sound and hold increasing keys within the size limits;
    /// bytes past the encoded size are ignored.
    pub fn decode(data: Vec<u8>) -> (r: Result<BNode, Error>)
        ensures
            r is Ok <==> well_formed(data@) && entries_wf(node_of(data@).entries),
            r matches Ok(node) ==> node@ == data@ && node.valid(),
            r matches Err(e) ==> e == Error::CorruptPage,
    {
        let node = BNode { data };
        let len = node.data.len();
        if len < HEADER {
            return Err(Error::CorruptPage);
        }
        let t = node.btype();
        if t != BNODE_NODE && t != BNODE_LEAF {
            return Err(Error::CorruptPage);
        }
        let n = node.nkeys();
        if HEADER + 10 * (n as usize) > len {
            return Err(Error::CorruptPage);
        }
        let ghost d = node@;
        let mut i: u16 = 0;
        while i < n
            invariant
                d == node@,
                d == data@,
                header_ok(d),
                n as int == raw_nkeys(d),
                i <= n,
                forall|j: int| 0 <= j < i ==> #[trigger] slot_valid(d, j),
                forall|j: int| 1 <= j < i ==> #[trigger] follows(d, j),
            decreases n - i,
        {
            if !node.check_slot(i) {
                proof {
                    lemma_unsound_slot(d, i as int);
                }
                return Err(Error::CorruptPage);
            }
            if i > 0 {
                assert(slot_valid(d, i - 1));
                if !node.check_order(i) {
                    proof {
                        lemma_unsorted(d, i as int);
                    }
                    return Err(Error::CorruptPage);
                }
            }
            i += 1;
        }
        proof {
            lemma_sound(d);
        }
        Ok(node)
    }

    /// The kind of the node.
    pub fn node_type(&self) -> (t: NodeType)
        requires
            self.valid(),
        ensures
            (t == NodeType::Leaf) == self.model().leaf,
    {
        if self.btype() == BNODE_LEAF {
            NodeType::Leaf
        } else {
            NodeType::Internal
        }
    }

    /// The number of keys.
    pub fn key_count(&self) -> (n: u16)
        requires
            self.valid(),
        ensures
            n as int == self.model().entries.len(),
    {
        self.nkeys()
    }

    /// The page number of child `i` of an internal node.
    pub fn child_pointer(&self, i: u16) -> (p: u64)
        requires
            self.valid(),
            !self.model().leaf,
            i < self.model().entries.len(),
        ensures
            p == self.model().entries[i as int].ptr,
    {
        self.getPtr(i)
    }

    /// Key `i`.
    pub fn key_at(&self, i: u16) -> (k: &[u8])
        requires
            self.valid(),
            i < self.model().entries.len(),
        ensures
            k@ == self.model().entries[i as int].key,
    {
        assert(record_ok(self@, i as int));
        self.key_slice(i)
    }

    /// Value `i` of a leaf.
    pub fn value_at(&self, i: u16) -> (v: &[u8])
        requires
            self.valid(),
            self.model().leaf,
            i < self.model().entries.len(),
        ensures
            v@ == self.model().entries[i as int].val,
    {
        assert(record_ok(self@, i as int));
        self.val_slice(i)
    }

    /// The number of bytes the node takes, without any padding after it.
    pub fn encoded_size(&self) -> (size: usize)
        requires
            self.valid(),
        ensures
            size as int == encoded_size(self.model().entries),
            size <= self@.len(),
    {
        proof {
            lemma_well_formed_fits(self@);
        }
        self.kvPos(self.nkeys())
    }

    /// The entries of the node, copied out in order.
    pub fn entries(&self) -> (es: Vec<Entry>)
        requires
            self.valid(),
        ensures
            models(es@) == self.model().entries,
    {
        let n = self.nkeys();
        let mut es: Vec<Entry> = Vec::new();
        let mut i: u16 = 0;
        while i < n
            invariant
                self.valid(),
                n as int == raw_nkeys(self@),
                i <= n,
                es@.len() == i,
                forall|j: int| 0 <= j < i ==> (#[trigger] es@[j])@ == raw_entry(self@, j),
            decreases n - i,
        {
            assert(record_ok(self@, i as int));
            let e = Entry {
                ptr: self.getPtr(i),
                key: slice_to_vec(self.key_slice(i)),
                val: slice_to_vec(self.val_slice(i)),
            };
            es.push(e);
            i += 1;
        }
        assert(models(es@) =~= self.model().entries);
        es
    }

    /// Writes entry `e` into slot `i` of a node under construction whose
    /// header already names the key count of `es`.
    fn put_entry(&mut self, i: u16, off: u16, e: &Entry, Ghost(es): Ghost<Seq<EntryModel>>)
        requires
            fits(es),
            old(self)@.len() >= encoded_size(es),
            raw_nkeys(old(self)@) == es.len(),
            i < es.len(),
            off as int == off_of(es, i as int),
            e@ == es[i as int],
        ensures
            final(self)@.len() == old(self)@.len(),
            slot_ok(final(self)@, es, i as int),
            forall|k: int|
                0 <= k < old(self)@.len() && !in_slot(es, i as int, k) ==> final(self)@[k] == old(
                    self,
                )@[k],
    {
        let ghost n = es.len() as int;
        let ghost d0 = self@;
        proof {
            lemma_records_size_step(es, i as int);
            lemma_records_size_mono(es, i + 1, n);
            lemma_records_size_mono(es, 0, i as int);
        }
        let klen = e.key.len();
        let vlen = e.val.len();
        let p: usize = HEADER + 10 * (self.nkeys() as usize) + (off as usize);
        assert(p as int == kv_of(es, i as int));
        assert(kv_of(es, i + 1) == p + 4 + klen + vlen);
        self.setPtr(i, e.ptr);
        write_u16(&mut self.data, p, klen as u16);
        write_u16(&mut self.data, p + 2, vlen as u16);
        copy_into(&mut self.data, p + 4, e.key.as_slice());
        copy_into(&mut self.data, p + 4 + klen, e.val.as_slice());
        let ghost d5 = self@;
        assert(raw_nkeys(d5) == n) by {
            assert(d5.subrange(2, 4) =~= d0.subrange(2, 4));
        }
        self.setOffset(i + 1, (off as usize + 4 + klen + vlen) as u16);
        proof {
            let d6 = self@;
            lemma_le_u16_roundtrip(klen as u16);
            lemma_le_u16_roundtrip(vlen as u16);
            assert(d6.subrange(ptr_pos(i as int), ptr_pos(i as int) + 8) =~= le_bytes_u64(e.ptr));
            crate::endian::lemma_le_u64_roundtrip(e.ptr);
            assert(d6.subrange(p as int, p + 2) =~= le_bytes_u16(klen as u16));
            assert(d6.subrange(p + 2, p + 4) =~= le_bytes_u16(vlen as u16));
            assert(d6.subrange(p + 4, p + 4 + klen) =~= e.key@);
            assert(d6.subrange(p + 4 + klen, p + 4 + klen + vlen) =~= e.val@);
        }
    }

    /// Builds the node of the given kind that holds exactly `entries`, in a
    /// buffer of exactly its encoded size. Fails only when the two-byte
    /// fields of the format cannot describe the entries.
    pub fn build(kind: NodeType, entries: &Vec<Entry>) -> (r: Option<BNode>)
        ensures
            r is Some <==> fits(models(entries@)),
            r matches Some(node) ==> {
                &&& well_formed(node@)
                &&& node.model() == (NodeModel {
                    leaf: kind == NodeType::Leaf,
                    entries: models(entries@),
                })
                &&& node@.len() == encoded_size(models(entries@))
            },
    {
        let ghost es = models(entries@);
        let n = entries.len();
        if n > FIELD_MAX {
            return None;
        }
        let mut total: usize = 0;
        let mut i: usize = 0;
        while i < n
            invariant
                es == models(entries@),
                n == entries@.len(),
                n <= FIELD_MAX,
                i <= n,
                total as int == records_size(es.take(i as int)),
                total <= FIELD_MAX,
            decreases n - i,
        {
            let klen = entries[i].key.len();
            let vlen = entries[i].val.len();
            proof {
                lemma_records_size_step(es, i as int);
                lemma_records_size_mono(es, i + 1, n as int);
            }
            if klen > FIELD_MAX || vlen > FIELD_MAX || total + 4 + klen + vlen > FIELD_MAX {
                return None;
            }
            total += 4 + klen + vlen;
            i += 1;
        }
        proof {
            lemma_records_size_mono(es, 0, n as int);
        }
        let size: usize = HEADER + 10 * n + total;
        let mut node = BNode { data: vec![0u8; size] };
        node.setHeader(kind.tag(), n as u16);
        let mut off: usize = 0;
        let mut j: usize = 0;
        assert(es.take(0).len() == 0);
        while j < n
            invariant
                es == models(entries@),
                n == entries@.len(),
                fits(es),
                j <= n,
                node@.len() == encoded_size(es),
                u16_at(node@, 0) == tag_of(kind == NodeType::Leaf),
                raw_nkeys(node@) == n,
                off as int == off_of(es, j as int),
                forall|k: int| 0 <= k < j ==> #[trigger] slot_ok(node@, es, k),
            decreases n - j,
        {
            let ghost before = node@;
            proof {
                lemma_records_size_step(es, j as int);
                lemma_records_size_mono(es, j + 1, n as int);
                lemma_records_size_mono(es, 0, j as int);
            }
            node.put_entry(j as u16, off as u16, &entries[j], Ghost(es));
            proof {
                let after = node@;
                assert(!in_slot(es, j as int, 0) && !in_slot(es, j as int, 1) && !in_slot(
                    es,
                    j as int,
                    2,
                ) && !in_slot(es, j as int, 3));
                assert(after.subrange(0, 2) =~= before.subrange(0, 2));
                assert(after.subrange(2, 4) =~= before.subrange(2, 4));
                assert forall|k: int| 0 <= k < j implies #[trigger] slot_ok(after, es, k) by {
                    lemma_records_size_step(es, k);
                    lemma_records_size_mono(es, k + 1, j as int);
                    lemma_records_size_mono(es, 0, k);
                    assert forall|b: int| 0 <= b < before.len() && in_slot(es, k, b) implies before[b]
                        == after[b] by {
                        assert(!in_slot(es, j as int, b));
                    }
                    lemma_slot_frame(before, after, es, k);
                }
            }
            off += 4 + entries[j].key.len() + entries[j].val.len();
            j += 1;
        }
        proof {
            lemma_encodes(node@, NodeModel { leaf: kind == NodeType::Leaf, entries: es });
        }
        Some(node)
    }

    /// The node padded with zero bytes to a full page.
    pub fn to_page(&self) -> (page: Vec<u8>)
        requires
            self.valid(),
            encoded_size(self.model().entries) <= BTREE_PAGE_SIZE,
        ensures
            page@.len() == BTREE_PAGE_SIZE,
            well_formed(page@),
            node_of(page@) == self.model(),
            forall|k: int| encoded_size(self.model().entries) <= k < BTREE_PAGE_SIZE ==> page@[k] == 0,
    {
        let size = self.encoded_size();
        let mut page: Vec<u8> = vec![0u8; BTREE_PAGE_SIZE];
        copy_into(&mut page, 0, slice_subrange(self.data.as_slice(), 0, size));
        proof {
            let src = self@.subrange(0, size as int);
            assert forall|k: int| 0 <= k < size implies self@[k] == page@[k] by {
                assert(page@.subrange(0, size as int)[k] == src[k]);
            }
            lemma_prefix(self@, page@);
        }
        page
    }
}

/// A well-formed buffer is an encoding of what it holds.
pub proof fn lemma_decodes(d: Seq<u8>)
    requires
        well_formed(d),
    ensures
        encodes(d, node_of(d)),
{
    let es = node_of(d).entries;
    let n = raw_nkeys(d);
    lemma_well_formed_fits(d);
    assert forall|j: int| 0 <= j < n implies #[trigger] slot_ok(d, es, j) by {
        lemma_offsets(d, j);
        lemma_offsets(d, j + 1);
        assert(record_ok(d, j));
        crate::endian::lemma_le_bounds(d.subrange(ptr_pos(j), ptr_pos(j) + 8));
    }
}

/// Two buffers that agree on the encoded part of a well-formed node hold
/// the same node.
pub proof fn lemma_prefix(d1: Seq<u8>, d2: Seq<u8>)
    requires
        well_formed(d1),
        d2.len() >= encoded_size(node_of(d1).entries),
        forall|k: int| 0 <= k < encoded_size(node_of(d1).entries) ==> d1[k] == d2[k],
    ensures
        well_formed(d2),
        node_of(d2) == node_of(d1),
{
    let m = node_of(d1);
    let es = m.entries;
    let n = es.len() as int;
    lemma_well_formed_fits(d1);
    lemma_decodes(d1);
    lemma_records_size_mono(es, 0, n);
    assert(d2.subrange(0, 2) =~= d1.subrange(0, 2));
    assert(d2.subrange(2, 4) =~= d1.subrange(2, 4));
    assert forall|j: int| 0 <= j < n implies #[trigger] slot_ok(d2, es, j) by {
        assert(slot_ok(d1, es, j));
        lemma_slot_frame(d1, d2, es, j);
    }
    lemma_encodes(d2, m);
}


} // verus!
