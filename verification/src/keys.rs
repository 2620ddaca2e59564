//! Byte strings ordered lexicographically, the order in which the tree keeps
//! its keys.

use vstd::prelude::*;
use vstd::slice::slice_index_get;

verus! {

/// `a` sorts strictly before `b`: at the first position where they differ
/// `a` holds the smaller byte, or `a` is a proper prefix of `b`.
pub open spec fn key_lt(a: Seq<u8>, b: Seq<u8>) -> bool
    decreases a.len(),
{
    if b.len() == 0 {
        false
    } else if a.len() == 0 {
        true
    } else if a[0] != b[0] {
        a[0] < b[0]
    } else {
        key_lt(a.subrange(1, a.len() as int), b.subrange(1, b.len() as int))
    }
}

/// `a` sorts before `b` or equals it.
pub open spec fn key_le(a: Seq<u8>, b: Seq<u8>) -> bool {
    a == b || key_lt(a, b)
}

/// Every key of `keys` sorts strictly before the next one.
pub open spec fn strictly_sorted(keys: Seq<Seq<u8>>) -> bool {
    forall|i: int, j: int| 0 <= i < j < keys.len() ==> key_lt(#[trigger] keys[i], #[trigger] keys[j])
}

/// The number of keys at the front of `keys` that sort strictly before
/// `key`. In a sorted sequence this is the position where `key` stands or
/// would be inserted.
pub open spec fn rank(keys: Seq<Seq<u8>>, key: Seq<u8>) -> int
    decreases keys.len(),
{
    if keys.len() == 0 {
        0
    } else if key_lt(keys[0], key) {
        1 + rank(keys.subrange(1, keys.len() as int), key)
    } else {
        0
    }
}

/// No key sorts before itself.
pub proof fn lemma_lt_irreflexive(a: Seq<u8>)
    ensures
        !key_lt(a, a),
    decreases a.len(),
{
    if a.len() > 0 {
        lemma_lt_irreflexive(a.subrange(1, a.len() as int));
    }
}

/// Two keys are never each before the other.
pub proof fn lemma_lt_asymmetric(a: Seq<u8>, b: Seq<u8>)
    requires
        key_lt(a, b),
    ensures
        !key_lt(b, a),
        a != b,
    decreases a.len(),
{
    lemma_lt_irreflexive(a);
    if a.len() > 0 && b.len() > 0 && a[0] == b[0] {
        lemma_lt_asymmetric(a.subrange(1, a.len() as int), b.subrange(1, b.len() as int));
    }
}

/// The order is transitive.
pub proof fn lemma_lt_transitive(a: Seq<u8>, b: Seq<u8>, c: Seq<u8>)
    requires
        key_lt(a, b),
        key_lt(b, c),
    ensures
        key_lt(a, c),
    decreases a.len(),
{
    if a.len() > 0 && b.len() > 0 && c.len() > 0 && a[0] == b[0] && b[0] == c[0] {
        lemma_lt_transitive(
            a.subrange(1, a.len() as int),
            b.subrange(1, b.len() as int),
            c.subrange(1, c.len() as int),
        );
    }
}

/// Any two keys are comparable.
pub proof fn lemma_lt_total(a: Seq<u8>, b: Seq<u8>)
    ensures
        key_lt(a, b) || a == b || key_lt(b, a),
    decreases a.len(),
{
    if a.len() == 0 || b.len() == 0 {
        if a.len() == 0 && b.len() == 0 {
            assert(a =~= b);
        }
    } else if a[0] == b[0] {
        let ta = a.subrange(1, a.len() as int);
        let tb = b.subrange(1, b.len() as int);
        lemma_lt_total(ta, tb);
        if ta == tb {
            assert(a =~= seq![a[0]] + ta);
            assert(b =~= seq![b[0]] + tb);
        }
    }
}

/// `le` followed by `lt` gives `lt`.
pub proof fn lemma_le_lt(a: Seq<u8>, b: Seq<u8>, c: Seq<u8>)
    requires
        key_le(a, b),
        key_lt(b, c),
    ensures
        key_lt(a, c),
{
    if a != b {
        lemma_lt_transitive(a, b, c);
    }
}

/// `lt` followed by `le` gives `lt`.
pub proof fn lemma_lt_le(a: Seq<u8>, b: Seq<u8>, c: Seq<u8>)
    requires
        key_lt(a, b),
        key_le(b, c),
    ensures
        key_lt(a, c),
{
    if b != c {
        lemma_lt_transitive(a, b, c);
    }
}

/// What is not before is at or after.
pub proof fn lemma_not_lt(a: Seq<u8>, b: Seq<u8>)
    ensures
        !key_lt(a, b) <==> key_le(b, a),
{
    lemma_lt_total(a, b);
    if key_lt(a, b) {
        lemma_lt_asymmetric(a, b);
    }
    if key_lt(b, a) {
        lemma_lt_asymmetric(b, a);
    }
    lemma_lt_irreflexive(a);
}

/// Keys that agree on their first `i` bytes compare as their remainders do.
pub proof fn lemma_lt_common_prefix(a: Seq<u8>, b: Seq<u8>, i: int)
    requires
        0 <= i <= a.len(),
        i <= b.len(),
        forall|j: int| 0 <= j < i ==> a[j] == b[j],
    ensures
        key_lt(a, b) == key_lt(a.subrange(i, a.len() as int), b.subrange(i, b.len() as int)),
    decreases i,
{
    if i == 0 {
        assert(a.subrange(0, a.len() as int) =~= a);
        assert(b.subrange(0, b.len() as int) =~= b);
    } else {
        let ta = a.subrange(1, a.len() as int);
        let tb = b.subrange(1, b.len() as int);
        lemma_lt_common_prefix(ta, tb, i - 1);
        assert(ta.subrange(i - 1, ta.len() as int) =~= a.subrange(i, a.len() as int));
        assert(tb.subrange(i - 1, tb.len() as int) =~= b.subrange(i, b.len() as int));
    }
}

/// In a sorted sequence `rank` splits the keys into those before `key` and
/// those at or after it.
pub proof fn lemma_rank_splits(keys: Seq<Seq<u8>>, key: Seq<u8>)
    requires
        strictly_sorted(keys),
    ensures
        0 <= rank(keys, key) <= keys.len(),
        forall|j: int| 0 <= j < rank(keys, key) ==> key_lt(#[trigger] keys[j], key),
        forall|j: int| rank(keys, key) <= j < keys.len() ==> !key_lt(#[trigger] keys[j], key),
    decreases keys.len(),
{
    if keys.len() > 0 {
        let tail = keys.subrange(1, keys.len() as int);
        assert forall|i: int, j: int| 0 <= i < j < tail.len() implies key_lt(
            #[trigger] tail[i],
            #[trigger] tail[j],
        ) by {
            assert(tail[i] == keys[i + 1]);
            assert(tail[j] == keys[j + 1]);
        }
        lemma_rank_splits(tail, key);
        if key_lt(keys[0], key) {
            assert forall|j: int| 0 <= j < rank(keys, key) implies key_lt(
                #[trigger] keys[j],
                key,
            ) by {
                if j > 0 {
                    assert(keys[j] == tail[j - 1]);
                }
            }
            assert forall|j: int| rank(keys, key) <= j < keys.len() implies !key_lt(
                #[trigger] keys[j],
                key,
            ) by {
                assert(keys[j] == tail[j - 1]);
            }
        } else {
            assert forall|j: int| 0 <= j < keys.len() implies !key_lt(#[trigger] keys[j], key) by {
                if j > 0 {
                    assert(key_lt(keys[0], keys[j]));
                    if key_lt(keys[j], key) {
                        lemma_lt_transitive(keys[0], keys[j], key);
                    }
                }
            }
        }
    }
}

/// A position that splits a sorted sequence as `rank` does is `rank`.
pub proof fn lemma_rank_unique(keys: Seq<Seq<u8>>, key: Seq<u8>, i: int)
    requires
        strictly_sorted(keys),
        0 <= i <= keys.len(),
        forall|j: int| 0 <= j < i ==> key_lt(#[trigger] keys[j], key),
        forall|j: int| i <= j < keys.len() ==> !key_lt(#[trigger] keys[j], key),
    ensures
        rank(keys, key) == i,
{
    lemma_rank_splits(keys, key);
    let r = rank(keys, key);
    if r < i {
        assert(key_lt(keys[r], key));
    } else if i < r {
        assert(key_lt(keys[i], key));
    }
}

/// Taking a key out of a sorted sequence leaves it sorted.
pub proof fn lemma_sorted_remove(keys: Seq<Seq<u8>>, i: int)
    requires
        strictly_sorted(keys),
        0 <= i < keys.len(),
    ensures
        strictly_sorted(keys.remove(i)),
{
    let r = keys.remove(i);
    assert forall|a: int, b: int| 0 <= a < b < r.len() implies key_lt(
        #[trigger] r[a],
        #[trigger] r[b],
    ) by {
        let a0 = if a < i { a } else { a + 1 };
        let b0 = if b < i { b } else { b + 1 };
        assert(r[a] == keys[a0] && r[b] == keys[b0]);
    }
}

/// A contiguous part of a sorted sequence is sorted.
pub proof fn lemma_sorted_subrange(keys: Seq<Seq<u8>>, from: int, to: int)
    requires
        strictly_sorted(keys),
        0 <= from <= to <= keys.len(),
    ensures
        strictly_sorted(keys.subrange(from, to)),
{
    let r = keys.subrange(from, to);
    assert forall|a: int, b: int| 0 <= a < b < r.len() implies key_lt(
        #[trigger] r[a],
        #[trigger] r[b],
    ) by {
        assert(r[a] == keys[a + from] && r[b] == keys[b + from]);
    }
}

/// A key put between its neighbours keeps a sorted sequence sorted.
pub proof fn lemma_sorted_insert(keys: Seq<Seq<u8>>, i: int, key: Seq<u8>)
    requires
        strictly_sorted(keys),
        0 <= i <= keys.len(),
        i > 0 ==> key_lt(keys[i - 1], key),
        i < keys.len() ==> key_lt(key, keys[i]),
    ensures
        strictly_sorted(keys.insert(i, key)),
{
    let r = keys.insert(i, key);
    assert forall|a: int, b: int| 0 <= a < b < r.len() implies key_lt(
        #[trigger] r[a],
        #[trigger] r[b],
    ) by {
        if b == i {
            assert(r[a] == keys[a]);
            if a < i - 1 {
                assert(key_lt(keys[a], keys[i - 1]));
                lemma_lt_transitive(keys[a], keys[i - 1], key);
            }
        } else if a == i {
            assert(r[b] == keys[b - 1]);
            if b - 1 > i {
                assert(key_lt(keys[i], keys[b - 1]));
                lemma_lt_transitive(key, keys[i], keys[b - 1]);
            }
        } else {
            let a0 = if a < i { a } else { a - 1 };
            let b0 = if b < i { b } else { b - 1 };
            assert(r[a] == keys[a0] && r[b] == keys[b0]);
        }
    }
}

/// Two sorted sequences, the first ending before the second begins, are
/// sorted when joined.
pub proof fn lemma_sorted_concat(a: Seq<Seq<u8>>, b: Seq<Seq<u8>>)
    requires
        strictly_sorted(a),
        strictly_sorted(b),
        a.len() > 0 && b.len() > 0 ==> key_lt(a.last(), b[0]),
    ensures
        strictly_sorted(a + b),
{
    let r = a + b;
    assert forall|x: int, y: int| 0 <= x < y < r.len() implies key_lt(
        #[trigger] r[x],
        #[trigger] r[y],
    ) by {
        if y < a.len() {
            assert(r[x] == a[x] && r[y] == a[y]);
        } else if x >= a.len() {
            assert(r[x] == b[x - a.len()] && r[y] == b[y - a.len()]);
        } else {
            assert(r[x] == a[x] && r[y] == b[y - a.len()]);
            if x < a.len() - 1 {
                assert(key_lt(a[x], a[a.len() - 1]));
                lemma_lt_transitive(a[x], a.last(), b[0]);
            }
            if y - a.len() > 0 {
                assert(key_lt(b[0], b[y - a.len()]));
                lemma_lt_transitive(a[x], b[0], b[y - a.len()]);
            }
        }
    }
}

/// How two keys compare.
#[derive(Clone, Copy, Debug, PartialEq, Eq, Structural)]
pub enum KeyOrder {
    /// The first key sorts before the second.
    Before,
    /// The keys are the same bytes.
    Same,
    /// The first key sorts after the second.
    After,
}

/// The order of `a` relative to `b`.
pub open spec fn key_order(a: Seq<u8>, b: Seq<u8>) -> KeyOrder {
    if key_lt(a, b) {
        KeyOrder::Before
    } else if a == b {
        KeyOrder::Same
    } else {
        KeyOrder::After
    }
}

/// Compares two keys byte by byte.
pub fn compare_keys(a: &[u8], b: &[u8]) -> (r: KeyOrder)
    ensures
        r == key_order(a@, b@),
        r == KeyOrder::After <==> key_lt(b@, a@),
{
    let mut i: usize = 0;
    while i < a.len() && i < b.len()
        invariant
            i <= a@.len(),
            i <= b@.len(),
            forall|j: int| 0 <= j < i ==> a@[j] == b@[j],
        decreases a@.len() - i,
    {
        let x: u8 = *slice_index_get(a, i);
        let y: u8 = *slice_index_get(b, i);
        if x != y {
            proof {
                lemma_lt_common_prefix(a@, b@, i as int);
                lemma_lt_common_prefix(b@, a@, i as int);
                let ta = a@.subrange(i as int, a@.len() as int);
                let tb = b@.subrange(i as int, b@.len() as int);
                assert(ta[0] == x && tb[0] == y);
                if x < y {
                    lemma_lt_asymmetric(a@, b@);
                } else {
                    lemma_lt_asymmetric(b@, a@);
                }
            }
            if x < y {
                return KeyOrder::Before;
            } else {
                return KeyOrder::After;
            }
        }
        i += 1;
    }
    proof {
        lemma_lt_common_prefix(a@, b@, i as int);
        lemma_lt_common_prefix(b@, a@, i as int);
        let ta = a@.subrange(i as int, a@.len() as int);
        let tb = b@.subrange(i as int, b@.len() as int);
        if a@.len() == b@.len() {
            assert(a@ =~= b@);
            lemma_lt_irreflexive(a@);
        } else if i == a@.len() {
            assert(ta.len() == 0 && tb.len() > 0);
            lemma_lt_asymmetric(a@, b@);
        } else {
            assert(tb.len() == 0 && ta.len() > 0);
            lemma_lt_asymmetric(b@, a@);
        }
    }
    if a.len() == b.len() {
        KeyOrder::Same
    } else if i == a.len() {
        KeyOrder::Before
    } else {
        KeyOrder::After
    }
}

} // verus!
