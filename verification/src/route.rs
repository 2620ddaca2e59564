//! How lookups route through sorted keys, and how that survives the ways
//! the tree rearranges them: cutting a run in two, replacing one key by a
//! run, lowering the first key.

use crate::keys::{key_le, key_lt, lemma_lt_asymmetric, lemma_lt_irreflexive, lemma_lt_le, lemma_lt_transitive, lemma_le_lt, lemma_not_lt, lemma_rank_splits, lemma_sorted_subrange, rank, strictly_sorted};
use crate::ops::{child_index, has_key, lemma_child_index, lemma_has_key};
use vstd::prelude::*;

verus! {

/// `le` is transitive.
pub proof fn lemma_le_transitive(a: Seq<u8>, b: Seq<u8>, c: Seq<u8>)
    requires
        key_le(a, b),
        key_le(b, c),
    ensures
        key_le(a, c),
{
    if a != b && b != c {
        lemma_lt_transitive(a, b, c);
    }
}

/// In a sorted sequence an earlier key is at or before a later one.
pub proof fn lemma_sorted_le(keys: Seq<Seq<u8>>, i: int, j: int)
    requires
        strictly_sorted(keys),
        0 <= i <= j < keys.len(),
    ensures
        key_le(keys[i], keys[j]),
{
    if i < j {
        assert(key_lt(keys[i], keys[j]));
    }
}

/// The child that owns `key` is the only position with every later key
/// after `key` and, unless it is the first, its own key at or before it.
pub proof fn lemma_child_index_unique(keys: Seq<Seq<u8>>, key: Seq<u8>, c: int)
    requires
        strictly_sorted(keys),
        0 <= c < keys.len(),
        forall|j: int| c < j < keys.len() ==> key_lt(key, #[trigger] keys[j]),
        c == 0 || key_le(keys[c], key),
    ensures
        child_index(keys, key) == c,
{
    lemma_child_index(keys, key);
    let ci = child_index(keys, key);
    if ci < c {
        assert(key_lt(key, keys[c]));
        lemma_not_lt(key, keys[c]);
    } else if ci > c {
        assert(key_lt(key, keys[ci]));
        lemma_not_lt(key, keys[ci]);
        if key_le(keys[0], key) {
            assert(key_le(keys[ci], key));
        }
    }
}

/// What holds at the child that owns `key`.
pub proof fn lemma_child_index_bounds(keys: Seq<Seq<u8>>, key: Seq<u8>)
    requires
        strictly_sorted(keys),
        keys.len() > 0,
    ensures
        0 <= child_index(keys, key) < keys.len(),
        forall|j: int| child_index(keys, key) < j < keys.len() ==> key_lt(key, #[trigger] keys[j]),
        child_index(keys, key) > 0 ==> key_le(keys[child_index(keys, key)], key),
        key_le(keys[0], key) ==> key_le(keys[child_index(keys, key)], key),
{
    lemma_child_index(keys, key);
    let ci = child_index(keys, key);
    if ci > 0 {
        if !key_le(keys[0], key) {
            assert(ci == 0);
        }
        assert(key_le(keys[ci], key));
    }
    if key_le(keys[0], key) {
        assert(key_le(keys[ci], key));
    }
}

/// Cutting a run of keys in two: a key before the first key of the second
/// part routes within the first part, any other key within the second.
pub proof fn lemma_route_cut(keys: Seq<Seq<u8>>, a: int, key: Seq<u8>)
    requires
        strictly_sorted(keys),
        0 < a < keys.len(),
    ensures
        key_lt(key, keys[a]) ==> child_index(keys, key) == child_index(keys.take(a), key),
        !key_lt(key, keys[a]) ==> child_index(keys, key) == a + child_index(keys.skip(a), key),
{
    let left = keys.take(a);
    let right = keys.skip(a);
    lemma_sorted_subrange(keys, 0, a);
    lemma_sorted_subrange(keys, a, keys.len() as int);
    assert(left =~= keys.subrange(0, a));
    assert(right =~= keys.subrange(a, keys.len() as int));
    if key_lt(key, keys[a]) {
        lemma_child_index_bounds(left, key);
        let c = child_index(left, key);
        assert forall|j: int| c < j < keys.len() implies key_lt(key, #[trigger] keys[j]) by {
            if j < a {
                assert(keys[j] == left[j]);
            } else if j > a {
                assert(key_lt(keys[a], keys[j]));
                lemma_lt_transitive(key, keys[a], keys[j]);
            }
        }
        assert(keys[c] == left[c]);
        lemma_child_index_unique(keys, key, c);
    } else {
        lemma_not_lt(key, keys[a]);
        lemma_child_index_bounds(right, key);
        let c = child_index(right, key);
        assert(right[0] == keys[a]);
        assert forall|j: int| a + c < j < keys.len() implies key_lt(key, #[trigger] keys[j]) by {
            assert(keys[j] == right[j - a]);
        }
        assert(keys[a + c] == right[c]);
        lemma_child_index_unique(keys, key, a + c);
    }
}

/// Cutting a run of keys in two: a key before the first key of the second
/// part is found in the first part or not at all, any other key in the
/// second part or not at all.
pub proof fn lemma_find_cut(keys: Seq<Seq<u8>>, a: int, key: Seq<u8>)
    requires
        strictly_sorted(keys),
        0 < a < keys.len(),
    ensures
        key_lt(key, keys[a]) ==> has_key(keys, key) == has_key(keys.take(a), key) && (has_key(
            keys,
            key,
        ) ==> rank(keys, key) == rank(keys.take(a), key)),
        !key_lt(key, keys[a]) ==> has_key(keys, key) == has_key(keys.skip(a), key) && (has_key(
            keys,
            key,
        ) ==> rank(keys, key) == a + rank(keys.skip(a), key)),
{
    let left = keys.take(a);
    let right = keys.skip(a);
    lemma_sorted_subrange(keys, 0, a);
    lemma_sorted_subrange(keys, a, keys.len() as int);
    assert(left =~= keys.subrange(0, a));
    assert(right =~= keys.subrange(a, keys.len() as int));
    lemma_has_key(keys, key);
    lemma_has_key(left, key);
    lemma_has_key(right, key);
    lemma_rank_splits(keys, key);
    lemma_lt_irreflexive(key);
    if key_lt(key, keys[a]) {
        if has_key(keys, key) {
            let r = rank(keys, key);
            if r >= a {
                lemma_sorted_le(keys, a, r);
                lemma_lt_le(key, keys[a], keys[r]);
            }
            assert(left[r] == key);
        }
        if has_key(left, key) {
            let r = rank(left, key);
            assert(keys[r] == left[r]);
        }
    } else {
        lemma_not_lt(key, keys[a]);
        if has_key(keys, key) {
            let r = rank(keys, key);
            if r < a {
                assert(key_lt(keys[r], keys[a]));
                lemma_lt_asymmetric(keys[r], keys[a]);
                lemma_not_lt(keys[r], keys[a]);
            }
            assert(right[r - a] == key);
        }
        if has_key(right, key) {
            let r = rank(right, key);
            assert(keys[r + a] == right[r]);
        }
    }
}

/// Lowering the first key of a run does not change where any key routes.
pub proof fn lemma_route_lower_first(keys: Seq<Seq<u8>>, first: Seq<u8>, key: Seq<u8>)
    requires
        strictly_sorted(keys),
        keys.len() > 0,
        key_le(first, keys[0]),
    ensures
        strictly_sorted(keys.update(0, first)),
        child_index(keys.update(0, first), key) == child_index(keys, key),
{
    let low = keys.update(0, first);
    assert forall|i: int, j: int| 0 <= i < j < low.len() implies key_lt(
        #[trigger] low[i],
        #[trigger] low[j],
    ) by {
        assert(key_lt(keys[i], keys[j]));
        if i == 0 {
            lemma_le_lt(first, keys[0], keys[j]);
        }
    }
    lemma_child_index_bounds(keys, key);
    let c = child_index(keys, key);
    assert forall|j: int| c < j < low.len() implies key_lt(key, #[trigger] low[j]) by {
        assert(low[j] == keys[j]);
    }
    lemma_child_index_unique(low, key, c);
}

/// The keys of `keys` with those from `from` up to `to` replaced by the
/// run `run`.
pub open spec fn respliced(keys: Seq<Seq<u8>>, from: int, to: int, run: Seq<Seq<u8>>) -> Seq<Seq<u8>> {
    keys.take(from) + run + keys.skip(to)
}

/// Replacing a run of keys by a run that begins with the same key, or for
/// a run at the front with a key no later, shifts the routes after it and
/// sends what routed into the replaced run into the new one.
pub proof fn lemma_route_resplice(
    keys: Seq<Seq<u8>>,
    from: int,
    to: int,
    run: Seq<Seq<u8>>,
    key: Seq<u8>,
)
    requires
        strictly_sorted(keys),
        strictly_sorted(respliced(keys, from, to, run)),
        0 <= from < to <= keys.len(),
        run.len() > 0,
        from > 0 ==> run[0] == keys[from],
        from == 0 ==> key_le(run[0], keys[0]),
    ensures
        child_index(keys, key) < from ==> child_index(respliced(keys, from, to, run), key)
            == child_index(keys, key),
        from <= child_index(keys, key) < to ==> child_index(respliced(keys, from, to, run), key)
            == from + child_index(run, key),
        child_index(keys, key) >= to ==> child_index(respliced(keys, from, to, run), key)
            == child_index(keys, key) - (to - from) + run.len(),
{
    let out = respliced(keys, from, to, run);
    let n = keys.len() as int;
    let m = run.len() as int;
    let d = to - from;
    lemma_child_index_bounds(keys, key);
    let c = child_index(keys, key);
    assert forall|j: int| 0 <= j < out.len() implies #[trigger] out[j] == (if j < from {
        keys[j]
    } else if j < from + m {
        run[j - from]
    } else {
        keys[j - m + d]
    }) by {}
    lemma_sorted_subrange(out, from, from + m);
    assert(run =~= out.subrange(from, from + m));
    if c < from {
        assert forall|j: int| c < j < out.len() implies key_lt(key, #[trigger] out[j]) by {
            if j < from {
                assert(out[j] == keys[j]);
            } else if j < from + m {
                assert(key_lt(key, keys[from]));
                assert(out[from] == run[0]);
                if j > from {
                    assert(key_lt(out[from], out[j]));
                    lemma_lt_transitive(key, out[from], out[j]);
                }
            } else {
                assert(out[j] == keys[j - m + d]);
            }
        }
        assert(out[c] == keys[c]);
        lemma_child_index_unique(out, key, c);
    } else if c < to {
        lemma_child_index_bounds(run, key);
        let r = child_index(run, key);
        assert forall|j: int| from + r < j < out.len() implies key_lt(key, #[trigger] out[j]) by {
            if j < from + m {
                assert(out[j] == run[j - from]);
            } else {
                assert(out[j] == keys[j - m + d]);
            }
        }
        assert(out[from + r] == run[r]);
        if from + r > 0 && r == 0 {
            lemma_sorted_le(keys, from, c);
            assert(key_le(keys[c], key));
            lemma_le_transitive(keys[from], keys[c], key);
        }
        lemma_child_index_unique(out, key, from + r);
    } else {
        assert forall|j: int| c - d + m < j < out.len() implies key_lt(key, #[trigger] out[j]) by {
            assert(out[j] == keys[j - m + d]);
        }
        assert(out[c - d + m] == keys[c]);
        lemma_child_index_unique(out, key, c - d + m);
    }
}

} // verus!
