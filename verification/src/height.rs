//! The height of a tree: there is only one, and it is less than the
//! number of pages.

use crate::shape::{in_kids, in_subtree, kid_wf, node_at, slot, subtree_wf, upper};
use vstd::prelude::*;

verus! {

/// The pages on the way from the page `id` down to the first leaf below
/// it.
pub open spec fn spine(pages: Seq<Seq<u8>>, id: u64, h: nat) -> Seq<u64>
    decreases h,
{
    if h == 0 {
        seq![id]
    } else {
        seq![id] + spine(pages, node_at(pages, id).entries[0].ptr, (h - 1) as nat)
    }
}

/// Distinct numbers under a bound are no more than the bound.
pub proof fn lemma_pigeons(s: Seq<u64>, n: nat)
    requires
        s.no_duplicates(),
        forall|i: int| 0 <= i < s.len() ==> #[trigger] s[i] < n,
    ensures
        s.len() <= n,
    decreases n,
{
    if s.len() > 0 {
        assert(s[0] < n);
        let top = (n - 1) as nat;
        if exists|i: int| 0 <= i < s.len() && s[i] == top {
            let i = choose|i: int| 0 <= i < s.len() && s[i] == top;
            let rest = s.remove(i);
            assert forall|a: int, b: int|
                0 <= a < rest.len() && 0 <= b < rest.len() && a != b implies rest[a] != rest[b] by {
                let a0 = if a < i {
                    a
                } else {
                    a + 1
                };
                let b0 = if b < i {
                    b
                } else {
                    b + 1
                };
                assert(rest[a] == s[a0] && rest[b] == s[b0]);
            }
            assert forall|j: int| 0 <= j < rest.len() implies #[trigger] rest[j] < top by {
                let j0 = if j < i {
                    j
                } else {
                    j + 1
                };
                assert(rest[j] == s[j0]);
                assert(s[j0] != s[i]);
            }
            lemma_pigeons(rest, top);
        } else {
            assert forall|j: int| 0 <= j < s.len() implies #[trigger] s[j] < top by {
                assert(s[j] < n);
            }
            lemma_pigeons(s, top);
        }
    }
}

/// The way down a well-formed subtree visits one page per level, each a
/// page of the subtree, and none twice.
pub proof fn lemma_spine(pages: Seq<Seq<u8>>, id: u64, h: nat, hi: Option<Seq<u8>>)
    requires
        subtree_wf(pages, id, h, hi),
    ensures
        spine(pages, id, h).len() == h + 1,
        spine(pages, id, h).no_duplicates(),
        forall|i: int|
            0 <= i < spine(pages, id, h).len() ==> in_subtree(
                pages,
                id,
                h,
                #[trigger] spine(pages, id, h)[i],
            ) && spine(pages, id, h)[i] < pages.len(),
    decreases h,
{
    let s = spine(pages, id, h);
    if h > 0 {
        let es = node_at(pages, id).entries;
        let hk = (h - 1) as nat;
        let kid = es[0].ptr;
        let below = spine(pages, kid, hk);
        assert(kid_wf(pages, slot(es, 0), hk, upper(es, 0, hi)));
        lemma_spine(pages, kid, hk, upper(es, 0, hi));
        assert forall|i: int| 0 <= i < s.len() implies in_subtree(pages, id, h, #[trigger] s[i])
            && s[i] < pages.len() by {
            if i > 0 {
                assert(s[i] == below[i - 1]);
                assert(in_subtree(pages, slot(es, 0).ptr, hk, below[i - 1]));
                assert(in_kids(pages, es, hk, s[i]));
            }
        }
        assert forall|a: int, b: int| 0 <= a < s.len() && 0 <= b < s.len() && a != b implies s[a]
            != s[b] by {
            if a > 0 && b > 0 {
                assert(s[a] == below[a - 1] && s[b] == below[b - 1]);
            } else {
                let other = if a == 0 {
                    b
                } else {
                    a
                };
                assert(s[other] == below[other - 1]);
                assert(in_subtree(pages, slot(es, 0).ptr, hk, below[other - 1]));
                assert(in_kids(pages, es, hk, s[other]));
            }
        }
    }
}

/// A well-formed subtree is lower than the number of pages.
pub proof fn lemma_height_bound(pages: Seq<Seq<u8>>, id: u64, h: nat, hi: Option<Seq<u8>>)
    requires
        subtree_wf(pages, id, h, hi),
    ensures
        h + 1 <= pages.len(),
{
    lemma_spine(pages, id, h, hi);
    lemma_pigeons(spine(pages, id, h), pages.len());
}

/// A page is the root of well-formed subtrees of one height only.
pub proof fn lemma_height_unique(
    pages: Seq<Seq<u8>>,
    id: u64,
    h1: nat,
    hi1: Option<Seq<u8>>,
    h2: nat,
    hi2: Option<Seq<u8>>,
)
    requires
        subtree_wf(pages, id, h1, hi1),
        subtree_wf(pages, id, h2, hi2),
    ensures
        h1 == h2,
    decreases h1,
{
    if h1 > 0 && h2 > 0 {
        let es = node_at(pages, id).entries;
        assert(kid_wf(pages, slot(es, 0), (h1 - 1) as nat, upper(es, 0, hi1)));
        assert(kid_wf(pages, slot(es, 0), (h2 - 1) as nat, upper(es, 0, hi2)));
        lemma_height_unique(
            pages,
            es[0].ptr,
            (h1 - 1) as nat,
            upper(es, 0, hi1),
            (h2 - 1) as nat,
            upper(es, 0, hi2),
        );
    }
}

} // verus!
