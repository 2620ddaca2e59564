//! The page manager: logical page numbers, the free list, and the meta
//! page.
//!
//! Page 0 is a sentinel that is never handed out and page 1 is the meta
//! page. Every other page is either live, on the free list, or waiting to
//! go there at the next commit. The free list is a stack: every free page
//! holds the number of the page freed before it, and the meta page holds
//! the number of the page freed last.

use crate::endian::{
    le_bytes_u64, lemma_le_bounds, lemma_le_u64_roundtrip, read_u16, read_u64, u16_at, u64_at,
    write_u64,
};
use crate::error::Error;
use crate::node::{BNode, BTREE_PAGE_SIZE};
use vstd::prelude::*;
use vstd::slice::slice_subrange;

verus! {

/// Type tag of a page on the free list.
pub const BNODE_FREE: u16 = 3;

/// The page that holds the root, the head of the free list and the page
/// count.
pub const META_PAGE: u64 = 1;

/// The first page number that can hold a node.
pub const FIRST_PAGE: u64 = 2;

/// Bytes of the meta page that carry data, checksum included.
pub const META_SIZE: usize = 32;

/// The modulus of the checksum's two running sums.
pub const CHECK_MOD: u32 = 65521;

/// The first running sum of the checksum: one plus the sum of the bytes.
pub open spec fn check_a(s: Seq<u8>) -> int
    decreases s.len(),
{
    if s.len() == 0 {
        1
    } else {
        (check_a(s.drop_last()) + s.last() as int) % (CHECK_MOD as int)
    }
}

/// The second running sum of the checksum: the sum of the values the first
/// one takes.
pub open spec fn check_b(s: Seq<u8>) -> int
    decreases s.len(),
{
    if s.len() == 0 {
        0
    } else {
        (check_b(s.drop_last()) + check_a(s)) % (CHECK_MOD as int)
    }
}

/// The checksum of `s`: both running sums, the second in the upper half.
pub open spec fn checksum(s: Seq<u8>) -> int {
    check_b(s) * 65536 + check_a(s)
}

/// Computes the checksum of `bytes`.
pub fn compute_checksum(bytes: &[u8]) -> (sum: u64)
    ensures
        sum as int == checksum(bytes@),
{
    let mut a: u32 = 1;
    let mut b: u32 = 0;
    let mut i: usize = 0;
    assert(bytes@.take(0).len() == 0);
    while i < bytes.len()
        invariant
            i <= bytes@.len(),
            a as int == check_a(bytes@.take(i as int)),
            b as int == check_b(bytes@.take(i as int)),
            a < CHECK_MOD,
            b < CHECK_MOD,
        decreases bytes@.len() - i,
    {
        assert(bytes@.take(i + 1).drop_last() =~= bytes@.take(i as int));
        a = (a + bytes[i] as u32) % CHECK_MOD;
        b = (b + a) % CHECK_MOD;
        i += 1;
    }
    assert(bytes@.take(i as int) =~= bytes@);
    (b as u64) * 65536 + (a as u64)
}

/// What the meta page records.
#[derive(Clone, Copy, Debug, PartialEq, Eq, Structural)]
pub struct Meta {
    /// The root of the tree, or 0 for an empty tree.
    pub root: u64,
    /// The page freed last, or 0 for an empty free list.
    pub free_head: u64,
    /// The number of pages of the file, pages 0 and 1 included.
    pub page_count: u64,
}

/// The checksum stored in `page` is that of its first three fields.
pub open spec fn meta_valid(page: Seq<u8>) -> bool {
    page.len() >= META_SIZE && u64_at(page, 24) == checksum(page.subrange(0, 24))
}

/// The three fields of `page`, whatever its checksum.
pub open spec fn meta_of(page: Seq<u8>) -> Meta {
    Meta {
        root: u64_at(page, 0) as u64,
        free_head: u64_at(page, 8) as u64,
        page_count: u64_at(page, 16) as u64,
    }
}

impl Meta {
    /// Reads a meta page, refusing one whose checksum does not match.
    pub fn decode(page: &[u8]) -> (r: Result<Meta, Error>)
        ensures
            r is Ok <==> meta_valid(page@),
            r matches Ok(m) ==> m == meta_of(page@),
            r matches Err(e) ==> e == Error::CorruptMeta,
    {
        if page.len() < META_SIZE {
            return Err(Error::CorruptMeta);
        }
        let stored = read_u64(slice_subrange(page, 24, 32));
        let sum = compute_checksum(slice_subrange(page, 0, 24));
        if stored != sum {
            return Err(Error::CorruptMeta);
        }
        proof {
            lemma_le_bounds(page@.subrange(0, 8));
            lemma_le_bounds(page@.subrange(8, 16));
            lemma_le_bounds(page@.subrange(16, 24));
        }
        Ok(
            Meta {
                root: read_u64(slice_subrange(page, 0, 8)),
                free_head: read_u64(slice_subrange(page, 8, 16)),
                page_count: read_u64(slice_subrange(page, 16, 24)),
            },
        )
    }

    /// Writes the meta page: the three fields, their checksum, and zeros up
    /// to the page size. Reading it back gives the same fields.
    pub fn encode(&self) -> (page: Vec<u8>)
        ensures
            page@.len() == BTREE_PAGE_SIZE,
            meta_valid(page@),
            meta_of(page@) == *self,
    {
        let mut page: Vec<u8> = vec![0u8; BTREE_PAGE_SIZE];
        write_u64(&mut page, 0, self.root);
        write_u64(&mut page, 8, self.free_head);
        write_u64(&mut page, 16, self.page_count);
        let ghost body = page@.subrange(0, 24);
        let sum = compute_checksum(slice_subrange(page.as_slice(), 0, 24));
        write_u64(&mut page, 24, sum);
        proof {
            lemma_le_u64_roundtrip(self.root);
            lemma_le_u64_roundtrip(self.free_head);
            lemma_le_u64_roundtrip(self.page_count);
            lemma_le_u64_roundtrip(sum);
            assert(page@.subrange(0, 24) =~= body);
            assert(page@.subrange(0, 8) =~= le_bytes_u64(self.root));
            assert(page@.subrange(8, 16) =~= le_bytes_u64(self.free_head));
            assert(page@.subrange(16, 24) =~= le_bytes_u64(self.page_count));
        }
        page
    }
}

/// `page` is a page of the free list.
pub open spec fn is_free_page(page: Seq<u8>) -> bool {
    page.len() == BTREE_PAGE_SIZE && u16_at(page, 0) == BNODE_FREE
}

/// The page that was freed before `page`, or 0.
pub open spec fn next_free(page: Seq<u8>) -> u64 {
    u64_at(page, 4) as u64
}

/// Every page of the free list `free` is marked free and links to the page
/// freed before it; the first one links to 0.
pub open spec fn linked(pages: Seq<Seq<u8>>, free: Seq<u64>) -> bool {
    forall|i: int|
        0 <= i < free.len() ==> is_free_page(#[trigger] pages[free[i] as int]) && next_free(
            pages[free[i] as int],
        ) == if i == 0 {
            0
        } else {
            free[i - 1]
        }
}

/// The contents of a vector of pages.
pub open spec fn image_of(pages: Seq<Vec<u8>>) -> Seq<Seq<u8>> {
    Seq::new(pages.len(), |i: int| pages[i]@)
}

/// The pages are the image of a sound store whose free list is `free`:
/// every page has the page size, the meta page carries a matching
/// checksum, the true page count and a root that is 0 or in range, and
/// the free list is a chain of distinct free pages in range that begins
/// at the head the meta page names.
pub open spec fn describes(pages: Seq<Seq<u8>>, free: Seq<u64>) -> bool {
    &&& pages.len() >= 2
    &&& forall|i: int| 0 <= i < pages.len() ==> (#[trigger] pages[i]).len() == BTREE_PAGE_SIZE
    &&& meta_valid(pages[META_PAGE as int])
    &&& meta_of(pages[META_PAGE as int]).page_count == pages.len()
    &&& (meta_of(pages[META_PAGE as int]).root == 0 || FIRST_PAGE <= meta_of(
        pages[META_PAGE as int],
    ).root < pages.len())
    &&& forall|i: int| 0 <= i < free.len() ==> FIRST_PAGE <= #[trigger] free[i] < pages.len()
    &&& free.no_duplicates()
    &&& linked(pages, free)
    &&& meta_of(pages[META_PAGE as int]).free_head == if free.len() == 0 {
        0
    } else {
        free.last()
    }
}

/// The walk from the head of the free list has followed the free list
/// `free`, last page first, and stands at the page `cur`.
pub open spec fn follows_list(walk: Seq<u64>, cur: u64, free: Seq<u64>) -> bool {
    &&& walk.len() <= free.len()
    &&& forall|j: int| 0 <= j < walk.len() ==> #[trigger] walk[j] == free[free.len() - 1 - j]
    &&& cur == if walk.len() < free.len() {
        free[free.len() - 1 - walk.len()]
    } else {
        0
    }
}

/// One step of the walk along a free list that describes the pages: the
/// page the walk stands at is a free page in range that the walk has not
/// seen, and the page it links to is the next of the list.
pub proof fn lemma_follow(pages: Seq<Seq<u8>>, walk: Seq<u64>, cur: u64, free: Seq<u64>)
    requires
        describes(pages, free),
        follows_list(walk, cur, free),
        cur != 0,
    ensures
        FIRST_PAGE <= cur < pages.len(),
        !walk.contains(cur),
        is_free_page(pages[cur as int]),
        follows_list(walk.push(cur), next_free(pages[cur as int]), free),
{
    let at = free.len() - 1 - walk.len();
    assert(cur == free[at]);
    if walk.contains(cur) {
        let j = choose|j: int| 0 <= j < walk.len() && walk[j] == cur;
        assert(walk[j] == free[free.len() - 1 - j]);
    }
    assert(is_free_page(pages[free[at] as int]));
    let more = walk.push(cur);
    assert forall|j: int| 0 <= j < more.len() implies #[trigger] more[j] == free[free.len() - 1
        - j] by {
        if j < walk.len() {
            assert(more[j] == walk[j]);
        }
    }
}

/// The list `free` is a chain of distinct free pages in range that begins
/// at `head`.
pub open spec fn chain(pages: Seq<Seq<u8>>, free: Seq<u64>, head: u64) -> bool {
    &&& forall|i: int| 0 <= i < free.len() ==> FIRST_PAGE <= #[trigger] free[i] < pages.len()
    &&& free.no_duplicates()
    &&& linked(pages, free)
    &&& head == if free.len() == 0 {
        0
    } else {
        free.last()
    }
}

/// The pages hold one chain from a head at most.
pub proof fn lemma_chain_unique(pages: Seq<Seq<u8>>, a: Seq<u64>, b: Seq<u64>, head: u64)
    requires
        chain(pages, a, head),
        chain(pages, b, head),
    ensures
        a == b,
    decreases a.len(),
{
    if a.len() == 0 || b.len() == 0 {
        if a.len() > 0 {
            assert(FIRST_PAGE <= a[a.len() - 1]);
        }
        if b.len() > 0 {
            assert(FIRST_PAGE <= b[b.len() - 1]);
        }
        assert(a =~= b);
    } else {
        let ra = a.drop_last();
        let rb = b.drop_last();
        let page = pages[head as int];
        assert(is_free_page(pages[a[a.len() - 1] as int]));
        assert(is_free_page(pages[b[b.len() - 1] as int]));
        let next = next_free(page);
        assert forall|x: Seq<u64>| #![trigger x.drop_last()] chain(pages, x, head) && x.len()
            > 0 implies chain(pages, x.drop_last(), next) by {
            let r = x.drop_last();
            assert(is_free_page(pages[x[x.len() - 1] as int]));
            assert forall|i: int| 0 <= i < r.len() implies FIRST_PAGE <= #[trigger] r[i]
                < pages.len() by {
                assert(r[i] == x[i]);
            }
            assert forall|i: int, j: int| 0 <= i < r.len() && 0 <= j < r.len() && i != j implies r[i]
                != r[j] by {
                assert(r[i] == x[i] && r[j] == x[j]);
            }
            assert forall|i: int| 0 <= i < r.len() implies is_free_page(
                #[trigger] pages[r[i] as int],
            ) && next_free(pages[r[i] as int]) == if i == 0 {
                0
            } else {
                r[i - 1]
            } by {
                assert(r[i] == x[i]);
                assert(is_free_page(pages[x[i] as int]));
            }
        }
        assert(chain(pages, ra, next));
        assert(chain(pages, rb, next));
        lemma_chain_unique(pages, ra, rb, next);
        assert(a =~= ra.push(head));
        assert(b =~= rb.push(head));
    }
}

/// How many entries of `s` are still `false`.
pub open spec fn count_false(s: Seq<bool>) -> nat
    decreases s.len(),
{
    if s.len() == 0 {
        0
    } else {
        count_false(s.drop_last()) + if s.last() {
            0nat
        } else {
            1nat
        }
    }
}

/// Marking an unmarked entry leaves one fewer unmarked.
pub proof fn lemma_count_false_mark(s: Seq<bool>, i: int)
    requires
        0 <= i < s.len(),
        !s[i],
    ensures
        count_false(s.update(i, true)) + 1 == count_false(s),
    decreases s.len(),
{
    let t = s.update(i, true);
    if i == s.len() - 1 {
        assert(t.drop_last() =~= s.drop_last());
    } else {
        lemma_count_false_mark(s.drop_last(), i);
        assert(t.drop_last() =~= s.drop_last().update(i, true));
    }
}

/// Builds the free-list page that links to `next`.
fn free_page(next: u64) -> (page: Vec<u8>)
    ensures
        is_free_page(page@),
        next_free(page@) == next,
{
    let mut node = BNode::from_bytes(vec![0u8; BTREE_PAGE_SIZE]);
    node.setHeader(BNODE_FREE, 1);
    node.setPtr(0, next);
    proof {
        assert(node@.subrange(0, 2) =~= node@.subrange(0, 2));
    }
    let ghost after = node@;
    let page = node.into_bytes();
    assert(u16_at(page@, 0) == BNODE_FREE) by {
        assert(page@ == after);
    }
    page
}

/// Whether `x` is one of `v`.
fn holds(v: &Vec<u64>, x: u64) -> (r: bool)
    ensures
        r == v@.contains(x),
{
    let mut i: usize = 0;
    while i < v.len()
        invariant
            i <= v@.len(),
            forall|j: int| 0 <= j < i ==> v@[j] != x,
        decreases v@.len() - i,
    {
        if v[i] == x {
            return true;
        }
        i += 1;
    }
    false
}

/// `bytes` followed by zeros up to the page size.
pub open spec fn padded(bytes: Seq<u8>) -> Seq<u8> {
    Seq::new(
        BTREE_PAGE_SIZE as nat,
        |i: int|
            if i < bytes.len() {
                bytes[i]
            } else {
                0u8
            },
    )
}

/// Copies `bytes` into a fresh page.
fn pad(bytes: &[u8]) -> (page: Vec<u8>)
    requires
        bytes@.len() <= BTREE_PAGE_SIZE,
    ensures
        page@ == padded(bytes@),
{
    let mut page: Vec<u8> = vec![0u8; BTREE_PAGE_SIZE];
    let mut i: usize = 0;
    while i < bytes.len()
        invariant
            i <= bytes@.len(),
            bytes@.len() <= BTREE_PAGE_SIZE,
            page@.len() == BTREE_PAGE_SIZE,
            forall|j: int| 0 <= j < i ==> page@[j] == bytes@[j],
            forall|j: int| i <= j < BTREE_PAGE_SIZE ==> page@[j] == 0,
        decreases bytes@.len() - i,
    {
        let b: u8 = bytes[i];
        page[i] = b;
        i += 1;
    }
    assert(page@ =~= padded(bytes@));
    page
}

/// The store of pages with its allocator.
#[derive(Debug)]
pub struct PageManager {
    pages: Vec<Vec<u8>>,
    free: Vec<u64>,
    pending: Vec<u64>,
    root: u64,
}

impl PageManager {
    /// The contents of every page, by page number.
    pub closed spec fn pages(&self) -> Seq<Seq<u8>> {
        Seq::new(self.pages@.len(), |i: int| self.pages@[i]@)
    }

    /// The free list, the page freed last at the end.
    pub closed spec fn free_list(&self) -> Seq<u64> {
        self.free@
    }

    /// The pages freed since the last commit, in the order they were
    /// freed.
    pub closed spec fn pending(&self) -> Seq<u64> {
        self.pending@
    }

    /// The committed root.
    pub closed spec fn root(&self) -> u64 {
        self.root
    }

    /// `id` is the number of a page that can hold a node.
    pub open spec fn in_range(&self, id: u64) -> bool {
        FIRST_PAGE <= id < self.pages().len()
    }

    /// `id` can be read: it is not the sentinel, it is inside the file, and
    /// it is not on the free list.
    pub open spec fn readable(&self, id: u64) -> bool {
        0 < id < self.pages().len() && !self.free_list().contains(id)
    }

    /// `id` holds live data: it is in range and neither free nor waiting to
    /// be freed.
    pub open spec fn live(&self, id: u64) -> bool {
        self.in_range(id) && !self.free_list().contains(id) && !self.pending().contains(id)
    }

    /// The invariant of the store: the two reserved pages exist, every page
    /// has the page size, the free and pending pages are in range and no
    /// page number occurs twice among them, the root is 0 or in range,
    /// every free page links to the page freed before it, and the page
    /// count fits a page number.
    pub open spec fn wf(&self) -> bool {
        &&& self.pages().len() >= 2
        &&& forall|i: int| 0 <= i < self.pages().len() ==> (#[trigger] self.pages()[i]).len()
            == BTREE_PAGE_SIZE
        &&& forall|i: int| 0 <= i < self.free_list().len() ==> self.in_range(#[trigger] self.free_list()[i])
        &&& forall|i: int|
            0 <= i < self.pending().len() ==> self.in_range(#[trigger] self.pending()[i])
        &&& (self.free_list() + self.pending()).no_duplicates()
        &&& (self.root() == 0 || self.in_range(self.root()))
        &&& linked(self.pages(), self.free_list())
        &&& self.pages().len() <= u64::MAX
    }

    /// The head of the free list: the page freed last, or 0.
    pub open spec fn free_head(&self) -> u64 {
        if self.free_list().len() == 0 {
            0
        } else {
            self.free_list().last()
        }
    }

    /// A store with no node pages, an empty free list and no root.
    pub fn new() -> (pm: PageManager)
        ensures
            pm.wf(),
            pm.pages().len() == 2,
            pm.free_list().len() == 0,
            pm.pending().len() == 0,
            pm.root() == 0,
            pm.synced(),
    {
        let mut pages: Vec<Vec<u8>> = Vec::new();
        pages.push(vec![0u8; BTREE_PAGE_SIZE]);
        pages.push((Meta { root: 0, free_head: 0, page_count: 2 }).encode());
        let pm = PageManager { pages, free: Vec::new(), pending: Vec::new(), root: 0 };
        assert(pm.free_list() + pm.pending() =~= Seq::<u64>::empty());
        pm
    }

    /// The meta page describes the store as it is now. This holds after
    /// `new`, `open` and `commit`; an allocation changes the store without
    /// touching the meta page.
    pub open spec fn synced(&self) -> bool {
        &&& meta_valid(self.pages()[META_PAGE as int])
        &&& meta_of(self.pages()[META_PAGE as int]) == (Meta {
            root: self.root(),
            free_head: self.free_head(),
            page_count: self.pages().len() as u64,
        })
    }

    /// The number of pages, the two reserved ones included.
    pub fn page_count(&self) -> (n: u64)
        requires
            self.wf(),
        ensures
            n == self.pages().len(),
    {
        self.pages.len() as u64
    }

    /// The number of pages as a machine size.
    pub fn extent(&self) -> (n: usize)
        ensures
            n == self.pages().len(),
    {
        self.pages.len()
    }

    /// Gives up the store for its pages, in order.
    pub fn into_pages(self) -> (pages: Vec<Vec<u8>>)
        ensures
            Seq::new(pages@.len(), |i: int| pages@[i]@) == self.pages(),
    {
        let ghost want = self.pages();
        let pages = self.pages;
        assert(Seq::new(pages@.len(), |i: int| pages@[i]@) =~= want);
        pages
    }

    /// The committed root.
    pub fn current_root(&self) -> (r: u64)
        ensures
            r == self.root(),
    {
        self.root
    }

    /// The page `id`, read-only. Refused for the sentinel, for a number
    /// past the end of the file, and for a page on the free list.
    pub fn get(&self, id: u64) -> (r: Result<&[u8], Error>)
        requires
            self.wf(),
        ensures
            r is Ok <==> self.readable(id),
            r matches Ok(page) ==> page@ == self.pages()[id as int],
            r matches Err(e) ==> e == Error::InvalidPageId,
    {
        if id == 0 || id >= self.pages.len() as u64 || holds(&self.free, id) {
            return Err(Error::InvalidPageId);
        }
        Ok(self.pages[id as usize].as_slice())
    }

    /// Stores `bytes`, padded with zeros to a full page, under a page
    /// number of its own and gives the number. The page freed last is used
    /// again if there is one; otherwise the file grows by a page.
    pub fn allocate(&mut self, bytes: &[u8]) -> (id: u64)
        requires
            old(self).wf(),
            bytes@.len() <= BTREE_PAGE_SIZE,
        ensures
            final(self).wf(),
            final(self).live(id),
            final(self).root() == old(self).root(),
            final(self).pending() == old(self).pending(),
            old(self).free_list().len() > 0 ==> id == old(self).free_list().last() && final(self).free_list()
                == old(self).free_list().drop_last() && final(self).pages() == old(self).pages().update(
                id as int,
                padded(bytes@),
            ),
            old(self).free_list().len() == 0 ==> id == old(self).pages().len() && final(self).free_list()
                == old(self).free_list() && final(self).pages() == old(self).pages().push(
                padded(bytes@),
            ),
    {
        let page = pad(bytes);
        let ghost before = *self;
        let count = self.pages.len();
        if self.free.len() > 0 {
            let id = self.free.pop().unwrap();
            assert(before.in_range(before.free_list()[before.free_list().len() - 1]));
            self.pages[id as usize] = page;
            proof {
                assert(self.pages() =~= before.pages().update(id as int, padded(bytes@)));
                let all = before.free_list() + before.pending();
                let now = self.free_list() + self.pending();
                assert forall|i: int, j: int|
                    0 <= i < now.len() && 0 <= j < now.len() && i != j implies now[i] != now[j] by {
                    assert(now[i] == all[if i < self.free_list().len() {
                        i
                    } else {
                        i + 1
                    }]);
                    assert(now[j] == all[if j < self.free_list().len() {
                        j
                    } else {
                        j + 1
                    }]);
                }
                assert(all[before.free_list().len() - 1] == id);
                assert forall|i: int| 0 <= i < self.free_list().len() implies self.free_list()[i] != id by {
                    assert(all[i] == self.free_list()[i]);
                }
                assert forall|i: int| 0 <= i < self.pending().len() implies self.pending()[i]
                    != id by {
                    assert(all[before.free_list().len() + i] == self.pending()[i]);
                }
                assert forall|i: int| 0 <= i < self.free_list().len() implies self.in_range(
                    #[trigger] self.free_list()[i],
                ) by {
                    assert(self.free_list()[i] == before.free_list()[i]);
                }
                assert forall|i: int| 0 <= i < self.free_list().len() implies is_free_page(
                    #[trigger] self.pages()[self.free_list()[i] as int],
                ) && next_free(self.pages()[self.free_list()[i] as int]) == if i == 0 {
                    0
                } else {
                    self.free_list()[i - 1]
                } by {
                    assert(self.free_list()[i] == before.free_list()[i]);
                    assert(self.free_list()[i] != id);
                    assert(before.in_range(before.free_list()[i]));
                    assert(is_free_page(before.pages()[before.free_list()[i] as int]));
                }
            }
            id
        } else {
            let id = count as u64;
            self.pages.push(page);
            let grown = self.pages.len();
            proof {
                assert(self.pages() =~= before.pages().push(padded(bytes@)));
                assert(self.free_list() + self.pending() =~= before.free_list() + before.pending());
                assert forall|i: int| 0 <= i < self.pending().len() implies self.pending()[i]
                    != id by {
                    assert(before.in_range(before.pending()[i]));
                }
                assert forall|i: int| 0 <= i < self.free_list().len() implies is_free_page(
                    #[trigger] self.pages()[self.free_list()[i] as int],
                ) && next_free(self.pages()[self.free_list()[i] as int]) == if i == 0 {
                    0
                } else {
                    self.free_list()[i - 1]
                } by {
                    assert(before.in_range(before.free_list()[i]));
                    assert(is_free_page(before.pages()[before.free_list()[i] as int]));
                }
            }
            id
        }
    }

    /// Marks the page `id` as no longer used. It joins the free list at the
    /// next commit and keeps its contents until then. Refused for a
    /// reserved page, a number past the end of the file, and a page
    /// already freed.
    pub fn free(&mut self, id: u64) -> (r: Result<(), Error>)
        requires
            old(self).wf(),
        ensures
            final(self).wf(),
            r is Ok <==> old(self).live(id),
            r matches Err(e) ==> e == Error::InvalidPageId && *final(self) == *old(self),
            r is Ok ==> final(self).pending() == old(self).pending().push(id),
            final(self).pages() == old(self).pages(),
            final(self).free_list() == old(self).free_list(),
            final(self).root() == old(self).root(),
    {
        if id < FIRST_PAGE || id >= self.pages.len() as u64 || holds(&self.free, id) || holds(
            &self.pending,
            id,
        ) {
            return Err(Error::InvalidPageId);
        }
        let ghost before = *self;
        self.pending.push(id);
        proof {
            let all = before.free_list() + before.pending();
            let now = self.free_list() + self.pending();
            assert(now =~= all.push(id));
            assert forall|i: int| 0 <= i < all.len() implies all[i] != id by {
                if i < before.free_list().len() {
                    assert(before.free_list()[i] == all[i]);
                } else {
                    assert(before.pending()[i - before.free_list().len()] == all[i]);
                }
            }
        }
        Ok(())
    }

    /// Forgets the pages freed since the last commit: they stay live. Used
    /// when an update is given up.
    pub fn abandon(&mut self)
        requires
            old(self).wf(),
        ensures
            final(self).wf(),
            final(self).pending().len() == 0,
            final(self).pages() == old(self).pages(),
            final(self).free_list() == old(self).free_list(),
            final(self).root() == old(self).root(),
    {
        let ghost before = *self;
        self.pending = Vec::new();
        proof {
            let all = before.free_list() + before.pending();
            let now = self.free_list() + self.pending();
            assert(now =~= before.free_list());
            assert forall|i: int, j: int|
                0 <= i < now.len() && 0 <= j < now.len() && i != j implies now[i] != now[j] by {
                assert(now[i] == all[i] && now[j] == all[j]);
            }
        }
    }

    /// Publishes `new_root` as the root, moves the pages freed since the
    /// last commit onto the free list in the order they were freed, and
    /// rewrites the meta page. Refused, with nothing changed, for a root
    /// that is neither 0 nor a live page.
    pub fn commit(&mut self, new_root: u64) -> (r: Result<(), Error>)
        requires
            old(self).wf(),
        ensures
            final(self).wf(),
            r is Ok <==> new_root == 0 || old(self).live(new_root),
            r matches Err(e) ==> e == Error::InvalidPageId && *final(self) == *old(self),
            r is Ok ==> {
                &&& final(self).synced()
                &&& final(self).root() == new_root
                &&& final(self).free_list() == old(self).free_list() + old(self).pending()
                &&& final(self).pending().len() == 0
                &&& final(self).pages().len() == old(self).pages().len()
                &&& forall|p: int|
                    0 <= p < old(self).pages().len() && p != META_PAGE && !old(
                        self,
                    ).pending().contains(p as u64) ==> #[trigger] final(self).pages()[p] == old(
                        self,
                    ).pages()[p]
            },
    {
        let count = self.pages.len();
        if new_root != 0 && (new_root < FIRST_PAGE || new_root >= count as u64 || holds(
            &self.free,
            new_root,
        ) || holds(&self.pending, new_root)) {
            return Err(Error::InvalidPageId);
        }
        let ghost before = *self;
        let ghost all = before.free_list() + before.pending();
        let total = self.pending.len();
        let mut k: usize = 0;
        while k < total
            invariant
                before.wf(),
                all == before.free_list() + before.pending(),
                count == before.pages().len(),
                total == before.pending().len(),
                k <= total,
                self.pending() == before.pending(),
                self.root() == before.root(),
                self.pages().len() == count,
                self.free_list() == before.free_list() + before.pending().take(k as int),
                linked(self.pages(), self.free_list()),
                forall|i: int| 0 <= i < count ==> (#[trigger] self.pages()[i]).len()
                    == BTREE_PAGE_SIZE,
                forall|p: int|
                    0 <= p < count && !before.pending().take(k as int).contains(p as u64)
                        ==> #[trigger] self.pages()[p] == before.pages()[p],
            decreases total - k,
        {
            let id = self.pending[k];
            let ghost prior = *self;
            let head: u64 = if self.free.len() > 0 {
                self.free[self.free.len() - 1]
            } else {
                0
            };
            assert(before.in_range(before.pending()[k as int]));
            self.pages[id as usize] = free_page(head);
            self.free.push(id);
            proof {
                let done = before.pending().take(k as int);
                assert(before.pending().take(k + 1) =~= done.push(id));
                assert(self.free_list() =~= before.free_list() + before.pending().take(k + 1));
                assert(self.pages() =~= prior.pages().update(id as int, self.pages()[id as int]));
                assert forall|p: int|
                    0 <= p < count && !before.pending().take(k + 1).contains(
                        p as u64,
                    ) implies #[trigger] self.pages()[p] == before.pages()[p] by {
                    assert(done.push(id)[k as int] == id);
                    if done.contains(p as u64) {
                        let w = choose|w: int| 0 <= w < done.len() && done[w] == p as u64;
                        assert(done.push(id)[w] == p as u64);
                    }
                }
                assert forall|i: int| 0 <= i < self.free_list().len() implies is_free_page(
                    #[trigger] self.pages()[self.free_list()[i] as int],
                ) && next_free(self.pages()[self.free_list()[i] as int]) == if i == 0 {
                    0
                } else {
                    self.free_list()[i - 1]
                } by {
                    if i < prior.free_list().len() {
                        assert(self.free_list()[i] == prior.free_list()[i]);
                        assert(prior.free_list()[i] == all[i]);
                        assert(all[before.free_list().len() + k] == id);
                        assert(is_free_page(prior.pages()[prior.free_list()[i] as int]));
                        if i < before.free_list().len() {
                            assert(before.in_range(before.free_list()[i]));
                        } else {
                            assert(before.in_range(
                                before.pending()[i - before.free_list().len()],
                            ));
                        }
                    }
                }
            }
            k += 1;
        }
        self.pending = Vec::new();
        self.root = new_root;
        let head: u64 = if self.free.len() > 0 {
            self.free[self.free.len() - 1]
        } else {
            0
        };
        let ghost prior = *self;
        let meta = Meta { root: new_root, free_head: head, page_count: count as u64 };
        self.pages[1] = meta.encode();
        proof {
            assert(before.pending().take(total as int) =~= before.pending());
            assert(self.free_list() + self.pending() =~= all);
            assert(self.pages() =~= prior.pages().update(1, self.pages()[1]));
            assert forall|i: int| 0 <= i < self.free_list().len() implies self.in_range(
                #[trigger] self.free_list()[i],
            ) by {
                if i < before.free_list().len() {
                    assert(before.in_range(before.free_list()[i]));
                } else {
                    assert(before.in_range(before.pending()[i - before.free_list().len()]));
                }
            }
            assert forall|i: int| 0 <= i < self.free_list().len() implies is_free_page(
                #[trigger] self.pages()[self.free_list()[i] as int],
            ) && next_free(self.pages()[self.free_list()[i] as int]) == if i == 0 {
                0
            } else {
                self.free_list()[i - 1]
            } by {
                assert(self.in_range(self.free_list()[i]));
                assert(is_free_page(prior.pages()[prior.free_list()[i] as int]));
            }
        }
        Ok(())
    }

    /// Takes over the pages of a file. The meta page must carry a matching
    /// checksum and the true page count, the root must be 0 or in range,
    /// and the free list must be a chain of distinct free pages in range
    /// that ends in 0; every page must have the page size.
    pub fn open(pages: Vec<Vec<u8>>) -> (r: Result<PageManager, Error>)
        ensures
            r is Ok <==> exists|free: Seq<u64>| #[trigger] describes(image_of(pages@), free),
            r matches Ok(pm) ==> {
                &&& pm.wf()
                &&& pm.synced()
                &&& pm.pending().len() == 0
                &&& pm.pages() == image_of(pages@)
                &&& pm.root() == meta_of(pages@[META_PAGE as int]@).root
                &&& describes(pm.pages(), pm.free_list())
            },
            r matches Err(e) ==> e == Error::CorruptMeta,
    {
        let ghost image = image_of(pages@);
        let count = pages.len();
        if count < 2 {
            return Err(Error::CorruptMeta);
        }
        let mut i: usize = 0;
        while i < count
            invariant
                count == pages@.len(),
                image == image_of(pages@),
                i <= count,
                forall|j: int| 0 <= j < i ==> (#[trigger] pages@[j])@.len() == BTREE_PAGE_SIZE,
            decreases count - i,
        {
            if pages[i].len() != BTREE_PAGE_SIZE {
                assert(image[i as int] == pages@[i as int]@);
                return Err(Error::CorruptMeta);
            }
            i += 1;
        }
        assert(image[1] == pages@[1]@);
        let meta = match Meta::decode(pages[1].as_slice()) {
            Ok(m) => m,
            Err(e) => {
                return Err(e);
            },
        };
        if meta.page_count != count as u64 {
            return Err(Error::CorruptMeta);
        }
        if meta.root != 0 && (meta.root < FIRST_PAGE || meta.root >= count as u64) {
            return Err(Error::CorruptMeta);
        }
        let mut visited: Vec<bool> = vec![false; count];
        let mut walk: Vec<u64> = Vec::new();
        let mut cur: u64 = meta.free_head;
        while cur != 0
            invariant
                count == pages@.len(),
                count >= 2,
                image == image_of(pages@),
                visited@.len() == count,
                forall|j: int| 0 <= j < count ==> (#[trigger] pages@[j])@.len() == BTREE_PAGE_SIZE,
                forall|q: int| 0 <= q < count ==> (#[trigger] visited@[q] <==> walk@.contains(
                    q as u64,
                )),
                walk@.no_duplicates(),
                forall|j: int| 0 <= j < walk@.len() ==> FIRST_PAGE <= #[trigger] walk@[j] < count,
                forall|j: int|
                    0 <= j < walk@.len() ==> is_free_page(#[trigger] image[walk@[j] as int])
                        && next_free(image[walk@[j] as int]) == if j + 1 < walk@.len() {
                        walk@[j + 1]
                    } else {
                        cur
                    },
                walk@.len() > 0 ==> walk@[0] == meta.free_head,
                walk@.len() == 0 ==> cur == meta.free_head,
                forall|free: Seq<u64>| #[trigger]
                    describes(image, free) ==> follows_list(walk@, cur, free),
            decreases count_false(visited@),
        {
            proof {
                assert forall|free: Seq<u64>| #[trigger] describes(image, free) implies FIRST_PAGE
                    <= cur < count && !walk@.contains(cur) && is_free_page(image[cur as int])
                    && follows_list(walk@.push(cur), next_free(image[cur as int]), free) by {
                    lemma_follow(image, walk@, cur, free);
                }
            }
            if cur < FIRST_PAGE || cur >= count as u64 {
                return Err(Error::CorruptMeta);
            }
            let at = cur as usize;
            if visited[at] {
                return Err(Error::CorruptMeta);
            }
            let page = pages[at].as_slice();
            assert(image[at as int] == page@);
            if read_u16(slice_subrange(page, 0, 2)) != BNODE_FREE {
                return Err(Error::CorruptMeta);
            }
            let next = read_u64(slice_subrange(page, 4, 12));
            proof {
                lemma_count_false_mark(visited@, at as int);
                lemma_le_bounds(page@.subrange(4, 12));
            }
            let ghost old_walk = walk@;
            let ghost old_visited = visited@;
            visited[at] = true;
            walk.push(cur);
            proof {
                assert(!old_walk.contains(cur));
                assert forall|q: int| 0 <= q < count implies (#[trigger] visited@[q]
                    <==> walk@.contains(q as u64)) by {
                    if q == at {
                        assert(walk@[old_walk.len() as int] == cur);
                    } else {
                        if old_walk.contains(q as u64) {
                            let w = choose|w: int| 0 <= w < old_walk.len() && old_walk[w] == q as u64;
                            assert(walk@[w] == q as u64);
                        }
                        if walk@.contains(q as u64) {
                            let w = choose|w: int| 0 <= w < walk@.len() && walk@[w] == q as u64;
                            assert(old_walk[w] == q as u64);
                        }
                    }
                }
                assert forall|a: int, b: int|
                    0 <= a < walk@.len() && 0 <= b < walk@.len() && a != b implies walk@[a]
                    != walk@[b] by {
                    if a < old_walk.len() && b < old_walk.len() {
                        assert(old_walk[a] != old_walk[b]);
                    } else if a < old_walk.len() {
                        assert(old_walk[a] == walk@[a]);
                    } else {
                        assert(old_walk[b] == walk@[b]);
                    }
                }
                assert forall|j: int| 0 <= j < walk@.len() implies is_free_page(
                    #[trigger] image[walk@[j] as int],
                ) && next_free(image[walk@[j] as int]) == if j + 1 < walk@.len() {
                    walk@[j + 1]
                } else {
                    next
                } by {
                    if j < old_walk.len() {
                        assert(walk@[j] == old_walk[j]);
                        assert(is_free_page(image[old_walk[j] as int]));
                    }
                }
            }
            cur = next;
        }
        let mut free: Vec<u64> = Vec::new();
        let mut k: usize = walk.len();
        while k > 0
            invariant
                k <= walk@.len(),
                free@.len() == walk@.len() - k,
                forall|j: int| 0 <= j < free@.len() ==> #[trigger] free@[j] == walk@[walk@.len() - 1
                    - j],
            decreases k,
        {
            k -= 1;
            free.push(walk[k]);
        }
        let pm = PageManager { pages, free, pending: Vec::new(), root: meta.root };
        proof {
            assert(pm.pages() =~= image);
            assert(pm.free_list() + pm.pending() =~= pm.free_list());
            let f = pm.free_list();
            let n = walk@.len() as int;
            assert forall|a: int, b: int| 0 <= a < f.len() && 0 <= b < f.len() && a != b implies f[a]
                != f[b] by {
                assert(f[a] == walk@[n - 1 - a] && f[b] == walk@[n - 1 - b]);
            }
            assert forall|j: int| 0 <= j < f.len() implies pm.in_range(#[trigger] f[j]) by {
                assert(f[j] == walk@[n - 1 - j]);
            }
            assert forall|j: int| 0 <= j < f.len() implies is_free_page(
                #[trigger] pm.pages()[f[j] as int],
            ) && next_free(pm.pages()[f[j] as int]) == if j == 0 {
                0
            } else {
                f[j - 1]
            } by {
                assert(f[j] == walk@[n - 1 - j]);
                assert(is_free_page(image[walk@[n - 1 - j] as int]));
                if j > 0 {
                    assert(f[j - 1] == walk@[n - j]);
                }
            }
            assert(image[1] == pages@[1]@);
            if n > 0 {
                assert(f[n - 1] == walk@[0]);
            }
            assert forall|k: int| 0 <= k < image.len() implies (#[trigger] image[k]).len()
                == BTREE_PAGE_SIZE by {
                assert(image[k] == pages@[k]@);
            }
            assert(describes(image, f));
        }
        Ok(pm)
    }
}

} // verus!
