//! The mathematical model of an allocator: which blocks are free, in what
//! order they are listed, and which blocks are in use.

use crate::blocks;
use crate::list;
use vstd::prelude::*;

verus! {

/// The blocks of an arena of `nr_pages` pages.
///
/// `free[o]` lists the free blocks of order `o`, front to back; a block is
/// named by its first page. `used` maps the first page of each block in use
/// to the block's order.
#[verifier::ext_equal]
pub struct Arena {
    pub nr_pages: int,
    pub free: Seq<Seq<int>>,
    pub used: Map<int, int>,
}

/// The number of pages in the blocks listed under the first `n` orders.
pub open spec fn pages_listed(free: Seq<Seq<int>>, n: int) -> int
    decreases n,
{
    if n <= 0 {
        0
    } else {
        pages_listed(free, n - 1) + free[n - 1].len() * blocks::span(n - 1)
    }
}

/// The smallest order from `order` on that has a free block.
pub open spec fn first_fit(free: Seq<Seq<int>>, order: int) -> Option<int>
    decreases free.len() - order,
{
    if order >= free.len() {
        None
    } else if free[order].len() > 0 {
        Some(order)
    } else {
        first_fit(free, order + 1)
    }
}

impl Arena {
    /// The block of `order` at `idx` is free.
    pub open spec fn free_block(self, idx: int, order: int) -> bool {
        0 <= order < self.free.len() && self.free[order].contains(idx)
    }

    /// The block of `order` at `idx` is in use.
    pub open spec fn used_block(self, idx: int, order: int) -> bool {
        self.used.contains_key(idx) && self.used[idx] == order
    }

    /// There is a block of `order` at `idx`, free or in use.
    pub open spec fn block(self, idx: int, order: int) -> bool {
        self.free_block(idx, order) || self.used_block(idx, order)
    }

    /// A block of `order` can stand at `idx`: it is aligned to its size and
    /// lies in the arena.
    pub open spec fn placed(self, idx: int, order: int) -> bool {
        &&& 0 <= order < self.free.len()
        &&& 0 <= idx
        &&& blocks::aligned(idx, order)
        &&& idx + blocks::span(order) <= self.nr_pages
    }

    /// No block has a page in common with the block of `order` at `idx`.
    pub open spec fn clear(self, idx: int, order: int) -> bool {
        forall|j: int, b: int| #[trigger] self.block(j, b) ==> blocks::disjoint(idx, order, j, b)
    }

    /// No two free blocks could be joined to a larger one.
    pub open spec fn coalesced(self) -> bool {
        forall|i: int, o: int|
            #[trigger] self.free_block(i, o) && o + 1 < self.free.len() ==> !self.free_block(
                blocks::buddy_of(i, o),
                o,
            )
    }

    /// The arena is consistent: every block is aligned and lies in the arena,
    /// no two blocks overlap, no block is listed twice or both free and in
    /// use, and free buddies are joined.
    pub open spec fn wf(self) -> bool {
        &&& 0 <= self.nr_pages
        &&& forall|i: int, o: int| #[trigger] self.block(i, o) ==> self.placed(i, o)
        &&& forall|i: int, a: int, j: int, b: int| #[trigger]
            self.block(i, a) && #[trigger] self.block(j, b) && !blocks::disjoint(i, a, j, b) ==> i
                == j && a == b
        &&& forall|i: int, o: int| #[trigger]
            self.free_block(i, o) ==> !self.used.contains_key(i)
        &&& forall|o: int| 0 <= o < self.free.len() ==> (#[trigger] self.free[o]).no_duplicates()
        &&& self.coalesced()
    }

    /// Page `p` lies in a free block.
    pub open spec fn free_page(self, p: int) -> bool {
        exists|i: int, o: int| #[trigger] self.free_block(i, o) && blocks::within(p, i, o)
    }

    /// Page `p` lies in a block that is in use.
    pub open spec fn used_page(self, p: int) -> bool {
        exists|i: int, o: int| #[trigger] self.used_block(i, o) && blocks::within(p, i, o)
    }

    /// The free pages.
    pub open spec fn free_pages(self) -> Set<int> {
        Set::new(|p: int| self.free_page(p))
    }

    /// The number of free pages, by the free lists.
    pub open spec fn nr_free(self) -> int {
        pages_listed(self.free, self.free.len() as int)
    }

    /// The arena with the block of `order` at `idx` listed first.
    pub open spec fn with_free(self, idx: int, order: int) -> Arena {
        Arena { free: self.free.update(order, seq![idx] + self.free[order]), ..self }
    }

    /// The arena with the free block of `order` at `idx` unlisted.
    pub open spec fn without_free(self, idx: int, order: int) -> Arena {
        Arena { free: self.free.update(order, list::without(self.free[order], idx)), ..self }
    }

    /// The arena after the block of `order` at `idx` was freed: it is joined
    /// with its buddy as long as that is free, and the result is listed first.
    pub open spec fn coalesce(self, idx: int, order: int) -> Arena
        decreases self.free.len() - order,
    {
        let buddy = blocks::buddy_of(idx, order);
        if 0 <= order && order + 1 < self.free.len() && self.free_block(buddy, order) {
            self.without_free(buddy, order).coalesce(blocks::parent_of(idx, order), order + 1)
        } else {
            self.with_free(idx, order)
        }
    }
}

/// The largest order, from `order` down, of a block at `idx` that is aligned
/// and ends at or before `end`.
pub open spec fn chunk_order(idx: int, end: int, order: int) -> int
    decreases order,
{
    if order <= 0 {
        0
    } else if blocks::aligned(idx, order) && idx + blocks::span(order) <= end {
        order
    } else {
        chunk_order(idx, end, order - 1)
    }
}

impl Arena {
    /// The arena with the upper half of each order from `high - 1` down to
    /// `low` of the block of order `high` at `idx` listed first.
    pub open spec fn split(self, idx: int, low: int, high: int) -> Arena {
        Arena {
            free: Seq::new(
                self.free.len(),
                |o: int|
                    if low <= o < high {
                        seq![idx + blocks::span(o)] + self.free[o]
                    } else {
                        self.free[o]
                    },
            ),
            ..self
        }
    }

    /// The arena with the block of `order` at `idx` recorded as in use.
    pub open spec fn with_used(self, idx: int, order: int) -> Arena {
        Arena { used: self.used.insert(idx, order), ..self }
    }

    /// The arena with the block at `idx` no longer recorded as in use.
    pub open spec fn without_used(self, idx: int) -> Arena {
        Arena { used: self.used.remove(idx), ..self }
    }

    /// The arena after a block of `order` was taken from the first block of
    /// the smallest order that fits, and the page at which it starts.
    pub open spec fn allocate(self, order: int) -> Option<(Arena, int)> {
        match first_fit(self.free, order) {
            Some(fit) => {
                let idx = self.free[fit][0];
                Some(
                    (self.without_free(idx, fit).split(idx, order, fit).with_used(idx, order), idx),
                )
            },
            None => None,
        }
    }

    /// The block of `order` at `idx` may be freed: a block in use starts
    /// there, and no other block has a page in common with it.
    pub open spec fn releasable(self, idx: int, order: int) -> bool {
        self.used.contains_key(idx) && self.without_used(idx).clear(idx, order)
    }

    /// The arena after the block of `order` at `idx`, in use, was freed.
    pub open spec fn release(self, idx: int, order: int) -> Arena {
        self.without_used(idx).coalesce(idx, order)
    }

    /// The order of the next block that is freed of the pages from `idx` up
    /// to `end`.
    pub open spec fn chunk(self, idx: int, end: int) -> int {
        chunk_order(idx, end, self.free.len() - 1)
    }

    /// The arena after the pages from `idx` up to `end` were freed in the
    /// largest aligned blocks, up to the first that overlaps a block; and
    /// whether none did.
    pub open spec fn release_range(self, idx: int, end: int) -> (Arena, bool)
        decreases
            if idx < end {
                end - idx
            } else {
                0
            },
    {
        if idx >= end {
            (self, true)
        } else {
            let order = self.chunk(idx, end);
            proof {
                vstd::arithmetic::power2::lemma_pow2_pos(order as nat);
            }
            if self.clear(idx, order) {
                self.coalesce(idx, order).release_range(idx + blocks::span(order), end)
            } else {
                (self, false)
            }
        }
    }
}

impl Arena {
    /// The arena after the page ranges from the `k`-th on were freed in turn,
    /// up to the first that overlaps a block; and whether none did.
    pub open spec fn release_ranges(self, ranges: Seq<(int, int)>, k: int) -> (Arena, bool)
        decreases ranges.len() - k,
    {
        if k >= ranges.len() {
            (self, true)
        } else {
            let (arena, all) = self.release_range(ranges[k].0, ranges[k].1);
            if all {
                arena.release_ranges(ranges, k + 1)
            } else {
                (arena, false)
            }
        }
    }
}

/// Replacing the list of one order changes the count by the difference of the
/// two lists.
pub proof fn lemma_pages_listed_update(free: Seq<Seq<int>>, o: int, l: Seq<int>, n: int)
    requires
        0 <= o < free.len(),
        n <= free.len(),
    ensures
        pages_listed(free.update(o, l), n) == pages_listed(free, n) + if o < n {
            (l.len() - free[o].len()) * blocks::span(o)
        } else {
            0
        },
    decreases n,
{
    if n > 0 {
        lemma_pages_listed_update(free, o, l, n - 1);
        if o == n - 1 {
            let x = l.len() as int;
            let y = free[o].len() as int;
            let m = blocks::span(o);
            assert(x * m == y * m + (x - y) * m) by (nonlinear_arith);
        }
    }
}

impl Arena {
    /// The block that `free_page` is about.
    pub proof fn lemma_free_page(self, i: int, o: int, p: int)
        requires
            self.free_block(i, o),
            blocks::within(p, i, o),
        ensures
            self.free_page(p),
    {
    }

    /// Unlisting a free block keeps the arena consistent and takes just the
    /// block's pages away.
    pub proof fn lemma_without_free(self, idx: int, order: int)
        requires
            self.wf(),
            self.free_block(idx, order),
        ensures
            ({
                let t = self.without_free(idx, order);
                &&& t.wf()
                &&& t.free.len() == self.free.len()
                &&& t.nr_free() == self.nr_free() - blocks::span(order)
                &&& t.clear(idx, order)
                &&& forall|j: int, b: int| #[trigger]
                    t.free_block(j, b) <==> self.free_block(j, b) && !(j == idx && b == order)
                &&& forall|j: int, b: int| #[trigger]
                    t.block(j, b) <==> self.block(j, b) && !(j == idx && b == order)
                &&& forall|p: int| #[trigger]
                    self.free_page(p) <==> t.free_page(p) || blocks::within(p, idx, order)
                &&& forall|p: int| #[trigger]
                    t.free_page(p) ==> !blocks::within(p, idx, order)
            }),
    {
        let t = self.without_free(idx, order);
        list::lemma_without(self.free[order], idx);
        assert(self.block(idx, order));
        assert forall|j: int, b: int| #[trigger] t.free_block(j, b) <==> self.free_block(j, b) && !(j
            == idx && b == order) by {}
        assert forall|j: int, b: int| #[trigger] t.block(j, b) <==> self.block(j, b) && !(j == idx
            && b == order) by {
            if self.used_block(j, b) {
                assert(!self.used.contains_key(idx));
            }
        }
        assert forall|i: int, o: int| #[trigger] t.block(i, o) implies t.placed(i, o) by {
            assert(self.block(i, o));
        }
        assert forall|i: int, a: int, j: int, b: int| #[trigger]
            t.block(i, a) && #[trigger] t.block(j, b) && !blocks::disjoint(i, a, j, b) implies i
            == j && a == b by {
            assert(self.block(i, a) && self.block(j, b));
        }
        assert forall|i: int, o: int| #[trigger] t.free_block(i, o) implies !t.used.contains_key(
            i,
        ) by {
            assert(self.free_block(i, o));
        }
        assert forall|i: int, o: int| #[trigger] t.free_block(i, o) && o + 1
            < t.free.len() implies !t.free_block(blocks::buddy_of(i, o), o) by {
            assert(self.free_block(i, o));
        }
        assert forall|j: int, b: int| #[trigger] t.block(j, b) implies blocks::disjoint(
            idx,
            order,
            j,
            b,
        ) by {
            assert(self.block(j, b));
        }
        let l = list::without(self.free[order], idx);
        lemma_pages_listed_update(self.free, order, l, self.free.len() as int);
        let m = blocks::span(order);
        assert((l.len() - self.free[order].len()) * m == -m) by (nonlinear_arith)
            requires
                l.len() - self.free[order].len() == -1,
        ;
        assert forall|p: int| #[trigger] self.free_page(p) <==> t.free_page(p) || blocks::within(
            p,
            idx,
            order,
        ) by {
            if self.free_page(p) {
                let (i, o) = choose|i: int, o: int| #[trigger]
                    self.free_block(i, o) && blocks::within(p, i, o);
                if !(i == idx && o == order) {
                    assert(t.free_block(i, o));
                }
            }
            if t.free_page(p) {
                let (i, o) = choose|i: int, o: int| #[trigger]
                    t.free_block(i, o) && blocks::within(p, i, o);
                assert(self.free_block(i, o));
            }
        }
        assert forall|p: int| #[trigger] t.free_page(p) implies !blocks::within(p, idx, order) by {
            let (i, o) = choose|i: int, o: int| #[trigger]
                t.free_block(i, o) && blocks::within(p, i, o);
            assert(t.block(i, o));
        }
    }

    /// Listing a block that overlaps no other and whose buddy is not free
    /// keeps the arena consistent and adds just the block's pages.
    pub proof fn lemma_with_free(self, idx: int, order: int)
        requires
            self.wf(),
            self.placed(idx, order),
            self.clear(idx, order),
            order + 1 < self.free.len() ==> !self.free_block(blocks::buddy_of(idx, order), order),
        ensures
            ({
                let t = self.with_free(idx, order);
                &&& t.wf()
                &&& t.free.len() == self.free.len()
                &&& t.nr_free() == self.nr_free() + blocks::span(order)
                &&& forall|j: int, b: int| #[trigger]
                    t.free_block(j, b) <==> self.free_block(j, b) || (j == idx && b == order)
                &&& forall|j: int, b: int| #[trigger]
                    t.block(j, b) <==> self.block(j, b) || (j == idx && b == order)
                &&& forall|p: int| #[trigger]
                    t.free_page(p) <==> self.free_page(p) || blocks::within(p, idx, order)
            }),
    {
        let t = self.with_free(idx, order);
        let s = self.free[order];
        let l = seq![idx] + s;
        blocks::lemma_buddy(idx, order);
        assert forall|x: int| #[trigger] l.contains(x) <==> s.contains(x) || x == idx by {
            if s.contains(x) {
                let k = choose|k: int| 0 <= k < s.len() && s[k] == x;
                assert(l[k + 1] == x);
            }
            assert(l[0] == idx);
        }
        assert forall|j: int, b: int| #[trigger] self.block(j, b) implies j != idx by {
            assert(self.placed(j, b));
            blocks::lemma_span(b);
        }
        assert(!s.contains(idx)) by {
            if s.contains(idx) {
                assert(self.free_block(idx, order));
                assert(self.block(idx, order));
            }
        }
        assert(!self.used.contains_key(idx)) by {
            if self.used.contains_key(idx) {
                assert(self.used_block(idx, self.used[idx]));
                assert(self.block(idx, self.used[idx]));
            }
        }
        assert forall|j: int, b: int| #[trigger] t.free_block(j, b) <==> self.free_block(j, b) || (j
            == idx && b == order) by {}
        assert forall|j: int, b: int| #[trigger] t.block(j, b) <==> self.block(j, b) || (j == idx
            && b == order) by {}
        assert forall|i: int, o: int| #[trigger] t.block(i, o) implies t.placed(i, o) by {
            if !(i == idx && o == order) {
                assert(self.block(i, o));
            }
        }
        assert forall|i: int, a: int, j: int, b: int| #[trigger]
            t.block(i, a) && #[trigger] t.block(j, b) && !blocks::disjoint(i, a, j, b) implies i
            == j && a == b by {
            if !(i == idx && a == order) {
                assert(self.block(i, a));
            }
            if !(j == idx && b == order) {
                assert(self.block(j, b));
            }
        }
        assert forall|i: int, o: int| #[trigger] t.free_block(i, o) implies !t.used.contains_key(
            i,
        ) by {
            if !(i == idx && o == order) {
                assert(self.free_block(i, o));
            }
        }
        assert forall|o: int| 0 <= o < t.free.len() implies (#[trigger] t.free[o]).no_duplicates() by {
            if o == order {
                assert(s.no_duplicates());
                assert forall|x: int, y: int| 0 <= x < l.len() && 0 <= y < l.len() && x != y implies l[x]
                    != l[y] by {
                    if x > 0 {
                        assert(l[x] == s[x - 1]);
                    }
                    if y > 0 {
                        assert(l[y] == s[y - 1]);
                    }
                }
            } else {
                assert(t.free[o] == self.free[o]);
            }
        }
        assert forall|i: int, o: int| #[trigger] t.free_block(i, o) && o + 1
            < t.free.len() implies !t.free_block(blocks::buddy_of(i, o), o) by {
            if !(i == idx && o == order) {
                assert(self.free_block(i, o));
                assert(self.block(i, o));
                if t.free_block(blocks::buddy_of(i, o), o) && !self.free_block(
                    blocks::buddy_of(i, o),
                    o,
                ) {
                    blocks::lemma_buddy(i, o);
                    assert(blocks::buddy_of(idx, order) == i);
                }
            }
        }
        lemma_pages_listed_update(self.free, order, l, self.free.len() as int);
        let m = blocks::span(order);
        assert((l.len() - s.len()) * m == m) by (nonlinear_arith)
            requires
                l.len() - s.len() == 1,
        ;
        assert forall|p: int| #[trigger] t.free_page(p) <==> self.free_page(p) || blocks::within(
            p,
            idx,
            order,
        ) by {
            if self.free_page(p) {
                let (i, o) = choose|i: int, o: int| #[trigger]
                    self.free_block(i, o) && blocks::within(p, i, o);
                assert(t.free_block(i, o));
            }
            if t.free_page(p) {
                let (i, o) = choose|i: int, o: int| #[trigger]
                    t.free_block(i, o) && blocks::within(p, i, o);
                if !(i == idx && o == order) {
                    assert(self.free_block(i, o));
                }
            }
            assert(t.free_block(idx, order));
        }
    }

    /// Freeing a block that overlaps no other keeps the arena consistent and
    /// makes just the block's pages free.
    pub proof fn lemma_coalesce(self, idx: int, order: int)
        requires
            self.wf(),
            self.placed(idx, order),
            self.clear(idx, order),
        ensures
            ({
                let t = self.coalesce(idx, order);
                &&& t.wf()
                &&& t.nr_pages == self.nr_pages
                &&& t.used == self.used
                &&& t.free.len() == self.free.len()
                &&& t.nr_free() == self.nr_free() + blocks::span(order)
                &&& forall|p: int| #[trigger]
                    t.free_page(p) <==> self.free_page(p) || blocks::within(p, idx, order)
            }),
        decreases self.free.len() - order,
    {
        let buddy = blocks::buddy_of(idx, order);
        if order + 1 < self.free.len() && self.free_block(buddy, order) {
            let t = self.without_free(buddy, order);
            self.lemma_join(idx, order);
            t.lemma_coalesce(blocks::parent_of(idx, order), order + 1);
            self.lemma_without_free(buddy, order);
            assert forall|p: int| #[trigger]
                self.coalesce(idx, order).free_page(p) <==> self.free_page(p) || blocks::within(
                p,
                idx,
                order,
            ) by {
                blocks::lemma_buddy(idx, order);
                assert(t.free_page(p) || !t.free_page(p));
            }
            blocks::lemma_span(order);
        } else {
            self.lemma_with_free(idx, order);
        }
    }

    /// One step of joining: with the free buddy unlisted, the parent block can
    /// be freed in place of the block.
    pub proof fn lemma_join(self, idx: int, order: int)
        requires
            self.wf(),
            self.placed(idx, order),
            self.clear(idx, order),
            order + 1 < self.free.len(),
            self.free_block(blocks::buddy_of(idx, order), order),
        ensures
            ({
                let t = self.without_free(blocks::buddy_of(idx, order), order);
                &&& t.wf()
                &&& t.placed(blocks::parent_of(idx, order), order + 1)
                &&& t.clear(blocks::parent_of(idx, order), order + 1)
                &&& t.nr_free() == self.nr_free() - blocks::span(order)
            }),
    {
        let buddy = blocks::buddy_of(idx, order);
        let parent = blocks::parent_of(idx, order);
        let t = self.without_free(buddy, order);
        self.lemma_without_free(buddy, order);
        blocks::lemma_buddy(idx, order);
        assert(self.block(buddy, order));
        assert forall|j: int, b: int| #[trigger] t.block(j, b) implies blocks::disjoint(
            parent,
            order + 1,
            j,
            b,
        ) by {
            assert(self.block(j, b));
            assert(blocks::disjoint(idx, order, j, b));
            assert(blocks::disjoint(buddy, order, j, b));
            blocks::lemma_span(b);
        }
    }
}

impl Arena {
    /// Recording a block that overlaps no other as in use keeps the arena
    /// consistent.
    pub proof fn lemma_with_used(self, idx: int, order: int)
        requires
            self.wf(),
            self.placed(idx, order),
            self.clear(idx, order),
        ensures
            self.with_used(idx, order).wf(),
            !self.used.contains_key(idx),
    {
        let t = self.with_used(idx, order);
        blocks::lemma_span(order);
        assert forall|j: int, b: int| #[trigger] self.block(j, b) implies j != idx by {
            assert(self.placed(j, b));
            blocks::lemma_span(b);
        }
        assert(!self.used.contains_key(idx)) by {
            if self.used.contains_key(idx) {
                assert(self.block(idx, self.used[idx]));
            }
        }
        assert forall|j: int, b: int| #[trigger] t.free_block(j, b) <==> self.free_block(j, b) by {}
        assert forall|j: int, b: int| #[trigger] t.block(j, b) <==> self.block(j, b) || (j == idx
            && b == order) by {
            assert(self.block(j, b) || !self.block(j, b));
        }
        assert forall|i: int, o: int| #[trigger] t.block(i, o) implies t.placed(i, o) by {
            if !(i == idx && o == order) {
                assert(self.block(i, o));
            }
        }
        assert forall|i: int, a: int, j: int, b: int| #[trigger]
            t.block(i, a) && #[trigger] t.block(j, b) && !blocks::disjoint(i, a, j, b) implies i
            == j && a == b by {
            if !(i == idx && a == order) {
                assert(self.block(i, a));
            }
            if !(j == idx && b == order) {
                assert(self.block(j, b));
            }
        }
        assert forall|i: int, o: int| #[trigger] t.free_block(i, o) implies !t.used.contains_key(
            i,
        ) by {
            assert(self.free_block(i, o));
            assert(self.block(i, o));
        }
        assert forall|i: int, o: int| #[trigger] t.free_block(i, o) && o + 1
            < t.free.len() implies !t.free_block(blocks::buddy_of(i, o), o) by {
            assert(self.free_block(i, o));
        }
    }

    /// Dropping a block in use keeps the arena consistent.
    pub proof fn lemma_without_used(self, idx: int)
        requires
            self.wf(),
            self.used.contains_key(idx),
        ensures
            self.without_used(idx).wf(),
            self.without_used(idx).clear(idx, self.used[idx]),
            self.placed(idx, self.used[idx]),
    {
        let t = self.without_used(idx);
        let order = self.used[idx];
        assert(self.used_block(idx, order));
        assert(self.block(idx, order));
        assert forall|j: int, b: int| #[trigger] t.block(j, b) implies self.block(j, b) && j
            != idx by {
            if self.free_block(j, b) {
                assert(t.free_block(j, b));
            }
            if t.free_block(j, b) {
                assert(self.free_block(j, b));
            }
        }
        assert forall|j: int, b: int| #[trigger] t.block(j, b) implies blocks::disjoint(
            idx,
            order,
            j,
            b,
        ) by {
            assert(self.block(j, b));
        }
        assert forall|i: int, o: int| #[trigger] t.free_block(i, o) implies !t.used.contains_key(
            i,
        ) by {
            assert(self.free_block(i, o));
        }
        assert forall|i: int, o: int| #[trigger] t.free_block(i, o) && o + 1
            < t.free.len() implies !t.free_block(blocks::buddy_of(i, o), o) by {
            assert(self.free_block(i, o));
        }
        assert forall|i: int, o: int| #[trigger] t.block(i, o) implies t.placed(i, o) by {
            assert(self.block(i, o));
        }
        assert forall|i: int, a: int, j: int, b: int| #[trigger]
            t.block(i, a) && #[trigger] t.block(j, b) && !blocks::disjoint(i, a, j, b) implies i
            == j && a == b by {
            assert(self.block(i, a) && self.block(j, b));
        }
    }

    /// One step of splitting: the upper half of a block that overlaps no
    /// other is listed, and the lower half still overlaps no other.
    pub proof fn lemma_split_step(self, idx: int, low: int, high: int)
        requires
            self.wf(),
            0 <= low < high,
            self.placed(idx, high),
            self.clear(idx, high),
        ensures
            ({
                let o = high - 1;
                let t = self.with_free(idx + blocks::span(o), o);
                &&& t.wf()
                &&& t.placed(idx, o)
                &&& t.clear(idx, o)
                &&& t.nr_free() == self.nr_free() + blocks::span(o)
                &&& !self.free_block(idx + blocks::span(o), o)
                &&& t.split(idx, low, o) == self.split(idx, low, high)
                &&& forall|p: int| #[trigger]
                    t.free_page(p) <==> self.free_page(p) || blocks::within(
                        p,
                        idx + blocks::span(o),
                        o,
                    )
            }),
    {
        let o = high - 1;
        let upper = idx + blocks::span(o);
        let t = self.with_free(upper, o);
        blocks::lemma_aligned_smaller(idx, o, high);
        blocks::lemma_span(o);
        blocks::lemma_buddy(idx, o);
        assert(blocks::buddy_of(idx, o) == upper);
        assert forall|j: int, b: int| #[trigger] self.block(j, b) implies blocks::disjoint(
            upper,
            o,
            j,
            b,
        ) && blocks::disjoint(idx, o, j, b) && j != idx && j != upper by {
            assert(self.placed(j, b));
            blocks::lemma_span(b);
        }
        assert(!self.block(idx, o));
        assert(!self.block(upper, o));
        self.lemma_with_free(upper, o);
        assert forall|j: int, b: int| #[trigger] t.block(j, b) implies blocks::disjoint(
            idx,
            o,
            j,
            b,
        ) by {
            if !(j == upper && b == o) {
                assert(self.block(j, b));
            }
        }
        assert(t.split(idx, low, o).free =~= self.split(idx, low, high).free);
    }

    /// Splitting a block that overlaps no other keeps the arena consistent
    /// and frees all of its pages but those of the lowest block.
    pub proof fn lemma_split(self, idx: int, low: int, high: int)
        requires
            self.wf(),
            0 <= low <= high,
            self.placed(idx, high),
            self.clear(idx, high),
        ensures
            ({
                let t = self.split(idx, low, high);
                &&& t.wf()
                &&& t.placed(idx, low)
                &&& t.clear(idx, low)
                &&& t.nr_free() == self.nr_free() + blocks::span(high) - blocks::span(low)
                &&& forall|p: int| #[trigger]
                    t.free_page(p) <==> self.free_page(p) || (blocks::within(p, idx, high)
                        && !blocks::within(p, idx, low))
            }),
        decreases high - low,
    {
        if low < high {
            let o = high - 1;
            let t = self.with_free(idx + blocks::span(o), o);
            self.lemma_split_step(idx, low, high);
            t.lemma_split(idx, low, o);
            blocks::lemma_span(o);
            blocks::lemma_span_multiple(low, o);
            assert forall|p: int| #[trigger]
                self.split(idx, low, high).free_page(p) <==> self.free_page(p) || (blocks::within(
                    p,
                    idx,
                    high,
                ) && !blocks::within(p, idx, low)) by {
                assert(t.free_page(p) || !t.free_page(p));
            }
        } else {
            assert(self.split(idx, low, high).free =~= self.free);
        }
    }

    /// What `first_fit` finds.
    pub proof fn lemma_first_fit(free: Seq<Seq<int>>, order: int)
        requires
            0 <= order,
        ensures
            match first_fit(free, order) {
                Some(fit) => order <= fit < free.len() && free[fit].len() > 0 && forall|o: int|
                    order <= o < fit ==> (#[trigger] free[o]).len() == 0,
                None => forall|o: int| order <= o < free.len() ==> (#[trigger] free[o]).len() == 0,
            },
        decreases free.len() - order,
    {
        if order < free.len() && free[order].len() == 0 {
            Self::lemma_first_fit(free, order + 1);
        }
    }
}

/// The count of listed pages is not negative, and zero if nothing is listed.
pub proof fn lemma_pages_listed(free: Seq<Seq<int>>, n: int)
    requires
        n <= free.len(),
    ensures
        pages_listed(free, n) >= 0,
        (forall|o: int| 0 <= o < n ==> (#[trigger] free[o]).len() == 0) ==> pages_listed(free, n)
            == 0,
        forall|o: int|
            0 <= o < n ==> (#[trigger] free[o]).len() * blocks::span(o) <= pages_listed(free, n),
    decreases n,
{
    if n > 0 {
        lemma_pages_listed(free, n - 1);
        let x = free[n - 1].len() as int;
        let m = blocks::span(n - 1);
        blocks::lemma_span(n - 1);
        assert(x * m >= 0) by (nonlinear_arith)
            requires
                x >= 0,
                m >= 1,
        ;
        if x == 0 {
            assert(x * m == 0) by (nonlinear_arith)
                requires
                    x == 0,
            ;
        }
    }
}

impl Arena {
    /// The count kept by the free lists is the number of free pages, which is
    /// at most the number of pages.
    pub proof fn lemma_count(self)
        requires
            self.wf(),
        ensures
            self.free_pages().finite(),
            self.free_pages().len() == self.nr_free(),
            0 <= self.nr_free() <= self.nr_pages,
            forall|o: int|
                0 <= o < self.free.len() ==> (#[trigger] self.free[o]).len() <= self.nr_free(),
        decreases self.nr_free(),
    {
        let n = self.free.len() as int;
        lemma_pages_listed(self.free, n);
        Self::lemma_first_fit(self.free, 0);
        match first_fit(self.free, 0) {
            None => {
                assert(self.free_pages() =~= Set::<int>::empty());
            },
            Some(fit) => {
                let idx = self.free[fit][0];
                assert(self.free[fit].contains(idx));
                assert(self.free_block(idx, fit));
                assert(self.block(idx, fit));
                let t = self.without_free(idx, fit);
                self.lemma_without_free(idx, fit);
                blocks::lemma_span(fit);
                lemma_pages_listed(t.free, n);
                t.lemma_count();
                let range = vstd::set_lib::set_int_range(idx, idx + blocks::span(fit));
                vstd::set_lib::lemma_int_range(idx, idx + blocks::span(fit));
                assert(t.free_pages().disjoint(range)) by {
                    assert forall|p: int| t.free_pages().contains(p) implies !range.contains(p) by {
                        assert(t.free_page(p));
                    }
                }
                assert(self.free_pages() =~= t.free_pages() + range) by {
                    assert forall|p: int| self.free_pages().contains(p) <==> (t.free_pages()
                        + range).contains(p) by {
                        assert(self.free_page(p) <==> t.free_page(p) || blocks::within(
                            p,
                            idx,
                            fit,
                        ));
                    }
                }
                vstd::set_lib::lemma_set_disjoint_lens(t.free_pages(), range);
            },
        }
        let all = vstd::set_lib::set_int_range(0, self.nr_pages);
        vstd::set_lib::lemma_int_range(0, self.nr_pages);
        assert(self.free_pages().subset_of(all)) by {
            assert forall|p: int| self.free_pages().contains(p) implies all.contains(p) by {
                let (i, o) = choose|i: int, o: int| #[trigger]
                    self.free_block(i, o) && blocks::within(p, i, o);
                assert(self.block(i, o));
            }
        }
        vstd::set_lib::lemma_len_subset(self.free_pages(), all);
        assert forall|o: int| 0 <= o < n implies (#[trigger] self.free[o]).len()
            <= self.nr_free() by {
            let x = self.free[o].len() as int;
            let m = blocks::span(o);
            blocks::lemma_span(o);
            assert(x <= x * m) by (nonlinear_arith)
                requires
                    x >= 0,
                    m >= 1,
            ;
        }
    }
}

/// The block that `chunk_order` chooses is aligned and ends in time, and no
/// larger one up to `order` is and does.
pub proof fn lemma_chunk_order(idx: int, end: int, order: int)
    requires
        0 <= idx < end,
        0 <= order,
    ensures
        ({
            let o = chunk_order(idx, end, order);
            &&& 0 <= o <= order
            &&& blocks::aligned(idx, o)
            &&& idx + blocks::span(o) <= end
            &&& forall|b: int|
                o < b <= order ==> !(#[trigger] blocks::aligned(idx, b) && idx + blocks::span(b)
                    <= end)
        }),
    decreases order,
{
    blocks::lemma_span(0);
    if order > 0 {
        lemma_chunk_order(idx, end, order - 1);
    }
}

} // verus!
