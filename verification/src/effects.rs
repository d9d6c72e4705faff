//! What each operation does to the free lists and to the pages, in terms of
//! what it is given and what it leaves behind.

use crate::arena;
use crate::arena::Arena;
use crate::blocks;
use crate::buddy;
use crate::buddy::Buddy;
use crate::error::Error;
use crate::laws;
use crate::page::Page;
use crate::pfn::PageFrame;
use vstd::arithmetic::power2::*;
use vstd::prelude::*;

verus! {

/// An allocation takes the first block of the smallest order that has one. Of
/// each order below, down to the one asked for, the upper half of what is left
/// is listed, and no other list changes. It fails only if no list from the
/// order on holds a block.
pub proof fn law_alloc_takes_smallest_fit(arena: Arena, order: int) -> (fit: int)
    requires
        arena.wf(),
        0 <= order < arena.free.len(),
    ensures
        match arena.allocate(order) {
            Some((after, idx)) => {
                &&& order <= fit < arena.free.len()
                &&& arena.free[fit].len() > 0
                &&& idx == arena.free[fit][0]
                &&& forall|o: int| order <= o < fit ==> (#[trigger] arena.free[o]).len() == 0
                &&& after.free.len() == arena.free.len()
                &&& after.free[fit] == arena.free[fit].skip(1)
                &&& forall|o: int|
                    order <= o < fit ==> #[trigger] after.free[o] == seq![
                        idx + pow2(o as nat) as int,
                    ]
                &&& forall|o: int|
                    0 <= o < order || fit < o < arena.free.len() ==> #[trigger] after.free[o]
                        == arena.free[o]
                &&& after.used == arena.used.insert(idx, order)
                &&& after.nr_pages == arena.nr_pages
            },
            None => forall|o: int|
                order <= o < arena.free.len() ==> (#[trigger] arena.free[o]).len() == 0,
        },
{
    Arena::lemma_first_fit(arena.free, order);
    match arena::first_fit(arena.free, order) {
        None => 0,
        Some(fit) => {
            let s = arena.free[fit];
            let idx = s[0];
            let after = (arena.allocate(order)->0).0;
            assert(s.contains(idx));
            assert(arena.free_block(idx, fit));
            assert(s.no_duplicates());
            let k = s.index_of(idx);
            assert(s[k] == idx);
            assert(k == 0);
            assert(after.free[fit] =~= s.skip(1));
            assert forall|o: int| order <= o < fit implies #[trigger] after.free[o] == seq![
                idx + pow2(o as nat) as int,
            ] by {
                assert(arena.free[o].len() == 0);
                assert(after.free[o] =~= seq![idx + pow2(o as nat) as int]);
            }
            fit
        },
    }
}

/// A block and its buddy are the aligned blocks with the same parent.
pub proof fn lemma_same_parent(b: int, idx: int, order: int)
    requires
        0 <= order,
        0 <= b,
        0 <= idx,
        blocks::aligned(b, order),
        blocks::aligned(idx, order),
    ensures
        b / blocks::span(order + 1) == idx / blocks::span(order + 1) <==> b == idx || b
            == blocks::buddy_of(idx, order),
{
    let m = blocks::span(order);
    let w = blocks::span(order + 1);
    blocks::lemma_buddy(idx, order);
    blocks::lemma_buddy(b, order);
    let pi = blocks::parent_of(idx, order);
    let pb = blocks::parent_of(b, order);
    lemma_parent_quotient(idx, order);
    lemma_parent_quotient(b, order);
    if b / w == idx / w {
        assert(pi == pb);
    }
    if b == blocks::buddy_of(idx, order) {
        assert(pi == pb);
        vstd::arithmetic::div_mod::lemma_div_by_multiple(b / w, w);
        vstd::arithmetic::div_mod::lemma_div_by_multiple(idx / w, w);
    }
}

/// The parent starts at the multiple of its size at or below the block.
proof fn lemma_parent_quotient(idx: int, order: int)
    requires
        0 <= order,
        0 <= idx,
        blocks::aligned(idx, order),
    ensures
        blocks::parent_of(idx, order) == (idx / blocks::span(order + 1)) * blocks::span(order + 1),
{
    let w = blocks::span(order + 1);
    let parent = blocks::parent_of(idx, order);
    blocks::lemma_buddy(idx, order);
    blocks::lemma_cover(idx, parent, order + 1);
    assert(blocks::within(idx, parent, order + 1));
    vstd::arithmetic::div_mod::lemma_fundamental_div_mod(idx, w);
    let q = idx / w;
    assert(idx - idx % w == q * w) by (nonlinear_arith)
        requires
            idx == w * q + idx % w,
    ;
}

/// A block and its parent lie in the same larger blocks.
proof fn lemma_parent_in_larger(idx: int, order: int, o: int)
    requires
        0 <= order < o,
        0 <= idx,
        blocks::aligned(idx, order),
    ensures
        blocks::parent_of(idx, order) / blocks::span(o) == idx / blocks::span(o),
{
    let w = blocks::span(order + 1);
    let c = blocks::span(o - order - 1);
    let parent = blocks::parent_of(idx, order);
    blocks::lemma_buddy(idx, order);
    blocks::lemma_span_multiple(order + 1, o);
    blocks::lemma_span(o - order - 1);
    blocks::lemma_span(order + 1);
    lemma_parent_quotient(idx, order);
    assert(w * c == c * w) by (nonlinear_arith);
    vstd::arithmetic::div_mod::lemma_div_denominator(idx, w, c);
    vstd::arithmetic::div_mod::lemma_div_denominator(parent, w, c);
    vstd::arithmetic::div_mod::lemma_div_by_multiple(idx / w, w);
}

/// Freeing a block joins it, order by order, with the free block that makes up
/// the next larger one with it, until there is none or the largest order is
/// reached. The joined ones leave their lists, the result comes first in its
/// list, and no other list changes.
pub proof fn law_join(arena: Arena, idx: int, order: int) -> (top: int)
    requires
        arena.wf(),
        arena.placed(idx, order),
        arena.clear(idx, order),
    ensures
        ({
            let after = arena.coalesce(idx, order);
            &&& order <= top < arena.free.len()
            &&& after.free.len() == arena.free.len()
            &&& after.free[top] == seq![(idx / blocks::span(top)) * blocks::span(top)]
                + arena.free[top]
            &&& forall|o: int|
                0 <= o < order || top < o < arena.free.len() ==> #[trigger] after.free[o]
                    == arena.free[o]
            &&& forall|o: int|
                order <= o < top ==> joined(arena.free[o], #[trigger] after.free[o], idx, o)
            &&& top + 1 < arena.free.len() ==> forall|b: int| #[trigger]
                arena.free[top].contains(b) ==> b / blocks::span(top + 1) != idx / blocks::span(
                    top + 1,
                )
        }),
    decreases arena.free.len() - order,
{
    let buddy = blocks::buddy_of(idx, order);
    let parent = blocks::parent_of(idx, order);
    let after = arena.coalesce(idx, order);
    blocks::lemma_buddy(idx, order);
    lemma_parent_quotient(idx, order);
    crate::repr::lemma_clear_head(arena, idx, order);
    if order + 1 < arena.free.len() && arena.free_block(buddy, order) {
        let mid = arena.without_free(buddy, order);
        arena.lemma_join(idx, order);
        let top = law_join(mid, parent, order + 1);
        let s = arena.free[order];
        let j = s.index_of(buddy);
        assert(s[j] == buddy);
        assert(after.free[order] == mid.free[order]);
        lemma_same_parent(buddy, idx, order);
        assert(joined(s, after.free[order], idx, order));
        assert forall|o: int| order <= o < top implies joined(
            arena.free[o],
            #[trigger] after.free[o],
            idx,
            o,
        ) by {
            if o > order {
                assert(mid.free[o] == arena.free[o]);
                assert(joined(mid.free[o], after.free[o], parent, o));
                lemma_parent_in_larger(idx, order, o + 1);
            }
        }
        assert(mid.free[top] == arena.free[top]);
        lemma_parent_in_larger(idx, order, top);
        lemma_parent_in_larger(idx, order, top + 1);
        top
    } else {
        vstd::arithmetic::div_mod::lemma_fundamental_div_mod(idx, blocks::span(order));
        assert(blocks::span(order) * (idx / blocks::span(order)) == (idx / blocks::span(order))
            * blocks::span(order)) by (nonlinear_arith);
        assert forall|b: int| #[trigger]
            arena.free[order].contains(b) && order + 1 < arena.free.len() implies b / blocks::span(
            order + 1,
        ) != idx / blocks::span(order + 1) by {
            assert(arena.free_block(b, order));
            assert(arena.block(b, order));
            lemma_same_parent(b, idx, order);
        }
        order
    }
}

/// Freeing a block in use drops it from the blocks in use and joins it, order
/// by order, with the free block that makes up the next larger one with it,
/// until there is none or the largest order is reached. The joined ones leave
/// their lists, the result comes first in its list, and no other list changes.
pub proof fn law_free_joins(arena: Arena, idx: int, order: int) -> (top: int)
    requires
        arena.wf(),
        arena.placed(idx, order),
        arena.releasable(idx, order),
    ensures
        ({
            let after = arena.release(idx, order);
            &&& after.used == arena.used.remove(idx)
            &&& after.nr_pages == arena.nr_pages
            &&& order <= top < arena.free.len()
            &&& after.free.len() == arena.free.len()
            &&& after.free[top] == seq![(idx / blocks::span(top)) * blocks::span(top)]
                + arena.free[top]
            &&& forall|o: int|
                0 <= o < order || top < o < arena.free.len() ==> #[trigger] after.free[o]
                    == arena.free[o]
            &&& forall|o: int|
                order <= o < top ==> joined(arena.free[o], #[trigger] after.free[o], idx, o)
            &&& top + 1 < arena.free.len() ==> forall|b: int| #[trigger]
                arena.free[top].contains(b) ==> b / blocks::span(top + 1) != idx / blocks::span(
                    top + 1,
                )
        }),
{
    laws::law_free(arena, idx, order);
    arena.lemma_without_used(idx);
    law_join(arena.without_used(idx), idx, order)
}

/// `after` is `before` without one block of `order` that lies in the same
/// block of the next order as page `idx`.
pub open spec fn joined(before: Seq<int>, after: Seq<int>, idx: int, order: int) -> bool {
    exists|j: int|
        0 <= j < before.len() && #[trigger] before[j] / blocks::span(order + 1) == idx
            / blocks::span(order + 1) && after == before.subrange(0, j) + before.subrange(
            j + 1,
            before.len() as int,
        )
}

/// No page from `idx` up to `end` is free.
pub open spec fn none_free(arena: Arena, idx: int, end: int) -> bool {
    forall|p: int| idx <= p < end ==> !#[trigger] arena.free_page(p)
}

/// No block in use but the one at `idx` has a page from `idx` up to `end`.
pub open spec fn none_else_used(arena: Arena, idx: int, end: int) -> bool {
    forall|j: int| #[trigger]
        arena.used.contains_key(j) && j != idx ==> end <= j || j + pow2(arena.used[j] as nat)
            <= idx
}

/// A block may be freed if and only if a block in use starts where it does, it
/// holds no free page, and no other block in use has a page in it.
pub proof fn law_releasable(arena: Arena, idx: int, order: int)
    requires
        arena.wf(),
        arena.placed(idx, order),
    ensures
        arena.releasable(idx, order) <==> arena.used.contains_key(idx) && none_free(
            arena,
            idx,
            idx + pow2(order as nat),
        ) && none_else_used(arena, idx, idx + pow2(order as nat)),
{
    let mid = arena.without_used(idx);
    let end = idx + pow2(order as nat);
    blocks::lemma_span(order);
    if arena.releasable(idx, order) {
        assert forall|p: int| idx <= p < end implies !#[trigger] arena.free_page(p) by {
            if arena.free_page(p) {
                let (i, o) = choose|i: int, o: int| #[trigger]
                    arena.free_block(i, o) && blocks::within(p, i, o);
                assert(mid.free_block(i, o));
                assert(mid.block(i, o));
            }
        }
        assert forall|j: int| #[trigger] arena.used.contains_key(j) && j != idx implies end <= j || j
            + pow2(arena.used[j] as nat) <= idx by {
            assert(mid.used_block(j, arena.used[j]));
            assert(mid.block(j, arena.used[j]));
        }
        assert(none_free(arena, idx, end));
        assert(none_else_used(arena, idx, end));
    }
    if arena.used.contains_key(idx) && none_free(arena, idx, end) && none_else_used(
        arena,
        idx,
        end,
    ) {
        arena.lemma_without_used(idx);
        assert forall|j: int, b: int| #[trigger] mid.block(j, b) implies blocks::disjoint(
            idx,
            order,
            j,
            b,
        ) by {
            assert(mid.placed(j, b));
            blocks::lemma_span(b);
            if mid.free_block(j, b) {
                assert(arena.free_block(j, b));
                if !blocks::disjoint(idx, order, j, b) {
                    let p = if idx < j {
                        j
                    } else {
                        idx
                    };
                    arena.lemma_free_page(j, b, p);
                }
            } else {
                assert(mid.used_block(j, b));
                assert(arena.used.contains_key(j));
            }
        }
        assert(mid.clear(idx, order));
    }
}

/// The largest aligned block at `idx` that ends at `idx + span(c)` is the one
/// of order `c`.
proof fn lemma_chunk_of_block(idx: int, c: int, most: int)
    requires
        0 <= idx,
        0 <= c <= most,
        blocks::aligned(idx, c),
    ensures
        arena::chunk_order(idx, idx + blocks::span(c), most) == c,
{
    let end = idx + blocks::span(c);
    blocks::lemma_span(c);
    arena::lemma_chunk_order(idx, end, most);
    let o = arena::chunk_order(idx, end, most);
    if o < c {
        assert(!(blocks::aligned(idx, c) && idx + blocks::span(c) <= end));
    } else if c < o {
        blocks::lemma_span_multiple(c, o);
    }
}

/// A range is freed block by block: the first is the largest aligned block at
/// its start that ends in it. If a page of that block is free or in use,
/// nothing is freed and the range is refused; otherwise freeing the range is
/// freeing that block and then the rest.
pub proof fn law_range_block_by_block(arena: Arena, idx: int, end: int) -> (c: int)
    requires
        arena.wf(),
        arena.free.len() > 0,
        0 <= idx < end <= arena.nr_pages,
    ensures
        0 <= c < arena.free.len(),
        idx % (pow2(c as nat) as int) == 0,
        idx + pow2(c as nat) <= end,
        forall|b: int|
            c < b < arena.free.len() ==> !(idx % (#[trigger] pow2(b as nat) as int) == 0 && idx
                + pow2(b as nat) <= end),
        ({
            let next = idx + pow2(c as nat);
            let (mid, first) = arena.release_range(idx, next);
            if laws::unclaimed(arena, idx, next) {
                first && arena.release_range(idx, end) == mid.release_range(next, end)
            } else {
                arena.release_range(idx, end) == (arena, false)
            }
        }),
{
    let most = arena.free.len() - 1;
    let c = arena.chunk(idx, end);
    let next = idx + blocks::span(c);
    arena::lemma_chunk_order(idx, end, most);
    blocks::lemma_span(c);
    assert(arena.placed(idx, c));
    laws::lemma_clear_pages(arena, idx, c);
    lemma_chunk_of_block(idx, c, most);
    assert forall|b: int| c < b < arena.free.len() implies !(idx % (#[trigger] pow2(
        b as nat,
    ) as int) == 0 && idx + pow2(b as nat) <= end) by {
        assert(!(blocks::aligned(idx, b) && idx + blocks::span(b) <= end));
    }
    if arena.clear(idx, c) {
        let mid = arena.coalesce(idx, c);
        assert(mid.release_range(next, next) == (mid, true));
        assert(arena.release_range(idx, next) == mid.release_range(next, next));
        assert(arena.release_range(idx, end) == mid.release_range(next, end));
    }
    c
}

/// Freeing the pages of one aligned block as a range joins it as freeing the
/// block does: the free blocks that make up larger ones with it leave their
/// lists, the result comes first in its list, and no other list changes.
pub proof fn law_range_of_one_block(arena: Arena, idx: int, order: int) -> (top: int)
    requires
        arena.wf(),
        arena.placed(idx, order),
        laws::unclaimed(arena, idx, idx + pow2(order as nat)),
    ensures
        ({
            let (after, all) = arena.release_range(idx, idx + pow2(order as nat));
            &&& all
            &&& order <= top < arena.free.len()
            &&& after.free.len() == arena.free.len()
            &&& after.free[top] == seq![(idx / blocks::span(top)) * blocks::span(top)]
                + arena.free[top]
            &&& forall|o: int|
                0 <= o < order || top < o < arena.free.len() ==> #[trigger] after.free[o]
                    == arena.free[o]
            &&& forall|o: int|
                order <= o < top ==> joined(arena.free[o], #[trigger] after.free[o], idx, o)
            &&& top + 1 < arena.free.len() ==> forall|b: int| #[trigger]
                arena.free[top].contains(b) ==> b / blocks::span(top + 1) != idx / blocks::span(
                    top + 1,
                )
        }),
{
    let next = idx + blocks::span(order);
    blocks::lemma_span(order);
    laws::lemma_clear_pages(arena, idx, order);
    lemma_chunk_of_block(idx, order, arena.free.len() - 1);
    let mid = arena.coalesce(idx, order);
    assert(mid.release_range(next, next) == (mid, true));
    assert(arena.release_range(idx, next) == mid.release_range(next, next));
    law_join(arena, idx, order)
}

/// Page `p` lies in one of the ranges from the `k`-th up to the `m`-th.
pub open spec fn in_ranges_between(ranges: Seq<(int, int)>, k: int, m: int, p: int) -> bool {
    exists|j: int| k <= j < m && #[trigger] laws::in_range(ranges, j, p)
}

proof fn lemma_between(ranges: Seq<(int, int)>, k: int, m: int, p: int)
    requires
        k < m,
    ensures
        in_ranges_between(ranges, k, m, p) <==> laws::in_range(ranges, k, p) || in_ranges_between(
            ranges,
            k + 1,
            m,
            p,
        ),
{
    if in_ranges_between(ranges, k, m, p) {
        let j = choose|j: int| k <= j < m && #[trigger] laws::in_range(ranges, j, p);
        assert(j == k || k + 1 <= j);
    }
    if in_ranges_between(ranges, k + 1, m, p) {
        let j = choose|j: int| k + 1 <= j < m && #[trigger] laws::in_range(ranges, j, p);
        assert(k <= j < m);
    }
}

/// When ranges freed in turn are refused, the ranges before some one are freed
/// whole, that one up to some page, and no later page becomes free. None of
/// the ranges before held a page that was free or in use, and that one holds,
/// from the page on, one that was, or that lies in a range before.
pub proof fn law_ranges_stop_at_overlap(arena: Arena, ranges: Seq<(int, int)>, k: int) -> (r: (
    int,
    int,
))
    requires
        arena.wf(),
        arena.free.len() > 0,
        0 <= k,
        forall|j: int|
            k <= j < ranges.len() ==> 0 <= (#[trigger] ranges[j]).0 && ranges[j].1
                <= arena.nr_pages,
        !arena.release_ranges(ranges, k).1,
    ensures
        ({
            let (m, stop) = r;
            let after = arena.release_ranges(ranges, k).0;
            &&& k <= m < ranges.len()
            &&& ranges[m].0 <= stop < ranges[m].1
            &&& forall|p: int| #[trigger]
                after.free_page(p) <==> arena.free_page(p) || in_ranges_between(ranges, k, m, p)
                    || ranges[m].0 <= p < stop
            &&& forall|j: int|
                k <= j < m ==> laws::unclaimed(arena, (#[trigger] ranges[j]).0, ranges[j].1)
            &&& exists|q: int|
                stop <= q < ranges[m].1 && (#[trigger] arena.free_page(q) || arena.used_page(q)
                    || in_ranges_between(ranges, k, m, q))
        }),
    decreases ranges.len() - k,
{
    let (mid, first) = arena.release_range(ranges[k].0, ranges[k].1);
    let after = arena.release_ranges(ranges, k).0;
    laws::law_free_range(arena, ranges[k].0, ranges[k].1);
    if !first {
        let stop = choose|stop: int| #[trigger]
            laws::freed_up_to(arena, mid, ranges[k].0, stop) && laws::unclaimed(
                arena,
                ranges[k].0,
                stop,
            ) && (first || stop < ranges[k].1);
        let q = choose|q: int|
            ranges[k].0 <= q < ranges[k].1 && (#[trigger] arena.free_page(q) || arena.used_page(q));
        if q < stop {
            laws::lemma_unclaimed_page(arena, ranges[k].0, stop, q);
        }
        assert forall|p: int| !in_ranges_between(ranges, k, k, p) by {}
        assert(arena.free_page(q) || arena.used_page(q));
        (k, stop)
    } else {
        let (m, stop) = law_ranges_stop_at_overlap(mid, ranges, k + 1);
        laws::lemma_same_used(arena, mid);
        assert forall|p: int| #[trigger]
            mid.free_page(p) <==> arena.free_page(p) || laws::in_range(ranges, k, p) by {}
        assert forall|p: int| #[trigger]
            after.free_page(p) <==> arena.free_page(p) || in_ranges_between(ranges, k, m, p)
                || ranges[m].0 <= p < stop by {
            lemma_between(ranges, k, m, p);
            assert(after.free_page(p) <==> mid.free_page(p) || in_ranges_between(
                ranges,
                k + 1,
                m,
                p,
            ) || ranges[m].0 <= p < stop);
            assert(mid.free_page(p) <==> arena.free_page(p) || laws::in_range(ranges, k, p));
        }
        assert forall|j: int| k <= j < m implies laws::unclaimed(
            arena,
            (#[trigger] ranges[j]).0,
            ranges[j].1,
        ) by {
            if j > k {
                assert forall|p: int|
                    #![trigger arena.free_page(p)]
                    #![trigger arena.used_page(p)]
                    ranges[j].0 <= p < ranges[j].1 implies !arena.free_page(p) && !arena.used_page(
                    p,
                ) by {
                    laws::lemma_unclaimed_page(mid, ranges[j].0, ranges[j].1, p);
                    assert(mid.free_page(p) <==> arena.free_page(p) || laws::in_range(
                        ranges,
                        k,
                        p,
                    ));
                    assert(arena.used_page(p) <==> mid.used_page(p));
                }
            }
        }
        let q = choose|q: int|
            stop <= q < ranges[m].1 && (#[trigger] mid.free_page(q) || mid.used_page(q)
                || in_ranges_between(ranges, k + 1, m, q));
        lemma_between(ranges, k, m, q);
        assert(arena.used_page(q) <==> mid.used_page(q));
        assert(mid.free_page(q) <==> arena.free_page(q) || laws::in_range(ranges, k, q));
        assert(arena.free_page(q) || arena.used_page(q) || in_ranges_between(ranges, k, m, q));
        (m, stop)
    }
}

/// The pages are found by the addresses at which they start, and by no others.
pub proof fn law_page_at<'a, A: PageFrame, const MAX_ORDER: usize>(
    buddy: Buddy<'a, A, MAX_ORDER>,
    addr: int,
    i: int,
)
    requires
        buddy.wf(),
        buddy.pages is Some,
    ensures
        buddy.page_at(addr) == Some(i) <==> 0 <= i < buddy.descriptors().len() && addr
            == buddy.address(i),
{
    let size = buddy.page_size.value();
    crate::addr::lemma_pow2_positive(size);
    if 0 <= i < buddy.descriptors().len() && addr == buddy.address(i) {
        laws::law_page_address(buddy, i);
    }
    if buddy.page_at(addr) == Some(i) {
        vstd::arithmetic::div_mod::lemma_fundamental_div_mod(addr, size);
        let q = addr / size;
        assert(size * q == q * size) by (nonlinear_arith);
    }
}

/// What freeing an address range does: the pages that lie wholly in it are
/// freed if and only if none of them is free or in use, whatever else the
/// range covers. If one is, those before some page are freed and the range is
/// refused. The blocks in use stay as they are.
pub proof fn law_range_frees_whole_pages<'a, A: PageFrame, const MAX_ORDER: usize>(
    buddy: Buddy<'a, A, MAX_ORDER>,
    start: A,
    end: A,
)
    requires
        buddy.wf(),
        buddy.pages is Some,
        0 <= start.value() <= A::limit(),
        0 <= end.value() <= A::limit(),
    ensures
        ({
            let (after, all) = buddy.range_freed(start.value(), end.value());
            let size = buddy.page_size.value();
            &&& after.wf()
            &&& after.used == buddy.arena().used
            &&& all <==> forall|p: int|
                #![trigger buddy.address(p)]
                0 <= p < buddy.descriptors().len() && start.value() <= buddy.address(p)
                    && buddy.address(p) + size <= end.value() ==> !buddy.arena().free_page(p)
                    && !buddy.arena().used_page(p)
            &&& all ==> forall|p: int|
                0 <= p < buddy.descriptors().len() ==> (#[trigger] after.free_page(p)
                    <==> buddy.arena().free_page(p) || (start.value() <= buddy.address(p)
                    && buddy.address(p) + size <= end.value()))
            &&& !all ==> exists|stop: int| #[trigger]
                freed_before(buddy, after, start.value(), end.value(), stop)
        }),
{
    let arena = buddy.arena();
    let n = buddy.descriptors().len() as int;
    let lo = buddy.first_page(start.value());
    let hi = buddy.end_page(end.value());
    let size = buddy.page_size.value();
    let (after, all) = buddy.range_freed(start.value(), end.value());
    blocks::lemma_span(MAX_ORDER - 1);
    laws::law_range_pages(buddy, start, end, 0);
    laws::law_free_range(arena, lo, hi);
    assert forall|p: int|
        #![trigger buddy.address(p)]
        0 <= p < n implies (lo <= p < hi <==> start.value() <= buddy.address(p)
        && buddy.address(p) + size <= end.value()) by {
        laws::law_range_pages(buddy, start, end, p);
    }
    if all {
        assert forall|p: int|
            #![trigger buddy.address(p)]
            0 <= p < n && start.value() <= buddy.address(p) && buddy.address(p) + size
                <= end.value() implies !arena.free_page(p) && !arena.used_page(p) by {
            laws::lemma_unclaimed_page(arena, lo, hi, p);
        }
        assert forall|p: int| 0 <= p < n implies (#[trigger] after.free_page(p) <==> arena.free_page(
            p,
        ) || (start.value() <= buddy.address(p) && buddy.address(p) + size <= end.value())) by {
            assert(lo <= p < hi <==> start.value() <= buddy.address(p) && buddy.address(p) + size
                <= end.value());
        }
    } else {
        let stop = choose|stop: int| #[trigger]
            laws::freed_up_to(arena, after, lo, stop) && laws::unclaimed(arena, lo, stop) && (all
                || stop < hi);
        let q = choose|q: int|
            lo <= q < hi && (#[trigger] arena.free_page(q) || arena.used_page(q));
        assert(0 <= q < n);
        assert(start.value() <= buddy.address(q) && buddy.address(q) + size <= end.value());
        assert(freed_before(buddy, after, start.value(), end.value(), stop)) by {
            assert forall|p: int| 0 <= p < n implies (#[trigger] after.free_page(p)
                <==> arena.free_page(p) || (p < stop && start.value() <= buddy.address(p)
                && buddy.address(p) + size <= end.value())) by {
                assert(lo <= p < hi <==> start.value() <= buddy.address(p) && buddy.address(p)
                    + size <= end.value());
            }
            if q < stop {
                laws::lemma_unclaimed_page(arena, lo, stop, q);
            }
        }
    }
}

/// Freeing an address range is freeing the pages from the first to the last
/// that lie wholly in it, from the first on.
pub proof fn law_range_is_its_pages<'a, A: PageFrame, const MAX_ORDER: usize>(
    buddy: Buddy<'a, A, MAX_ORDER>,
    start: A,
    end: A,
    lo: int,
    hi: int,
)
    requires
        buddy.wf(),
        buddy.pages is Some,
        0 <= start.value() <= A::limit(),
        0 <= end.value() <= A::limit(),
        0 <= lo <= hi <= buddy.descriptors().len(),
        forall|p: int|
            #![trigger buddy.address(p)]
            0 <= p < buddy.descriptors().len() ==> (lo <= p < hi <==> start.value()
                <= buddy.address(p) && buddy.address(p) + buddy.page_size.value() <= end.value()),
    ensures
        buddy.range_freed(start.value(), end.value()) == buddy.arena().release_range(lo, hi),
{
    let n = buddy.descriptors().len() as int;
    let first = buddy.first_page(start.value());
    let last = buddy.end_page(end.value());
    blocks::lemma_span(MAX_ORDER - 1);
    laws::law_range_pages(buddy, start, end, 0);
    assert forall|p: int|
        #![trigger buddy.address(p)]
        0 <= p < n implies (lo <= p < hi <==> first <= p < last) by {
        laws::law_range_pages(buddy, start, end, p);
    }
    if lo < hi {
        let (a, b) = (buddy.address(lo), buddy.address(hi - 1));
        assert(first <= lo && hi <= last);
        let (c, d) = (buddy.address(first), buddy.address(last - 1));
        assert(lo <= first && last <= hi);
    } else if first < last {
        let a = buddy.address(first);
        assert(lo <= first < hi);
    }
}

/// Of the pages that lie wholly between two addresses just those before page
/// `stop` became free, and one from there on was free or in use.
pub open spec fn freed_before<'a, A: PageFrame, const MAX_ORDER: usize>(
    buddy: Buddy<'a, A, MAX_ORDER>,
    after: Arena,
    start: int,
    end: int,
    stop: int,
) -> bool {
    let size = buddy.page_size.value();
    &&& forall|p: int|
        0 <= p < buddy.descriptors().len() ==> (#[trigger] after.free_page(p)
            <==> buddy.arena().free_page(p) || (p < stop && start <= buddy.address(p)
            && buddy.address(p) + size <= end))
    &&& exists|q: int|
        stop <= q < buddy.descriptors().len() && start <= #[trigger] buddy.address(q)
            && buddy.address(q) + size <= end && (buddy.arena().free_page(q)
            || buddy.arena().used_page(q))
}

/// What freeing address ranges does: all are freed if and only if no page that
/// lies wholly in one of them is free or in use and none lies wholly in two;
/// and then just those pages become free.
pub proof fn law_ranges_free_whole_pages<'a, A: PageFrame, const MAX_ORDER: usize>(
    buddy: Buddy<'a, A, MAX_ORDER>,
    ranges: Seq<(A, A)>,
)
    requires
        buddy.wf(),
        buddy.pages is Some,
        forall|k: int|
            0 <= k < ranges.len() ==> 0 <= (#[trigger] ranges[k]).0.value() <= A::limit() && 0
                <= ranges[k].1.value() <= A::limit(),
    ensures
        ({
            let (after, all) = buddy.arena().release_ranges(buddy.page_ranges(ranges), 0);
            let size = buddy.page_size.value();
            &&& after.wf()
            &&& after.used == buddy.arena().used
            &&& buddy.page_ranges(ranges).len() == ranges.len()
            &&& forall|k: int, p: int|
                #![trigger ranges[k], buddy.address(p)]
                0 <= k < ranges.len() && 0 <= p < buddy.descriptors().len() ==> (
                buddy.page_ranges(ranges)[k].0 <= p < buddy.page_ranges(ranges)[k].1
                    <==> ranges[k].0.value() <= buddy.address(p) && buddy.address(p) + size
                    <= ranges[k].1.value())
            &&& all ==> forall|p: int|
                0 <= p < buddy.descriptors().len() ==> (#[trigger] after.free_page(p)
                    <==> buddy.arena().free_page(p) || exists|k: int|
                    0 <= k < ranges.len() && (#[trigger] ranges[k]).0.value() <= buddy.address(p)
                        && buddy.address(p) + size <= ranges[k].1.value())
            &&& all <==> (forall|k: int, p: int|
                #![trigger ranges[k], buddy.address(p)]
                0 <= k < ranges.len() && 0 <= p < buddy.descriptors().len() && ranges[k].0.value()
                    <= buddy.address(p) && buddy.address(p) + size <= ranges[k].1.value()
                    ==> !buddy.arena().free_page(p) && !buddy.arena().used_page(p)) && (forall|
                i: int,
                j: int,
                p: int,
            |
                #![trigger ranges[i], ranges[j], buddy.address(p)]
                0 <= i < j < ranges.len() && 0 <= p < buddy.descriptors().len()
                    && ranges[i].0.value() <= buddy.address(p) && buddy.address(p) + size
                    <= ranges[i].1.value() ==> !(ranges[j].0.value() <= buddy.address(p)
                    && buddy.address(p) + size <= ranges[j].1.value()))
        }),
{
    let arena = buddy.arena();
    let n = buddy.descriptors().len() as int;
    let size = buddy.page_size.value();
    let spans = buddy.page_ranges(ranges);
    let (after, all) = arena.release_ranges(spans, 0);
    blocks::lemma_span(MAX_ORDER - 1);
    assert forall|k: int, p: int|
        #![trigger ranges[k], buddy.address(p)]
        0 <= k < ranges.len() && 0 <= p < n implies (laws::in_range(spans, k, p)
        <==> ranges[k].0.value() <= buddy.address(p) && buddy.address(p) + size
        <= ranges[k].1.value()) by {
        laws::law_range_pages(buddy, ranges[k].0, ranges[k].1, p);
    }
    assert forall|k: int| 0 <= k < spans.len() implies 0 <= (#[trigger] spans[k]).0 && spans[k].1
        <= n by {
        laws::law_range_pages(buddy, ranges[k].0, ranges[k].1, 0);
    }
    laws::law_free_ranges(arena, spans, 0);
    assert forall|k: int, p: int| 0 <= k < spans.len() && #[trigger] laws::in_range(
        spans,
        k,
        p,
    ) implies 0 <= p < n by {
        assert(0 <= spans[k].0 && spans[k].1 <= n);
    }
    let apart = laws::apart(spans, 0);
    let clean = laws::all_unclaimed(arena, spans, 0);
    if all {
        assert forall|p: int| 0 <= p < n implies (#[trigger] after.free_page(p) <==> arena.free_page(
            p,
        ) || exists|k: int|
            0 <= k < ranges.len() && (#[trigger] ranges[k]).0.value() <= buddy.address(p)
                && buddy.address(p) + size <= ranges[k].1.value()) by {
            if laws::in_ranges(spans, 0, p) {
                let k = choose|k: int| 0 <= k < spans.len() && #[trigger] laws::in_range(spans, k, p);
                assert(ranges[k].0.value() <= buddy.address(p));
            }
            if exists|k: int|
                0 <= k < ranges.len() && (#[trigger] ranges[k]).0.value() <= buddy.address(p)
                    && buddy.address(p) + size <= ranges[k].1.value() {
                let k = choose|k: int|
                    0 <= k < ranges.len() && (#[trigger] ranges[k]).0.value() <= buddy.address(p)
                        && buddy.address(p) + size <= ranges[k].1.value();
                assert(laws::in_range(spans, k, p));
            }
        }
    }
    let clean_addresses = forall|k: int, p: int|
        #![trigger ranges[k], buddy.address(p)]
        0 <= k < ranges.len() && 0 <= p < n && ranges[k].0.value() <= buddy.address(p)
            && buddy.address(p) + size <= ranges[k].1.value() ==> !arena.free_page(p)
            && !arena.used_page(p);
    let apart_addresses = forall|i: int, j: int, p: int|
        #![trigger ranges[i], ranges[j], buddy.address(p)]
        0 <= i < j < ranges.len() && 0 <= p < n && ranges[i].0.value() <= buddy.address(p)
            && buddy.address(p) + size <= ranges[i].1.value() ==> !(ranges[j].0.value()
            <= buddy.address(p) && buddy.address(p) + size <= ranges[j].1.value());
    assert(clean ==> clean_addresses) by {
        if clean {
            assert forall|k: int, p: int|
                #![trigger ranges[k], buddy.address(p)]
                0 <= k < ranges.len() && 0 <= p < n && ranges[k].0.value() <= buddy.address(p)
                    && buddy.address(p) + size <= ranges[k].1.value() implies !arena.free_page(p)
                && !arena.used_page(p) by {
                assert(laws::unclaimed(arena, spans[k].0, spans[k].1));
                assert(laws::in_range(spans, k, p));
                laws::lemma_unclaimed_page(arena, spans[k].0, spans[k].1, p);
            }
        }
    }
    assert(clean_addresses ==> clean) by {
        if clean_addresses {
            assert forall|k: int| 0 <= k < spans.len() implies laws::unclaimed(
                arena,
                (#[trigger] spans[k]).0,
                spans[k].1,
            ) by {
                assert forall|p: int|
                    #![trigger arena.free_page(p)]
                    #![trigger arena.used_page(p)]
                    spans[k].0 <= p < spans[k].1 implies !arena.free_page(p) && !arena.used_page(
                    p,
                ) by {
                    assert(laws::in_range(spans, k, p));
                    assert(ranges[k].0.value() <= buddy.address(p));
                }
            }
        }
    }
    assert(apart ==> apart_addresses) by {
        if apart {
            assert forall|i: int, j: int, p: int|
                #![trigger ranges[i], ranges[j], buddy.address(p)]
                0 <= i < j < ranges.len() && 0 <= p < n && ranges[i].0.value() <= buddy.address(p)
                    && buddy.address(p) + size <= ranges[i].1.value() implies !(ranges[j].0.value()
                <= buddy.address(p) && buddy.address(p) + size <= ranges[j].1.value()) by {
                assert(laws::in_range(spans, i, p));
                assert(!laws::in_range(spans, j, p));
            }
        }
    }
    assert(apart_addresses ==> apart) by {
        if apart_addresses {
            assert forall|i: int, j: int, p: int|
                0 <= i < j < spans.len() && #[trigger] laws::in_range(
                    spans,
                    i,
                    p,
                ) implies !#[trigger] laws::in_range(spans, j, p) by {
                assert(0 <= p < n);
                assert(ranges[i].0.value() <= buddy.address(p));
                assert(ranges[j] == ranges[j]);
            }
        }
    }
}

/// When pages make an arena: the number of orders is in bounds, the page size
/// is a power of two that fits `usize`, the descriptors hold the largest block,
/// whose size in bytes is representable and divides the base address, the page
/// after the last has a number, and the last page has an address. Of the
/// faults, a bad page size comes before the others, except for the number of
/// orders.
pub proof fn law_geometry(base: int, page_size: int, nr_pages: int, limit: int, max_order: int)
    requires
        1 <= max_order <= usize::BITS && is_pow2(page_size) && page_size <= usize::MAX ==> 0 <= base
            <= limit,
        0 <= nr_pages,
    ensures
        ({
            let fault = buddy::geometry_fault(base, page_size, nr_pages, limit, max_order);
            let orders = 1 <= max_order <= usize::BITS;
            let size = page_size <= usize::MAX && exists|e: nat| #[trigger] pow2(e) == page_size;
            let block = pow2((max_order - 1) as nat) * page_size;
            let place = pow2((max_order - 1) as nat) <= nr_pages && block <= limit && base % block
                == 0 && base / page_size + nr_pages <= limit && base + (nr_pages - 1) * page_size
                <= limit;
            &&& fault is None <==> orders && size && place
            &&& fault == Some(Error::InvalidPageSize) <==> orders && !size
            &&& fault == Some(Error::InvalidGeometry) <==> !orders || (size && !place)
        }),
{
    is_pow2_equiv(page_size);
    let has = exists|e: nat| #[trigger] pow2(e) == page_size;
    assert(is_pow2(page_size) <==> has) by {
        if is_pow2(page_size) {
            let i = choose|i: nat| vstd::arithmetic::power::pow(2, i) == page_size;
            lemma_pow2(i);
            assert(pow2(i) == page_size);
        }
        if has {
            let e = choose|e: nat| #[trigger] pow2(e) == page_size;
            lemma_pow2(e);
            lemma_pow2_pos(e);
            assert(vstd::arithmetic::power::pow(2, e) == page_size);
        }
    }
    if 1 <= max_order <= usize::BITS && is_pow2(page_size) && page_size <= usize::MAX {
        let largest = blocks::span(max_order - 1);
        let pfn = base / page_size;
        crate::addr::lemma_pow2_positive(page_size);
        blocks::lemma_span(max_order - 1);
        lemma_product_bound(largest, page_size, limit);
        buddy::lemma_block_aligned(base, page_size, max_order - 1);
        if base % (largest * page_size) == 0 {
            vstd::arithmetic::div_mod::lemma_div_pos_is_pos(base, page_size);
            let last = pfn + nr_pages - 1;
            assert(last * page_size == base + (nr_pages - 1) * page_size) by (nonlinear_arith)
                requires
                    pfn * page_size == base,
                    last == pfn + nr_pages - 1,
            ;
            if nr_pages >= 1 {
                lemma_product_bound(last, page_size, limit);
            }
        }
    }
}

proof fn lemma_product_bound(n: int, m: int, limit: int)
    requires
        0 <= n,
        0 < m,
        0 <= limit,
    ensures
        n <= limit / m <==> n * m <= limit,
{
    vstd::arithmetic::div_mod::lemma_fundamental_div_mod(limit, m);
    let q = limit / m;
    let r = limit % m;
    assert(n <= q <==> n * m <= limit) by (nonlinear_arith)
        requires
            limit == m * q + r,
            0 <= r < m,
            0 < m,
    ;
}

/// Descriptors at an address that is not aligned to them are refused before
/// anything but the number of orders, and otherwise the geometry decides.
pub proof fn law_array(
    address: int,
    base: int,
    page_size: int,
    nr_pages: int,
    limit: int,
    max_order: int,
)
    ensures
        ({
            let fault = buddy::arena_fault(address, base, page_size, nr_pages, limit, max_order);
            let stray = address % (vstd::layout::align_of::<Page>() as int) != 0;
            &&& fault == Some(Error::InvalidPageArray) <==> 1 <= max_order <= usize::BITS && stray
            &&& !(1 <= max_order <= usize::BITS && stray) ==> fault == buddy::geometry_fault(
                base,
                page_size,
                nr_pages,
                limit,
                max_order,
            )
        }),
{
}

/// A new allocator has the pages and the page size it was given, the first
/// page at the base address and each page after the one before, and no page
/// that is free or in use.
pub proof fn law_start<'a, A: PageFrame, const MAX_ORDER: usize>(
    buddy: Buddy<'a, A, MAX_ORDER>,
    base: A,
    page_size: A,
    nr_pages: int,
)
    requires
        0 <= nr_pages,
        buddy.starts(base, page_size, nr_pages),
    ensures
        buddy.wf(),
        buddy.pages is Some,
        buddy.page_size == page_size,
        buddy.descriptors().len() == nr_pages,
        buddy.nr_free == 0,
        buddy.arena().nr_free() == 0,
        forall|p: int| #[trigger] buddy.address(p) == base.value() + p * page_size.value(),
        forall|p: int| !#[trigger] buddy.arena().free_page(p),
        forall|p: int| !#[trigger] buddy.arena().used_page(p),
        forall|p: int|
            #![trigger buddy.descriptors()[p]]
            0 <= p < nr_pages ==> {
                let page = buddy.descriptors()[p];
                &&& page.flags.bits == 0
                &&& page.order == 0
                &&& page.held_order == 0
                &&& page.refcount == 0
                &&& page.next@ is None
                &&& page.prev@ is None
            },
{
    let arena = buddy.arena();
    assert forall|i: int, o: int| !#[trigger] arena.free_block(i, o) by {}
    arena::lemma_pages_listed(arena.free, arena.free.len() as int);
    assert forall|p: int| #[trigger] buddy.address(p) == base.value() + p * page_size.value() by {
        let b = buddy.base_pfn.value();
        let m = page_size.value();
        assert((b + p) * m == b * m + p * m) by (nonlinear_arith);
        assert(b + 0 == b);
        assert(buddy.address(0) == base.value());
    }
}

} // verus!
