//! Laws of the allocator, over the arena that its operations' contracts speak
//! of.

use crate::arena;
use crate::arena::Arena;
use crate::blocks;
use crate::buddy;
use crate::buddy::Buddy;
use crate::list;
use crate::pfn::PageFrame;
use crate::repr;
use vstd::prelude::*;

verus! {

/// All pages of the block of `order` at `idx` are free.
pub open spec fn all_free(arena: Arena, idx: int, order: int) -> bool {
    forall|p: int| blocks::within(p, idx, order) ==> #[trigger] arena.free_page(p)
}

/// The count of free pages is the number of pages that lie in free blocks, and
/// at most the number of pages.
pub proof fn law_count(arena: Arena)
    requires
        arena.wf(),
    ensures
        arena.free_pages().finite(),
        arena.nr_free() == arena.free_pages().len(),
        0 <= arena.nr_free() <= arena.nr_pages,
{
    arena.lemma_count();
}

/// No page is free and in use at once.
pub proof fn law_free_or_used(arena: Arena, p: int)
    requires
        arena.wf(),
    ensures
        !(arena.free_page(p) && arena.used_page(p)),
        arena.free_page(p) || arena.used_page(p) ==> 0 <= p < arena.nr_pages,
{
    if arena.free_page(p) {
        let (i, a) = choose|i: int, a: int| #[trigger]
            arena.free_block(i, a) && blocks::within(p, i, a);
        assert(arena.block(i, a));
        if arena.used_page(p) {
            let (j, b) = choose|j: int, b: int| #[trigger]
                arena.used_block(j, b) && blocks::within(p, j, b);
            assert(arena.block(j, b));
            assert(!blocks::disjoint(i, a, j, b));
        }
    }
    if arena.used_page(p) {
        let (j, b) = choose|j: int, b: int| #[trigger]
            arena.used_block(j, b) && blocks::within(p, j, b);
        assert(arena.block(j, b));
    }
}

/// Free memory is in canonical form: whenever all pages of an aligned block
/// are free, the block lies in one free block.
pub proof fn law_canonical(arena: Arena, idx: int, order: int) -> (holder: (int, int))
    requires
        arena.wf(),
        arena.placed(idx, order),
        all_free(arena, idx, order),
    ensures
        arena.free_block(holder.0, holder.1),
        holder.1 >= order,
        blocks::nested(idx, order, holder.0, holder.1),
    decreases order,
{
    blocks::lemma_span(order);
    if order == 0 {
        assert(blocks::within(idx, idx, order));
        assert(arena.free_page(idx));
        let (i, o) = choose|i: int, o: int| #[trigger]
            arena.free_block(i, o) && blocks::within(idx, i, o);
        assert(arena.block(i, o));
        blocks::lemma_span(o);
        (i, o)
    } else {
        let half = order - 1;
        blocks::lemma_aligned_smaller(idx, half, order);
        blocks::lemma_buddy(idx, half);
        let upper = idx + blocks::span(half);
        assert(blocks::buddy_of(idx, half) == upper);
        assert(all_free(arena, idx, half)) by {
            assert forall|p: int| blocks::within(p, idx, half) implies #[trigger] arena.free_page(
                p,
            ) by {
                assert(blocks::within(p, idx, order));
            }
        }
        assert(all_free(arena, upper, half)) by {
            assert forall|p: int| blocks::within(p, upper, half) implies #[trigger] arena.free_page(
                p,
            ) by {
                assert(blocks::within(p, idx, order));
            }
        }
        let (i, a) = law_canonical(arena, idx, half);
        let (j, b) = law_canonical(arena, upper, half);
        assert(arena.block(i, a) && arena.block(j, b));
        assert(arena.placed(i, a) && arena.placed(j, b));
        blocks::lemma_span(a);
        blocks::lemma_span(b);
        if a >= order {
            blocks::lemma_nested(idx, order, i, a);
            (i, a)
        } else if b >= order {
            blocks::lemma_nested(idx, order, j, b);
            (j, b)
        } else {
            blocks::lemma_nested(idx, half, i, a);
            blocks::lemma_nested(upper, half, j, b);
            assert(arena.free_block(idx, half));
            assert(arena.free_block(upper, half));
            assert(false);
            (i, a)
        }
    }
}

/// The free blocks are the largest aligned blocks of free pages: a block is
/// listed if and only if all its pages are free and it is of the largest order
/// or not all pages of its parent are free.
pub proof fn law_largest_blocks(arena: Arena, idx: int, order: int)
    requires
        arena.wf(),
        arena.placed(idx, order),
    ensures
        arena.free_block(idx, order) <==> all_free(arena, idx, order) && (order + 1
            == arena.free.len() || !(arena.placed(blocks::parent_of(idx, order), order + 1)
            && all_free(arena, blocks::parent_of(idx, order), order + 1))),
{
    let parent = blocks::parent_of(idx, order);
    blocks::lemma_buddy(idx, order);
    if arena.free_block(idx, order) {
        assert forall|p: int| blocks::within(p, idx, order) implies #[trigger] arena.free_page(
            p,
        ) by {
            arena.lemma_free_page(idx, order, p);
        }
        if order + 1 < arena.free.len() && arena.placed(parent, order + 1) && all_free(
            arena,
            parent,
            order + 1,
        ) {
            let (i, a) = law_canonical(arena, parent, order + 1);
            assert(arena.block(i, a) && arena.block(idx, order));
            assert(!blocks::disjoint(i, a, idx, order));
            assert(false);
        }
    }
    if all_free(arena, idx, order) {
        let (i, a) = law_canonical(arena, idx, order);
        assert(arena.block(i, a));
        assert(arena.placed(i, a));
        blocks::lemma_nested(idx, order, i, a);
        if a > order {
            blocks::lemma_aligned_smaller(i, order + 1, a);
            blocks::lemma_nested(parent, order + 1, i, a);
            assert(!blocks::disjoint(parent, order + 1, i, a));
            assert(arena.placed(parent, order + 1));
            assert forall|p: int| blocks::within(p, parent, order + 1) implies #[trigger] arena.free_page(
                p,
            ) by {
                arena.lemma_free_page(i, a, p);
            }
        }
    }
}

/// Which pages are free decides which blocks are free.
pub proof fn law_pages_decide_blocks(a: Arena, b: Arena, idx: int, order: int)
    requires
        a.wf(),
        b.wf(),
        a.nr_pages == b.nr_pages,
        a.free.len() == b.free.len(),
        forall|p: int| #[trigger] a.free_page(p) <==> b.free_page(p),
    ensures
        a.free_block(idx, order) <==> b.free_block(idx, order),
{
    if a.free_block(idx, order) || b.free_block(idx, order) {
        assert(a.block(idx, order) || b.block(idx, order));
        assert(a.placed(idx, order));
        law_largest_blocks(a, idx, order);
        law_largest_blocks(b, idx, order);
        assert forall|i: int, o: int| all_free(a, i, o) <==> all_free(b, i, o) by {
            if all_free(a, i, o) {
                assert forall|p: int| blocks::within(p, i, o) implies #[trigger] b.free_page(p) by {
                    assert(a.free_page(p));
                }
            }
            if all_free(b, i, o) {
                assert forall|p: int| blocks::within(p, i, o) implies #[trigger] a.free_page(p) by {
                    assert(b.free_page(p));
                }
            }
        }
    }
}

/// An allocation of `order` succeeds if and only if some aligned block of that
/// order has all its pages free.
pub proof fn law_alloc_succeeds(arena: Arena, order: int)
    requires
        arena.wf(),
        0 <= order < arena.free.len(),
    ensures
        arena.allocate(order) is Some <==> exists|idx: int| #[trigger]
            arena.placed(idx, order) && all_free(arena, idx, order),
{
    Arena::lemma_first_fit(arena.free, order);
    if arena.allocate(order) is Some {
        let fit = arena::first_fit(arena.free, order)->0;
        let idx = arena.free[fit][0];
        assert(arena.free[fit].contains(idx));
        assert(arena.free_block(idx, fit));
        assert(arena.block(idx, fit));
        blocks::lemma_aligned_smaller(idx, order, fit);
        blocks::lemma_span_multiple(order, fit);
        assert(arena.placed(idx, order));
        assert forall|p: int| blocks::within(p, idx, order) implies #[trigger] arena.free_page(
            p,
        ) by {
            arena.lemma_free_page(idx, fit, p);
        }
    }
    if exists|idx: int| #[trigger] arena.placed(idx, order) && all_free(arena, idx, order) {
        let idx = choose|idx: int| #[trigger]
            arena.placed(idx, order) && all_free(arena, idx, order);
        let (i, o) = law_canonical(arena, idx, order);
        assert(arena.free[o].contains(i));
        assert(arena.free[o].len() > 0);
    }
}

/// A page can be allocated as long as one is free.
pub proof fn law_alloc_page_succeeds(arena: Arena)
    requires
        arena.wf(),
        arena.free.len() > 0,
    ensures
        arena.allocate(0) is Some <==> arena.nr_free() > 0,
{
    Arena::lemma_first_fit(arena.free, 0);
    arena::lemma_pages_listed(arena.free, arena.free.len() as int);
    arena.lemma_count();
}

/// An allocation hands out an aligned block of the arena whose pages were
/// free, takes just those pages out of the free ones, records the block as in
/// use and leaves the other blocks in use as they are.
pub proof fn law_alloc(arena: Arena, order: int)
    requires
        arena.wf(),
        0 <= order < arena.free.len(),
        arena.allocate(order) is Some,
    ensures
        ({
            let (after, idx) = arena.allocate(order)->0;
            &&& after.wf()
            &&& arena.placed(idx, order)
            &&& all_free(arena, idx, order)
            &&& forall|p: int| #[trigger]
                after.free_page(p) <==> arena.free_page(p) && !blocks::within(p, idx, order)
            &&& after.nr_free() == arena.nr_free() - blocks::span(order)
            &&& !arena.used.contains_key(idx)
            &&& after.used == arena.used.insert(idx, order)
            &&& after.nr_pages == arena.nr_pages
            &&& after.free.len() == arena.free.len()
        }),
{
    Arena::lemma_first_fit(arena.free, order);
    let fit = arena::first_fit(arena.free, order)->0;
    let idx = arena.free[fit][0];
    let after = (arena.allocate(order)->0).0;
    assert(arena.free[fit].contains(idx));
    assert(arena.free_block(idx, fit));
    assert(arena.block(idx, fit));
    let popped = arena.without_free(idx, fit);
    let split = popped.split(idx, order, fit);
    arena.lemma_without_free(idx, fit);
    popped.lemma_split(idx, order, fit);
    split.lemma_with_used(idx, order);
    blocks::lemma_aligned_smaller(idx, order, fit);
    blocks::lemma_span_multiple(order, fit);
    assert forall|p: int| blocks::within(p, idx, order) implies #[trigger] arena.free_page(p) by {
        arena.lemma_free_page(idx, fit, p);
    }
    assert forall|p: int| #[trigger] after.free_page(p) <==> arena.free_page(p) && !blocks::within(
        p,
        idx,
        order,
    ) by {
        lemma_same_free(split, after);
        assert(split.free_page(p) <==> popped.free_page(p) || (blocks::within(p, idx, fit)
            && !blocks::within(p, idx, order)));
        assert(arena.free_page(p) <==> popped.free_page(p) || blocks::within(p, idx, fit));
        if popped.free_page(p) {
            assert(!blocks::within(p, idx, fit));
        }
    }
}

/// Arenas with the same free lists have the same free pages.
proof fn lemma_same_free(a: Arena, b: Arena)
    requires
        a.free == b.free,
    ensures
        forall|p: int| #[trigger] a.free_page(p) <==> b.free_page(p),
{
    assert forall|p: int| #[trigger] a.free_page(p) <==> b.free_page(p) by {
        if a.free_page(p) {
            let (i, o) = choose|i: int, o: int| #[trigger]
                a.free_block(i, o) && blocks::within(p, i, o);
            assert(b.free_block(i, o));
        }
        if b.free_page(p) {
            let (i, o) = choose|i: int, o: int| #[trigger]
                b.free_block(i, o) && blocks::within(p, i, o);
            assert(a.free_block(i, o));
        }
    }
}

/// Freeing a block in use makes just its pages free and drops it from the
/// blocks in use.
pub proof fn law_free(arena: Arena, idx: int, order: int)
    requires
        arena.wf(),
        arena.placed(idx, order),
        arena.releasable(idx, order),
    ensures
        ({
            let after = arena.release(idx, order);
            &&& after.wf()
            &&& forall|p: int| #[trigger]
                after.free_page(p) <==> arena.free_page(p) || blocks::within(p, idx, order)
            &&& after.nr_free() == arena.nr_free() + blocks::span(order)
            &&& after.used == arena.used.remove(idx)
            &&& after.nr_pages == arena.nr_pages
            &&& after.free.len() == arena.free.len()
        }),
{
    let mid = arena.without_used(idx);
    arena.lemma_without_used(idx);
    assert(mid.placed(idx, order));
    mid.lemma_coalesce(idx, order);
    lemma_same_free(arena, mid);
    assert forall|p: int| #[trigger] arena.release(idx, order).free_page(p) <==> arena.free_page(p)
        || blocks::within(p, idx, order) by {
        assert(mid.free_page(p) <==> arena.free_page(p));
    }
}

/// A block in use can be freed with its own order.
pub proof fn law_used_block_can_be_freed(arena: Arena, idx: int)
    requires
        arena.wf(),
        arena.used.contains_key(idx),
    ensures
        arena.placed(idx, arena.used[idx]),
        arena.releasable(idx, arena.used[idx]),
{
    arena.lemma_without_used(idx);
}

/// A block that was freed cannot be freed again, with any order.
pub proof fn law_no_double_free(arena: Arena, idx: int, order: int, again: int)
    requires
        arena.wf(),
        arena.placed(idx, order),
        arena.releasable(idx, order),
    ensures
        !arena.release(idx, order).releasable(idx, again),
{
    law_free(arena, idx, order);
}

/// A block that holds a free page cannot be freed.
pub proof fn law_no_free_of_free_memory(arena: Arena, idx: int, order: int, p: int)
    requires
        arena.wf(),
        blocks::within(p, idx, order),
        arena.free_page(p),
    ensures
        !arena.releasable(idx, order),
{
    if arena.releasable(idx, order) {
        let mid = arena.without_used(idx);
        let (i, o) = choose|i: int, o: int| #[trigger]
            arena.free_block(i, o) && blocks::within(p, i, o);
        assert(mid.free_block(i, o));
        assert(mid.block(i, o));
    }
}

/// Joining what was split gives the block back.
proof fn lemma_coalesce_split(arena: Arena, idx: int, low: int, high: int)
    requires
        arena.wf(),
        0 <= low <= high,
        arena.placed(idx, high),
        arena.clear(idx, high),
        high + 1 < arena.free.len() ==> !arena.free_block(blocks::buddy_of(idx, high), high),
    ensures
        arena.split(idx, low, high).coalesce(idx, low) == arena.with_free(idx, high),
    decreases high - low,
{
    let split = arena.split(idx, low, high);
    if low == high {
        assert(split =~= arena);
    } else {
        let upper = idx + blocks::span(low);
        let s = arena.free[low];
        let l = seq![upper] + s;
        blocks::lemma_aligned_smaller(idx, low, high);
        blocks::lemma_aligned_smaller(idx, low + 1, high);
        blocks::lemma_buddy(idx, low);
        assert(blocks::buddy_of(idx, low) == upper);
        assert(split.free[low] == l);
        assert(l[0] == upper);
        assert(split.free_block(upper, low));
        assert(!s.contains(upper)) by {
            if s.contains(upper) {
                assert(arena.free_block(upper, low));
                assert(arena.block(upper, low));
                blocks::lemma_span_multiple(low, high);
            }
        }
        assert(list::without(l, upper) =~= s) by {
            let k = l.index_of(upper);
            assert(l[k] == upper);
            if k > 0 {
                assert(l[k] == s[k - 1]);
            }
        }
        let rest = arena.split(idx, low + 1, high);
        assert(split.without_free(upper, low).free =~= rest.free);
        assert(split.without_free(upper, low) =~= rest);
        lemma_coalesce_split(arena, idx, low + 1, high);
    }
}

/// Freeing a block right after it was allocated, with the same order, brings
/// every free list back as it was.
pub proof fn law_free_undoes_alloc(arena: Arena, order: int)
    requires
        arena.wf(),
        0 <= order < arena.free.len(),
        arena.allocate(order) is Some,
    ensures
        ({
            let (after, idx) = arena.allocate(order)->0;
            &&& after.releasable(idx, order)
            &&& after.release(idx, order) == arena
        }),
{
    Arena::lemma_first_fit(arena.free, order);
    let fit = arena::first_fit(arena.free, order)->0;
    let s = arena.free[fit];
    let idx = s[0];
    assert(s.contains(idx));
    assert(arena.free_block(idx, fit));
    assert(arena.block(idx, fit));
    let popped = arena.without_free(idx, fit);
    let split = popped.split(idx, order, fit);
    let after = split.with_used(idx, order);
    arena.lemma_without_free(idx, fit);
    popped.lemma_split(idx, order, fit);
    split.lemma_with_used(idx, order);
    assert(after.without_used(idx).used =~= split.used);
    assert(after.without_used(idx) =~= split);
    blocks::lemma_buddy(idx, fit);
    lemma_coalesce_split(popped, idx, order, fit);
    assert(seq![idx] + list::without(s, idx) =~= s) by {
        let k = s.index_of(idx);
        assert(s[k] == idx);
        assert(k == 0);
    }
    assert(popped.with_free(idx, fit).free =~= arena.free);
}

/// The pages from `idx` up to `end` become free, in a consistent arena, up to
/// the first block that overlaps another; if none does, all of them do. The
/// blocks in use stay as they are.
#[verifier::spinoff_prover]
pub proof fn law_free_range(arena: Arena, idx: int, end: int)
    requires
        arena.wf(),
        0 <= idx,
        end <= arena.nr_pages,
        arena.free.len() > 0,
    ensures
        ({
            let (after, all) = arena.release_range(idx, end);
            &&& after.wf()
            &&& after.used == arena.used
            &&& after.nr_pages == arena.nr_pages
            &&& after.free.len() == arena.free.len()
            &&& all <==> unclaimed(arena, idx, end)
            &&& all ==> forall|p: int| #[trigger]
                after.free_page(p) <==> arena.free_page(p) || idx <= p < end
            &&& all && idx <= end ==> after.nr_free() == arena.nr_free() + (end - idx)
            &&& exists|stop: int| #[trigger]
                freed_up_to(arena, after, idx, stop) && unclaimed(arena, idx, stop) && (all || stop
                    < end)
        }),
    decreases
            if idx < end {
                end - idx
            } else {
                0
            },
{
    let (after, all) = arena.release_range(idx, end);
    if idx >= end {
        assert(freed_up_to(arena, after, idx, idx));
    } else {
        let order = arena.chunk(idx, end);
        arena::lemma_chunk_order(idx, end, arena.free.len() - 1);
        blocks::lemma_span(order);
        assert(arena.placed(idx, order));
        lemma_clear_pages(arena, idx, order);
        let next = idx + blocks::span(order);
        if arena.clear(idx, order) {
            let mid = arena.coalesce(idx, order);
            arena.lemma_coalesce(idx, order);
            law_free_range(mid, next, end);
            let (m_after, m_all) = mid.release_range(next, end);
            let stop = choose|stop: int| #[trigger]
                freed_up_to(mid, m_after, next, stop) && unclaimed(mid, next, stop) && (m_all
                    || stop < end);
            lemma_unclaimed_step(arena, mid, idx, next, stop);
            assert(freed_up_to(arena, after, idx, stop)) by {
                assert forall|p: int| #[trigger] after.free_page(p) <==> arena.free_page(p) || idx <= p
                    < stop by {
                    assert(after.free_page(p) <==> mid.free_page(p) || next <= p < stop);
                    assert(mid.free_page(p) <==> arena.free_page(p) || blocks::within(
                        p,
                        idx,
                        order,
                    ));
                }
            }
            if all {
                assert forall|p: int| #[trigger] after.free_page(p) <==> arena.free_page(p) || idx
                    <= p < end by {
                    assert(after.free_page(p) <==> mid.free_page(p) || next <= p < end);
                    assert(mid.free_page(p) <==> arena.free_page(p) || blocks::within(
                        p,
                        idx,
                        order,
                    ));
                }
            }
            lemma_unclaimed_step(arena, mid, idx, next, end);
        } else {
            assert(freed_up_to(arena, after, idx, idx));
            let p = choose|p: int|
                idx <= p < next && (#[trigger] arena.free_page(p) || arena.used_page(p));
            assert(idx <= p < end);
            assert(!unclaimed(arena, idx, end));
        }
    }
}

/// No page from `idx` up to `end` is free or in use.
pub open spec fn unclaimed(arena: Arena, idx: int, end: int) -> bool {
    forall|p: int|
        #![trigger arena.free_page(p)]
        #![trigger arena.used_page(p)]
        idx <= p < end ==> !arena.free_page(p) && !arena.used_page(p)
}

/// Freeing the first pages of a range that nothing claims leaves the rest as
/// it is.
proof fn lemma_unclaimed_step(before: Arena, after: Arena, idx: int, next: int, end: int)
    requires
        idx <= next <= end,
        unclaimed(before, idx, next),
        forall|p: int| #[trigger]
            after.free_page(p) <==> before.free_page(p) || idx <= p < next,
        before.used == after.used,
    ensures
        unclaimed(before, idx, end) <==> unclaimed(after, next, end),
{
    lemma_same_used(before, after);
    if unclaimed(after, next, end) {
        assert forall|p: int| idx <= p < end implies !#[trigger] before.free_page(p)
            && !before.used_page(p) by {
            assert(before.used_page(p) <==> after.used_page(p));
            if p >= next {
                assert(!after.free_page(p));
            }
        }
    }
    if unclaimed(before, idx, end) {
        assert forall|p: int| next <= p < end implies !#[trigger] after.free_page(p)
            && !after.used_page(p) by {
            assert(!before.free_page(p));
            assert(before.used_page(p) <==> after.used_page(p));
        }
    }
}

/// The free pages of `after` are those of `before` and the pages from `idx` up
/// to `stop`.
pub open spec fn freed_up_to(before: Arena, after: Arena, idx: int, stop: int) -> bool {
    &&& idx <= stop
    &&& forall|p: int| #[trigger] after.free_page(p) <==> before.free_page(p) || idx <= p < stop
}

/// A block overlaps another if and only if one of its pages is free or in use.
#[verifier::spinoff_prover]
pub proof fn lemma_clear_pages(arena: Arena, idx: int, order: int)
    requires
        arena.wf(),
        arena.placed(idx, order),
    ensures
        arena.clear(idx, order) <==> unclaimed(arena, idx, idx + blocks::span(order)),
{
    if arena.clear(idx, order) {
        assert forall|p: int| idx <= p < idx + blocks::span(order) implies !#[trigger] arena.free_page(p)
            && !arena.used_page(p) by {
            if arena.free_page(p) {
                let (i, o) = choose|i: int, o: int| #[trigger]
                    arena.free_block(i, o) && blocks::within(p, i, o);
                assert(arena.block(i, o));
            }
            if arena.used_page(p) {
                let (i, o) = choose|i: int, o: int| #[trigger]
                    arena.used_block(i, o) && blocks::within(p, i, o);
                assert(arena.block(i, o));
            }
        }
        assert(unclaimed(arena, idx, idx + blocks::span(order)));
    } else {
        let (j, b) = choose|j: int, b: int| #[trigger]
            arena.block(j, b) && !blocks::disjoint(idx, order, j, b);
        assert(arena.placed(j, b));
        blocks::lemma_span(b);
        blocks::lemma_span(order);
        let p = if idx < j {
            j
        } else {
            idx
        };
        assert(blocks::within(p, idx, order) && blocks::within(p, j, b));
        assert(arena.free_page(p) || arena.used_page(p)) by {
            if arena.free_block(j, b) {
                assert(arena.free_page(p));
            } else {
                assert(arena.used_block(j, b));
                assert(arena.used_page(p));
            }
        }
        assert(idx <= p < idx + blocks::span(order));
        assert(!unclaimed(arena, idx, idx + blocks::span(order)));
    }
}

/// Arenas with the same blocks in use have the same pages in use.
pub proof fn lemma_same_used(a: Arena, b: Arena)
    requires
        a.used == b.used,
    ensures
        forall|p: int| #[trigger] a.used_page(p) <==> b.used_page(p),
{
    assert forall|p: int| #[trigger] a.used_page(p) <==> b.used_page(p) by {
        if a.used_page(p) {
            let (i, o) = choose|i: int, o: int| #[trigger]
                a.used_block(i, o) && blocks::within(p, i, o);
            assert(b.used_block(i, o));
        }
        if b.used_page(p) {
            let (i, o) = choose|i: int, o: int| #[trigger]
                b.used_block(i, o) && blocks::within(p, i, o);
            assert(a.used_block(i, o));
        }
    }
}

/// Page `p` lies in the `j`-th of the ranges.
pub open spec fn in_range(ranges: Seq<(int, int)>, j: int, p: int) -> bool {
    ranges[j].0 <= p < ranges[j].1
}

/// Page `p` lies in one of the ranges from the `k`-th on.
pub open spec fn in_ranges(ranges: Seq<(int, int)>, k: int, p: int) -> bool {
    exists|j: int| k <= j < ranges.len() && #[trigger] in_range(ranges, j, p)
}

/// No page of the ranges from the `k`-th on is free or in use.
pub open spec fn all_unclaimed(arena: Arena, ranges: Seq<(int, int)>, k: int) -> bool {
    forall|j: int|
        k <= j < ranges.len() ==> unclaimed(arena, (#[trigger] ranges[j]).0, ranges[j].1)
}

/// No page lies in two of the ranges from the `k`-th on.
pub open spec fn apart(ranges: Seq<(int, int)>, k: int) -> bool {
    forall|i: int, j: int, p: int|
        k <= i < j < ranges.len() && #[trigger] in_range(ranges, i, p) ==> !#[trigger] in_range(
            ranges,
            j,
            p,
        )
}

/// The summed lengths of the ranges from the `k`-th on that are not empty.
pub open spec fn pages_in_ranges(ranges: Seq<(int, int)>, k: int) -> int
    decreases ranges.len() - k,
{
    if k >= ranges.len() {
        0
    } else {
        pages_in_ranges(ranges, k + 1) + if ranges[k].0 < ranges[k].1 {
            ranges[k].1 - ranges[k].0
        } else {
            0
        }
    }
}

/// What nothing claims holds no free page and none in use.
pub proof fn lemma_unclaimed_page(arena: Arena, idx: int, end: int, p: int)
    requires
        unclaimed(arena, idx, end),
        idx <= p < end,
    ensures
        !arena.free_page(p),
        !arena.used_page(p),
{
}

/// Once the `k`-th range was freed, nothing claims the ranges after it if and
/// only if nothing did before and they have no page in common with it.
#[verifier::spinoff_prover]
proof fn lemma_ranges_step(before: Arena, after: Arena, ranges: Seq<(int, int)>, k: int)
    requires
        0 <= k < ranges.len(),
        before.used == after.used,
        forall|p: int| #[trigger]
            after.free_page(p) <==> before.free_page(p) || in_range(ranges, k, p),
    ensures
        all_unclaimed(after, ranges, k + 1) && apart(ranges, k + 1) <==> all_unclaimed(
            before,
            ranges,
            k + 1,
        ) && apart(ranges, k),
{
    lemma_same_used(before, after);
    if all_unclaimed(after, ranges, k + 1) && apart(ranges, k + 1) {
        assert forall|j: int| k + 1 <= j < ranges.len() implies unclaimed(
            before,
            (#[trigger] ranges[j]).0,
            ranges[j].1,
        ) by {
            assert forall|p: int|
                #![trigger before.free_page(p)]
                #![trigger before.used_page(p)]
                ranges[j].0 <= p < ranges[j].1 implies !before.free_page(p) && !before.used_page(
                p,
            ) by {
                lemma_unclaimed_page(after, ranges[j].0, ranges[j].1, p);
                assert(before.used_page(p) <==> after.used_page(p));
                assert(after.free_page(p) <==> before.free_page(p) || in_range(ranges, k, p));
            }
            assert(unclaimed(before, ranges[j].0, ranges[j].1));
        }
        assert forall|i: int, j: int, p: int|
            k <= i < j < ranges.len() && #[trigger] in_range(
                ranges,
                i,
                p,
            ) implies !#[trigger] in_range(ranges, j, p) by {
            if i == k && in_range(ranges, j, p) {
                lemma_unclaimed_page(after, ranges[j].0, ranges[j].1, p);
                assert(after.free_page(p));
            }
        }
    }
    if all_unclaimed(before, ranges, k + 1) && apart(ranges, k) {
        assert forall|j: int| k + 1 <= j < ranges.len() implies unclaimed(
            after,
            (#[trigger] ranges[j]).0,
            ranges[j].1,
        ) by {
            assert(unclaimed(before, ranges[j].0, ranges[j].1));
            assert forall|p: int|
                #![trigger after.free_page(p)]
                #![trigger after.used_page(p)]
                ranges[j].0 <= p < ranges[j].1 implies !after.free_page(p) && !after.used_page(
                p,
            ) by {
                lemma_unclaimed_page(before, ranges[j].0, ranges[j].1, p);
                assert(before.used_page(p) <==> after.used_page(p));
                assert(in_range(ranges, j, p));
                assert(!in_range(ranges, k, p));
                assert(after.free_page(p) <==> before.free_page(p) || in_range(ranges, k, p));
            }
            assert(unclaimed(after, ranges[j].0, ranges[j].1));
        }
    }
}

/// Freeing ranges of pages in turn keeps the arena consistent and the blocks
/// in use as they are. All of them are freed if and only if none of their
/// pages is free or in use and no page lies in two of them; just their pages
/// then become free, and the count grows by their number.
#[verifier::spinoff_prover]
pub proof fn law_free_ranges(arena: Arena, ranges: Seq<(int, int)>, k: int)
    requires
        arena.wf(),
        arena.free.len() > 0,
        0 <= k,
        forall|j: int|
            k <= j < ranges.len() ==> 0 <= (#[trigger] ranges[j]).0 && ranges[j].1
                <= arena.nr_pages,
    ensures
        ({
            let (after, all) = arena.release_ranges(ranges, k);
            &&& after.wf()
            &&& after.used == arena.used
            &&& after.nr_pages == arena.nr_pages
            &&& after.free.len() == arena.free.len()
            &&& all <==> all_unclaimed(arena, ranges, k) && apart(ranges, k)
            &&& all ==> forall|p: int| #[trigger]
                after.free_page(p) <==> arena.free_page(p) || in_ranges(ranges, k, p)
            &&& all ==> after.nr_free() == arena.nr_free() + pages_in_ranges(ranges, k)
        }),
    decreases ranges.len() - k,
{
    if k < ranges.len() {
        let (mid, first) = arena.release_range(ranges[k].0, ranges[k].1);
        law_free_range(arena, ranges[k].0, ranges[k].1);
        if first {
            law_free_ranges(mid, ranges, k + 1);
            assert forall|p: int| #[trigger]
                mid.free_page(p) <==> arena.free_page(p) || in_range(ranges, k, p) by {}
            lemma_ranges_step(arena, mid, ranges, k);
            assert(all_unclaimed(arena, ranges, k) <==> all_unclaimed(arena, ranges, k + 1)) by {
                if all_unclaimed(arena, ranges, k + 1) {
                    assert forall|j: int| k <= j < ranges.len() implies unclaimed(
                        arena,
                        (#[trigger] ranges[j]).0,
                        ranges[j].1,
                    ) by {
                        assert(j == k || k + 1 <= j);
                    }
                }
            }
            let (after, rest) = mid.release_ranges(ranges, k + 1);
            if rest {
                assert forall|p: int| #[trigger]
                    after.free_page(p) <==> arena.free_page(p) || in_ranges(ranges, k, p) by {
                    assert(after.free_page(p) <==> mid.free_page(p) || in_ranges(
                        ranges,
                        k + 1,
                        p,
                    ));
                    assert(mid.free_page(p) <==> arena.free_page(p) || in_range(ranges, k, p));
                    lemma_in_ranges(ranges, k, p);
                }
            }
        } else {
            assert(!unclaimed(arena, ranges[k].0, ranges[k].1));
            assert(!all_unclaimed(arena, ranges, k));
        }
    } else {
        assert forall|p: int| !in_ranges(ranges, k, p) by {}
    }
}

/// A page lies in one of the ranges if it lies in the first or in one of the
/// others.
proof fn lemma_in_ranges(ranges: Seq<(int, int)>, k: int, p: int)
    requires
        0 <= k < ranges.len(),
    ensures
        in_ranges(ranges, k, p) <==> in_range(ranges, k, p) || in_ranges(ranges, k + 1, p),
{
    if in_ranges(ranges, k, p) {
        let j = choose|j: int| k <= j < ranges.len() && #[trigger] in_range(ranges, j, p);
        assert(j == k || k + 1 <= j);
    }
}

/// A range whose pages were freed cannot be freed again.
pub proof fn law_no_double_range(arena: Arena, idx: int, end: int)
    requires
        arena.wf(),
        0 <= idx < end <= arena.nr_pages,
        arena.free.len() > 0,
        arena.release_range(idx, end).1,
    ensures
        !arena.release_range(idx, end).0.release_range(idx, end).1,
{
    let after = arena.release_range(idx, end).0;
    law_free_range(arena, idx, end);
    law_free_range(after, idx, end);
    assert(after.free_page(idx));
}

/// A fresh arena has no free page, and once all its pages were freed all of
/// them are free.
pub proof fn law_fresh_arena(nr_pages: int, max_order: int)
    requires
        0 <= nr_pages,
        0 < max_order,
    ensures
        ({
            let fresh = buddy::blank(nr_pages, max_order);
            let (full, all) = fresh.release_range(0, nr_pages);
            &&& fresh.wf()
            &&& fresh.nr_free() == 0
            &&& all
            &&& full.wf()
            &&& full.nr_free() == nr_pages
        }),
{
    let fresh = buddy::blank(nr_pages, max_order);
    assert forall|i: int, o: int| !#[trigger] fresh.free_block(i, o) by {}
    assert forall|i: int, o: int| !#[trigger] fresh.block(i, o) by {
        assert(!fresh.free_block(i, o));
    }
    assert(fresh.wf());
    arena::lemma_pages_listed(fresh.free, fresh.free.len() as int);
    assert forall|p: int| 0 <= p < nr_pages implies !#[trigger] fresh.free_page(p)
        && !fresh.used_page(p) by {}
    law_free_range(fresh, 0, nr_pages);
}

/// Quotients and multiples: `n` is at least `a / m` rounded up if and only if
/// `n * m` is at least `a`, and less than `a / m` rounded down if and only if
/// `(n + 1) * m` is at most `a`.
proof fn lemma_quotient_bounds(a: int, m: int, n: int)
    requires
        0 <= a,
        0 < m,
        0 <= n,
    ensures
        crate::addr::ceil_div(a, m) <= n <==> a <= n * m,
        n < a / m <==> (n + 1) * m <= a,
{
    vstd::arithmetic::div_mod::lemma_fundamental_div_mod(a, m);
    vstd::arithmetic::div_mod::lemma_fundamental_div_mod(a + m - 1, m);
    let q = a / m;
    let c = (a + m - 1) / m;
    let r = a % m;
    let t = (a + m - 1) % m;
    assert(c <= n <==> a <= n * m) by (nonlinear_arith)
        requires
            a + m - 1 == m * c + t,
            0 <= t < m,
            0 < m,
    ;
    assert(n < q <==> (n + 1) * m <= a) by (nonlinear_arith)
        requires
            a == m * q + r,
            0 <= r < m,
            0 < m,
    ;
}

/// The pages that freeing a range of addresses frees are those that lie wholly
/// in the range.
pub proof fn law_range_pages<'a, A: PageFrame, const MAX_ORDER: usize>(
    buddy: Buddy<'a, A, MAX_ORDER>,
    start: A,
    end: A,
    p: int,
)
    requires
        buddy.wf(),
        buddy.pages is Some,
        0 <= p < buddy.descriptors().len(),
        0 <= start.value() <= A::limit(),
        0 <= end.value() <= A::limit(),
    ensures
        buddy.first_page(start.value()) <= p < buddy.end_page(end.value()) <==> start.value()
            <= buddy.address(p) && buddy.address(p) + buddy.page_size.value() <= end.value(),
        0 <= buddy.first_page(start.value()),
        buddy.end_page(end.value()) <= buddy.descriptors().len(),
{
    let size = buddy.page_size.value();
    let n = buddy.base_pfn.value() + p;
    crate::addr::lemma_pow2_positive(size);
    lemma_quotient_bounds(start.value(), size, n);
    lemma_quotient_bounds(end.value(), size, n);
    assert((n + 1) * size == n * size + size) by (nonlinear_arith);
}

/// What the descriptors hold: that of a free block's first page is marked free
/// with the block's order, that of the first page of a block in use has a
/// reference count of one and no mark or links, and every other one is
/// pristine.
pub proof fn law_descriptors<'a, A: PageFrame, const MAX_ORDER: usize>(
    buddy: Buddy<'a, A, MAX_ORDER>,
    p: int,
)
    requires
        buddy.wf(),
        buddy.pages is Some,
        0 <= p < buddy.descriptors().len(),
    ensures
        ({
            let page = buddy.descriptors()[p];
            let arena = buddy.arena();
            if arena.used.contains_key(p) {
                &&& page.refcount == 1
                &&& page.held_order == arena.used[p]
                &&& page.flags.bits == 0
                &&& page.order == 0
                &&& page.next@ is None
                &&& page.prev@ is None
            } else if page.listed() {
                &&& page.refcount == 0
                &&& page.held_order == 0
                &&& page.flags.bits == 1
                &&& arena.free_block(p, page.order as int)
            } else {
                page.pristine() && forall|o: int| !#[trigger] arena.free_block(p, o)
            }
        }),
{
    let page = buddy.descriptors()[p];
    let arena = buddy.arena();
    assert(repr::tidy(page));
    if page.listed() {
        assert(arena.free_block(p, page.order as int));
        assert(!arena.used.contains_key(p));
    }
}

/// Every page has an address of its own, which leads back to the page.
pub proof fn law_page_address<'a, A: PageFrame, const MAX_ORDER: usize>(
    buddy: Buddy<'a, A, MAX_ORDER>,
    idx: int,
)
    requires
        buddy.wf(),
        buddy.pages is Some,
        0 <= idx < buddy.descriptors().len(),
    ensures
        0 <= buddy.address(idx) <= A::limit(),
        buddy.page_at(buddy.address(idx)) == Some(idx),
{
    let size = buddy.page_size.value();
    let n = buddy.base_pfn.value() + idx;
    crate::addr::lemma_pow2_positive(size);
    buddy::lemma_address_fits(n, size, A::limit());
    vstd::arithmetic::div_mod::lemma_mod_multiples_basic(n, size);
    vstd::arithmetic::div_mod::lemma_div_by_multiple(n, size);
}

/// The address of a block is a multiple of the block's size in bytes.
pub proof fn law_block_address<'a, A: PageFrame, const MAX_ORDER: usize>(
    buddy: Buddy<'a, A, MAX_ORDER>,
    idx: int,
    order: int,
)
    requires
        buddy.wf(),
        buddy.pages is Some,
        buddy.arena().placed(idx, order),
    ensures
        buddy.address(idx) % (blocks::span(order) * buddy.page_size.value()) == 0,
{
    let size = buddy.page_size.value();
    let base = buddy.base_pfn.value();
    let m = blocks::span(order);
    let n = base + idx;
    crate::addr::lemma_pow2_positive(size);
    blocks::lemma_span(order);
    blocks::lemma_aligned_smaller(base, order, MAX_ORDER - 1);
    blocks::lemma_multiple_sum(base, idx, m);
    vstd::arithmetic::div_mod::lemma_fundamental_div_mod(n, m);
    let k = n / m;
    assert(n * size == k * (m * size)) by (nonlinear_arith)
        requires
            n == m * k,
    ;
    assert(m * size > 0) by (nonlinear_arith)
        requires
            m >= 1,
            size > 0,
    ;
    vstd::arithmetic::div_mod::lemma_mod_multiples_basic(k, m * size);
}

/// After a block was allocated, freeing its address with the same order is
/// accepted and brings the arena back as it was.
pub proof fn law_free_pages_undoes_alloc_pages<'a, A: PageFrame, const MAX_ORDER: usize>(
    before: Buddy<'a, A, MAX_ORDER>,
    after: Buddy<'a, A, MAX_ORDER>,
    addr: A,
    order: u8,
)
    requires
        before.wf(),
        before.pages is Some,
        after.same_place(before),
        order < MAX_ORDER,
        before.arena().allocate(order as int) is Some,
        after.arena() == (before.arena().allocate(order as int)->0).0,
        addr.value() == before.address((before.arena().allocate(order as int)->0).1),
    ensures
        ({
            let idx = (before.arena().allocate(order as int)->0).1;
            &&& after.page_at(addr.value()) == Some(idx)
            &&& after.arena().placed(idx, order as int)
            &&& after.arena().releasable(idx, order as int)
            &&& after.arena().release(idx, order as int) == before.arena()
        }),
{
    let idx = (before.arena().allocate(order as int)->0).1;
    law_alloc(before.arena(), order as int);
    law_free_undoes_alloc(before.arena(), order as int);
    blocks::lemma_span(order as int);
    law_page_address(before, idx);
}

/// A page index survives the way into the address type and back if and only
/// if the address type can hold it.
pub proof fn law_index_round_trip<A: PageFrame>(index: usize, addr: A)
    requires
        addr.value() == crate::addr::saturated(index as int, A::limit()),
    ensures
        addr.value() <= usize::MAX,
        addr.value() == index <==> index <= A::limit(),
{
}

/// What was pushed at the front of a list is the first to be popped, and the
/// rest stays as it was.
pub proof fn law_push_front_pops_first(nodes: Seq<int>, idx: int)
    ensures
        (seq![idx] + nodes)[0] == idx,
        (seq![idx] + nodes).skip(1) == nodes,
{
    assert((seq![idx] + nodes).skip(1) =~= nodes);
}

/// What was pushed at the back of a list is popped after all that was there.
pub proof fn law_push_back_pops_last(nodes: Seq<int>, idx: int)
    ensures
        nodes.len() == 0 ==> nodes.push(idx)[0] == idx,
        nodes.len() > 0 ==> nodes.push(idx)[0] == nodes[0] && nodes.push(idx).skip(1)
            == nodes.skip(1).push(idx),
{
    if nodes.len() > 0 {
        assert(nodes.push(idx).skip(1) =~= nodes.skip(1).push(idx));
    }
}

/// Removing a node undoes its insertion, at either end.
pub proof fn law_remove_undoes_push(nodes: Seq<int>, idx: int)
    requires
        !nodes.contains(idx),
    ensures
        list::without(seq![idx] + nodes, idx) == nodes,
        list::without(nodes.push(idx), idx) == nodes,
{
    let front = seq![idx] + nodes;
    let back = nodes.push(idx);
    assert(front[0] == idx);
    let k = front.index_of(idx);
    assert(front[k] == idx);
    if k > 0 {
        assert(nodes[k - 1] == idx);
    }
    assert(list::without(front, idx) =~= nodes);
    assert(back[nodes.len() as int] == idx);
    let j = back.index_of(idx);
    assert(back[j] == idx);
    if j < nodes.len() {
        assert(nodes[j] == idx);
    }
    assert(list::without(back, idx) =~= nodes);
}

} // verus!
