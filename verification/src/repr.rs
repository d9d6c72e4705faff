//! How page descriptors and free areas represent an arena.

use crate::arena;
use crate::arena::Arena;
use crate::blocks;
use crate::free_area;
use crate::free_area::FreeArea;
use crate::list;
use crate::page::Page;
use vstd::prelude::*;

verus! {

/// The blocks in use, by the reference counts: first page to order.
pub open spec fn used_blocks(pages: Seq<Page>) -> Map<int, int> {
    Map::new(
        |i: int| 0 <= i < pages.len() && pages[i].refcount != 0,
        |i: int| pages[i].held_order as int,
    )
}

/// The free blocks of each order, by the free lists.
pub open spec fn free_lists(pages: Seq<Page>, areas: Seq<FreeArea>) -> Seq<Seq<int>> {
    Seq::new(areas.len(), |o: int| areas[o].nodes(pages))
}

/// The arena that the descriptors and the areas represent.
pub open spec fn arena_of(pages: Seq<Page>, areas: Seq<FreeArea>) -> Arena {
    Arena {
        nr_pages: pages.len() as int,
        free: free_lists(pages, areas),
        used: used_blocks(pages),
    }
}

/// The descriptor holds nothing but what it is for: an order, links and a
/// mark only on the head of a free block, a reference count of one and a held
/// order only on the head of a block in use.
pub open spec fn tidy(page: Page) -> bool {
    &&& page.refcount <= 1
    &&& page.refcount == 0 ==> page.held_order == 0
    &&& if page.listed() {
        page.flags.bits == 1
    } else {
        &&& page.flags.bits == 0
        &&& page.order == 0
        &&& page.next@ is None
        &&& page.prev@ is None
    }
}

/// The descriptors, the areas and the count represent a consistent arena:
/// every list is well formed, exactly the listed heads are marked free with
/// the order they are listed under, `nr_free` counts the free pages, and every
/// descriptor is tidy.
pub open spec fn consistent(pages: Seq<Page>, areas: Seq<FreeArea>, nr_free: int) -> bool {
    let arena = arena_of(pages, areas);
    &&& arena.wf()
    &&& nr_free == arena.nr_free()
    &&& forall|o: int| 0 <= o < areas.len() ==> (#[trigger] areas[o]).wf(pages)
    &&& forall|p: int|
        0 <= p < pages.len() && (#[trigger] pages[p]).listed() ==> arena.free_block(
            p,
            pages[p].order as int,
        )
    &&& forall|i: int, o: int| #[trigger]
        arena.free_block(i, o) ==> pages[i].listed() && pages[i].order == o
    &&& forall|p: int| 0 <= p < pages.len() ==> tidy(#[trigger] pages[p])
}

/// Changing the list of one order, and descriptors that no other list holds,
/// leaves the other lists as they are.
pub proof fn lemma_other_lists(
    before: Seq<Page>,
    after: Seq<Page>,
    areas: Seq<FreeArea>,
    area: FreeArea,
    order: int,
)
    requires
        0 <= order < areas.len(),
        before.len() == after.len(),
        forall|o: int| 0 <= o < areas.len() ==> (#[trigger] areas[o]).wf(before),
        forall|o: int, k: int|
            0 <= o < areas.len() && o != order && 0 <= k < areas[o].nodes(before).len() ==> {
                let p = #[trigger] areas[o].nodes(before)[k];
                after[p].next == before[p].next && after[p].prev == before[p].prev
            },
        area.wf(after),
    ensures
        free_lists(after, areas.update(order, area)) == free_lists(before, areas).update(
            order,
            area.nodes(after),
        ),
        forall|o: int|
            0 <= o < areas.len() ==> (#[trigger] areas.update(order, area)[o]).wf(after),
{
    let changed = areas.update(order, area);
    assert forall|o: int| 0 <= o < areas.len() && o != order implies {
        &&& (#[trigger] changed[o]).wf(after)
        &&& changed[o].nodes(after) == areas[o].nodes(before)
    } by {
        let s = areas[o].nodes(before);
        assert(areas[o].wf(before));
        list::lemma_ring_frame(before, after, areas[o].free_list.head@, s);
        areas[o].free_list.lemma_nodes(after, s);
    }
    assert(free_lists(after, changed) =~= free_lists(before, areas).update(
        order,
        area.nodes(after),
    ));
}

/// A page that is listed under one order is not listed under another.
pub proof fn lemma_listed_once(arena: Arena, i: int, a: int, b: int)
    requires
        arena.wf(),
        arena.free_block(i, a),
        arena.free_block(i, b),
    ensures
        a == b,
{
    assert(arena.block(i, a) && arena.block(i, b));
    assert(arena.placed(i, a) && arena.placed(i, b));
    blocks::lemma_span(a);
    blocks::lemma_span(b);
}

/// Unlinking a listed head and clearing its mark takes the block off the
/// arena's free list.
pub proof fn lemma_unlisted(
    before: Seq<Page>,
    after: Seq<Page>,
    areas: Seq<FreeArea>,
    area: FreeArea,
    nr_free: int,
    idx: int,
    order: int,
)
    requires
        consistent(before, areas, nr_free),
        arena_of(before, areas).free_block(idx, order),
        area.wf(after),
        area.nodes(after) == list::without(areas[order].nodes(before), idx),
        free_area::unmarked(before, after, areas[order].nodes(before), idx),
    ensures
        arena_of(after, areas.update(order, area)) == arena_of(before, areas).without_free(
            idx,
            order,
        ),
        consistent(after, areas.update(order, area), nr_free - blocks::span(order)),
{
    let old_arena = arena_of(before, areas);
    let changed = areas.update(order, area);
    let arena = arena_of(after, changed);
    let s = areas[order].nodes(before);
    assert(old_arena.free[order] == s);
    assert forall|o: int, k: int|
        0 <= o < areas.len() && o != order && 0 <= k < areas[o].nodes(before).len() implies {
        let p = #[trigger] areas[o].nodes(before)[k];
        after[p].next == before[p].next && after[p].prev == before[p].prev
    } by {
        let p = areas[o].nodes(before)[k];
        assert(old_arena.free[o].contains(p));
        assert(old_arena.free_block(p, o));
        assert(areas[o].wf(before));
        if p == idx {
            lemma_listed_once(old_arena, p, o, order);
        }
        if s.contains(p) {
            assert(old_arena.free_block(p, order));
            lemma_listed_once(old_arena, p, o, order);
        }
        assert(after[p] == before[p]);
    }
    lemma_other_lists(before, after, areas, area, order);
    assert(used_blocks(after) =~= used_blocks(before));
    assert(arena == old_arena.without_free(idx, order));
    old_arena.lemma_without_free(idx, order);
    assert forall|p: int| 0 <= p < after.len() && (#[trigger] after[p]).listed() implies arena.free_block(
        p,
        after[p].order as int,
    ) by {
        assert(p != idx);
        assert(before[p].listed());
        assert(old_arena.free_block(p, before[p].order as int));
    }
    assert forall|i: int, o: int| #[trigger] arena.free_block(i, o) implies after[i].listed()
        && after[i].order == o by {
        assert(old_arena.free_block(i, o));
        assert(old_arena.block(i, o));
        assert(old_arena.placed(i, o));
        blocks::lemma_span(o);
        if i == idx {
            lemma_listed_once(old_arena, i, o, order);
        }
    }
    assert forall|p: int| 0 <= p < after.len() implies tidy(#[trigger] after[p]) by {
        assert(tidy(before[p]));
        lemma_mark_bit(before[p].flags.bits);
        if p != idx && s.contains(p) {
            assert(old_arena.free_block(p, order));
        }
    }
}

/// Setting and clearing the mark when no other flag is set.
pub proof fn lemma_mark_bit(bits: u8)
    ensures
        bits <= 1 ==> bits | 1 == 1 && bits & !1u8 == 0,
{
    assert(bits <= 1 ==> bits | 1 == 1 && bits & !1u8 == 0) by (bit_vector);
}

/// `after` differs from `before` in that page `idx` is marked as the head of
/// a free block of `order`.
pub open spec fn marked(before: Seq<Page>, after: Seq<Page>, idx: int, order: int) -> bool {
    &&& before.len() == after.len()
    &&& forall|p: int|
        #![trigger after[p]]
        0 <= p < after.len() ==> {
            &&& after[p].held_order == before[p].held_order
            &&& after[p].refcount == before[p].refcount
            &&& after[p].next == before[p].next
            &&& after[p].prev == before[p].prev
            &&& p != idx ==> after[p] == before[p]
        }
    &&& after[idx].listed()
    &&& after[idx].flags.bits == before[idx].flags.bits | 1u8
    &&& after[idx].order == order
}

/// Marking a head changes no list.
pub proof fn lemma_marked_lists(
    before: Seq<Page>,
    after: Seq<Page>,
    areas: Seq<FreeArea>,
    idx: int,
    order: int,
)
    requires
        forall|o: int| 0 <= o < areas.len() ==> (#[trigger] areas[o]).wf(before),
        marked(before, after, idx, order),
    ensures
        forall|o: int|
            0 <= o < areas.len() ==> (#[trigger] areas[o]).wf(after) && areas[o].nodes(after)
                == areas[o].nodes(before),
{
    assert forall|o: int| 0 <= o < areas.len() implies (#[trigger] areas[o]).wf(after)
        && areas[o].nodes(after) == areas[o].nodes(before) by {
        let s = areas[o].nodes(before);
        assert(areas[o].wf(before));
        list::lemma_ring_frame(before, after, areas[o].free_list.head@, s);
        areas[o].free_list.lemma_nodes(after, s);
    }
}

/// A block that overlaps no other has no listed or used head at its start.
pub proof fn lemma_clear_head(arena: Arena, idx: int, order: int)
    requires
        arena.wf(),
        arena.placed(idx, order),
        arena.clear(idx, order),
    ensures
        forall|o: int| !#[trigger] arena.block(idx, o),
        !arena.used.contains_key(idx),
        forall|o: int| 0 <= o < arena.free.len() ==> !(#[trigger] arena.free[o]).contains(idx),
{
    blocks::lemma_span(order);
    assert forall|o: int| !#[trigger] arena.block(idx, o) by {
        if arena.block(idx, o) {
            assert(arena.placed(idx, o));
            blocks::lemma_span(o);
        }
    }
    if arena.used.contains_key(idx) {
        assert(arena.block(idx, arena.used[idx]));
    }
    assert forall|o: int| 0 <= o < arena.free.len() implies !(#[trigger] arena.free[o]).contains(
        idx,
    ) by {
        assert(!arena.block(idx, o));
    }
}

/// Marking and linking a head that overlaps no other block, and whose buddy
/// is not free, puts the block on the arena's free list.
pub proof fn lemma_listed(
    before: Seq<Page>,
    mid: Seq<Page>,
    after: Seq<Page>,
    areas: Seq<FreeArea>,
    area: FreeArea,
    nr_free: int,
    idx: int,
    order: int,
)
    requires
        consistent(before, areas, nr_free),
        arena_of(before, areas).placed(idx, order),
        arena_of(before, areas).clear(idx, order),
        order + 1 < areas.len() ==> !arena_of(before, areas).free_block(
            blocks::buddy_of(idx, order),
            order,
        ),
        marked(before, mid, idx, order),
        area.wf(after),
        area.nodes(after) == seq![idx] + areas[order].nodes(before),
        list::relinked(mid, after, areas[order].nodes(before).push(idx)),
    ensures
        arena_of(after, areas.update(order, area)) == arena_of(before, areas).with_free(idx, order),
        consistent(after, areas.update(order, area), nr_free + blocks::span(order)),
{
    let old_arena = arena_of(before, areas);
    let changed = areas.update(order, area);
    let arena = arena_of(after, changed);
    let s = areas[order].nodes(before);
    assert(old_arena.free[order] == s);
    lemma_clear_head(old_arena, idx, order);
    assert forall|o: int, k: int|
        0 <= o < areas.len() && o != order && 0 <= k < areas[o].nodes(before).len() implies {
        let p = #[trigger] areas[o].nodes(before)[k];
        after[p].next == before[p].next && after[p].prev == before[p].prev
    } by {
        let p = areas[o].nodes(before)[k];
        assert(old_arena.free[o].contains(p));
        assert(old_arena.free_block(p, o));
        assert(areas[o].wf(before));
        if s.push(idx).contains(p) {
            if p != idx {
                let j = choose|j: int| 0 <= j < s.push(idx).len() && s.push(idx)[j] == p;
                assert(s[j] == p);
                assert(old_arena.free_block(p, order));
                lemma_listed_once(old_arena, p, o, order);
            }
        }
        assert(after[p] == mid[p]);
    }
    lemma_other_lists(before, after, areas, area, order);
    assert(used_blocks(after) =~= used_blocks(before)) by {
        assert forall|p: int| 0 <= p < after.len() implies (#[trigger] after[p]).refcount
            == before[p].refcount && after[p].held_order == before[p].held_order by {
            assert(mid[p].refcount == before[p].refcount);
        }
    }
    assert(arena == old_arena.with_free(idx, order));
    old_arena.lemma_with_free(idx, order);
    blocks::lemma_span(order);
    assert forall|p: int| 0 <= p < after.len() && (#[trigger] after[p]).listed() implies arena.free_block(
        p,
        after[p].order as int,
    ) by {
        assert(after[p].order == mid[p].order);
        if p != idx {
            assert(before[p].listed());
            assert(old_arena.free_block(p, before[p].order as int));
        }
    }
    assert forall|i: int, o: int| #[trigger] arena.free_block(i, o) implies after[i].listed()
        && after[i].order == o by {
        if !(i == idx && o == order) {
            assert(old_arena.free_block(i, o));
            assert(old_arena.block(i, o));
            assert(old_arena.placed(i, o));
            blocks::lemma_span(o);
        }
        assert(after[i].order == mid[i].order);
    }
    assert forall|p: int| 0 <= p < after.len() implies tidy(#[trigger] after[p]) by {
        assert(tidy(before[p]));
        assert(mid[p].refcount == before[p].refcount);
        lemma_mark_bit(before[p].flags.bits);
        if p != idx && s.push(idx).contains(p) {
            let j = choose|j: int| 0 <= j < s.push(idx).len() && s.push(idx)[j] == p;
            assert(s[j] == p);
            assert(old_arena.free_block(p, order));
        }
    }
}

/// `after` differs from `before` in the reference count, the held order and
/// the free-head state of page `idx`, which is no free head.
pub open spec fn recounted(before: Seq<Page>, after: Seq<Page>, idx: int) -> bool {
    &&& before.len() == after.len()
    &&& forall|p: int|
        #![trigger after[p]]
        0 <= p < after.len() ==> {
            &&& after[p].next == before[p].next
            &&& after[p].prev == before[p].prev
            &&& p != idx ==> after[p] == before[p]
        }
    &&& !after[idx].listed()
}

/// Changing only the reference count of a page that is no free head changes
/// only the blocks in use.
pub proof fn lemma_recounted(
    before: Seq<Page>,
    after: Seq<Page>,
    areas: Seq<FreeArea>,
    nr_free: int,
    idx: int,
)
    requires
        consistent(before, areas, nr_free),
        0 <= idx < before.len(),
        !before[idx].listed(),
        recounted(before, after, idx),
        tidy(after[idx]),
        ({
            let used = if after[idx].refcount == 0 {
                used_blocks(before).remove(idx)
            } else {
                used_blocks(before).insert(idx, after[idx].held_order as int)
            };
            (Arena { used, ..arena_of(before, areas) }).wf()
        }),
    ensures
        arena_of(after, areas) == (if after[idx].refcount == 0 {
            arena_of(before, areas).without_used(idx)
        } else {
            arena_of(before, areas).with_used(idx, after[idx].held_order as int)
        }),
        consistent(after, areas, nr_free),
{
    let old_arena = arena_of(before, areas);
    let arena = arena_of(after, areas);
    assert forall|o: int| 0 <= o < areas.len() implies (#[trigger] areas[o]).wf(after)
        && areas[o].nodes(after) == areas[o].nodes(before) by {
        let s = areas[o].nodes(before);
        assert(areas[o].wf(before));
        list::lemma_ring_frame(before, after, areas[o].free_list.head@, s);
        areas[o].free_list.lemma_nodes(after, s);
    }
    assert(arena.free =~= old_arena.free);
    if after[idx].refcount == 0 {
        assert(arena.used =~= old_arena.used.remove(idx));
    } else {
        assert(arena.used =~= old_arena.used.insert(idx, after[idx].held_order as int));
    }
    assert forall|p: int| 0 <= p < after.len() && (#[trigger] after[p]).listed() implies arena.free_block(
        p,
        after[p].order as int,
    ) by {
        assert(before[p].listed());
        assert(old_arena.free_block(p, before[p].order as int));
    }
    assert forall|i: int, o: int| #[trigger] arena.free_block(i, o) implies after[i].listed()
        && after[i].order == o by {
        assert(old_arena.free_block(i, o));
        assert(old_arena.block(i, o));
        assert(old_arena.placed(i, o));
        blocks::lemma_span(o);
    }
    assert forall|p: int| 0 <= p < after.len() implies tidy(#[trigger] after[p]) by {
        if p != idx {
            assert(tidy(before[p]));
        }
    }
}

/// The halves of a block that overlaps no other overlap no other either, and
/// the lower half is not free.
pub proof fn lemma_half(arena: Arena, idx: int, high: int)
    requires
        arena.wf(),
        0 < high,
        arena.placed(idx, high),
        arena.clear(idx, high),
    ensures
        ({
            let upper = idx + blocks::span(high - 1);
            &&& arena.placed(upper, high - 1)
            &&& arena.clear(upper, high - 1)
            &&& !arena.free_block(blocks::buddy_of(upper, high - 1), high - 1)
        }),
{
    let o = high - 1;
    let upper = idx + blocks::span(o);
    blocks::lemma_aligned_smaller(idx, o, high);
    blocks::lemma_span(o);
    blocks::lemma_buddy(idx, o);
    assert forall|j: int, b: int| #[trigger] arena.block(j, b) implies blocks::disjoint(
        upper,
        o,
        j,
        b,
    ) by {
        assert(arena.placed(j, b));
        blocks::lemma_span(b);
    }
    lemma_clear_head(arena, idx, high);
    assert(!arena.block(idx, o));
}

/// Pristine descriptors and areas without blocks represent the arena in which nothing is free or in use.
pub proof fn lemma_blank(pages: Seq<Page>, areas: Seq<FreeArea>)
    requires
        forall|p: int| 0 <= p < pages.len() ==> (#[trigger] pages[p]).pristine(),
        forall|o: int|
            0 <= o < areas.len() ==> (#[trigger] areas[o]).nr_free == 0
                && areas[o].free_list.head@ is None,
    ensures
        consistent(pages, areas, 0),
        arena_of(pages, areas).used == Map::<int, int>::empty(),
        forall|o: int|
            0 <= o < areas.len() ==> (#[trigger] arena_of(pages, areas).free[o])
                == Seq::<int>::empty(),
{
    let arena = arena_of(pages, areas);
    assert forall|o: int| 0 <= o < areas.len() implies (#[trigger] areas[o]).wf(pages)
        && areas[o].nodes(pages) == Seq::<int>::empty() by {
        let s = Seq::<int>::empty();
        assert(list::is_ring(pages, areas[o].free_list.head@, s));
        areas[o].free_list.lemma_nodes(pages, s);
    }
    assert forall|o: int| 0 <= o < areas.len() implies (#[trigger] arena.free[o]) == Seq::<
        int,
    >::empty() by {
        assert(areas[o].wf(pages));
    }
    assert(arena.used =~= Map::<int, int>::empty());
    assert forall|i: int, o: int| !#[trigger] arena.free_block(i, o) by {}
    assert forall|i: int, o: int| !#[trigger] arena.block(i, o) by {
        assert(!arena.free_block(i, o));
    }
    arena::lemma_pages_listed(arena.free, arena.free.len() as int);
}

} // verus!
