//! What validation looks for.
//!
//! Validation makes no use of the allocator's invariants: it is there to find
//! out whether they hold. So its verdict is defined on any descriptors and
//! areas, whether or not they represent an arena.

use crate::blocks;
use crate::error::Error;
use crate::free_area::FreeArea;
use crate::list;
use crate::page::Page;
use crate::repr;
use vstd::arithmetic::power2::*;
use vstd::prelude::*;

verus! {

/// What following the links of a free list comes upon.
pub enum Walk {
    /// A link that is absent or leads out of the descriptors.
    Broken,
    /// A node that is no free head of the list's order, or more nodes than
    /// there are descriptors.
    Corrupt,
    /// The list's end, after this many nodes.
    Complete(int),
}

/// Page `idx` is fit to be listed under `order`: aligned, in the arena, marked
/// free with that order, and not in use.
pub open spec fn sound(pages: Seq<Page>, order: int, idx: int) -> bool {
    &&& blocks::aligned(idx, order)
    &&& idx + blocks::span(order) <= pages.len()
    &&& pages[idx].listed()
    &&& pages[idx].order == order
    &&& pages[idx].refcount == 0
}

/// What following the links comes upon from `next` on, when `seen` nodes
/// were visited before.
pub open spec fn walk(
    pages: Seq<Page>,
    order: int,
    head: Option<int>,
    next: Option<int>,
    seen: int,
) -> Walk
    decreases pages.len() - seen,
{
    match next {
        None => Walk::Complete(seen),
        Some(idx) => if !(0 <= idx < pages.len() && pages[idx].next@ is Some) {
            Walk::Broken
        } else if seen >= pages.len() || !sound(pages, order, idx) {
            Walk::Corrupt
        } else {
            walk(pages, order, head, list::following(pages, head, idx), seen + 1)
        },
    }
}

/// The buddy of the block of `order` at `idx` is free, too.
pub open spec fn mergeable(pages: Seq<Page>, order: int, idx: int) -> bool {
    let buddy = blocks::buddy_of(idx, order);
    0 <= buddy < pages.len() && pages[buddy].listed() && pages[buddy].order == order
}

/// One of the next `n` nodes from `next` on is mergeable.
pub open spec fn any_mergeable(
    pages: Seq<Page>,
    order: int,
    head: Option<int>,
    next: Option<int>,
    n: int,
) -> bool
    decreases n,
{
    match next {
        Some(idx) => n > 0 && (mergeable(pages, order, idx) || any_mergeable(
            pages,
            order,
            head,
            list::following(pages, head, idx),
            n - 1,
        )),
        None => false,
    }
}

/// The walk of the list of one order.
pub open spec fn list_walk(pages: Seq<Page>, areas: Seq<FreeArea>, order: int) -> Walk {
    let head = areas[order].free_list.head@;
    walk(pages, order, head, head, 0)
}

/// What is wrong with the list of one order, if anything is.
pub open spec fn list_fault(pages: Seq<Page>, areas: Seq<FreeArea>, order: int) -> Option<Error> {
    let head = areas[order].free_list.head@;
    match list_walk(pages, areas, order) {
        Walk::Complete(n) => if n != areas[order].nr_free {
            Some(Error::CountMismatch)
        } else if order + 1 < areas.len() && any_mergeable(pages, order, head, head, n) {
            Some(Error::Uncoalesced)
        } else {
            None
        },
        _ => Some(Error::CorruptFreeList),
    }
}

/// What is wrong with the first faulty list from `order` on, if one is.
pub open spec fn first_list_fault(
    pages: Seq<Page>,
    areas: Seq<FreeArea>,
    order: int,
) -> Option<Error>
    decreases areas.len() - order,
{
    if order >= areas.len() {
        None
    } else {
        match list_fault(pages, areas, order) {
            Some(error) => Some(error),
            None => first_list_fault(pages, areas, order + 1),
        }
    }
}

/// No list from `order` on, up to the first faulty one, has a broken link.
pub open spec fn unbroken(pages: Seq<Page>, areas: Seq<FreeArea>, order: int) -> bool
    decreases areas.len() - order,
{
    if order >= areas.len() {
        true
    } else {
        &&& !(list_walk(pages, areas, order) is Broken)
        &&& list_fault(pages, areas, order) is None ==> unbroken(pages, areas, order + 1)
    }
}

/// The number of blocks that the first `n` areas count.
pub open spec fn blocks_counted(areas: Seq<FreeArea>, n: int) -> int
    decreases n,
{
    if n <= 0 {
        0
    } else {
        blocks_counted(areas, n - 1) + areas[n - 1].nr_free
    }
}

/// The number of pages in the blocks that the first `n` areas count.
pub open spec fn pages_counted(areas: Seq<FreeArea>, n: int) -> int
    decreases n,
{
    if n <= 0 {
        0
    } else {
        pages_counted(areas, n - 1) + areas[n - 1].nr_free * blocks::span(n - 1)
    }
}

/// The number of the first `n` descriptors that are marked free.
pub open spec fn marks(pages: Seq<Page>, n: int) -> int
    decreases n,
{
    if n <= 0 {
        0
    } else {
        marks(pages, n - 1) + if pages[n - 1].listed() {
            1int
        } else {
            0int
        }
    }
}

/// The first invariant that is violated, if one is: of the lists in order,
/// then of the page count, then of the marks.
pub open spec fn fault(pages: Seq<Page>, areas: Seq<FreeArea>, nr_free: int) -> Option<Error> {
    match first_list_fault(pages, areas, 0) {
        Some(error) => Some(error),
        None => if pages_counted(areas, areas.len() as int) != nr_free {
            Some(Error::CountMismatch)
        } else if marks(pages, pages.len() as int) != blocks_counted(areas, areas.len() as int) {
            Some(Error::CorruptFreeList)
        } else {
            None
        },
    }
}

/// A complete walk ends no earlier than it has got.
pub proof fn lemma_walk_end(
    pages: Seq<Page>,
    order: int,
    head: Option<int>,
    next: Option<int>,
    seen: int,
)
    ensures
        match walk(pages, order, head, next, seen) {
            Walk::Complete(n) => n >= seen && (next is Some ==> n > seen),
            _ => true,
        },
    decreases pages.len() - seen,
{
    match next {
        None => {},
        Some(idx) => {
            if 0 <= idx < pages.len() && pages[idx].next@ is Some && seen < pages.len() && sound(
                pages,
                order,
                idx,
            ) {
                lemma_walk_end(pages, order, head, list::following(pages, head, idx), seen + 1);
            }
        },
    }
}

/// The walk of a well-formed list of sound nodes completes.
proof fn lemma_walk_ring(pages: Seq<Page>, order: int, head: Option<int>, s: Seq<int>, k: int)
    requires
        list::is_ring(pages, head, s),
        forall|j: int| 0 <= j < s.len() ==> sound(pages, order, #[trigger] s[j]),
        0 <= k <= s.len() <= pages.len(),
    ensures
        walk(
            pages,
            order,
            head,
            if k < s.len() {
                Some(s[k])
            } else {
                None
            },
            k,
        ) == Walk::Complete(s.len() as int),
    decreases s.len() - k,
{
    if k < s.len() {
        assert(pages[s[k]].next@ == Some(list::succ(s, k)));
        if k + 1 < s.len() {
            assert(s[k + 1] != s[0]);
        }
        lemma_walk_ring(pages, order, head, s, k + 1);
    }
}

/// No node of a well-formed list is found mergeable if none is.
proof fn lemma_no_mergeable(pages: Seq<Page>, order: int, head: Option<int>, s: Seq<int>, k: int)
    requires
        list::is_ring(pages, head, s),
        forall|j: int| 0 <= j < s.len() ==> !mergeable(pages, order, #[trigger] s[j]),
        0 <= k <= s.len(),
    ensures
        !any_mergeable(
            pages,
            order,
            head,
            if k < s.len() {
                Some(s[k])
            } else {
                None
            },
            s.len() - k,
        ),
    decreases s.len() - k,
{
    if k < s.len() {
        assert(pages[s[k]].next@ == Some(list::succ(s, k)));
        if k + 1 < s.len() {
            assert(s[k + 1] != s[0]);
        }
        lemma_no_mergeable(pages, order, head, s, k + 1);
    }
}

/// A consistent list has no fault.
proof fn lemma_list_passes(pages: Seq<Page>, areas: Seq<FreeArea>, nr_free: int, order: int)
    requires
        repr::consistent(pages, areas, nr_free),
        0 <= order < areas.len(),
    ensures
        list_walk(pages, areas, order) is Complete,
        list_fault(pages, areas, order) is None,
{
    let arena = repr::arena_of(pages, areas);
    let head = areas[order].free_list.head@;
    let s = areas[order].nodes(pages);
    assert(areas[order].wf(pages));
    assert(arena.free[order] == s);
    arena.lemma_count();
    assert forall|j: int| 0 <= j < s.len() implies sound(pages, order, #[trigger] s[j]) by {
        assert(s.contains(s[j]));
        assert(arena.free_block(s[j], order));
        assert(arena.block(s[j], order));
        assert(arena.placed(s[j], order));
        assert(!arena.used.contains_key(s[j]));
    }
    lemma_walk_ring(pages, order, head, s, 0);
    if order + 1 < areas.len() {
        assert forall|j: int| 0 <= j < s.len() implies !mergeable(pages, order, #[trigger] s[j]) by {
            assert(s.contains(s[j]));
            assert(arena.free_block(s[j], order));
            if mergeable(pages, order, s[j]) {
                let buddy = blocks::buddy_of(s[j], order);
                assert(pages[buddy].listed());
                assert(arena.free_block(buddy, order));
            }
        }
        lemma_no_mergeable(pages, order, head, s, 0);
    }
}

/// Consistent lists have no fault.
proof fn lemma_lists_pass(pages: Seq<Page>, areas: Seq<FreeArea>, nr_free: int, order: int)
    requires
        repr::consistent(pages, areas, nr_free),
        0 <= order,
    ensures
        first_list_fault(pages, areas, order) is None,
        unbroken(pages, areas, order),
    decreases areas.len() - order,
{
    if order < areas.len() {
        lemma_list_passes(pages, areas, nr_free, order);
        lemma_lists_pass(pages, areas, nr_free, order + 1);
    }
}

/// The areas of a consistent state count the pages that the lists hold.
proof fn lemma_pages_counted(pages: Seq<Page>, areas: Seq<FreeArea>, nr_free: int, n: int)
    requires
        repr::consistent(pages, areas, nr_free),
        n <= areas.len(),
    ensures
        pages_counted(areas, n) == crate::arena::pages_listed(repr::free_lists(pages, areas), n),
    decreases n,
{
    if n > 0 {
        lemma_pages_counted(pages, areas, nr_free, n - 1);
        assert(areas[n - 1].wf(pages));
    }
}

/// The pages listed under one of the first `n` orders.
spec fn heads(pages: Seq<Page>, areas: Seq<FreeArea>, n: int) -> Set<int> {
    Set::new(|p: int| exists|o: int| 0 <= o < n && #[trigger] areas[o].nodes(pages).contains(p))
}

/// The areas of a consistent state count the pages that are listed.
proof fn lemma_blocks_counted(pages: Seq<Page>, areas: Seq<FreeArea>, nr_free: int, n: int)
    requires
        repr::consistent(pages, areas, nr_free),
        0 <= n <= areas.len(),
    ensures
        heads(pages, areas, n).finite(),
        heads(pages, areas, n).len() == blocks_counted(areas, n),
    decreases n,
{
    if n == 0 {
        assert(heads(pages, areas, n) =~= Set::<int>::empty());
    } else {
        let arena = repr::arena_of(pages, areas);
        let s = areas[n - 1].nodes(pages);
        let rest = heads(pages, areas, n - 1);
        lemma_blocks_counted(pages, areas, nr_free, n - 1);
        assert(areas[n - 1].wf(pages));
        assert(arena.free[n - 1] == s);
        s.unique_seq_to_set();
        vstd::seq_lib::seq_to_set_is_finite(s);
        assert(rest.disjoint(s.to_set())) by {
            assert forall|p: int| rest.contains(p) implies !s.to_set().contains(p) by {
                if s.contains(p) {
                    let o = choose|o: int|
                        0 <= o < n - 1 && #[trigger] areas[o].nodes(pages).contains(p);
                    assert(arena.free[o] == areas[o].nodes(pages));
                    assert(arena.free_block(p, o));
                    assert(arena.free_block(p, n - 1));
                    repr::lemma_listed_once(arena, p, o, n - 1);
                }
            }
        }
        assert(heads(pages, areas, n) =~= rest + s.to_set()) by {
            assert forall|p: int| heads(pages, areas, n).contains(p) <==> (rest
                + s.to_set()).contains(p) by {
                if heads(pages, areas, n).contains(p) {
                    let o = choose|o: int|
                        0 <= o < n && #[trigger] areas[o].nodes(pages).contains(p);
                    assert(o == n - 1 || rest.contains(p));
                }
            }
        }
        vstd::set_lib::lemma_set_disjoint_lens(rest, s.to_set());
    }
}

/// The first `n` pages that are marked free.
spec fn marked_pages(pages: Seq<Page>, n: int) -> Set<int> {
    Set::new(|p: int| 0 <= p < n && pages[p].listed())
}

proof fn lemma_marks(pages: Seq<Page>, n: int)
    requires
        0 <= n <= pages.len(),
    ensures
        marked_pages(pages, n).finite(),
        marked_pages(pages, n).len() == marks(pages, n),
    decreases n,
{
    if n == 0 {
        assert(marked_pages(pages, n) =~= Set::<int>::empty());
    } else {
        lemma_marks(pages, n - 1);
        if pages[n - 1].listed() {
            assert(marked_pages(pages, n) =~= marked_pages(pages, n - 1).insert(n - 1));
        } else {
            assert(marked_pages(pages, n) =~= marked_pages(pages, n - 1));
        }
    }
}

/// A consistent state passes the check: no link is broken and no fault is
/// found.
pub proof fn law_consistent_passes(pages: Seq<Page>, areas: Seq<FreeArea>, nr_free: int)
    requires
        repr::consistent(pages, areas, nr_free),
    ensures
        unbroken(pages, areas, 0),
        fault(pages, areas, nr_free) is None,
{
    let n = areas.len() as int;
    let arena = repr::arena_of(pages, areas);
    lemma_lists_pass(pages, areas, nr_free, 0);
    lemma_pages_counted(pages, areas, nr_free, n);
    lemma_blocks_counted(pages, areas, nr_free, n);
    lemma_marks(pages, pages.len() as int);
    assert(heads(pages, areas, n) =~= marked_pages(pages, pages.len() as int)) by {
        assert forall|p: int| heads(pages, areas, n).contains(p) <==> marked_pages(
            pages,
            pages.len() as int,
        ).contains(p) by {
            if heads(pages, areas, n).contains(p) {
                let o = choose|o: int| 0 <= o < n && #[trigger] areas[o].nodes(pages).contains(p);
                assert(arena.free[o] == areas[o].nodes(pages));
                assert(arena.free_block(p, o));
                assert(arena.block(p, o));
                assert(arena.placed(p, o));
                blocks::lemma_span(o);
            }
            if 0 <= p < pages.len() && pages[p].listed() {
                let o = pages[p].order as int;
                assert(arena.free_block(p, o));
                assert(arena.free[o] == areas[o].nodes(pages));
            }
        }
    }
}

/// The node that a walk from `head` visits after `k` others.
pub open spec fn visited(pages: Seq<Page>, head: Option<int>, k: int) -> Option<int>
    decreases k,
{
    if k <= 0 {
        head
    } else {
        match visited(pages, head, k - 1) {
            Some(idx) => list::following(pages, head, idx),
            None => None,
        }
    }
}

/// Page `p` is on the list of `order`: a walk of the list visits it.
pub open spec fn on_list(pages: Seq<Page>, areas: Seq<FreeArea>, order: int, p: int) -> bool {
    exists|k: int|
        0 <= k < areas[order].nr_free && #[trigger] visited(
            pages,
            areas[order].free_list.head@,
            k,
        ) == Some(p)
}

/// What a complete walk has visited: sound nodes up to the end.
proof fn lemma_complete_walk(pages: Seq<Page>, order: int, head: Option<int>, seen: int, n: int)
    requires
        0 <= seen,
        walk(pages, order, head, visited(pages, head, seen), seen) == Walk::Complete(n),
    ensures
        seen <= n,
        visited(pages, head, n) is None,
        forall|k: int|
            seen <= k < n ==> match #[trigger] visited(pages, head, k) {
                Some(idx) => 0 <= idx < pages.len() && sound(pages, order, idx),
                None => false,
            },
    decreases pages.len() - seen,
{
    match visited(pages, head, seen) {
        None => {},
        Some(idx) => {
            assert(visited(pages, head, seen + 1) == list::following(pages, head, idx));
            lemma_complete_walk(pages, order, head, seen + 1, n);
        },
    }
}

/// A walk that comes back to a node goes on as it did before.
proof fn lemma_visited_repeats(pages: Seq<Page>, head: Option<int>, a: int, b: int, j: int)
    requires
        0 <= a,
        0 <= b,
        0 <= j,
        visited(pages, head, a) == visited(pages, head, b),
    ensures
        visited(pages, head, a + j) == visited(pages, head, b + j),
    decreases j,
{
    if j > 0 {
        lemma_visited_repeats(pages, head, a, b, j - 1);
    }
}

/// The nodes that a complete walk of `n` nodes visits first.
spec fn visited_pages(pages: Seq<Page>, head: Option<int>, n: int) -> Set<int> {
    Set::new(|p: int| exists|k: int| 0 <= k < n && #[trigger] visited(pages, head, k) == Some(p))
}

/// A complete walk visits no node twice.
proof fn lemma_visited_count(pages: Seq<Page>, order: int, head: Option<int>, n: int, m: int)
    requires
        walk(pages, order, head, head, 0) == Walk::Complete(n),
        0 <= m <= n,
    ensures
        visited_pages(pages, head, m).finite(),
        visited_pages(pages, head, m).len() == m,
    decreases m,
{
    assert(visited(pages, head, 0) == head);
    lemma_complete_walk(pages, order, head, 0, n);
    if m == 0 {
        assert(visited_pages(pages, head, m) =~= Set::<int>::empty());
    } else {
        let last = visited(pages, head, m - 1);
        assert(last is Some);
        let rest = visited_pages(pages, head, m - 1);
        lemma_visited_count(pages, order, head, n, m - 1);
        assert(!rest.contains(last->0)) by {
            if rest.contains(last->0) {
                let k = choose|k: int|
                    0 <= k < m - 1 && #[trigger] visited(pages, head, k) == Some(last->0);
                lemma_visited_repeats(pages, head, k, m - 1, n - (m - 1));
                assert(visited(pages, head, k + (n - (m - 1))) is None);
            }
        }
        assert(visited_pages(pages, head, m) =~= rest.insert(last->0)) by {
            assert forall|p: int| visited_pages(pages, head, m).contains(p) <==> rest.insert(
                last->0,
            ).contains(p) by {
                if visited_pages(pages, head, m).contains(p) {
                    let k = choose|k: int|
                        0 <= k < m && #[trigger] visited(pages, head, k) == Some(p);
                    assert(k == m - 1 || rest.contains(p));
                }
                if rest.contains(p) {
                    let k = choose|k: int|
                        0 <= k < m - 1 && #[trigger] visited(pages, head, k) == Some(p);
                    assert(0 <= k < m);
                }
            }
        }
    }
}

/// No mergeable node is found if and only if none is visited.
proof fn lemma_none_mergeable(
    pages: Seq<Page>,
    order: int,
    head: Option<int>,
    seen: int,
    n: int,
    k: int,
    idx: int,
)
    requires
        0 <= seen <= k < n,
        !any_mergeable(pages, order, head, visited(pages, head, seen), n - seen),
        visited(pages, head, k) == Some(idx),
    ensures
        !mergeable(pages, order, idx),
    decreases k - seen,
{
    if visited(pages, head, seen) is None {
        lemma_visited_end(pages, head, seen, k);
    } else if seen < k {
        let here = visited(pages, head, seen)->0;
        assert(visited(pages, head, seen + 1) == list::following(pages, head, here));
        lemma_none_mergeable(pages, order, head, seen + 1, n, k, idx);
    }
}

/// Nothing is visited after the end.
proof fn lemma_visited_end(pages: Seq<Page>, head: Option<int>, end: int, k: int)
    requires
        0 <= end <= k,
        visited(pages, head, end) is None,
    ensures
        visited(pages, head, k) is None,
    decreases k - end,
{
    if end < k {
        lemma_visited_end(pages, head, end, k - 1);
    }
}

/// Without a list fault from `from` on, no list from there on has one.
proof fn lemma_no_list_fault(pages: Seq<Page>, areas: Seq<FreeArea>, from: int, order: int)
    requires
        0 <= from <= order < areas.len(),
        first_list_fault(pages, areas, from) is None,
    ensures
        list_fault(pages, areas, order) is None,
    decreases order - from,
{
    if from < order {
        lemma_no_list_fault(pages, areas, from + 1, order);
    }
}

/// The pages on the lists of the first `n` orders.
spec fn listed_pages(pages: Seq<Page>, areas: Seq<FreeArea>, n: int) -> Set<int> {
    Set::new(|p: int| exists|o: int| 0 <= o < n && #[trigger] on_list(pages, areas, o, p))
}

/// Faultless lists hold sound pages, as many as the areas count.
proof fn lemma_listed_count(pages: Seq<Page>, areas: Seq<FreeArea>, n: int)
    requires
        0 <= n <= areas.len(),
        first_list_fault(pages, areas, 0) is None,
    ensures
        listed_pages(pages, areas, n).finite(),
        listed_pages(pages, areas, n).len() == blocks_counted(areas, n),
        forall|o: int, p: int|
            0 <= o < n && #[trigger] on_list(pages, areas, o, p) ==> 0 <= p < pages.len() && sound(
                pages,
                o,
                p,
            ),
    decreases n,
{
    if n == 0 {
        assert(listed_pages(pages, areas, n) =~= Set::<int>::empty());
    } else {
        let o = n - 1;
        let head = areas[o].free_list.head@;
        let count = areas[o].nr_free as int;
        let rest = listed_pages(pages, areas, o);
        let here = visited_pages(pages, head, count);
        lemma_listed_count(pages, areas, o);
        lemma_no_list_fault(pages, areas, 0, o);
        assert(walk(pages, o, head, head, 0) == Walk::Complete(count));
        assert(visited(pages, head, 0) == head);
        lemma_complete_walk(pages, o, head, 0, count);
        lemma_visited_count(pages, o, head, count, count);
        assert forall|p: int| here.contains(p) <==> on_list(pages, areas, o, p) by {}
        assert forall|p: int| #[trigger] on_list(pages, areas, o, p) implies 0 <= p < pages.len()
            && sound(pages, o, p) by {
            let k = choose|k: int| 0 <= k < count && #[trigger] visited(pages, head, k) == Some(p);
            assert(visited(pages, head, k) is Some);
        }
        assert(rest.disjoint(here)) by {
            assert forall|p: int| rest.contains(p) implies !here.contains(p) by {
                let b = choose|b: int| 0 <= b < o && #[trigger] on_list(pages, areas, b, p);
                assert(sound(pages, b, p));
                if here.contains(p) {
                    assert(on_list(pages, areas, o, p));
                }
            }
        }
        assert(listed_pages(pages, areas, n) =~= rest + here) by {
            assert forall|p: int| listed_pages(pages, areas, n).contains(p) <==> (rest
                + here).contains(p) by {
                if listed_pages(pages, areas, n).contains(p) {
                    let b = choose|b: int| 0 <= b < n && #[trigger] on_list(pages, areas, b, p);
                    assert(b == o || rest.contains(p));
                }
                if rest.contains(p) {
                    let b = choose|b: int| 0 <= b < o && #[trigger] on_list(pages, areas, b, p);
                    assert(0 <= b < n);
                }
                if here.contains(p) {
                    assert(on_list(pages, areas, o, p));
                }
            }
        }
        vstd::set_lib::lemma_set_disjoint_lens(rest, here);
    }
}

/// What a passed check promises of any descriptors and areas: the pages on the
/// list of an order are exactly those marked free with that order, each of
/// them is aligned, in the arena and not in use, below the largest order none
/// has a free buddy, and the areas' counts add up to the count of free pages.
pub proof fn law_passed_check(pages: Seq<Page>, areas: Seq<FreeArea>, nr_free: int)
    requires
        fault(pages, areas, nr_free) is None,
    ensures
        pages_counted(areas, areas.len() as int) == nr_free,
        forall|o: int, p: int|
            0 <= o < areas.len() && #[trigger] on_list(pages, areas, o, p) ==> 0 <= p < pages.len()
                && sound(pages, o, p),
        forall|p: int|
            0 <= p < pages.len() && (#[trigger] pages[p]).listed() ==> pages[p].order < areas.len()
                && on_list(pages, areas, pages[p].order as int, p),
        forall|o: int, p: int|
            0 <= o && o + 1 < areas.len() && #[trigger] on_list(pages, areas, o, p)
                ==> !mergeable(pages, o, p),
{
    let n = areas.len() as int;
    let listed = listed_pages(pages, areas, n);
    let marked = marked_pages(pages, pages.len() as int);
    lemma_listed_count(pages, areas, n);
    lemma_marks(pages, pages.len() as int);
    assert(listed.subset_of(marked)) by {
        assert forall|p: int| listed.contains(p) implies marked.contains(p) by {
            let o = choose|o: int| 0 <= o < n && #[trigger] on_list(pages, areas, o, p);
            assert(sound(pages, o, p));
        }
    }
    vstd::set_lib::lemma_subset_equality(listed, marked);
    assert forall|p: int| 0 <= p < pages.len() && (#[trigger] pages[p]).listed() implies pages[p].order
        < areas.len() && on_list(pages, areas, pages[p].order as int, p) by {
        assert(marked.contains(p));
        assert(listed.contains(p));
        let o = choose|o: int| 0 <= o < n && #[trigger] on_list(pages, areas, o, p);
        assert(sound(pages, o, p));
    }
    assert forall|o: int, p: int|
        0 <= o && o + 1 < areas.len() && #[trigger] on_list(pages, areas, o, p) implies !mergeable(
        pages,
        o,
        p,
    ) by {
        let head = areas[o].free_list.head@;
        let count = areas[o].nr_free as int;
        lemma_no_list_fault(pages, areas, 0, o);
        let k = choose|k: int| 0 <= k < count && #[trigger] visited(pages, head, k) == Some(p);
        assert(visited(pages, head, 0) == head);
        lemma_none_mergeable(pages, o, head, 0, count, k, p);
    }
}

/// A list of `n` nodes of the given order: following the links from `head`
/// visits `n` nodes and ends, and each is aligned to its block, lies in the
/// arena with it, is marked free with the order and is not in use.
pub open spec fn faultless_walk(
    pages: Seq<Page>,
    head: Option<int>,
    order: int,
    n: int,
) -> bool {
    &&& 0 <= n <= pages.len()
    &&& visited(pages, head, n) is None
    &&& forall|k: int|
        0 <= k < n ==> match #[trigger] visited(pages, head, k) {
            Some(i) => {
                &&& 0 <= i
                &&& i % (pow2(order as nat) as int) == 0
                &&& i + pow2(order as nat) <= pages.len()
                &&& pages[i].flags.bits & 1 == 1
                &&& pages[i].order == order
                &&& pages[i].refcount == 0
            },
            None => false,
        }
}

/// A complete walk visits no more nodes than there are descriptors.
proof fn lemma_walk_length(pages: Seq<Page>, order: int, head: Option<int>, next: Option<int>, seen: int)
    requires
        seen <= pages.len(),
    ensures
        match walk(pages, order, head, next, seen) {
            Walk::Complete(n) => n <= pages.len(),
            _ => true,
        },
    decreases pages.len() - seen,
{
    match next {
        None => {},
        Some(idx) => {
            if 0 <= idx < pages.len() && pages[idx].next@ is Some && seen < pages.len() && sound(
                pages,
                order,
                idx,
            ) {
                lemma_walk_length(pages, order, head, list::following(pages, head, idx), seen + 1);
            }
        },
    }
}

/// The walk of a list without faults completes, unless a link is broken.
proof fn lemma_faultless_walk(
    pages: Seq<Page>,
    head: Option<int>,
    order: int,
    n: int,
    seen: int,
)
    requires
        0 <= order,
        faultless_walk(pages, head, order, n),
        0 <= seen <= n,
        !(walk(pages, order, head, visited(pages, head, seen), seen) is Broken),
    ensures
        walk(pages, order, head, visited(pages, head, seen), seen) == Walk::Complete(n),
    decreases n - seen,
{
    if seen < n {
        let idx = visited(pages, head, seen)->0;
        assert(visited(pages, head, seen) is Some);
        blocks::lemma_span(order);
        assert(sound(pages, order, idx));
        assert(visited(pages, head, seen + 1) == list::following(pages, head, idx));
        lemma_faultless_walk(pages, head, order, n, seen + 1);
    }
}

/// Page `i` has a free buddy: another block of the order, marked free with it,
/// makes up a block of the next order with the block at `i`.
pub open spec fn has_free_buddy(pages: Seq<Page>, order: int, i: int) -> bool {
    exists|q: int|
        0 <= q < pages.len() && q != i && q % (pow2(order as nat) as int) == 0 && q / (pow2(
            (order + 1) as nat,
        ) as int) == i / (pow2((order + 1) as nat) as int) && (#[trigger] pages[q]).flags.bits & 1
            == 1 && pages[q].order == order
}

proof fn lemma_free_buddy(pages: Seq<Page>, order: int, i: int)
    requires
        0 <= order,
        0 <= i,
        blocks::aligned(i, order),
    ensures
        mergeable(pages, order, i) <==> has_free_buddy(pages, order, i),
{
    let buddy = blocks::buddy_of(i, order);
    blocks::lemma_buddy(i, order);
    crate::effects::lemma_same_parent(buddy, i, order);
    if mergeable(pages, order, i) {
        assert(pages[buddy].flags.bits & 1 == 1);
    }
    if has_free_buddy(pages, order, i) {
        let q = choose|q: int|
            0 <= q < pages.len() && q != i && q % (pow2(order as nat) as int) == 0 && q / (pow2(
                (order + 1) as nat,
            ) as int) == i / (pow2((order + 1) as nat) as int) && (
            #[trigger] pages[q]).flags.bits & 1 == 1 && pages[q].order == order;
        crate::effects::lemma_same_parent(q, i, order);
    }
}

/// A mergeable node is found if one of the nodes to come is mergeable.
proof fn lemma_any_mergeable(
    pages: Seq<Page>,
    order: int,
    head: Option<int>,
    seen: int,
    n: int,
)
    requires
        0 <= seen <= n,
        any_mergeable(pages, order, head, visited(pages, head, seen), n - seen),
    ensures
        exists|k: int|
            seen <= k < n && #[trigger] visited(pages, head, k) is Some && mergeable(
                pages,
                order,
                visited(pages, head, k)->0,
            ),
    decreases n - seen,
{
    let idx = visited(pages, head, seen)->0;
    assert(visited(pages, head, seen) is Some);
    if !mergeable(pages, order, idx) {
        assert(visited(pages, head, seen + 1) == list::following(pages, head, idx));
        lemma_any_mergeable(pages, order, head, seen + 1, n);
    }
}

/// What is reported of one list. It is corrupt if and only if no number of
/// nodes makes a faultless walk of it. If `n` do, the count is wrong if it is
/// not `n`; if it is right, below the largest order, the list is not coalesced
/// if and only if one of its nodes has a free buddy; and otherwise nothing is
/// wrong.
pub proof fn law_list_verdict(pages: Seq<Page>, areas: Seq<FreeArea>, order: int)
    requires
        0 <= order < areas.len(),
        !(list_walk(pages, areas, order) is Broken),
    ensures
        ({
            let head = areas[order].free_list.head@;
            let verdict = list_fault(pages, areas, order);
            &&& verdict == Some(Error::CorruptFreeList) <==> !exists|n: int| #[trigger]
                faultless_walk(pages, head, order, n)
            &&& forall|n: int| #[trigger]
                faultless_walk(pages, head, order, n) ==> {
                    &&& verdict == Some(Error::CountMismatch) <==> n != areas[order].nr_free
                    &&& verdict == Some(Error::Uncoalesced) <==> n == areas[order].nr_free && order
                        + 1 < areas.len() && exists|k: int|
                        0 <= k < n && has_free_buddy(
                            pages,
                            order,
                            (#[trigger] visited(pages, head, k))->0,
                        )
                    &&& verdict is None <==> n == areas[order].nr_free && !(order + 1 < areas.len()
                        && exists|k: int|
                        0 <= k < n && has_free_buddy(
                            pages,
                            order,
                            (#[trigger] visited(pages, head, k))->0,
                        ))
                }
        }),
{
    let head = areas[order].free_list.head@;
    let verdict = list_fault(pages, areas, order);
    assert(visited(pages, head, 0) == head);
    blocks::lemma_span(order);
    match list_walk(pages, areas, order) {
        Walk::Complete(m) => {
            lemma_complete_walk(pages, order, head, 0, m);
            lemma_walk_length(pages, order, head, head, 0);
            assert(faultless_walk(pages, head, order, m)) by {
                assert forall|k: int| 0 <= k < m implies match #[trigger] visited(pages, head, k) {
                    Some(i) => {
                        &&& 0 <= i
                        &&& i % (pow2(order as nat) as int) == 0
                        &&& i + pow2(order as nat) <= pages.len()
                        &&& pages[i].flags.bits & 1 == 1
                        &&& pages[i].order == order
                        &&& pages[i].refcount == 0
                    },
                    None => false,
                } by {
                    assert(visited(pages, head, k) is Some);
                    assert(sound(pages, order, visited(pages, head, k)->0));
                }
            }
            let some_buddy = exists|k: int|
                0 <= k < m && has_free_buddy(
                    pages,
                    order,
                    (#[trigger] visited(pages, head, k))->0,
                );
            assert(any_mergeable(pages, order, head, head, m) <==> some_buddy) by {
                if any_mergeable(pages, order, head, head, m) {
                    lemma_any_mergeable(pages, order, head, 0, m);
                    let k = choose|k: int|
                        0 <= k < m && #[trigger] visited(pages, head, k) is Some && mergeable(
                            pages,
                            order,
                            visited(pages, head, k)->0,
                        );
                    assert(sound(pages, order, visited(pages, head, k)->0));
                    lemma_free_buddy(pages, order, visited(pages, head, k)->0);
                }
                if some_buddy {
                    let k = choose|k: int|
                        0 <= k < m && has_free_buddy(
                            pages,
                            order,
                            (#[trigger] visited(pages, head, k))->0,
                        );
                    let i = visited(pages, head, k)->0;
                    assert(visited(pages, head, k) is Some);
                    assert(sound(pages, order, i));
                    lemma_free_buddy(pages, order, i);
                    if !any_mergeable(pages, order, head, head, m) {
                        lemma_none_mergeable(pages, order, head, 0, m, k, i);
                    }
                }
            }
            assert forall|n: int| #[trigger] faultless_walk(pages, head, order, n) implies n == m by {
                lemma_faultless_walk(pages, head, order, n, 0);
            }
        },
        _ => {
            assert forall|n: int| !#[trigger] faultless_walk(pages, head, order, n) by {
                if faultless_walk(pages, head, order, n) {
                    lemma_faultless_walk(pages, head, order, n, 0);
                }
            }
        },
    }
}

/// The first list with a fault decides; without one, the count of free pages
/// must be the sum over the orders of the blocks counted times their size, and
/// the number of pages marked free the sum of the blocks counted.
pub proof fn law_first_fault(pages: Seq<Page>, areas: Seq<FreeArea>, nr_free: int)
    ensures
        forall|o: int|
            0 <= o < areas.len() && (#[trigger] list_fault(pages, areas, o)) is Some && (forall|
                b: int,
            |
                0 <= b < o ==> (#[trigger] list_fault(pages, areas, b)) is None) ==> fault(
                pages,
                areas,
                nr_free,
            ) == list_fault(pages, areas, o),
        (forall|o: int|
            0 <= o < areas.len() ==> (#[trigger] list_fault(pages, areas, o)) is None) ==> fault(
            pages,
            areas,
            nr_free,
        ) == (if nr_free != Seq::new(
            areas.len(),
            |o: int| areas[o].nr_free * pow2(o as nat),
        ).fold_left(0int, |a: int, b: int| a + b) {
            Some(Error::CountMismatch)
        } else if Set::new(
            |p: int| 0 <= p < pages.len() && pages[p].flags.bits & 1 == 1,
        ).len() != Seq::new(areas.len(), |o: int| areas[o].nr_free as int).fold_left(
            0int,
            |a: int, b: int| a + b,
        ) {
            Some(Error::CorruptFreeList)
        } else {
            None
        }),
{
    let n = areas.len() as int;
    assert forall|o: int|
        0 <= o < areas.len() && (#[trigger] list_fault(pages, areas, o)) is Some && (forall|b: int|
            0 <= b < o ==> (#[trigger] list_fault(pages, areas, b)) is None) implies fault(
        pages,
        areas,
        nr_free,
    ) == list_fault(pages, areas, o) by {
        lemma_first_list_fault(pages, areas, 0, o);
    }
    if forall|o: int| 0 <= o < areas.len() ==> (#[trigger] list_fault(pages, areas, o)) is None {
        lemma_first_list_fault(pages, areas, 0, n);
        lemma_pages_sum(areas, n);
        lemma_blocks_sum(areas, n);
        lemma_marks(pages, pages.len() as int);
        assert(marked_pages(pages, pages.len() as int) =~= Set::new(
            |p: int| 0 <= p < pages.len() && pages[p].flags.bits & 1 == 1,
        ));
    }
}

/// Lists without a fault are passed over.
proof fn lemma_first_list_fault(pages: Seq<Page>, areas: Seq<FreeArea>, from: int, o: int)
    requires
        0 <= from <= o <= areas.len(),
        forall|b: int| from <= b < o ==> (#[trigger] list_fault(pages, areas, b)) is None,
    ensures
        first_list_fault(pages, areas, from) == first_list_fault(pages, areas, o),
    decreases o - from,
{
    if from < o {
        assert(list_fault(pages, areas, from) is None);
        lemma_first_list_fault(pages, areas, from + 1, o);
    }
}

proof fn lemma_pages_sum(areas: Seq<FreeArea>, n: int)
    requires
        0 <= n <= areas.len(),
    ensures
        pages_counted(areas, n) == Seq::new(
            n as nat,
            |o: int| areas[o].nr_free * pow2(o as nat),
        ).fold_left(0int, |a: int, b: int| a + b),
    decreases n,
{
    let f = |o: int| areas[o].nr_free * pow2(o as nat);
    let s = Seq::new(n as nat, f);
    if n > 0 {
        lemma_pages_sum(areas, n - 1);
        assert(s.drop_last() =~= Seq::new((n - 1) as nat, f));
    }
}

proof fn lemma_blocks_sum(areas: Seq<FreeArea>, n: int)
    requires
        0 <= n <= areas.len(),
    ensures
        blocks_counted(areas, n) == Seq::new(
            n as nat,
            |o: int| areas[o].nr_free as int,
        ).fold_left(0int, |a: int, b: int| a + b),
    decreases n,
{
    let f = |o: int| areas[o].nr_free as int;
    let s = Seq::new(n as nat, f);
    if n > 0 {
        lemma_blocks_sum(areas, n - 1);
        assert(s.drop_last() =~= Seq::new((n - 1) as nat, f));
    }
}

/// What a passed check promises of the descriptors alone: every page marked
/// free is aligned to its block, which lies in the arena, and is not in use;
/// and below the largest order no two buddies are both marked free with it.
pub proof fn law_passed_check_marks(pages: Seq<Page>, areas: Seq<FreeArea>, nr_free: int)
    requires
        fault(pages, areas, nr_free) is None,
    ensures
        forall|p: int|
            0 <= p < pages.len() && (#[trigger] pages[p]).flags.bits & 1 == 1 ==> {
                &&& pages[p].order < areas.len()
                &&& p % (pow2(pages[p].order as nat) as int) == 0
                &&& p + pow2(pages[p].order as nat) <= pages.len()
                &&& pages[p].refcount == 0
            },
        forall|o: int, p: int, q: int|
            #![trigger pages[p], pages[q], pow2(o as nat)]
            0 <= o && o + 1 < areas.len() && 0 <= p && q == p + pow2(o as nat) && q < pages.len()
                && p % (pow2((o + 1) as nat) as int) == 0 && pages[p].order == o && pages[q].order
                == o ==> !(pages[p].flags.bits & 1 == 1 && pages[q].flags.bits & 1 == 1),
{
    law_passed_check(pages, areas, nr_free);
    assert forall|p: int| 0 <= p < pages.len() && (#[trigger] pages[p]).flags.bits & 1 == 1 implies {
        &&& pages[p].order < areas.len()
        &&& p % (pow2(pages[p].order as nat) as int) == 0
        &&& p + pow2(pages[p].order as nat) <= pages.len()
        &&& pages[p].refcount == 0
    } by {
        assert(pages[p].listed());
        assert(on_list(pages, areas, pages[p].order as int, p));
        assert(sound(pages, pages[p].order as int, p));
    }
    assert forall|o: int, p: int, q: int|
        #![trigger pages[p], pages[q], pow2(o as nat)]
        0 <= o && o + 1 < areas.len() && 0 <= p && q == p + pow2(o as nat) && q < pages.len() && p
            % (pow2((o + 1) as nat) as int) == 0 && pages[p].order == o && pages[q].order
            == o implies !(pages[p].flags.bits & 1 == 1 && pages[q].flags.bits & 1 == 1) by {
        blocks::lemma_span(o);
        if pages[p].flags.bits & 1 == 1 && pages[q].flags.bits & 1 == 1 {
            assert(pages[p].listed() && pages[q].listed());
            assert(on_list(pages, areas, o, p));
            assert(blocks::buddy_of(p, o) == q);
            assert(!mergeable(pages, o, p));
        }
    }
}

} // verus!
