//! The free list and the block count of one order.

use crate::list;
use crate::list::{FreeList, FreeListIter};
use crate::page::{Page, PageFlags};
use vstd::prelude::*;

verus! {

/// `after` differs from `before` at most in the links of the pages in
/// `touched`, and in that page `idx` is no longer marked as a free head and
/// has no links.
pub open spec fn unmarked(
    before: Seq<Page>,
    after: Seq<Page>,
    touched: Seq<int>,
    idx: int,
) -> bool {
    &&& before.len() == after.len()
    &&& forall|p: int|
        #![trigger after[p]]
        0 <= p < after.len() ==> {
            &&& after[p].held_order == before[p].held_order
            &&& after[p].refcount == before[p].refcount
            &&& p != idx ==> after[p].flags == before[p].flags && after[p].order == before[p].order
            &&& p != idx && !touched.contains(p) ==> after[p] == before[p]
        }
    &&& !after[idx].listed()
    &&& after[idx].flags.bits == before[idx].flags.bits & !1u8
    &&& after[idx].order == 0
    &&& after[idx].next@ is None
    &&& after[idx].prev@ is None
}

/// The free blocks of one order.
#[derive(Clone, Copy, Debug, PartialEq, Eq, Structural)]
pub struct FreeArea {
    pub free_list: FreeList,
    pub nr_free: usize,
}

impl FreeArea {
    /// The list is well formed over `pages` and the count is its length.
    pub open spec fn wf(self, pages: Seq<Page>) -> bool {
        self.free_list.wf(pages) && self.nr_free == self.nodes(pages).len()
    }

    /// The heads of the free blocks, front to back.
    pub open spec fn nodes(self, pages: Seq<Page>) -> Seq<int> {
        self.free_list.nodes(pages)
    }

    /// The area without any block.
    pub fn new() -> (area: Self)
        ensures
            area.nr_free == 0,
            area.free_list.head@ is None,
            forall|pages: Seq<Page>| #[trigger] area.wf(pages),
            forall|pages: Seq<Page>| #[trigger] area.nodes(pages) == Seq::<int>::empty(),
    {
        let area = FreeArea { free_list: FreeList::new(), nr_free: 0 };
        proof {
            assert forall|pages: Seq<Page>| #[trigger]
                area.nodes(pages) == Seq::<int>::empty() by {
                assert(area.free_list.nodes(pages) == Seq::<int>::empty());
            }
            assert forall|pages: Seq<Page>| #[trigger] area.wf(pages) by {
                assert(area.nodes(pages) == Seq::<int>::empty());
                assert(area.free_list.wf(pages));
            }
        }
        area
    }

    /// Returns the number of free blocks of this order.
    pub fn nr_free(&self) -> (count: usize)
        ensures
            count == self.nr_free,
    {
        self.nr_free
    }

    /// Pushes a block head at the front of the list and bumps the count.
    pub fn push_front(&mut self, pages: &mut [Page], idx: usize)
        requires
            old(self).wf(old(pages)@),
            old(self).nr_free < usize::MAX,
            idx < old(pages)@.len(),
            !old(self).nodes(old(pages)@).contains(idx as int),
        ensures
            final(self).wf(final(pages)@),
            final(self).nodes(final(pages)@) == seq![idx as int] + old(self).nodes(old(pages)@),
            list::relinked(
                old(pages)@,
                final(pages)@,
                old(self).nodes(old(pages)@).push(idx as int),
            ),
    {
        self.free_list.push_front(pages, idx);
        self.nr_free += 1;
    }

    /// Unlinks a block head, drops the count and clears the head's mark and
    /// links.
    pub fn remove(&mut self, pages: &mut [Page], idx: usize)
        requires
            old(self).wf(old(pages)@),
            old(self).nodes(old(pages)@).contains(idx as int),
        ensures
            final(self).wf(final(pages)@),
            final(self).nodes(final(pages)@) == list::without(
                old(self).nodes(old(pages)@),
                idx as int,
            ),
            unmarked(old(pages)@, final(pages)@, old(self).nodes(old(pages)@), idx as int),
            final(pages)@[idx as int].next@ is None,
            final(pages)@[idx as int].prev@ is None,
    {
        let ghost s = self.nodes(pages@);
        proof {
            list::lemma_without(s, idx as int);
        }
        self.free_list.remove(pages, idx);
        self.nr_free -= 1;
        let ghost mid = pages@;
        clear_free_head(&mut pages[idx]);
        proof {
            let t = list::without(s, idx as int);
            list::lemma_ring_frame(mid, pages@, self.free_list.head@, t);
            self.free_list.lemma_nodes(pages@, t);
        }
    }

    /// Pops the front block head, if there is one.
    pub fn pop_front(&mut self, pages: &mut [Page]) -> (front: Option<usize>)
        requires
            old(self).wf(old(pages)@),
        ensures
            final(self).wf(final(pages)@),
            ({
                let s = old(self).nodes(old(pages)@);
                match front {
                    Some(idx) => {
                        &&& s.len() > 0
                        &&& idx == s[0]
                        &&& final(self).nodes(final(pages)@) == list::without(s, s[0])
                        &&& unmarked(old(pages)@, final(pages)@, s, idx as int)
                        &&& final(pages)@[idx as int].next@ is None
                        &&& final(pages)@[idx as int].prev@ is None
                    },
                    None => s.len() == 0 && *final(self) == *old(self) && final(pages)@ == old(
                        pages,
                    )@,
                }
            }),
    {
        let ghost s = self.nodes(pages@);
        match self.free_list.pop_front(pages) {
            None => None,
            Some(idx) => {
                proof {
                    assert(s.contains(s[0]));
                    list::lemma_without(s, s[0]);
                    assert(s[s.index_of(s[0])] == s[0]);
                    assert(s.index_of(s[0]) == 0);
                    assert(list::without(s, s[0]) =~= s.skip(1));
                }
                self.nr_free -= 1;
                let ghost mid = pages@;
                clear_free_head(&mut pages[idx]);
                proof {
                    let t = s.skip(1);
                    list::lemma_ring_frame(mid, pages@, self.free_list.head@, t);
                    self.free_list.lemma_nodes(pages@, t);
                }
                Some(idx)
            },
        }
    }

    /// Iterates the block heads of this order, front to back.
    pub fn iter<'p>(&self, pages: &'p [Page]) -> (iter: FreeListIter<'p>)
        ensures
            iter.pages@ == pages@,
            iter.head == self.free_list.head,
            iter.next == self.free_list.head,
            self.wf(pages@) ==> iter.at(self.nodes(pages@), 0),
    {
        self.free_list.iter(pages)
    }
}

/// Clears the free-head state of an unlinked block head.
fn clear_free_head(page: &mut Page)
    ensures
        !final(page).listed(),
        final(page).flags.bits == old(page).flags.bits & !1u8,
        final(page).order == 0,
        final(page).held_order == old(page).held_order,
        final(page).refcount == old(page).refcount,
        final(page).next == old(page).next,
        final(page).prev == old(page).prev,
{
    page.flags.remove(PageFlags::buddy());
    page.order = 0;
}

} // verus!
