//! The index-based free list.

use crate::page::Page;
use vstd::prelude::*;

verus! {

/// An index into the page descriptor array, biased by one so that zero can
/// stand for the absent link.
#[derive(Clone, Copy, Debug, PartialEq, Eq, Structural)]
pub struct Link {
    pub biased: usize,
}

impl Link {
    /// Whether the link stands for an index.
    pub open spec fn wf(self) -> bool {
        self.biased != 0
    }

    /// The index that the link stands for.
    pub open spec fn target(self) -> int {
        self.biased - 1
    }

    /// Wraps `index`.
    pub fn new(index: usize) -> (link: Self)
        requires
            index < usize::MAX,
        ensures
            link.wf(),
            link.target() == index,
    {
        Link { biased: index + 1 }
    }

    /// Returns the page index.
    pub fn index(self) -> (index: usize)
        requires
            self.wf(),
        ensures
            index == self.target(),
    {
        self.biased - 1
    }
}

/// An optional link in one machine word: zero is the absent link.
#[derive(Clone, Copy, Debug, PartialEq, Eq, Structural)]
pub struct LinkSlot {
    pub word: usize,
}

impl View for LinkSlot {
    type V = Option<int>;

    open spec fn view(&self) -> Option<int> {
        if self.word == 0 {
            None
        } else {
            Some(self.word - 1)
        }
    }
}

impl LinkSlot {
    /// The absent link.
    pub fn vacant() -> (slot: Self)
        ensures
            slot@ is None,
    {
        LinkSlot { word: 0 }
    }

    /// The slot that holds `link`.
    pub fn holding(link: Link) -> (slot: Self)
        requires
            link.wf(),
        ensures
            slot@ == Some(link.target()),
    {
        LinkSlot { word: link.biased }
    }

    /// Returns the link, if there is one.
    pub fn get(self) -> (link: Option<Link>)
        ensures
            match link {
                Some(link) => link.wf() && self@ == Some(link.target()),
                None => self@ is None,
            },
    {
        if self.word == 0 {
            None
        } else {
            Some(Link { biased: self.word })
        }
    }

    /// Returns `true` if the link is absent.
    pub fn is_none(&self) -> (vacant: bool)
        ensures
            vacant == (self@ is None),
    {
        self.word == 0
    }
}

/// The element that follows position `k` in the circular sequence `s`.
pub open spec fn succ(s: Seq<int>, k: int) -> int {
    if k + 1 == s.len() {
        s[0]
    } else {
        s[k + 1]
    }
}

/// The element that precedes position `k` in the circular sequence `s`.
pub open spec fn pred(s: Seq<int>, k: int) -> int {
    if k == 0 {
        s[s.len() - 1]
    } else {
        s[k - 1]
    }
}

/// `head` and the links in `pages` form the circular doubly linked list
/// whose nodes are `s`, front to back.
pub open spec fn is_ring(pages: Seq<Page>, head: Option<int>, s: Seq<int>) -> bool {
    &&& head == (if s.len() == 0 {
        None
    } else {
        Some(s[0])
    })
    &&& s.no_duplicates()
    &&& forall|k: int| 0 <= k < s.len() ==> 0 <= #[trigger] s[k] < pages.len()
    &&& forall|k: int|
        0 <= k < s.len() ==> (#[trigger] pages[s[k]]).next@ == Some(succ(s, k)) && pages[s[k]].prev@
            == Some(pred(s, k))
}

/// `after` differs from `before` at most in the links of the pages in
/// `touched`.
pub open spec fn relinked(before: Seq<Page>, after: Seq<Page>, touched: Seq<int>) -> bool {
    &&& before.len() == after.len()
    &&& forall|p: int|
        #![trigger after[p]]
        0 <= p < after.len() ==> {
            &&& after[p].flags == before[p].flags
            &&& after[p].order == before[p].order
            &&& after[p].held_order == before[p].held_order
            &&& after[p].refcount == before[p].refcount
            &&& !touched.contains(p) ==> after[p] == before[p]
        }
}

/// `s` without the element `x`, which it holds once.
pub open spec fn without(s: Seq<int>, x: int) -> Seq<int> {
    s.remove(s.index_of(x))
}

/// A head and its links form at most one list.
pub proof fn lemma_ring_unique(pages: Seq<Page>, head: Option<int>, s: Seq<int>, t: Seq<int>)
    requires
        is_ring(pages, head, s),
        is_ring(pages, head, t),
    ensures
        s == t,
{
    if s.len() != 0 {
        let m = if s.len() < t.len() {
            s.len() as int
        } else {
            t.len() as int
        };
        assert forall|k: int| 0 <= k < m implies s[k] == t[k] by {
            lemma_ring_prefix(pages, head, s, t, k);
        }
        if s.len() < t.len() {
            let k = s.len() - 1;
            assert(pages[s[k]].next@ == Some(succ(s, k)));
            assert(pages[t[k]].next@ == Some(succ(t, k)));
            assert(t[k + 1] == t[0]);
        } else if t.len() < s.len() {
            let k = t.len() - 1;
            assert(pages[s[k]].next@ == Some(succ(s, k)));
            assert(pages[t[k]].next@ == Some(succ(t, k)));
            assert(s[k + 1] == s[0]);
        }
    }
    assert(s =~= t);
}

proof fn lemma_ring_prefix(
    pages: Seq<Page>,
    head: Option<int>,
    s: Seq<int>,
    t: Seq<int>,
    k: int,
)
    requires
        is_ring(pages, head, s),
        is_ring(pages, head, t),
        0 <= k < s.len(),
        k < t.len(),
    ensures
        s[k] == t[k],
    decreases k,
{
    if k > 0 {
        lemma_ring_prefix(pages, head, s, t, k - 1);
        assert(pages[s[k - 1]].next@ == Some(succ(s, k - 1)));
        assert(pages[t[k - 1]].next@ == Some(succ(t, k - 1)));
    }
}

/// A list stays the same list while the links of its own nodes do.
pub proof fn lemma_ring_frame(
    before: Seq<Page>,
    after: Seq<Page>,
    head: Option<int>,
    s: Seq<int>,
)
    requires
        is_ring(before, head, s),
        after.len() == before.len(),
        forall|k: int|
            0 <= k < s.len() ==> (#[trigger] after[s[k]]).next == before[s[k]].next && after[s[k]].prev
                == before[s[k]].prev,
    ensures
        is_ring(after, head, s),
{
    assert forall|k: int| 0 <= k < s.len() implies (#[trigger] after[s[k]]).next@ == Some(
        succ(s, k),
    ) && after[s[k]].prev@ == Some(pred(s, k)) by {
        assert(before[s[k]].next@ == Some(succ(s, k)));
    }
}

/// What `without` keeps.
pub proof fn lemma_without(s: Seq<int>, x: int)
    requires
        s.no_duplicates(),
        s.contains(x),
    ensures
        without(s, x).len() == s.len() - 1,
        without(s, x).no_duplicates(),
        forall|y: int| #[trigger] without(s, x).contains(y) <==> s.contains(y) && y != x,
{
    let i = s.index_of(x);
    let t = without(s, x);
    assert(forall|k: int| 0 <= k < i ==> t[k] == s[k]);
    assert(forall|k: int| i <= k < t.len() ==> t[k] == s[k + 1]);
    assert forall|y: int| #[trigger] t.contains(y) <==> s.contains(y) && y != x by {
        if t.contains(y) {
            let k = choose|k: int| 0 <= k < t.len() && t[k] == y;
            if k < i {
                assert(s[k] == y);
            } else {
                assert(s[k + 1] == y);
            }
        }
        if s.contains(y) && y != x {
            let k = choose|k: int| 0 <= k < s.len() && s[k] == y;
            if k < i {
                assert(t[k] == y);
            } else {
                assert(t[k - 1] == y);
            }
        }
    }
}

/// What is left without an element is what stands before it followed by what
/// stands after it.
pub proof fn law_without(s: Seq<int>, x: int, j: int)
    requires
        s.no_duplicates(),
        0 <= j < s.len(),
        s[j] == x,
    ensures
        without(s, x) == s.subrange(0, j) + s.subrange(j + 1, s.len() as int),
{
    let i = s.index_of(x);
    assert(s[i] == x);
    assert(i == j);
}

/// The head of a circular doubly linked list of page indices.
#[derive(Clone, Copy, Debug, PartialEq, Eq, Structural)]
pub struct FreeList {
    pub head: LinkSlot,
}

impl FreeList {
    /// The list is well formed over `pages`.
    pub open spec fn wf(self, pages: Seq<Page>) -> bool {
        exists|s: Seq<int>| is_ring(pages, self.head@, s)
    }

    /// The nodes of the list, front to back.
    pub open spec fn nodes(self, pages: Seq<Page>) -> Seq<int> {
        choose|s: Seq<int>| is_ring(pages, self.head@, s)
    }

    /// `s` is the list that the head and the links form.
    pub proof fn lemma_nodes(self, pages: Seq<Page>, s: Seq<int>)
        requires
            is_ring(pages, self.head@, s),
        ensures
            self.wf(pages),
            self.nodes(pages) == s,
    {
        lemma_ring_unique(pages, self.head@, s, self.nodes(pages));
    }

    /// The empty list.
    pub fn new() -> (list: Self)
        ensures
            forall|pages: Seq<Page>| #[trigger] list.wf(pages),
            forall|pages: Seq<Page>| #[trigger] list.nodes(pages) == Seq::<int>::empty(),
            list.head@ is None,
    {
        let list = FreeList { head: LinkSlot::vacant() };
        proof {
            assert forall|pages: Seq<Page>| #[trigger] list.wf(pages) by {
                assert(is_ring(pages, list.head@, Seq::<int>::empty()));
            }
            assert forall|pages: Seq<Page>| #[trigger]
                list.nodes(pages) == Seq::<int>::empty() by {
                list.lemma_nodes(pages, Seq::<int>::empty());
            }
        }
        list
    }

    /// Links `idx` between the tail and the head of a non-empty list.
    fn splice(head: Link, pages: &mut [Page], idx: usize, Ghost(s): Ghost<Seq<int>>)
        requires
            head.wf(),
            is_ring(old(pages)@, Some(head.target()), s),
            s.len() > 0,
            idx < old(pages)@.len(),
            !s.contains(idx as int),
        ensures
            relinked(old(pages)@, final(pages)@, s.push(idx as int)),
            is_ring(final(pages)@, Some(idx as int), seq![idx as int] + s),
            is_ring(final(pages)@, Some(head.target()), s.push(idx as int)),
    {
        let link = Link::new(idx);
        let ghost before = pages@;
        let ghost n = s.len() as int;
        assert(pages@[s[0]].prev@ == Some(s[n - 1]));
        let h: usize = head.index();
        match pages[h].prev.get() {
            Some(tail) => {
                let t: usize = tail.index();
                pages[idx].next = LinkSlot::holding(head);
                pages[idx].prev = LinkSlot::holding(tail);
                pages[h].prev = LinkSlot::holding(link);
                pages[t].next = LinkSlot::holding(link);
                proof {
                    let i = idx as int;
                    let front = seq![i] + s;
                    let back = s.push(i);
                    assert(back[n] == i);
                    assert(forall|k: int| 0 <= k < n ==> back[k] == s[k]);
                    assert(back.contains(i));
                    assert(back.contains(s[0]));
                    assert(back.contains(s[n - 1]));
                    assert forall|k: int| 0 <= k < n implies {
                        &&& (#[trigger] pages@[s[k]]).next@ == Some(
                            if k + 1 == n {
                                i
                            } else {
                                s[k + 1]
                            },
                        )
                        &&& pages@[s[k]].prev@ == Some(
                            if k == 0 {
                                i
                            } else {
                                s[k - 1]
                            },
                        )
                    } by {
                        assert(before[s[k]].next@ == Some(succ(s, k)));
                        assert(s[k] != i);
                    }
                    assert(front[0] == i);
                    assert(forall|k: int| 1 <= k <= n ==> front[k] == s[k - 1]);
                    assert forall|k: int| 0 <= k < front.len() implies (
                    #[trigger] pages@[front[k]]).next@ == Some(succ(front, k))
                        && pages@[front[k]].prev@ == Some(pred(front, k)) by {
                        if k > 0 {
                            assert(front[k] == s[k - 1]);
                        }
                    }
                    assert forall|k: int| 0 <= k < back.len() implies (
                    #[trigger] pages@[back[k]]).next@ == Some(succ(back, k))
                        && pages@[back[k]].prev@ == Some(pred(back, k)) by {
                        if k < n {
                            assert(back[k] == s[k]);
                        }
                    }
                }
            },
            None => {},
        }
    }

    /// Inserts `idx` at the front.
    pub fn push_front(&mut self, pages: &mut [Page], idx: usize)
        requires
            old(self).wf(old(pages)@),
            idx < old(pages)@.len(),
            !old(self).nodes(old(pages)@).contains(idx as int),
        ensures
            final(self).wf(final(pages)@),
            final(self).nodes(final(pages)@) == seq![idx as int] + old(self).nodes(old(pages)@),
            relinked(
                old(pages)@,
                final(pages)@,
                old(self).nodes(old(pages)@).push(idx as int),
            ),
    {
        let ghost s = self.nodes(pages@);
        let link = Link::new(idx);
        match self.head.get() {
            None => {
                pages[idx].next = LinkSlot::holding(link);
                pages[idx].prev = LinkSlot::holding(link);
                assert(s.push(idx as int)[s.len() as int] == idx);
            },
            Some(head) => {
                Self::splice(head, pages, idx, Ghost(s));
            },
        }
        self.head = LinkSlot::holding(link);
        proof {
            assert(is_ring(pages@, self.head@, seq![idx as int] + s));
            self.lemma_nodes(pages@, seq![idx as int] + s);
        }
    }

    /// Inserts `idx` at the back.
    pub fn push_back(&mut self, pages: &mut [Page], idx: usize)
        requires
            old(self).wf(old(pages)@),
            idx < old(pages)@.len(),
            !old(self).nodes(old(pages)@).contains(idx as int),
        ensures
            final(self).wf(final(pages)@),
            final(self).nodes(final(pages)@) == old(self).nodes(old(pages)@).push(idx as int),
            relinked(
                old(pages)@,
                final(pages)@,
                old(self).nodes(old(pages)@).push(idx as int),
            ),
    {
        let ghost s = self.nodes(pages@);
        let link = Link::new(idx);
        match self.head.get() {
            None => {
                pages[idx].next = LinkSlot::holding(link);
                pages[idx].prev = LinkSlot::holding(link);
                self.head = LinkSlot::holding(link);
                assert(s.push(idx as int)[s.len() as int] == idx);
            },
            Some(head) => {
                Self::splice(head, pages, idx, Ghost(s));
            },
        }
        proof {
            assert(is_ring(pages@, self.head@, s.push(idx as int)));
            self.lemma_nodes(pages@, s.push(idx as int));
        }
    }

    /// Unlinks `idx`, which must currently be on this list.
    pub fn remove(&mut self, pages: &mut [Page], idx: usize)
        requires
            old(self).wf(old(pages)@),
            old(self).nodes(old(pages)@).contains(idx as int),
        ensures
            final(self).wf(final(pages)@),
            final(self).nodes(final(pages)@) == without(old(self).nodes(old(pages)@), idx as int),
            forall|j: int|
                0 <= j < old(self).nodes(old(pages)@).len() && #[trigger] old(self).nodes(
                    old(pages)@,
                )[j] == idx ==> final(self).nodes(final(pages)@) == old(self).nodes(
                    old(pages)@,
                ).subrange(0, j) + old(self).nodes(old(pages)@).subrange(
                    j + 1,
                    old(self).nodes(old(pages)@).len() as int,
                ),
            relinked(old(pages)@, final(pages)@, old(self).nodes(old(pages)@)),
            final(pages)@[idx as int].next@ is None,
            final(pages)@[idx as int].prev@ is None,
    {
        let ghost s = self.nodes(pages@);
        let ghost n = s.len() as int;
        let ghost i = s.index_of(idx as int);
        let ghost t = without(s, idx as int);
        let ghost before = pages@;
        assert(s[i] == idx);
        assert(pages@[s[i]].next@ == Some(succ(s, i)));
        assert(idx < pages.len());
        let link = Link::new(idx);
        match (pages[idx].next.get(), pages[idx].prev.get()) {
            (Some(next), Some(prev)) => {
                if next.index() == link.index() {
                    self.head = LinkSlot::vacant();
                } else {
                    let x: usize = next.index();
                    let y: usize = prev.index();
                    pages[x].prev = LinkSlot::holding(prev);
                    pages[y].next = LinkSlot::holding(next);
                    match self.head.get() {
                        Some(head) => {
                            if head.index() == link.index() {
                                self.head = LinkSlot::holding(next);
                            }
                        },
                        None => {},
                    }
                }
            },
            _ => {},
        }
        pages[idx].next = LinkSlot::vacant();
        pages[idx].prev = LinkSlot::vacant();
        proof {
            lemma_without(s, idx as int);
            assert(s.contains(succ(s, i)));
            assert(s.contains(pred(s, i)));
            assert(forall|k: int| 0 <= k < i ==> t[k] == s[k]);
            assert(forall|k: int| i <= k < t.len() ==> t[k] == s[k + 1]);
            assert forall|k: int| 0 <= k < t.len() implies (#[trigger] pages@[t[k]]).next@ == Some(
                succ(t, k),
            ) && pages@[t[k]].prev@ == Some(pred(t, k)) by {
                let j = if k < i {
                    k
                } else {
                    k + 1
                };
                assert(t[k] == s[j]);
                assert(s[j] != idx);
                assert(before[s[j]].next@ == Some(succ(s, j)));
                assert(before[s[j]].prev@ == Some(pred(s, j)));
            }
            assert(is_ring(pages@, self.head@, t));
            self.lemma_nodes(pages@, t);
            assert forall|j: int| 0 <= j < s.len() && #[trigger] s[j] == idx implies t == s.subrange(
                0,
                j,
            ) + s.subrange(j + 1, s.len() as int) by {
                law_without(s, idx as int, j);
            }
        }
    }

    /// Removes and returns the front node.
    pub fn pop_front(&mut self, pages: &mut [Page]) -> (front: Option<usize>)
        requires
            old(self).wf(old(pages)@),
        ensures
            final(self).wf(final(pages)@),
            ({
                let s = old(self).nodes(old(pages)@);
                match front {
                    Some(idx) => {
                        &&& s.len() > 0
                        &&& idx == s[0]
                        &&& final(self).nodes(final(pages)@) == s.skip(1)
                        &&& relinked(old(pages)@, final(pages)@, s)
                        &&& final(pages)@[idx as int].next@ is None
                        &&& final(pages)@[idx as int].prev@ is None
                    },
                    None => s.len() == 0 && *final(self) == *old(self) && final(pages)@ == old(
                        pages,
                    )@,
                }
            }),
    {
        let ghost s = self.nodes(pages@);
        match self.head.get() {
            None => None,
            Some(head) => {
                let idx: usize = head.index();
                assert(s[0] == idx);
                self.remove(pages, idx);
                proof {
                    assert(s.contains(idx as int));
                    let i = s.index_of(idx as int);
                    assert(s[i] == s[0]);
                    assert(i == 0);
                    assert(without(s, idx as int) =~= s.skip(1));
                }
                Some(idx)
            },
        }
    }

    /// Iterates the list from front to back.
    pub fn iter<'p>(&self, pages: &'p [Page]) -> (iter: FreeListIter<'p>)
        ensures
            iter.pages@ == pages@,
            iter.head == self.head,
            iter.next == self.head,
            self.wf(pages@) ==> iter.at(self.nodes(pages@), 0),
    {
        FreeListIter { pages, head: self.head, next: self.head }
    }
}

/// Iterator over the page indices of a [`FreeList`].
#[derive(Clone, Copy, Debug)]
pub struct FreeListIter<'p> {
    pub pages: &'p [Page],
    pub head: LinkSlot,
    pub next: LinkSlot,
}

/// The node that a walk of the list with the given head visits after `idx`.
pub open spec fn following(pages: Seq<Page>, head: Option<int>, idx: int) -> Option<int> {
    if pages[idx].next@ == head {
        None
    } else {
        pages[idx].next@
    }
}

impl<'p> FreeListIter<'p> {
    /// The iterator walks the list `s` and has passed its first `k` nodes.
    pub open spec fn at(self, s: Seq<int>, k: int) -> bool {
        &&& is_ring(self.pages@, self.head@, s)
        &&& 0 <= k <= s.len()
        &&& self.next@ == (if k < s.len() {
            Some(s[k])
        } else {
            None
        })
    }

    /// Returns the next node and moves on to the one that it links to.
    pub fn next(&mut self) -> (idx: Option<usize>)
        requires
            match old(self).next@ {
                Some(i) => 0 <= i < old(self).pages@.len() && old(self).pages@[i].next@ is Some,
                None => true,
            },
        ensures
            final(self).pages@ == old(self).pages@,
            final(self).head == old(self).head,
            match idx {
                Some(i) => old(self).next@ == Some(i as int) && final(self).next@ == following(
                    old(self).pages@,
                    old(self).head@,
                    i as int,
                ),
                None => old(self).next@ is None && *final(self) == *old(self),
            },
            forall|s: Seq<int>, k: int| #[trigger]
                old(self).at(s, k) ==> if k < s.len() {
                    idx == Some(s[k] as usize) && final(self).at(s, k + 1)
                } else {
                    idx is None
                },
    {
        let ghost start = *self;
        match self.next.get() {
            None => None,
            Some(current) => {
                let idx: usize = current.index();
                let link = self.pages[idx].next;
                if link == self.head {
                    self.next = LinkSlot::vacant();
                } else {
                    self.next = link;
                }
                proof {
                    assert forall|s: Seq<int>, k: int| #[trigger] start.at(s, k) implies idx
                        == s[k] && self.at(s, k + 1) by {
                        assert(start.pages@[s[k]].next@ == Some(succ(s, k)));
                        if k + 1 < s.len() {
                            assert(s[k + 1] != s[0]);
                        }
                    }
                }
                Some(idx)
            },
        }
    }

    /// The nodes that are still to come are `rest`: following the links from
    /// here on visits them in order and then ends.
    pub open spec fn runs(self, rest: Seq<int>) -> bool {
        &&& self.next@ == (if rest.len() == 0 {
            None
        } else {
            Some(rest[0])
        })
        &&& forall|j: int|
            0 <= j < rest.len() ==> {
                let idx = #[trigger] rest[j];
                &&& 0 <= idx < self.pages@.len()
                &&& self.pages@[idx].next@ is Some
                &&& following(self.pages@, self.head@, idx) == later(rest, j)
            }
    }

    /// In a well-formed list the nodes from the iterator's position on are
    /// still to come.
    pub proof fn lemma_runs(self, s: Seq<int>, k: int)
        requires
            self.at(s, k),
        ensures
            self.runs(s.skip(k)),
    {
        let rest = s.skip(k);
        assert forall|j: int| 0 <= j < rest.len() implies {
            let idx = #[trigger] rest[j];
            &&& 0 <= idx < self.pages@.len()
            &&& self.pages@[idx].next@ is Some
            &&& following(self.pages@, self.head@, idx) == later(rest, j)
        } by {
            assert(rest[j] == s[k + j]);
            assert(self.pages@[s[k + j]].next@ == Some(succ(s, k + j)));
            if k + j + 1 < s.len() {
                assert(s[k + j + 1] != s[0]);
                assert(rest[j + 1] == s[k + j + 1]);
            }
        }
    }

    /// Returns the nodes that are still to come, in order.
    pub fn collect(self) -> (nodes: Vec<usize>)
        requires
            (exists|rest: Seq<int>| self.runs(rest)) || (exists|s: Seq<int>, k: int| self.at(s, k)),
        ensures
            forall|rest: Seq<int>| #[trigger]
                self.runs(rest) ==> nodes@.map_values(|i: usize| i as int) == rest,
            forall|s: Seq<int>, k: int| #[trigger]
                self.at(s, k) ==> nodes@.map_values(|i: usize| i as int) == s.skip(k),
    {
        let mut iter = self;
        let mut nodes: Vec<usize> = Vec::new();
        let ghost whole = choose|rest: Seq<int>| self.runs(rest);
        proof {
            assert forall|s: Seq<int>, k: int| #[trigger] self.at(s, k) implies self.runs(
                s.skip(k),
            ) by {
                self.lemma_runs(s, k);
            }
            assert(whole.skip(0) =~= whole);
        }
        loop
            invariant
                self.runs(whole),
                iter.pages@ == self.pages@,
                iter.head == self.head,
                nodes@.len() <= whole.len(),
                iter.next@ == (if nodes@.len() < whole.len() {
                    Some(whole[nodes@.len() as int])
                } else {
                    None
                }),
                forall|j: int| 0 <= j < nodes@.len() ==> nodes@[j] == whole[j],
            ensures
                nodes@.len() == whole.len(),
            decreases whole.len() - nodes@.len(),
        {
            let ghost j = nodes@.len() as int;
            assert(j < whole.len() ==> 0 <= whole[j] < self.pages@.len());
            match iter.next() {
                Some(idx) => {
                    nodes.push(idx);
                },
                None => {
                    break;
                },
            }
        }
        proof {
            let found = nodes@.map_values(|i: usize| i as int);
            assert(found =~= whole);
            assert forall|rest: Seq<int>| #[trigger] self.runs(rest) implies found == rest by {
                lemma_runs_unique(self, whole, rest);
            }
        }
        nodes
    }

    /// Returns the number of nodes that are still to come.
    pub fn count(self) -> (count: usize)
        requires
            (exists|rest: Seq<int>| self.runs(rest)) || (exists|s: Seq<int>, k: int| self.at(s, k)),
        ensures
            forall|rest: Seq<int>| #[trigger] self.runs(rest) ==> count == rest.len(),
            forall|s: Seq<int>, k: int| #[trigger] self.at(s, k) ==> count == s.len() - k,
    {
        let mut iter = self;
        let mut count: usize = 0;
        let ghost whole = choose|rest: Seq<int>| self.runs(rest);
        proof {
            assert forall|s: Seq<int>, k: int| #[trigger] self.at(s, k) implies self.runs(
                s.skip(k),
            ) by {
                self.lemma_runs(s, k);
            }
            lemma_runs_bounded(self, whole);
            assert(whole.len() <= self.pages.len());
        }
        loop
            invariant
                self.runs(whole),
                whole.len() <= usize::MAX,
                iter.pages@ == self.pages@,
                iter.head == self.head,
                count <= whole.len(),
                iter.next@ == (if count < whole.len() {
                    Some(whole[count as int])
                } else {
                    None
                }),
            ensures
                count == whole.len(),
            decreases whole.len() - count,
        {
            assert(count < whole.len() ==> 0 <= whole[count as int] < self.pages@.len());
            match iter.next() {
                Some(_) => {
                    count = count + 1;
                },
                None => {
                    break;
                },
            }
        }
        proof {
            assert forall|rest: Seq<int>| #[trigger] self.runs(rest) implies count
                == rest.len() by {
                lemma_runs_unique(self, whole, rest);
            }
        }
        count
    }
}

/// The element after position `j` of `rest`, if there is one.
pub open spec fn later(rest: Seq<int>, j: int) -> Option<int> {
    if j + 1 == rest.len() {
        None
    } else {
        Some(rest[j + 1])
    }
}

/// The nodes that are still to come are fixed by the iterator.
proof fn lemma_runs_unique(iter: FreeListIter<'_>, s: Seq<int>, t: Seq<int>)
    requires
        iter.runs(s),
        iter.runs(t),
    ensures
        s == t,
{
    let m = if s.len() < t.len() {
        s.len() as int
    } else {
        t.len() as int
    };
    assert forall|j: int| 0 <= j < m implies s[j] == t[j] by {
        lemma_runs_prefix(iter, s, t, j);
    }
    if m > 0 {
        assert(s[m - 1] == t[m - 1]);
    }
    assert(s =~= t);
}

proof fn lemma_runs_prefix(iter: FreeListIter<'_>, s: Seq<int>, t: Seq<int>, j: int)
    requires
        iter.runs(s),
        iter.runs(t),
        0 <= j < s.len(),
        j < t.len(),
    ensures
        s[j] == t[j],
    decreases j,
{
    if j > 0 {
        lemma_runs_prefix(iter, s, t, j - 1);
        assert(later(s, j - 1) == later(t, j - 1));
    }
}

/// A node that came twice would come again and again: after it, the same
/// nodes come as before.
proof fn lemma_runs_repeat(iter: FreeListIter<'_>, rest: Seq<int>, a: int, b: int, j: int)
    requires
        iter.runs(rest),
        0 <= a < b,
        0 <= j,
        b + j < rest.len(),
        rest[a] == rest[b],
    ensures
        rest[a + j] == rest[b + j],
    decreases j,
{
    if j > 0 {
        lemma_runs_repeat(iter, rest, a, b, j - 1);
        assert(later(rest, a + j - 1) == later(rest, b + j - 1));
    }
}

/// No node comes twice, so no more nodes come than there are descriptors.
proof fn lemma_runs_bounded(iter: FreeListIter<'_>, rest: Seq<int>)
    requires
        iter.runs(rest),
    ensures
        rest.no_duplicates(),
        rest.len() <= iter.pages@.len(),
{
    let n = rest.len() as int;
    assert forall|a: int, b: int| 0 <= a < b < n implies rest[a] != rest[b] by {
        if rest[a] == rest[b] {
            lemma_runs_repeat(iter, rest, a, b, n - 1 - b);
            assert(later(rest, a + (n - 1 - b)) == later(rest, n - 1));
        }
    }
    let all = vstd::set_lib::set_int_range(0, iter.pages@.len() as int);
    vstd::set_lib::lemma_int_range(0, iter.pages@.len() as int);
    rest.unique_seq_to_set();
    assert(rest.to_set().subset_of(all));
    vstd::set_lib::lemma_len_subset(rest.to_set(), all);
}

} // verus!
