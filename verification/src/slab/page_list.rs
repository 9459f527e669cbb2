//! The doubly linked list of the pages that still have a free slot. Pages
//! are named by their base address; the address zero stands for "none".

use std::collections::HashMap;
use vstd::prelude::*;

verus! {

/// The two links of a page in the list: the addresses of the page before it
/// and of the page after it, zero where there is none.
#[derive(Debug, Clone, Copy, PartialEq, Eq, Structural)]
pub struct PageLink {
    pub prev: usize,
    pub next: usize,
}

impl PageLink {
    /// The links of a page that stands in no list.
    pub fn null() -> (r: Self)
        ensures
            r == (PageLink { prev: 0, next: 0 }),
    {
        PageLink { prev: 0, next: 0 }
    }
}

/// The links that the page at place `i` of `order` must have.
pub open spec fn link_at(order: Seq<usize>, i: int) -> PageLink {
    PageLink {
        prev: if i == 0 {
            0
        } else {
            order[i - 1]
        },
        next: if i == order.len() - 1 {
            0
        } else {
            order[i + 1]
        },
    }
}

/// The links of `node` in a list with the pages `order`: those of its place,
/// or none where it is not in the list.
pub open spec fn link_of(order: Seq<usize>, node: usize) -> PageLink {
    if order.contains(node) {
        link_at(order, order.index_of(node))
    } else {
        PageLink { prev: 0, next: 0 }
    }
}

/// A doubly linked list of pages with a head and a tail.
pub struct PageList {
    head: usize,
    tail: usize,
    links: HashMap<usize, PageLink>,
    order: Ghost<Seq<usize>>,
}

impl View for PageList {
    type V = Seq<usize>;

    /// The pages of the list, from head to tail.
    closed spec fn view(&self) -> Seq<usize> {
        self.order@
    }
}

impl PageList {
    /// The links agree with the order of the pages: no page stands in the
    /// list twice, none has the address zero, and each is linked to its
    /// neighbours.
    pub closed spec fn wf(&self) -> bool {
        let order = self.order@;
        &&& order.no_duplicates()
        &&& forall|i: int| 0 <= i < order.len() ==> #[trigger] order[i] != 0
        &&& forall|k: usize| #[trigger] self.links@.contains_key(k) <==> order.contains(k)
        &&& self.head == if order.len() == 0 {
            0
        } else {
            order[0]
        }
        &&& self.tail == if order.len() == 0 {
            0
        } else {
            order[order.len() - 1]
        }
        &&& forall|i: int|
            0 <= i < order.len() ==> self.links@[#[trigger] order[i]] == link_at(order, i)
    }

    /// A list holds each page at most once, and never the address zero.
    pub proof fn lemma_distinct(&self)
        requires
            self.wf(),
        ensures
            self@.no_duplicates(),
            !self@.contains(0),
    {
    }

    /// An empty list.
    pub fn new() -> (r: Self)
        ensures
            r.wf(),
            r@ == Seq::<usize>::empty(),
    {
        broadcast use vstd::std_specs::hash::group_hash_axioms;

        let r = PageList { head: 0, tail: 0, links: HashMap::new(), order: Ghost(Seq::empty()) };
        r
    }

    /// The first page of the list, or zero where the list is empty.
    pub fn head(&self) -> (r: usize)
        requires
            self.wf(),
        ensures
            r == if self@.len() == 0 {
                0
            } else {
                self@[0]
            },
            r != 0 <==> self@.len() > 0,
    {
        self.head
    }

    /// The last page of the list, or zero where the list is empty.
    pub fn tail(&self) -> (r: usize)
        requires
            self.wf(),
        ensures
            r == if self@.len() == 0 {
                0
            } else {
                self@[self@.len() - 1]
            },
            r != 0 <==> self@.len() > 0,
    {
        self.tail
    }

    /// Whether the list holds no page.
    pub fn is_empty(&self) -> (r: bool)
        requires
            self.wf(),
        ensures
            r == (self@.len() == 0),
    {
        self.head == 0
    }

    /// Whether `node` stands in the list.
    pub fn contains(&self, node: usize) -> (r: bool)
        requires
            self.wf(),
        ensures
            r == self@.contains(node),
    {
        broadcast use vstd::std_specs::hash::group_hash_axioms;

        self.links.contains_key(&node)
    }

    /// The links of `node`: its neighbours in the list, or no links where it
    /// does not stand in the list.
    pub fn link(&self, node: usize) -> (r: PageLink)
        requires
            self.wf(),
        ensures
            r == link_of(self@, node),
    {
        broadcast use vstd::std_specs::hash::group_hash_axioms;

        match self.links.get(&node) {
            Some(l) => {
                proof {
                    let i = self@.index_of(node);
                    assert(self@[i] == node);
                }
                *l
            },
            None => PageLink::null(),
        }
    }

    /// Makes `node` the only page of an empty list.
    pub fn assign_singleton(&mut self, node: usize)
        requires
            old(self).wf(),
            old(self)@.len() == 0,
            node != 0,
        ensures
            final(self).wf(),
            final(self)@ == seq![node],
            forall|k: usize| final(self)@.contains(k) == (k == node),
    {
        broadcast use vstd::std_specs::hash::group_hash_axioms;

        self.head = node;
        self.tail = node;
        self.links.insert(node, PageLink::null());
        self.order = Ghost(Seq::empty().push(node));
        proof {
            let order = self.order@;
            assert(order =~= seq![node]);
            assert forall|k: usize| #[trigger] self.links@.contains_key(k) <==> order.contains(
                k,
            ) by {
                if k == node {
                    assert(order[0] == node);
                }
            }
            assert forall|k: usize| order.contains(k) == (k == node) by {
                if k == node {
                    assert(order[0] == node);
                }
            }
        }
    }

    /// Appends `node`, which stands in no list, at the tail.
    pub fn push_back(&mut self, node: usize)
        requires
            old(self).wf(),
            node != 0,
            !old(self)@.contains(node),
        ensures
            final(self).wf(),
            final(self)@ == old(self)@.push(node),
            final(self)@.contains(node),
            forall|k: usize| k != node ==> final(self)@.contains(k) == old(self)@.contains(k),
    {
        broadcast use vstd::std_specs::hash::group_hash_axioms;

        let ghost before = self.order@;
        let tail = self.tail;
        if tail != 0 {
            let mut last = *self.links.get(&tail).unwrap();
            last.next = node;
            self.links.insert(tail, last);
        } else {
            self.head = node;
        }
        self.links.insert(node, PageLink { prev: tail, next: 0 });
        self.tail = node;
        self.order = Ghost(before.push(node));
        proof {
            let order = self.order@;
            let n = before.len() as int;
            assert(order[n] == node);
            assert forall|k: usize| k != node implies order.contains(k) == before.contains(k) by {
                if before.contains(k) {
                    let i = before.index_of(k);
                    assert(order[i] == k);
                }
                if order.contains(k) {
                    let i = order.index_of(k);
                    assert(before[i] == k);
                }
            }
            assert forall|k: usize| #[trigger] self.links@.contains_key(k) <==> order.contains(
                k,
            ) by {
                if before.contains(k) {
                    let i = before.index_of(k);
                    assert(order[i] == k);
                }
                if order.contains(k) && k != node {
                    let i = order.index_of(k);
                    assert(before[i] == k);
                }
            }
            assert forall|i: int| 0 <= i < order.len() implies self.links@[#[trigger] order[i]]
                == link_at(order, i) by {
                if i < n {
                    assert(before[i] == order[i]);
                    assert(old(self).links@[before[i]] == link_at(before, i));
                    if i > 0 {
                        assert(before[i - 1] == order[i - 1]);
                    }
                    if i < n - 1 {
                        assert(before[i + 1] == order[i + 1]);
                    }
                }
            }
        }
    }

    /// Takes `node`, which stands in the list, out of it.
    pub fn remove(&mut self, node: usize)
        requires
            old(self).wf(),
            old(self)@.contains(node),
        ensures
            final(self).wf(),
            final(self)@ == old(self)@.remove(old(self)@.index_of(node)),
            !final(self)@.contains(node),
            forall|k: usize| k != node ==> final(self)@.contains(k) == old(self)@.contains(k),
    {
        broadcast use vstd::std_specs::hash::group_hash_axioms;

        let ghost before = self.order@;
        let ghost at = before.index_of(node);
        let ghost n = before.len() as int;
        proof {
            assert(before[at] == node);
            before.remove_ensures(at);
        }
        let link = *self.links.get(&node).unwrap();
        assert(link == link_at(before, at));
        if link.prev != 0 {
            proof {
                assert(before[at - 1] == link.prev);
            }
            let mut p = *self.links.get(&link.prev).unwrap();
            p.next = link.next;
            self.links.insert(link.prev, p);
        } else {
            self.head = link.next;
        }
        if link.next != 0 {
            proof {
                assert(before[at + 1] == link.next);
            }
            let mut q = *self.links.get(&link.next).unwrap();
            q.prev = link.prev;
            self.links.insert(link.next, q);
        } else {
            self.tail = link.prev;
        }
        self.links.remove(&node);
        self.order = Ghost(before.remove(at));
        proof {
            let order = self.order@;
            assert forall|k: usize| k != node implies order.contains(k) == before.contains(k) by {
                if before.contains(k) {
                    let i = before.index_of(k);
                    if i < at {
                        assert(order[i] == k);
                    } else {
                        assert(order[i - 1] == k);
                    }
                }
                if order.contains(k) {
                    let i = order.index_of(k);
                    if i < at {
                        assert(before[i] == k);
                    } else {
                        assert(before[i + 1] == k);
                    }
                }
            }
            assert(!order.contains(node)) by {
                if order.contains(node) {
                    let i = order.index_of(node);
                    if i < at {
                        assert(before[i] == node);
                    } else {
                        assert(before[i + 1] == node);
                    }
                }
            }
            assert forall|i: int| 0 <= i < order.len() implies self.links@[#[trigger] order[i]]
                == link_at(order, i) by {
                let j = if i < at {
                    i
                } else {
                    i + 1
                };
                assert(before[j] == order[i]);
                assert(old(self).links@[before[j]] == link_at(before, j));
                if j > 0 {
                    assert(before[j - 1] != before[j]);
                }
                if j < n - 1 {
                    assert(before[j + 1] != before[j]);
                }
            }
            assert(order.no_duplicates()) by {
                assert forall|i: int, j: int|
                    0 <= i < order.len() && 0 <= j < order.len() && i != j implies order[i]
                    != order[j] by {
                    let bi = if i < at {
                        i
                    } else {
                        i + 1
                    };
                    let bj = if j < at {
                        j
                    } else {
                        j + 1
                    };
                    assert(before[bi] == order[i]);
                    assert(before[bj] == order[j]);
                }
            }
        }
    }
}

} // verus!
