//! The buddy allocator as a source of pages for the slab allocator.

use crate::buddy::block::{first_fit, span_of, BuddyBlock};
use crate::buddy::layout::{block_bytes, level_for, round_up_unit, unit_count, UNIT_SIZE};
use crate::buddy::tree::Node;
use crate::slab::geometry::PAGE_SIZE;
use crate::slab::provider::PageAllocator;
use vstd::arithmetic::power2::{lemma2_to64, pow2};
use vstd::prelude::*;

verus! {

/// A page provider that takes its pages, one unit each, from a buddy
/// allocator.
pub struct BuddyPageAllocator {
    buddy: BuddyBlock,
}

/// Whether the page at `addr` is handed out by `buddy` as a block of one
/// unit.
pub open spec fn page_held(buddy: BuddyBlock, addr: usize) -> bool {
    let at = addr - buddy.data_start();
    &&& at >= 0
    &&& at % (UNIT_SIZE as int) == 0
    &&& buddy.outstanding().contains_key((0, (at / (UNIT_SIZE as int)) as nat))
    &&& buddy.outstanding()[(0, (at / (UNIT_SIZE as int)) as nat)] == UNIT_SIZE
}

/// Whether `buddy` can serve as a source of pages: it is consistent, and its
/// data starts at a multiple of the unit size, is not at address zero, and
/// is a whole number of units long.
pub open spec fn serves_pages(buddy: BuddyBlock) -> bool {
    &&& buddy.wf()
    &&& buddy.data_start() % (UNIT_SIZE as nat) == 0
    &&& buddy.data_size() % (UNIT_SIZE as nat) == 0
    &&& buddy.layout().levels > 0 ==> buddy.data_start() > 0
}

impl BuddyPageAllocator {
    /// The buddy allocator behind the provider.
    pub closed spec fn source(&self) -> BuddyBlock {
        self.buddy
    }

    /// A page provider on top of `buddy`.
    pub fn new(buddy: BuddyBlock) -> (r: Self)
        requires
            serves_pages(buddy),
        ensures
            r.source() == buddy,
            r.inv(),
    {
        BuddyPageAllocator { buddy }
    }

    /// The buddy allocator behind the provider.
    pub fn buddy(&self) -> (r: &BuddyBlock)
        ensures
            *r == self.source(),
    {
        &self.buddy
    }
}

impl PageAllocator for BuddyPageAllocator {
    open spec fn inv(&self) -> bool {
        serves_pages(self.source())
    }

    open spec fn held(&self) -> Set<usize> {
        Set::new(|addr: usize| page_held(self.source(), addr))
    }

    /// Takes one unit from the buddy allocator as a page. A page is had
    /// exactly where the buddy allocator has a free block at all: the first
    /// free block of its lowest level that has one is split down to one
    /// unit, as an allocation of one unit does it. Where no block is free,
    /// nothing changes.
    fn allocate(&mut self) -> (r: Option<usize>)
        ensures
            final(self).source().layout() == old(self).source().layout(),
            r is None <==> (forall|n: Node| !old(self).source().free_blocks().contains(n)),
            r is None ==> {
                &&& final(self).source().free_blocks() == old(self).source().free_blocks()
                &&& final(self).source().outstanding() == old(self).source().outstanding()
                &&& final(self).source().used_bytes() == old(self).source().used_bytes()
            },
            r is Some ==> exists|n: Node|
                {
                    &&& first_fit(old(self).source().free_blocks(), 0, n)
                    &&& #[trigger] old(self).source().carved(
                        final(self).source(),
                        n,
                        0,
                        UNIT_SIZE as nat,
                        r->0 as nat,
                    )
                },
    {
        let ghost pre = self.buddy;
        proof {
            lemma2_to64();
            pre.lemma_layout_wf();
            assert(unit_count(UNIT_SIZE as nat) == 1);
            assert(level_for(1) == 0);
            assert(round_up_unit(UNIT_SIZE as nat) == UNIT_SIZE);
        }
        let r = self.buddy.allocate(UNIT_SIZE);
        proof {
            let post = self.buddy;
            match r {
                None => {
                    assert(self.held() =~= Set::new(|addr: usize| page_held(pre, addr)));
                },
                Some(addr) => {
                    let n = choose|n: Node|
                        {
                            &&& first_fit(pre.free_blocks(), 0, n)
                            &&& #[trigger] pre.carved(post, n, 0, UNIT_SIZE as nat, addr as nat)
                        };
                    let j = n.1 * pow2(n.0);
                    let grant: Node = (0, j);
                    assert(addr == pre.data_start() + j * UNIT_SIZE) by {
                        assert(n.1 * (UNIT_SIZE * pow2(n.0)) == (n.1 * pow2(n.0)) * UNIT_SIZE)
                            by (nonlinear_arith);
                    }
                    assert((addr - pre.data_start()) / (UNIT_SIZE as int) == j) by {
                        vstd::arithmetic::div_mod::lemma_fundamental_div_mod_converse(
                            j * UNIT_SIZE,
                            UNIT_SIZE as int,
                            j as int,
                            0,
                        );
                    }
                    assert((addr - pre.data_start()) % (UNIT_SIZE as int) == 0) by {
                        vstd::arithmetic::div_mod::lemma_fundamental_div_mod_converse(
                            j * UNIT_SIZE,
                            UNIT_SIZE as int,
                            j as int,
                            0,
                        );
                    }
                    assert(pre.is_free(n.0, n.1));
                    assert(n.1 < crate::buddy::layout::blocks_at(pre.layout().units, n.0));
                    crate::buddy::layout::lemma_blocks_at_le(pre.layout().units, n.0);
                    assert(pre.layout().levels > 0);
                    assert(addr != 0);
                    assert(addr % PAGE_SIZE == 0);
                    assert((n.0 - 0) as nat == n.0);
                    assert(!pre.outstanding().contains_key(grant));
                    assert(!page_held(pre, addr));
                    assert(post.outstanding() == pre.outstanding().insert(grant, UNIT_SIZE as nat));
                    assert(self.held() =~= Set::new(|a: usize| page_held(pre, a)).insert(addr)) by {
                        assert forall|a: usize| page_held(post, a) == (page_held(pre, a) || a
                            == addr) by {
                            let at = a - pre.data_start();
                            if at >= 0 && at % (UNIT_SIZE as int) == 0 {
                                let k = (at / (UNIT_SIZE as int)) as nat;
                                if k == j {
                                    assert(a == addr);
                                }
                            }
                        }
                    }
                },
            }
        }
        r
    }

    fn deallocate(&mut self, page: usize) {
        let ghost pre = self.buddy;
        let ghost j = ((page - pre.data_start()) / (UNIT_SIZE as int)) as nat;
        proof {
            lemma2_to64();
            pre.lemma_layout_wf();
            assert(level_for(1) == 0);
            assert(block_bytes(0) == UNIT_SIZE);
            assert(span_of(page as nat, UNIT_SIZE as nat) == (page as nat, UNIT_SIZE as nat));
            assert(pre.node_of(page as nat, UNIT_SIZE as nat) == (0nat, j));
            assert(pre.outstanding().contains_key((0, j)));
            crate::buddy::layout::lemma_blocks_at_zero(pre.layout().units);
            assert(j < pre.layout().units);
            assert(pre.holds(page as nat, UNIT_SIZE as nat));
        }
        self.buddy.dealloc(page, UNIT_SIZE);
        proof {
            let post = self.buddy;
            assert(self.held() =~= Set::new(|a: usize| page_held(pre, a)).remove(page)) by {
                assert forall|a: usize| page_held(post, a) == (page_held(pre, a) && a
                    != page) by {
                    let at = a - pre.data_start();
                    if at >= 0 && at % (UNIT_SIZE as int) == 0 {
                        let k = (at / (UNIT_SIZE as int)) as nat;
                        if k == j {
                            assert(a == page);
                        }
                    }
                }
            }
        }
    }
}

} // verus!
