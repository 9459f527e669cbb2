//! What holds of the slab allocator across its operations.

use crate::slab::allocator::SlabAllocator;
use crate::slab::geometry::{PAGE_SIZE, REDZONE_SIZE};
use crate::slab::page::{SlabError, REDZONE_FILL};
use crate::slab::page::{lemma_chain_gap, redzones_intact, payload_poisoned, slot_sound};
use crate::slab::provider::PageAllocator;
use vstd::prelude::*;

verus! {

/// The list of the pages with a free slot has no cycle: it holds each page
/// at most once, every page in it is a page that the allocator holds and has
/// a free slot, and every other page that the allocator holds is full.
pub proof fn lemma_partial_list_sound<PA: PageAllocator>(slab: SlabAllocator<PA>)
    requires
        slab.wf(),
    ensures
        slab.partial().no_duplicates(),
        forall|i: int|
            0 <= i < slab.partial().len() ==> slab.page_addrs().contains(
                #[trigger] slab.partial()[i],
            ) && slab.page(slab.partial()[i]).free_head() != 0,
        forall|p: usize|
            slab.page_addrs().contains(p) && !slab.partial().contains(p) ==> (#[trigger] slab.page(
                p,
            )).free_head() == 0,
        forall|p: usize|
            slab.page_addrs().contains(p) ==> 0 < (#[trigger] slab.page(p)).alloc_count()
                <= slab.geometry().slots(),
{
    slab.lemma_wf();
    assert forall|i: int| 0 <= i < slab.partial().len() implies slab.page_addrs().contains(
        #[trigger] slab.partial()[i],
    ) && slab.page(slab.partial()[i]).free_head() != 0 by {
        assert(slab.partial().contains(slab.partial()[i]));
    }
    assert forall|p: usize| slab.page_addrs().contains(p) implies 0 < (#[trigger] slab.page(
        p,
    )).alloc_count() <= slab.geometry().slots() by {
        slab.page(p).lemma_wf(slab.geometry());
    }
}

/// Where every slot passes its checks, every free slot has both redzones and
/// a poisoned payload, and every slot that is handed out has both redzones.
pub proof fn lemma_intact_slots<PA: PageAllocator>(slab: SlabAllocator<PA>, p: usize, k: int)
    requires
        slab.wf(),
        slab.intact(),
        slab.page_addrs().contains(p),
        0 <= k < slab.geometry().slots(),
    ensures
        redzones_intact(slab.page(p).memory(), slab.geometry(), slab.geometry().slot_offset(k)),
        slab.page(p).free_slots().contains(k) ==> payload_poisoned(
            slab.page(p).memory(),
            slab.geometry(),
            slab.geometry().slot_offset(k),
        ),
{
    let geo = slab.geometry();
    assert(slab.page(p).intact(geo));
    assert(slot_sound(
        slab.page(p).memory(),
        geo,
        geo.slot_offset(k),
        slab.page(p).free_slots().contains(k),
    ));
}

/// An allocator of which no slot is handed out holds no page: every page
/// went back to the provider when its last slot came back.
pub proof fn lemma_nothing_live_nothing_held<PA: PageAllocator>(slab: SlabAllocator<PA>)
    requires
        slab.wf(),
        forall|ptr: usize| !slab.is_live(ptr),
    ensures
        slab.pristine(),
{
    slab.lemma_wf();
    let geo = slab.geometry();
    geo.lemma_bounds();
    assert forall|p: usize| !slab.page_addrs().contains(p) by {
        if slab.page_addrs().contains(p) {
            let page = slab.page(p);
            page.lemma_wf(geo);
            let k = lemma_chain_gap(page.free_slots(), geo.slots());
            let off = geo.slot_offset(k);
            geo.lemma_slot_offset(k);
            assert(usize::MAX == 0xffff_ffff || usize::MAX == 0xffff_ffff_ffff_ffff);
            slab.lemma_slot_ptr(p, off);
            let ptr = (p + off + geo.front_size) as usize;
            assert(slab.is_live(ptr));
        }
    }
    assert(slab.page_addrs() =~= Set::<usize>::empty());
    if slab.partial().len() > 0 {
        assert(slab.partial().contains(slab.partial()[0]));
    }
    assert(slab.partial() =~= Seq::<usize>::empty());
}

/// An allocator that holds no page has no slot handed out.
pub proof fn lemma_nothing_held_nothing_live<PA: PageAllocator>(
    slab: SlabAllocator<PA>,
    ptr: usize,
)
    requires
        slab.pristine(),
    ensures
        !slab.is_live(ptr),
{
}

/// Allocating from an allocator that holds no page and releasing what was
/// handed out gives an allocator that holds no page again, with the
/// provider's pages as they were: what it hands out next is what a fresh
/// allocator hands out, but for the addresses of the pages.
pub proof fn lemma_round_trip<PA: PageAllocator>(
    fresh: SlabAllocator<PA>,
    held: SlabAllocator<PA>,
    back: SlabAllocator<PA>,
    ptr: usize,
)
    requires
        fresh.wf(),
        fresh.pristine(),
        fresh.alloc_step(held, Some(ptr)),
        held.dealloc_step(back, ptr),
    ensures
        back.pristine(),
        back.geometry() == fresh.geometry(),
        back.provider().held() == fresh.provider().held(),
{
    let p = held.base_of(ptr) as usize;
    assert(held.page_addrs() =~= set![p]);
    assert(back.page_addrs() =~= Set::<usize>::empty());
    assert(back.provider().held() =~= fresh.provider().held());
    let one = seq![p];
    if held.page(p).free_head() != 0 {
        assert(held.partial() == one);
        assert(one[0] == p);
        assert(one.index_of(p) == 0);
        assert(one.remove(0) =~= Seq::<usize>::empty());
    } else {
        assert(one.drop_first() =~= Seq::<usize>::empty());
    }
}

/// A byte at distance `d` from the start of the slot whose payload is at
/// `ptr` lies in the page of the slot, at the offset of the slot plus `d`.
proof fn lemma_slot_byte<PA: PageAllocator>(slab: SlabAllocator<PA>, ptr: usize, d: int)
    requires
        slab.wf(),
        slab.is_slot_ptr(ptr),
        0 <= d < slab.geometry().object_size,
    ensures
        0 <= ptr - slab.geometry().front_size + d <= usize::MAX,
        slab.byte_at((ptr - slab.geometry().front_size + d) as usize) == slab.page(
            slab.base_of(ptr) as usize,
        ).memory()[slab.offset_of(ptr) + d],
{
    slab.lemma_wf();
    let geo = slab.geometry();
    geo.lemma_bounds();
    let off = slab.offset_of(ptr);
    let p = slab.base_of(ptr) as usize;
    geo.lemma_slot_index(off);
    assert(0 < off && off + geo.object_size <= PAGE_SIZE);
    assert(usize::MAX == 0xffff_ffff || usize::MAX == 0xffff_ffff_ffff_ffff);
    assert(slab.page_addrs().contains(p));
    assert(p % PAGE_SIZE == 0);
}

/// A write behind the payload is caught: where a byte of the redzone behind
/// the payload of a slot that is handed out does not hold the redzone
/// pattern, the release of the slot is refused for its redzone, and nothing
/// changes: the slot stays handed out and no page goes back to the provider.
pub proof fn lemma_overflow_detected<PA: PageAllocator>(
    slab: SlabAllocator<PA>,
    after: SlabAllocator<PA>,
    ptr: usize,
    i: int,
    r: Result<(), SlabError>,
)
    requires
        slab.wf(),
        slab.is_live(ptr),
        0 <= i < REDZONE_SIZE,
        ptr + slab.geometry().payload_size + i <= usize::MAX,
        slab.byte_at((ptr + slab.geometry().payload_size + i) as usize) != REDZONE_FILL,
        slab.release_step(after, ptr, r),
    ensures
        r == Err::<(), SlabError>(SlabError::RedzoneCorrupted),
        after == slab,
{
    let geo = slab.geometry();
    slab.lemma_wf();
    geo.lemma_bounds();
    lemma_slot_byte(slab, ptr, geo.front_size + geo.payload_size + i);
}

/// A write before the payload is caught: where a byte of the redzone before
/// the payload of a slot that is handed out does not hold the redzone
/// pattern, the release of the slot is refused for its redzone, and nothing
/// changes.
pub proof fn lemma_underflow_detected<PA: PageAllocator>(
    slab: SlabAllocator<PA>,
    after: SlabAllocator<PA>,
    ptr: usize,
    i: int,
    r: Result<(), SlabError>,
)
    requires
        slab.wf(),
        slab.is_live(ptr),
        1 <= i <= REDZONE_SIZE,
        ptr >= i,
        slab.byte_at((ptr - i) as usize) != REDZONE_FILL,
        slab.release_step(after, ptr, r),
    ensures
        r == Err::<(), SlabError>(SlabError::RedzoneCorrupted),
        after == slab,
{
    let geo = slab.geometry();
    slab.lemma_wf();
    geo.lemma_bounds();
    lemma_slot_byte(slab, ptr, geo.front_size - i);
}

/// The release of a pointer whose slot is not handed out is refused, and
/// nothing changes: no slot is pushed on a free list, no count goes down,
/// and no page goes back to the provider.
pub proof fn lemma_dead_release_refused<PA: PageAllocator>(
    slab: SlabAllocator<PA>,
    after: SlabAllocator<PA>,
    ptr: usize,
    r: Result<(), SlabError>,
)
    requires
        !slab.is_live(ptr),
        slab.release_step(after, ptr, r),
    ensures
        r is Err,
        after == slab,
{
}

/// After a release the slot is not handed out.
pub proof fn lemma_released_is_dead<PA: PageAllocator>(
    before: SlabAllocator<PA>,
    after: SlabAllocator<PA>,
    ptr: usize,
)
    requires
        before.wf(),
        after.wf(),
        before.dealloc_verdict(ptr) is Ok,
        before.dealloc_step(after, ptr),
    ensures
        !after.is_live(ptr),
{
    let geo = before.geometry();
    let p = before.base_of(ptr) as usize;
    let off = before.offset_of(ptr);
    if after.is_live(ptr) {
        assert(after.page_addrs().contains(p));
        assert(before.page(p).alloc_count() != 1);
        let k = geo.slot_index(off);
        assert(after.page(p).free_slots()[0] == k);
        assert(after.page(p).free_slots().contains(k));
    }
}

/// A slot that is not handed out stays so when another slot is released.
pub proof fn lemma_release_keeps_dead<PA: PageAllocator>(
    before: SlabAllocator<PA>,
    after: SlabAllocator<PA>,
    other: usize,
    ptr: usize,
)
    requires
        before.wf(),
        before.dealloc_verdict(other) is Ok,
        before.dealloc_step(after, other),
        !before.is_live(ptr),
    ensures
        !after.is_live(ptr),
{
    let geo = before.geometry();
    let p = before.base_of(other) as usize;
    let q = after.base_of(ptr) as usize;
    if after.is_live(ptr) {
        assert(before.page_addrs().contains(q));
        if q == p {
            let k = geo.slot_index(after.offset_of(ptr));
            let grown = after.page(p).free_slots();
            let chain = before.page(p).free_slots();
            if chain.contains(k) {
                let at = chain.index_of(k);
                assert(grown[at + 1] == k);
            }
        }
    }
}

/// A slot that is not handed out stays so while allocations hand out other
/// slots.
pub proof fn lemma_alloc_keeps_dead<PA: PageAllocator>(
    before: SlabAllocator<PA>,
    after: SlabAllocator<PA>,
    r: Option<usize>,
    ptr: usize,
)
    requires
        before.wf(),
        before.alloc_step(after, r),
        r != Some(ptr),
        !before.is_live(ptr),
    ensures
        !after.is_live(ptr),
{
    before.lemma_wf();
    let geo = before.geometry();
    geo.lemma_bounds();
    if after.is_live(ptr) {
        let q = after.base_of(ptr) as usize;
        let off = after.offset_of(ptr);
        let k = geo.slot_index(off);
        geo.lemma_slot_index(off);
        match r {
            None => {
                assert(before.page_addrs().contains(q));
            },
            Some(got) => {
                let p = after.base_of(got) as usize;
                let taken = after.offset_of(got);
                if q != p {
                    assert(before.page_addrs().contains(q));
                } else {
                    let rest = after.page(p).free_slots();
                    if before.partial().len() > 0 {
                        assert(before.partial().contains(p));
                        let chain = before.page(p).free_slots();
                        before.page(p).lemma_wf(geo);
                        assert(chain.contains(k));
                        let at = chain.index_of(k);
                        if at > 0 {
                            assert(rest[at - 1] == k);
                        }
                        geo.lemma_slot_index(taken);
                        assert(off == taken);
                    } else {
                        if k > 0 {
                            assert(rest[k - 1] == k);
                        }
                        geo.lemma_slot_offset(0);
                        assert(off == taken);
                    }
                }
            },
        }
    }
}

/// A slot cannot be released twice: after a release, a second release of
/// the same pointer is refused and changes nothing.
pub proof fn lemma_double_free_detected<PA: PageAllocator>(
    before: SlabAllocator<PA>,
    after: SlabAllocator<PA>,
    again: SlabAllocator<PA>,
    ptr: usize,
    r: Result<(), SlabError>,
)
    requires
        before.wf(),
        after.wf(),
        before.dealloc_verdict(ptr) is Ok,
        before.dealloc_step(after, ptr),
        after.release_step(again, ptr, r),
    ensures
        r is Err,
        again == after,
{
    lemma_released_is_dead(before, after, ptr);
}

/// Where a page with a free slot is at hand, an allocation succeeds whatever
/// the provider would do.
pub proof fn lemma_alloc_succeeds<PA: PageAllocator>(
    pre: SlabAllocator<PA>,
    post: SlabAllocator<PA>,
    r: Option<usize>,
)
    requires
        pre.wf(),
        pre.partial().len() > 0,
        pre.alloc_step(post, r),
    ensures
        r is Some,
        post.page_addrs() == pre.page_addrs(),
        post.provider().held() == pre.provider().held(),
{
    let ptr = r->0;
    let p = post.base_of(ptr) as usize;
    pre.lemma_wf();
    assert(p == pre.partial()[0]);
    assert(pre.partial().contains(p));
    assert(pre.page_addrs().contains(p));
    assert(post.page_addrs() =~= pre.page_addrs().insert(p));
}

} // verus!
