//! What the kernel reports about its dynamic memory.

use crate::buddy::block::{coalesce, span_of, BuddyBlock};
use crate::buddy::checked::CheckedBuddy;
use crate::buddy::info::BuddyBlockInfo;
use vstd::prelude::*;

verus! {

/// The size of a page in bytes.
pub const PAGE_SIZE: u64 = 4096;

/// The layout of the allocator and the bytes that it has handed out.
pub struct AllocatorInfo {
    pub buddy: BuddyBlockInfo,
    pub used: usize,
}

/// The bytes that the allocator manages and the bytes that it has handed out.
pub struct AllocatorSizeInfo {
    pub len: usize,
    pub used: usize,
}

/// The layout of `buddy` and the bytes that it has handed out.
pub fn allocator_info(buddy: &BuddyBlock) -> (r: AllocatorInfo)
    ensures
        r.buddy@ == buddy.layout(),
        r.used == buddy.used_bytes(),
{
    AllocatorInfo { buddy: *buddy.info(), used: buddy.used() }
}

/// The bytes of data that `buddy` manages and the bytes that it has handed
/// out.
pub fn allocator_size_info(buddy: &BuddyBlock) -> (r: AllocatorSizeInfo)
    requires
        buddy.wf(),
    ensures
        r.len == buddy.data_size(),
        r.used == buddy.used_bytes(),
{
    proof {
        buddy.lemma_layout_wf();
    }
    AllocatorSizeInfo { len: buddy.info().data_len(), used: buddy.used() }
}

/// Takes `len` bytes at `addr` back into `buddy` where they name a block
/// that is handed out, and says whether they do. A release that fails this
/// test changes nothing; the kernel stops on it.
pub fn deallocate(buddy: &mut CheckedBuddy, addr: usize, len: usize) -> (ok: bool)
    requires
        old(buddy).wf(),
    ensures
        final(buddy).wf(),
        final(buddy).inner().layout() == old(buddy).inner().layout(),
        ok == (len == 0 || old(buddy).is_held(addr as nat, len as nat)),
        !ok || len == 0 ==> {
            &&& final(buddy).inner().outstanding() == old(buddy).inner().outstanding()
            &&& final(buddy).inner().free_blocks() == old(buddy).inner().free_blocks()
            &&& final(buddy).inner().used_bytes() == old(buddy).inner().used_bytes()
            &&& final(buddy).table() == old(buddy).table()
        },
        ok && len > 0 ==> {
            let n = old(buddy).inner().node_of(addr as nat, len as nat);
            &&& final(buddy).inner().outstanding() == old(buddy).inner().outstanding().remove(n)
            &&& final(buddy).inner().free_blocks() == coalesce(
                old(buddy).inner().free_blocks(),
                n,
                old(buddy).inner().layout().levels,
            )
            &&& final(buddy).inner().used_bytes() == old(buddy).inner().used_bytes() - span_of(
                addr as nat,
                len as nat,
            ).1
        },
{
    buddy.try_dealloc(addr, len)
}

} // verus!
