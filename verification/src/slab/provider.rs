//! Where the slab allocator gets its pages from.

use crate::slab::geometry::PAGE_SIZE;
use vstd::prelude::*;

verus! {

/// A source of pages. Each page is named by its address, which is a
/// multiple of the page size and not zero; a page belongs to whoever got it
/// from `allocate` until it is handed to `deallocate`.
///
/// The two functions are all that an implementation outside this crate has
/// to write. One that is verified also says what `inv` and `held` are; as
/// they stand here they describe a provider that never hands out a page.
pub trait PageAllocator {
    /// Whether the provider is in a consistent state.
    open spec fn inv(&self) -> bool {
        true
    }

    /// The pages that are handed out and not yet taken back.
    open spec fn held(&self) -> Set<usize> {
        Set::empty()
    }

    /// Hands out a page that is not handed out yet, or nothing.
    fn allocate(&mut self) -> (r: Option<usize>)
        requires
            old(self).inv(),
        ensures
            final(self).inv(),
            match r {
                Some(p) => {
                    &&& p != 0
                    &&& p % PAGE_SIZE == 0
                    &&& !old(self).held().contains(p)
                    &&& final(self).held() == old(self).held().insert(p)
                },
                None => final(self).held() == old(self).held(),
            },
    ;

    /// Takes back a page that is handed out.
    fn deallocate(&mut self, page: usize)
        requires
            old(self).inv(),
            old(self).held().contains(page),
        ensures
            final(self).inv(),
            final(self).held() == old(self).held().remove(page),
    ;
}

} // verus!
