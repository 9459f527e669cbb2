//! The slab allocator: slots of one size, carved out of pages that come
//! from a page provider.

use crate::slab::geometry::{valid_params, Geometry, PAGE_SIZE};
use crate::slab::page::{gave, took, SlabError, SlabPage};
use crate::slab::page_list::PageList;
use crate::slab::provider::PageAllocator;
use std::collections::HashMap;
use vstd::prelude::*;

verus! {

/// The page in which the byte at `addr` lies.
pub open spec fn page_of(addr: int) -> int {
    addr - addr % (PAGE_SIZE as int)
}

/// An allocator of slots for payloads of one size and alignment.
pub struct SlabAllocator<PA: PageAllocator> {
    geo: Geometry,
    avail: PageList,
    pages: HashMap<usize, SlabPage>,
    page_allocator: PA,
}

impl<PA: PageAllocator> SlabAllocator<PA> {
    /// The geometry of the pages.
    pub closed spec fn geometry(&self) -> Geometry {
        self.geo
    }

    /// The addresses of the pages that the allocator holds.
    pub closed spec fn page_addrs(&self) -> Set<usize> {
        self.pages@.dom()
    }

    /// The page at address `p`.
    pub closed spec fn page(&self, p: usize) -> SlabPage {
        self.pages@[p]
    }

    /// The pages that have a free slot, in the order of their list.
    pub closed spec fn partial(&self) -> Seq<usize> {
        self.avail@
    }

    /// The page provider.
    pub closed spec fn provider(&self) -> PA {
        self.page_allocator
    }

    /// The allocator is consistent: every page it holds came from the
    /// provider, is consistent in itself and has at least one slot handed
    /// out, and the list holds exactly the pages that have a free slot.
    pub closed spec fn wf(&self) -> bool {
        &&& self.geo.wf()
        &&& self.avail.wf()
        &&& self.page_allocator.inv()
        &&& forall|p: usize| #[trigger]
            self.pages@.contains_key(p) ==> {
                &&& p != 0
                &&& p % PAGE_SIZE == 0
                &&& self.pages@[p].wf(self.geo)
                &&& self.pages@[p].alloc_count() >= 1
                &&& self.avail@.contains(p) <==> self.pages@[p].free_head() != 0
                &&& self.page_allocator.held().contains(p)
            }
        &&& forall|p: usize| #[trigger] self.avail@.contains(p) ==> self.pages@.contains_key(p)
    }

    /// Whether the allocator holds no page.
    pub open spec fn pristine(&self) -> bool {
        self.page_addrs() == Set::<usize>::empty() && self.partial() == Seq::<usize>::empty()
    }

    /// The offset in its page of the slot whose payload is at `ptr`.
    pub open spec fn offset_of(&self, ptr: usize) -> int {
        (ptr - self.geometry().front_size) % (PAGE_SIZE as int)
    }

    /// The page of the slot whose payload is at `ptr`.
    pub open spec fn base_of(&self, ptr: usize) -> int {
        page_of(ptr - self.geometry().front_size)
    }

    /// The offset in a page at which the payload of the slot at offset `off`
    /// ends.
    pub open spec fn payload_end(&self, off: int) -> int {
        off + self.geometry().front_size + self.geometry().payload_size
    }

    /// Whether `ptr` is the payload of a slot in a page that the allocator
    /// holds.
    pub open spec fn is_slot_ptr(&self, ptr: usize) -> bool {
        &&& ptr >= self.geometry().front_size
        &&& self.page_addrs().contains(self.base_of(ptr) as usize)
        &&& self.geometry().is_slot(self.offset_of(ptr))
    }

    /// Whether `ptr` is the payload of a slot that is handed out.
    pub open spec fn is_live(&self, ptr: usize) -> bool {
        self.is_slot_ptr(ptr) && self.page(self.base_of(ptr) as usize).is_allocated(
            self.geometry(),
            self.offset_of(ptr),
        )
    }

    /// Whether every slot of every page passes its integrity checks.
    pub open spec fn intact(&self) -> bool {
        forall|p: usize| #[trigger]
            self.page_addrs().contains(p) ==> self.page(p).intact(self.geometry())
    }

    /// What the checks that come before a release give for `ptr`.
    pub open spec fn dealloc_verdict(&self, ptr: usize) -> Result<(), SlabError> {
        if !self.is_slot_ptr(ptr) {
            Err(SlabError::InvalidPointer)
        } else {
            self.page(self.base_of(ptr) as usize).live_verdict(
                self.geometry(),
                self.offset_of(ptr),
            )
        }
    }

    /// What the checks that come before an allocation give: where a page
    /// with a free slot is at hand, the checks on its first free slot;
    /// nothing is checked where a fresh page is needed.
    pub open spec fn alloc_verdict(&self) -> Result<(), SlabError> {
        if self.partial().len() == 0 {
            Ok(())
        } else {
            self.page(self.partial()[0]).head_verdict(self.geometry())
        }
    }

    /// `post` is `self` after an allocation that gave `r`. Nothing changes
    /// where nothing is handed out, which only happens where no page has a
    /// free slot and the provider gives none. Otherwise the first free slot
    /// of the first page of the list is handed out, or the first slot of a
    /// fresh page from the provider; a page that has no free slot left
    /// leaves the list, and a fresh page that has one joins it.
    pub open spec fn alloc_step(&self, post: Self, r: Option<usize>) -> bool {
        let geo = self.geometry();
        &&& post.geometry() == geo
        &&& match r {
            None => {
                &&& self.partial().len() == 0
                &&& post.page_addrs() == self.page_addrs()
                &&& post.partial() == self.partial()
                &&& post.provider().held() == self.provider().held()
                &&& forall|q: usize| #[trigger]
                    self.page_addrs().contains(q) ==> post.page(q) == self.page(q)
            },
            Some(ptr) => {
                let p = post.base_of(ptr) as usize;
                let off = post.offset_of(ptr);
                let base = if self.partial().len() > 0 {
                    self.partial()
                } else {
                    seq![p]
                };
                &&& ptr == p + off + geo.front_size
                &&& post.page_addrs() == self.page_addrs().insert(p)
                &&& forall|q: usize|
                    q != p && #[trigger] self.page_addrs().contains(q) ==> post.page(q)
                        == self.page(q)
                &&& if self.partial().len() > 0 {
                    &&& p == self.partial()[0]
                    &&& post.provider().held() == self.provider().held()
                    &&& took(self.page(p), post.page(p), geo, off)
                } else {
                    &&& p != 0
                    &&& p % PAGE_SIZE == 0
                    &&& !self.provider().held().contains(p)
                    &&& post.provider().held() == self.provider().held().insert(p)
                    &&& off == geo.first()
                    &&& post.page(p).free_slots() == Seq::new(
                        (geo.slots() - 1) as nat,
                        |i: int| i + 1,
                    )
                    &&& post.page(p).alloc_count() == 1
                    &&& post.page(p).is_allocated(geo, off)
                    &&& post.page(p).intact(geo)
                    &&& crate::slab::page::all_bytes(
                        post.page(p).memory(),
                        off + geo.front_size,
                        off + geo.front_size + geo.payload_size,
                        0u8,
                    )
                }
                &&& post.partial() == if post.page(p).free_head() == 0 {
                    base.drop_first()
                } else {
                    base
                }
            },
        }
    }

    /// `post` is `self` after the slot whose payload is at `ptr` has been
    /// taken back. The slot becomes the first free slot of its page. A page
    /// whose last slot comes back leaves the list and goes back to the
    /// provider; a page that had no free slot joins the list at its tail.
    pub open spec fn dealloc_step(&self, post: Self, ptr: usize) -> bool {
        let geo = self.geometry();
        let p = self.base_of(ptr) as usize;
        let off = self.offset_of(ptr);
        &&& post.geometry() == geo
        &&& forall|q: usize|
            q != p && #[trigger] self.page_addrs().contains(q) ==> post.page(q) == self.page(q)
        &&& if self.page(p).alloc_count() == 1 {
            &&& post.page_addrs() == self.page_addrs().remove(p)
            &&& post.provider().held() == self.provider().held().remove(p)
            &&& post.partial() == if self.page(p).free_head() != 0 {
                self.partial().remove(self.partial().index_of(p))
            } else {
                self.partial()
            }
        } else {
            &&& post.page_addrs() == self.page_addrs()
            &&& post.provider().held() == self.provider().held()
            &&& gave(self.page(p), post.page(p), geo, off)
            &&& post.partial() == if self.page(p).free_head() == 0 {
                self.partial().push(p)
            } else {
                self.partial()
            }
        }
    }

    /// `post` and `r` are what a release of `ptr` after its checks gives:
    /// `r` is what the checks give; where they pass, the slot is taken back,
    /// and where one fails, nothing changes: the slot is not put on a free
    /// list, no count changes, and no page goes back to the provider.
    pub open spec fn release_step(&self, post: Self, ptr: usize, r: Result<(), SlabError>) -> bool {
        &&& r == self.dealloc_verdict(ptr)
        &&& match r {
            Ok(_) => self.dealloc_step(post, ptr),
            Err(_) => post == *self,
        }
    }

    /// What a consistent allocator guarantees of its pages and its list.
    pub proof fn lemma_wf(&self)
        requires
            self.wf(),
        ensures
            self.geometry().wf(),
            self.partial().no_duplicates(),
            self.provider().inv(),
            forall|p: usize| #[trigger]
                self.page_addrs().contains(p) ==> {
                    &&& p != 0
                    &&& p % PAGE_SIZE == 0
                    &&& self.page(p).wf(self.geometry())
                    &&& self.page(p).alloc_count() >= 1
                    &&& self.partial().contains(p) <==> self.page(p).free_head() != 0
                    &&& self.provider().held().contains(p)
                },
            forall|p: usize| #[trigger] self.partial().contains(p) ==> self.page_addrs().contains(p),
    {
        self.avail.lemma_distinct();
    }

    /// An allocator of slots for payloads of `payload_size` bytes aligned to
    /// `payload_align`, on pages from `page_allocator`. It holds no page yet.
    pub fn new(payload_size: u16, payload_align: u16, page_allocator: PA) -> (r: Self)
        requires
            valid_params(payload_size, payload_align),
            page_allocator.inv(),
        ensures
            r.wf(),
            r.pristine(),
            r.intact(),
            r.geometry().payload_size == payload_size,
            r.geometry().payload_align == payload_align,
            r.provider() == page_allocator,
    {
        broadcast use vstd::std_specs::hash::group_hash_axioms;

        let r = Self {
            geo: Geometry::new(payload_size, payload_align),
            avail: PageList::new(),
            pages: HashMap::new(),
            page_allocator,
        };
        assert(r.page_addrs() =~= Set::<usize>::empty());
        r
    }

    /// The geometry of the pages.
    pub fn geometry_of(&self) -> (r: Geometry)
        ensures
            r == self.geometry(),
    {
        self.geo
    }

    /// The offset of the first slot in a page.
    pub fn page_offset(&self) -> (r: u16)
        requires
            self.wf(),
        ensures
            r == self.geometry().first(),
    {
        self.geo.page_offset()
    }

    /// The number of slots in a page.
    pub fn slots_per_page(&self) -> (r: u16)
        requires
            self.wf(),
        ensures
            r == self.geometry().slots(),
    {
        self.geo.slots_per_page()
    }

    /// The number of pages that the allocator holds.
    pub fn pages_held(&self) -> (r: usize)
        requires
            self.wf(),
        ensures
            r == self.page_addrs().len(),
            r == 0 <==> self.page_addrs() == Set::<usize>::empty(),
    {
        broadcast use vstd::std_specs::hash::group_hash_axioms;

        proof {
            if self.page_addrs().len() == 0 {
                assert(self.page_addrs() =~= Set::<usize>::empty());
            }
        }
        self.pages.len()
    }

    /// The page provider.
    pub fn page_allocator(&self) -> (r: &PA)
        ensures
            *r == self.provider(),
    {
        &self.page_allocator
    }

    /// The page and the offset in it of the slot whose payload is at `ptr`,
    /// where there is such a slot in a page that the allocator holds.
    fn locate(&self, ptr: usize) -> (r: Option<(usize, u16)>)
        requires
            self.wf(),
        ensures
            match r {
                Some((p, off)) => self.is_slot_ptr(ptr) && p == self.base_of(ptr) && off
                    == self.offset_of(ptr),
                None => !self.is_slot_ptr(ptr),
            },
    {
        broadcast use vstd::std_specs::hash::group_hash_axioms;

        proof {
            self.geo.lemma_bounds();
        }
        let front: usize = self.geo.front_size as usize;
        if ptr < front {
            return None;
        }
        let addr: usize = ptr - front;
        let off: usize = addr % PAGE_SIZE;
        let page: usize = addr - off;
        if !self.pages.contains_key(&page) {
            return None;
        }
        let first: usize = self.geo.page_offset() as usize;
        let size: usize = self.geo.object_size as usize;
        if off < first || (off - first) % size != 0 || (off - first) / size
            >= self.geo.slots_per_page() as usize {
            return None;
        }
        Some((page, off as u16))
    }

    /// The checks that come before a release of `ptr`: it must be the
    /// payload of a slot in a page of this allocator, the slot must be
    /// marked as handed out, and its redzones must hold their pattern.
    pub fn check_dealloc(&self, ptr: usize) -> (r: Result<(), SlabError>)
        requires
            self.wf(),
        ensures
            r == self.dealloc_verdict(ptr),
    {
        broadcast use vstd::std_specs::hash::group_hash_axioms;

        match self.locate(ptr) {
            None => Err(SlabError::InvalidPointer),
            Some((p, off)) => {
                let page = self.pages.get(&p).unwrap();
                page.check_live(&self.geo, off)
            },
        }
    }

    /// A fresh page from the provider, formatted, with its address; nothing
    /// where the provider gives none.
    fn alloc_page(&mut self) -> (r: Option<(usize, SlabPage)>)
        requires
            old(self).wf(),
        ensures
            final(self).geo == old(self).geo,
            final(self).avail == old(self).avail,
            final(self).pages == old(self).pages,
            final(self).page_allocator.inv(),
            match r {
                None => final(self).page_allocator.held() == old(self).page_allocator.held(),
                Some((p, page)) => {
                    &&& p != 0
                    &&& p % PAGE_SIZE == 0
                    &&& !old(self).page_allocator.held().contains(p)
                    &&& final(self).page_allocator.held() == old(self).page_allocator.held().insert(
                        p,
                    )
                    &&& page.wf(old(self).geo)
                    &&& page.intact(old(self).geo)
                    &&& page.alloc_count() == 0
                    &&& page.free_head() == old(self).geo.first()
                    &&& page.free_slots() == Seq::new(old(self).geo.slots() as nat, |i: int| i)
                },
            },
    {
        let got = self.page_allocator.allocate();
        SlabPage::format_at(&self.geo, got)
    }

    /// The payload of a slot in a page that the allocator holds is a slot
    /// pointer of the allocator.
    pub proof fn lemma_slot_ptr(&self, p: usize, off: int)
        requires
            self.wf(),
            self.page_addrs().contains(p),
            self.geometry().is_slot(off),
        ensures
            p + off + self.geometry().front_size <= usize::MAX,
            self.is_slot_ptr((p + off + self.geometry().front_size) as usize),
            self.base_of((p + off + self.geometry().front_size) as usize) == p,
            self.offset_of((p + off + self.geometry().front_size) as usize) == off,
            (p + off + self.geometry().front_size) % (self.geometry().payload_align as int) == 0,
    {
        assert(usize::MAX == 0xffff_ffff || usize::MAX == 0xffff_ffff_ffff_ffff);
        self.lemma_payload_ptr(p, off);
    }

    /// The address of the payload of the slot at offset `off` of page `p` is
    /// aligned as asked for, and leads back to the page and the offset.
    proof fn lemma_payload_ptr(&self, p: usize, off: int)
        requires
            self.geometry().wf(),
            p % PAGE_SIZE == 0,
            self.geometry().is_slot(off),
            p + PAGE_SIZE <= usize::MAX + 1,
        ensures
            p + off + self.geometry().front_size <= usize::MAX,
            self.base_of((p + off + self.geometry().front_size) as usize) == p,
            self.offset_of((p + off + self.geometry().front_size) as usize) == off,
            (p + off + self.geometry().front_size) % (self.geometry().payload_align as int) == 0,
    {
        let geo = self.geometry();
        geo.lemma_bounds();
        geo.lemma_slot_index(off);
        geo.lemma_payload_aligned(off);
        let a = geo.payload_align as int;
        let ptr = p + off + geo.front_size;
        assert(0 < off && off + geo.object_size <= PAGE_SIZE);
        vstd::arithmetic::div_mod::lemma_fundamental_div_mod(PAGE_SIZE as int, a);
        vstd::arithmetic::div_mod::lemma_fundamental_div_mod(p as int, PAGE_SIZE as int);
        vstd::arithmetic::div_mod::lemma_fundamental_div_mod(off + geo.front_size, a);
        let c = (p as int / PAGE_SIZE as int) * (PAGE_SIZE as int / a) + (off + geo.front_size)
            / a;
        assert(ptr == a * c) by (nonlinear_arith)
            requires
                ptr == p + (off + geo.front_size),
                p == PAGE_SIZE * (p as int / PAGE_SIZE as int),
                PAGE_SIZE == a * (PAGE_SIZE as int / a),
                off + geo.front_size == a * ((off + geo.front_size) / a),
                c == (p as int / PAGE_SIZE as int) * (PAGE_SIZE as int / a) + (off
                    + geo.front_size) / a,
        ;
        assert(a * c == c * a) by (nonlinear_arith);
        vstd::arithmetic::div_mod::lemma_mod_multiples_basic(c, a);
    }

    /// Hands out the first free slot of the first page of the list.
    fn alloc_from_free(&mut self) -> (ptr: usize)
        requires
            old(self).wf(),
            old(self).partial().len() > 0,
            old(self).alloc_verdict() is Ok,
        ensures
            final(self).wf(),
            old(self).alloc_step(*final(self), Some(ptr)),
            ptr % (old(self).geometry().payload_align as usize) == 0,
            final(self).is_live(ptr),
            !old(self).is_live(ptr),
            old(self).intact() ==> final(self).intact(),
    {
        broadcast use vstd::std_specs::hash::group_hash_axioms;

        let ghost pre = *self;
        proof {
            self.geo.lemma_bounds();
            self.avail.lemma_distinct();
            assert(usize::MAX == 0xffff_ffff || usize::MAX == 0xffff_ffff_ffff_ffff);
        }
        let p: usize = self.avail.head();
        assert(self.avail@.contains(p)) by {
            assert(self.avail@[0] == p);
        }
        let mut page: SlabPage = self.pages.remove(&p).unwrap();
        let ghost before = page;
        proof {
            before.lemma_wf(self.geo);
        }
        let off = page.take(&self.geo);
        let full = page.free() == 0;
        proof {
            page.lemma_wf(self.geo);
            self.lemma_payload_ptr(p, off as int);
        }
        self.pages.insert(p, page);
        if full {
            self.avail.remove(p);
        }
        let ptr: usize = p + off as usize + self.geo.front_size as usize;
        proof {
            assert(self.page_addrs() =~= pre.page_addrs().insert(p));
            assert(self.page(p) == page);
            assert(pre.base_of(ptr) == p && pre.offset_of(ptr) == off);
            assert(before.free_slots().contains(before.free_slots()[0]));
            assert(!pre.is_live(ptr));
            assert(pre.partial().index_of(p) == 0);
            assert(pre.partial().remove(0) =~= pre.partial().drop_first());
            assert forall|q: usize| #[trigger] self.pages@.contains_key(q) implies {
                &&& q != 0
                &&& q % PAGE_SIZE == 0
                &&& self.pages@[q].wf(self.geo)
                &&& self.pages@[q].alloc_count() >= 1
                &&& self.avail@.contains(q) <==> self.pages@[q].free_head() != 0
                &&& self.page_allocator.held().contains(q)
            } by {
                if q != p {
                    assert(pre.pages@.contains_key(q));
                }
            }
            if pre.intact() {
                assert forall|q: usize| #[trigger] self.page_addrs().contains(q) implies self.page(
                    q,
                ).intact(self.geometry()) by {
                    assert(pre.page_addrs().contains(q));
                }
            }
        }
        ptr
    }

    /// Takes the fresh page `page` at address `p` into the allocator and
    /// hands out its first slot.
    fn alloc_from_fresh(&mut self, p: usize, page: SlabPage) -> (ptr: usize)
        requires
            old(self).wf(),
            old(self).partial().len() == 0,
            p != 0,
            p % PAGE_SIZE == 0,
            !old(self).page_addrs().contains(p),
            old(self).provider().held().contains(p),
            page.wf(old(self).geometry()),
            page.intact(old(self).geometry()),
            page.alloc_count() == 0,
            page.free_head() == old(self).geometry().first(),
            page.free_slots() == Seq::new(old(self).geometry().slots() as nat, |i: int| i),
        ensures
            final(self).wf(),
            final(self).geometry() == old(self).geometry(),
            final(self).provider() == old(self).provider(),
            final(self).page_addrs() == old(self).page_addrs().insert(p),
            forall|q: usize|
                q != p && #[trigger] old(self).page_addrs().contains(q) ==> final(self).page(q)
                    == old(self).page(q),
            ptr == p + old(self).geometry().first() + old(self).geometry().front_size,
            final(self).base_of(ptr) == p,
            final(self).offset_of(ptr) == old(self).geometry().first(),
            final(self).page(p).free_slots() == Seq::new(
                (old(self).geometry().slots() - 1) as nat,
                |i: int| i + 1,
            ),
            final(self).page(p).alloc_count() == 1,
            final(self).page(p).is_allocated(old(self).geometry(), old(self).geometry().first()),
            final(self).page(p).intact(old(self).geometry()),
            crate::slab::page::all_bytes(
                final(self).page(p).memory(),
                old(self).geometry().first() + old(self).geometry().front_size,
                old(self).payload_end(old(self).geometry().first()),
                0u8,
            ),
            final(self).partial() == if final(self).page(p).free_head() == 0 {
                Seq::<usize>::empty()
            } else {
                seq![p]
            },
            ptr % (old(self).geometry().payload_align as usize) == 0,
            final(self).is_live(ptr),
            old(self).intact() ==> final(self).intact(),
    {
        broadcast use vstd::std_specs::hash::group_hash_axioms;

        let ghost pre = *self;
        proof {
            self.geo.lemma_bounds();
            self.avail.lemma_distinct();
            assert(usize::MAX == 0xffff_ffff || usize::MAX == 0xffff_ffff_ffff_ffff);
            page.lemma_wf(self.geo);
        }
        let mut page = page;
        let ghost before = page;
        let off = page.take(&self.geo);
        let full = page.free() == 0;
        proof {
            page.lemma_wf(self.geo);
            self.lemma_payload_ptr(p, off as int);
            assert(page.free_slots() =~= Seq::new(
                (self.geo.slots() - 1) as nat,
                |i: int| i + 1,
            ));
        }
        self.pages.insert(p, page);
        if !full {
            self.avail.assign_singleton(p);
        }
        let ptr: usize = p + off as usize + self.geo.front_size as usize;
        proof {
            assert(self.page_addrs() =~= pre.page_addrs().insert(p));
            assert(self.page(p) == page);
            assert forall|q: usize| #[trigger] self.pages@.contains_key(q) implies {
                &&& q != 0
                &&& q % PAGE_SIZE == 0
                &&& self.pages@[q].wf(self.geo)
                &&& self.pages@[q].alloc_count() >= 1
                &&& self.avail@.contains(q) <==> self.pages@[q].free_head() != 0
                &&& self.page_allocator.held().contains(q)
            } by {
                if q != p {
                    assert(pre.pages@.contains_key(q));
                    assert(!pre.avail@.contains(q));
                }
            }
            if pre.intact() {
                assert forall|q: usize| #[trigger] self.page_addrs().contains(q) implies self.page(
                    q,
                ).intact(self.geometry()) by {
                    if q != p {
                        assert(pre.page_addrs().contains(q));
                    }
                }
            }
        }
        ptr
    }

    /// Hands out a slot: the first free slot of the first page of the list,
    /// or the first slot of a fresh page where no page has a free slot.
    /// Returns the address of the payload, which is zeroed, or nothing where
    /// a fresh page is needed and the provider gives none.
    pub fn allocate(&mut self) -> (r: Option<usize>)
        requires
            old(self).wf(),
            old(self).alloc_verdict() is Ok,
        ensures
            final(self).wf(),
            old(self).alloc_step(*final(self), r),
            old(self).partial().len() > 0 ==> r is Some,
            r is Some ==> r->0 % (old(self).geometry().payload_align as usize) == 0,
            r is Some ==> final(self).is_live(r->0) && !old(self).is_live(r->0),
            old(self).intact() ==> final(self).intact(),
    {
        let ghost pre = *self;
        if self.avail.is_empty() {
            match self.alloc_page() {
                None => {
                    proof {
                        if pre.intact() {
                            assert forall|q: usize| #[trigger]
                                self.page_addrs().contains(q) implies self.page(q).intact(
                                self.geometry(),
                            ) by {
                                assert(pre.page_addrs().contains(q));
                            }
                        }
                    }
                    None
                },
                Some((p, page)) => {
                    proof {
                        assert(!self.page_addrs().contains(p)) by {
                            if pre.pages@.contains_key(p) {
                                assert(pre.page_allocator.held().contains(p));
                            }
                        }
                        assert forall|q: usize| #[trigger] self.pages@.contains_key(q) implies {
                            &&& q != 0
                            &&& q % PAGE_SIZE == 0
                            &&& self.pages@[q].wf(self.geo)
                            &&& self.pages@[q].alloc_count() >= 1
                            &&& self.avail@.contains(q) <==> self.pages@[q].free_head() != 0
                            &&& self.page_allocator.held().contains(q)
                        } by {
                            assert(pre.pages@.contains_key(q));
                        }
                        if pre.intact() {
                            assert forall|q: usize| #[trigger]
                                self.page_addrs().contains(q) implies self.page(q).intact(
                                self.geometry(),
                            ) by {
                                assert(pre.page_addrs().contains(q));
                            }
                        }
                    }
                    let ptr = self.alloc_from_fresh(p, page);
                    proof {
                        assert(seq![p].drop_first() =~= Seq::<usize>::empty());
                        assert(pre.alloc_step(*self, Some(ptr)));
                    }
                    Some(ptr)
                },
            }
        } else {
            Some(self.alloc_from_free())
        }
    }

    /// Takes back the slot whose payload is at `ptr`: its payload is filled
    /// with the poison pattern and it becomes the first free slot of its
    /// page. A page whose last slot comes back goes back to the provider; a
    /// page that had no free slot joins the list at its tail.
    pub fn dealloc(&mut self, ptr: usize)
        requires
            old(self).wf(),
            old(self).dealloc_verdict(ptr) is Ok,
        ensures
            final(self).wf(),
            old(self).dealloc_step(*final(self), ptr),
            !final(self).is_live(ptr),
            old(self).intact() ==> final(self).intact(),
    {
        broadcast use vstd::std_specs::hash::group_hash_axioms;

        let ghost pre = *self;
        proof {
            self.geo.lemma_bounds();
            self.avail.lemma_distinct();
        }
        let (p, off) = self.locate(ptr).unwrap();
        let mut page = self.pages.remove(&p).unwrap();
        let ghost before = page;
        proof {
            before.lemma_wf(self.geo);
        }
        let was_full = page.free() == 0;
        page.give_back(&self.geo, off);
        proof {
            page.lemma_wf(self.geo);
        }
        if page.count() == 0 {
            if !was_full {
                self.avail.remove(p);
            }
            self.page_allocator.deallocate(p);
            proof {
                assert(self.page_addrs() =~= pre.page_addrs().remove(p));
            }
        } else {
            self.pages.insert(p, page);
            if was_full {
                self.avail.push_back(p);
            }
            proof {
                assert(self.page_addrs() =~= pre.page_addrs());
                assert(self.page(p) == page);
                assert(page.free_slots()[0] == self.geo.slot_index(off as int));
                assert(page.free_slots().contains(self.geo.slot_index(off as int)));
            }
        }
        proof {
            assert forall|q: usize| #[trigger] self.pages@.contains_key(q) implies {
                &&& q != 0
                &&& q % PAGE_SIZE == 0
                &&& self.pages@[q].wf(self.geo)
                &&& self.pages@[q].alloc_count() >= 1
                &&& self.avail@.contains(q) <==> self.pages@[q].free_head() != 0
                &&& self.page_allocator.held().contains(q)
            } by {
                if q != p {
                    assert(pre.pages@.contains_key(q));
                }
            }
            assert(self.wf());
            assert(pre.dealloc_step(*self, ptr));
            if pre.intact() {
                assert forall|q: usize| #[trigger] self.page_addrs().contains(q) implies self.page(
                    q,
                ).intact(self.geometry()) by {
                    assert(pre.page_addrs().contains(q));
                }
            }
        }
    }

    /// Hands out a slot after the checks that come before an allocation.
    /// Where a check fails, the error names it and nothing changes.
    pub fn try_alloc(&mut self) -> (r: Result<Option<usize>, SlabError>)
        requires
            old(self).wf(),
        ensures
            final(self).wf(),
            match r {
                Ok(got) => old(self).alloc_verdict() is Ok && old(self).alloc_step(
                    *final(self),
                    got,
                ),
                Err(e) => old(self).alloc_verdict() == Err::<(), SlabError>(e) && *final(self)
                    == *old(self),
            },
            old(self).intact() ==> final(self).intact() && r is Ok,
    {
        proof {
            if self.intact() && self.partial().len() > 0 {
                self.lemma_head_sound();
            }
        }
        match self.check_alloc() {
            Err(e) => Err(e),
            Ok(()) => Ok(self.allocate()),
        }
    }

    /// Takes back the slot whose payload is at `ptr` after the checks that
    /// come before a release. Where a check fails, the error names it and
    /// nothing changes.
    pub fn try_dealloc(&mut self, ptr: usize) -> (r: Result<(), SlabError>)
        requires
            old(self).wf(),
        ensures
            final(self).wf(),
            old(self).release_step(*final(self), ptr, r),
            old(self).intact() ==> final(self).intact(),
    {
        match self.check_dealloc(ptr) {
            Err(e) => Err(e),
            Ok(()) => {
                self.dealloc(ptr);
                Ok(())
            },
        }
    }

    /// In an allocator whose slots all pass their checks, the first free
    /// slot of the first page of the list passes them.
    pub proof fn lemma_head_sound(&self)
        requires
            self.wf(),
            self.intact(),
            self.partial().len() > 0,
        ensures
            self.alloc_verdict() is Ok,
    {
        let geo = self.geometry();
        let p = self.partial()[0];
        assert(self.partial().contains(p));
        assert(self.page_addrs().contains(p));
        let page = self.page(p);
        page.lemma_wf(geo);
        let k = page.free_slots()[0];
        assert(page.free_slots().contains(k));
        assert(crate::slab::page::slot_sound(
            page.memory(),
            geo,
            geo.slot_offset(k),
            page.free_slots().contains(k),
        ));
        geo.lemma_slot_index(page.free_head() as int);
    }

    /// Whether `addr` lies in a page that the allocator holds, outside the
    /// headers of the page and of its slots.
    pub open spec fn reachable(&self, addr: usize) -> bool {
        &&& self.page_addrs().contains(page_of(addr as int) as usize)
        &&& !self.geometry().in_header((addr % PAGE_SIZE) as int)
    }

    /// The byte at `addr`; nothing where it lies in no page of the
    /// allocator or in a header.
    pub fn read_byte(&self, addr: usize) -> (r: Option<u8>)
        requires
            self.wf(),
        ensures
            r is Some <==> self.reachable(addr),
            r is Some ==> r->0 == self.byte_at(addr),
    {
        broadcast use vstd::std_specs::hash::group_hash_axioms;

        let off: usize = addr % PAGE_SIZE;
        let p: usize = addr - off;
        match self.pages.get(&p) {
            None => None,
            Some(page) => page.read(&self.geo, off),
        }
    }

    /// The byte at `addr` in the memory of the pages.
    pub open spec fn byte_at(&self, addr: usize) -> u8 {
        self.page(page_of(addr as int) as usize).memory()[(addr % PAGE_SIZE) as int]
    }

    /// Whether `addr` lies in the payload of a slot that is handed out.
    pub open spec fn in_live_payload(&self, addr: usize) -> bool {
        let geo = self.geometry();
        let p = page_of(addr as int) as usize;
        &&& self.page_addrs().contains(p)
        &&& exists|k: int|
            {
                &&& 0 <= k < geo.slots()
                &&& !self.page(p).free_slots().contains(k)
                &&& geo.slot_offset(k) + geo.front_size <= addr % PAGE_SIZE < #[trigger] geo.slot_offset(
                    k,
                ) + geo.front_size + geo.payload_size
            }
    }

    /// Sets the byte at `addr` and says whether it did. A write reaches
    /// payloads, redzones and padding of the pages that the allocator holds.
    /// A write to another address, or into the header of a page or of a
    /// slot, is refused and changes nothing. A write into the payload of a
    /// slot that is handed out is never refused, and the slots keep passing
    /// their checks after it.
    pub fn write_byte(&mut self, addr: usize, v: u8) -> (ok: bool)
        requires
            old(self).wf(),
        ensures
            final(self).wf(),
            ok == old(self).reachable(addr),
            old(self).in_live_payload(addr) ==> ok,
            final(self).geometry() == old(self).geometry(),
            final(self).page_addrs() == old(self).page_addrs(),
            final(self).partial() == old(self).partial(),
            final(self).provider() == old(self).provider(),
            !ok ==> *final(self) == *old(self),
            ok ==> final(self).byte_at(addr) == v,
            forall|ptr: usize| final(self).is_live(ptr) == old(self).is_live(ptr),
            ok ==> {
                let p = page_of(addr as int) as usize;
                &&& final(self).page(p).memory() == old(self).page(p).memory().update(
                    (addr % PAGE_SIZE) as int,
                    v,
                )
                &&& final(self).page(p).free_slots() == old(self).page(p).free_slots()
                &&& final(self).page(p).free_head() == old(self).page(p).free_head()
                &&& final(self).page(p).alloc_count() == old(self).page(p).alloc_count()
                &&& forall|q: usize|
                    q != p && #[trigger] old(self).page_addrs().contains(q) ==> final(self).page(q)
                        == old(self).page(q)
            },
            old(self).intact() && old(self).in_live_payload(addr) ==> final(self).intact(),
    {
        broadcast use vstd::std_specs::hash::group_hash_axioms;

        let ghost pre = *self;
        let off: usize = addr % PAGE_SIZE;
        let p: usize = addr - off;
        if !self.pages.contains_key(&p) {
            return false;
        }
        proof {
            if self.in_live_payload(addr) {
                let geo = self.geo;
                let k = choose|k: int|
                    {
                        &&& 0 <= k < geo.slots()
                        &&& !self.page(p).free_slots().contains(k)
                        &&& geo.slot_offset(k) + geo.front_size <= addr % PAGE_SIZE < #[trigger] geo.slot_offset(
                            k,
                        ) + geo.front_size + geo.payload_size
                    };
                geo.lemma_bounds();
                geo.lemma_slot_bytes(k, off - geo.slot_offset(k));
            }
        }
        if self.geo.is_header(off) {
            return false;
        }
        let mut page = self.pages.remove(&p).unwrap();
        let ghost before = page;
        let done = page.write(&self.geo, off, v);
        assert(done);
        self.pages.insert(p, page);
        proof {
            let geo = self.geo;
            assert(self.pages@ =~= pre.pages@.insert(p, page));
            assert(self.page_addrs() =~= pre.page_addrs());
            before.lemma_wf(geo);
            assert(page_of(addr as int) == p);
            assert(self.page(p).memory()[off as int] == v);
            assert forall|q: usize| #[trigger] self.pages@.contains_key(q) implies {
                &&& q != 0
                &&& q % PAGE_SIZE == 0
                &&& self.pages@[q].wf(self.geo)
                &&& self.pages@[q].alloc_count() >= 1
                &&& self.avail@.contains(q) <==> self.pages@[q].free_head() != 0
                &&& self.page_allocator.held().contains(q)
            } by {
                assert(pre.pages@.contains_key(q));
            }
            if pre.intact() && pre.in_live_payload(addr) {
                let k = choose|k: int|
                    {
                        &&& 0 <= k < geo.slots()
                        &&& !before.free_slots().contains(k)
                        &&& geo.slot_offset(k) + geo.front_size <= addr % PAGE_SIZE < #[trigger] geo.slot_offset(
                            k,
                        ) + geo.front_size + geo.payload_size
                    };
                before.lemma_wf(geo);
                assert(crate::slab::page::filled(
                    before.memory(),
                    page.memory(),
                    off as int,
                    off + 1,
                    v,
                ));
                assert forall|q: usize| #[trigger] self.page_addrs().contains(q) implies self.page(
                    q,
                ).intact(self.geometry()) by {
                    assert(pre.page_addrs().contains(q));
                    if q == p {
                        assert forall|j: int| 0 <= j < geo.slots() implies #[trigger] crate::slab::page::slot_sound(
                            page.memory(),
                            geo,
                            geo.slot_offset(j),
                            page.free_slots().contains(j),
                        ) by {
                            assert(crate::slab::page::slot_sound(
                                before.memory(),
                                geo,
                                geo.slot_offset(j),
                                before.free_slots().contains(j),
                            ));
                            crate::slab::page::lemma_payload_write_frame(
                                geo,
                                before.memory(),
                                page.memory(),
                                k,
                                off as int,
                                off + 1,
                                v,
                                j,
                            );
                        }
                    }
                }
            }
        }
        true
    }

    /// The checks that come before an allocation: where a page with a free
    /// slot is at hand, its first free slot must be marked free, its
    /// redzones must hold their pattern and its payload the poison pattern.
    pub fn check_alloc(&self) -> (r: Result<(), SlabError>)
        requires
            self.wf(),
        ensures
            r == self.alloc_verdict(),
    {
        broadcast use vstd::std_specs::hash::group_hash_axioms;

        if self.avail.is_empty() {
            return Ok(());
        }
        let head = self.avail.head();
        assert(self.avail@.contains(head)) by {
            assert(self.avail@[0] == head);
        }
        let page = self.pages.get(&head).unwrap();
        page.check_head(&self.geo)
    }
}

} // verus!
