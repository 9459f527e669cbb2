use kernel_alloc::buddy::block::BuddyBlock;
use kernel_alloc::buddy::info::BuddyBlockInfo;
use kernel_alloc::slab::adapter::BuddyPageAllocator;
use kernel_alloc::slab::allocator::SlabAllocator;
use kernel_alloc::slab::geometry::{align_ceil, Geometry, ObjectHeader, PAGE_SIZE, REDZONE_SIZE};
use kernel_alloc::slab::page::{SlabError, SlabPage, OBJECT_MAGIC, REDZONE_FILL, UNUSED_FILL};
use kernel_alloc::slab::provider::PageAllocator;
use rand::rngs::SmallRng;
use rand::{Rng, SeedableRng};

struct Pages {
    next: usize,
    held: Vec<usize>,
    spare: Vec<usize>,
    budget: Option<usize>,
}

impl Pages {
    fn new() -> Self {
        Pages { next: 0x0800_0000, held: Vec::new(), spare: Vec::new(), budget: None }
    }
}

impl PageAllocator for Pages {
    fn allocate(&mut self) -> Option<usize> {
        if let Some(budget) = self.budget {
            if self.held.len() >= budget {
                return None;
            }
        }
        let page = match self.spare.pop() {
            Some(page) => page,
            None => {
                let page = self.next;
                self.next += PAGE_SIZE;
                page
            }
        };
        self.held.push(page);
        Some(page)
    }

    fn deallocate(&mut self, page: usize) {
        let index = self.held.iter().position(|&p| p == page).unwrap();
        self.held.remove(index);
        self.spare.push(page);
    }
}

fn slab(size: u16, align: u16) -> SlabAllocator<Pages> {
    assert!(Geometry::accepts(size, align));
    SlabAllocator::new(size, align, Pages::new())
}

#[test]
fn slab_geometry_formulas() {
    let geo = Geometry::new(32, 8);
    assert_eq!(geo.front_size, 24);
    assert_eq!(geo.object_size, 72);
    assert_eq!(geo.page_offset(), 24);
    assert_eq!(geo.slots_per_page(), 56);

    let geo = Geometry::new(1, 1);
    assert_eq!(ObjectHeader::align(1), 2);
    assert_eq!(geo.front_size, 20);
    assert_eq!(geo.object_size, 38);
    assert_eq!(geo.page_offset(), 24);
    assert_eq!(geo.slots_per_page(), (4096 - 24) / 38);

    let geo = Geometry::new(32, 1024);
    assert_eq!(geo.front_size, 1024);
    assert_eq!(geo.object_size, 2048);
    assert_eq!(geo.page_offset(), 1024);
    assert_eq!(geo.slots_per_page(), 1);

    assert_eq!(align_ceil(20, 8), 24);
    assert_eq!(align_ceil(24, 8), 24);
    assert_eq!(align_ceil(25, 8), 32);
    assert_eq!(align_ceil(0, 16), 0);
    assert_eq!(REDZONE_SIZE, 16);
}

#[test]
fn slab_parameters_are_checked() {
    assert!(Geometry::accepts(32, 8));
    assert!(!Geometry::accepts(32, 0));
    assert!(!Geometry::accepts(32, 3));
    assert!(!Geometry::accepts(32, 24));
    assert!(Geometry::accepts(32, 1024));
    assert!(!Geometry::accepts(32, 2048));
    assert!(!Geometry::accepts(0, 8));
    assert!(!Geometry::accepts(2048, 8));
    assert!(Geometry::accepts(2008, 8));
    // the slot would take more than half a page
    assert!(!Geometry::accepts(2009, 8));
    assert!(!Geometry::accepts(1009, 1024));
    assert!(Geometry::accepts(1008, 1024));
}

#[test]
fn slab_page_format_and_free_list() {
    let geo = Geometry::new(32, 8);
    let mut page = SlabPage::format(&geo);
    assert_eq!(page.free(), 24);
    assert_eq!(page.count(), 0);
    // left redzone, payload, right redzone of the first slot
    for i in 0..16 {
        assert_eq!(page.read(&geo, 24 + 8 + i), Some(REDZONE_FILL));
        assert_eq!(page.read(&geo, 24 + 24 + 32 + i), Some(REDZONE_FILL));
    }
    for i in 0..32 {
        assert_eq!(page.read(&geo, 24 + 24 + i), Some(UNUSED_FILL));
    }
    assert_eq!(page.check_head(&geo), Ok(()));
    let off = page.take(&geo);
    assert_eq!(off, 24);
    assert_eq!(page.free(), 24 + 72);
    assert_eq!(page.count(), 1);
    for i in 0..32 {
        assert_eq!(page.read(&geo, 24 + 24 + i), Some(0));
    }
    assert_eq!(page.check_live(&geo, 24), Ok(()));
    assert_eq!(page.check_live(&geo, 24 + 72), Err(SlabError::NotAllocated));
    page.give_back(&geo, 24);
    assert_eq!(page.free(), 24);
    assert_eq!(page.count(), 0);
    assert_eq!(page.read(&geo, 24 + 24), Some(UNUSED_FILL));
    assert_eq!(page.check_live(&geo, 24), Err(SlabError::NotAllocated));
    assert_eq!(OBJECT_MAGIC, 0x6b5c);
}

#[test]
fn slab_first_pointer_and_order() {
    let mut s = slab(32, 8);
    let first = s.allocate().unwrap();
    let second = s.allocate().unwrap();
    assert_eq!(first, 0x0800_0000 + 24 + 24);
    assert_eq!(second, first + 72);
    assert_eq!(s.pages_held(), 1);
    assert_eq!(s.read_byte(first), Some(0));
    assert_eq!(s.read_byte(first - 1), Some(REDZONE_FILL));
    assert_eq!(s.read_byte(first + 32), Some(REDZONE_FILL));
    assert_eq!(s.read_byte(0x10), None);
    // the slot that came back last goes out first
    s.dealloc(first);
    assert_eq!(s.read_byte(first), Some(UNUSED_FILL));
    assert_eq!(s.allocate(), Some(first));
    s.dealloc(second);
    s.dealloc(first);
    assert_eq!(s.pages_held(), 0);
    assert!(s.page_allocator().held.is_empty());
}

#[test]
fn slab_fill_a_page_drain_refill() {
    let mut s = slab(32, 8);
    let n = s.slots_per_page() as usize;
    let mut ptrs = Vec::new();
    for _ in 0..n {
        ptrs.push(s.try_alloc().unwrap().unwrap());
    }
    assert_eq!(s.pages_held(), 1);
    ptrs.push(s.try_alloc().unwrap().unwrap());
    assert_eq!(s.pages_held(), 2);
    for p in ptrs {
        assert_eq!(s.try_dealloc(p), Ok(()));
    }
    assert_eq!(s.pages_held(), 0);
    for _ in 0..n {
        assert!(s.try_alloc().unwrap().is_some());
    }
    assert_eq!(s.pages_held(), 1);
}

#[test]
fn slab_round_trip_restores_the_fresh_state() {
    let mut fresh = slab(32, 8);
    let mut used = slab(32, 8);
    let n = used.slots_per_page() as usize + 5;
    for _ in 0..n {
        let p = used.allocate().unwrap();
        used.dealloc(p);
        assert_eq!(used.pages_held(), 0);
    }
    // the same pointers come out, page by page, but for the address of the page
    let base_fresh = 0x0800_0000usize;
    for _ in 0..n {
        let a = fresh.allocate().unwrap();
        let b = used.allocate().unwrap();
        assert_eq!(a % PAGE_SIZE, b % PAGE_SIZE);
        assert!(a >= base_fresh);
    }
}

#[test]
fn slab_overflow_of_a_whole_redzone_is_caught() {
    let mut s = slab(32, 8);
    let p = s.allocate().unwrap();
    for i in 0..REDZONE_SIZE as usize {
        assert!(s.write_byte(p + 32 + i, 0x11));
    }
    assert_eq!(s.check_dealloc(p), Err(SlabError::RedzoneCorrupted));
    assert_eq!(s.try_dealloc(p), Err(SlabError::RedzoneCorrupted));
    // nothing changed: the slot is still handed out
    assert_eq!(s.pages_held(), 1);
    for i in 0..REDZONE_SIZE as usize {
        assert!(s.write_byte(p + 32 + i, REDZONE_FILL));
    }
    assert_eq!(s.try_dealloc(p), Ok(()));
}

#[test]
fn slab_redzone_panic() {
    let mut s = slab(32, 8);
    let p = s.allocate().unwrap();
    assert!(s.write_byte(p + 32, 0xAA));
    assert_eq!(s.try_dealloc(p), Err(SlabError::RedzoneCorrupted));
}

#[test]
fn slab_underflow_is_caught() {
    let mut s = slab(32, 8);
    let p = s.allocate().unwrap();
    assert!(s.write_byte(p - 1, 0x00));
    assert_eq!(s.try_dealloc(p), Err(SlabError::RedzoneCorrupted));
}

#[test]
fn slab_double_free_panic() {
    let mut s = slab(32, 8);
    let keep = s.allocate().unwrap();
    let p = s.allocate().unwrap();
    assert_eq!(s.try_dealloc(p), Ok(()));
    assert_eq!(s.try_dealloc(p), Err(SlabError::NotAllocated));
    assert_eq!(s.try_dealloc(keep), Ok(()));
    // the page is gone: the pointer is no slot of this allocator any more
    assert_eq!(s.try_dealloc(keep), Err(SlabError::InvalidPointer));
}

#[test]
fn slab_invalid_pointers_are_refused() {
    let mut s = slab(32, 8);
    let p = s.allocate().unwrap();
    assert_eq!(s.try_dealloc(0), Err(SlabError::InvalidPointer));
    assert_eq!(s.try_dealloc(p + 1), Err(SlabError::InvalidPointer));
    assert_eq!(s.try_dealloc(p - 24), Err(SlabError::InvalidPointer));
    assert_eq!(s.try_dealloc(p + PAGE_SIZE), Err(SlabError::InvalidPointer));
    assert_eq!(s.try_dealloc(p + 72), Err(SlabError::NotAllocated));
    assert_eq!(s.try_dealloc(p), Ok(()));
}

#[test]
fn slab_use_after_free_is_caught_on_allocation() {
    let mut s = slab(32, 8);
    let keep = s.allocate().unwrap();
    let p = s.allocate().unwrap();
    s.dealloc(p);
    // a write through the pointer that was released
    assert!(s.write_byte(p + 5, 0x42));
    assert_eq!(s.check_alloc(), Err(SlabError::PoisonCorrupted));
    assert_eq!(s.try_alloc(), Err(SlabError::PoisonCorrupted));
    assert!(s.write_byte(p + 5, UNUSED_FILL));
    assert!(s.write_byte(p - 16, 0x42));
    assert_eq!(s.try_alloc(), Err(SlabError::RedzoneCorrupted));
    assert!(s.write_byte(p - 16, REDZONE_FILL));
    assert_eq!(s.try_alloc(), Ok(Some(p)));
    s.dealloc(p);
    s.dealloc(keep);
}

#[test]
fn slab_out_of_pages_is_none_and_changes_nothing() {
    assert!(Geometry::accepts(1992, 8));
    let mut provider = Pages::new();
    provider.budget = Some(1);
    let mut s = SlabAllocator::new(1992, 8, provider);
    let a = s.allocate().unwrap();
    let b = s.allocate().unwrap();
    assert_eq!(s.try_alloc(), Ok(None));
    assert_eq!(s.pages_held(), 1);
    assert_eq!(s.page_allocator().held.len(), 1);
    s.dealloc(a);
    assert_eq!(s.allocate(), Some(a));
    s.dealloc(a);
    s.dealloc(b);
    assert_eq!(s.pages_held(), 0);
}

#[test]
fn slab_interleaved_mixed_allocation() {
    let mut s = slab(40, 8);
    let mut rng = SmallRng::seed_from_u64(42);
    let mut ptrs: Vec<usize> = Vec::new();
    for _ in 0..10_000 {
        if rng.random_bool(0.5) || ptrs.is_empty() {
            let p = s.try_alloc().unwrap().unwrap();
            assert!(!ptrs.contains(&p));
            ptrs.push(p);
        } else {
            let idx = rng.random_range(0..ptrs.len());
            let p = ptrs.swap_remove(idx);
            assert_eq!(s.try_dealloc(p), Ok(()));
        }
    }
    for p in ptrs {
        assert_eq!(s.try_dealloc(p), Ok(()));
    }
    assert_eq!(s.pages_held(), 0);
    assert!(s.page_allocator().held.is_empty());
}

#[test]
fn slab_on_top_of_the_buddy_allocator() {
    let base = 0x4000_0000usize;
    let len = 0x0010_0000usize;
    assert!(BuddyBlockInfo::fits(base, len));
    let buddy = BuddyBlock::new(base, len);
    let mut s = SlabAllocator::new(64, 16, BuddyPageAllocator::new(buddy));
    let n = s.slots_per_page() as usize;
    let mut ptrs = Vec::new();
    for _ in 0..(3 * n) {
        let p = s.allocate().unwrap();
        assert_eq!(p % 16, 0);
        assert!(p >= base + PAGE_SIZE && p < base + len);
        ptrs.push(p);
    }
    assert_eq!(s.pages_held(), 3);
    assert_eq!(s.page_allocator().buddy().used(), 3 * PAGE_SIZE);
    for p in ptrs {
        s.dealloc(p);
    }
    assert_eq!(s.pages_held(), 0);
    assert_eq!(s.page_allocator().buddy().used(), 0);
}

#[test]
fn slab_on_top_of_an_empty_buddy_gets_nothing() {
    let mut s = SlabAllocator::new(64, 16, BuddyPageAllocator::new(BuddyBlock::empty()));
    assert_eq!(s.allocate(), None);
    assert_eq!(s.pages_held(), 0);
}

#[test]
fn slab_errors_have_words() {
    assert_eq!(SlabError::RedzoneCorrupted.message(), "slab is poisoned: redzone overwritten");
    assert_eq!(SlabError::PoisonCorrupted.message(), "dangling pointer exists or slab is poisoned");
    assert!(SlabError::NotAllocated.message().starts_with("invalid dealloc()"));
    assert!(SlabError::InvalidPointer.message().starts_with("invalid dealloc()"));
}

#[test]
fn slab_keeps_passing_its_checks() {
    let mut s = slab(24, 4);
    let mut rng = SmallRng::seed_from_u64(7);
    let mut ptrs: Vec<usize> = Vec::new();
    for round in 0..2_000usize {
        assert_eq!(s.check_alloc(), Ok(()));
        if rng.random_bool(0.55) || ptrs.is_empty() {
            let p = s.allocate().unwrap();
            assert_eq!(p % 4, 0);
            // the payload is zeroed and may be written all over
            for i in 0..24 {
                assert_eq!(s.read_byte(p + i), Some(0));
                assert!(s.write_byte(p + i, (round + i) as u8));
            }
            ptrs.push(p);
        } else {
            let idx = rng.random_range(0..ptrs.len());
            let p = ptrs.swap_remove(idx);
            assert_eq!(s.check_dealloc(p), Ok(()));
            s.dealloc(p);
        }
    }
    while let Some(p) = ptrs.pop() {
        s.dealloc(p);
    }
    assert_eq!(s.pages_held(), 0);
}

#[test]
fn slab_page_for_a_provider_answer() {
    let geo = Geometry::new(32, 8);
    assert!(SlabPage::format_at(&geo, None).is_none());
    let (addr, page) = SlabPage::format_at(&geo, Some(0x0800_3000)).unwrap();
    assert_eq!(addr, 0x0800_3000);
    assert_eq!(page.free(), 24);
    assert_eq!(page.count(), 0);
    assert_eq!(page.check_head(&geo), Ok(()));
}

#[test]
fn slab_headers_are_out_of_reach_of_writes() {
    let geo = Geometry::new(32, 8);
    assert!(geo.is_header(0) && geo.is_header(23));
    // the first slot starts at 24: four bytes of header, then padding and redzone
    assert!(geo.is_header(24) && geo.is_header(27) && !geo.is_header(28));
    assert!(geo.is_header(24 + 72) && !geo.is_header(24 + 71));
    // behind the last slot there is no header
    assert!(!geo.is_header(24 + 56 * 72));
    assert!(!geo.is_header(4095));

    let mut page = SlabPage::format(&geo);
    assert_eq!(page.read(&geo, 0), None);
    assert_eq!(page.read(&geo, 4096), None);
    assert!(!page.write(&geo, 24, 0xff));
    assert!(page.write(&geo, 28, 0xff));
    assert_eq!(page.read(&geo, 28), Some(0xff));

    let mut s = slab(32, 8);
    let p = s.allocate().unwrap();
    let page_base = p - 48;
    // the page header and the slot's header refuse the write; nothing changes
    assert!(!s.write_byte(page_base, 0x55));
    assert!(!s.write_byte(page_base + 24, 0x55));
    assert!(!s.write_byte(page_base + 24 + 72 + 3, 0x55));
    assert_eq!(s.read_byte(page_base + 24), None);
    assert_eq!(s.check_dealloc(p), Ok(()));
    assert_eq!(s.check_alloc(), Ok(()));
    // every byte of the payload takes a write
    for i in 0..32 {
        assert!(s.write_byte(p + i, 0x55));
    }
    s.dealloc(p);
}
