use kernel_alloc::slab::allocator::SlabAllocator;
use kernel_alloc::slab::geometry::{Geometry, PAGE_SIZE};
use kernel_alloc::slab::provider::PageAllocator;
use rand::rngs::SmallRng;
use rand::seq::SliceRandom;
use rand::{Rng, SeedableRng};

struct MockPageAllocator {
    next: usize,
    pages: Vec<usize>,
    deallocated: Vec<usize>,
    limit: Option<usize>,
    no_dealloc: bool,
}

impl MockPageAllocator {
    fn new() -> Self {
        Self { next: 0x0010_0000, pages: Vec::new(), deallocated: Vec::new(), limit: None, no_dealloc: false }
    }
}

impl PageAllocator for MockPageAllocator {
    fn allocate(&mut self) -> Option<usize> {
        let page = self.next;
        self.next += PAGE_SIZE;
        self.pages.push(page);
        if let Some(limit) = self.limit {
            assert!(self.pages.len() <= limit, "Should allocate {} pages at most", limit);
        }
        Some(page)
    }

    fn deallocate(&mut self, page: usize) {
        assert!(!self.no_dealloc, "Should not deallocate any pages during this test");
        let index = self.pages.iter().position(|&p| p == page).unwrap();
        self.pages.remove(index);
        self.deallocated.push(page);
    }
}

fn new_slab(size: u16, align: u16) -> SlabAllocator<MockPageAllocator> {
    assert!(Geometry::accepts(size, align));
    SlabAllocator::new(size, align, MockPageAllocator::new())
}

fn take(slab: &mut SlabAllocator<MockPageAllocator>) -> Option<usize> {
    match slab.try_alloc() {
        Ok(got) => got,
        Err(e) => panic!("slab is poisoned: {:?}", e),
    }
}

fn give(slab: &mut SlabAllocator<MockPageAllocator>, ptr: usize) {
    if let Err(e) = slab.try_dealloc(ptr) {
        panic!("invalid dealloc() or slab is poisoned: {:?}", e);
    }
}

#[test]
fn test_slab_test_slab_allocator_creation() {
    let _slab_allocator = new_slab(64, 8);
}

#[test]
fn test_slab_alloc_dealloc_once() {
    let mut slab_allocator = new_slab(64, 8);

    // Allocate a chunk
    let chunk = take(&mut slab_allocator);
    assert!(chunk.is_some());

    // Deallocate the chunk
    if let Some(ptr) = chunk {
        give(&mut slab_allocator, ptr);
    }
}

#[test]
fn test_slab_alignment_8() {
    let mut slab_allocator = new_slab(24, 8);

    let ptr = take(&mut slab_allocator).unwrap();
    assert_eq!(ptr % 8, 0, "Pointer is not 8-byte aligned");
    give(&mut slab_allocator, ptr);
}

#[test]
fn test_slab_alignment_16() {
    let mut slab_allocator = new_slab(32, 16);

    let ptr = take(&mut slab_allocator).unwrap();
    assert_eq!(ptr % 16, 0, "Pointer is not 16-byte aligned");
    give(&mut slab_allocator, ptr);
}

#[test]
fn test_slab_alignment_64() {
    let mut slab_allocator = new_slab(128, 64);

    let ptr = take(&mut slab_allocator).unwrap();
    assert_eq!(ptr % 64, 0, "Pointer is not 64-byte aligned");
    give(&mut slab_allocator, ptr);
}

#[test]
fn test_slab_alignment_multiple_chunks() {
    let mut slab_allocator = new_slab(64, 32);

    let mut ptrs = Vec::new();
    for _ in 0..10 {
        let ptr = take(&mut slab_allocator).unwrap();
        assert_eq!(ptr % 32, 0, "Pointer is not 32-byte aligned");
        ptrs.push(ptr);
    }
    for ptr in ptrs {
        give(&mut slab_allocator, ptr);
    }
}

#[test]
fn test_slab_alignment_random_sizes() {
    let mut slab_allocator = new_slab(256, 128);

    let mut ptrs = Vec::new();
    for _ in 0..5 {
        let ptr = take(&mut slab_allocator).unwrap();
        assert_eq!(ptr % 128, 0, "Pointer is not 128-byte aligned");
        ptrs.push(ptr);
    }
    for ptr in ptrs {
        give(&mut slab_allocator, ptr);
    }
}

#[test]
fn test_slab_exhaustion_and_reuse() {
    let mut slab_allocator = new_slab(32, 16);

    let chunks_per_page = PAGE_SIZE / 32;
    let mut ptrs = Vec::new();

    // Allocate all possible chunks in a page
    for _ in 0..chunks_per_page {
        let ptr = take(&mut slab_allocator).expect("Should allocate chunk");
        ptrs.push(ptr);
    }

    // Allocating one more should allocate a new page (should not panic or return None)
    let extra = take(&mut slab_allocator);
    assert!(extra.is_some(), "Should allocate chunk from new page");

    // Deallocate all and ensure reuse
    for ptr in ptrs {
        give(&mut slab_allocator, ptr);
    }
    if let Some(ptr) = extra {
        give(&mut slab_allocator, ptr);
    }

    // After deallocation, allocation should succeed again
    let ptr = take(&mut slab_allocator);
    assert!(ptr.is_some());
    give(&mut slab_allocator, ptr.unwrap());
}

#[test]
fn test_slab_random_alloc_dealloc_pattern() {
    let mut slab_allocator = new_slab(40, 8);

    let mut rng = SmallRng::seed_from_u64(42);
    let mut ptrs = Vec::new();

    // Randomly allocate and deallocate
    for _ in 0..100 {
        if rng.random_bool(0.6) || ptrs.is_empty() {
            if let Some(ptr) = take(&mut slab_allocator) {
                ptrs.push(ptr);
            }
        } else {
            let idx = rng.random_range(0..ptrs.len());
            let ptr = ptrs.swap_remove(idx);
            give(&mut slab_allocator, ptr);
        }
    }

    // Clean up
    for ptr in ptrs {
        give(&mut slab_allocator, ptr);
    }
}

#[test]
fn test_slab_null_alloc_returns_none() {
    struct FailingAllocator;
    impl PageAllocator for FailingAllocator {
        fn allocate(&mut self) -> Option<usize> {
            None
        }
        fn deallocate(&mut self, _page: usize) {}
    }

    let mut slab_allocator: SlabAllocator<FailingAllocator> = SlabAllocator::new(64, 8, FailingAllocator);

    let ptr = slab_allocator.allocate();
    assert!(ptr.is_none(), "Should return None if page allocation fails");
}

#[test]
fn test_slab_large_chunk() {
    // A payload of half a page is not below half a page: no slab is laid out for it.
    assert!(!Geometry::accepts((PAGE_SIZE / 2) as u16, 8));

    // A large payload of which two slots fit in a page.
    assert!(Geometry::accepts(1992, 8));
    let mut slab_allocator = new_slab(1992, 8);
    assert_eq!(slab_allocator.slots_per_page(), 2);
    let ptr1 = take(&mut slab_allocator);
    let ptr2 = take(&mut slab_allocator);
    assert!(ptr1.is_some());
    assert!(ptr2.is_some());
    assert_eq!(slab_allocator.pages_held(), 1);
    let ptr3 = take(&mut slab_allocator);
    assert!(ptr3.is_some(), "Should allocate from a new page");
    assert_eq!(slab_allocator.pages_held(), 2);

    // Clean up
    give(&mut slab_allocator, ptr1.unwrap());
    give(&mut slab_allocator, ptr2.unwrap());
    give(&mut slab_allocator, ptr3.unwrap());
}

#[test]
fn test_slab_interleaved_alloc_dealloc_multiple_types() {
    let mut slab_a = new_slab(48, 16);
    let mut slab_b = new_slab(64, 32);

    let mut ptrs_a = Vec::new();
    let mut ptrs_b = Vec::new();

    // Interleaved allocation
    for i in 0..20 {
        if i % 2 == 0 {
            ptrs_a.push(take(&mut slab_a).unwrap());
        } else {
            ptrs_b.push(take(&mut slab_b).unwrap());
        }
    }

    // Interleaved deallocation
    for (a, b) in ptrs_a.drain(..).zip(ptrs_b.drain(..)) {
        give(&mut slab_a, a);
        give(&mut slab_b, b);
    }
}

#[test]
fn test_slab_stress_many_pages() {
    let mut slab = new_slab(32, 8);

    let chunks_per_page = PAGE_SIZE / 32;
    let total_chunks = chunks_per_page * 50; // 50 pages

    let mut ptrs = Vec::with_capacity(total_chunks);
    for _ in 0..total_chunks {
        ptrs.push(take(&mut slab).unwrap());
    }
    for ptr in ptrs {
        give(&mut slab, ptr);
    }
}

#[test]
fn test_slab_repeated_alloc_dealloc_cycles() {
    let mut slab = new_slab(48, 16);

    let chunks_per_page = PAGE_SIZE / 48;
    for _ in 0..10 {
        let mut ptrs = Vec::new();
        for _ in 0..chunks_per_page * 3 {
            ptrs.push(take(&mut slab).unwrap());
        }
        ptrs.shuffle(&mut rand::rng());
        for ptr in ptrs {
            give(&mut slab, ptr);
        }
    }
}

#[test]
fn test_slab_double_free_panics() {
    let mut slab = new_slab(32, 8);

    let ptr = take(&mut slab).unwrap();
    give(&mut slab, ptr);
    // Double free should be refused
    let result = slab.try_dealloc(ptr);
    assert!(result.is_err(), "Double free should panic or fail");
}

#[test]
fn test_slab_alloc_dealloc_pattern_with_gaps() {
    let mut slab = new_slab(24, 8);

    let mut ptrs = Vec::new();
    for _ in 0..30 {
        ptrs.push(take(&mut slab).unwrap());
    }
    // Deallocate every third chunk
    for i in (0..ptrs.len()).step_by(3) {
        give(&mut slab, ptrs[i]);
    }
    // Allocate again, should reuse freed slots
    let mut new_ptrs = Vec::new();
    for _ in 0..10 {
        new_ptrs.push(take(&mut slab).unwrap());
    }
    // Clean up
    for (i, ptr) in ptrs.into_iter().enumerate() {
        if i % 3 != 0 {
            give(&mut slab, ptr);
        }
    }
    for ptr in new_ptrs {
        give(&mut slab, ptr);
    }
}

#[test]
fn test_slab_fragmentation_and_reuse() {
    let mut slab = new_slab(40, 8);

    let mut ptrs = Vec::new();
    for _ in 0..100 {
        ptrs.push(take(&mut slab).unwrap());
    }
    // Free every even-indexed chunk
    for i in (0..ptrs.len()).step_by(2) {
        give(&mut slab, ptrs[i]);
    }
    // Allocate again, should fill freed slots
    let mut reused = Vec::new();
    for _ in 0..50 {
        reused.push(take(&mut slab).unwrap());
    }
    // Clean up
    for i in (1..ptrs.len()).step_by(2) {
        give(&mut slab, ptrs[i]);
    }
    for ptr in reused {
        give(&mut slab, ptr);
    }
}

#[test]
fn test_slab_old_multiple_pages_allocation_and_deallocation() {
    let mut slab_allocator = new_slab(64, 8);

    let mut allocated_ptrs = Vec::new();

    // Allocate enough objects to span multiple pages
    for _ in 0..(PAGE_SIZE / 64 * 3) {
        let ptr = take(&mut slab_allocator).unwrap();
        allocated_ptrs.push(ptr);
    }

    // Ensure all pointers are unique
    for i in 0..allocated_ptrs.len() {
        for j in (i + 1)..allocated_ptrs.len() {
            assert_ne!(allocated_ptrs[i], allocated_ptrs[j]);
        }
    }

    // Deallocate all objects
    for ptr in allocated_ptrs {
        give(&mut slab_allocator, ptr);
    }

    // Ensure allocator can reuse pages after deallocation
    let ptr = take(&mut slab_allocator);
    assert!(ptr.is_some());
}

#[test]
fn test_slab_old_random_allocation_and_deallocation_sequencial() {
    let mut slab_allocator = new_slab(64, 8);

    let mut allocated_ptrs = Vec::new();

    let seed: u64 = rand::random();
    let mut rng = SmallRng::seed_from_u64(seed);

    println!("Random seed: {}", seed);

    // Allocate enough objects to exceed 3 times the page size
    for _ in 0..(PAGE_SIZE / 64 * 4) {
        let ptr = take(&mut slab_allocator).unwrap();
        allocated_ptrs.push(ptr);
    }

    // Shuffle the allocated pointers to randomize deallocation order
    allocated_ptrs.shuffle(&mut rng);

    // Deallocate in random order
    for ptr in allocated_ptrs {
        give(&mut slab_allocator, ptr);
    }

    // Ensure allocator can still allocate after random deallocation
    let ptr = take(&mut slab_allocator);
    assert!(ptr.is_some());
}

#[test]
fn test_slab_old_random_allocation_and_deallocation_interleaved() {
    let mut slab_allocator = new_slab(64, 8);

    let mut allocated_ptrs = Vec::new();

    let seed: u64 = rand::random();
    let mut rng = SmallRng::seed_from_u64(seed);

    println!("Random seed: {}", seed);

    // Interleave allocation and deallocation
    let repeat = PAGE_SIZE / 64 * 4;
    for i in 0..repeat {
        if rng.random_bool((i as f64) / (repeat as f64)) && !allocated_ptrs.is_empty() {
            // Randomly deallocate an object if possible
            let index = rng.random_range(0..allocated_ptrs.len());
            let ptr = allocated_ptrs.swap_remove(index);
            give(&mut slab_allocator, ptr);
        } else {
            // Allocate a new object
            let ptr = take(&mut slab_allocator).unwrap();
            allocated_ptrs.push(ptr);
        }
    }

    // Deallocate left pointers
    for ptr in allocated_ptrs {
        give(&mut slab_allocator, ptr);
    }

    // Ensure allocator can still allocate after random deallocation
    let ptr = take(&mut slab_allocator);
    assert!(ptr.is_some());
}

#[test]
fn test_slab_old_large_allocation_and_deallocation() {
    let mut slab_allocator = new_slab(128, 16);

    let mut allocated_ptrs = Vec::new();

    // Allocate enough objects to span multiple pages
    for _ in 0..(PAGE_SIZE / 128 * 5) {
        let ptr = take(&mut slab_allocator).unwrap();
        allocated_ptrs.push(ptr);
    }

    // Ensure all pointers are unique
    for i in 0..allocated_ptrs.len() {
        for j in (i + 1)..allocated_ptrs.len() {
            assert_ne!(allocated_ptrs[i], allocated_ptrs[j]);
        }
    }

    // Deallocate all objects
    for ptr in allocated_ptrs {
        give(&mut slab_allocator, ptr);
    }

    // Ensure allocator can reuse pages after deallocation
    let ptr = take(&mut slab_allocator);
    assert!(ptr.is_some());
}

#[test]
fn test_slab_old_interleaved_allocation_and_deallocation() {
    let mut slab_allocator = new_slab(64, 8);

    let mut allocated_ptrs = Vec::new();

    // Interleave allocation and deallocation
    for i in 0..100 {
        if i % 3 == 0 && !allocated_ptrs.is_empty() {
            let ptr = allocated_ptrs.pop().unwrap();
            give(&mut slab_allocator, ptr);
        } else {
            let ptr = take(&mut slab_allocator).unwrap();
            allocated_ptrs.push(ptr);
        }
    }

    // Deallocate remaining objects
    for ptr in allocated_ptrs {
        give(&mut slab_allocator, ptr);
    }

    // Ensure allocator can still allocate after interleaved operations
    let ptr = take(&mut slab_allocator);
    assert!(ptr.is_some());
}

#[test]
fn test_slab_old_fragmentation_handling() {
    let mut slab_allocator = new_slab(128, 16);

    let mut allocated_ptrs = Vec::new();

    // Allocate and deallocate in a pattern to create fragmentation
    for i in 0..50 {
        let ptr = take(&mut slab_allocator).unwrap();
        if i % 2 == 0 {
            give(&mut slab_allocator, ptr);
        } else {
            allocated_ptrs.push(ptr);
        }
    }

    // Deallocate remaining objects
    for ptr in allocated_ptrs {
        give(&mut slab_allocator, ptr);
    }

    // Ensure allocator can still allocate after fragmentation
    let ptr = take(&mut slab_allocator);
    assert!(ptr.is_some());
}

#[test]
fn test_slab_old_stress_allocation_and_deallocation() {
    let mut slab_allocator = new_slab(256, 32);

    let mut allocated_ptrs = Vec::new();

    // Interleave allocation and deallocation
    for i in 0..1000 {
        if i % 5 == 0 && !allocated_ptrs.is_empty() {
            let ptr = allocated_ptrs.pop().unwrap();
            give(&mut slab_allocator, ptr);
        } else {
            let ptr = take(&mut slab_allocator).unwrap();
            allocated_ptrs.push(ptr);
        }
    }

    // Deallocate remaining objects
    for ptr in allocated_ptrs {
        give(&mut slab_allocator, ptr);
    }

    // Ensure allocator can still allocate after interleaved operations
    let ptr = take(&mut slab_allocator);
    assert!(ptr.is_some());
}

#[test]
fn test_slab_redzone_detection_on_overflow() {
    let mut slab = new_slab(32, 8);

    let ptr = take(&mut slab).unwrap();

    // Write 1 byte past the end of the chunk
    assert!(slab.write_byte(ptr + 32, 0xAA));
    let result = slab.try_dealloc(ptr);
    assert!(result.is_err(), "Redzone overflow should panic or fail");
}

#[test]
fn test_slab_redzone_detection_on_underflow() {
    let mut slab = new_slab(32, 8);

    let ptr = take(&mut slab).unwrap();

    // Write 1 byte before the start of the chunk
    assert!(slab.write_byte(ptr - 1, 0xBB));
    let result = slab.try_dealloc(ptr);
    assert!(result.is_err(), "Redzone underflow should panic or fail");
}

#[test]
fn test_slab_redzone_integrity_on_normal_use() {
    let mut slab = new_slab(32, 8);

    let ptr = take(&mut slab).unwrap();

    // Write within the chunk boundaries
    for i in 0..32usize {
        assert!(slab.write_byte(ptr + i, i as u8));
    }
    give(&mut slab, ptr);
    // If no error occurs, redzone is intact for normal use
}

#[test]
fn test_slab_alloc_dealloc_full_page_cycle() {
    let mut slab = new_slab(32, 8);

    let chunks_per_page = (PAGE_SIZE - slab.page_offset() as usize) / slab.geometry_of().object_size as usize;
    assert_eq!(chunks_per_page, slab.slots_per_page() as usize);
    let mut ptrs = Vec::with_capacity(chunks_per_page);

    // Fill a page
    for _ in 0..chunks_per_page {
        ptrs.push(take(&mut slab).unwrap());
        assert!(slab.page_allocator().pages.len() == 1, "Should allocate exactly one page");
    }

    // Deallocate all
    for ptr in ptrs {
        give(&mut slab, ptr);
    }

    // Allocate again
    for _ in 0..chunks_per_page {
        assert!(take(&mut slab).is_some());
        assert!(slab.page_allocator().pages.len() == 1, "Should allocate exactly one page");
    }
}

#[test]
fn test_slab_alloc_dealloc_interleaved_pages() {
    assert!(Geometry::accepts(64, 8));
    let mut provider = MockPageAllocator::new();
    provider.limit = Some(2);
    provider.no_dealloc = true;
    let mut slab = SlabAllocator::new(64, 8, provider);

    let chunks_per_page = (PAGE_SIZE - slab.page_offset() as usize) / slab.geometry_of().object_size as usize;
    let mut ptrs = Vec::new();

    // Allocate enough for two pages
    for _ in 0..(chunks_per_page * 2) {
        ptrs.push(take(&mut slab).unwrap());
    }

    // Deallocate every other chunk
    for i in (0..ptrs.len()).step_by(2) {
        give(&mut slab, ptrs[i]);
    }

    // Allocate again, should fill freed slots before allocating new pages
    for _ in 0..chunks_per_page {
        assert!(take(&mut slab).is_some());
    }
}

#[test]
fn test_slab_alloc_dealloc_after_drop() {
    let _ = {
        let mut slab = new_slab(32, 8);
        let ptr = take(&mut slab).unwrap();
        give(&mut slab, ptr);
        ptr
    };
}

#[test]
fn test_slab_alloc_dealloc_many_types() {
    let mut slab_a = new_slab(16, 8);
    let mut slab_b = new_slab(32, 16);
    let mut slab_c = new_slab(64, 32);

    let ptr_a = take(&mut slab_a).unwrap();
    let ptr_b = take(&mut slab_b).unwrap();
    let ptr_c = take(&mut slab_c).unwrap();

    give(&mut slab_a, ptr_a);
    give(&mut slab_b, ptr_b);
    give(&mut slab_c, ptr_c);
}

#[test]
fn test_slab_alloc_dealloc_zero_sized_type() {
    // A payload of no bytes is not laid out.
    assert!(!Geometry::accepts(0, 8));

    // The smallest payload: every allocation has an address of its own.
    let mut slab = new_slab(1, 8);
    let ptr1 = take(&mut slab).unwrap();
    let ptr2 = take(&mut slab).unwrap();
    assert_ne!(ptr1, ptr2);

    give(&mut slab, ptr1);
    give(&mut slab, ptr2);
}

#[test]
fn test_slab_alloc_dealloc_with_unusual_alignment() {
    let mut slab = new_slab(128, 256);

    let ptr = take(&mut slab).unwrap();
    assert_eq!(ptr % 256, 0);
    give(&mut slab, ptr);
}

#[test]
fn test_slab_alloc_dealloc_with_minimum_size() {
    let mut slab = new_slab(1, 1);

    let ptr = take(&mut slab).unwrap();
    give(&mut slab, ptr);
}

#[test]
fn test_slab_alloc_dealloc_with_large_alignment() {
    let mut slab = new_slab(32, 1024);

    let ptr = take(&mut slab).unwrap();
    assert_eq!(ptr % 1024, 0);
    give(&mut slab, ptr);
}

#[test]
fn test_slab_alloc_dealloc_with_multiple_allocators() {
    let mut allocators = Vec::new();
    for _ in 0..4 {
        allocators.push(MockPageAllocator::new());
    }
    let mut slabs: Vec<SlabAllocator<MockPageAllocator>> = allocators
        .into_iter()
        .map(|pa| SlabAllocator::new(32, 8, pa))
        .collect();

    let mut ptrs = Vec::new();
    for slab in &mut slabs {
        ptrs.push(take(slab).unwrap());
    }
    for (slab, ptr) in slabs.iter_mut().zip(ptrs) {
        give(slab, ptr);
    }
}

