use kernel_alloc::slab::allocator::SlabAllocator;
use kernel_alloc::slab::geometry::{Geometry, PAGE_SIZE};
use kernel_alloc::slab::provider::PageAllocator;

struct MockPageAllocator {
    next: usize,
    pages: Vec<usize>,
    deallocated: Vec<usize>,
    limit: Option<usize>,
    no_dealloc: bool,
}

impl MockPageAllocator {
    fn new() -> Self {
        Self { next: 0x0010_0000, pages: Vec::new(), deallocated: Vec::new(), limit: None, no_dealloc: false }
    }
}

impl PageAllocator for MockPageAllocator {
    fn allocate(&mut self) -> Option<usize> {
        let page = self.next;
        self.next += PAGE_SIZE;
        self.pages.push(page);
        if let Some(limit) = self.limit {
            assert!(self.pages.len() <= limit, "Should allocate {} pages at most", limit);
        }
        Some(page)
    }

    fn deallocate(&mut self, page: usize) {
        assert!(!self.no_dealloc, "Should not deallocate any pages during this test");
        let index = self.pages.iter().position(|&p| p == page).unwrap();
        self.pages.remove(index);
        self.deallocated.push(page);
    }
}

fn new_slab(size: u16, align: u16) -> SlabAllocator<MockPageAllocator> {
    assert!(Geometry::accepts(size, align));
    SlabAllocator::new(size, align, MockPageAllocator::new())
}

fn take(slab: &mut SlabAllocator<MockPageAllocator>) -> Option<usize> {
    match slab.try_alloc() {
        Ok(got) => got,
        Err(e) => panic!("slab is poisoned: {:?}", e),
    }
}

fn give(slab: &mut SlabAllocator<MockPageAllocator>, ptr: usize) {
    if let Err(e) = slab.try_dealloc(ptr) {
        panic!("invalid dealloc() or slab is poisoned: {:?}", e);
    }
}

#[test]
fn test_slab_large_allocation_and_deallocation() {
    let mut slab_allocator = new_slab(128, 16);

    let mut allocated_ptrs = Vec::new();

    // Allocate enough objects to span multiple pages
    for _ in 0..(PAGE_SIZE / 128 * 5) {
        let ptr = take(&mut slab_allocator).unwrap();
        allocated_ptrs.push(ptr);
    }

    // Ensure all pointers are unique
    for i in 0..allocated_ptrs.len() {
        for j in (i + 1)..allocated_ptrs.len() {
            assert_ne!(allocated_ptrs[i], allocated_ptrs[j]);
        }
    }

    // Deallocate all objects
    for ptr in allocated_ptrs {
        give(&mut slab_allocator, ptr);
    }

    // Ensure allocator can reuse pages after deallocation
    let ptr = take(&mut slab_allocator);
    assert!(ptr.is_some());
}

#[test]
fn test_slab_interleaved_allocation_and_deallocation() {
    let mut slab_allocator = new_slab(64, 8);

    let mut allocated_ptrs = Vec::new();

    // Interleave allocation and deallocation
    for i in 0..100 {
        if i % 3 == 0 && !allocated_ptrs.is_empty() {
            let ptr = allocated_ptrs.pop().unwrap();
            give(&mut slab_allocator, ptr);
        } else {
            let ptr = take(&mut slab_allocator).unwrap();
            allocated_ptrs.push(ptr);
        }
    }

    // Deallocate remaining objects
    for ptr in allocated_ptrs {
        give(&mut slab_allocator, ptr);
    }

    // Ensure allocator can still allocate after interleaved operations
    let ptr = take(&mut slab_allocator);
    assert!(ptr.is_some());
}

#[test]
fn test_fragmentation_handling() {
    let mut slab_allocator = new_slab(128, 16);

    let mut allocated_ptrs = Vec::new();

    // Allocate and deallocate in a pattern to create fragmentation
    for i in 0..50 {
        let ptr = take(&mut slab_allocator).unwrap();
        if i % 2 == 0 {
            give(&mut slab_allocator, ptr);
        } else {
            allocated_ptrs.push(ptr);
        }
    }

    // Deallocate remaining objects
    for ptr in allocated_ptrs {
        give(&mut slab_allocator, ptr);
    }

    // Ensure allocator can still allocate after fragmentation
    let ptr = take(&mut slab_allocator);
    assert!(ptr.is_some());
}

#[test]
fn test_slab_stress_allocation_and_deallocation() {
    let mut slab_allocator = new_slab(256, 32);

    let mut allocated_ptrs = Vec::new();

    // Interleave allocation and deallocation
    for i in 0..1000 {
        if i % 5 == 0 && !allocated_ptrs.is_empty() {
            let ptr = allocated_ptrs.pop().unwrap();
            give(&mut slab_allocator, ptr);
        } else {
            let ptr = take(&mut slab_allocator).unwrap();
            allocated_ptrs.push(ptr);
        }
    }

    // Deallocate remaining objects
    for ptr in allocated_ptrs {
        give(&mut slab_allocator, ptr);
    }

    // Ensure allocator can still allocate after interleaved operations
    let ptr = take(&mut slab_allocator);
    assert!(ptr.is_some());
}

