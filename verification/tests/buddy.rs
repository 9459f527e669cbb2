use kernel_alloc::buddy::block::{bitmap_index_for_size, BuddyBlock};
use kernel_alloc::buddy::checked::CheckedBuddy;
use kernel_alloc::buddy::info::BuddyBlockInfo;
use kernel_alloc::buddy::layout::UNIT_SIZE;

const BASE: usize = 0x4000_0000;
const LEN: usize = 0x0020_0000;

fn create_buddy() -> BuddyBlock {
    assert!(BuddyBlockInfo::fits(BASE, LEN));
    BuddyBlock::new(BASE, LEN)
}

#[test]
fn test_new() {
    let buddy = create_buddy();

    let begin = BASE;
    let len = LEN;

    fn calc_lev_bitlen(blocks: usize) -> (u32, usize) {
        let mut level = 0;
        let mut bitlen = 0;
        while (blocks >> level) != 0 {
            bitlen += ((blocks >> level) + 7) / 8;
            level += 1;
        }
        (level, bitlen)
    }

    let units = 0x1ff000 / UNIT_SIZE;
    let (level, bitlen) = calc_lev_bitlen(units);
    let metalen = (level as usize) * 16 + bitlen;

    println!("{:?}", buddy.info());
    assert_eq!(buddy.info().raw_addr(), begin);
    assert_eq!(buddy.info().total_len(), len);
    assert_eq!(buddy.info().metadata_len(), metalen);
    assert_eq!(buddy.info().data_offset(), UNIT_SIZE);
    assert_eq!(buddy.info().units(), units);
    assert_eq!(buddy.info().levels(), level);
    assert_eq!(buddy.info().data_addr(), begin + UNIT_SIZE);
}

#[test]
fn test_seq() {
    let mut buddy = create_buddy();

    for level in 0..buddy.info().levels() {
        let block_count = buddy.info().units() >> level;
        let size = UNIT_SIZE << level;

        assert_eq!(buddy.used(), 0);

        for index in 0..block_count {
            let got = buddy.allocate(size - 1); // test unaligned
            assert!(got.is_some(), "alloc() fail: level={} size={} index={}", level, size, index);
        }

        assert_eq!(buddy.used(), buddy.info().data_len() / size * size);

        for index in 0..block_count {
            let addr = buddy.info().data_addr() + size * index;
            assert!(buddy.can_dealloc(addr + 1, size - 1));
            buddy.dealloc(addr + 1, size - 1); // test unaligned
        }

        assert_eq!(buddy.used(), 0);
    }
}

#[test]
fn buddy_construction_over_two_mebibytes() {
    let mut buddy = create_buddy();
    assert_eq!(buddy.info().units(), 0x1ff);
    assert_eq!(buddy.info().levels(), 9);
    assert_eq!(buddy.info().data_addr(), BASE + 0x1000);
    // 0x1ff units: level 0 has an odd block at its end, and a request for one
    // unit takes the lowest level that has a free block.
    let first = buddy.allocate(1);
    assert_eq!(first, Some(BASE + 0x1000 + 0x1fe * UNIT_SIZE));
    assert_eq!(buddy.used(), UNIT_SIZE);
    assert_eq!(buddy.left(), 0x1fe000);
    buddy.dealloc(first.unwrap(), 1);
    assert_eq!(buddy.used(), 0);
    assert_eq!(buddy.left(), 0x1ff000);
}

#[test]
fn buddy_lowest_index_wins() {
    let mut buddy = create_buddy();
    // 511 units: the free blocks are the last of each level. One unit comes
    // out of the odd unit at the end of level 0.
    let a = buddy.allocate(UNIT_SIZE).unwrap();
    assert_eq!(a, BASE + 0x1000 + 510 * UNIT_SIZE);
    // The next single unit splits the free block of level 1.
    let b = buddy.allocate(UNIT_SIZE).unwrap();
    assert_eq!(b, BASE + 0x1000 + 508 * UNIT_SIZE);
    let c = buddy.allocate(UNIT_SIZE).unwrap();
    assert_eq!(c, BASE + 0x1000 + 509 * UNIT_SIZE);
    buddy.dealloc(b, UNIT_SIZE);
    buddy.dealloc(c, UNIT_SIZE);
    buddy.dealloc(a, UNIT_SIZE);
    assert_eq!(buddy.used(), 0);
    // Everything has been merged again: the whole top block can be had.
    let top = buddy.allocate(256 * UNIT_SIZE).unwrap();
    assert_eq!(top, BASE + 0x1000);
    assert_eq!(buddy.used(), 256 * UNIT_SIZE);
}

#[test]
fn buddy_rounds_requests_up_to_whole_units() {
    let mut buddy = create_buddy();
    let a = buddy.allocate(UNIT_SIZE * 2 + 1).unwrap();
    // three units are counted, a block of four is taken
    assert_eq!(buddy.used(), 3 * UNIT_SIZE);
    assert_eq!((a - buddy.info().data_addr()) % (4 * UNIT_SIZE), 0);
    buddy.dealloc(a, UNIT_SIZE * 2 + 1);
    assert_eq!(buddy.used(), 0);
}

#[test]
fn buddy_out_of_memory_is_none() {
    let mut buddy = create_buddy();
    assert_eq!(buddy.allocate(LEN), None);
    assert_eq!(buddy.allocate(usize::MAX), None);
    let top = buddy.allocate(256 * UNIT_SIZE);
    assert!(top.is_some());
    assert_eq!(buddy.allocate(256 * UNIT_SIZE), None);
    assert_eq!(buddy.used(), 256 * UNIT_SIZE);
}

#[test]
fn buddy_empty_hands_out_nothing() {
    let mut buddy = BuddyBlock::empty();
    assert_eq!(buddy.used(), 0);
    assert_eq!(buddy.info().levels(), 0);
    assert_eq!(buddy.allocate(1), None);
    buddy.dealloc(0, 0);
    assert_eq!(buddy.used(), 0);
}

#[test]
fn buddy_release_checks() {
    let mut buddy = create_buddy();
    let a = buddy.allocate(UNIT_SIZE).unwrap();
    assert!(buddy.can_dealloc(a, UNIT_SIZE));
    assert!(buddy.can_dealloc(a, 0));
    // outside the data
    assert!(!buddy.can_dealloc(BASE, UNIT_SIZE));
    assert!(!buddy.can_dealloc(BASE + LEN, UNIT_SIZE));
    buddy.dealloc(a, UNIT_SIZE);
    // a block that is free already
    assert!(!buddy.can_dealloc(a, UNIT_SIZE));
}

#[test]
fn buddy_layout_rules() {
    assert!(!BuddyBlockInfo::fits(BASE, 0));
    assert!(!BuddyBlockInfo::fits(BASE, UNIT_SIZE));
    assert!(BuddyBlockInfo::fits(BASE, UNIT_SIZE + 1));
    assert!(BuddyBlockInfo::fits(BASE, 2 * UNIT_SIZE));
    assert!(BuddyBlockInfo::fits(BASE, 3 * UNIT_SIZE));
    assert!(!BuddyBlockInfo::fits(usize::MAX - LEN, LEN));
    // two pages: one of metadata, one unit of data
    let two = BuddyBlockInfo::new(BASE, 2 * UNIT_SIZE);
    assert_eq!(two.data_offset(), UNIT_SIZE);
    assert_eq!(two.units(), 1);
    assert_eq!(two.levels(), 1);
    assert_eq!(two.metadata_len(), 16 + 1);
    assert_eq!(two.data_len(), UNIT_SIZE);
    let info = BuddyBlockInfo::new(BASE, 3 * UNIT_SIZE);
    assert_eq!(info.units(), 2);
    assert_eq!(info.levels(), 2);
    assert_eq!(info.metadata_len(), 2 * 16 + 2);
    assert_eq!(info.metadata_offset(), UNIT_SIZE);
    assert_eq!(info.data_len(), 2 * UNIT_SIZE);
    let none = BuddyBlockInfo::empty();
    assert_eq!(none.total_len(), 0);
    assert_eq!(none.data_addr(), 0);
}

#[test]
fn buddy_level_for_size() {
    assert_eq!(bitmap_index_for_size(0), 0);
    assert_eq!(bitmap_index_for_size(1), 0);
    assert_eq!(bitmap_index_for_size(UNIT_SIZE), 0);
    assert_eq!(bitmap_index_for_size(UNIT_SIZE + 1), 1);
    assert_eq!(bitmap_index_for_size(2 * UNIT_SIZE), 1);
    assert_eq!(bitmap_index_for_size(2 * UNIT_SIZE + 1), 2);
    assert_eq!(bitmap_index_for_size(256 * UNIT_SIZE), 8);
}

#[test]
fn buddy_everything_released_is_as_fresh() {
    let mut fresh = create_buddy();
    let mut used = create_buddy();
    let sizes = [1usize, 5000, 3 * UNIT_SIZE, 64 * UNIT_SIZE, UNIT_SIZE, 17 * UNIT_SIZE + 1, 2];
    let mut held = Vec::new();
    for &size in sizes.iter() {
        let addr = used.allocate(size).unwrap();
        assert!(used.used() <= used.info().data_len());
        held.push((addr, size));
    }
    // no two blocks overlap
    for (i, &(a, la)) in held.iter().enumerate() {
        for &(b, lb) in held.iter().skip(i + 1) {
            assert!(a + la <= b || b + lb <= a);
        }
    }
    // release in another order than they were taken
    for &i in [3usize, 0, 6, 2, 5, 1, 4].iter() {
        let (addr, size) = held[i];
        assert!(used.can_dealloc(addr, size));
        used.dealloc(addr, size);
        assert!(used.used() <= used.info().data_len());
    }
    assert_eq!(used.used(), 0);
    // the same requests now get the same blocks as from a fresh allocator
    for &size in sizes.iter() {
        assert_eq!(used.allocate(size), fresh.allocate(size));
    }
}

#[test]
fn buddy_free_buddies_are_merged() {
    let mut buddy = create_buddy();
    let tail = buddy.allocate(UNIT_SIZE).unwrap();
    let left = buddy.allocate(UNIT_SIZE).unwrap();
    let right = buddy.allocate(UNIT_SIZE).unwrap();
    assert_eq!(right, left + UNIT_SIZE);
    buddy.dealloc(left, UNIT_SIZE);
    // the left half is free on its own: it cannot be released again
    assert!(!buddy.can_dealloc(left, UNIT_SIZE));
    buddy.dealloc(right, UNIT_SIZE);
    // both halves were merged into their parent: neither is marked free on its own level
    assert!(buddy.can_dealloc(left, UNIT_SIZE));
    assert!(buddy.can_dealloc(right, UNIT_SIZE));
    // the parent is free: as a block of two units it cannot be released
    assert!(!buddy.can_dealloc(left, 2 * UNIT_SIZE));
    buddy.dealloc(tail, UNIT_SIZE);
    assert_eq!(buddy.used(), 0);
}

#[test]
fn buddy_of_two_pages_has_one_unit() {
    let mut buddy = BuddyBlock::new(BASE, 2 * UNIT_SIZE);
    assert_eq!(buddy.left(), UNIT_SIZE);
    assert_eq!(buddy.allocate(UNIT_SIZE + 1), None);
    let a = buddy.allocate(1);
    assert_eq!(a, Some(BASE + UNIT_SIZE));
    assert_eq!(buddy.used(), UNIT_SIZE);
    assert_eq!(buddy.allocate(1), None);
    buddy.dealloc(BASE + UNIT_SIZE, 1);
    assert_eq!(buddy.used(), 0);
    assert_eq!(buddy.allocate(UNIT_SIZE), Some(BASE + UNIT_SIZE));
}

#[test]
fn checked_buddy_refuses_what_it_did_not_hand_out() {
    let mut buddy = CheckedBuddy::new(BASE, LEN);
    let tail = buddy.allocate(UNIT_SIZE).unwrap();
    let left = buddy.allocate(UNIT_SIZE).unwrap();
    let right = buddy.allocate(UNIT_SIZE).unwrap();
    let big = buddy.allocate(3 * UNIT_SIZE).unwrap();
    assert!(buddy.holds_block(left, UNIT_SIZE));
    assert!(buddy.holds_block(left + 1, UNIT_SIZE - 1));
    assert!(buddy.holds_block(big, 3 * UNIT_SIZE));
    // another size than was handed out
    assert!(!buddy.holds_block(big, 4 * UNIT_SIZE));
    assert!(!buddy.holds_block(big, 2 * UNIT_SIZE));
    assert!(!buddy.holds_block(left, 2 * UNIT_SIZE));
    // inside a block, not at its start
    assert!(!buddy.holds_block(big + UNIT_SIZE, UNIT_SIZE));
    assert!(!buddy.try_dealloc(big + UNIT_SIZE, 2 * UNIT_SIZE + 1));
    // outside the data
    assert!(!buddy.holds_block(BASE, UNIT_SIZE));
    assert!(!buddy.holds_block(usize::MAX, 2));
    assert_eq!(buddy.buddy().used(), 6 * UNIT_SIZE);

    assert!(buddy.try_dealloc(left, UNIT_SIZE));
    assert!(!buddy.try_dealloc(left, UNIT_SIZE));
    assert!(buddy.try_dealloc(right, UNIT_SIZE));
    // both halves were merged: the plain bit test would let a second release pass
    assert!(buddy.buddy().can_dealloc(left, UNIT_SIZE));
    assert!(!buddy.try_dealloc(left, UNIT_SIZE));
    assert!(!buddy.try_dealloc(right, UNIT_SIZE));
    assert!(buddy.try_dealloc(0, 0));
    assert!(buddy.try_dealloc(big, 3 * UNIT_SIZE));
    assert!(buddy.try_dealloc(tail, UNIT_SIZE));
    assert_eq!(buddy.buddy().used(), 0);
    let none = CheckedBuddy::empty();
    assert!(!none.holds_block(BASE, 1));
}
