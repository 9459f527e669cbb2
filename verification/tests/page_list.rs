use kernel_alloc::slab::page_list::{PageLink, PageList};

const LINK1: usize = 0x1000;
const LINK2: usize = 0x2000;
const LINK3: usize = 0x3000;

fn is_null(link: PageLink) -> bool {
    link == PageLink::null()
}

#[test]
fn test_pagelist_assign_singleton() {
    let mut list: PageList = PageList::new();
    list.assign_singleton(LINK1);
    assert!(list.head() == LINK1 && list.tail() == LINK1, "Singleton assignment failed");
    let link = list.link(LINK1);
    assert!(link.next == 0 && link.prev == 0, "Singleton link's next and prev should be null");
}

#[test]
fn test_pagelist_is_empty_after_new() {
    let list: PageList = PageList::new();
    assert!(list.head() == 0 && list.tail() == 0, "New list should be empty");
    assert!(list.is_empty());
}

#[test]
fn test_pagelist_push_back_single() {
    let mut list = PageList::new();
    list.push_back(LINK1);
    assert!(list.head() == LINK1, "Head should point to pushed link");
    assert!(list.tail() == LINK1, "Tail should point to pushed link");
    let link = list.link(LINK1);
    assert!(link.next == 0 && link.prev == 0, "Pushed link's next and prev should be null");
}

#[test]
fn test_pagelist_push_back_multiple() {
    let mut list = PageList::new();
    list.push_back(LINK1);
    list.push_back(LINK2);
    assert!(list.head() == LINK1, "Head should be first link");
    assert!(list.tail() == LINK2, "Tail should be last link");
    let link1 = list.link(LINK1);
    let link2 = list.link(LINK2);
    assert!(link1.next == LINK2, "First link's next should be second link");
    assert!(link1.prev == 0, "First link's prev should be null");
    assert!(link2.next == 0, "Second link's next should be null");
    assert!(link2.prev == LINK1, "Second link's prev should be first link");
}

#[test]
fn test_pagelist_remove_only_element() {
    let mut list = PageList::new();
    list.push_back(LINK1);
    list.remove(LINK1);
    assert!(list.head() == 0 && list.tail() == 0, "List should be empty after removing only element");
    let link = list.link(LINK1);
    assert!(link.next == 0 && link.prev == 0, "Removed link's next and prev should be null");
}

#[test]
fn test_pagelist_remove_head() {
    let mut list = PageList::new();
    list.push_back(LINK1);
    list.push_back(LINK2);
    list.remove(LINK1);
    assert!(list.head() == LINK2, "Head should be updated to second link");
    assert!(list.tail() == LINK2, "Tail should remain second link");
    let link1 = list.link(LINK1);
    let link2 = list.link(LINK2);
    assert!(link2.prev == 0 && link2.next == 0, "New head's link should be null");
    assert!(link1.prev == 0 && link1.next == 0, "Removed link should be null");
}

#[test]
fn test_pagelist_remove_tail() {
    let mut list = PageList::new();
    list.push_back(LINK1);
    list.push_back(LINK2);
    list.remove(LINK2);
    assert!(list.head() == LINK1, "Head should remain first link");
    assert!(list.tail() == LINK1, "Tail should be updated to first link");
    let link1 = list.link(LINK1);
    let link2 = list.link(LINK2);
    assert!(link2.prev == 0 && link2.next == 0, "New tail's link should be null");
    assert!(link1.prev == 0 && link1.next == 0, "Removed link should be null");
}

#[test]
fn test_pagelist_remove_middle() {
    let mut list = PageList::new();
    list.push_back(LINK1);
    list.push_back(LINK2);
    list.push_back(LINK3);
    list.remove(LINK2);
    assert!(list.head() == LINK1, "Head should remain first link");
    assert!(list.tail() == LINK3, "Tail should remain last link");
    let link1 = list.link(LINK1);
    let link2 = list.link(LINK2);
    let link3 = list.link(LINK3);
    assert!(link1.next == LINK3, "First link's next should be third link");
    assert!(link3.prev == LINK1, "Third link's prev should be first link");
    assert!(link2.next == 0 && link2.prev == 0, "Removed link's next and prev should be null");
}

#[test]
fn test_pagelist_iterate_forward() {
    let mut list = PageList::new();
    list.push_back(LINK1);
    list.push_back(LINK2);
    list.push_back(LINK3);

    let mut current = list.head();
    let mut count = 0;
    while current != 0 {
        count += 1;
        current = list.link(current).next;
    }
    assert_eq!(count, 3, "Should iterate over 3 elements");
}

#[test]
fn test_pagelist_iterate_backward() {
    let mut list = PageList::new();
    list.push_back(LINK1);
    list.push_back(LINK2);
    list.push_back(LINK3);

    let mut current = list.tail();
    let mut count = 0;
    while current != 0 {
        count += 1;
        current = list.link(current).prev;
    }
    assert_eq!(count, 3, "Should iterate backward over 3 elements");
}

#[test]
fn pagelist_contains_and_null_links() {
    let mut list = PageList::new();
    assert!(!list.contains(LINK1));
    list.assign_singleton(LINK1);
    list.push_back(LINK2);
    assert!(list.contains(LINK1) && list.contains(LINK2) && !list.contains(LINK3));
    assert!(is_null(list.link(LINK3)));
    list.remove(LINK1);
    list.remove(LINK2);
    assert!(list.is_empty());
}
