use kernel_mem::allocator::{Allocator, VectorAllocator};
use kernel_mem::buddy_allocator::{uper_bound_power, BuddyAllocator};
use kernel_mem::linked_list::DynLinkedList;
use kernel_mem::segment_tree_allocator::SegTreeAllocator;
use kernel_mem::stacked_allocator::StackedAllocator;

#[test]
fn uper_bound_power_values() {
    assert_eq!(uper_bound_power(0), (0, 1));
    assert_eq!(uper_bound_power(1), (0, 1));
    assert_eq!(uper_bound_power(2), (1, 2));
    assert_eq!(uper_bound_power(3), (2, 4));
    assert_eq!(uper_bound_power(5), (3, 8));
    assert_eq!(uper_bound_power(16), (4, 16));
    assert_eq!(uper_bound_power(17), (5, 32));
}

#[test]
fn stacked_hands_out_units_in_order() {
    let mut a = StackedAllocator::empty();
    a.init(4);
    assert_eq!(a.allocate(), Some(0));
    assert_eq!(a.allocate(), Some(1));
    assert_eq!(a.allocate(), Some(2));
    assert_eq!(a.allocate(), Some(3));
    assert_eq!(a.allocate(), None);
}

#[test]
fn stacked_adjacent_frees_stay_fragmented() {
    let mut a = StackedAllocator::empty();
    a.init(4);
    assert_eq!(a.allocate(), Some(0));
    assert_eq!(a.allocate(), Some(1));
    // free two adjacent units: they stay two single-unit ranges, so the
    // next allocations return them one by one from the top of the stack
    a.dealloc(0);
    a.dealloc(1);
    assert_eq!(a.allocate(), Some(1));
    assert_eq!(a.allocate(), Some(0));
    // the untouched tail range is still separate
    assert_eq!(a.allocate(), Some(2));
}

#[test]
fn stacked_uninitialized_is_empty() {
    let mut a = StackedAllocator::empty();
    assert_eq!(a.allocate(), None);
}

#[test]
fn segment_tree_preorder_allocation() {
    // size 7 covers the units 0..=7; the pre-order descent hands out the
    // root's unit first, then walks the left subtree before the right
    let mut a = SegTreeAllocator::new(7);
    let mut got = Vec::new();
    for _ in 0..8 {
        got.push(a.allocate().unwrap());
    }
    assert_eq!(got, vec![7, 3, 1, 0, 2, 5, 4, 6]);
    assert_eq!(a.allocate(), None);
}

#[test]
fn segment_tree_units_are_distinct_and_exhaust() {
    let mut a = SegTreeAllocator::new(15);
    let mut seen = [false; 16];
    for _ in 0..16 {
        let u = a.allocate().unwrap();
        assert!(u <= 15);
        assert!(!seen[u]);
        seen[u] = true;
    }
    assert_eq!(a.allocate(), None);
}

#[test]
fn segment_tree_free_then_alloc_returns_freed_unit() {
    let mut a = SegTreeAllocator::new(7);
    while a.allocate().is_some() {}
    a.dealloc(3);
    assert_eq!(a.allocate(), Some(3));
    assert_eq!(a.allocate(), None);
}

#[test]
fn segment_tree_out_of_range_dealloc_is_ignored() {
    let mut a = SegTreeAllocator::new(7);
    while a.allocate().is_some() {}
    a.dealloc(20);
    assert_eq!(a.allocate(), None);
}

#[test]
fn buddy_concrete_scenario() {
    // one order-4 free block at address 0
    let mut b = BuddyAllocator::new(16);
    // three units round up to an order-2 block, split out at address 0
    assert_eq!(b.allocate(3, 1), Some(0));
    // five units round up to order 3: the block at address 8, whole
    assert_eq!(b.allocate(5, 1), Some(8));
    // freeing the order-2 block merges with the free order-2 buddy at 4,
    // then settles: the buddy at 8 is in use
    b.dealloc(0, 4, 1);
    // the coalesced order-3 block at address 0 serves a request of 8
    assert_eq!(b.allocate(8, 1), Some(0));
    assert_eq!(b.allocate(1, 1), None);
}

#[test]
fn buddy_round_trip_restores_free_space() {
    let mut b = BuddyAllocator::new(16);
    for _ in 0..4 {
        let r = b.allocate(3, 1).unwrap();
        b.dealloc(r, 4, 1);
    }
    // after each round trip the allocator again holds the whole span
    assert_eq!(b.allocate(16, 1), Some(0));
}

#[test]
fn buddy_respects_alignment() {
    let mut b = BuddyAllocator::new(16);
    assert_eq!(b.allocate(1, 4), Some(0));
    // the next aligned unit is at 4: the split blocks at 1 and 2 fail
    // the alignment
    assert_eq!(b.allocate(1, 4), Some(4));
    assert_eq!(b.allocate(1, 2), Some(2));
    assert_eq!(b.allocate(1, 1), Some(1));
}

#[test]
fn buddy_allocations_do_not_overlap() {
    let mut b = BuddyAllocator::new(64);
    let mut taken: Vec<(usize, usize)> = Vec::new();
    for &(size, align) in &[(3usize, 1usize), (5, 8), (1, 1), (8, 2), (2, 4)] {
        let start = b.allocate(size, align).unwrap();
        assert_eq!(start % align, 0);
        let (_, cover) = uper_bound_power(size);
        for &(s2, c2) in &taken {
            assert!(start + cover <= s2 || s2 + c2 <= start);
        }
        taken.push((start, cover));
    }
}

#[test]
fn buddy_accepts_an_empty_span() {
    let mut b = BuddyAllocator::new(0);
    assert_eq!(b.allocate(1, 1), None);
}

#[test]
fn uper_bound_power_covers_large_requests() {
    assert_eq!(uper_bound_power(1 << 40), (40, 1 << 40));
    assert_eq!(uper_bound_power((1 << 40) + 1), (41, 1 << 41));
}

#[test]
fn buddy_reports_impossible_requests() {
    let mut b = BuddyAllocator::new(24);
    assert_eq!(b.allocate(32, 1), None);
    // take the order-4 block; only the order-3 block at 16 remains
    assert_eq!(b.allocate(16, 1), Some(0));
    // no offset inside the block at 16 lands on a multiple of 32
    assert_eq!(b.allocate(8, 32), None);
    assert_eq!(b.allocate(8, 8), Some(16));
}

#[test]
fn linked_list_deque_behaviour() {
    let mut l: DynLinkedList<usize> = DynLinkedList::new();
    assert!(l.is_empty());
    l.push_back(1);
    l.push_back(2);
    l.push_front(0);
    assert_eq!(l.len(), 3);
    assert_eq!(l.print(), vec![0, 1, 2]);
    assert_eq!(l.print_rev(), vec![2, 1, 0]);
    assert_eq!(l.pop_front(), Some(0));
    assert_eq!(l.pop_back(), Some(2));
    assert_eq!(l.pop_back(), Some(1));
    assert_eq!(l.pop_back(), None);
}

#[test]
fn linked_list_find_and_remove() {
    let mut l: DynLinkedList<usize> = DynLinkedList::new();
    for v in [10, 20, 30, 20] {
        l.push_back(v);
    }
    assert_eq!(l.find(20), Some(1));
    assert_eq!(l.find(99), None);
    assert_eq!(l.remove(1), Some(20));
    assert_eq!(l.print(), vec![10, 30, 20]);
}

#[test]
fn linked_list_cursor_traversal() {
    let mut l: DynLinkedList<usize> = DynLinkedList::new();
    assert_eq!(l.get_first_addr(), 0);
    for v in [7, 8, 9] {
        l.push_back(v);
    }
    let mut p = l.get_first_addr();
    let mut seen = Vec::new();
    while p != 0 {
        seen.push(l.next(&mut p));
    }
    assert_eq!(seen, vec![7, 8, 9]);
}

#[test]
fn linked_list_destroy_empties() {
    let mut l: DynLinkedList<usize> = DynLinkedList::new();
    l.push_back(5);
    l.push_back(6);
    DynLinkedList::destroy(&mut l);
    assert!(l.is_empty());
}
