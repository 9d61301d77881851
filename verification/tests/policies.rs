use kernel_mem::address::{PhysicalPageNumber, VirtualPageNumber};
use kernel_mem::frame_allocator::FrameAllocator;
use kernel_mem::mapping::Mapping;
use kernel_mem::page_table_entry::Flags;
use kernel_mem::range::Range;
use kernel_mem::swapper::{ClockSwapper, FIFOSwapper, Swapper};

fn setup() -> (FrameAllocator, Mapping) {
    let mut fa = FrameAllocator::new(Range {
        start: PhysicalPageNumber(0x200),
        end: PhysicalPageNumber(0x280),
    });
    let m = Mapping::new(&mut fa).unwrap();
    (fa, m)
}

/// Maps one page with the given accessed and dirty bits and returns the
/// location of its entry.
fn map_with_flags(
    m: &mut Mapping,
    fa: &mut FrameAllocator,
    vpn: usize,
    accessed: bool,
    dirty: bool,
) -> kernel_mem::mapping::EntryLocation {
    let flags = Flags::rwx(true, true, false).with_accessed_dirty(accessed, dirty);
    m.map_one(VirtualPageNumber(vpn), PhysicalPageNumber(0x300 + vpn), flags, fa).unwrap();
    m.locate(VirtualPageNumber(vpn)).unwrap()
}

#[test]
fn fifo_pops_in_push_order_whatever_the_flags() {
    let (mut fa, mut m) = setup();
    let mut s = FIFOSwapper::new(3);
    assert!(!s.full());
    for (vpn, acc, dirty) in [(1usize, true, true), (2, false, false), (3, true, false)] {
        let loc = map_with_flags(&mut m, &mut fa, vpn, acc, dirty);
        let frame = fa.allocate().unwrap();
        s.push(VirtualPageNumber(vpn), frame, loc);
    }
    assert!(s.full());
    let order: Vec<usize> = (0..3).map(|_| s.pop(&m).unwrap().0 .0).collect();
    assert_eq!(order, vec![1, 2, 3]);
    assert!(s.pop(&m).is_none());
}

#[test]
fn clock_pops_minimal_accessed_dirty_pair() {
    let (mut fa, mut m) = setup();
    let mut s = ClockSwapper::new(4);
    // ranks: (1,0) = 2, (0,1) = 1, (1,1) = 3, (0,0) = 0
    for (vpn, acc, dirty) in [
        (1usize, true, false),
        (2, false, true),
        (3, true, true),
        (4, false, false),
    ] {
        let loc = map_with_flags(&mut m, &mut fa, vpn, acc, dirty);
        let frame = fa.allocate().unwrap();
        s.push(VirtualPageNumber(vpn), frame, loc);
    }
    assert!(s.full());
    let order: Vec<usize> = (0..4).map(|_| s.pop(&m).unwrap().0 .0).collect();
    assert_eq!(order, vec![4, 2, 1, 3]);
}

#[test]
fn clock_breaks_ties_by_earliest_push() {
    let (mut fa, mut m) = setup();
    let mut s = ClockSwapper::new(3);
    for vpn in [5usize, 6, 7] {
        let loc = map_with_flags(&mut m, &mut fa, vpn, false, false);
        let frame = fa.allocate().unwrap();
        s.push(VirtualPageNumber(vpn), frame, loc);
    }
    let order: Vec<usize> = (0..3).map(|_| s.pop(&m).unwrap().0 .0).collect();
    assert_eq!(order, vec![5, 6, 7]);
}

#[test]
fn retain_drops_the_failing_pages() {
    let (mut fa, mut m) = setup();
    let mut s = FIFOSwapper::new(4);
    for vpn in [1usize, 2, 3, 4] {
        let loc = map_with_flags(&mut m, &mut fa, vpn, false, false);
        let frame = fa.allocate().unwrap();
        s.push(VirtualPageNumber(vpn), frame, loc);
    }
    // drop the pages of the range [2, 4), as unmapping a range would
    s.retain(|v: &VirtualPageNumber| !(2 <= v.0 && v.0 < 4));
    let order: Vec<usize> = (0..2).map(|_| s.pop(&m).unwrap().0 .0).collect();
    assert_eq!(order, vec![1, 4]);
    assert!(s.pop(&m).is_none());
}

#[test]
fn clock_retain_keeps_policy_working() {
    let (mut fa, mut m) = setup();
    let mut s = ClockSwapper::new(3);
    for (vpn, acc) in [(1usize, true), (2, false), (3, true)] {
        let loc = map_with_flags(&mut m, &mut fa, vpn, acc, false);
        let frame = fa.allocate().unwrap();
        s.push(VirtualPageNumber(vpn), frame, loc);
    }
    s.retain(|v: &VirtualPageNumber| v.0 != 2);
    let order: Vec<usize> = (0..2).map(|_| s.pop(&m).unwrap().0 .0).collect();
    // with the rank-1 entry gone, insertion order decides among equals
    assert_eq!(order, vec![1, 3]);
}
