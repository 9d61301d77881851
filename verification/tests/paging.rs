use kernel_mem::address::{
    PhysicalAddress, PhysicalPageNumber, VirtualAddress, VirtualPageNumber, PAGE_SIZE,
};
use kernel_mem::frame_allocator::FrameAllocator;
use kernel_mem::mapping::Mapping;
use kernel_mem::memory_set::{KernelLayout, MemorySet};
use kernel_mem::page_table_entry::{Flags, PageTableEntry};
use kernel_mem::process::Process;
use kernel_mem::range::Range;
use kernel_mem::segment::{MapType, Segment};

fn small_frame_allocator() -> FrameAllocator {
    FrameAllocator::new(Range { start: PhysicalPageNumber(0x100), end: PhysicalPageNumber(0x180) })
}

fn rw_flags() -> Flags {
    Flags::rwx(true, true, false)
}

#[test]
fn address_conversions() {
    assert_eq!(PhysicalAddress(0x1234).page_offset(), 0x234);
    assert_eq!(PhysicalPageNumber::floor(PhysicalAddress(0x1fff)).0, 1);
    assert_eq!(PhysicalPageNumber::ceil(PhysicalAddress(0x1fff)).0, 2);
    assert_eq!(PhysicalPageNumber::ceil(PhysicalAddress(0x2000)).0, 2);
    assert_eq!(VirtualPageNumber::floor(VirtualAddress(0x3000)).0, 3);
    assert_eq!(VirtualPageNumber(7).address().0, 7 * PAGE_SIZE);
}

#[test]
fn vpn_level_decomposition() {
    let v = VirtualPageNumber((3 << 18) | (5 << 9) | 9);
    assert_eq!(v.levels(), [3, 5, 9]);
}

#[test]
fn entry_packs_page_number_and_flags() {
    let f = Flags::rwx(true, true, false).with_accessed_dirty(true, false);
    let e = PageTableEntry::new(PhysicalPageNumber(5), f);
    assert_eq!(e.page_number().0, 5);
    assert!(e.valid());
    assert!(!e.is_empty());
    assert_eq!(e.rw_flags(), (true, false));
    assert_eq!(e.0, 5 * 1024 + 1 + 2 + 4 + 64);
}

#[test]
fn frame_allocator_hands_out_and_takes_back() {
    let mut fa = small_frame_allocator();
    let f1 = fa.allocate().unwrap();
    let f2 = fa.allocate().unwrap();
    assert_eq!(f1.page_number().0, 0x100);
    assert_eq!(f2.page_number().0, 0x101);
    let p1 = f1.page_number();
    fa.dealloc(f1);
    let f3 = fa.allocate().unwrap();
    assert_eq!(f3.page_number(), p1);
}

#[test]
fn frame_allocator_reports_exhaustion() {
    let mut fa = FrameAllocator::new(Range {
        start: PhysicalPageNumber(0x10),
        end: PhysicalPageNumber(0x12),
    });
    let _a = fa.allocate().unwrap();
    let _b = fa.allocate().unwrap();
    match fa.allocate() {
        Ok(_) => panic!("no frame should be left"),
        Err(msg) => assert_eq!(msg, "no available frame to allocate"),
    }
}

#[test]
fn mapping_maps_and_unmaps_one_page() {
    let mut fa = small_frame_allocator();
    let mut m = Mapping::new(&mut fa).unwrap();
    let vpn = VirtualPageNumber(0x42);
    assert!(m.locate(vpn).is_none());
    m.map_one(vpn, PhysicalPageNumber(0x7), rw_flags(), &mut fa).unwrap();
    let loc = m.locate(vpn).unwrap();
    let e = m.read_entry(loc);
    assert_eq!(e.page_number().0, 0x7);
    assert!(e.valid());
    m.unmap_one(vpn);
    let loc2 = m.locate(vpn).unwrap();
    assert!(m.read_entry(loc2).is_empty());
}

#[test]
fn framed_segment_consumes_one_frame_per_page() {
    let mut fa = small_frame_allocator();
    let mapping = Mapping::new(&mut fa).unwrap();
    let mut ms = MemorySet { mapping, segments: Vec::new(), allocated_pairs: Vec::new() };
    let seg = Segment {
        map_type: MapType::Framed,
        range: Range { start: VirtualAddress(0x10000), end: VirtualAddress(0x13000) },
        flags: rw_flags(),
    };
    ms.add_segment(seg, None, &mut fa).unwrap();
    assert_eq!(ms.allocated_pairs.len(), 3);
    assert_eq!(ms.segments.len(), 1);
}

#[test]
fn removing_a_segment_frees_its_frames_and_spares_siblings() {
    let mut fa = small_frame_allocator();
    let mapping = Mapping::new(&mut fa).unwrap();
    let mut ms = MemorySet { mapping, segments: Vec::new(), allocated_pairs: Vec::new() };
    let seg_a = Segment {
        map_type: MapType::Framed,
        range: Range { start: VirtualAddress(0x10000), end: VirtualAddress(0x12000) },
        flags: rw_flags(),
    };
    let seg_b = Segment {
        map_type: MapType::Framed,
        range: Range { start: VirtualAddress(0x20000), end: VirtualAddress(0x23000) },
        flags: rw_flags(),
    };
    ms.add_segment(seg_a, None, &mut fa).unwrap();
    ms.add_segment(seg_b, None, &mut fa).unwrap();
    assert_eq!(ms.allocated_pairs.len(), 5);
    ms.remove_segment(&seg_a, &mut fa).unwrap();
    // exactly the two frames of the removed segment are gone, and the
    // survivors keep their original order
    assert_eq!(ms.allocated_pairs.len(), 3);
    let survivors: Vec<usize> = ms.allocated_pairs.iter().map(|p| p.0 .0).collect();
    assert_eq!(survivors, vec![0x20, 0x21, 0x22]);
    assert_eq!(ms.segments.len(), 1);
    // the removed pages are unmapped, the sibling's stay mapped
    assert!(ms.mapping.locate(VirtualPageNumber(0x10)).map(|l| ms.mapping.read_entry(l)).map_or(
        true,
        |e| e.is_empty(),
    ));
    let loc = ms.mapping.locate(VirtualPageNumber(0x20)).unwrap();
    assert!(!ms.mapping.read_entry(loc).is_empty());
}

#[test]
fn framed_initial_data_lands_at_the_right_bytes() {
    let mut fa = small_frame_allocator();
    let mapping = Mapping::new(&mut fa).unwrap();
    let mut ms = MemorySet { mapping, segments: Vec::new(), allocated_pairs: Vec::new() };
    // a range that starts and ends inside its pages
    let start = 0x30000 + 0x100;
    let end = start + 0x120;
    let data: Vec<u8> = (0..0x120).map(|i| (i % 251) as u8 + 1).collect();
    let seg = Segment {
        map_type: MapType::Framed,
        range: Range { start: VirtualAddress(start), end: VirtualAddress(end) },
        flags: rw_flags(),
    };
    ms.add_segment(seg, Some(&data), &mut fa).unwrap();
    assert_eq!(ms.allocated_pairs.len(), 1);
    let frame = &ms.allocated_pairs[0].1;
    // zero before the data, the data itself, zero after it
    assert_eq!(frame.read_byte(0x0ff), 0);
    assert_eq!(frame.read_byte(0x100), data[0]);
    assert_eq!(frame.read_byte(0x100 + 0x11f), data[0x11f]);
    assert_eq!(frame.read_byte(0x100 + 0x120), 0);
}

#[test]
fn kernel_memory_set_maps_reflexively() {
    let mut fa = small_frame_allocator();
    let layout = KernelLayout {
        text_start: 0x10000,
        rodata_start: 0x12000,
        data_start: 0x14000,
        bss_start: 0x16000,
        kernel_end: 0x18000,
        memory_end: 0x20000,
    };
    let ms = MemorySet::new_kernel(layout, &mut fa).unwrap();
    assert_eq!(ms.segments.len(), 5);
    assert_eq!(ms.allocated_pairs.len(), 0);
    // every kernel page maps to the numerically identical physical page
    for vpn in 0x10..0x20 {
        let loc = ms.mapping.locate(VirtualPageNumber(vpn)).unwrap();
        let e = ms.mapping.read_entry(loc);
        assert_eq!(e.page_number().0, vpn);
    }
    // activation exposes the root table's page
    assert_eq!(ms.activate().0, ms.mapping.root_page_number().0);
}

#[test]
fn overlapping_segments_are_detected() {
    let mut fa = small_frame_allocator();
    let mapping = Mapping::new(&mut fa).unwrap();
    let mut ms = MemorySet { mapping, segments: Vec::new(), allocated_pairs: Vec::new() };
    let seg = Segment {
        map_type: MapType::Framed,
        range: Range { start: VirtualAddress(0x10000), end: VirtualAddress(0x12000) },
        flags: rw_flags(),
    };
    ms.add_segment(seg, None, &mut fa).unwrap();
    let probe = Range { start: VirtualPageNumber(0x11), end: VirtualPageNumber(0x13) };
    assert!(ms.overlap_with(probe));
    let clear = Range { start: VirtualPageNumber(0x12), end: VirtualPageNumber(0x13) };
    assert!(!ms.overlap_with(clear));
}

#[test]
fn process_allocates_fresh_ranges() {
    let mut fa = small_frame_allocator();
    let layout = KernelLayout {
        text_start: 0x10000,
        rodata_start: 0x12000,
        data_start: 0x14000,
        bss_start: 0x16000,
        kernel_end: 0x18000,
        memory_end: 0x20000,
    };
    let mut p = Process::new_kernel(3, layout, &mut fa).unwrap();
    assert_eq!(p.GetId(), 3);
    assert!(!p.is_user);
    let r1 = p.alloc_page_range(0x1800, rw_flags(), &mut fa).unwrap();
    assert_eq!(r1.start.0, 0x100_0000);
    assert_eq!(r1.end.0, 0x100_0000 + 0x1800);
    // the second range starts past the first one's rounded-up pages
    let r2 = p.alloc_page_range(0x1000, rw_flags(), &mut fa).unwrap();
    assert_eq!(r2.start.0, 0x100_2000);
    // both are mapped
    assert!(p.inner.memory_set.mapping.locate(VirtualPageNumber(0x1000)).is_some());
}
