//! One page of page-table entries, and the tracker that owns it.
//!
//! A page table occupies exactly one physical page, read as a fixed
//! array of entries. A table is never built in ordinary storage: a
//! physical frame is allocated and its contents are interpreted as the
//! table, so the tracker couples the frame handle with the typed view
//! of that frame's memory.

use vstd::prelude::*;
use crate::address::{PhysicalPageNumber, PAGE_ENTRY_COUNT};
use crate::frame_tracker::FrameTracker;
use crate::page_table_entry::PageTableEntry;

verus! {

/// A page-sized array of page-table entries.
pub struct PageTable {
    pub entries: [PageTableEntry; PAGE_ENTRY_COUNT],
}

impl PageTable {
    /// Clears every entry.
    pub fn zero_init(&mut self)
        ensures
            forall|i: int| 0 <= i < PAGE_ENTRY_COUNT ==> final(self).entries[i].0 == 0,
    {
        self.entries = [PageTableEntry(0); PAGE_ENTRY_COUNT];
    }
}

/// Owns the physical frame a page table lives in, together with the
/// typed view of that frame as a table. Dropping the tracker releases
/// the frame with it.
pub struct PageTableTracker {
    pub frame: FrameTracker,
    pub table: PageTable,
}

impl PageTableTracker {
    /// The frame handle is page-sized.
    pub open spec fn wf(self) -> bool {
        self.frame.wf()
    }

    /// The owned physical page number.
    pub open spec fn ppn_spec(self) -> int {
        self.frame.ppn_spec()
    }

    /// Turns a freshly allocated frame into an empty page table.
    pub fn new(frame: FrameTracker) -> (r: Self)
        requires
            frame.wf(),
        ensures
            r.wf(),
            r.ppn_spec() == frame.ppn_spec(),
            forall|i: int| 0 <= i < PAGE_ENTRY_COUNT ==> r.table.entries[i].0 == 0,
    {
        let mut pb = PageTableTracker {
            frame,
            table: PageTable { entries: [PageTableEntry(0); PAGE_ENTRY_COUNT] },
        };
        pb.table.zero_init();
        pb
    }

    /// The physical page holding this table.
    pub fn page_number(&self) -> (r: PhysicalPageNumber)
        ensures
            r.0 == self.ppn_spec(),
    {
        self.frame.page_number()
    }

    /// Writes one entry of the table.
    pub fn set_entry(&mut self, index: usize, e: PageTableEntry)
        requires
            index < PAGE_ENTRY_COUNT,
        ensures
            final(self).wf() == old(self).wf(),
            final(self).ppn_spec() == old(self).ppn_spec(),
            forall|i: int|
                0 <= i < PAGE_ENTRY_COUNT && i != index ==> final(self).table.entries[i] == old(
                    self,
                ).table.entries[i],
            final(self).table.entries[index as int] == e,
    {
        self.table.entries[index] = e;
    }
}

} // verus!
