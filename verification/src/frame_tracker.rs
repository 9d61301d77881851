//! The owning handle of one allocated physical frame.

use vstd::prelude::*;
use crate::address::{PhysicalAddress, PhysicalPageNumber, PAGE_SIZE};

verus! {

/// Owns exactly one physical page and the page-sized buffer standing in
/// for its contents. A tracker is created only by the frame allocator's
/// `allocate` and gives its page back through the allocator's `dealloc`,
/// exactly once: the handle is moved, never copied.
pub struct FrameTracker {
    ppn: PhysicalPageNumber,
    data: Vec<u8>,
}

impl FrameTracker {
    /// The page this handle owns.
    pub closed spec fn ppn_spec(self) -> int {
        self.ppn.0 as int
    }

    /// The frame's contents.
    pub closed spec fn data_spec(self) -> Seq<u8> {
        self.data@
    }

    /// The buffer always spans exactly one page.
    pub closed spec fn wf(self) -> bool {
        self.data@.len() == PAGE_SIZE
    }

    /// Builds the handle for a freshly allocated page, zero-filled.
    /// Only the frame allocator creates handles.
    pub(crate) fn new(ppn: PhysicalPageNumber) -> (r: Self)
        ensures
            r.wf(),
            r.ppn_spec() == ppn.0,
            forall|i: int| 0 <= i < PAGE_SIZE ==> r.data_spec()[i] == 0u8,
    {
        let mut data: Vec<u8> = Vec::new();
        let mut i: usize = 0;
        while i < PAGE_SIZE
            invariant
                data@.len() == i,
                i <= PAGE_SIZE,
                forall|j: int| 0 <= j < i ==> data@[j] == 0u8,
            decreases PAGE_SIZE - i,
        {
            data.push(0u8);
            i = i + 1;
        }
        FrameTracker { ppn, data }
    }

    /// The owned physical page number.
    pub fn page_number(&self) -> (r: PhysicalPageNumber)
        ensures
            r.0 == self.ppn_spec(),
    {
        self.ppn
    }

    /// The first physical address of the owned page.
    pub fn address(&self) -> (r: PhysicalAddress)
        requires
            self.ppn_spec() * PAGE_SIZE as int <= usize::MAX as int,
        ensures
            r.0 == self.ppn_spec() * PAGE_SIZE as int,
    {
        PhysicalAddress(self.ppn.0 * PAGE_SIZE)
    }

    /// Overwrites the frame's contents with one full page of bytes.
    pub fn write_page(&mut self, buf: &Vec<u8>)
        requires
            buf@.len() == PAGE_SIZE,
        ensures
            final(self).wf(),
            final(self).ppn_spec() == old(self).ppn_spec(),
            final(self).data_spec() == buf@,
    {
        let mut data: Vec<u8> = Vec::new();
        let mut i: usize = 0;
        while i < PAGE_SIZE
            invariant
                buf@.len() == PAGE_SIZE,
                data@.len() == i,
                i <= PAGE_SIZE,
                forall|j: int| 0 <= j < i ==> data@[j] == buf@[j],
            decreases PAGE_SIZE - i,
        {
            data.push(buf[i]);
            i = i + 1;
        }
        self.data = data;
        proof {
            assert(self.data@ =~= buf@);
        }
    }

    /// Reads one byte of the frame.
    pub fn read_byte(&self, offset: usize) -> (r: u8)
        requires
            self.wf(),
            offset < PAGE_SIZE,
        ensures
            r == self.data_spec()[offset as int],
    {
        self.data[offset]
    }
}

} // verus!
