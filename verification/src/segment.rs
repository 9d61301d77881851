//! Declarative memory segments.

use vstd::prelude::*;
use crate::address::{PhysicalPageNumber, VirtualAddress, VirtualPageNumber, PAGE_SIZE};
use crate::page_table_entry::Flags;
use crate::range::Range;

verus! {

/// How a segment's pages are backed.
#[derive(Clone, Copy, Debug, PartialEq, Eq, Structural)]
pub enum MapType {
    /// Virtual pages map to the numerically identical physical pages:
    /// the kernel's own reflexive mapping.
    Linear,
    /// One physical frame is allocated per covered page.
    Framed,
}

/// One contiguous virtual range, its backing strategy and its
/// permission flags.
#[derive(Clone, Copy, Debug, PartialEq, Eq, Structural)]
pub struct Segment {
    pub map_type: MapType,
    pub range: Range<VirtualAddress>,
    pub flags: Flags,
}

impl Segment {
    /// First covered page: the address range's start rounded down.
    pub open spec fn first_page_spec(self) -> int {
        self.range.start.0 as int / PAGE_SIZE as int
    }

    /// One past the last covered page: the range's end rounded up.
    pub open spec fn end_page_spec(self) -> int {
        self.range.end.0 as int / PAGE_SIZE as int + if self.range.end.0 as int % PAGE_SIZE as int
            != 0 {
            1int
        } else {
            0int
        }
    }

    /// The covered virtual pages: start rounded down, end rounded up.
    pub fn page_range(&self) -> (r: Range<VirtualPageNumber>)
        ensures
            r.start.0 == self.first_page_spec(),
            r.end.0 == self.end_page_spec(),
    {
        Range::<VirtualPageNumber>::new(
            VirtualPageNumber::floor(self.range.start),
            VirtualPageNumber::ceil(self.range.end),
        )
    }

    /// The physical pages the segment maps to, in page order — only a
    /// linear segment knows them without allocating; a framed segment
    /// yields `None`.
    pub fn iter_mapped(&self) -> (r: Option<Vec<PhysicalPageNumber>>)
        requires
            self.range.start.0 <= self.range.end.0,
        ensures
            match r {
                Some(v) => {
                    &&& self.map_type == MapType::Linear
                    &&& v@.len() == self.end_page_spec() - self.first_page_spec()
                    &&& forall|i: int|
                        0 <= i < v@.len() ==> (#[trigger] v@[i]).0 == self.first_page_spec() + i
                },
                None => self.map_type == MapType::Framed,
            },
    {
        match self.map_type {
            MapType::Linear => {
                let pr = self.page_range();
                let mut v: Vec<PhysicalPageNumber> = Vec::new();
                let mut p: usize = pr.start.0;
                proof {
                    assert(self.first_page_spec() <= self.end_page_spec());
                }
                while p < pr.end.0
                    invariant
                        pr.start.0 <= p <= pr.end.0,
                        v@.len() == p - pr.start.0,
                        forall|i: int|
                            0 <= i < v@.len() ==> (#[trigger] v@[i]).0 == pr.start.0 + i,
                    decreases pr.end.0 - p,
                {
                    v.push(PhysicalPageNumber(p));
                    p = p + 1;
                }
                Some(v)
            },
            MapType::Framed => None,
        }
    }
}

} // verus!
