//! Half-open ranges `[start, end)` of addresses and page numbers.

use vstd::prelude::*;
use crate::address::{PhysicalPageNumber, VirtualAddress, VirtualPageNumber};

verus! {

/// A half-open interval `[start, end)` over one of the address or
/// page-number types.
#[derive(Clone, Copy, Debug, PartialEq, Eq, Structural, Hash)]
pub struct Range<T> {
    pub start: T,
    pub end: T,
}

impl Range<VirtualPageNumber> {
    /// True when `v` lies in `[start, end)`.
    pub open spec fn contains_spec(self, v: VirtualPageNumber) -> bool {
        self.start.0 <= v.0 < self.end.0
    }

    /// True when the two ranges share at least one page.
    pub open spec fn overlap_spec(self, other: Range<VirtualPageNumber>) -> bool {
        self.start.0 < other.end.0 && other.start.0 < self.end.0
            && self.start.0 < self.end.0 && other.start.0 < other.end.0
    }

    pub fn new(start: VirtualPageNumber, end: VirtualPageNumber) -> (r: Self)
        ensures
            r.start == start && r.end == end,
    {
        Range { start, end }
    }

    /// Number of pages in the range.
    pub fn len(&self) -> (r: usize)
        requires
            self.start.0 <= self.end.0,
        ensures
            r == self.end.0 - self.start.0,
    {
        self.end.0 - self.start.0
    }

    /// Whether `v` lies in the range.
    pub fn contains(&self, v: VirtualPageNumber) -> (r: bool)
        ensures
            r == self.contains_spec(v),
    {
        self.start.0 <= v.0 && v.0 < self.end.0
    }

    /// Whether the two ranges share at least one page.
    pub fn overlap_with(&self, other: &Range<VirtualPageNumber>) -> (r: bool)
        ensures
            r == self.overlap_spec(*other),
    {
        self.start.0 < other.end.0 && other.start.0 < self.end.0
            && self.start.0 < self.end.0 && other.start.0 < other.end.0
    }
}

impl Range<VirtualAddress> {
    /// True when `v` lies in `[start, end)`.
    pub open spec fn contains_spec(self, v: VirtualAddress) -> bool {
        self.start.0 <= v.0 < self.end.0
    }

    pub fn new(start: VirtualAddress, end: VirtualAddress) -> (r: Self)
        ensures
            r.start == start && r.end == end,
    {
        Range { start, end }
    }

    /// Number of bytes in the range.
    pub fn len(&self) -> (r: usize)
        requires
            self.start.0 <= self.end.0,
        ensures
            r == self.end.0 - self.start.0,
    {
        self.end.0 - self.start.0
    }

    /// Whether `v` lies in the range.
    pub fn contains(&self, v: VirtualAddress) -> (r: bool)
        ensures
            r == self.contains_spec(v),
    {
        self.start.0 <= v.0 && v.0 < self.end.0
    }
}

impl Range<PhysicalPageNumber> {
    pub fn new(start: PhysicalPageNumber, end: PhysicalPageNumber) -> (r: Self)
        ensures
            r.start == start && r.end == end,
    {
        Range { start, end }
    }

    /// Number of pages in the range.
    pub fn len(&self) -> (r: usize)
        requires
            self.start.0 <= self.end.0,
        ensures
            r == self.end.0 - self.start.0,
    {
        self.end.0 - self.start.0
    }
}

} // verus!
