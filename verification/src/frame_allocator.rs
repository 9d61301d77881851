//! The physical frame allocator.
//!
//! Wraps one unit allocator over the frame range it was given and hands
//! out RAII-style [`FrameTracker`] handles: each handle owns one page,
//! and returning it through [`FrameAllocator::dealloc`] is the only way
//! the page becomes free again. In the running kernel one such allocator
//! exists process-wide, guarded by a lock that serializes every call.

use vstd::prelude::*;
use crate::MemoryResult;
use crate::address::PhysicalPageNumber;
use crate::allocator::Allocator;
use crate::frame_tracker::FrameTracker;
use crate::page_table_entry::MAX_PPN;
use crate::range::Range;
use crate::stacked_allocator::{StackedAllocator, MAX_PAGES};

verus! {

/// The unit allocator the frame allocator builds on.
pub type AllocatorImpl = StackedAllocator;

/// Allocates and reclaims physical frames from a fixed page range.
pub struct FrameAllocator {
    start_ppn: PhysicalPageNumber,
    allocator: AllocatorImpl,
    end_ppn: Ghost<int>,
}

impl FrameAllocator {
    /// First page of the managed range.
    pub closed spec fn start_spec(self) -> int {
        self.start_ppn.0 as int
    }

    /// One past the last page of the managed range.
    pub closed spec fn end_spec(self) -> int {
        self.end_ppn@
    }

    /// Whether the unit with this offset from the range start is free.
    spec fn is_free_index(self, i: int) -> bool {
        exists|j: int|
            0 <= j < self.allocator.view_spec().len() && (#[trigger] self.allocator.view_spec()[
                j
            ]).0 <= i < self.allocator.view_spec()[j].1
    }

    /// Whether the physical page is currently free in this allocator.
    pub closed spec fn is_free_ppn(self, p: int) -> bool {
        self.is_free_index(p - self.start_spec())
    }

    /// Number of free ranges the wrapped allocator holds; bounded by the
    /// fixed stack, so takers of many frames state it in their callers'
    /// obligations.
    pub closed spec fn range_count(self) -> int {
        self.allocator.view_spec().len() as int
    }

    /// The page the next `allocate` hands out, or `-1` when none is
    /// free: allocation is deterministic in the allocator's state.
    pub closed spec fn next_free_ppn(self) -> int {
        if self.allocator.view_spec().len() == 0 {
            -1
        } else {
            self.start_spec() + self.allocator.view_spec().last().0
        }
    }

    /// The wrapped allocator's free ranges are disjoint and lie inside
    /// the managed page range, which ends low enough for every page
    /// number to fit a page-table entry.
    pub closed spec fn wf(self) -> bool {
        &&& self.allocator.wf()
        &&& self.start_spec() + 0 <= self.end_spec() <= MAX_PPN
        &&& forall|j: int|
            0 <= j < self.allocator.view_spec().len() ==> 0 <= (
            #[trigger] self.allocator.view_spec()[j]).0 && self.allocator.view_spec()[j].1
                <= self.end_spec() - self.start_spec()
        &&& forall|j1: int, j2: int|
            0 <= j1 < self.allocator.view_spec().len() && 0 <= j2
                < self.allocator.view_spec().len() && j1 != j2 ==> ((
            #[trigger] self.allocator.view_spec()[j1]).1 <= (
            #[trigger] self.allocator.view_spec()[j2]).0 || self.allocator.view_spec()[j2].1
                <= self.allocator.view_spec()[j1].0)
    }

    /// Creates the allocator over the given page range, with every page
    /// initially free.
    pub fn new(range: Range<PhysicalPageNumber>) -> (r: Self)
        requires
            range.start.0 < range.end.0,
            range.end.0 <= MAX_PPN,
            range.end.0 - range.start.0 <= MAX_PAGES,
        ensures
            r.wf(),
            r.start_spec() == range.start.0,
            r.end_spec() == range.end.0,
            r.range_count() == 1,
            forall|p: int| #[trigger] r.is_free_ppn(p) <==> range.start.0 <= p < range.end.0,
    {
        let len = range.end.0 - range.start.0;
        let mut allocator = StackedAllocator::empty();
        allocator.init(len);
        let r = FrameAllocator {
            start_ppn: range.start,
            allocator,
            end_ppn: Ghost(range.end.0 as int),
        };
        proof {
            assert(r.allocator.view_spec() =~= seq![(0int, len as int)]);
            assert forall|p: int| #[trigger] r.is_free_ppn(p) <==> range.start.0 <= p
                < range.end.0 by {
                if range.start.0 <= p < range.end.0 {
                    assert(r.allocator.view_spec()[0].0 <= p - r.start_spec()
                        < r.allocator.view_spec()[0].1);
                }
            }
        }
        r
    }

    /// Hands out one free frame, zero-filled, or reports exhaustion.
    /// Exhaustion is recoverable: the caller propagates it.
    pub fn allocate(&mut self) -> (r: MemoryResult<FrameTracker>)
        requires
            old(self).wf(),
        ensures
            final(self).wf(),
            final(self).start_spec() == old(self).start_spec(),
            final(self).end_spec() == old(self).end_spec(),
            final(self).range_count() <= old(self).range_count(),
            match r {
                Ok(ft) => {
                    &&& ft.wf()
                    &&& ft.ppn_spec() == old(self).next_free_ppn()
                    &&& old(self).is_free_ppn(ft.ppn_spec())
                    &&& old(self).start_spec() <= ft.ppn_spec() < old(self).end_spec()
                    &&& ft.ppn_spec() < MAX_PPN
                    &&& forall|i: int| 0 <= i < 4096 ==> ft.data_spec()[i] == 0u8
                    &&& forall|p: int|
                        #[trigger] final(self).is_free_ppn(p) <==> (old(self).is_free_ppn(p) && p
                            != ft.ppn_spec())
                },
                Err(m) => {
                    &&& m@ == "no available frame to allocate"@
                    &&& forall|p: int| !(#[trigger] old(self).is_free_ppn(p))
                    &&& forall|p: int| !(#[trigger] final(self).is_free_ppn(p))
                    &&& final(self).range_count() == old(self).range_count()
                },
            },
    {
        let ghost pre = *self;
        let got = self.allocator.allocate();
        match got {
            Some(offset) => {
                proof {
                    let v0 = pre.allocator.view_spec();
                    let v1 = self.allocator.view_spec();
                    let last = v0.len() - 1;
                    assert(offset == v0[last].0);
                    assert(pre.is_free_index(offset as int)) by {
                        assert(v0[last].0 <= offset < v0[last].1);
                    }
                    // exactly the popped range's first unit left the free
                    // set
                    assert forall|i: int|
                        #[trigger] self.is_free_index(i) <==> (pre.is_free_index(i) && i != offset)
                        by {
                        if self.is_free_index(i) {
                            let j = choose|j: int|
                                0 <= j < v1.len() && (#[trigger] v1[j]).0 <= i < v1[j].1;
                            if j < last {
                                assert(v0[j].0 <= i < v0[j].1);
                                assert(v0[j].1 <= v0[last].0 || v0[last].1 <= v0[j].0);
                            } else {
                                assert(v1[j] == (v0[last].0 + 1, v0[last].1));
                                assert(v0[last].0 <= i < v0[last].1);
                            }
                        }
                        if pre.is_free_index(i) && i != offset {
                            let j = choose|j: int|
                                0 <= j < v0.len() && (#[trigger] v0[j]).0 <= i < v0[j].1;
                            if j < last {
                                assert(v1[j] == v0[j]);
                                assert(v1[j].0 <= i < v1[j].1);
                            } else {
                                if v0[last].1 - v0[last].0 > 1 {
                                    assert(v1[v1.len() - 1] == (v0[last].0 + 1, v0[last].1));
                                    assert(v1[v1.len() - 1].0 <= i < v1[v1.len() - 1].1);
                                }
                            }
                        }
                    }
                }
                proof {
                    let v0 = pre.allocator.view_spec();
                    let v1 = self.allocator.view_spec();
                    let last = v0.len() - 1;
                    assert forall|j: int|
                        0 <= j < v1.len() implies 0 <= (#[trigger] v1[j]).0 && v1[j].1
                        <= self.end_spec() - self.start_spec() by {
                        if j < last {
                            assert(v1[j] == v0[j]);
                        } else {
                            assert(v1[j] == (v0[last].0 + 1, v0[last].1));
                        }
                    }
                    assert forall|j1: int, j2: int|
                        0 <= j1 < v1.len() && 0 <= j2 < v1.len() && j1 != j2 implies ((
                    #[trigger] v1[j1]).1 <= (#[trigger] v1[j2]).0 || v1[j2].1 <= v1[j1].0) by {
                        let w1: (int, int) = if j1 < last {
                            v0[j1]
                        } else {
                            (v0[last].0 + 1, v0[last].1)
                        };
                        let w2: (int, int) = if j2 < last {
                            v0[j2]
                        } else {
                            (v0[last].0 + 1, v0[last].1)
                        };
                        assert(v1[j1] == w1 && v1[j2] == w2);
                        if j1 == last || j2 == last {
                            assert(v0[last].1 <= v0[if j1 == last {
                                j2
                            } else {
                                j1
                            }].0 || v0[if j1 == last {
                                j2
                            } else {
                                j1
                            }].1 <= v0[last].0);
                        }
                    }
                    assert(self.wf());
                    assert(offset < v0[last].1 <= pre.end_spec() - pre.start_spec());
                }
                let ppn = PhysicalPageNumber(self.start_ppn.0 + offset);
                let ft = FrameTracker::new(ppn);
                Ok(ft)
            },
            None => {
                proof {
                    assert forall|p: int| !(#[trigger] pre.is_free_ppn(p)) by {}
                }
                Err("no available frame to allocate")
            },
        }
    }

    /// Takes a frame handle back, returning its page to the free set.
    /// The handle is consumed: a page cannot be returned twice.
    pub fn dealloc(&mut self, frame: FrameTracker)
        requires
            old(self).wf(),
            old(self).start_spec() <= frame.ppn_spec() < old(self).end_spec(),
            !old(self).is_free_ppn(frame.ppn_spec()),
            old(self).range_count() < MAX_PAGES,
        ensures
            final(self).wf(),
            final(self).start_spec() == old(self).start_spec(),
            final(self).end_spec() == old(self).end_spec(),
            final(self).range_count() == old(self).range_count() + 1,
            forall|p: int|
                #[trigger] final(self).is_free_ppn(p) <==> (old(self).is_free_ppn(p) || p
                    == frame.ppn_spec()),
    {
        let ghost pre = *self;
        let index = frame.page_number().0 - self.start_ppn.0;
        self.allocator.dealloc(index);
        proof {
            let v0 = pre.allocator.view_spec();
            let v1 = self.allocator.view_spec();
            assert(v1 =~= v0.push((index as int, index as int + 1)));
            assert forall|p: int|
                #[trigger] self.is_free_ppn(p) <==> (pre.is_free_ppn(p) || p == frame.ppn_spec())
                by {
                if self.is_free_ppn(p) {
                    let j = choose|j: int|
                        0 <= j < v1.len() && (#[trigger] v1[j]).0 <= p - self.start_spec()
                            < v1[j].1;
                    if j < v0.len() {
                        assert(v0[j].0 <= p - pre.start_spec() < v0[j].1);
                    }
                }
                if pre.is_free_ppn(p) {
                    let j = choose|j: int|
                        0 <= j < v0.len() && (#[trigger] v0[j]).0 <= p - pre.start_spec()
                            < v0[j].1;
                    assert(v1[j].0 <= p - self.start_spec() < v1[j].1);
                }
                if p == frame.ppn_spec() {
                    assert(v1[v1.len() - 1].0 <= p - self.start_spec() < v1[v1.len() - 1].1);
                }
            }
            // the new singleton range does not overlap the old ranges
            assert forall|j1: int, j2: int|
                0 <= j1 < v1.len() && 0 <= j2 < v1.len() && j1 != j2 implies ((
            #[trigger] v1[j1]).1 <= (#[trigger] v1[j2]).0 || v1[j2].1 <= v1[j1].0) by {
                let idx = frame.ppn_spec() - pre.start_spec();
                if j1 == v0.len() as int {
                    assert(v1[j1] == (idx, idx + 1));
                    assert(v0[j2].0 <= idx < v0[j2].1 ==> pre.is_free_index(idx));
                } else if j2 == v0.len() as int {
                    assert(v1[j2] == (idx, idx + 1));
                    assert(v0[j1].0 <= idx < v0[j1].1 ==> pre.is_free_index(idx));
                } else {
                    assert(v1[j1] == v0[j1] && v1[j2] == v0[j2]);
                }
            }
        }
    }
}

} // verus!
