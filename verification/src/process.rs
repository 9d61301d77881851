//! The memory side of a process: its memory set and the allocation of
//! fresh virtual ranges in it.

use vstd::prelude::*;
use crate::MemoryResult;
use crate::address::{VirtualAddress, VirtualPageNumber, PAGE_SIZE};
use crate::frame_allocator::FrameAllocator;
use crate::memory_set::{seg_covers, seg_ok, segs_overlap, KernelLayout, MemorySet};
use crate::page_table_entry::Flags;
use crate::range::Range;
use crate::segment::{MapType, Segment};

verus! {

/// Base of the virtual window `alloc_page_range` searches from.
pub const ALLOC_BASE: usize = 0x100_0000;

/// Upper bound on segment ends and allocation sizes the search handles.
pub const ALLOC_LIMIT: usize = 0x4000_0000;

/// The byte size rounded up to whole pages: the stride of the virtual
/// window search.
pub open spec fn page_round_up(size: int) -> int {
    ((size + PAGE_SIZE - 1) / PAGE_SIZE as int) * PAGE_SIZE as int
}

/// Whether the candidate window of `alloc_size` bytes at `s` shares a
/// page with any held segment.
pub open spec fn window_overlaps(ms: MemorySet, s: int, alloc_size: int) -> bool {
    exists|i: int|
        0 <= i < ms.segments@.len() && (s / PAGE_SIZE as int) < (
        #[trigger] ms.segments@[i]).end_page_spec() && ms.segments@[i].first_page_spec() < (s
            + alloc_size) / PAGE_SIZE as int && (s / PAGE_SIZE as int) < (s + alloc_size)
            / PAGE_SIZE as int && ms.segments@[i].first_page_spec()
            < ms.segments@[i].end_page_spec()
}

/// The mutable core of a process: in the running kernel it sits behind
/// the process's lock, which callers hold around every call here.
pub struct ProcessInner {
    pub memory_set: MemorySet,
}

/// A process, as far as memory management sees it: its identifier, its
/// privilege level, and the memory set its threads share.
pub struct Process {
    pub is_user: bool,
    pub id: isize,
    pub inner: ProcessInner,
}

impl Process {
    /// The process identifier.
    pub open spec fn id_spec(self) -> int {
        self.id as int
    }

    /// All segment ends lie under the search window's limit.
    pub open spec fn bounded(self) -> bool {
        forall|i: int|
            0 <= i < self.inner.memory_set.segments@.len() ==> (
            #[trigger] self.inner.memory_set.segments@[i]).range.end.0 <= ALLOC_LIMIT
    }

    /// Creates a kernel process with the given identifier, owning the
    /// kernel's reflexive memory set. The caller assigns identifiers;
    /// in the running kernel a counter under the process table's lock
    /// does.
    pub fn new_kernel(id: isize, layout: KernelLayout, fa: &mut FrameAllocator) -> (r: MemoryResult<Process>)
        requires
            layout.wf(),
            old(fa).wf(),
        ensures
            final(fa).wf(),
            final(fa).start_spec() == old(fa).start_spec(),
            final(fa).end_spec() == old(fa).end_spec(),
            match r {
                Ok(p) => {
                    &&& !p.is_user
                    &&& p.id_spec() == id
                    &&& p.inner.memory_set.wf()
                    &&& p.inner.memory_set.wf_with(*final(fa))
                    &&& p.inner.memory_set.segments@ == layout.segments_spec()
                },
                Err(_) => forall|p2: int| !(#[trigger] final(fa).is_free_ppn(p2)),
            },
    {
        let memory_set = match MemorySet::new_kernel(layout, fa) {
            Ok(ms) => ms,
            Err(e) => {
                return Err(e);
            },
        };
        Ok(Process { is_user: false, id, inner: ProcessInner { memory_set } })
    }

    /// The process identifier.
    #[verifier::allow_in_spec]
    pub fn GetId(&self) -> (r: isize)
        returns
            self.id_spec() as isize,
    {
        self.id
    }

    /// Finds an unoccupied stretch of virtual space of the given byte
    /// size, maps it as a framed segment with the given permissions
    /// (the user bit following the process), and returns the address
    /// range. Fails exactly when the frames run out.
    pub fn alloc_page_range(&mut self, size: usize, flags: Flags, fa: &mut FrameAllocator) -> (r: MemoryResult<Range<VirtualAddress>>)
        requires
            old(self).inner.memory_set.wf(),
            old(self).inner.memory_set.wf_with(*old(fa)),
            old(fa).wf(),
            old(self).bounded(),
            1 <= size <= ALLOC_LIMIT,
        ensures
            final(fa).wf(),
            final(fa).start_spec() == old(fa).start_spec(),
            final(fa).end_spec() == old(fa).end_spec(),
            final(self).is_user == old(self).is_user,
            final(self).id_spec() == old(self).id_spec(),
            match r {
                Ok(rg) => {
                    &&& final(self).inner.memory_set.wf()
                    &&& final(self).inner.memory_set.wf_with(*final(fa))
                    &&& rg.end.0 == rg.start.0 + size
                    &&& rg.start.0 as int % PAGE_SIZE as int == 0
                    &&& ALLOC_BASE <= rg.start.0
                    &&& (rg.start.0 - ALLOC_BASE) as int % page_round_up(size as int) == 0
                    &&& !window_overlaps(
                        old(self).inner.memory_set,
                        rg.start.0 as int,
                        page_round_up(size as int),
                    )
                    &&& forall|s: int|
                        ALLOC_BASE <= s < rg.start.0 && (s - ALLOC_BASE) % page_round_up(
                            size as int,
                        ) == 0 ==> #[trigger] window_overlaps(
                            old(self).inner.memory_set,
                            s,
                            page_round_up(size as int),
                        )
                    &&& final(self).inner.memory_set.segments@.len() == old(self).inner.memory_set.segments@.len() + 1
                    &&& forall|i: int|
                        0 <= i < old(self).inner.memory_set.segments@.len() ==> #[trigger] final(self).inner.memory_set.segments@[i] == old(self).inner.memory_set.segments@[i]
                    &&& forall|v: VirtualPageNumber|
                        rg.start.0 as int / PAGE_SIZE as int <= v.0 < (rg.start.0 + size + (
                        PAGE_SIZE - 1)) as int / PAGE_SIZE as int ==> #[trigger] final(self).inner.memory_set.mapping.mapped(v)
                },
                Err(_) => forall|p2: int| !(#[trigger] final(fa).is_free_ppn(p2)),
            },
    {
        // round the size up to whole pages
        let alloc_size = ((size + PAGE_SIZE - 1) / PAGE_SIZE) * PAGE_SIZE;
        proof {
            assert(alloc_size as int == page_round_up(size as int));
            assert(alloc_size as int % PAGE_SIZE as int == 0) by (nonlinear_arith)
                requires
                    alloc_size as int == ((size as int + PAGE_SIZE as int - 1)
                        / PAGE_SIZE as int) * PAGE_SIZE as int,
                    PAGE_SIZE == 4096,
            ;
            assert(size <= alloc_size < size + PAGE_SIZE) by (nonlinear_arith)
                requires
                    alloc_size as int == ((size as int + PAGE_SIZE as int - 1)
                        / PAGE_SIZE as int) * PAGE_SIZE as int,
                    PAGE_SIZE == 4096,
                    1 <= size,
            ;
        }
        // find a stretch that overlaps no existing segment
        let mut start: usize = ALLOC_BASE;
        proof {
            assert(ALLOC_BASE as int % PAGE_SIZE as int == 0);
            assert(0int % alloc_size as int == 0) by (nonlinear_arith)
                requires
                    alloc_size >= 1,
            ;
        }
        let ghost ms = self.inner.memory_set;
        loop
            invariant_except_break
                ms == self.inner.memory_set,
                self.inner.memory_set.wf(),
                old(self).bounded(),
                ms == old(self).inner.memory_set,
                start as int % PAGE_SIZE as int == 0,
                ALLOC_BASE <= start,
                start <= 2 * ALLOC_LIMIT + 2 * PAGE_SIZE,
                alloc_size as int % PAGE_SIZE as int == 0,
                alloc_size as int == page_round_up(size as int),
                1 <= size <= alloc_size < size + PAGE_SIZE,
                size <= ALLOC_LIMIT,
                (start - ALLOC_BASE) as int % alloc_size as int == 0,
                forall|s: int|
                    ALLOC_BASE <= s < start && (s - ALLOC_BASE) % alloc_size as int == 0
                        ==> #[trigger] window_overlaps(ms, s, alloc_size as int),
            ensures
                ms == self.inner.memory_set,
                start as int % PAGE_SIZE as int == 0,
                alloc_size as int % PAGE_SIZE as int == 0,
                alloc_size as int == page_round_up(size as int),
                1 <= size <= alloc_size < size + PAGE_SIZE,
                size <= ALLOC_LIMIT,
                start <= 2 * ALLOC_LIMIT + 2 * PAGE_SIZE,
                ALLOC_BASE <= start,
                start + alloc_size <= usize::MAX - PAGE_SIZE,
                (start - ALLOC_BASE) as int % alloc_size as int == 0,
                !window_overlaps(ms, start as int, alloc_size as int),
                forall|s: int|
                    ALLOC_BASE <= s < start && (s - ALLOC_BASE) % alloc_size as int == 0
                        ==> #[trigger] window_overlaps(ms, s, alloc_size as int),
                forall|i: int|
                    0 <= i < ms.segments@.len() ==> !((start as int / PAGE_SIZE as int) < (
                    #[trigger] ms.segments@[i]).end_page_spec() && ms.segments@[i].first_page_spec()
                        < (start + alloc_size) as int / PAGE_SIZE as int && (start as int
                        / PAGE_SIZE as int) < (start + alloc_size) as int / PAGE_SIZE as int
                        && ms.segments@[i].first_page_spec() < ms.segments@[i].end_page_spec()),
            decreases 2 * ALLOC_LIMIT + 2 * PAGE_SIZE - start,
        {
            let pstart = VirtualPageNumber(start / PAGE_SIZE);
            let pend = VirtualPageNumber((start + alloc_size) / PAGE_SIZE);
            let cand = Range::<VirtualPageNumber>::new(pstart, pend);
            if !self.inner.memory_set.overlap_with(cand) {
                break ;
            }
            proof {
                // some segment still overlaps, so the window has not yet
                // passed every segment end
                let i = choose|i: int|
                    0 <= i < ms.segments@.len() && cand.start.0 < (
                    #[trigger] ms.segments@[i]).end_page_spec() && ms.segments@[i].first_page_spec()
                        < cand.end.0 && cand.start.0 < cand.end.0
                        && ms.segments@[i].first_page_spec() < ms.segments@[i].end_page_spec();
                assert(ms.segments@[i].range.end.0 <= ALLOC_LIMIT);
                assert(ms.segments@[i].end_page_spec() <= ALLOC_LIMIT as int / PAGE_SIZE as int
                    + 1);
                assert(cand.start.0 == start as int / PAGE_SIZE as int);
                assert((start as int / PAGE_SIZE as int) < ALLOC_LIMIT as int
                    / PAGE_SIZE as int + 1);
                assert(start < ALLOC_LIMIT + PAGE_SIZE) by (nonlinear_arith)
                    requires
                        (start as int / PAGE_SIZE as int) < ALLOC_LIMIT as int
                            / PAGE_SIZE as int + 1,
                        PAGE_SIZE == 4096,
                        ALLOC_LIMIT == 0x4000_0000,
                        start >= 0,
                ;
            }
            let ghost startprev = start as int;
            start = start + alloc_size;
            proof {
                // the window just rejected joins the overlapped prefix
                vstd::arithmetic::div_mod::lemma_mod_add_multiples_vanish(
                    (startprev - ALLOC_BASE) as int,
                    alloc_size as int,
                );
                assert((start - ALLOC_BASE) as int % alloc_size as int == 0);
                assert(window_overlaps(ms, startprev, alloc_size as int));
                assert forall|s: int|
                    ALLOC_BASE <= s < start && (s - ALLOC_BASE) % alloc_size as int == 0 implies
                    #[trigger] window_overlaps(ms, s, alloc_size as int) by {
                    if s >= startprev {
                        // stride-aligned positions between the old and new
                        // start coincide with the old start
                        assert(s == startprev) by (nonlinear_arith)
                            requires
                                startprev <= s < startprev + alloc_size,
                                (s - ALLOC_BASE) % alloc_size as int == 0,
                                (startprev - ALLOC_BASE) as int % alloc_size as int == 0,
                                alloc_size >= 1,
                                s >= ALLOC_BASE,
                                startprev >= ALLOC_BASE,
                        ;
                    }
                }
            }
        }
        let segment = Segment {
            map_type: MapType::Framed,
            range: Range {
                start: VirtualAddress(start),
                end: VirtualAddress(start + alloc_size),
            },
            flags: flags.with_user(self.is_user),
        };
        proof {
            assert(seg_ok(segment)) by {
                assert(segment.end_page_spec() == (start + alloc_size) as int / PAGE_SIZE as int);
                assert(((start + alloc_size) as int / PAGE_SIZE as int) < crate::address::vpn_space())
                    by (nonlinear_arith)
                    requires
                        start + alloc_size <= usize::MAX - PAGE_SIZE,
                        start + alloc_size <= 4 * ALLOC_LIMIT,
                        PAGE_SIZE == 4096,
                        ALLOC_LIMIT == 0x4000_0000,
                        crate::address::vpn_space() == 512 * 512 * 512,
                ;
            }
            assert forall|i: int|
                0 <= i < self.inner.memory_set.segments@.len() implies !segs_overlap(
                segment,
                #[trigger] self.inner.memory_set.segments@[i],
            ) by {
                assert(segment.first_page_spec() == start as int / PAGE_SIZE as int);
                assert(segment.end_page_spec() == (start + alloc_size) as int
                    / PAGE_SIZE as int);
            }
        }
        match self.inner.memory_set.add_segment(segment, None, fa) {
            Ok(_) => {},
            Err(e) => {
                return Err(e);
            },
        }
        proof {
            assert forall|v: VirtualPageNumber|
                start as int / PAGE_SIZE as int <= v.0 < (start + size + (PAGE_SIZE - 1)) as int
                    / PAGE_SIZE as int implies #[trigger] self.inner.memory_set.mapping.mapped(
                v,
            ) by {
                assert((start + size + (PAGE_SIZE - 1)) as int / PAGE_SIZE as int <= (start
                    + alloc_size) as int / PAGE_SIZE as int) by (nonlinear_arith)
                    requires
                        start as int % PAGE_SIZE as int == 0,
                        alloc_size as int % PAGE_SIZE as int == 0,
                        size <= alloc_size < size + PAGE_SIZE,
                        PAGE_SIZE == 4096,
                        start >= 0,
                        size >= 1,
                        start + alloc_size <= usize::MAX - PAGE_SIZE,
                ;
                assert(seg_covers(segment, v));
            }
        }
        Ok(Range { start: VirtualAddress(start), end: VirtualAddress(start + size) })
    }
}

} // verus!
