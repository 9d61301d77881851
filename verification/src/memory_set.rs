//! The memory bookkeeping of one address space owner.
//!
//! A `MemorySet` owns one [`Mapping`], the [`Segment`]s realized in it,
//! and the (page, frame) pairs it must eventually release. Segments
//! never overlap; a page is mapped exactly when some segment covers it.
//! All mutation happens under the owner's lock, held by the caller.

use vstd::prelude::*;
use crate::MemoryResult;
use crate::address::{vpn_space, PhysicalPageNumber, VirtualAddress, VirtualPageNumber, PAGE_SIZE};
use crate::frame_allocator::FrameAllocator;
use crate::frame_tracker::FrameTracker;
use crate::mapping::{framed_pair_ok, Mapping};
use crate::page_table_entry::{Flags, MAX_PPN};
use crate::range::Range;
use crate::segment::{MapType, Segment};
use crate::stacked_allocator::MAX_PAGES;

verus! {

/// Whether a segment is within the ranges this model handles.
pub open spec fn seg_ok(seg: Segment) -> bool {
    &&& seg.range.start.0 <= seg.range.end.0
    &&& seg.range.end.0 < usize::MAX - PAGE_SIZE
    &&& seg.end_page_spec() <= vpn_space()
    &&& (seg.map_type == MapType::Linear ==> seg.end_page_spec() <= MAX_PPN)
}

/// Whether a segment's page range covers the page.
pub open spec fn seg_covers(seg: Segment, v: VirtualPageNumber) -> bool {
    seg.first_page_spec() <= v.0 < seg.end_page_spec()
}

/// Whether two segments share at least one page.
pub open spec fn segs_overlap(a: Segment, b: Segment) -> bool {
    a.first_page_spec() < b.end_page_spec() && b.first_page_spec() < a.end_page_spec()
        && a.first_page_spec() < a.end_page_spec() && b.first_page_spec() < b.end_page_spec()
}

/// Peeling the front element off a filter: the filtered sequence starts
/// with the element (when the predicate holds) followed by the filtered
/// rest.
proof fn lemma_filter_cons<A>(x: A, s: Seq<A>, pred: spec_fn(A) -> bool)
    ensures
        (seq![x] + s).filter(pred) == (if pred(x) {
            seq![x]
        } else {
            Seq::<A>::empty()
        }) + s.filter(pred),
    decreases s.len(),
{
    reveal(Seq::filter);
    if s.len() == 0 {
        assert((seq![x] + s) =~= seq![x]);
        assert(seq![x].drop_last() =~= Seq::<A>::empty());
        assert(Seq::<A>::empty().filter(pred) == Seq::<A>::empty());
        if pred(x) {
            assert((seq![x] + s).filter(pred) =~= seq![x] + s.filter(pred));
        } else {
            assert((seq![x] + s).filter(pred) =~= Seq::<A>::empty() + s.filter(pred));
        }
    } else {
        lemma_filter_cons(x, s.drop_last(), pred);
        assert((seq![x] + s).drop_last() =~= seq![x] + s.drop_last());
        assert((seq![x] + s).last() == s.last());
        if pred(x) {
            assert((seq![x] + s).filter(pred) =~= (seq![x] + s.filter(pred)));
        } else {
            assert((seq![x] + s).filter(pred) =~= (Seq::<A>::empty() + s.filter(pred)));
        }
    }
}

/// The predicate deciding which owned pairs a segment removal keeps:
/// those whose page the removed segment does not cover.
pub open spec fn keeps_pair(seg: Segment) -> spec_fn((VirtualPageNumber, FrameTracker)) -> bool {
    |pr: (VirtualPageNumber, FrameTracker)| !seg_covers(seg, pr.0)
}

/// One address space owner's mapping, segments, and owned frames.
pub struct MemorySet {
    pub mapping: Mapping,
    pub segments: Vec<Segment>,
    pub allocated_pairs: Vec<(VirtualPageNumber, FrameTracker)>,
}

impl MemorySet {
    /// Whether some held segment covers the page.
    pub open spec fn covered(self, v: VirtualPageNumber) -> bool {
        exists|i: int| 0 <= i < self.segments@.len() && seg_covers(#[trigger] self.segments@[i], v)
    }

    /// Internal consistency: segments are sane and pairwise disjoint, a
    /// page is mapped exactly when a segment covers it, and the owned
    /// frames are well formed with distinct pages.
    pub open spec fn wf(self) -> bool {
        &&& self.mapping.inv()
        &&& forall|i: int| 0 <= i < self.segments@.len() ==> seg_ok(#[trigger] self.segments@[i])
        &&& forall|i: int, j: int|
            0 <= i < self.segments@.len() && 0 <= j < self.segments@.len() && i != j
                ==> !segs_overlap(#[trigger] self.segments@[i], #[trigger] self.segments@[j])
        &&& forall|v: VirtualPageNumber|
            v.0 < vpn_space() ==> (#[trigger] self.mapping.mapped(v) <==> self.covered(v))
        &&& forall|k: int|
            0 <= k < self.allocated_pairs@.len() ==> (#[trigger] self.allocated_pairs@[k]).1.wf()
                && self.allocated_pairs@[k].0.0 < vpn_space()
        &&& forall|k1: int, k2: int|
            0 <= k1 < self.allocated_pairs@.len() && 0 <= k2 < self.allocated_pairs@.len() && k1
                != k2 ==> (#[trigger] self.allocated_pairs@[k1].1.ppn_spec()) != (
            #[trigger] self.allocated_pairs@[k2].1.ppn_spec())
        &&& forall|k: int|
            0 <= k < self.allocated_pairs@.len() ==> !self.mapping.owns_ppn(
                (#[trigger] self.allocated_pairs@[k]).1.ppn_spec(),
            )
    }

    /// Consistency against the frame allocator: neither the mapping's
    /// tables nor the owned frames are free.
    pub open spec fn wf_with(self, fa: FrameAllocator) -> bool {
        &&& self.mapping.disjoint_from(fa)
        &&& forall|k: int|
            0 <= k < self.allocated_pairs@.len() ==> !fa.is_free_ppn(
                (#[trigger] self.allocated_pairs@[k]).1.ppn_spec(),
            ) && fa.start_spec() <= self.allocated_pairs@[k].1.ppn_spec() < fa.end_spec()
    }

    /// Whether the given page range shares a page with any held
    /// segment.
    pub fn overlap_with(&self, range: Range<VirtualPageNumber>) -> (r: bool)
        ensures
            r == exists|i: int|
                0 <= i < self.segments@.len() && range.start.0 < (
                #[trigger] self.segments@[i]).end_page_spec() && self.segments@[i].first_page_spec()
                    < range.end.0 && range.start.0 < range.end.0 && self.segments@[i].first_page_spec()
                    < self.segments@[i].end_page_spec(),
    {
        let mut i: usize = 0;
        while i < self.segments.len()
            invariant
                i <= self.segments@.len(),
                forall|j: int|
                    0 <= j < i ==> !(range.start.0 < (#[trigger] self.segments@[j]).end_page_spec()
                        && self.segments@[j].first_page_spec() < range.end.0 && range.start.0
                        < range.end.0 && self.segments@[j].first_page_spec()
                        < self.segments@[j].end_page_spec()),
            decreases self.segments@.len() - i,
        {
            let sr = self.segments[i].page_range();
            if range.overlap_with(&sr) {
                return true;
            }
            i = i + 1;
        }
        false
    }

    /// The page to load into the paging-enable register to activate this
    /// address space; combining it with the hardware's mode bits and
    /// writing the register is the boot layer's part.
    pub fn activate(&self) -> (r: PhysicalPageNumber)
        ensures
            r.0 == self.mapping.root_spec(),
    {
        self.mapping.root_page_number()
    }

    /// Adds one segment: checks it against every held segment, maps it,
    /// and records the newly allocated frames. Mapping an overlapping
    /// segment is a programmer error, excluded by contract; failure
    /// comes exactly when the frames run out, and leaves a partially
    /// mapped set that its owner abandons along with its own failure.
    pub fn add_segment(
        &mut self,
        segment: Segment,
        init_data: Option<&Vec<u8>>,
        fa: &mut FrameAllocator,
    ) -> (r: MemoryResult<()>)
        requires
            old(self).wf(),
            old(self).wf_with(*old(fa)),
            old(fa).wf(),
            seg_ok(segment),
            forall|i: int|
                0 <= i < old(self).segments@.len() ==> !segs_overlap(
                    segment,
                    #[trigger] old(self).segments@[i],
                ),
            match init_data {
                Some(d) => d@.len() == segment.range.end.0 - segment.range.start.0,
                None => true,
            },
        ensures
            final(fa).wf(),
            final(fa).start_spec() == old(fa).start_spec(),
            final(fa).end_spec() == old(fa).end_spec(),
            forall|p: int| #[trigger] final(fa).is_free_ppn(p) ==> old(fa).is_free_ppn(p),
            match r {
                Ok(_) => {
                    &&& final(self).wf()
                    &&& final(self).wf_with(*final(fa))
                    &&& final(self).segments@ == old(self).segments@.push(segment)
                    &&& (segment.map_type == MapType::Framed ==> final(self).allocated_pairs@.len()
                        == old(self).allocated_pairs@.len() + segment.end_page_spec()
                        - segment.first_page_spec())
                    &&& (segment.map_type == MapType::Linear ==> final(self).allocated_pairs@
                        == old(self).allocated_pairs@)
                    &&& forall|k: int|
                        0 <= k < old(self).allocated_pairs@.len() ==> #[trigger] final(self).allocated_pairs@[k] == old(self).allocated_pairs@[k]
                    &&& forall|v: VirtualPageNumber|
                        seg_covers(segment, v) ==> #[trigger] final(self).mapping.mapped(v)
                    &&& (segment.map_type == MapType::Linear ==> forall|v: VirtualPageNumber|
                        seg_covers(segment, v) ==> (#[trigger] final(self).mapping.entry_of(v)).0
                            == v.0 * crate::page_table_entry::PPN_SHIFT as int + (Flags {
                            valid: true,
                            ..segment.flags
                        }).bits_spec())
                    &&& (segment.map_type == MapType::Framed ==> forall|k: int|
                        old(self).allocated_pairs@.len() <= k < final(self).allocated_pairs@.len()
                            ==> framed_pair_ok(
                            final(self).mapping,
                            *old(fa),
                            *final(fa),
                            segment,
                            init_data,
                            segment.first_page_spec(),
                            k - old(self).allocated_pairs@.len(),
                            #[trigger] final(self).allocated_pairs@[k],
                        ))
                    &&& forall|v: VirtualPageNumber|
                        v.0 < vpn_space() && !seg_covers(segment, v) ==> (#[trigger] final(self).mapping.mapped(v) == old(self).mapping.mapped(v)) && (old(self).mapping.mapped(v) ==> final(self).mapping.entry_of(v) == old(self).mapping.entry_of(v))
                },
                Err(_) => {
                    &&& forall|p: int| !(#[trigger] final(fa).is_free_ppn(p))
                    &&& final(self).segments@ == old(self).segments@
                    &&& final(self).allocated_pairs@ == old(self).allocated_pairs@
                    &&& forall|v: VirtualPageNumber|
                        v.0 < vpn_space() && !seg_covers(segment, v) ==> (#[trigger] final(self).mapping.mapped(v) == old(self).mapping.mapped(v)) && (old(self).mapping.mapped(v)
                            ==> final(self).mapping.entry_of(v) == old(self).mapping.entry_of(v))
                },
            },
    {
        let ghost pre = *self;
        let ghost fa0 = *old(fa);
        proof {
            // no covered page is mapped yet: a mapped page would be
            // covered by an existing segment, which would overlap
            assert forall|v: VirtualPageNumber|
                seg_covers(segment, v) implies !(#[trigger] pre.mapping.mapped(v)) by {
                if pre.mapping.mapped(v) {
                    let i = choose|i: int|
                        0 <= i < pre.segments@.len() && seg_covers(#[trigger] pre.segments@[i], v);
                    assert(segs_overlap(segment, pre.segments@[i]));
                }
            }
        }
        let pairs2 = match self.mapping.map(&segment, init_data, fa) {
            Ok(ps) => ps,
            Err(e) => {
                return Err(e);
            },
        };
        let ghost mid = *self;
        let ghost pairs2v = pairs2@;
        // take over the new pairs, keeping their order
        let mut pairs2m = pairs2;
        let ghost kbase = self.allocated_pairs@.len() as int;
        self.allocated_pairs.append(&mut pairs2m);
        proof {
            assert(self.allocated_pairs@ == pre.allocated_pairs@ + pairs2v);
        }
        self.segments.push(segment);
        proof {
            let m = *self;
            let is_framed = segment.map_type == MapType::Framed;
            if !is_framed {
                assert(pairs2v.len() == 0);
                assert(m.allocated_pairs@ =~= pre.allocated_pairs@);
            }
            // every old pair kept its slot
            assert(forall|k: int|
                0 <= k < kbase ==> #[trigger] m.allocated_pairs@[k] == pre.allocated_pairs@[k]);
            // new pairs satisfy the framed conditions
            assert forall|k: int|
                kbase <= k < m.allocated_pairs@.len() implies (#[trigger] m.allocated_pairs@[k]).1.wf()
                    && m.allocated_pairs@[k].0.0 < vpn_space() && !final(fa).is_free_ppn(
                    m.allocated_pairs@[k].1.ppn_spec(),
                ) && fa0.start_spec() <= m.allocated_pairs@[k].1.ppn_spec() < fa0.end_spec()
                    && fa0.is_free_ppn(m.allocated_pairs@[k].1.ppn_spec()) by {
                let i = k - kbase;
                assert(self.allocated_pairs@[k] == pairs2v[i]);
                assert(framed_pair_ok(
                    mid.mapping,
                    fa0,
                    *final(fa),
                    segment,
                    init_data,
                    segment.first_page_spec(),
                    i,
                    pairs2v[i],
                ));
            }
            // distinct frame pages across old and new pairs
            assert forall|k1: int, k2: int|
                0 <= k1 < m.allocated_pairs@.len() && 0 <= k2 < m.allocated_pairs@.len() && k1
                    != k2 implies (#[trigger] m.allocated_pairs@[k1].1.ppn_spec()) != (
            #[trigger] m.allocated_pairs@[k2].1.ppn_spec()) by {
                if k1 < kbase && k2 < kbase {
                    assert(m.allocated_pairs@[k1] == pre.allocated_pairs@[k1]);
                    assert(m.allocated_pairs@[k2] == pre.allocated_pairs@[k2]);
                } else if k1 >= kbase && k2 >= kbase {
                    let i1 = k1 - kbase;
                    let i2 = k2 - kbase;
                    assert(m.allocated_pairs@[k1] == pairs2v[i1]);
                    assert(m.allocated_pairs@[k2] == pairs2v[i2]);
                    assert(framed_pair_ok(
                        mid.mapping,
                        fa0,
                        *final(fa),
                        segment,
                        init_data,
                        segment.first_page_spec(),
                        i1,
                        pairs2v[i1],
                    ));
                } else {
                    // an old frame was no longer free when the new one
                    // still was
                    let ko: int = if k1 < kbase {
                        k1
                    } else {
                        k2
                    };
                    let kn: int = if k1 < kbase {
                        k2
                    } else {
                        k1
                    };
                    let i = kn - kbase;
                    assert(m.allocated_pairs@[kn] == pairs2v[i]);
                    assert(m.allocated_pairs@[ko] == pre.allocated_pairs@[ko]);
                    assert(framed_pair_ok(
                        mid.mapping,
                        fa0,
                        *final(fa),
                        segment,
                        init_data,
                        segment.first_page_spec(),
                        i,
                        pairs2v[i],
                    ));
                    assert(!fa0.is_free_ppn(pre.allocated_pairs@[ko].1.ppn_spec()));
                    assert(fa0.is_free_ppn(pairs2v[i].1.ppn_spec()));
                }
            }
            // a page is mapped exactly when covered, now including the
            // new segment
            assert forall|v: VirtualPageNumber|
                v.0 < vpn_space() implies (#[trigger] m.mapping.mapped(v) <==> m.covered(v)) by {
                if seg_covers(segment, v) {
                    assert(m.mapping.mapped(v));
                    assert(seg_covers(m.segments@[m.segments@.len() - 1], v));
                } else {
                    assert(m.mapping.mapped(v) == pre.mapping.mapped(v));
                    if pre.covered(v) {
                        let i = choose|i: int|
                            0 <= i < pre.segments@.len() && seg_covers(
                                #[trigger] pre.segments@[i],
                                v,
                            );
                        assert(seg_covers(m.segments@[i], v));
                    }
                    if m.covered(v) {
                        let i = choose|i: int|
                            0 <= i < m.segments@.len() && seg_covers(#[trigger] m.segments@[i], v);
                        if i < pre.segments@.len() {
                            assert(seg_covers(pre.segments@[i], v));
                            assert(pre.covered(v));
                        }
                    }
                }
            }
            assert(m.wf());
            assert(m.mapping == mid.mapping);
            assert(m.mapping.disjoint_from(*final(fa)));
            assert(m.wf_with(*final(fa)));
            if segment.map_type == MapType::Framed {
                assert forall|k: int|
                    kbase <= k < m.allocated_pairs@.len() implies framed_pair_ok(
                    m.mapping,
                    fa0,
                    *final(fa),
                    segment,
                    init_data,
                    segment.first_page_spec(),
                    k - kbase,
                    #[trigger] m.allocated_pairs@[k],
                ) by {
                    let i = k - kbase;
                    assert(m.allocated_pairs@[k] == pairs2v[i]);
                    assert(framed_pair_ok(
                        mid.mapping,
                        fa0,
                        *final(fa),
                        segment,
                        init_data,
                        segment.first_page_spec(),
                        i,
                        pairs2v[i],
                    ));
                }
            }
            // no owned frame doubles as a page table
            assert forall|k: int|
                0 <= k < m.allocated_pairs@.len() implies !m.mapping.owns_ppn(
                (#[trigger] m.allocated_pairs@[k]).1.ppn_spec(),
            ) by {
                if k < kbase {
                    assert(m.allocated_pairs@[k] == pre.allocated_pairs@[k]);
                    let q = pre.allocated_pairs@[k].1.ppn_spec();
                    assert(!pre.mapping.owns_ppn(q));
                    assert(!fa0.is_free_ppn(q));
                    if m.mapping.owns_ppn(q) {
                        assert(pre.mapping.owns_ppn(q) || fa0.is_free_ppn(q));
                    }
                } else {
                    let i = k - kbase;
                    assert(self.allocated_pairs@[k] == pairs2v[i]);
                    assert(framed_pair_ok(
                        mid.mapping,
                        fa0,
                        *final(fa),
                        segment,
                        init_data,
                        segment.first_page_spec(),
                        i,
                        pairs2v[i],
                    ));
                }
            }
        }
        Ok(())
    }
}


impl MemorySet {
    /// Removes a previously added segment: unmaps its pages and releases
    /// exactly the owned frames its range covers back to the allocator.
    /// Removing a segment that was never added is a programmer error,
    /// excluded by contract.
    pub fn remove_segment(&mut self, segment: &Segment, fa: &mut FrameAllocator) -> (r: MemoryResult<()>)
        requires
            old(self).wf(),
            old(self).wf_with(*old(fa)),
            old(fa).wf(),
            exists|i: int| 0 <= i < old(self).segments@.len() && old(self).segments@[i] == *segment,
            old(fa).range_count() + old(self).allocated_pairs@.len() <= MAX_PAGES,
        ensures
            r is Ok,
            final(self).wf(),
            final(self).wf_with(*final(fa)),
            final(fa).wf(),
            final(fa).start_spec() == old(fa).start_spec(),
            final(fa).end_spec() == old(fa).end_spec(),
            final(self).segments@.len() == old(self).segments@.len() - 1,
            // the removed segment's pages are no longer mapped; all
            // other pages are untouched
            forall|v: VirtualPageNumber|
                seg_covers(*segment, v) ==> !(#[trigger] final(self).mapping.mapped(v)),
            forall|v: VirtualPageNumber|
                v.0 < vpn_space() && !seg_covers(*segment, v) ==> (#[trigger] final(self).mapping.mapped(v) == old(self).mapping.mapped(v)) && (old(self).mapping.mapped(v)
                    ==> final(self).mapping.entry_of(v) == old(self).mapping.entry_of(v)),
            // exactly the uncovered pairs survive, in their original
            // order
            final(self).allocated_pairs@ == old(self).allocated_pairs@.filter(
                keeps_pair(*segment),
            ),
            // exactly the covered frames returned to the allocator
            forall|p: int|
                #[trigger] final(fa).is_free_ppn(p) <==> (old(fa).is_free_ppn(p) || (exists|k: int|
                    0 <= k < old(self).allocated_pairs@.len() && seg_covers(
                        *segment,
                        (#[trigger] old(self).allocated_pairs@[k]).0,
                    ) && old(self).allocated_pairs@[k].1.ppn_spec() == p)),
    {
        let ghost pre = *self;
        let ghost fa0 = *old(fa);
        // locate the segment record
        let mut idx: usize = 0;
        let mut found = false;
        while idx < self.segments.len() && !found
            invariant
                *self == pre,
                idx <= pre.segments@.len(),
                found ==> idx > 0 && pre.segments@[idx - 1] == *segment,
                !found ==> (forall|j: int| 0 <= j < idx ==> pre.segments@[j] != *segment),
            decreases pre.segments@.len() - idx + (if found {
                0int
            } else {
                1int
            }),
        {
            if self.segments[idx] == *segment {
                found = true;
            }
            idx = idx + 1;
        }
        proof {
            if !found {
                let i = choose|i: int|
                    0 <= i < pre.segments@.len() && pre.segments@[i] == *segment;
                assert(false);
            }
        }
        let sidx = idx - 1;
        // unmap every covered page
        proof {
            assert forall|v: VirtualPageNumber|
                segment.first_page_spec() <= v.0 < segment.end_page_spec() implies #[trigger] self
                .mapping.mapped(v) by {
                assert(seg_covers(pre.segments@[sidx as int], v));
            }
            assert(seg_ok(*segment)) by {
                assert(seg_ok(pre.segments@[sidx as int]));
            }
        }
        self.mapping.unmap(segment);
        // drop the record
        self.segments.remove(sidx);
        // release exactly the frames the removed range covered
        let pr = segment.page_range();
        let ghost pairs0 = pre.allocated_pairs@;
        let ghost keep_pred = keeps_pair(*segment);
        let mut kept: Vec<(VirtualPageNumber, FrameTracker)> = Vec::new();
        let ghost mut srcs: Seq<int> = Seq::empty();
        let ghost mapping_now = self.mapping;
        while self.allocated_pairs.len() > 0
            invariant
                self.mapping == mapping_now,
                fa.wf(),
                fa.start_spec() == fa0.start_spec(),
                fa.end_spec() == fa0.end_spec(),
                self.allocated_pairs@.len() <= pairs0.len(),
                self.allocated_pairs@ == pairs0.subrange(0, self.allocated_pairs@.len() as int),
                self.segments@ == pre.segments@.remove(sidx as int),
                fa.range_count() <= fa0.range_count() + (pairs0.len() - self.allocated_pairs@.len()),
                fa0.range_count() + pairs0.len() <= MAX_PAGES,
                mapping_now.disjoint_from(fa0),
                // what belongs to the suffix already processed
                forall|p: int|
                    #[trigger] fa.is_free_ppn(p) <==> (fa0.is_free_ppn(p) || (exists|k: int|
                        self.allocated_pairs@.len() <= k < pairs0.len() && seg_covers(
                            *segment,
                            (#[trigger] pairs0[k]).0,
                        ) && pairs0[k].1.ppn_spec() == p)),
                srcs.len() == kept@.len(),
                keep_pred == keeps_pair(*segment),
                kept@.reverse() == pairs0.subrange(
                    self.allocated_pairs@.len() as int,
                    pairs0.len() as int,
                ).filter(keep_pred),
                forall|j: int|
                    0 <= j < kept@.len() ==> self.allocated_pairs@.len() <= (#[trigger] srcs[j])
                        < pairs0.len() && kept@[j] == pairs0[srcs[j]] && !seg_covers(
                        *segment,
                        pairs0[srcs[j]].0,
                    ),
                forall|j1: int, j2: int|
                    0 <= j1 < j2 < srcs.len() ==> (#[trigger] srcs[j1]) > (#[trigger] srcs[j2]),
                forall|j: int|
                    0 <= j < kept@.len() ==> (#[trigger] kept@[j]).1.wf() && kept@[j].0.0
                        < vpn_space() && !fa.is_free_ppn(kept@[j].1.ppn_spec()) && fa0.start_spec()
                        <= kept@[j].1.ppn_spec() < fa0.end_spec() && !seg_covers(
                        *segment,
                        kept@[j].0,
                    ) && !mapping_now.owns_ppn(kept@[j].1.ppn_spec()),
                forall|j1: int, j2: int|
                    0 <= j1 < kept@.len() && 0 <= j2 < kept@.len() && j1 != j2 ==> (
                    #[trigger] kept@[j1].1.ppn_spec()) != (#[trigger] kept@[j2].1.ppn_spec()),
                forall|k: int|
                    0 <= k < pairs0.len() ==> !mapping_now.owns_ppn(
                        (#[trigger] pairs0[k]).1.ppn_spec(),
                    ),
                // facts carried from the old state
                forall|k: int|
                    0 <= k < pairs0.len() ==> (#[trigger] pairs0[k]).1.wf() && pairs0[k].0.0
                        < vpn_space() && !fa0.is_free_ppn(pairs0[k].1.ppn_spec())
                        && fa0.start_spec() <= pairs0[k].1.ppn_spec() < fa0.end_spec(),
                forall|k1: int, k2: int|
                    0 <= k1 < pairs0.len() && 0 <= k2 < pairs0.len() && k1 != k2 ==> (
                    #[trigger] pairs0[k1].1.ppn_spec()) != (#[trigger] pairs0[k2].1.ppn_spec()),
                pr.start.0 == segment.first_page_spec(),
                pr.end.0 == segment.end_page_spec(),
            decreases self.allocated_pairs@.len(),
        {
            let ghost lnow = self.allocated_pairs@.len() as int;
            let pair = match self.allocated_pairs.pop() {
                Some(pr0) => pr0,
                None => {
                    proof {
                        assert(false);
                    }
                    return Err("unreachable");
                },
            };
            proof {
                assert(pair == pairs0[lnow - 1]);
                assert(self.allocated_pairs@ =~= pairs0.subrange(0, lnow - 1));
                assert(pairs0.subrange(lnow - 1, pairs0.len() as int) =~= seq![pair]
                    + pairs0.subrange(lnow, pairs0.len() as int));
                lemma_filter_cons(pair, pairs0.subrange(lnow, pairs0.len() as int), keep_pred);
            }
            if pr.contains(pair.0) {
                proof {
                    // this frame is not yet free: it differs from every
                    // frame already released
                    assert(!fa.is_free_ppn(pair.1.ppn_spec())) by {
                        if fa.is_free_ppn(pair.1.ppn_spec()) {
                            if !fa0.is_free_ppn(pair.1.ppn_spec()) {
                                let k = choose|k: int|
                                    lnow <= k < pairs0.len() && seg_covers(
                                        *segment,
                                        (#[trigger] pairs0[k]).0,
                                    ) && pairs0[k].1.ppn_spec() == pair.1.ppn_spec();
                                assert(pairs0[k].1.ppn_spec() == pairs0[lnow - 1].1.ppn_spec());
                            }
                        }
                    }
                }
                let ghost fabefore = *fa;
                fa.dealloc(pair.1);
                proof {
                    // the released page differs from every kept page
                    assert forall|j: int|
                        0 <= j < kept@.len() implies !fa.is_free_ppn(
                        (#[trigger] kept@[j]).1.ppn_spec(),
                    ) by {
                        assert(kept@[j] == pairs0[srcs[j]]);
                        assert(srcs[j] != lnow - 1);
                        assert(pairs0[srcs[j]].1.ppn_spec() != pairs0[lnow - 1].1.ppn_spec());
                    }
                    assert forall|p: int|
                        #[trigger] fa.is_free_ppn(p) <==> (fa0.is_free_ppn(p) || (exists|k: int|
                            lnow - 1 <= k < pairs0.len() && seg_covers(
                                *segment,
                                (#[trigger] pairs0[k]).0,
                            ) && pairs0[k].1.ppn_spec() == p)) by {
                        if fa.is_free_ppn(p) {
                            if !fabefore.is_free_ppn(p) {
                                assert(p == pairs0[lnow - 1].1.ppn_spec());
                                assert(seg_covers(*segment, pairs0[lnow - 1].0));
                            } else if !fa0.is_free_ppn(p) {
                                let k = choose|k: int|
                                    lnow <= k < pairs0.len() && seg_covers(
                                        *segment,
                                        (#[trigger] pairs0[k]).0,
                                    ) && pairs0[k].1.ppn_spec() == p;
                            }
                        }
                        if fa0.is_free_ppn(p) {
                            assert(fabefore.is_free_ppn(p));
                        }
                    }
                    // the dropped pair leaves the filtered shape as it was
                    assert(!keep_pred(pair));
                    assert(kept@.reverse() =~= pairs0.subrange(lnow - 1, pairs0.len() as int).filter(
                        keep_pred,
                    ));
                }
            } else {
                let ghost kept0 = kept@;
                kept.push(pair);
                proof {
                    let srcs0 = srcs;
                    srcs = srcs.push(lnow - 1);
                    assert(!seg_covers(*segment, pairs0[lnow - 1].0));
                    assert(kept@ =~= kept0.push(pair));
                    assert(keep_pred(pair));
                    assert(kept@.reverse() =~= seq![pair] + kept0.reverse());
                    assert(kept@.reverse() =~= pairs0.subrange(lnow - 1, pairs0.len() as int).filter(
                        keep_pred,
                    ));
                    assert forall|j: int|
                        0 <= j < kept@.len() implies self.allocated_pairs@.len() <= (
                    #[trigger] srcs[j]) < pairs0.len() && kept@[j] == pairs0[srcs[j]]
                        && !seg_covers(*segment, pairs0[srcs[j]].0) by {
                        if j < kept@.len() - 1 {
                            assert(srcs[j] == srcs0[j] && kept@[j] == kept0[j]);
                        } else {
                            assert(srcs[j] == lnow - 1 && kept@[j] == pair);
                        }
                    }
                    // the new entry is not free: it could only have been
                    // freed as a covered pair, which it is not
                    assert(!fa.is_free_ppn(pair.1.ppn_spec())) by {
                        if fa.is_free_ppn(pair.1.ppn_spec()) && !fa0.is_free_ppn(
                            pair.1.ppn_spec(),
                        ) {
                            let k = choose|k: int|
                                lnow <= k < pairs0.len() && seg_covers(
                                    *segment,
                                    (#[trigger] pairs0[k]).0,
                                ) && pairs0[k].1.ppn_spec() == pair.1.ppn_spec();
                            assert(pairs0[k].1.ppn_spec() == pairs0[lnow - 1].1.ppn_spec());
                        }
                    }
                    // and distinct from every earlier kept entry
                    assert forall|j1: int, j2: int|
                        0 <= j1 < kept@.len() && 0 <= j2 < kept@.len() && j1 != j2 implies (
                    #[trigger] kept@[j1].1.ppn_spec()) != (#[trigger] kept@[j2].1.ppn_spec()) by {
                        let newj = kept@.len() - 1;
                        if j1 == newj || j2 == newj {
                            let o: int = if j1 == newj {
                                j2
                            } else {
                                j1
                            };
                            assert(kept@[o] == kept0[o] && kept0[o] == pairs0[srcs0[o]]);
                            assert(srcs0[o] != lnow - 1);
                            assert(pairs0[srcs0[o]].1.ppn_spec() != pairs0[lnow
                                - 1].1.ppn_spec());
                        } else {
                            assert(kept@[j1] == kept0[j1] && kept@[j2] == kept0[j2]);
                        }
                    }
                }
            }
        }
        proof {
            assert(pairs0.subrange(0, pairs0.len() as int) =~= pairs0);
            assert(kept@.reverse() == pairs0.filter(keep_pred));
        }
        // the pops reversed the surviving pairs; restore their order
        let mut out: Vec<(VirtualPageNumber, FrameTracker)> = Vec::new();
        let ghost k0 = kept@;
        let ghost srcsk = srcs;
        while kept.len() > 0
            invariant
                kept@ == k0.subrange(0, kept@.len() as int),
                out@.len() + kept@.len() == k0.len(),
                forall|j: int| 0 <= j < out@.len() ==> (#[trigger] out@[j]) == k0[k0.len() - 1 - j],
            decreases kept@.len(),
        {
            let ghost lnow2 = kept@.len() as int;
            let e = match kept.pop() {
                Some(e0) => e0,
                None => {
                    proof {
                        assert(false);
                    }
                    return Err("unreachable");
                },
            };
            proof {
                assert(e == k0[lnow2 - 1]);
                assert(kept@ =~= k0.subrange(0, lnow2 - 1));
            }
            out.push(e);
        }
        proof {
            assert(out@ =~= k0.reverse());
        }
        self.allocated_pairs = out;
        proof {
            let m = *self;
            assert(m.allocated_pairs@ == pairs0.filter(keep_pred));
            // the removed record leaves the others in place
            assert(m.segments@ =~= pre.segments@.remove(sidx as int));
            assert forall|v: VirtualPageNumber|
                v.0 < vpn_space() implies (#[trigger] m.mapping.mapped(v) <==> m.covered(v)) by {
                if seg_covers(*segment, v) {
                    assert(!m.mapping.mapped(v));
                    if m.covered(v) {
                        let i = choose|i: int|
                            0 <= i < m.segments@.len() && seg_covers(#[trigger] m.segments@[i], v);
                        let iold: int = if i < sidx as int {
                            i
                        } else {
                            i + 1
                        };
                        assert(m.segments@[i] == pre.segments@[iold]);
                        assert(iold != sidx as int);
                        assert(segs_overlap(pre.segments@[iold], pre.segments@[sidx as int]));
                        assert(false);
                    }
                } else {
                    assert(m.mapping.mapped(v) == pre.mapping.mapped(v));
                    if pre.covered(v) && !seg_covers(*segment, v) {
                        let i = choose|i: int|
                            0 <= i < pre.segments@.len() && seg_covers(
                                #[trigger] pre.segments@[i],
                                v,
                            );
                        if i != sidx as int {
                            let inew: int = if i < sidx as int {
                                i
                            } else {
                                i - 1
                            };
                            assert(m.segments@[inew] == pre.segments@[i]);
                            assert(m.covered(v));
                        }
                    }
                    if m.covered(v) {
                        let i = choose|i: int|
                            0 <= i < m.segments@.len() && seg_covers(#[trigger] m.segments@[i], v);
                        let iold: int = if i < sidx as int {
                            i
                        } else {
                            i + 1
                        };
                        assert(m.segments@[i] == pre.segments@[iold]);
                        assert(pre.covered(v)) by {
                            assert(seg_covers(pre.segments@[iold], v));
                        }
                    }
                }
            }
            // the segment list keeps its pairwise properties
            assert forall|i: int, j: int|
                0 <= i < m.segments@.len() && 0 <= j < m.segments@.len() && i != j implies !segs_overlap(
                #[trigger] m.segments@[i],
                #[trigger] m.segments@[j],
            ) by {
                let io: int = if i < sidx as int {
                    i
                } else {
                    i + 1
                };
                let jo: int = if j < sidx as int {
                    j
                } else {
                    j + 1
                };
                assert(m.segments@[i] == pre.segments@[io]);
                assert(m.segments@[j] == pre.segments@[jo]);
            }
            assert forall|i: int| 0 <= i < m.segments@.len() implies seg_ok(
                #[trigger] m.segments@[i],
            ) by {
                let io: int = if i < sidx as int {
                    i
                } else {
                    i + 1
                };
                assert(m.segments@[i] == pre.segments@[io]);
            }
            // the surviving pairs carry their facts from the filtering
            // loop, read through the order-restoring reversal
            assert(m.allocated_pairs@ == k0.reverse());
            assert forall|k: int|
                0 <= k < m.allocated_pairs@.len() implies (#[trigger] m.allocated_pairs@[k]).1.wf()
                    && m.allocated_pairs@[k].0.0 < vpn_space() && !fa.is_free_ppn(
                    m.allocated_pairs@[k].1.ppn_spec(),
                ) && fa.start_spec() <= m.allocated_pairs@[k].1.ppn_spec() < fa.end_spec()
                    && !m.mapping.owns_ppn(m.allocated_pairs@[k].1.ppn_spec()) by {
                let j = k0.len() - 1 - k;
                assert(m.allocated_pairs@[k] == k0[j]);
                assert(k0[j] == pairs0[srcsk[j]]);
                assert(!mapping_now.owns_ppn(pairs0[srcsk[j]].1.ppn_spec()));
            }
            assert forall|k1: int, k2: int|
                0 <= k1 < m.allocated_pairs@.len() && 0 <= k2 < m.allocated_pairs@.len() && k1
                    != k2 implies (#[trigger] m.allocated_pairs@[k1].1.ppn_spec()) != (
            #[trigger] m.allocated_pairs@[k2].1.ppn_spec()) by {
                let j1 = k0.len() - 1 - k1;
                let j2 = k0.len() - 1 - k2;
                assert(m.allocated_pairs@[k1] == k0[j1] && m.allocated_pairs@[k2] == k0[j2]);
            }

            // the mapping's tables were never data frames, so none was
            // released
            assert forall|p: int| #[trigger] m.mapping.owns_ppn(p) implies !fa.is_free_ppn(p) by {
                if fa.is_free_ppn(p) && !fa0.is_free_ppn(p) {
                    let k = choose|k: int|
                        0 <= k < pairs0.len() && seg_covers(*segment, (#[trigger] pairs0[k]).0)
                            && pairs0[k].1.ppn_spec() == p;
                    assert(!mapping_now.owns_ppn(pairs0[k].1.ppn_spec()));
                }
            }
            assert(m.wf());
        }
        Ok(())
    }
}


/// The page-aligned boundaries the linker gives the kernel image, plus
/// the end of physical memory: what the kernel's reflexive mapping is
/// built from.
#[derive(Clone, Copy, Debug, PartialEq, Eq, Structural)]
pub struct KernelLayout {
    pub text_start: usize,
    pub rodata_start: usize,
    pub data_start: usize,
    pub bss_start: usize,
    pub kernel_end: usize,
    pub memory_end: usize,
}

impl KernelLayout {
    /// Boundaries are page-aligned, ordered, and within the mappable
    /// space.
    pub open spec fn wf(self) -> bool {
        &&& self.text_start as int % PAGE_SIZE as int == 0
        &&& self.rodata_start as int % PAGE_SIZE as int == 0
        &&& self.data_start as int % PAGE_SIZE as int == 0
        &&& self.bss_start as int % PAGE_SIZE as int == 0
        &&& self.kernel_end as int % PAGE_SIZE as int == 0
        &&& self.memory_end as int % PAGE_SIZE as int == 0
        &&& self.text_start <= self.rodata_start <= self.data_start <= self.bss_start
            <= self.kernel_end <= self.memory_end
        &&& self.memory_end < MAX_PPN * PAGE_SIZE
        &&& self.memory_end < usize::MAX - PAGE_SIZE
    }

    /// The kernel's five linear segments, in declaration order: code
    /// (read and execute), read-only data (read), data (read and
    /// write), zero-initialized data (read and write), and the rest of
    /// physical memory (read and write).
    pub open spec fn segments_spec(self) -> Seq<Segment> {
        seq![
            Segment {
                map_type: MapType::Linear,
                range: Range {
                    start: VirtualAddress(self.text_start),
                    end: VirtualAddress(self.rodata_start),
                },
                flags: Flags {
                    valid: false,
                    readable: true,
                    writable: false,
                    executable: true,
                    user: false,
                    accessed: false,
                    dirty: false,
                },
            },
            Segment {
                map_type: MapType::Linear,
                range: Range {
                    start: VirtualAddress(self.rodata_start),
                    end: VirtualAddress(self.data_start),
                },
                flags: Flags {
                    valid: false,
                    readable: true,
                    writable: false,
                    executable: false,
                    user: false,
                    accessed: false,
                    dirty: false,
                },
            },
            Segment {
                map_type: MapType::Linear,
                range: Range {
                    start: VirtualAddress(self.data_start),
                    end: VirtualAddress(self.bss_start),
                },
                flags: Flags {
                    valid: false,
                    readable: true,
                    writable: true,
                    executable: false,
                    user: false,
                    accessed: false,
                    dirty: false,
                },
            },
            Segment {
                map_type: MapType::Linear,
                range: Range {
                    start: VirtualAddress(self.bss_start),
                    end: VirtualAddress(self.kernel_end),
                },
                flags: Flags {
                    valid: false,
                    readable: true,
                    writable: true,
                    executable: false,
                    user: false,
                    accessed: false,
                    dirty: false,
                },
            },
            Segment {
                map_type: MapType::Linear,
                range: Range {
                    start: VirtualAddress(self.kernel_end),
                    end: VirtualAddress(self.memory_end),
                },
                flags: Flags {
                    valid: false,
                    readable: true,
                    writable: true,
                    executable: false,
                    user: false,
                    accessed: false,
                    dirty: false,
                },
            },
        ]
    }
}

impl MemorySet {
    /// Builds the kernel's own reflexive memory set: five contiguous
    /// linear segments over the image and the remaining physical
    /// memory, mapped in declaration order. Fails exactly when the
    /// page-table frames run out.
    pub fn new_kernel(layout: KernelLayout, fa: &mut FrameAllocator) -> (r: MemoryResult<MemorySet>)
        requires
            layout.wf(),
            old(fa).wf(),
        ensures
            final(fa).wf(),
            final(fa).start_spec() == old(fa).start_spec(),
            final(fa).end_spec() == old(fa).end_spec(),
            match r {
                Ok(ms) => {
                    &&& ms.wf()
                    &&& ms.wf_with(*final(fa))
                    &&& ms.segments@ == layout.segments_spec()
                    &&& ms.allocated_pairs@.len() == 0
                    &&& forall|v: VirtualPageNumber|
                        layout.text_start as int / PAGE_SIZE as int <= v.0 < layout.memory_end as int
                            / PAGE_SIZE as int ==> #[trigger] ms.mapping.mapped(v)
                            && crate::page_table_entry::entry_ppn_spec(
                            ms.mapping.entry_of(v).0 as int,
                        ) == v.0
                    &&& forall|j: int, v: VirtualPageNumber|
                        #![trigger seg_covers(layout.segments_spec()[j], v)]
                        0 <= j < layout.segments_spec().len() && seg_covers(
                            layout.segments_spec()[j],
                            v,
                        ) ==> ms.mapping.entry_of(v).0 == v.0
                            * crate::page_table_entry::PPN_SHIFT as int + (Flags {
                            valid: true,
                            ..layout.segments_spec()[j].flags
                        }).bits_spec()
                },
                Err(_) => forall|p: int| !(#[trigger] final(fa).is_free_ppn(p)),
            },
    {
        let mut segments: Vec<Segment> = Vec::new();
        segments.push(
            Segment {
                map_type: MapType::Linear,
                range: Range {
                    start: VirtualAddress(layout.text_start),
                    end: VirtualAddress(layout.rodata_start),
                },
                flags: Flags::rwx(true, false, true),
            },
        );
        segments.push(
            Segment {
                map_type: MapType::Linear,
                range: Range {
                    start: VirtualAddress(layout.rodata_start),
                    end: VirtualAddress(layout.data_start),
                },
                flags: Flags::rwx(true, false, false),
            },
        );
        segments.push(
            Segment {
                map_type: MapType::Linear,
                range: Range {
                    start: VirtualAddress(layout.data_start),
                    end: VirtualAddress(layout.bss_start),
                },
                flags: Flags::rwx(true, true, false),
            },
        );
        segments.push(
            Segment {
                map_type: MapType::Linear,
                range: Range {
                    start: VirtualAddress(layout.bss_start),
                    end: VirtualAddress(layout.kernel_end),
                },
                flags: Flags::rwx(true, true, false),
            },
        );
        segments.push(
            Segment {
                map_type: MapType::Linear,
                range: Range {
                    start: VirtualAddress(layout.kernel_end),
                    end: VirtualAddress(layout.memory_end),
                },
                flags: Flags::rwx(true, true, false),
            },
        );
        proof {
            assert(segments@ =~= layout.segments_spec());
        }
        let mapping = match Mapping::new(fa) {
            Ok(m) => m,
            Err(e) => {
                return Err(e);
            },
        };
        let mut ms = MemorySet { mapping, segments: Vec::new(), allocated_pairs: Vec::new() };
        proof {
            assert(ms.wf()) by {
                assert forall|v: VirtualPageNumber|
                    v.0 < vpn_space() implies (#[trigger] ms.mapping.mapped(v) <==> ms.covered(
                    v,
                )) by {
                    assert(!ms.mapping.mapped(v));
                    if ms.covered(v) {
                        let i = choose|i: int|
                            0 <= i < ms.segments@.len() && seg_covers(
                                #[trigger] ms.segments@[i],
                                v,
                            );
                    }
                }
            }
        }
        let mut i: usize = 0;
        while i < segments.len()
            invariant
                ms.wf(),
                ms.wf_with(*fa),
                fa.wf(),
                fa.start_spec() == old(fa).start_spec(),
                fa.end_spec() == old(fa).end_spec(),
                i <= segments@.len(),
                segments@ == layout.segments_spec(),
                layout.wf(),
                ms.segments@ == segments@.subrange(0, i as int),
                ms.allocated_pairs@.len() == 0,
                forall|j: int, v: VirtualPageNumber|
                    #![trigger seg_covers(segments@[j], v)]
                    0 <= j < i && seg_covers(segments@[j], v) ==> ms.mapping.mapped(v)
                        && ms.mapping.entry_of(v).0 == v.0
                        * crate::page_table_entry::PPN_SHIFT as int + (Flags {
                        valid: true,
                        ..segments@[j].flags
                    }).bits_spec(),
            decreases segments@.len() - i,
        {
            let seg = segments[i];
            proof {
                // the five segments are consecutive and page-aligned, so
                // none overlaps an earlier one
                lemma_layout_segments(layout);
                assert forall|j: int|
                    0 <= j < ms.segments@.len() implies !segs_overlap(
                    seg,
                    #[trigger] ms.segments@[j],
                ) by {
                    assert(ms.segments@[j] == segments@[j]);
                }
            }
            let ghost msbefore = ms;
            match ms.add_segment(seg, None, fa) {
                Ok(_) => {},
                Err(e) => {
                    return Err(e);
                },
            }
            i = i + 1;
            proof {
                assert(ms.segments@ =~= segments@.subrange(0, i as int));
                assert forall|j: int, v: VirtualPageNumber|
                    #![trigger seg_covers(segments@[j], v)]
                    0 <= j < i && seg_covers(segments@[j], v) implies ms.mapping.mapped(v)
                    && ms.mapping.entry_of(v).0 == v.0
                    * crate::page_table_entry::PPN_SHIFT as int + (Flags {
                    valid: true,
                    ..segments@[j].flags
                }).bits_spec() by {
                    lemma_layout_segments(layout);
                    if j < i - 1 {
                        assert(msbefore.mapping.mapped(v));
                        assert(!seg_covers(seg, v)) by {
                            if seg_covers(seg, v) {
                                assert(segs_overlap(segments@[j], seg));
                            }
                        }
                        assert(v.0 < vpn_space()) by {
                            assert(seg_ok(segments@[j]));
                        }
                        assert(ms.mapping.mapped(v) == msbefore.mapping.mapped(v));
                        assert(ms.mapping.entry_of(v) == msbefore.mapping.entry_of(v));
                    } else {
                        assert(seg_covers(seg, v));
                    }
                }
            }
        }
        proof {
            assert(ms.segments@ =~= segments@);
            lemma_layout_segments(layout);
            assert forall|v: VirtualPageNumber|
                layout.text_start as int / PAGE_SIZE as int <= v.0 < layout.memory_end as int
                    / PAGE_SIZE as int implies #[trigger] ms.mapping.mapped(v)
                && crate::page_table_entry::entry_ppn_spec(ms.mapping.entry_of(v).0 as int) == v.0
                by {
                let j = lemma_layout_covering(layout, v);
                assert(seg_covers(segments@[j], v));
                let fb = (Flags { valid: true, ..segments@[j].flags }).bits_spec();
                assert(0 <= fb < crate::page_table_entry::PPN_SHIFT);
                assert((v.0 * 1024 + fb) / 1024 == v.0) by (nonlinear_arith)
                    requires
                        0 <= v.0,
                        0 <= fb < 1024,
                ;
            }
        }
        Ok(ms)
    }
}

/// Facts about the five kernel segments: each is sane, page-aligned at
/// both ends, linear, and they are pairwise disjoint.
proof fn lemma_layout_segments(layout: KernelLayout)
    requires
        layout.wf(),
    ensures
        forall|i: int|
            0 <= i < layout.segments_spec().len() ==> seg_ok(#[trigger] layout.segments_spec()[i]),
        forall|i: int, j: int|
            0 <= i < layout.segments_spec().len() && 0 <= j < layout.segments_spec().len() && i
                != j ==> !segs_overlap(
                #[trigger] layout.segments_spec()[i],
                #[trigger] layout.segments_spec()[j],
            ),
{
    assert forall|i: int|
        0 <= i < layout.segments_spec().len() implies seg_ok(
        #[trigger] layout.segments_spec()[i],
    ) by {
        let sg = layout.segments_spec()[i];
        assert(sg.range.end.0 as int % PAGE_SIZE as int == 0);
        assert(sg.end_page_spec() == sg.range.end.0 as int / PAGE_SIZE as int);
        assert(sg.range.end.0 < MAX_PPN * PAGE_SIZE);
        assert(sg.range.end.0 as int / PAGE_SIZE as int <= MAX_PPN) by (nonlinear_arith)
            requires
                sg.range.end.0 < MAX_PPN * PAGE_SIZE,
                PAGE_SIZE == 4096,
                MAX_PPN == 0x10_0000,
                sg.range.end.0 >= 0,
        ;
        assert(MAX_PPN < vpn_space());
    }
    assert forall|i: int, j: int|
        0 <= i < layout.segments_spec().len() && 0 <= j < layout.segments_spec().len() && i != j
        implies !segs_overlap(
        #[trigger] layout.segments_spec()[i],
        #[trigger] layout.segments_spec()[j],
    ) by {
        let a = layout.segments_spec()[i];
        let b = layout.segments_spec()[j];
        assert(a.end_page_spec() == a.range.end.0 as int / PAGE_SIZE as int);
        assert(b.end_page_spec() == b.range.end.0 as int / PAGE_SIZE as int);
    }
}

/// The page of an address inside the kernel span lies in one of the
/// five segments; returns its index.
proof fn lemma_layout_covering(layout: KernelLayout, v: VirtualPageNumber) -> (j: int)
    requires
        layout.wf(),
        layout.text_start as int / PAGE_SIZE as int <= v.0,
        v.0 < layout.memory_end as int / PAGE_SIZE as int,
    ensures
        0 <= j < layout.segments_spec().len(),
        seg_covers(layout.segments_spec()[j], v),
{
    if v.0 < layout.rodata_start as int / PAGE_SIZE as int {
        0
    } else if v.0 < layout.data_start as int / PAGE_SIZE as int {
        1
    } else if v.0 < layout.bss_start as int / PAGE_SIZE as int {
        2
    } else if v.0 < layout.kernel_end as int / PAGE_SIZE as int {
        3
    } else {
        4
    }
}

} // verus!
