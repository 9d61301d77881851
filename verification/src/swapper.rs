//! Page-replacement policies over a quota-bounded resident set.
//!
//! A swapper tracks the (virtual page, frame) pairs of framed pages that
//! are currently resident, never more than its quota, together with the
//! location of each page's table entry. `pop` selects the entry the
//! policy evicts; the out-of-scope fault handler performs the eviction.

use vstd::prelude::*;
use crate::address::{VirtualPageNumber, PAGE_ENTRY_COUNT};
use crate::frame_tracker::FrameTracker;
use crate::mapping::{EntryLocation, Mapping};
use crate::page_table_entry::{entry_flag_spec, PageTableEntry, FLAG_ACCESSED, FLAG_DIRTY};

verus! {

/// One resident entry: the page, its frame, and where its page-table
/// entry lives.
pub struct SwapEntry {
    pub vpn: VirtualPageNumber,
    pub frame: FrameTracker,
    pub entry: EntryLocation,
}

/// A page-replacement policy bounding the resident set of one address
/// space. Each implementation fixes `pop_choice`: which resident entry
/// leaves next.
pub trait Swapper: Sized {
    /// Internal consistency.
    spec fn wf(&self) -> bool;

    /// The fixed bound on resident entries.
    spec fn quota_spec(&self) -> int;

    /// The resident entries, in insertion order.
    spec fn entries(&self) -> Seq<SwapEntry>;

    /// Which entry `pop` removes, given the mapping the stored entry
    /// locations point into; `-1` when empty.
    spec fn pop_choice(&self, m: Mapping) -> int;

    /// Whether the stored entry locations are valid for the mapping.
    spec fn locations_ok(&self, m: Mapping) -> bool;

    /// A new swapper with the given quota and nothing resident.
    fn new(quota: usize) -> (r: Self)
        ensures
            r.wf(),
            r.quota_spec() == quota,
            r.entries().len() == 0,
    ;

    /// Whether the quota is reached.
    fn full(&self) -> (r: bool)
        requires
            self.wf(),
        ensures
            r == (self.entries().len() == self.quota_spec()),
    ;

    /// Removes and returns the entry the policy chooses, or `None` when
    /// nothing is resident.
    fn pop(&mut self, m: &Mapping) -> (r: Option<(VirtualPageNumber, FrameTracker)>)
        requires
            old(self).wf(),
            old(self).locations_ok(*m),
        ensures
            final(self).wf(),
            final(self).quota_spec() == old(self).quota_spec(),
            match r {
                Option::None => old(self).entries().len() == 0 && final(self).entries()
                    == old(self).entries(),
                Option::Some(pair) => {
                    let i = old(self).pop_choice(*m);
                    &&& 0 <= i < old(self).entries().len()
                    &&& pair.0 == old(self).entries()[i].vpn
                    &&& pair.1 == old(self).entries()[i].frame
                    &&& final(self).entries() == old(self).entries().remove(i)
                },
            },
    ;

    /// Adds a resident entry; the caller must have checked the quota.
    fn push(&mut self, vpn: VirtualPageNumber, frame: FrameTracker, entry: EntryLocation)
        requires
            old(self).wf(),
            old(self).entries().len() < old(self).quota_spec(),
        ensures
            final(self).wf(),
            final(self).quota_spec() == old(self).quota_spec(),
            final(self).entries().len() == old(self).entries().len() + 1,
            forall|j: int|
                0 <= j < old(self).entries().len() ==> #[trigger] final(self).entries()[j]
                    == old(self).entries()[j],
            final(self).entries().last().vpn == vpn,
            final(self).entries().last().frame == frame,
            final(self).entries().last().entry == entry,
    ;

    /// Keeps exactly the entries whose virtual page satisfies the
    /// predicate, once each and in their original order — used when a
    /// virtual range is unmapped before any fault-driven eviction.
    fn retain<F: Fn(&VirtualPageNumber) -> bool>(&mut self, predicate: F)
        requires
            old(self).wf(),
            forall|v: &VirtualPageNumber| #[trigger] predicate.requires((v,)),
        ensures
            final(self).wf(),
            final(self).quota_spec() == old(self).quota_spec(),
            final(self).entries().len() <= old(self).entries().len(),
            retained_exactly(final(self).entries(), old(self).entries(), predicate),
    ;
}

/// Whether `i` occurs among the values of the index sequence `s`.
pub open spec fn seq_has(s: Seq<int>, i: int) -> bool {
    exists|j: int| 0 <= j < s.len() && #[trigger] s[j] == i
}

/// The witness that `q1` is exactly the approved part of `q0`: an
/// increasing index sequence maps `q1` onto the entries of `q0` whose
/// page the predicate approved, and every entry left out was rejected.
pub open spec fn retain_witness<F: Fn(&VirtualPageNumber) -> bool>(
    q1: Seq<SwapEntry>,
    q0: Seq<SwapEntry>,
    f: F,
    s: Seq<int>,
) -> bool {
    &&& s.len() == q1.len()
    &&& forall|j: int| 0 <= j < s.len() ==> 0 <= #[trigger] s[j] < q0.len()
    &&& forall|j: int|
        0 <= j < s.len() ==> q1[j] == q0[#[trigger] s[j]] && f.ensures((&q0[s[j]].vpn,), true)
    &&& forall|j1: int, j2: int| 0 <= j1 < j2 < s.len() ==> (#[trigger] s[j1]) < (#[trigger] s[j2])
    &&& forall|i: int|
        0 <= i < q0.len() && !seq_has(s, i) ==> f.ensures((&(#[trigger] q0[i]).vpn,), false)
}

/// `q1` keeps exactly the entries of `q0` the predicate approved, each
/// once and in their original order; every other entry was rejected by
/// the predicate.
pub open spec fn retained_exactly<F: Fn(&VirtualPageNumber) -> bool>(
    q1: Seq<SwapEntry>,
    q0: Seq<SwapEntry>,
    f: F,
) -> bool {
    exists|s: Seq<int>| #[trigger] retain_witness(q1, q0, f, s)
}

/// The rank the clock policy orders entries by: the (accessed, dirty)
/// pair read as a two-bit number.
pub open spec fn flag_rank(e: PageTableEntry) -> int {
    (if entry_flag_spec(e.0 as int, FLAG_ACCESSED as int) {
        2int
    } else {
        0int
    }) + (if entry_flag_spec(e.0 as int, FLAG_DIRTY as int) {
        1int
    } else {
        0int
    })
}

/// Whether entry `a`'s (accessed, dirty) pair orders strictly below
/// `b`'s.
pub fn cmp_flags(a: PageTableEntry, b: PageTableEntry) -> (r: bool)
    ensures
        r == (flag_rank(a) < flag_rank(b)),
{
    let (a1, a0) = a.rw_flags();
    let (b1, b0) = b.rw_flags();
    let x: usize = if a1 {
        2
    } else {
        0
    } + if a0 {
        1
    } else {
        0
    };
    let y: usize = if b1 {
        2
    } else {
        0
    } + if b0 {
        1
    } else {
        0
    };
    x < y
}

/// First-in, first-out replacement: entries leave in insertion order,
/// whatever their flags.
pub struct FIFOSwapper {
    queue: Vec<SwapEntry>,
    quota: usize,
}

impl Swapper for FIFOSwapper {
    open spec fn wf(&self) -> bool {
        true
    }

    closed spec fn quota_spec(&self) -> int {
        self.quota as int
    }

    closed spec fn entries(&self) -> Seq<SwapEntry> {
        self.queue@
    }

    /// The oldest entry leaves first.
    open spec fn pop_choice(&self, m: Mapping) -> int {
        if self.entries().len() == 0 {
            -1
        } else {
            0
        }
    }

    open spec fn locations_ok(&self, m: Mapping) -> bool {
        true
    }

    fn new(quota: usize) -> (r: Self) {
        FIFOSwapper { queue: Vec::new(), quota }
    }

    fn full(&self) -> (r: bool) {
        self.queue.len() == self.quota
    }

    fn pop(&mut self, m: &Mapping) -> (r: Option<(VirtualPageNumber, FrameTracker)>) {
        if self.queue.len() == 0 {
            None
        } else {
            let e = self.queue.remove(0);
            Some((e.vpn, e.frame))
        }
    }

    fn push(&mut self, vpn: VirtualPageNumber, frame: FrameTracker, entry: EntryLocation) {
        self.queue.push(SwapEntry { vpn, frame, entry });
    }

    fn retain<F: Fn(&VirtualPageNumber) -> bool>(&mut self, predicate: F) {
        retain_entries(&mut self.queue, predicate);
        proof {
            assert(retained_exactly(self.queue@, old(self).queue@, predicate));
            let s = choose|s: Seq<int>|
                #[trigger] retain_witness(self.queue@, old(self).queue@, predicate, s);
            assert(self.entries() == self.queue@ && old(self).entries() == old(self).queue@);
            assert(retain_witness(self.entries(), old(self).entries(), predicate, s));
        }
    }
}

/// Clock-style replacement by a full scan: the entry whose (accessed,
/// dirty) pair is smallest leaves, ties broken by earliest insertion.
/// This rescans from the front each time instead of keeping a rotating
/// hand, so it approximates a textbook clock.
pub struct ClockSwapper {
    queue: Vec<SwapEntry>,
    quota: usize,
}

impl Swapper for ClockSwapper {
    open spec fn wf(&self) -> bool {
        true
    }

    closed spec fn quota_spec(&self) -> int {
        self.quota as int
    }

    closed spec fn entries(&self) -> Seq<SwapEntry> {
        self.queue@
    }

    /// The earliest entry of minimal rank leaves.
    open spec fn pop_choice(&self, m: Mapping) -> int {
        clock_choice(self.entries(), m)
    }

    open spec fn locations_ok(&self, m: Mapping) -> bool {
        forall|j: int|
            0 <= j < self.entries().len() ==> (#[trigger] self.entries()[j]).entry.table_index
                < m.table_count() && self.entries()[j].entry.entry_index < PAGE_ENTRY_COUNT
    }

    fn new(quota: usize) -> (r: Self) {
        ClockSwapper { queue: Vec::new(), quota }
    }

    fn full(&self) -> (r: bool) {
        self.queue.len() == self.quota
    }

    fn pop(&mut self, m: &Mapping) -> (r: Option<(VirtualPageNumber, FrameTracker)>) {
        if self.queue.len() == 0 {
            return None;
        }
        let mut min_index: usize = 0;
        let mut i: usize = 1;
        while i < self.queue.len()
            invariant
                self.queue@.len() > 0,
                min_index < i,
                i <= self.queue@.len(),
                self.locations_ok(*m),
                min_index as int == clock_choice_upto(self.entries(), *m, i as int),
            decreases self.queue@.len() - i,
    {
            proof {
                assert((#[trigger] self.entries()[i as int]).entry.table_index < m.table_count());
                assert(self.entries()[min_index as int].entry.table_index < m.table_count());
            }
            let ecur = self.queue[i].entry;
            let emin = self.queue[min_index].entry;
            if cmp_flags(
                m.read_entry(ecur),
                m.read_entry(emin),
            ) {
                min_index = i;
            }
            i = i + 1;
            proof {
                assert(min_index as int == clock_choice_upto(self.entries(), *m, i as int));
            }
        }
        let e = self.queue.remove(min_index);
        Some((e.vpn, e.frame))
    }

    fn push(&mut self, vpn: VirtualPageNumber, frame: FrameTracker, entry: EntryLocation) {
        self.queue.push(SwapEntry { vpn, frame, entry });
    }

    fn retain<F: Fn(&VirtualPageNumber) -> bool>(&mut self, predicate: F) {
        retain_entries(&mut self.queue, predicate);
        proof {
            assert(retained_exactly(self.queue@, old(self).queue@, predicate));
            let s = choose|s: Seq<int>|
                #[trigger] retain_witness(self.queue@, old(self).queue@, predicate, s);
            assert(self.entries() == self.queue@ && old(self).entries() == old(self).queue@);
            assert(retain_witness(self.entries(), old(self).entries(), predicate, s));
        }
    }
}

/// The best candidate among the first `n` entries: the earliest one of
/// minimal rank, scanning front to back.
pub open spec fn clock_choice_upto(es: Seq<SwapEntry>, m: Mapping, n: int) -> int
    decreases n,
    when n >= 1
{
    if n <= 1 {
        0
    } else {
        let b = clock_choice_upto(es, m, n - 1);
        if entry_rank(es, m, n - 1) < entry_rank(es, m, b) {
            n - 1
        } else {
            b
        }
    }
}

/// The index the clock scan settles on: the earliest entry of minimal
/// rank, read from the live page-table entries; `-1` when empty.
pub open spec fn clock_choice(es: Seq<SwapEntry>, m: Mapping) -> int {
    if es.len() == 0 {
        -1
    } else {
        clock_choice_upto(es, m, es.len() as int)
    }
}

/// Rank of the `i`-th entry's live page-table entry.
pub open spec fn entry_rank(es: Seq<SwapEntry>, m: Mapping, i: int) -> int {
    flag_rank(m.entry_at(es[i].entry.table_index as int, es[i].entry.entry_index as int))
}

/// What the clock policy promises: its choice is an entry whose
/// (accessed, dirty) pair is minimal among all residents, and no
/// earlier resident has so small a pair — ties break toward the
/// earliest insertion.
pub proof fn lemma_clock_choice_minimal(es: Seq<SwapEntry>, m: Mapping, n: int)
    requires
        1 <= n <= es.len(),
    ensures
        0 <= clock_choice_upto(es, m, n) < n,
        forall|j: int|
            0 <= j < n ==> entry_rank(es, m, clock_choice_upto(es, m, n)) <= #[trigger] entry_rank(
                es,
                m,
                j,
            ),
        forall|j: int|
            0 <= j < clock_choice_upto(es, m, n) ==> #[trigger] entry_rank(es, m, j) > entry_rank(
                es,
                m,
                clock_choice_upto(es, m, n),
            ),
    decreases n,
{
    if n > 1 {
        lemma_clock_choice_minimal(es, m, n - 1);
    }
}

/// Keeps the entries whose page the predicate approves, preserving
/// their order.
fn retain_entries<F: Fn(&VirtualPageNumber) -> bool>(
    queue: &mut Vec<SwapEntry>,
    predicate: F,
)
    requires
        forall|v: &VirtualPageNumber| #[trigger] predicate.requires((v,)),
    ensures
        final(queue)@.len() <= old(queue)@.len(),
        retained_exactly(final(queue)@, old(queue)@, predicate),
{
    let ghost q0 = queue@;
    let mut kept: Vec<SwapEntry> = Vec::new();
    let ghost mut srcs: Seq<int> = Seq::empty();
    let mut n: usize = queue.len();
    while n > 0
        invariant
            forall|v: &VirtualPageNumber| #[trigger] predicate.requires((v,)),
            n == queue@.len(),
            n <= q0.len(),
            queue@ == q0.subrange(0, n as int),
            srcs.len() == kept@.len(),
            kept@.len() + n <= q0.len(),
            forall|j: int|
                0 <= j < kept@.len() ==> n <= (#[trigger] srcs[j]) < q0.len() && kept@[j]
                    == q0[srcs[j]] && predicate.ensures((&q0[srcs[j]].vpn,), true),
            forall|j1: int, j2: int|
                0 <= j1 < j2 < srcs.len() ==> (#[trigger] srcs[j1]) > (#[trigger] srcs[j2]),
            forall|i: int|
                n <= i < q0.len() && !seq_has(srcs, i) ==> predicate.ensures(
                    (&(#[trigger] q0[i]).vpn,),
                    false,
                ),
        decreases n,
    {
        let ghost lnow = queue@.len() as int;
        let e = match queue.pop() {
            Some(e0) => e0,
            None => {
                proof {
                    assert(false);
                }
                return ;
            },
        };
        proof {
            assert(e == q0[lnow - 1]);
            assert(queue@ =~= q0.subrange(0, lnow - 1));
        }
        n = n - 1;
        if predicate(&e.vpn) {
            let ghost kept0 = kept@;
            kept.push(e);
            proof {
                let srcs0 = srcs;
                srcs = srcs.push(lnow - 1);
                assert forall|j: int|
                    0 <= j < kept@.len() implies n <= (#[trigger] srcs[j]) < q0.len() && kept@[j]
                    == q0[srcs[j]] && predicate.ensures((&q0[srcs[j]].vpn,), true) by {
                    if j < kept@.len() - 1 {
                        assert(srcs[j] == srcs0[j] && kept@[j] == kept0[j]);
                    } else {
                        assert(srcs[j] == lnow - 1 && kept@[j] == e);
                    }
                }
                assert(seq_has(srcs, lnow - 1)) by {
                    assert(srcs[srcs.len() - 1] == lnow - 1);
                }
                assert forall|i: int|
                    n <= i < q0.len() && !seq_has(srcs, i) implies predicate.ensures(
                    (&(#[trigger] q0[i]).vpn,),
                    false,
                ) by {
                    if i != lnow - 1 {
                        assert(!seq_has(srcs0, i)) by {
                            if seq_has(srcs0, i) {
                                let jj = choose|jj: int|
                                    0 <= jj < srcs0.len() && #[trigger] srcs0[jj] == i;
                                assert(srcs[jj] == i);
                            }
                        }
                    }
                }
            }
        } else {
            proof {
                // the predicate rejected this entry
                assert(predicate.ensures((&q0[lnow - 1].vpn,), false));
                assert forall|i: int|
                    n <= i < q0.len() && !seq_has(srcs, i) implies predicate.ensures(
                    (&(#[trigger] q0[i]).vpn,),
                    false,
                ) by {}
            }
        }
    }
    // the pops reversed the kept entries; restore their order
    let mut out: Vec<SwapEntry> = Vec::new();
    let ghost k0 = kept@;
    let ghost srcsk = srcs;
    while kept.len() > 0
        invariant
            kept@ == k0.subrange(0, kept@.len() as int),
            srcsk.len() == k0.len(),
            forall|j: int|
                0 <= j < k0.len() ==> 0 <= (#[trigger] srcsk[j]) < q0.len() && k0[j]
                    == q0[srcsk[j]] && predicate.ensures((&q0[srcsk[j]].vpn,), true),
            forall|j1: int, j2: int|
                0 <= j1 < j2 < srcsk.len() ==> (#[trigger] srcsk[j1]) > (#[trigger] srcsk[j2]),
            forall|i: int|
                0 <= i < q0.len() && !seq_has(srcsk, i) ==> predicate.ensures(
                    (&(#[trigger] q0[i]).vpn,),
                    false,
                ),
            out@.len() + kept@.len() == k0.len(),
            forall|j: int|
                0 <= j < out@.len() ==> (#[trigger] out@[j]) == k0[k0.len() - 1 - j],
        decreases kept@.len(),
    {
        let ghost lnow = kept@.len() as int;
        let e = match kept.pop() {
            Some(e0) => e0,
            None => {
                proof {
                    assert(false);
                }
                return ;
            },
        };
        proof {
            assert(e == k0[lnow - 1]);
            assert(kept@ =~= k0.subrange(0, lnow - 1));
        }
        out.push(e);
    }
    *queue = out;
    proof {
        assert(old(queue)@ == q0);
        // the reversed index sequence is the increasing witness
        let w = Seq::new(k0.len(), |j: int| srcsk[k0.len() - 1 - j]);
        assert(retain_witness(queue@, q0, predicate, w)) by {
            assert forall|j: int|
                0 <= j < w.len() implies queue@[j] == q0[#[trigger] w[j]] && predicate.ensures(
                (&q0[w[j]].vpn,),
                true,
            ) by {
                assert(queue@[j] == k0[k0.len() - 1 - j]);
                assert(w[j] == srcsk[k0.len() - 1 - j]);
            }
            assert forall|i: int|
                0 <= i < q0.len() && !seq_has(w, i) implies predicate.ensures(
                (&(#[trigger] q0[i]).vpn,),
                false,
            ) by {
                assert(!seq_has(srcsk, i)) by {
                    if seq_has(srcsk, i) {
                        let jj = choose|jj: int| 0 <= jj < srcsk.len() && #[trigger] srcsk[jj] == i;
                        assert(w[k0.len() - 1 - jj] == i);
                        assert(seq_has(w, i)) by {
                            assert(w[k0.len() - 1 - jj] == i);
                        }
                    }
                }
            }
        }
        assert(retained_exactly(queue@, q0, predicate));
    }
}


/// First-in, first-out order is kept regardless of any entry's flags:
/// every pop takes the front, so what remains after a pop is the rest
/// of the insertion order unchanged.
pub proof fn lemma_fifo_pop_order(s: FIFOSwapper, m: Mapping, j: int)
    requires
        s.entries().len() > 0,
        0 <= j < s.entries().len() - 1,
    ensures
        s.pop_choice(m) == 0,
        s.entries().remove(0)[j] == s.entries()[j + 1],
{
}

} // verus!
