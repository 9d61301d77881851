//! The three-level forward-mapped page table of one address space.
//!
//! A `Mapping` owns its root table and every intermediate or leaf table
//! it allocated on demand; the address space is identified by the root
//! table's physical page number. The walk from the root is the only
//! place tables are created: `find_entry` descends by the three index
//! fields of a virtual page number, allocating and linking a fresh
//! zeroed table wherever an entry of the first two levels is empty.
//! The caller's lock serializes every walk; nothing here is atomic on
//! its own.

use vstd::prelude::*;
use crate::MemoryResult;
use crate::address::{PhysicalPageNumber, VirtualPageNumber, PAGE_ENTRY_COUNT, PAGE_SIZE};
use crate::frame_allocator::FrameAllocator;
use crate::frame_tracker::FrameTracker;
use crate::page_table::PageTableTracker;
use crate::page_table_entry::{Flags, PageTableEntry, MAX_PPN, PPN_SHIFT};
use crate::segment::{MapType, Segment};

verus! {

/// Where one page-table entry lives: which owned table, and which slot
/// of it. Positions stay valid while the mapping lives, because tables
/// are only ever appended.
#[derive(Clone, Copy, Debug, PartialEq, Eq, Structural)]
pub struct EntryLocation {
    pub table_index: usize,
    pub entry_index: usize,
}

/// The realized page-table structure of one address space.
pub struct Mapping {
    page_tables: Vec<PageTableTracker>,
    root_ppn: PhysicalPageNumber,
    l1_index: Ghost<Map<int, int>>,
    l2_index: Ghost<Map<(int, int), int>>,
}

impl Mapping {
    /// Number of owned tables.
    pub closed spec fn table_count(self) -> int {
        self.page_tables@.len() as int
    }

    /// Physical page of the owned table with the given index.
    pub closed spec fn table_ppn(self, i: int) -> int {
        self.page_tables@[i].ppn_spec()
    }

    /// The root table's physical page: what the paging register takes.
    pub closed spec fn root_spec(self) -> int {
        self.root_ppn.0 as int
    }

    /// Whether this mapping owns the physical page (as one of its
    /// tables).
    pub closed spec fn owns_ppn(self, p: int) -> bool {
        exists|i: int| 0 <= i < self.table_count() && #[trigger] self.table_ppn(i) == p
    }

    /// None of the mapping's tables is free in the allocator: what a
    /// caller maintains so freshly allocated frames are distinct from
    /// the mapping's pages.
    pub open spec fn disjoint_from(self, fa: FrameAllocator) -> bool {
        forall|p: int| #[trigger] self.owns_ppn(p) ==> !fa.is_free_ppn(p)
    }

    /// Index of the leaf table on `vpn`'s path, or `-1` while the path
    /// does not exist.
    pub closed spec fn leaf_index(self, vpn: VirtualPageNumber) -> int {
        if self.l2_index@.contains_key((vpn.level_spec(0), vpn.level_spec(1))) {
            self.l2_index@[(vpn.level_spec(0), vpn.level_spec(1))]
        } else {
            -1
        }
    }

    /// Whether the three-level path for `vpn` exists down to its leaf
    /// entry.
    pub open spec fn path_exists(self, vpn: VirtualPageNumber) -> bool {
        self.leaf_index(vpn) >= 0
    }

    /// The entry at slot `ei` of owned table `ti`.
    pub closed spec fn entry_at(self, ti: int, ei: int) -> PageTableEntry {
        self.page_tables@[ti].table.entries[ei]
    }

    /// The leaf entry of `vpn` (meaningful when its path exists).
    pub open spec fn entry_of(self, vpn: VirtualPageNumber) -> PageTableEntry {
        self.entry_at(self.leaf_index(vpn), vpn.level_spec(2))
    }

    /// Whether `vpn` is mapped: its path exists and its leaf entry is
    /// not the empty word.
    pub open spec fn mapped(self, vpn: VirtualPageNumber) -> bool {
        self.path_exists(vpn) && self.entry_of(vpn).0 != 0
    }

    spec fn l1m(self) -> Map<int, int> {
        self.l1_index@
    }

    spec fn l2m(self) -> Map<(int, int), int> {
        self.l2_index@
    }

    /// Structural invariant: distinct table pages; the ghost path maps
    /// mirror exactly the non-empty entries of the first two levels, and
    /// point injectively at the owned non-root tables.
    pub closed spec fn inv(self) -> bool {
        let n = self.table_count();
        &&& 1 <= n
        &&& self.table_ppn(0) == self.root_spec()
        &&& forall|i: int| 0 <= i < n ==> (#[trigger] self.page_tables@[i]).wf()
        &&& forall|i: int| 0 <= i < n ==> 0 <= #[trigger] self.table_ppn(i) < MAX_PPN
        &&& forall|i: int, j: int|
            0 <= i < n && 0 <= j < n && i != j ==> #[trigger] self.table_ppn(i)
                != #[trigger] self.table_ppn(j)
        &&& forall|s0: int|
            #[trigger] self.l1m().contains_key(s0) ==> 0 <= s0 < PAGE_ENTRY_COUNT && 1 <= self.l1m()[s0] < n
        &&& forall|k: (int, int)|
            #[trigger] self.l2m().contains_key(k) ==> 0 <= k.0 < PAGE_ENTRY_COUNT && 0 <= k.1
                < PAGE_ENTRY_COUNT && self.l1m().contains_key(k.0) && 1 <= self.l2m()[k] < n
        &&& forall|s0: int, s0b: int|
            self.l1m().contains_key(s0) && self.l1m().contains_key(s0b) && s0 != s0b ==> (
            #[trigger] self.l1m()[s0]) != (#[trigger] self.l1m()[s0b])
        &&& forall|k: (int, int), kb: (int, int)|
            self.l2m().contains_key(k) && self.l2m().contains_key(kb) && k != kb ==> (
            #[trigger] self.l2m()[k]) != (#[trigger] self.l2m()[kb])
        &&& forall|s0: int, k: (int, int)|
            self.l1m().contains_key(s0) && self.l2m().contains_key(k) ==> (
            #[trigger] self.l1m()[s0]) != (#[trigger] self.l2m()[k])
        &&& forall|s0: int|
            0 <= s0 < PAGE_ENTRY_COUNT ==> (#[trigger] self.page_tables@[0].table.entries[s0]).0
                == (if self.l1m().contains_key(s0) {
                self.table_ppn(self.l1m()[s0]) * PPN_SHIFT as int + 1
            } else {
                0int
            })
        &&& forall|s0: int, s1: int|
            #[trigger] self.l1m().contains_key(s0) && 0 <= s1 < PAGE_ENTRY_COUNT ==> (
            #[trigger] self.page_tables@[self.l1m()[s0]].table.entries[s1]).0 == (if self.l2m()
                .contains_key((s0, s1)) {
                self.table_ppn(self.l2m()[(s0, s1)]) * PPN_SHIFT as int + 1
            } else {
                0int
            })
    }

    /// Builds a mapping holding only its root table, with nothing
    /// mapped. Fails exactly when no frame is free for the root.
    pub fn new(fa: &mut FrameAllocator) -> (r: MemoryResult<Mapping>)
        requires
            old(fa).wf(),
        ensures
            final(fa).wf(),
            final(fa).start_spec() == old(fa).start_spec(),
            final(fa).end_spec() == old(fa).end_spec(),
            final(fa).range_count() <= old(fa).range_count(),
            match r {
                Ok(m) => {
                    &&& m.inv()
                    &&& m.table_count() == 1
                    &&& forall|v: VirtualPageNumber| !(#[trigger] m.mapped(v))
                    &&& forall|v: VirtualPageNumber| !(#[trigger] m.path_exists(v))
                    &&& m.disjoint_from(*final(fa))
                    &&& forall|p: int|
                        #[trigger] final(fa).is_free_ppn(p) <==> (old(fa).is_free_ppn(p) && p
                            != m.root_spec())
                    &&& old(fa).is_free_ppn(m.root_spec())
                },
                Err(_) => {
                    &&& forall|p: int| !(#[trigger] old(fa).is_free_ppn(p))
                    &&& forall|p: int| !(#[trigger] final(fa).is_free_ppn(p))
                },
            },
    {
        let frame = match fa.allocate() {
            Ok(f) => f,
            Err(e) => {
                return Err(e);
            },
        };
        let root_table = PageTableTracker::new(frame);
        let root_ppn = root_table.page_number();
        let mut page_tables: Vec<PageTableTracker> = Vec::new();
        page_tables.push(root_table);
        let m = Mapping {
            page_tables,
            root_ppn,
            l1_index: Ghost(Map::empty()),
            l2_index: Ghost(Map::empty()),
        };
        proof {
            assert(m.inv());
            assert forall|v: VirtualPageNumber| !(#[trigger] m.path_exists(v)) by {
                assert(!m.l2m().contains_key((v.level_spec(0), v.level_spec(1))));
            }
            assert forall|p: int| #[trigger] m.owns_ppn(p) implies !final(fa).is_free_ppn(p) by {
                let i = choose|i: int| 0 <= i < m.table_count() && #[trigger] m.table_ppn(i) == p;
                assert(i == 0);
            }
        }
        Ok(m)
    }

    /// The physical page to load into the paging-enable register, which
    /// identifies this address space to the hardware walker.
    pub fn root_page_number(&self) -> (r: PhysicalPageNumber)
        ensures
            r.0 == self.root_spec(),
    {
        self.root_ppn
    }

    /// Reads the entry at a location previously handed out.
    pub fn read_entry(&self, loc: EntryLocation) -> (r: PageTableEntry)
        requires
            loc.table_index < self.table_count(),
            loc.entry_index < PAGE_ENTRY_COUNT,
        ensures
            r == self.entry_at(loc.table_index as int, loc.entry_index as int),
    {
        self.page_tables[loc.table_index].table.entries[loc.entry_index]
    }

    /// The location of `vpn`'s leaf entry, when its path already
    /// exists.
    pub fn locate(&self, vpn: VirtualPageNumber) -> (r: Option<EntryLocation>)
        requires
            self.inv(),
            vpn.0 < crate::address::vpn_space(),
        ensures
            match r {
                Some(loc) => {
                    &&& self.path_exists(vpn)
                    &&& loc.table_index == self.leaf_index(vpn)
                    &&& loc.entry_index == vpn.level_spec(2)
                    &&& loc.table_index < self.table_count()
                    &&& loc.entry_index < PAGE_ENTRY_COUNT
                },
                None => !self.path_exists(vpn),
            },
    {
        let levels = vpn.levels();
        let e0 = self.page_tables[0].table.entries[levels[0]];
        if e0.is_empty() {
            proof {
                assert(!self.l1m().contains_key(vpn.level_spec(0)));
                assert(!self.l2m().contains_key((vpn.level_spec(0), vpn.level_spec(1))));
            }
            return None;
        }
        proof {
            assert(self.l1m().contains_key(vpn.level_spec(0)));
        }
        let t1 = self.table_index_of(e0.page_number(), Ghost(self.l1m()[vpn.level_spec(0)]));
        let e1 = self.page_tables[t1].table.entries[levels[1]];
        if e1.is_empty() {
            proof {
                assert(!self.l2m().contains_key((vpn.level_spec(0), vpn.level_spec(1))));
            }
            return None;
        }
        let t2 = self.table_index_of(
            e1.page_number(),
            Ghost(self.l2m()[(vpn.level_spec(0), vpn.level_spec(1))]),
        );
        Some(EntryLocation { table_index: t2, entry_index: levels[2] })
    }

    /// Finds the owned table holding the given physical page; the ghost
    /// argument names the index the invariant promises.
    fn table_index_of(&self, ppn: PhysicalPageNumber, witness: Ghost<int>) -> (r: usize)
        requires
            self.inv(),
            0 <= witness@ < self.table_count(),
            self.table_ppn(witness@) == ppn.0,
        ensures
            r == witness@,
    {
        let mut i: usize = 0;
        while i < self.page_tables.len()
            invariant
                self.inv(),
                0 <= witness@ < self.table_count(),
                self.table_ppn(witness@) == ppn.0,
                i <= self.table_count(),
                forall|j: int| 0 <= j < i ==> #[trigger] self.table_ppn(j) != ppn.0,
            decreases self.table_count() - i,
        {
            if self.page_tables[i].page_number().0 == ppn.0 {
                proof {
                    if i as int != witness@ {
                        assert(self.table_ppn(i as int) != self.table_ppn(witness@));
                    }
                }
                return i;
            }
            i = i + 1;
        }
        proof {
            assert(self.table_ppn(witness@) != ppn.0);
        }
        0
    }
}


impl Mapping {
    /// Writes one entry of one owned table, leaving everything else of
    /// the structure untouched.
    fn set_table_entry(&mut self, ti: usize, ei: usize, e: PageTableEntry)
        requires
            ti < old(self).table_count(),
            ei < PAGE_ENTRY_COUNT,
        ensures
            final(self).table_count() == old(self).table_count(),
            final(self).root_spec() == old(self).root_spec(),
            final(self).l1m() == old(self).l1m(),
            final(self).l2m() == old(self).l2m(),
            forall|i: int|
                0 <= i < old(self).table_count() ==> #[trigger] final(self).table_ppn(i)
                    == old(self).table_ppn(i),
            forall|i: int|
                0 <= i < old(self).table_count()
                    ==> (#[trigger] final(self).page_tables@[i]).wf() == old(self).page_tables@[i].wf(),
            forall|i: int, j: int|
                0 <= i < old(self).table_count() && 0 <= j < PAGE_ENTRY_COUNT && (i != ti || j
                    != ei) ==> #[trigger] final(self).entry_at(i, j) == old(self).entry_at(i, j),
            final(self).entry_at(ti as int, ei as int) == e,
    {
        let tr = &mut self.page_tables[ti];
        tr.set_entry(ei, e);
    }

    /// Ensures the level-one table on the path through root slot `s0`
    /// exists, allocating and linking a fresh zeroed table if the root
    /// entry is empty. Returns the table's index.
    fn ensure_l1(&mut self, s0: usize, fa: &mut FrameAllocator) -> (r: MemoryResult<usize>)
        requires
            old(self).inv(),
            old(self).disjoint_from(*old(fa)),
            old(fa).wf(),
            s0 < PAGE_ENTRY_COUNT,
        ensures
            final(self).inv(),
            final(self).disjoint_from(*final(fa)),
            final(fa).wf(),
            final(fa).start_spec() == old(fa).start_spec(),
            final(fa).end_spec() == old(fa).end_spec(),
            final(fa).range_count() <= old(fa).range_count(),
            forall|p: int| #[trigger] final(fa).is_free_ppn(p) ==> old(fa).is_free_ppn(p),
            final(self).root_spec() == old(self).root_spec(),
            final(self).table_count() >= old(self).table_count(),
            forall|p: int|
                #[trigger] final(self).owns_ppn(p) ==> old(self).owns_ppn(p) || old(fa).is_free_ppn(p),
            final(self).l2m() == old(self).l2m(),
            forall|i: int, j: int|
                1 <= i < old(self).table_count() && 0 <= j < PAGE_ENTRY_COUNT
                    ==> #[trigger] final(self).entry_at(i, j) == old(self).entry_at(i, j),
            forall|i: int|
                0 <= i < old(self).table_count() ==> #[trigger] final(self).table_ppn(i)
                    == old(self).table_ppn(i),
            old(self).l1m().contains_key(s0 as int) ==> *final(fa) == *old(fa) && r is Ok,
            match r {
                Ok(t1) => {
                    &&& final(self).l1m().contains_key(s0 as int)
                    &&& t1 == final(self).l1m()[s0 as int]
                    &&& 1 <= t1 < final(self).table_count()
                    &&& old(self).l1m().contains_key(s0 as int) ==> final(self).l1m()
                        == old(self).l1m() && final(self).table_count() == old(self).table_count()
                    &&& !old(self).l1m().contains_key(s0 as int) ==> final(self).l1m()
                        == old(self).l1m().insert(s0 as int, t1 as int) && t1 == old(self).table_count()
                },
                Err(_) => {
                    &&& *final(self) == *old(self)
                    &&& forall|p: int| !(#[trigger] final(fa).is_free_ppn(p))
                },
            },
    {
        let e0 = self.page_tables[0].table.entries[s0];
        if !e0.is_empty() {
            proof {
                assert(self.l1m().contains_key(s0 as int));
            }
            let t1 = self.table_index_of(e0.page_number(), Ghost(self.l1m()[s0 as int]));
            proof {
                let m = *self;
                assert(e0.0 == m.table_ppn(m.l1m()[s0 as int]) * PPN_SHIFT as int + 1);
                vstd::arithmetic::div_mod::lemma_fundamental_div_mod(e0.0 as int, PPN_SHIFT as int);
                assert(e0.0 as int / PPN_SHIFT as int == m.table_ppn(m.l1m()[s0 as int]))
                    by (nonlinear_arith)
                    requires
                        e0.0 == m.table_ppn(m.l1m()[s0 as int]) * PPN_SHIFT as int + 1,
                        0 <= m.table_ppn(m.l1m()[s0 as int]),
                        PPN_SHIFT == 1024,
                ;
            }
            return Ok(t1);
        }
        proof {
            assert(!self.l1m().contains_key(s0 as int));
        }
        let frame = match fa.allocate() {
            Ok(f) => f,
            Err(e) => {
                return Err(e);
            },
        };
        let tracker = PageTableTracker::new(frame);
        let new_ppn = tracker.page_number();
        let new_idx = self.page_tables.len();
        let ghost pre = *self;
        let ghost fresh = new_ppn.0 as int;
        proof {
            // the fresh page was free, so no owned table uses it
            assert forall|i: int| 0 <= i < pre.table_count() implies #[trigger] pre.table_ppn(i)
                != fresh by {
                if pre.table_ppn(i) == fresh {
                    assert(pre.owns_ppn(fresh));
                }
            }
        }
        self.page_tables.push(tracker);
        let ghost newmap = pre.l1m().insert(s0 as int, new_idx as int);
        self.l1_index = Ghost(newmap);
        let ghost mid = *self;
        proof {
            assert(forall|i: int|
                0 <= i < pre.table_count() ==> #[trigger] mid.table_ppn(i) == pre.table_ppn(i));
            assert(mid.table_ppn(new_idx as int) == fresh);
            assert(forall|i: int, j: int|
                0 <= i < pre.table_count() && 0 <= j < PAGE_ENTRY_COUNT ==> #[trigger] mid.entry_at(
                    i,
                    j,
                ) == pre.entry_at(i, j));
            assert(forall|j: int|
                0 <= j < PAGE_ENTRY_COUNT ==> (#[trigger] mid.entry_at(new_idx as int, j)).0 == 0);
        }
        let e = PageTableEntry::new(new_ppn, Flags::empty());
        proof {
            assert(e.0 == new_ppn.0 * PPN_SHIFT as int + 1);
            assert(e.0 != 0);
        }
        self.set_table_entry(0, s0, e);
        proof {
            let m = *self;
            assert(m.l1m() == newmap);
            assert(m.l2m() == pre.l2m());
            assert(m.table_count() == pre.table_count() + 1);
            assert forall|i: int|
                0 <= i < m.table_count() implies #[trigger] m.table_ppn(i) == mid.table_ppn(i) by {
            }
            assert forall|i: int, j: int|
                0 <= i < m.table_count() && 0 <= j < PAGE_ENTRY_COUNT && (i != 0 || j != s0)
                    implies #[trigger] m.entry_at(i, j) == mid.entry_at(i, j) by {
            }
            assert(m.entry_at(0, s0 as int) == e);
            // pairwise distinct pages
            assert forall|i: int, j: int|
                0 <= i < m.table_count() && 0 <= j < m.table_count() && i != j implies #[trigger] m
                .table_ppn(i) != #[trigger] m.table_ppn(j) by {
                if i == new_idx as int {
                    assert(m.table_ppn(j) == pre.table_ppn(j));
                    assert(pre.table_ppn(j) != fresh);
                } else if j == new_idx as int {
                    assert(m.table_ppn(i) == pre.table_ppn(i));
                    assert(pre.table_ppn(i) != fresh);
                } else {
                    assert(m.table_ppn(i) == pre.table_ppn(i));
                    assert(m.table_ppn(j) == pre.table_ppn(j));
                }
            }
            // the root level mirrors the extended map
            assert forall|s0b: int|
                0 <= s0b < PAGE_ENTRY_COUNT implies (#[trigger] m.page_tables@[0].table.entries[
                s0b
            ]).0 == (if m.l1m().contains_key(s0b) {
                m.table_ppn(m.l1m()[s0b]) * PPN_SHIFT as int + 1
            } else {
                0int
            }) by {
                assert(m.page_tables@[0].table.entries[s0b] == m.entry_at(0, s0b));
                if s0b == s0 as int {
                    assert(m.entry_at(0, s0b) == e);
                    assert(m.table_ppn(new_idx as int) == fresh);
                } else {
                    assert(m.entry_at(0, s0b) == pre.entry_at(0, s0b));
                    if pre.l1m().contains_key(s0b) {
                        assert(m.table_ppn(pre.l1m()[s0b]) == pre.table_ppn(pre.l1m()[s0b]));
                    }
                }
            }
            // the level-one tables mirror the unchanged level-two map
            assert forall|s0b: int, s1: int|
                #[trigger] m.l1m().contains_key(s0b) && 0 <= s1 < PAGE_ENTRY_COUNT implies (
            #[trigger] m.page_tables@[m.l1m()[s0b]].table.entries[s1]).0 == (if m.l2m()
                .contains_key((s0b, s1)) {
                m.table_ppn(m.l2m()[(s0b, s1)]) * PPN_SHIFT as int + 1
            } else {
                0int
            }) by {
                if s0b == s0 as int {
                    assert(m.l1m()[s0b] == new_idx as int);
                    assert(!m.l2m().contains_key((s0b, s1))) by {
                        if pre.l2m().contains_key((s0b, s1)) {
                            assert(pre.l1m().contains_key(s0b));
                        }
                    }
                    assert(m.page_tables@[new_idx as int].table.entries[s1] == m.entry_at(
                        new_idx as int,
                        s1,
                    ));
                    assert(m.entry_at(new_idx as int, s1) == mid.entry_at(new_idx as int, s1));
                } else {
                    assert(pre.l1m().contains_key(s0b));
                    assert(m.l1m()[s0b] == pre.l1m()[s0b]);
                    assert(1 <= pre.l1m()[s0b] < pre.table_count());
                    assert(m.page_tables@[m.l1m()[s0b]].table.entries[s1] == m.entry_at(
                        m.l1m()[s0b],
                        s1,
                    ));
                    assert(m.entry_at(pre.l1m()[s0b], s1) == pre.entry_at(pre.l1m()[s0b], s1));
                    assert(pre.page_tables@[pre.l1m()[s0b]].table.entries[s1] == pre.entry_at(
                        pre.l1m()[s0b],
                        s1,
                    ));
                    if m.l2m().contains_key((s0b, s1)) {
                        assert(m.table_ppn(pre.l2m()[(s0b, s1)]) == pre.table_ppn(
                            pre.l2m()[(s0b, s1)],
                        ));
                    }
                }
            }
            assert(m.inv());
            // ownership stays clear of the allocator's free pages
            assert forall|p: int| #[trigger] m.owns_ppn(p) implies !final(fa).is_free_ppn(p) by {
                let i = choose|i: int| 0 <= i < m.table_count() && #[trigger] m.table_ppn(i) == p;
                if i < new_idx as int {
                    assert(pre.owns_ppn(p)) by {
                        assert(pre.table_ppn(i) == p);
                    }
                }
            }
        }
                Ok(new_idx)
    }
}


impl Mapping {
    /// Ensures the leaf table on the path `(s0, s1)` exists, given the
    /// level-one table's index; allocates and links a fresh zeroed table
    /// if the slot is empty. Returns the leaf table's index.
    fn ensure_l2(&mut self, s0: usize, s1: usize, p1: usize, fa: &mut FrameAllocator) -> (r:
        Result<usize, &'static str>)
        requires
            old(self).inv(),
            old(self).disjoint_from(*old(fa)),
            old(fa).wf(),
            s0 < PAGE_ENTRY_COUNT,
            s1 < PAGE_ENTRY_COUNT,
            old(self).l1m().contains_key(s0 as int),
            p1 == old(self).l1m()[s0 as int],
        ensures
            final(self).inv(),
            final(self).disjoint_from(*final(fa)),
            final(fa).wf(),
            final(fa).start_spec() == old(fa).start_spec(),
            final(fa).end_spec() == old(fa).end_spec(),
            final(fa).range_count() <= old(fa).range_count(),
            forall|p: int| #[trigger] final(fa).is_free_ppn(p) ==> old(fa).is_free_ppn(p),
            final(self).root_spec() == old(self).root_spec(),
            final(self).table_count() >= old(self).table_count(),
            forall|p: int|
                #[trigger] final(self).owns_ppn(p) ==> old(self).owns_ppn(p) || old(fa).is_free_ppn(p),
            final(self).l1m() == old(self).l1m(),
            forall|i: int, j: int|
                0 <= i < old(self).table_count() && 0 <= j < PAGE_ENTRY_COUNT && (i != p1 || j
                    != s1) ==> #[trigger] final(self).entry_at(i, j) == old(self).entry_at(i, j),
            forall|i: int|
                0 <= i < old(self).table_count() ==> #[trigger] final(self).table_ppn(i)
                    == old(self).table_ppn(i),
            old(self).l2m().contains_key((s0 as int, s1 as int)) ==> *final(fa) == *old(fa) && r
                is Ok,
            match r {
                Ok(t2) => {
                    &&& final(self).l2m().contains_key((s0 as int, s1 as int))
                    &&& t2 == final(self).l2m()[(s0 as int, s1 as int)]
                    &&& 1 <= t2 < final(self).table_count()
                    &&& old(self).l2m().contains_key((s0 as int, s1 as int)) ==> final(self).l2m()
                        == old(self).l2m() && final(self).table_count() == old(self).table_count()
                    &&& !old(self).l2m().contains_key((s0 as int, s1 as int)) ==> final(self).l2m()
                        == old(self).l2m().insert((s0 as int, s1 as int), t2 as int) && t2 == old(self).table_count() && (forall|j: int|
                        0 <= j < PAGE_ENTRY_COUNT ==> (#[trigger] final(self).entry_at(
                            t2 as int,
                            j,
                        )).0 == 0)
                },
                Err(_) => {
                    &&& *final(self) == *old(self)
                    &&& forall|p: int| !(#[trigger] final(fa).is_free_ppn(p))
                },
            },
    {
        let e1 = self.page_tables[p1].table.entries[s1];
        if !e1.is_empty() {
            proof {
                assert(self.l2m().contains_key((s0 as int, s1 as int)));
            }
            let t2 = self.table_index_of(
                e1.page_number(),
                Ghost(self.l2m()[(s0 as int, s1 as int)]),
            );
            proof {
                let m = *self;
                let w = m.l2m()[(s0 as int, s1 as int)];
                assert(e1.0 == m.table_ppn(w) * PPN_SHIFT as int + 1);
                assert(e1.0 as int / PPN_SHIFT as int == m.table_ppn(w)) by (nonlinear_arith)
                    requires
                        e1.0 == m.table_ppn(w) * PPN_SHIFT as int + 1,
                        0 <= m.table_ppn(w),
                        PPN_SHIFT == 1024,
                ;
            }
            return Ok(t2);
        }
        proof {
            assert(!self.l2m().contains_key((s0 as int, s1 as int)));
        }
        let frame = match fa.allocate() {
            Ok(f) => f,
            Err(e) => {
                return Err(e);
            },
        };
        let tracker = PageTableTracker::new(frame);
        let new_ppn = tracker.page_number();
        let new_idx = self.page_tables.len();
        let ghost pre = *self;
        let ghost fresh = new_ppn.0 as int;
        proof {
            assert forall|i: int| 0 <= i < pre.table_count() implies #[trigger] pre.table_ppn(i)
                != fresh by {
                if pre.table_ppn(i) == fresh {
                    assert(pre.owns_ppn(fresh));
                }
            }
        }
        self.page_tables.push(tracker);
        let ghost newmap = pre.l2m().insert((s0 as int, s1 as int), new_idx as int);
        self.l2_index = Ghost(newmap);
        let ghost mid = *self;
        proof {
            assert(forall|i: int|
                0 <= i < pre.table_count() ==> #[trigger] mid.table_ppn(i) == pre.table_ppn(i));
            assert(mid.table_ppn(new_idx as int) == fresh);
            assert(forall|i: int, j: int|
                0 <= i < pre.table_count() && 0 <= j < PAGE_ENTRY_COUNT ==> #[trigger] mid.entry_at(
                    i,
                    j,
                ) == pre.entry_at(i, j));
            assert(forall|j: int|
                0 <= j < PAGE_ENTRY_COUNT ==> (#[trigger] mid.entry_at(new_idx as int, j)).0 == 0);
        }
        let e = PageTableEntry::new(new_ppn, Flags::empty());
        proof {
            assert(e.0 == new_ppn.0 * PPN_SHIFT as int + 1);
            assert(e.0 != 0);
        }
        self.set_table_entry(p1, s1, e);
        proof {
            let m = *self;
            assert(m.l2m() == newmap);
            assert(m.l1m() == pre.l1m());
            assert(m.table_count() == pre.table_count() + 1);
            assert forall|i: int|
                0 <= i < m.table_count() implies #[trigger] m.table_ppn(i) == mid.table_ppn(i) by {
            }
            assert forall|i: int, j: int|
                0 <= i < m.table_count() && 0 <= j < PAGE_ENTRY_COUNT && (i != p1 || j != s1)
                    implies #[trigger] m.entry_at(i, j) == mid.entry_at(i, j) by {
            }
            assert(m.entry_at(p1 as int, s1 as int) == e);
            assert forall|i: int, j: int|
                0 <= i < m.table_count() && 0 <= j < m.table_count() && i != j implies #[trigger] m
                .table_ppn(i) != #[trigger] m.table_ppn(j) by {
                if i == new_idx as int {
                    assert(m.table_ppn(j) == pre.table_ppn(j));
                    assert(pre.table_ppn(j) != fresh);
                } else if j == new_idx as int {
                    assert(m.table_ppn(i) == pre.table_ppn(i));
                    assert(pre.table_ppn(i) != fresh);
                } else {
                    assert(m.table_ppn(i) == pre.table_ppn(i));
                    assert(m.table_ppn(j) == pre.table_ppn(j));
                }
            }
            // the root level is untouched (the written slot is in a
            // level-one table, never the root)
            assert forall|s0b: int|
                0 <= s0b < PAGE_ENTRY_COUNT implies (#[trigger] m.page_tables@[0].table.entries[
                s0b
            ]).0 == (if m.l1m().contains_key(s0b) {
                m.table_ppn(m.l1m()[s0b]) * PPN_SHIFT as int + 1
            } else {
                0int
            }) by {
                assert(p1 >= 1);
                assert(m.page_tables@[0].table.entries[s0b] == m.entry_at(0, s0b));
                assert(m.entry_at(0, s0b) == pre.entry_at(0, s0b));
                if pre.l1m().contains_key(s0b) {
                    assert(m.table_ppn(pre.l1m()[s0b]) == pre.table_ppn(pre.l1m()[s0b]));
                }
            }
            // the level-one tables mirror the extended level-two map
            assert forall|s0b: int, s1b: int|
                #[trigger] m.l1m().contains_key(s0b) && 0 <= s1b < PAGE_ENTRY_COUNT implies (
            #[trigger] m.page_tables@[m.l1m()[s0b]].table.entries[s1b]).0 == (if m.l2m()
                .contains_key((s0b, s1b)) {
                m.table_ppn(m.l2m()[(s0b, s1b)]) * PPN_SHIFT as int + 1
            } else {
                0int
            }) by {
                assert(m.page_tables@[m.l1m()[s0b]].table.entries[s1b] == m.entry_at(
                    m.l1m()[s0b],
                    s1b,
                ));
                if s0b == s0 as int && s1b == s1 as int {
                    assert(m.entry_at(p1 as int, s1 as int) == e);
                    assert(m.table_ppn(new_idx as int) == fresh);
                } else {
                    // a different slot, or a different level-one table:
                    // distinct root slots use distinct tables
                    assert(pre.l1m().contains_key(s0b));
                    if s0b != s0 as int {
                        assert(pre.l1m()[s0b] != pre.l1m()[s0 as int]);
                    }
                    assert(m.entry_at(m.l1m()[s0b], s1b) == pre.entry_at(pre.l1m()[s0b], s1b));
                    assert(pre.page_tables@[pre.l1m()[s0b]].table.entries[s1b] == pre.entry_at(
                        pre.l1m()[s0b],
                        s1b,
                    ));
                    if m.l2m().contains_key((s0b, s1b)) {
                        assert(pre.l2m().contains_key((s0b, s1b)));
                        assert(m.table_ppn(pre.l2m()[(s0b, s1b)]) == pre.table_ppn(
                            pre.l2m()[(s0b, s1b)],
                        ));
                    }
                }
            }
            assert(m.inv());
            assert forall|p: int| #[trigger] m.owns_ppn(p) implies !final(fa).is_free_ppn(p) by {
                let i = choose|i: int| 0 <= i < m.table_count() && #[trigger] m.table_ppn(i) == p;
                if i < new_idx as int {
                    assert(pre.owns_ppn(p)) by {
                        assert(pre.table_ppn(i) == p);
                    }
                }
            }
        }
        Ok(new_idx)
    }
}


impl Mapping {
    /// Finds the leaf entry for `vpn`, creating the intermediate tables
    /// of its path as needed: the only place tables are allocated.
    /// Fails exactly when a needed table cannot get a frame; the
    /// mapped-ness of every page is unchanged either way.
    pub fn find_entry(&mut self, vpn: VirtualPageNumber, fa: &mut FrameAllocator) -> (r: MemoryResult<EntryLocation>)
        requires
            old(self).inv(),
            old(self).disjoint_from(*old(fa)),
            old(fa).wf(),
            vpn.0 < crate::address::vpn_space(),
        ensures
            final(self).inv(),
            final(self).disjoint_from(*final(fa)),
            final(fa).wf(),
            final(fa).start_spec() == old(fa).start_spec(),
            final(fa).end_spec() == old(fa).end_spec(),
            final(fa).range_count() <= old(fa).range_count(),
            forall|p: int| #[trigger] final(fa).is_free_ppn(p) ==> old(fa).is_free_ppn(p),
            final(self).root_spec() == old(self).root_spec(),
            final(self).table_count() >= old(self).table_count(),
            forall|p: int|
                #[trigger] final(self).owns_ppn(p) ==> old(self).owns_ppn(p) || old(fa).is_free_ppn(p),
            forall|v: VirtualPageNumber|
                v.0 < crate::address::vpn_space() && #[trigger] old(self).path_exists(v) ==> final(self).path_exists(v) && final(self).leaf_index(v) == old(self).leaf_index(v) && final(self).entry_of(v) == old(self).entry_of(v),
            forall|v: VirtualPageNumber|
                v.0 < crate::address::vpn_space() ==> (#[trigger] final(self).mapped(v) == old(self).mapped(v)),
            old(self).path_exists(vpn) ==> *final(fa) == *old(fa) && final(self).table_count()
                == old(self).table_count() && r is Ok,
            match r {
                Ok(loc) => {
                    &&& final(self).path_exists(vpn)
                    &&& loc.table_index == final(self).leaf_index(vpn)
                    &&& loc.entry_index == vpn.level_spec(2)
                    &&& loc.table_index < final(self).table_count()
                    &&& loc.entry_index < PAGE_ENTRY_COUNT
                },
                Err(_) => {
                    forall|p: int| !(#[trigger] final(fa).is_free_ppn(p))
                },
            },
    {
        let ghost pre = *self;
        let levels = vpn.levels();
        let t1 = match self.ensure_l1(levels[0], fa) {
            Ok(t) => t,
            Err(e) => {
                return Err(e);
            },
        };
        let ghost m1 = *self;
        let t2 = match self.ensure_l2(levels[0], levels[1], t1, fa) {
            Ok(t) => t,
            Err(e) => {
                proof {
                    lemma_view_preserved_l1(pre, m1, vpn);
                }
                return Err(e);
            },
        };
        proof {
            lemma_view_preserved_l1(pre, m1, vpn);
            lemma_view_preserved_l2(m1, *self, vpn, t1 as int);
            assert forall|p: int| #[trigger] self.owns_ppn(p) implies pre.owns_ppn(p) || old(
                fa,
            ).is_free_ppn(p) by {
                if !pre.owns_ppn(p) && !m1.owns_ppn(p) {
                }
            }
        }
        Ok(EntryLocation { table_index: t2, entry_index: levels[2] })
    }

    /// Writes the leaf entry for `vpn`, whose path must exist; only that
    /// one page's entry changes.
    fn set_leaf(&mut self, vpn: VirtualPageNumber, loc: EntryLocation, e: PageTableEntry)
        requires
            old(self).inv(),
            vpn.0 < crate::address::vpn_space(),
            old(self).path_exists(vpn),
            loc.table_index == old(self).leaf_index(vpn),
            loc.entry_index == vpn.level_spec(2),
        ensures
            final(self).inv(),
            final(self).root_spec() == old(self).root_spec(),
            final(self).table_count() == old(self).table_count(),
            forall|i: int|
                0 <= i < old(self).table_count() ==> #[trigger] final(self).table_ppn(i)
                    == old(self).table_ppn(i),
            final(self).l1m() == old(self).l1m(),
            final(self).l2m() == old(self).l2m(),
            forall|p: int| #[trigger] final(self).owns_ppn(p) == old(self).owns_ppn(p),
            final(self).entry_of(vpn) == e,
            final(self).path_exists(vpn),
            forall|v: VirtualPageNumber|
                v.0 < crate::address::vpn_space() && v != vpn ==> #[trigger] final(self).path_exists(v) == old(self).path_exists(v) && final(self).leaf_index(v) == old(self).leaf_index(v) && (old(self).path_exists(v) ==> final(self).entry_of(v) == old(self).entry_of(v)),
    {
        proof {
            assert(old(self).l2m().contains_key((vpn.level_spec(0), vpn.level_spec(1))));
            assert(1 <= loc.table_index < old(self).table_count());
        }
        self.set_table_entry(loc.table_index, loc.entry_index, e);
        proof {
            let m = *self;
            let pre = *old(self);
            // the written table is a leaf table, so the first two levels
            // still mirror the unchanged maps
            assert forall|s0b: int|
                0 <= s0b < PAGE_ENTRY_COUNT implies (#[trigger] m.page_tables@[0].table.entries[
                s0b
            ]).0 == (if m.l1m().contains_key(s0b) {
                m.table_ppn(m.l1m()[s0b]) * PPN_SHIFT as int + 1
            } else {
                0int
            }) by {
                assert(m.page_tables@[0].table.entries[s0b] == m.entry_at(0, s0b));
                assert(m.entry_at(0, s0b) == pre.entry_at(0, s0b));
                if pre.l1m().contains_key(s0b) {
                    assert(m.table_ppn(pre.l1m()[s0b]) == pre.table_ppn(pre.l1m()[s0b]));
                }
            }
            assert forall|s0b: int, s1b: int|
                #[trigger] m.l1m().contains_key(s0b) && 0 <= s1b < PAGE_ENTRY_COUNT implies (
            #[trigger] m.page_tables@[m.l1m()[s0b]].table.entries[s1b]).0 == (if m.l2m()
                .contains_key((s0b, s1b)) {
                m.table_ppn(m.l2m()[(s0b, s1b)]) * PPN_SHIFT as int + 1
            } else {
                0int
            }) by {
                assert(m.page_tables@[m.l1m()[s0b]].table.entries[s1b] == m.entry_at(
                    m.l1m()[s0b],
                    s1b,
                ));
                // a level-one table is never a leaf table
                assert(pre.l1m()[s0b] != loc.table_index as int);
                assert(m.entry_at(m.l1m()[s0b], s1b) == pre.entry_at(pre.l1m()[s0b], s1b));
                assert(pre.page_tables@[pre.l1m()[s0b]].table.entries[s1b] == pre.entry_at(
                    pre.l1m()[s0b],
                    s1b,
                ));
                if m.l2m().contains_key((s0b, s1b)) {
                    assert(m.table_ppn(pre.l2m()[(s0b, s1b)]) == pre.table_ppn(
                        pre.l2m()[(s0b, s1b)],
                    ));
                }
            }
            assert(m.inv());
            assert forall|p: int| #[trigger] m.owns_ppn(p) == pre.owns_ppn(p) by {
                if m.owns_ppn(p) {
                    let i = choose|i: int|
                        0 <= i < m.table_count() && #[trigger] m.table_ppn(i) == p;
                    assert(pre.table_ppn(i) == p);
                    assert(pre.owns_ppn(p));
                }
                if pre.owns_ppn(p) {
                    let i = choose|i: int|
                        0 <= i < pre.table_count() && #[trigger] pre.table_ppn(i) == p;
                    assert(m.table_ppn(i) == p);
                    assert(m.owns_ppn(p));
                }
            }
            // only the one page's entry changed: equal paths with equal
            // slots force equal page numbers
            assert forall|v: VirtualPageNumber|
                v.0 < crate::address::vpn_space() && v != vpn implies #[trigger] m.path_exists(v)
                == pre.path_exists(v) && m.leaf_index(v) == pre.leaf_index(v) && (pre.path_exists(
                v,
            ) ==> m.entry_of(v) == pre.entry_of(v)) by {
                if pre.path_exists(v) {
                    if pre.leaf_index(v) == loc.table_index as int && v.level_spec(2)
                        == loc.entry_index as int {
                        assert(pre.l2m()[(v.level_spec(0), v.level_spec(1))] == pre.l2m()[
                            (vpn.level_spec(0), vpn.level_spec(1))
                        ]);
                        assert((v.level_spec(0), v.level_spec(1)) == (
                            vpn.level_spec(0),
                            vpn.level_spec(1),
                        ));
                        crate::address::lemma_levels_injective(v, vpn);
                        assert(false);
                    }
                    assert(m.entry_at(pre.leaf_index(v), v.level_spec(2)) == pre.entry_at(
                        pre.leaf_index(v),
                        v.level_spec(2),
                    ));
                }
            }
        }
    }

    /// Maps one virtual page to one physical page with the given flags.
    /// The page must not already be mapped: mapping it twice without an
    /// intervening unmap is a programmer error, excluded by contract.
    /// Fails exactly when an intermediate table cannot get a frame.
    pub fn map_one(
        &mut self,
        vpn: VirtualPageNumber,
        ppn: PhysicalPageNumber,
        flags: Flags,
        fa: &mut FrameAllocator,
    ) -> (r: MemoryResult<()>)
        requires
            old(self).inv(),
            old(self).disjoint_from(*old(fa)),
            old(fa).wf(),
            vpn.0 < crate::address::vpn_space(),
            !old(self).mapped(vpn),
            ppn.0 < MAX_PPN,
        ensures
            final(self).inv(),
            final(self).disjoint_from(*final(fa)),
            final(fa).wf(),
            final(fa).start_spec() == old(fa).start_spec(),
            final(fa).end_spec() == old(fa).end_spec(),
            final(fa).range_count() <= old(fa).range_count(),
            forall|p: int| #[trigger] final(fa).is_free_ppn(p) ==> old(fa).is_free_ppn(p),
            final(self).root_spec() == old(self).root_spec(),
            forall|p: int|
                #[trigger] final(self).owns_ppn(p) ==> old(self).owns_ppn(p) || old(fa).is_free_ppn(p),
            forall|v: VirtualPageNumber|
                v.0 < crate::address::vpn_space() && v != vpn ==> (#[trigger] final(self).mapped(v)
                    == old(self).mapped(v)) && (old(self).path_exists(v) && old(self).mapped(v)
                    ==> final(self).entry_of(v) == old(self).entry_of(v)),
            match r {
                Ok(_) => {
                    &&& final(self).mapped(vpn)
                    &&& final(self).entry_of(vpn).0 == ppn.0 * PPN_SHIFT as int + (Flags {
                        valid: true,
                        ..flags
                    }).bits_spec()
                    &&& crate::page_table_entry::entry_ppn_spec(final(self).entry_of(vpn).0 as int)
                        == ppn.0
                },
                Err(_) => {
                    &&& !final(self).mapped(vpn)
                    &&& forall|p: int| !(#[trigger] final(fa).is_free_ppn(p))
                },
            },
    {
        let loc = match self.find_entry(vpn, fa) {
            Ok(l) => l,
            Err(e) => {
                return Err(e);
            },
        };
        let ghost m0 = *old(self);
        let ghost m1 = *self;
        let e = PageTableEntry::new(ppn, flags);
        self.set_leaf(vpn, loc, e);
        proof {
            assert forall|v: VirtualPageNumber|
                v.0 < crate::address::vpn_space() && v != vpn implies (#[trigger] self.mapped(v)
                == m0.mapped(v)) && (m0.path_exists(v) && m0.mapped(v) ==> self.entry_of(v)
                == m0.entry_of(v)) by {
                assert(m1.mapped(v) == m0.mapped(v));
                assert(self.path_exists(v) == m1.path_exists(v));
                if m0.path_exists(v) {
                    assert(m1.path_exists(v) && m1.entry_of(v) == m0.entry_of(v));
                    assert(self.entry_of(v) == m1.entry_of(v));
                }
                if self.mapped(v) != m1.mapped(v) {
                    assert(false);
                }
            }
            assert forall|p: int| #[trigger] self.owns_ppn(p) implies !final(fa).is_free_ppn(
                p,
            ) by {
                let i = choose|i: int|
                    0 <= i < self.table_count() && #[trigger] self.table_ppn(i) == p;
                assert(m1.owns_ppn(p)) by {
                    assert(m1.table_ppn(i) == p);
                }
            }
        }
        Ok(())
    }

    /// Removes the mapping of one page by clearing its leaf entry; the
    /// page must be mapped.
    pub fn unmap_one(&mut self, vpn: VirtualPageNumber)
        requires
            old(self).inv(),
            vpn.0 < crate::address::vpn_space(),
            old(self).mapped(vpn),
        ensures
            final(self).inv(),
            final(self).root_spec() == old(self).root_spec(),
            final(self).table_count() == old(self).table_count(),
            forall|p: int| #[trigger] final(self).owns_ppn(p) == old(self).owns_ppn(p),
            !final(self).mapped(vpn),
            forall|v: VirtualPageNumber|
                v.0 < crate::address::vpn_space() && v != vpn ==> (#[trigger] final(self).mapped(v)
                    == old(self).mapped(v)) && (old(self).mapped(v) ==> final(self).entry_of(v)
                    == old(self).entry_of(v)),
    {
        let levels = vpn.levels();
        let loc = match self.locate(vpn) {
            Some(l) => l,
            None => {
                proof {
                    assert(false);
                }
                return ;
            },
        };
        self.set_leaf(vpn, loc, PageTableEntry::empty());
    }
}

/// After the first level of a walk was ensured, every existing path and
/// every leaf entry reads the same.
proof fn lemma_view_preserved_l1(pre: Mapping, post: Mapping, vpn: VirtualPageNumber)
    requires
        pre.inv(),
        post.inv(),
        post.l2m() == pre.l2m(),
        forall|i: int, j: int|
            1 <= i < pre.table_count() && 0 <= j < PAGE_ENTRY_COUNT ==> #[trigger] post.entry_at(
                i,
                j,
            ) == pre.entry_at(i, j),
        forall|i: int|
            0 <= i < pre.table_count() ==> #[trigger] post.table_ppn(i) == pre.table_ppn(i),
    ensures
        forall|v: VirtualPageNumber|
            #[trigger] pre.path_exists(v) ==> post.path_exists(v) && post.leaf_index(v)
                == pre.leaf_index(v) && post.entry_of(v) == pre.entry_of(v),
        forall|v: VirtualPageNumber| #[trigger] post.mapped(v) == pre.mapped(v),
{
    assert forall|v: VirtualPageNumber| #[trigger] pre.path_exists(v) implies post.path_exists(v)
        && post.leaf_index(v) == pre.leaf_index(v) && post.entry_of(v) == pre.entry_of(v) by {
        let k = (v.level_spec(0), v.level_spec(1));
        assert(pre.l2m().contains_key(k));
        assert(1 <= pre.l2m()[k] < pre.table_count());
        assert(post.entry_at(pre.l2m()[k], v.level_spec(2)) == pre.entry_at(
            pre.l2m()[k],
            v.level_spec(2),
        ));
    }
    assert forall|v: VirtualPageNumber| #[trigger] post.mapped(v) == pre.mapped(v) by {
        if post.path_exists(v) && !pre.path_exists(v) {
            assert(false);
        }
    }
}

/// After the second level of a walk was ensured through the level-one
/// table `t1`, every existing path and leaf entry reads the same: the
/// only written slot sits in a level-one table, never in a leaf.
proof fn lemma_view_preserved_l2(pre: Mapping, post: Mapping, vpn: VirtualPageNumber, t1: int)
    requires
        pre.inv(),
        post.inv(),
        pre.l1m().contains_key(vpn.level_spec(0)),
        t1 == pre.l1m()[vpn.level_spec(0)],
        post.l2m() == pre.l2m() || post.l2m() == pre.l2m().insert(
            (vpn.level_spec(0), vpn.level_spec(1)),
            pre.table_count() as int,
        ),
        post.l2m() != pre.l2m() ==> !pre.l2m().contains_key(
            (vpn.level_spec(0), vpn.level_spec(1)),
        ),
        post.table_count() >= pre.table_count(),
        forall|i: int, j: int|
            0 <= i < pre.table_count() && 0 <= j < PAGE_ENTRY_COUNT && (i != t1 || j
                != vpn.level_spec(1)) ==> #[trigger] post.entry_at(i, j) == pre.entry_at(i, j),
        forall|i: int|
            0 <= i < pre.table_count() ==> #[trigger] post.table_ppn(i) == pre.table_ppn(i),
        post.l2m() != pre.l2m() ==> (forall|j: int|
            0 <= j < PAGE_ENTRY_COUNT ==> (#[trigger] post.entry_at(
                pre.table_count() as int,
                j,
            )).0 == 0),
    ensures
        forall|v: VirtualPageNumber|
            #[trigger] pre.path_exists(v) ==> post.path_exists(v) && post.leaf_index(v)
                == pre.leaf_index(v) && post.entry_of(v) == pre.entry_of(v),
        forall|v: VirtualPageNumber| #[trigger] post.mapped(v) == pre.mapped(v),
{
    assert forall|v: VirtualPageNumber| #[trigger] pre.path_exists(v) implies post.path_exists(v)
        && post.leaf_index(v) == pre.leaf_index(v) && post.entry_of(v) == pre.entry_of(v) by {
        let k = (v.level_spec(0), v.level_spec(1));
        assert(pre.l2m().contains_key(k));
        assert(post.l2m().contains_key(k) && post.l2m()[k] == pre.l2m()[k]);
        let li = pre.l2m()[k];
        assert(1 <= li < pre.table_count());
        // a leaf table is never a level-one table
        assert(li != t1);
        assert(post.entry_at(li, v.level_spec(2)) == pre.entry_at(li, v.level_spec(2)));
    }
    assert forall|v: VirtualPageNumber| #[trigger] post.mapped(v) == pre.mapped(v) by {
        if post.path_exists(v) && !pre.path_exists(v) {
            let k = (v.level_spec(0), v.level_spec(1));
            assert(post.l2m().contains_key(k));
            assert(post.l2m() != pre.l2m());
            assert(k == (vpn.level_spec(0), vpn.level_spec(1)));
            assert(post.leaf_index(v) == pre.table_count() as int);
            assert(post.entry_of(v).0 == 0);
        }
    }
}



/// The byte a framed page starts with under optional initialization
/// data.
pub open spec fn framed_init_byte(seg: Segment, init_data: Option<&Vec<u8>>, vpn: int, o: int) -> u8 {
    match init_data {
        Some(d) => seg_page_byte(seg, d@, vpn, o),
        None => 0u8,
    }
}

/// What holds of the `i`-th (page, frame) pair a framed mapping
/// produced: consecutive page, owned well-formed frame taken from the
/// allocator, entry pointing at it, contents initialized as specified.
pub open spec fn framed_pair_ok(
    m: Mapping,
    fa0: FrameAllocator,
    fa1: FrameAllocator,
    seg: Segment,
    init_data: Option<&Vec<u8>>,
    first: int,
    i: int,
    pr: (VirtualPageNumber, FrameTracker),
) -> bool {
    &&& pr.0.0 == first + i
    &&& pr.1.wf()
    &&& pr.0.0 < crate::address::vpn_space()
    &&& crate::page_table_entry::entry_ppn_spec(m.entry_of(pr.0).0 as int) == pr.1.ppn_spec()
    &&& m.entry_of(pr.0).0 == pr.1.ppn_spec() * PPN_SHIFT as int + (Flags {
        valid: true,
        ..seg.flags
    }).bits_spec()
    &&& !fa1.is_free_ppn(pr.1.ppn_spec())
    &&& fa0.start_spec() <= pr.1.ppn_spec() < fa0.end_spec()
    &&& fa0.is_free_ppn(pr.1.ppn_spec())
    &&& !m.owns_ppn(pr.1.ppn_spec())
    &&& forall|o: int|
        0 <= o < PAGE_SIZE ==> (#[trigger] pr.1.data_spec()[o]) == framed_init_byte(
            seg,
            init_data,
            pr.0.0 as int,
            o,
        )
}

/// The byte a framed page holds after initialization: the overlapping
/// byte of the initialization data, or zero outside it.
pub open spec fn seg_page_byte(seg: Segment, data: Seq<u8>, vpn: int, o: int) -> u8 {
    let va = vpn * PAGE_SIZE as int + o;
    if seg.range.start.0 <= va < seg.range.end.0 {
        data[va - seg.range.start.0]
    } else {
        0u8
    }
}

/// Builds the page-sized buffer a framed page starts with: zero
/// everywhere except the byte range overlapping the initialization
/// data, handling a segment whose ends are not page-aligned.
fn build_page_data(seg: &Segment, data: &Vec<u8>, vpn: usize) -> (r: Vec<u8>)
    requires
        seg.range.start.0 <= seg.range.end.0,
        data@.len() == seg.range.end.0 - seg.range.start.0,
        vpn * PAGE_SIZE as int + PAGE_SIZE as int <= usize::MAX as int,
    ensures
        r@.len() == PAGE_SIZE,
        forall|o: int| 0 <= o < PAGE_SIZE ==> r@[o] == seg_page_byte(*seg, data@, vpn as int, o),
{
    let base = vpn * PAGE_SIZE;
    let mut r: Vec<u8> = Vec::new();
    let mut o: usize = 0;
    while o < PAGE_SIZE
        invariant
            r@.len() == o,
            o <= PAGE_SIZE,
            base == vpn * PAGE_SIZE as int,
            base + PAGE_SIZE <= usize::MAX,
            seg.range.start.0 <= seg.range.end.0,
            data@.len() == seg.range.end.0 - seg.range.start.0,
            forall|j: int| 0 <= j < o ==> r@[j] == seg_page_byte(*seg, data@, vpn as int, j),
        decreases PAGE_SIZE - o,
    {
        let va = base + o;
        if va >= seg.range.start.0 && va < seg.range.end.0 {
            r.push(data[va - seg.range.start.0]);
        } else {
            r.push(0u8);
        }
        o = o + 1;
    }
    r
}

impl Mapping {
    /// Maps a whole segment. A linear segment maps every covered page to
    /// the numerically identical physical page (the initialization data,
    /// if any, already lives in that physical memory, outside this
    /// model). A framed segment allocates one frame per covered page,
    /// fills it with the page's slice of the initialization data (zeroes
    /// where none overlaps), maps it, and returns the (page, frame)
    /// pairs for the caller's bookkeeping. Fails exactly when a frame
    /// runs short; pages outside the segment are untouched either way.
    #[verifier::rlimit(100)]
    pub fn map(
        &mut self,
        segment: &Segment,
        init_data: Option<&Vec<u8>>,
        fa: &mut FrameAllocator,
    ) -> (r: MemoryResult<Vec<(VirtualPageNumber, FrameTracker)>>)
        requires
            old(self).inv(),
            old(self).disjoint_from(*old(fa)),
            old(fa).wf(),
            segment.range.start.0 <= segment.range.end.0,
            segment.range.end.0 < usize::MAX - PAGE_SIZE,
            segment.end_page_spec() <= crate::address::vpn_space(),
            segment.map_type == MapType::Linear ==> segment.end_page_spec() <= MAX_PPN,
            forall|v: VirtualPageNumber|
                segment.first_page_spec() <= v.0 < segment.end_page_spec() ==> !(#[trigger] old(self).mapped(v)),
            match init_data {
                Some(d) => d@.len() == segment.range.end.0 - segment.range.start.0,
                None => true,
            },
        ensures
            final(self).inv(),
            final(self).disjoint_from(*final(fa)),
            final(fa).wf(),
            final(fa).start_spec() == old(fa).start_spec(),
            final(fa).end_spec() == old(fa).end_spec(),
            final(fa).range_count() <= old(fa).range_count(),
            forall|p: int| #[trigger] final(fa).is_free_ppn(p) ==> old(fa).is_free_ppn(p),
            final(self).root_spec() == old(self).root_spec(),
            forall|p: int|
                #[trigger] final(self).owns_ppn(p) ==> old(self).owns_ppn(p) || old(fa).is_free_ppn(p),
            forall|v: VirtualPageNumber|
                v.0 < crate::address::vpn_space() && !(segment.first_page_spec() <= v.0
                    < segment.end_page_spec()) ==> (#[trigger] final(self).mapped(v) == old(self).mapped(v)) && (old(self).mapped(v) ==> final(self).entry_of(v) == old(self).entry_of(v)),
            match r {
                Ok(pairs) => {
                    &&& forall|v: VirtualPageNumber|
                        segment.first_page_spec() <= v.0 < segment.end_page_spec()
                            ==> #[trigger] final(self).mapped(v)
                    &&& (segment.map_type == MapType::Linear ==> pairs@.len() == 0 && (forall|
                        v: VirtualPageNumber,
                    |
                        segment.first_page_spec() <= v.0 < segment.end_page_spec() ==> (
                        #[trigger] final(self).entry_of(v)).0 == v.0 * PPN_SHIFT as int + (Flags {
                            valid: true,
                            ..segment.flags
                        }).bits_spec()))
                    &&& (segment.map_type == MapType::Framed ==> pairs@.len()
                        == segment.end_page_spec() - segment.first_page_spec() && (forall|i: int|
                        0 <= i < pairs@.len() ==> framed_pair_ok(
                            *final(self),
                            *old(fa),
                            *final(fa),
                            *segment,
                            init_data,
                            segment.first_page_spec(),
                            i,
                            #[trigger] pairs@[i],
                        )) && (forall|i: int, j: int|
                        0 <= i < pairs@.len() && 0 <= j < pairs@.len() && i != j ==> (
                        #[trigger] pairs@[i].1.ppn_spec()) != (#[trigger] pairs@[j].1.ppn_spec())))
                },
                Err(_) => {
                    forall|p: int| !(#[trigger] final(fa).is_free_ppn(p))
                },
            },
    {
        let ghost pre = *self;
        let ghost fa0 = *old(fa);
        let pr = segment.page_range();
        let mut pairs: Vec<(VirtualPageNumber, FrameTracker)> = Vec::new();
        let mut p: usize = pr.start.0;
        proof {
            assert(pr.end.0 >= pr.start.0);
        }
        let is_linear = match segment.map_type {
            MapType::Linear => true,
            MapType::Framed => false,
        };
        while p < pr.end.0
            invariant
                pre == *old(self),
                fa0 == *old(fa),
                self.inv(),
                self.disjoint_from(*fa),
                fa.wf(),
                fa.start_spec() == fa0.start_spec(),
                fa.end_spec() == fa0.end_spec(),
                fa.range_count() <= fa0.range_count(),
                forall|q: int| #[trigger] fa.is_free_ppn(q) ==> fa0.is_free_ppn(q),
                self.root_spec() == pre.root_spec(),
                forall|p: int|
                    #[trigger] self.owns_ppn(p) ==> pre.owns_ppn(p) || fa0.is_free_ppn(p),
                pre.inv(),
                pr.start.0 == segment.first_page_spec(),
                pr.end.0 == segment.end_page_spec(),
                pr.start.0 <= p,
                p <= pr.end.0,
                segment.range.start.0 <= segment.range.end.0,
                segment.range.end.0 < usize::MAX - PAGE_SIZE,
                segment.end_page_spec() <= crate::address::vpn_space(),
                is_linear == (segment.map_type == MapType::Linear),
                is_linear ==> segment.end_page_spec() <= MAX_PPN,
                match init_data {
                    Some(d) => d@.len() == segment.range.end.0 - segment.range.start.0,
                    None => true,
                },
                // pages outside the segment are untouched
                forall|v: VirtualPageNumber|
                    v.0 < crate::address::vpn_space() && !(pr.start.0 <= v.0 < pr.end.0) ==> (
                    #[trigger] self.mapped(v) == pre.mapped(v)) && (pre.mapped(v)
                        ==> self.entry_of(v) == pre.entry_of(v)),
                // pages not yet reached are still unmapped
                forall|v: VirtualPageNumber|
                    p <= v.0 < pr.end.0 ==> !(#[trigger] self.mapped(v)),
                // pages already processed are mapped as promised
                forall|v: VirtualPageNumber|
                    pr.start.0 <= v.0 < p ==> #[trigger] self.mapped(v),
                is_linear ==> pairs@.len() == 0 && (forall|v: VirtualPageNumber|
                    pr.start.0 <= v.0 < p ==> (#[trigger] self.entry_of(v)).0 == v.0
                        * PPN_SHIFT as int + (Flags { valid: true, ..segment.flags }).bits_spec()),
                !is_linear ==> pairs@.len() == p - pr.start.0 && (forall|i: int|
                    0 <= i < pairs@.len() ==> framed_pair_ok(
                        *self,
                        fa0,
                        *fa,
                        *segment,
                        init_data,
                        pr.start.0 as int,
                        i,
                        #[trigger] pairs@[i],
                    )) && (forall|i: int, j: int|
                    0 <= i < pairs@.len() && 0 <= j < pairs@.len() && i != j ==> (
                    #[trigger] pairs@[i].1.ppn_spec()) != (#[trigger] pairs@[j].1.ppn_spec())),
            decreases pr.end.0 - p,
        {
            let vpn = VirtualPageNumber(p);
            let ghost before = *self;
            let ghost fabefore = *fa;
            let ghost pairs0 = pairs@;
            if is_linear {
                match self.map_one(vpn, VirtualPageNumber(p).to_physical(), segment.flags, fa) {
                    Ok(_) => {},
                    Err(e) => {
                        proof {
                            lemma_map_outside_unchanged(pre, before, *self, *segment, vpn);
                        }
                        return Err(e);
                    },
                }
            } else {
                let mut frame = match fa.allocate() {
                    Ok(f) => f,
                    Err(e) => {
                        return Err(e);
                    },
                };
                match init_data {
                    Some(d) => {
                        if d.len() > 0 {
                            let buf = build_page_data(segment, d, p);
                            frame.write_page(&buf);
                        } else {
                            proof {
                                assert(segment.range.start.0 == segment.range.end.0);
                            }
                        }
                    },
                    None => {},
                }
                let fppn = frame.page_number();
                match self.map_one(vpn, fppn, segment.flags, fa) {
                    Ok(_) => {},
                    Err(e) => {
                        proof {
                            lemma_map_outside_unchanged(pre, before, *self, *segment, vpn);
                        }
                        return Err(e);
                    },
                }
                proof {
                    // a zero-length data buffer initializes like no data
                    assert(forall|o: int|
                        0 <= o < PAGE_SIZE ==> (#[trigger] frame.data_spec()[o]) == (
                        match init_data {
                            Some(d) => seg_page_byte(*segment, d@, vpn.0 as int, o),
                            None => 0u8,
                        })) by {
                        match init_data {
                            Some(d) => {
                                if d@.len() == 0 {
                                    assert forall|o: int| 0 <= o < PAGE_SIZE implies seg_page_byte(
                                        *segment,
                                        d@,
                                        vpn.0 as int,
                                        o,
                                    ) == 0u8 by {
                                        assert(segment.range.start.0 == segment.range.end.0);
                                    }
                                }
                            },
                            None => {},
                        }
                    }
                }
                pairs.push((vpn, frame));
            }
            p = p + 1;
            proof {
                assert forall|p2: int| #[trigger] self.owns_ppn(p2) implies pre.owns_ppn(p2)
                    || fa0.is_free_ppn(p2) by {
                    if !before.owns_ppn(p2) && !fabefore.is_free_ppn(p2) {
                    }
                }
                lemma_map_outside_unchanged(pre, before, *self, *segment, vpn);
                assert(forall|v: VirtualPageNumber|
                    v.0 < crate::address::vpn_space() && !(pr.start.0 <= v.0 < pr.end.0) ==> (
                    #[trigger] self.mapped(v) == pre.mapped(v)) && (pre.mapped(v)
                        ==> self.entry_of(v) == pre.entry_of(v)));
                assert forall|v: VirtualPageNumber|
                    pr.start.0 <= v.0 < p implies #[trigger] self.mapped(v) by {
                    if v.0 < p - 1 {
                        assert(before.mapped(v));
                        assert(v != vpn);
                    }
                }
                if is_linear {
                    assert forall|v: VirtualPageNumber|
                        pr.start.0 <= v.0 < p implies (#[trigger] self.entry_of(v)).0 == v.0
                        * PPN_SHIFT as int + (Flags {
                        valid: true,
                        ..segment.flags
                    }).bits_spec() by {
                        if v.0 < p - 1 {
                            assert(before.mapped(v) && v != vpn);
                            assert(self.mapped(v) == before.mapped(v));
                            assert(self.entry_of(v) == before.entry_of(v));
                        }
                    }
                } else {
                    assert forall|i: int|
                        0 <= i < pairs@.len() implies framed_pair_ok(
                        *self,
                        fa0,
                        *fa,
                        *segment,
                        init_data,
                        pr.start.0 as int,
                        i,
                        #[trigger] pairs@[i],
                    ) by {
                        if i < pairs@.len() - 1 {
                            assert(pairs@[i] == pairs0[i]);
                            assert(framed_pair_ok(
                                before,
                                fa0,
                                fabefore,
                                *segment,
                                init_data,
                                pr.start.0 as int,
                                i,
                                pairs0[i],
                            ));
                            let pv = pairs0[i].0;
                            assert(before.mapped(pv) && pv != vpn);
                            assert(self.mapped(pv) == before.mapped(pv));
                            assert(self.entry_of(pv) == before.entry_of(pv));
                            assert(!fabefore.is_free_ppn(pairs0[i].1.ppn_spec()));
                            assert(fa0.is_free_ppn(pairs0[i].1.ppn_spec()));
                        } else {
                            assert(pairs@[i].0 == vpn);
                        }
                    }
                    // the fresh frame was still free when the older ones
                    // were already taken
                    assert forall|i: int, j: int|
                        0 <= i < pairs@.len() && 0 <= j < pairs@.len() && i != j implies (
                    #[trigger] pairs@[i].1.ppn_spec()) != (#[trigger] pairs@[j].1.ppn_spec()) by {
                        let newi = pairs@.len() - 1;
                        if i == newi || j == newi {
                            let o: int = if i == newi {
                                j
                            } else {
                                i
                            };
                            assert(pairs@[o] == pairs0[o]);
                            assert(framed_pair_ok(
                                before,
                                fa0,
                                fabefore,
                                *segment,
                                init_data,
                                pr.start.0 as int,
                                o,
                                pairs0[o],
                            ));
                            assert(!fabefore.is_free_ppn(pairs0[o].1.ppn_spec()));
                            assert(fabefore.is_free_ppn(pairs@[newi].1.ppn_spec()));
                            assert(fa0.is_free_ppn(pairs@[newi].1.ppn_spec()));
                        } else {
                            assert(pairs@[i] == pairs0[i] && pairs@[j] == pairs0[j]);
                        }
                    }
                }
            }
        }
        proof {
            assert(p >= pr.end.0);
            if !is_linear {
                assert(pairs@.len() == pr.end.0 - pr.start.0);
                assert(pairs@.len() == segment.end_page_spec() - segment.first_page_spec());
            }
        }
        Ok(pairs)
    }

    /// Unmaps every page of a segment; every covered page must be
    /// mapped. Pages outside the segment keep their entries.
    pub fn unmap(&mut self, segment: &Segment)
        requires
            old(self).inv(),
            segment.range.start.0 <= segment.range.end.0,
            segment.end_page_spec() <= crate::address::vpn_space(),
            forall|v: VirtualPageNumber|
                segment.first_page_spec() <= v.0 < segment.end_page_spec() ==> #[trigger] old(self).mapped(v),
        ensures
            final(self).inv(),
            final(self).root_spec() == old(self).root_spec(),
            forall|p: int| #[trigger] final(self).owns_ppn(p) == old(self).owns_ppn(p),
            forall|v: VirtualPageNumber|
                segment.first_page_spec() <= v.0 < segment.end_page_spec() ==> !(#[trigger] final(self).mapped(v)),
            forall|v: VirtualPageNumber|
                v.0 < crate::address::vpn_space() && !(segment.first_page_spec() <= v.0
                    < segment.end_page_spec()) ==> (#[trigger] final(self).mapped(v) == old(self).mapped(v)) && (old(self).mapped(v) ==> final(self).entry_of(v) == old(self).entry_of(v)),
    {
        let ghost pre = *self;
        let pr = segment.page_range();
        let mut p: usize = pr.start.0;
        while p < pr.end.0
            invariant
                pre == *old(self),
                self.inv(),
                self.root_spec() == pre.root_spec(),
                forall|p: int| #[trigger] self.owns_ppn(p) == pre.owns_ppn(p),
                pr.start.0 == segment.first_page_spec(),
                pr.end.0 == segment.end_page_spec(),
                pr.start.0 <= p,
                p <= pr.end.0,
                segment.end_page_spec() <= crate::address::vpn_space(),
                forall|v: VirtualPageNumber|
                    p <= v.0 < pr.end.0 ==> #[trigger] self.mapped(v),
                forall|v: VirtualPageNumber|
                    pr.start.0 <= v.0 < p ==> !(#[trigger] self.mapped(v)),
                forall|v: VirtualPageNumber|
                    v.0 < crate::address::vpn_space() && !(pr.start.0 <= v.0 < pr.end.0) ==> (
                    #[trigger] self.mapped(v) == pre.mapped(v)) && (pre.mapped(v)
                        ==> self.entry_of(v) == pre.entry_of(v)),
            decreases pr.end.0 - p,
        {
            let vpn = VirtualPageNumber(p);
            let ghost before = *self;
            self.unmap_one(vpn);
            p = p + 1;
            proof {
                assert forall|v: VirtualPageNumber|
                    pr.start.0 <= v.0 < p implies !(#[trigger] self.mapped(v)) by {
                    if v.0 < p - 1 {
                        assert(!before.mapped(v));
                        assert(v != vpn);
                    }
                }
            }
        }
    }
}


/// One page mapped inside a segment leaves every page outside the
/// segment as the segment operation found it.
proof fn lemma_map_outside_unchanged(
    pre: Mapping,
    before: Mapping,
    after: Mapping,
    segment: Segment,
    vpn: VirtualPageNumber,
)
    requires
        segment.first_page_spec() <= vpn.0 < segment.end_page_spec(),
        forall|v: VirtualPageNumber|
            v.0 < crate::address::vpn_space() && !(segment.first_page_spec() <= v.0
                < segment.end_page_spec()) ==> (#[trigger] before.mapped(v) == pre.mapped(v)) && (
            pre.mapped(v) ==> before.entry_of(v) == pre.entry_of(v)),
        forall|v: VirtualPageNumber|
            v.0 < crate::address::vpn_space() && v != vpn ==> (#[trigger] after.mapped(v)
                == before.mapped(v)) && (before.path_exists(v) && before.mapped(v)
                ==> after.entry_of(v) == before.entry_of(v)),
    ensures
        forall|v: VirtualPageNumber|
            v.0 < crate::address::vpn_space() && !(segment.first_page_spec() <= v.0
                < segment.end_page_spec()) ==> (#[trigger] after.mapped(v) == pre.mapped(v)) && (
            pre.mapped(v) ==> after.entry_of(v) == pre.entry_of(v)),
{
    assert forall|v: VirtualPageNumber|
        v.0 < crate::address::vpn_space() && !(segment.first_page_spec() <= v.0
            < segment.end_page_spec()) implies (#[trigger] after.mapped(v) == pre.mapped(v)) && (
    pre.mapped(v) ==> after.entry_of(v) == pre.entry_of(v)) by {
        assert(v != vpn);
        assert(after.mapped(v) == before.mapped(v));
        assert(before.mapped(v) == pre.mapped(v));
        if pre.mapped(v) {
            assert(before.mapped(v));
            assert(before.path_exists(v));
            assert(after.entry_of(v) == before.entry_of(v));
            assert(before.entry_of(v) == pre.entry_of(v));
        }
    }
}

} // verus!
