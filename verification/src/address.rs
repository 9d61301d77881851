//! Address and page-number types.
//!
//! Physical and virtual addresses, and their page numbers, are distinct
//! wrapper types: the compiler keeps them apart, and every conversion is an
//! explicit, documented operation. The governing invariant is
//! `address == page_number * PAGE_SIZE + offset` with `0 <= offset < PAGE_SIZE`.

use vstd::prelude::*;

verus! {

/// Size of one page (and of one physical frame) in bytes.
pub const PAGE_SIZE: usize = 4096;

/// Number of page-table entries held by one page-sized page table
/// (each entry is 8 bytes wide).
pub const PAGE_ENTRY_COUNT: usize = 512;

/// A physical (machine) address.
#[derive(Clone, Copy, Debug, PartialEq, Eq, Structural, Hash)]
pub struct PhysicalAddress(pub usize);

/// The number of a physical page: physical address divided by `PAGE_SIZE`.
#[derive(Clone, Copy, Debug, PartialEq, Eq, Structural, Hash)]
pub struct PhysicalPageNumber(pub usize);

/// A virtual address, as used by mapped code.
#[derive(Clone, Copy, Debug, PartialEq, Eq, Structural, Hash)]
pub struct VirtualAddress(pub usize);

/// The number of a virtual page: virtual address divided by `PAGE_SIZE`.
#[derive(Clone, Copy, Debug, PartialEq, Eq, Structural, Hash)]
pub struct VirtualPageNumber(pub usize);

impl PhysicalAddress {
    /// Offset of this address within its page.
    pub fn page_offset(&self) -> (r: usize)
        ensures
            r == self.0 as int % PAGE_SIZE as int,
    {
        self.0 % PAGE_SIZE
    }
}

impl PhysicalPageNumber {
    /// The page containing `addr`: conversion rounding down.
    pub fn floor(addr: PhysicalAddress) -> (r: Self)
        ensures
            r.0 == addr.0 as int / PAGE_SIZE as int,
    {
        Self(addr.0 / PAGE_SIZE)
    }

    /// The first page boundary at or above `addr`: conversion rounding up.
    pub fn ceil(addr: PhysicalAddress) -> (r: Self)
        ensures
            r.0 == addr.0 as int / PAGE_SIZE as int
                + if addr.0 as int % PAGE_SIZE as int != 0 { 1int } else { 0int },
    {
        Self(addr.0 / PAGE_SIZE + if addr.0 % PAGE_SIZE != 0 { 1 } else { 0 })
    }

    /// The first address of this page.
    pub fn address(self) -> (r: PhysicalAddress)
        requires
            self.0 * PAGE_SIZE as int <= usize::MAX as int,
        ensures
            r.0 == self.0 * PAGE_SIZE as int,
    {
        PhysicalAddress(self.0 * PAGE_SIZE)
    }
}

impl VirtualAddress {
    /// Offset of this address within its page.
    pub fn page_offset(&self) -> (r: usize)
        ensures
            r == self.0 as int % PAGE_SIZE as int,
    {
        self.0 % PAGE_SIZE
    }
}

impl VirtualPageNumber {
    /// The page containing `addr`: conversion rounding down.
    pub fn floor(addr: VirtualAddress) -> (r: Self)
        ensures
            r.0 == addr.0 as int / PAGE_SIZE as int,
    {
        Self(addr.0 / PAGE_SIZE)
    }

    /// The first page boundary at or above `addr`: conversion rounding up.
    pub fn ceil(addr: VirtualAddress) -> (r: Self)
        ensures
            r.0 == addr.0 as int / PAGE_SIZE as int
                + if addr.0 as int % PAGE_SIZE as int != 0 { 1int } else { 0int },
    {
        Self(addr.0 / PAGE_SIZE + if addr.0 % PAGE_SIZE != 0 { 1 } else { 0 })
    }

    /// The first address of this page.
    pub fn address(self) -> (r: VirtualAddress)
        requires
            self.0 * PAGE_SIZE as int <= usize::MAX as int,
        ensures
            r.0 == self.0 * PAGE_SIZE as int,
    {
        VirtualAddress(self.0 * PAGE_SIZE)
    }

    /// The physical page with the same number: the conversion used by
    /// linear (reflexive) segments, where virtual and physical pages coincide.
    pub fn to_physical(self) -> (r: PhysicalPageNumber)
        ensures
            r.0 == self.0,
    {
        PhysicalPageNumber(self.0)
    }

    /// Index of this page within the table at the given level of the
    /// three-level walk: level 0 selects the root entry.
    pub open spec fn level_spec(self, level: int) -> int {
        if level == 0 {
            (self.0 as int / (PAGE_ENTRY_COUNT as int * PAGE_ENTRY_COUNT as int))
                % PAGE_ENTRY_COUNT as int
        } else if level == 1 {
            (self.0 as int / PAGE_ENTRY_COUNT as int) % PAGE_ENTRY_COUNT as int
        } else {
            self.0 as int % PAGE_ENTRY_COUNT as int
        }
    }

    /// Decomposes the page number into its three fixed-width table indices,
    /// highest level first.
    pub fn levels(&self) -> (r: [usize; 3])
        ensures
            r[0] == self.level_spec(0),
            r[1] == self.level_spec(1),
            r[2] == self.level_spec(2),
            forall|i: int| 0 <= i < 3 ==> 0 <= #[trigger] r[i] < PAGE_ENTRY_COUNT as int,
    {
        [
            (self.0 / (PAGE_ENTRY_COUNT * PAGE_ENTRY_COUNT)) % PAGE_ENTRY_COUNT,
            (self.0 / PAGE_ENTRY_COUNT) % PAGE_ENTRY_COUNT,
            self.0 % PAGE_ENTRY_COUNT,
        ]
    }
}

/// Page numbers below this bound decompose injectively into three
/// table indices; it is the size of the virtual page-number space.
pub open spec fn vpn_space() -> int {
    PAGE_ENTRY_COUNT as int * PAGE_ENTRY_COUNT as int * PAGE_ENTRY_COUNT as int
}

/// Two in-range virtual page numbers with the same three indices are equal:
/// the decomposition loses nothing.
pub proof fn lemma_levels_injective(a: VirtualPageNumber, b: VirtualPageNumber)
    requires
        a.0 < vpn_space(),
        b.0 < vpn_space(),
        a.level_spec(0) == b.level_spec(0),
        a.level_spec(1) == b.level_spec(1),
        a.level_spec(2) == b.level_spec(2),
    ensures
        a == b,
{
    let e = PAGE_ENTRY_COUNT as int;
    let x = a.0 as int;
    let y = b.0 as int;
    assert(x == (x / (e * e)) % e * (e * e) + (x / e) % e * e + x % e) by (nonlinear_arith)
        requires x < e * e * e && x >= 0 && e == 512;
    assert(y == (y / (e * e)) % e * (e * e) + (y / e) % e * e + y % e) by (nonlinear_arith)
        requires y < e * e * e && y >= 0 && e == 512;
}

} // verus!
