//! Page-table entries and their permission flags.
//!
//! The bit layout is a hardware contract: an entry packs the physical
//! page number above ten low bits of which eight are flags, at fixed
//! positions — valid(0), readable(1), writable(2), executable(3),
//! user(4), reserved(5), accessed(6), dirty(7).

use vstd::prelude::*;
use crate::address::PhysicalPageNumber;

verus! {

/// Weight of the valid bit.
pub const FLAG_VALID: usize = 1;

/// Weight of the readable bit.
pub const FLAG_READABLE: usize = 2;

/// Weight of the writable bit.
pub const FLAG_WRITABLE: usize = 4;

/// Weight of the executable bit.
pub const FLAG_EXECUTABLE: usize = 8;

/// Weight of the user bit.
pub const FLAG_USER: usize = 16;

/// Weight of the accessed bit.
pub const FLAG_ACCESSED: usize = 64;

/// Weight of the dirty bit.
pub const FLAG_DIRTY: usize = 128;

/// Number of bits below the physical page number field.
pub const PPN_SHIFT: usize = 1024;

/// Largest physical page number an entry can carry without the packing
/// overflowing the entry word on any supported machine.
pub const MAX_PPN: usize = 0x10_0000;

/// Permission and status flags of one page-table entry.
#[derive(Clone, Copy, Debug, PartialEq, Eq, Structural)]
pub struct Flags {
    pub valid: bool,
    pub readable: bool,
    pub writable: bool,
    pub executable: bool,
    pub user: bool,
    pub accessed: bool,
    pub dirty: bool,
}

impl Flags {
    /// The packed eight-bit value of the flags, each at its hardware
    /// position.
    pub open spec fn bits_spec(self) -> int {
        (if self.valid { FLAG_VALID as int } else { 0 }) + (if self.readable {
            FLAG_READABLE as int
        } else {
            0
        }) + (if self.writable { FLAG_WRITABLE as int } else { 0 }) + (if self.executable {
            FLAG_EXECUTABLE as int
        } else {
            0
        }) + (if self.user { FLAG_USER as int } else { 0 }) + (if self.accessed {
            FLAG_ACCESSED as int
        } else {
            0
        }) + (if self.dirty { FLAG_DIRTY as int } else { 0 })
    }

    /// All flags cleared.
    pub fn empty() -> (r: Flags)
        ensures
            r == (Flags {
                valid: false,
                readable: false,
                writable: false,
                executable: false,
                user: false,
                accessed: false,
                dirty: false,
            }),
    {
        Flags {
            valid: false,
            readable: false,
            writable: false,
            executable: false,
            user: false,
            accessed: false,
            dirty: false,
        }
    }

    /// Read, write and execute permissions chosen freely, everything else
    /// cleared.
    pub fn rwx(readable: bool, writable: bool, executable: bool) -> (r: Flags)
        ensures
            r == (Flags {
                valid: false,
                readable,
                writable,
                executable,
                user: false,
                accessed: false,
                dirty: false,
            }),
    {
        Flags {
            valid: false,
            readable,
            writable,
            executable,
            user: false,
            accessed: false,
            dirty: false,
        }
    }

    /// The same flags with the user bit as given.
    pub fn with_user(self, user: bool) -> (r: Flags)
        ensures
            r == (Flags { user, ..self }),
    {
        Flags { user, ..self }
    }

    /// The same flags with the accessed and dirty bits as given.
    pub fn with_accessed_dirty(self, accessed: bool, dirty: bool) -> (r: Flags)
        ensures
            r == (Flags { accessed, dirty, ..self }),
    {
        Flags { accessed, dirty, ..self }
    }

    /// The packed value, as stored in an entry.
    pub fn bits(self) -> (r: usize)
        ensures
            r == self.bits_spec(),
            r < PPN_SHIFT,
    {
        let mut r: usize = 0;
        if self.valid {
            r = r + FLAG_VALID;
        }
        if self.readable {
            r = r + FLAG_READABLE;
        }
        if self.writable {
            r = r + FLAG_WRITABLE;
        }
        if self.executable {
            r = r + FLAG_EXECUTABLE;
        }
        if self.user {
            r = r + FLAG_USER;
        }
        if self.accessed {
            r = r + FLAG_ACCESSED;
        }
        if self.dirty {
            r = r + FLAG_DIRTY;
        }
        r
    }
}

/// One page-table entry: the packed word the hardware walker reads.
#[derive(Clone, Copy, Debug, PartialEq, Eq, Structural)]
pub struct PageTableEntry(pub usize);

/// The physical page number packed in an entry word.
pub open spec fn entry_ppn_spec(bits: int) -> int {
    bits / PPN_SHIFT as int
}

/// Whether the flag of the given weight is set in an entry word.
pub open spec fn entry_flag_spec(bits: int, weight: int) -> bool {
    bits / weight % 2 == 1
}

impl PageTableEntry {
    /// The all-zero entry: not valid, pointing nowhere.
    pub fn empty() -> (r: Self)
        ensures
            r.0 == 0,
    {
        PageTableEntry(0)
    }

    /// Packs a page number and flags into an entry; the valid bit is
    /// always set, so a packed entry is never the empty word.
    pub fn new(ppn: PhysicalPageNumber, flags: Flags) -> (r: Self)
        requires
            ppn.0 < MAX_PPN,
        ensures
            r.0 == ppn.0 * PPN_SHIFT as int + (Flags { valid: true, ..flags }).bits_spec(),
            entry_ppn_spec(r.0 as int) == ppn.0,
            entry_flag_spec(r.0 as int, FLAG_VALID as int),
            entry_flag_spec(r.0 as int, FLAG_ACCESSED as int) == flags.accessed,
            entry_flag_spec(r.0 as int, FLAG_DIRTY as int) == flags.dirty,
            r.0 != 0,
    {
        let vflags = Flags { valid: true, ..flags };
        let fb = vflags.bits();
        let r = PageTableEntry(ppn.0 * PPN_SHIFT + fb);
        proof {
            lemma_entry_fields(ppn.0 as int, fb as int);
            assert(fb % 2 == 1);
        }
        r
    }

    /// Whether the entry is the empty word.
    pub fn is_empty(&self) -> (r: bool)
        ensures
            r == (self.0 == 0),
    {
        self.0 == 0
    }

    /// The packed physical page number.
    pub fn page_number(&self) -> (r: PhysicalPageNumber)
        ensures
            r.0 == entry_ppn_spec(self.0 as int),
    {
        PhysicalPageNumber(self.0 / PPN_SHIFT)
    }

    /// Whether the valid bit is set.
    pub fn valid(&self) -> (r: bool)
        ensures
            r == entry_flag_spec(self.0 as int, FLAG_VALID as int),
    {
        self.0 / FLAG_VALID % 2 == 1
    }

    /// The accessed and dirty bits, in that order: what a replacement
    /// policy reads.
    pub fn rw_flags(&self) -> (r: (bool, bool))
        ensures
            r.0 == entry_flag_spec(self.0 as int, FLAG_ACCESSED as int),
            r.1 == entry_flag_spec(self.0 as int, FLAG_DIRTY as int),
    {
        (self.0 / FLAG_ACCESSED % 2 == 1, self.0 / FLAG_DIRTY % 2 == 1)
    }
}

/// Unpacking a packed entry recovers the page number and the status
/// bits.
proof fn lemma_entry_fields(p: int, fb: int)
    requires
        0 <= p,
        0 <= fb < PPN_SHIFT,
    ensures
        (p * PPN_SHIFT + fb) / PPN_SHIFT as int == p,
        (p * PPN_SHIFT + fb) / FLAG_ACCESSED as int % 2 == fb / FLAG_ACCESSED as int % 2,
        (p * PPN_SHIFT + fb) / FLAG_DIRTY as int % 2 == fb / FLAG_DIRTY as int % 2,
        (p * PPN_SHIFT + fb) / FLAG_VALID as int % 2 == fb % 2,
{
    assert((p * 1024 + fb) / 1024 == p) by (nonlinear_arith)
        requires
            0 <= p,
            0 <= fb < 1024,
    ;
    assert((p * 1024 + fb) / 64 % 2 == fb / 64 % 2) by (nonlinear_arith)
        requires
            0 <= p,
            0 <= fb < 1024,
    ;
    assert((p * 1024 + fb) / 128 % 2 == fb / 128 % 2) by (nonlinear_arith)
        requires
            0 <= p,
            0 <= fb < 1024,
    ;
    assert((p * 1024 + fb) / 1 % 2 == fb % 2) by (nonlinear_arith)
        requires
            0 <= p,
            0 <= fb < 1024,
    ;
}

} // verus!
