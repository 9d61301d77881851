//! Interfaces of the pluggable allocation strategies.
//!
//! Unit allocators hand out one indivisible unit per call; vector (range)
//! allocators hand out a run of `size` units under an `align` constraint.
//! The behaviour of each operation is fixed per implementation through the
//! spec functions of the trait: every implementor defines them exactly, so
//! a caller that knows the concrete type knows the full contract.

use vstd::prelude::*;

verus! {

/// A unit allocator: allocates and reclaims one unit at a time.
///
/// Implementations intended for use before a general-purpose heap exists
/// must not allocate dynamic memory in `allocate` or `dealloc`.
pub trait Allocator: Sized {
    /// Internal consistency of the allocator's state.
    spec fn wf(&self) -> bool;

    /// Inputs on which `init` is defined.
    spec fn init_ok(pre: Self, capacity: nat) -> bool;

    /// Exact relation between the state before and after `init`.
    spec fn init_rel(pre: Self, post: Self, capacity: nat) -> bool;

    /// Exact relation between the states and result of `allocate`.
    spec fn alloc_rel(pre: Self, post: Self, r: Option<usize>) -> bool;

    /// Inputs on which `dealloc` is defined.
    spec fn dealloc_ok(pre: Self, index: nat) -> bool;

    /// Exact relation between the states of `dealloc`.
    spec fn dealloc_rel(pre: Self, post: Self, index: nat) -> bool;

    /// (Re)initializes the allocator over the unit range `[0, capacity)`.
    fn init(&mut self, capacity: usize)
        requires
            Self::init_ok(*old(self), capacity as nat),
        ensures
            final(self).wf(),
            Self::init_rel(*old(self), *final(self), capacity as nat),
    ;

    /// Allocates one unit, returning its index, or `None` when no unit
    /// is free.
    fn allocate(&mut self) -> (r: Option<usize>)
        requires
            old(self).wf(),
        ensures
            final(self).wf(),
            Self::alloc_rel(*old(self), *final(self), r),
    ;

    /// Reclaims the unit with the given index.
    fn dealloc(&mut self, index: usize)
        requires
            old(self).wf(),
            Self::dealloc_ok(*old(self), index as nat),
        ensures
            final(self).wf(),
            Self::dealloc_rel(*old(self), *final(self), index as nat),
    ;
}

/// A range allocator: fixed capacity, allocates and reclaims a contiguous
/// run of units with an alignment requirement. Indices and sizes count
/// units from the start of the managed space.
pub trait VectorAllocator: Sized {
    /// Internal consistency of the allocator's state.
    spec fn wf(&self) -> bool;

    /// Inputs on which `new` is defined.
    spec fn new_ok(capacity: nat) -> bool;

    /// Exact relation between `capacity` and the state `new` builds.
    spec fn new_rel(post: Self, capacity: nat) -> bool;

    /// Inputs on which `allocate` is defined.
    spec fn alloc_ok(pre: Self, size: nat, align: nat) -> bool;

    /// Exact relation between the states and result of `allocate`.
    spec fn alloc_rel(pre: Self, post: Self, size: nat, align: nat, r: Option<usize>) -> bool;

    /// Inputs on which `dealloc` is defined.
    spec fn dealloc_ok(pre: Self, start: nat, size: nat, align: nat) -> bool;

    /// Exact relation between the states of `dealloc`.
    spec fn dealloc_rel(pre: Self, post: Self, start: nat, size: nat, align: nat) -> bool;

    /// Creates an allocator managing the unit range `[0, capacity)`.
    fn new(capacity: usize) -> (r: Self)
        requires
            Self::new_ok(capacity as nat),
        ensures
            r.wf(),
            Self::new_rel(r, capacity as nat),
    ;

    /// Allocates `size` contiguous units whose start index is a multiple
    /// of `align`, or returns `None` when no free block satisfies both.
    fn allocate(&mut self, size: usize, align: usize) -> (r: Option<usize>)
        requires
            old(self).wf(),
            Self::alloc_ok(*old(self), size as nat, align as nat),
        ensures
            final(self).wf(),
            Self::alloc_rel(*old(self), *final(self), size as nat, align as nat, r),
    ;

    /// Reclaims a previously allocated run of `size` units at `start`.
    fn dealloc(&mut self, start: usize, size: usize, align: usize)
        requires
            old(self).wf(),
            Self::dealloc_ok(*old(self), start as nat, size as nat, align as nat),
        ensures
            final(self).wf(),
            Self::dealloc_rel(*old(self), *final(self), start as nat, size as nat, align as nat),
    ;
}

} // verus!
