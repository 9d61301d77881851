//! A unit allocator backed by a stack of free index ranges.
//!
//! The stack lives in a fixed-capacity array, so no operation allocates
//! dynamic memory: the allocator is usable before a heap exists. `dealloc`
//! pushes a single-unit range and deliberately does not merge it with an
//! adjacent free range; the resulting fragmentation is the accepted cost
//! of this structure.

use vstd::prelude::*;
use crate::allocator::Allocator;

verus! {

/// Upper bound on the number of free ranges the stack can hold, and with
/// it on the number of units the allocator can manage.
pub const MAX_PAGES: usize = 16384;

/// A half-open interval `[start, end)` of free unit indices.
#[derive(Clone, Copy, Debug, PartialEq, Eq, Structural)]
pub struct Section(pub usize, pub usize);

/// Unit allocator that keeps free space as a stack of disjoint ranges.
pub struct StackedAllocator {
    stack: [Section; MAX_PAGES],
    top: usize,
}

impl StackedAllocator {
    /// The live portion of the stack, bottom first, as `(start, end)` pairs.
    pub closed spec fn view_spec(self) -> Seq<(int, int)> {
        Seq::new(self.top as nat, |i: int| (self.stack[i].0 as int, self.stack[i].1 as int))
    }

    /// An allocator not yet initialized: the stack is empty, so every
    /// `alloc` reports exhaustion until `init` runs.
    pub fn empty() -> (r: Self)
        ensures
            r.wf(),
            r.view_spec() == Seq::<(int, int)>::empty(),
    {
        let r = StackedAllocator { stack: [Section(0, 0); MAX_PAGES], top: 0 };
        proof {
            assert(r.view_spec() =~= Seq::<(int, int)>::empty());
        }
        r
    }
}

impl Allocator for StackedAllocator {
    /// Every stacked range is within bounds and holds at least one unit.
    open spec fn wf(&self) -> bool {
        &&& self.view_spec().len() <= MAX_PAGES
        &&& forall|i: int|
            0 <= i < self.view_spec().len() ==> (#[trigger] self.view_spec()[i]).0
                < self.view_spec()[i].1
    }

    /// Initialization needs a nonempty range and one stack slot.
    open spec fn init_ok(pre: Self, capacity: nat) -> bool {
        capacity >= 1
    }

    /// After `init` the stack holds exactly the range `[0, capacity)`.
    open spec fn init_rel(pre: Self, post: Self, capacity: nat) -> bool {
        post.view_spec() =~= seq![(0int, capacity as int)]
    }

    /// `alloc` pops the top range and returns its first unit; a remainder
    /// of more than zero units is pushed back.
    open spec fn alloc_rel(pre: Self, post: Self, r: Option<usize>) -> bool {
        if pre.view_spec().len() == 0 {
            r is None && post.view_spec() =~= pre.view_spec()
        } else {
            let (s, e) = pre.view_spec().last();
            &&& r == Some(s as usize)
            &&& post.view_spec() =~= if e - s > 1 {
                pre.view_spec().drop_last().push((s + 1, e))
            } else {
                pre.view_spec().drop_last()
            }
        }
    }

    /// `dealloc` needs a free stack slot; keeping within it is the
    /// caller's responsibility.
    open spec fn dealloc_ok(pre: Self, index: nat) -> bool {
        pre.view_spec().len() < MAX_PAGES && index < usize::MAX
    }

    /// `dealloc` pushes the single-unit range `[index, index + 1)` and
    /// never merges it with an adjacent free range.
    open spec fn dealloc_rel(pre: Self, post: Self, index: nat) -> bool {
        post.view_spec() =~= pre.view_spec().push((index as int, index as int + 1))
    }

    fn init(&mut self, capacity: usize) {
        self.stack[0] = Section(0, capacity);
        self.top = 1;
        proof {
            assert(self.view_spec() =~= seq![(0int, capacity as int)]);
        }
    }

    fn allocate(&mut self) -> (r: Option<usize>) {
        if self.top > 0 {
            let ghost pre = *self;
            proof {
                assert(pre.view_spec()[pre.top - 1].0 < pre.view_spec()[pre.top - 1].1);
            }
            let st = self.stack[self.top - 1];
            self.top = self.top - 1;
            if st.1 - st.0 > 1 {
                self.stack[self.top] = Section(st.0 + 1, st.1);
                self.top = self.top + 1;
                proof {
                    assert(self.view_spec() =~= pre.view_spec().drop_last().push(
                        (st.0 + 1, st.1 as int),
                    ));
                }
            } else {
                proof {
                    assert(self.view_spec() =~= pre.view_spec().drop_last());
                }
            }
            Some(st.0)
        } else {
            None
        }
    }

    fn dealloc(&mut self, index: usize) {
        let ghost pre = *self;
        self.stack[self.top] = Section(index, index + 1);
        self.top = self.top + 1;
        proof {
            assert(self.view_spec() =~= pre.view_spec().push((index as int, index as int + 1)));
        }
    }
}

/// Freeing a unit and then allocating again returns exactly that unit and
/// restores the previous free stack: the freed single-unit range is kept
/// whole, never coalesced into a neighbour.
pub proof fn lemma_stacked_dealloc_then_alloc(
    s0: StackedAllocator,
    s1: StackedAllocator,
    s2: StackedAllocator,
    index: nat,
    r: Option<usize>,
)
    requires
        StackedAllocator::dealloc_rel(s0, s1, index),
        StackedAllocator::alloc_rel(s1, s2, r),
        index < usize::MAX,
    ensures
        r == Some(index as usize),
        s2.view_spec() =~= s0.view_spec(),
{
    assert(s1.view_spec().last() == (index as int, index as int + 1));
    assert(s1.view_spec().drop_last() =~= s0.view_spec());
}

/// Freeing two adjacent units leaves two separate single-unit ranges on
/// the stack: the allocator reports the fragmentation instead of a merged
/// two-unit range.
pub proof fn lemma_stacked_adjacent_frees_stay_split(
    s0: StackedAllocator,
    s1: StackedAllocator,
    s2: StackedAllocator,
    index: nat,
)
    requires
        StackedAllocator::dealloc_rel(s0, s1, index),
        StackedAllocator::dealloc_rel(s1, s2, index + 1),
    ensures
        s2.view_spec() =~= s0.view_spec()
            + seq![(index as int, index + 1 as int), (index + 1 as int, index + 2 as int)],
{
}

} // verus!
