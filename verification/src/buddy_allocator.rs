//! A range allocator built on the buddy system.
//!
//! Free space is kept as power-of-two blocks, one list per order `k`; a
//! block of order `k` holds `2^k` units and starts at an address divisible
//! by `2^k`. Allocation scans the orders from the requested one upward,
//! takes the first block that can be split down to an aligned sub-block,
//! and returns the unused halves to the lists; deallocation re-inserts a
//! block and greedily merges it with its free buddy, order by order, so
//! free space is always fully coalesced.

use vstd::prelude::*;
use vstd::arithmetic::power2::{
    lemma2_to64, lemma_pow2_pos, lemma_pow2_strictly_increases, lemma_pow2_unfold, pow2,
};
use crate::allocator::VectorAllocator;
use crate::linked_list::DynLinkedList;

verus! {

/// Number of free lists: blocks of orders `0` to `MAX_POW - 1` are
/// representable.
pub const MAX_POW: usize = 37;

/// Largest capacity the allocator accepts, in units. This is the
/// crate's machine limit, not a policy: the proofs add two block sizes
/// and an address, and those sums must fit the smallest machine word
/// the crate supports.
pub const MAX_CAPACITY: usize = 0x4000_0000;

/// The buddy of the order-`k` block at `a`: the other half of their
/// common order-`k + 1` parent.
pub open spec fn buddy_of(k: int, a: int) -> int {
    if a % (2 * pow2(k as nat) as int) == 0 {
        a + pow2(k as nat)
    } else {
        a - pow2(k as nat)
    }
}

/// The least `k` with `2^k >= n` (zero for `n <= 1`).
pub open spec fn min_pow_ge(n: int) -> int
    decreases n,
    when n >= 0
{
    if n <= 1 {
        0
    } else {
        min_pow_ge((n + 1) / 2) + 1
    }
}

proof fn lemma_min_pow_ge(n: int)
    requires
        0 <= n,
    ensures
        0 <= min_pow_ge(n),
        pow2(min_pow_ge(n) as nat) >= n,
        min_pow_ge(n) > 0 ==> pow2((min_pow_ge(n) - 1) as nat) < n,
        n <= MAX_CAPACITY ==> min_pow_ge(n) <= 30,
    decreases n,
{
    lemma2_to64();
    if n <= 1 {
    } else {
        lemma_min_pow_ge((n + 1) / 2);
        let k = min_pow_ge((n + 1) / 2);
        lemma_pow2_unfold((k + 1) as nat);
        // minimality: the power below the result stays under n
        assert(pow2(k as nat) < n) by {
            if k == 0 {
            } else {
                assert(pow2((k - 1) as nat) < (n + 1) / 2);
                lemma_pow2_unfold(k as nat);
                if pow2(k as nat) == n {
                    // then (n + 1) / 2 is exactly the lower power
                    assert((n + 1) / 2 == pow2((k - 1) as nat));
                    assert(false);
                }
            }
        }
        if n <= MAX_CAPACITY && k + 1 > 30 {
            assert(k == 30);
            assert(pow2(29) < (n + 1) / 2);
            assert(false);
        }
    }
}

/// The candidate sub-block at offset `off`: `off` order-`k` strides past
/// `a` land on a multiple of `align`.
pub open spec fn fit_at(a: int, off: int, k: int, align: int) -> bool {
    (a + off * pow2(k as nat)) % align == 0
}

/// Whether the free order-`j` block at `a` can yield an order-`k`
/// sub-block whose address is a multiple of `align`.
pub open spec fn can_fit(j: int, a: int, k: int, align: int) -> bool {
    j >= k && exists|off: int| 0 <= off <= j - k && #[trigger] fit_at(a, off, k, align)
}

/// Where a successful allocation came from: a free block of the lowest
/// order that admits an aligned sub-block, split at the least offset
/// that lands on the alignment.
pub open spec fn alloc_placement(pre: BuddyAllocator, size: int, align: int, rr: int) -> bool {
    let k = min_pow_ge(size);
    exists|j: int, a: int, off: int|
        #![trigger pre.has_block(j, a), fit_at(a, off, k, align)]
        {
            &&& pre.has_block(j, a)
            &&& k <= j
            &&& 0 <= off <= j - k
            &&& fit_at(a, off, k, align)
            &&& forall|o: int| 0 <= o < off ==> !fit_at(a, o, k, align)
            &&& rr == a + off * pow2(k as nat)
            &&& forall|j2: int, a2: int|
                k <= j2 < j && #[trigger] pre.has_block(j2, a2) ==> !can_fit(j2, a2, k, align)
        }
}

/// Range allocator keeping one list of free block start addresses per
/// block order.
pub struct BuddyAllocator {
    blocks: Vec<DynLinkedList<usize>>,
    capacity: Ghost<nat>,
}

impl BuddyAllocator {
    /// Free list of order `k`, as the sequence of block start addresses.
    pub closed spec fn list_at(self, k: int) -> Seq<usize> {
        self.blocks@[k]@
    }

    /// Number of units the allocator was built over.
    pub closed spec fn capacity_spec(self) -> int {
        self.capacity@ as int
    }

    /// A free block of order `k` starts at address `a`.
    pub open spec fn has_block(self, k: int, a: int) -> bool {
        &&& 0 <= k < MAX_POW
        &&& exists|i: int| 0 <= i < self.list_at(k).len() && #[trigger] self.list_at(k)[i] == a
    }

    /// Address `x` lies in some free block.
    pub open spec fn is_free_addr(self, x: int) -> bool {
        exists|k: int, i: int|
            0 <= k < MAX_POW && 0 <= i < self.list_at(k).len() && (#[trigger] self.list_at(
                k,
            )[i]) <= x < self.list_at(k)[i] + pow2(k as nat)
    }

    /// The set of all free unit addresses.
    pub open spec fn free_addrs(self) -> Set<int> {
        Set::new(|x: int| self.is_free_addr(x))
    }

    /// Internal consistency: every listed block is aligned to its order
    /// and within the capacity, blocks are pairwise disjoint, and no two
    /// buddies are both free — free space is always fully coalesced.
    pub closed spec fn inv(self) -> bool {
        &&& self.blocks@.len() == MAX_POW
        &&& self.capacity@ <= MAX_CAPACITY
        &&& forall|k: int, i: int|
            0 <= k < MAX_POW && 0 <= i < self.list_at(k).len() ==> (#[trigger] self.list_at(k)[i])
                as int % pow2(k as nat) as int == 0 && self.list_at(k)[i] + pow2(k as nat)
                <= self.capacity@
        &&& forall|k1: int, i1: int, k2: int, i2: int|
            0 <= k1 < MAX_POW && 0 <= i1 < self.list_at(k1).len() && 0 <= k2 < MAX_POW && 0 <= i2
                < self.list_at(k2).len() && (k1 != k2 || i1 != i2) ==> ((#[trigger] self.list_at(
                k1,
            )[i1]) + pow2(k1 as nat) <= (#[trigger] self.list_at(k2)[i2]) || self.list_at(k2)[i2]
                + pow2(k2 as nat) <= self.list_at(k1)[i1])
        &&& forall|k: int, i1: int, i2: int|
            0 <= k < MAX_POW && 0 <= i1 < self.list_at(k).len() && 0 <= i2 < self.list_at(
                k,
            ).len() ==> (#[trigger] self.list_at(k)[i1]) as int != buddy_of(
                k,
                (#[trigger] self.list_at(k)[i2]) as int,
            )
    }

    /// Appends one free block to its order's list and nothing else.
    fn push_block(&mut self, k: usize, addr: usize)
        requires
            old(self).blocks@.len() == MAX_POW,
            k < MAX_POW,
        ensures
            final(self).blocks@.len() == MAX_POW,
            final(self).capacity@ == old(self).capacity@,
            final(self).list_at(k as int) == old(self).list_at(k as int).push(addr),
            forall|j: int|
                0 <= j < MAX_POW && j != k ==> final(self).list_at(j) == old(self).list_at(j),
            forall|x: int|
                #[trigger] final(self).is_free_addr(x) <==> (old(self).is_free_addr(x) || addr <= x
                    < addr + pow2(k as nat)),
    {
        self.blocks[k].push_back(addr);
        proof {
            assert(self.list_at(k as int) =~= old(self).list_at(k as int).push(addr));
            assert forall|x: int|
                #[trigger] self.is_free_addr(x) implies (old(self).is_free_addr(x) || addr <= x
                < addr + pow2(k as nat)) by {
                let (kw, iw) = choose|kw: int, iw: int|
                    0 <= kw < MAX_POW && 0 <= iw < self.list_at(kw).len() && (#[trigger] self
                        .list_at(kw)[iw]) <= x < self.list_at(kw)[iw] + pow2(kw as nat);
                if kw == k && iw == old(self).list_at(k as int).len() {
                } else {
                    assert(old(self).list_at(kw)[iw] <= x < old(self).list_at(kw)[iw] + pow2(
                        kw as nat,
                    ));
                }
            }
            assert forall|x: int|
                (old(self).is_free_addr(x) || addr <= x < addr + pow2(k as nat)) implies (
            #[trigger] self.is_free_addr(x)) by {
                if old(self).is_free_addr(x) {
                    let (kw, iw) = choose|kw: int, iw: int|
                        0 <= kw < MAX_POW && 0 <= iw < old(self).list_at(kw).len() && (
                        #[trigger] old(self).list_at(kw)[iw]) <= x < old(self).list_at(kw)[iw]
                            + pow2(kw as nat);
                    assert(self.list_at(kw)[iw] <= x < self.list_at(kw)[iw] + pow2(kw as nat));
                } else {
                    let iw = old(self).list_at(k as int).len() as int;
                    assert(self.list_at(k as int)[iw] <= x < self.list_at(k as int)[iw] + pow2(
                        k as nat,
                    ));
                }
            }
        }
    }

    /// Removes the block at position `at` of order `k`'s list and nothing
    /// else; under the invariant the freed addresses are exactly that
    /// block's range.
    fn remove_block(&mut self, k: usize, at: usize) -> (a: usize)
        requires
            old(self).inv(),
            k < MAX_POW,
            at < old(self).list_at(k as int).len(),
        ensures
            final(self).blocks@.len() == MAX_POW,
            final(self).capacity@ == old(self).capacity@,
            a == old(self).list_at(k as int)[at as int],
            final(self).list_at(k as int) == old(self).list_at(k as int).remove(at as int),
            forall|j: int|
                0 <= j < MAX_POW && j != k ==> final(self).list_at(j) == old(self).list_at(j),
            forall|x: int|
                #[trigger] final(self).is_free_addr(x) <==> (old(self).is_free_addr(x) && !(a <= x
                    < a + pow2(k as nat))),
            final(self).inv(),
            a as int % pow2(k as nat) as int == 0,
            a + pow2(k as nat) <= final(self).capacity@,
    {
        let r = self.blocks[k].remove(at);
        let a = match r {
            Some(v) => v,
            None => 0,
        };
        proof {
            let ki = k as int;
            let ai = at as int;
            let pre = *old(self);
            assert(self.list_at(ki) =~= pre.list_at(ki).remove(ai));
            // a removed index maps the rest of the list one step down
            assert forall|x: int|
                #[trigger] self.is_free_addr(x) implies (pre.is_free_addr(x) && !(a <= x < a
                + pow2(k as nat))) by {
                let (kw, iw) = choose|kw: int, iw: int|
                    0 <= kw < MAX_POW && 0 <= iw < self.list_at(kw).len() && (#[trigger] self
                        .list_at(kw)[iw]) <= x < self.list_at(kw)[iw] + pow2(kw as nat);
                let iold: int = if kw == ki && iw >= ai {
                    iw + 1
                } else {
                    iw
                };
                assert(pre.list_at(kw)[iold] <= x < pre.list_at(kw)[iold] + pow2(kw as nat));
                // the removed block is disjoint from the surviving one
                assert(!(a <= x < a + pow2(k as nat))) by {
                    assert(kw != ki || iold != ai);
                    assert(pre.list_at(ki)[ai] == a);
                }
            }
            assert forall|x: int|
                (pre.is_free_addr(x) && !(a <= x < a + pow2(k as nat))) implies (
            #[trigger] self.is_free_addr(x)) by {
                let (kw, iw) = choose|kw: int, iw: int|
                    0 <= kw < MAX_POW && 0 <= iw < pre.list_at(kw).len() && (#[trigger] pre
                        .list_at(kw)[iw]) <= x < pre.list_at(kw)[iw] + pow2(kw as nat);
                assert(!(kw == ki && iw == ai)) by {
                    assert(pre.list_at(ki)[ai] == a);
                }
                let inew: int = if kw == ki && iw > ai {
                    iw - 1
                } else {
                    iw
                };
                assert(self.list_at(kw)[inew] <= x < self.list_at(kw)[inew] + pow2(kw as nat));
            }
            // the invariant survives dropping a block
            assert forall|k1: int, i1: int, k2: int, i2: int|
                0 <= k1 < MAX_POW && 0 <= i1 < self.list_at(k1).len() && 0 <= k2 < MAX_POW && 0
                    <= i2 < self.list_at(k2).len() && (k1 != k2 || i1 != i2) implies ((
            #[trigger] self.list_at(k1)[i1]) + pow2(k1 as nat) <= (#[trigger] self.list_at(
                k2,
            )[i2]) || self.list_at(k2)[i2] + pow2(k2 as nat) <= self.list_at(k1)[i1]) by {
                let j1: int = if k1 == ki && i1 >= ai {
                    i1 + 1
                } else {
                    i1
                };
                let j2: int = if k2 == ki && i2 >= ai {
                    i2 + 1
                } else {
                    i2
                };
                assert(self.list_at(k1)[i1] == pre.list_at(k1)[j1]);
                assert(self.list_at(k2)[i2] == pre.list_at(k2)[j2]);
            }
            assert forall|kq: int, i1: int, i2: int|
                0 <= kq < MAX_POW && 0 <= i1 < self.list_at(kq).len() && 0 <= i2 < self.list_at(
                    kq,
                ).len() implies (#[trigger] self.list_at(kq)[i1]) as int != buddy_of(
                kq,
                (#[trigger] self.list_at(kq)[i2]) as int,
            ) by {
                let j1: int = if kq == ki && i1 >= ai {
                    i1 + 1
                } else {
                    i1
                };
                let j2: int = if kq == ki && i2 >= ai {
                    i2 + 1
                } else {
                    i2
                };
                assert(self.list_at(kq)[i1] == pre.list_at(kq)[j1]);
                assert(self.list_at(kq)[i2] == pre.list_at(kq)[j2]);
            }
            assert forall|kq: int, i: int|
                0 <= kq < MAX_POW && 0 <= i < self.list_at(kq).len() implies (#[trigger] self
                .list_at(kq)[i]) as int % pow2(kq as nat) as int == 0 && self.list_at(kq)[i] + pow2(
                kq as nat,
            ) <= self.capacity@ by {
                let j: int = if kq == ki && i >= ai {
                    i + 1
                } else {
                    i
                };
                assert(self.list_at(kq)[i] == pre.list_at(kq)[j]);
            }
        }
        a
    }
}

/// The least power of two covering `n`, with its exponent: the block
/// order the buddy system serves a request of `n` units from. Any `n`
/// whose cover fits the machine word is accepted.
pub fn uper_bound_power(n: usize) -> (r: (usize, usize))
    requires
        n <= usize::MAX / 2 + 1,
    ensures
        r.0 as int == min_pow_ge(n as int),
        r.1 == pow2(r.0 as nat),
        r.1 >= n,
        n <= MAX_CAPACITY ==> r.0 <= 30,
{
    proof {
        lemma_min_pow_ge(n as int);
        lemma2_to64();
    }
    let mut k: usize = 0;
    let mut v: usize = 1;
    while v < n
        invariant
            n <= usize::MAX / 2 + 1,
            v == pow2(k as nat),
            v >= 1,
            k <= 64,
            k > 0 ==> pow2((k - 1) as nat) < n,
        decreases (if v < n { n - v } else { 0int }),
    {
        proof {
            lemma_pow2_unfold((k + 1) as nat);
            assert(k < 64) by {
                if k >= 64 {
                    if k > 64 {
                        lemma_pow2_strictly_increases(64, k as nat);
                    }
                    assert(pow2(64) == 0x10000000000000000) by {
                        vstd::arithmetic::power2::lemma2_to64_rest();
                    }
                }
            }
        }
        v = v * 2;
        k = k + 1;
    }
    proof {
        lemma_min_pow_ge(n as int);
        // both are the least exponent whose power reaches n
        let m = min_pow_ge(n as int);
        if (k as int) < m {
            if (k as int) < m - 1 {
                lemma_pow2_strictly_increases(k as nat, (m - 1) as nat);
            }
            assert(pow2((m - 1) as nat) < n);
            assert(false);
        }
        if (k as int) > m {
            assert(pow2((k - 1) as nat) < n);
            if m < k - 1 {
                lemma_pow2_strictly_increases(m as nat, (k - 1) as nat);
            }
            assert(pow2(m as nat) >= n);
            assert(false);
        }
    }
    (k, v)
}


/// A multiple of `p` that is no multiple of `2p` sits an odd number of
/// `p`-strides up: one stride below it lies a multiple of `2p`.
proof fn lemma_odd_multiple(a: int, p: int)
    requires
        p > 0,
        a >= 0,
        a % p == 0,
        a % (2 * p) != 0,
    ensures
        a >= p,
        (a - p) % (2 * p) == 0,
{
    let two_p = 2 * p;
    vstd::arithmetic::div_mod::lemma_fundamental_div_mod(a, two_p);
    let d = a / two_p;
    let m = a % two_p;
    vstd::arithmetic::div_mod::lemma_mod_mod(a, p, 2);
    vstd::arithmetic::div_mod::lemma_mod_pos_bound(a, two_p);
    assert(m == 0 || m == p) by (nonlinear_arith)
        requires
            0 <= m < two_p,
            m % p == 0,
            two_p == 2 * p,
            p > 0,
    ;
    assert(a - p == two_p * d);
    vstd::arithmetic::div_mod::lemma_mod_multiples_basic(d, two_p);
    assert(two_p * d >= 0) by (nonlinear_arith)
        requires
            two_p > 0,
            d >= 0 || two_p * d == a - p,
            a >= 0,
            a % two_p == p,
            p > 0,
    ;
}

proof fn lemma_mod_sum_zero(x: int, y: int, p: int)
    requires
        p > 0,
        x % p == 0,
        y % p == 0,
    ensures
        (x + y) % p == 0,
{
    vstd::arithmetic::div_mod::lemma_add_mod_noop(x, y, p);
    assert(0int % p == 0) by (nonlinear_arith)
        requires
            p > 0,
    ;
}

/// Divisibility by a higher power of two gives divisibility by a lower.
proof fn lemma_pow2_div_down(x: int, k: nat, j: nat)
    requires
        k <= j,
        x % pow2(j) as int == 0,
        x >= 0,
    ensures
        x % pow2(k) as int == 0,
{
    vstd::arithmetic::power2::lemma_pow2_adds(k, (j - k) as nat);
    lemma_pow2_pos(k);
    lemma_pow2_pos((j - k) as nat);
    let a = pow2(k) as int;
    let b = pow2((j - k) as nat) as int;
    vstd::arithmetic::div_mod::lemma_mod_mod(x, a, b);
    assert(0int % a == 0) by (nonlinear_arith)
        requires
            a > 0,
    ;
}

/// The buddy relation is symmetric.
proof fn lemma_buddy_symm(k: int, a: int, b: int)
    requires
        0 <= k,
        a >= 0,
        b >= 0,
        a % pow2(k as nat) as int == 0,
        b % pow2(k as nat) as int == 0,
        b == buddy_of(k, a),
    ensures
        a == buddy_of(k, b),
{
    let p = pow2(k as nat) as int;
    lemma_pow2_pos(k as nat);
    if a % (2 * p) == 0 {
        // b is the right half: its parent offset is p, so it is odd
        assert(b == a + p);
        assert(b % (2 * p) != 0) by (nonlinear_arith)
            requires
                p > 0,
                a % (2 * p) == 0,
                b == a + p,
        ;
    } else {
        assert(b == a - p);
        lemma_odd_multiple(a, p);
    }
}

impl VectorAllocator for BuddyAllocator {
    open spec fn wf(&self) -> bool {
        self.inv()
    }

    /// The allocator accepts any representable span, the empty one
    /// included.
    open spec fn new_ok(capacity: nat) -> bool {
        capacity <= MAX_CAPACITY
    }

    /// A fresh allocator has exactly the units `[0, capacity)` free.
    open spec fn new_rel(post: Self, capacity: nat) -> bool {
        &&& post.capacity_spec() == capacity
        &&& forall|x: int| #[trigger] post.is_free_addr(x) <==> 0 <= x < capacity
    }

    open spec fn alloc_ok(pre: Self, size: nat, align: nat) -> bool {
        size <= MAX_CAPACITY && 1 <= align <= MAX_CAPACITY
    }

    /// `allocate` returns an address aligned as requested whose covering
    /// block `[r, r + 2^k)`, `2^k` the least power of two reaching
    /// `size`, was free and is free no longer; no other address changes
    /// state. `None` comes exactly when no free block of sufficient
    /// order can be split to an aligned sub-block.
    open spec fn alloc_rel(pre: Self, post: Self, size: nat, align: nat, r: Option<usize>) -> bool {
        let k = min_pow_ge(size as int);
        match r {
            Option::None => {
                &&& post == pre
                &&& forall|j: int, a: int|
                    #[trigger] pre.has_block(j, a) ==> !can_fit(j, a, k, align as int)
            },
            Option::Some(rr) => {
                &&& rr as int % align as int == 0
                &&& rr as int % pow2(k as nat) as int == 0
                &&& rr + pow2(k as nat) <= pre.capacity_spec()
                &&& forall|x: int| rr <= x < rr + pow2(k as nat) ==> #[trigger] pre.is_free_addr(x)
                &&& forall|x: int|
                    #[trigger] post.is_free_addr(x) <==> (pre.is_free_addr(x) && !(rr <= x < rr
                        + pow2(k as nat)))
                &&& post.capacity_spec() == pre.capacity_spec()
                &&& alloc_placement(pre, size as int, align as int, rr as int)
            },
        }
    }

    /// `dealloc` takes back a block previously returned by `allocate`: a
    /// power-of-two size, a start aligned to it within the capacity, and
    /// a range holding no currently free address.
    open spec fn dealloc_ok(pre: Self, start: nat, size: nat, align: nat) -> bool {
        &&& exists|k: int| 0 <= k <= 30 && size == #[trigger] pow2(k as nat)
        &&& start as int % size as int == 0
        &&& start + size <= pre.capacity_spec()
        &&& forall|x: int| start <= x < start + size ==> !(#[trigger] pre.is_free_addr(x))
    }

    /// The freed range returns to the free set and nothing else changes;
    /// the invariant keeps the result fully coalesced.
    open spec fn dealloc_rel(pre: Self, post: Self, start: nat, size: nat, align: nat) -> bool {
        &&& forall|x: int|
            #[trigger] post.is_free_addr(x) <==> (pre.is_free_addr(x) || start <= x < start + size)
        &&& post.capacity_spec() == pre.capacity_spec()
    }

    fn new(capacity: usize) -> (ins: Self) {
        let mut lists: Vec<DynLinkedList<usize>> = Vec::new();
        let mut n: usize = 0;
        while n < MAX_POW
            invariant
                lists@.len() == n,
                n <= MAX_POW,
                forall|j: int| 0 <= j < n ==> (#[trigger] lists@[j]@).len() == 0,
            decreases MAX_POW - n,
        {
            lists.push(DynLinkedList::new());
            n = n + 1;
        }
        let mut ins = BuddyAllocator { blocks: lists, capacity: Ghost(capacity as nat) };
        let mut size = capacity;
        let mut addr: usize = 0;
        proof {
            lemma2_to64();
            assert forall|x: int| !ins.is_free_addr(x) by {}
            assert forall|k: nat| pow2(k) <= capacity implies 0int % pow2(k) as int == 0 by {
                lemma_pow2_pos(k);
            }
        }
        // split the span greedily into maximal power-of-two blocks
        while size > 0
            invariant
                ins.inv(),
                ins.blocks@.len() == MAX_POW,
                ins.capacity@ == capacity,
                capacity <= MAX_CAPACITY,
                addr + size == capacity,
                forall|x: int| #[trigger] ins.is_free_addr(x) <==> 0 <= x < addr,
                forall|k: int, i: int|
                    0 <= k < MAX_POW && 0 <= i < ins.list_at(k).len() ==> (#[trigger] ins.list_at(
                        k,
                    )[i]) as int % pow2(k as nat) as int == 0 && ins.list_at(k)[i] + pow2(k as nat)
                        <= addr && size < pow2(k as nat),
                forall|k: nat| pow2(k) <= size ==> addr as int % pow2(k) as int == 0,
            decreases size,
        {
            let (k0, pow) = uper_bound_power(size);
            proof {
                if pow > size && k0 == 0 {
                    assert(pow2(0) == 1) by {
                        lemma2_to64();
                    }
                }
            }
            let kk: usize = if pow > size {
                k0 - 1
            } else {
                k0
            };
            proof {
                lemma_min_pow_ge(size as int);
                if pow > size {
                    lemma_pow2_unfold(k0 as nat);
                }
            }
            let bsize: usize = if pow > size {
                pow / 2
            } else {
                pow
            };
            proof {
                assert(bsize == pow2(kk as nat));
                assert(bsize <= size);
                assert(size < 2 * bsize) by {
                    if pow > size {
                    } else {
                        // pow == 2^k0 reaches size exactly from below
                        if 2 * bsize <= size {
                            lemma_pow2_unfold((k0 + 1) as nat);
                            lemma_min_pow_ge(size as int);
                            assert(pow2((k0 + 1) as nat) <= size);
                            if (k0 + 1) as int > min_pow_ge(size as int) {
                                lemma_pow2_strictly_increases(
                                    min_pow_ge(size as int) as nat,
                                    (k0 + 1) as nat,
                                );
                            }
                            assert(false);
                        }
                    }
                }
                assert(addr as int % bsize as int == 0);
            }
            let ghost before = ins;
            self_push_new_block(&mut ins, kk, addr, Ghost(size), Ghost(capacity as nat));
            proof {
                lemma_pow2_pos(kk as nat);
            }
            size = size - bsize;
            addr = addr + bsize;
            proof {
                // the remaining span stays aligned to any power not above
                // its size
                assert forall|k: nat| pow2(k) <= size implies addr as int % pow2(k) as int == 0 by {
                    assert(pow2(k) <= size + bsize);
                    assert((addr - bsize) as int % pow2(k) as int == 0);
                    assert(k <= kk) by {
                        if k > kk {
                            lemma_pow2_strictly_increases(kk as nat, k);
                        }
                    }
                    lemma_pow2_div_down(bsize as int, k, kk as nat);
                    lemma_pow2_pos(k);
                    lemma_mod_sum_zero(addr - bsize, bsize as int, pow2(k) as int);
                }
            }
        }
        proof {
            assert(ins.inv());
            assert(forall|x: int| #[trigger] ins.is_free_addr(x) <==> 0 <= x < capacity);
        }
        ins
    }

    fn allocate(&mut self, size: usize, align: usize) -> (r: Option<usize>) {
        buddy_allocate(self, size, align)
    }

    fn dealloc(&mut self, start: usize, size: usize, align: usize) {
        buddy_dealloc(self, start, size, align);
    }
}

/// Pushes the next greedy block while building a fresh allocator,
/// keeping the construction invariants.
fn self_push_new_block(
    ins: &mut BuddyAllocator,
    kk: usize,
    addr: usize,
    size: Ghost<usize>,
    cap: Ghost<nat>,
)
    requires
        old(ins).inv(),
        old(ins).capacity@ == cap@,
        kk < MAX_POW,
        addr as int % pow2(kk as nat) as int == 0,
        pow2(kk as nat) <= size@,
        size@ < 2 * pow2(kk as nat),
        addr + size@ <= cap@,
        forall|x: int| #[trigger] old(ins).is_free_addr(x) <==> 0 <= x < addr,
        forall|k: int, i: int|
            0 <= k < MAX_POW && 0 <= i < old(ins).list_at(k).len() ==> (#[trigger] old(ins).list_at(k)[i]) as int % pow2(k as nat) as int == 0 && old(ins).list_at(k)[i] + pow2(
                k as nat,
            ) <= addr && size@ < pow2(k as nat),
    ensures
        final(ins).blocks@.len() == MAX_POW,
        final(ins).capacity@ == cap@,
        forall|x: int|
            #[trigger] final(ins).is_free_addr(x) <==> 0 <= x < addr + pow2(kk as nat),
        forall|k: int, i: int|
            0 <= k < MAX_POW && 0 <= i < final(ins).list_at(k).len() ==> (#[trigger] final(ins).list_at(k)[i]) as int % pow2(k as nat) as int == 0 && final(ins).list_at(k)[i]
                + pow2(k as nat) <= addr + pow2(kk as nat) && (size@ - pow2(kk as nat)) < pow2(
                k as nat,
            ),
        final(ins).inv(),
{
    proof {
        lemma_pow2_pos(kk as nat);
    }
    ins.push_block(kk, addr);
    proof {
        let pre = *old(ins);
        let bs = pow2(kk as nat) as int;
        assert forall|k: int, i: int|
            0 <= k < MAX_POW && 0 <= i < ins.list_at(k).len() implies (#[trigger] ins.list_at(
            k,
        )[i]) as int % pow2(k as nat) as int == 0 && ins.list_at(k)[i] + pow2(k as nat) <= addr
            + pow2(kk as nat) && (size@ - pow2(kk as nat)) < pow2(k as nat) by {
            if k == kk && i == pre.list_at(kk as int).len() {
                assert(ins.list_at(k)[i] == addr);
            } else {
                assert(ins.list_at(k)[i] == pre.list_at(k)[i]);
                lemma_pow2_pos(k as nat);
            }
        }
        // invariant: alignment and bounds hold of every block
        assert forall|k1: int, i1: int, k2: int, i2: int|
            0 <= k1 < MAX_POW && 0 <= i1 < ins.list_at(k1).len() && 0 <= k2 < MAX_POW && 0 <= i2
                < ins.list_at(k2).len() && (k1 != k2 || i1 != i2) implies ((#[trigger] ins.list_at(
            k1,
        )[i1]) + pow2(k1 as nat) <= (#[trigger] ins.list_at(k2)[i2]) || ins.list_at(k2)[i2] + pow2(
            k2 as nat,
        ) <= ins.list_at(k1)[i1]) by {
            let newi = pre.list_at(kk as int).len() as int;
            if k1 == kk && i1 == newi {
                assert(ins.list_at(k1)[i1] == addr);
                assert(ins.list_at(k2)[i2] == pre.list_at(k2)[i2]);
                assert(pre.list_at(k2)[i2] + pow2(k2 as nat) <= addr);
            } else if k2 == kk && i2 == newi {
                assert(ins.list_at(k2)[i2] == addr);
                assert(ins.list_at(k1)[i1] == pre.list_at(k1)[i1]);
                assert(pre.list_at(k1)[i1] + pow2(k1 as nat) <= addr);
            } else {
                assert(ins.list_at(k1)[i1] == pre.list_at(k1)[i1]);
                assert(ins.list_at(k2)[i2] == pre.list_at(k2)[i2]);
            }
        }
        // no two buddies: orders of earlier blocks are strictly larger
        assert forall|k: int, i1: int, i2: int|
            0 <= k < MAX_POW && 0 <= i1 < ins.list_at(k).len() && 0 <= i2 < ins.list_at(
                k,
            ).len() implies (#[trigger] ins.list_at(k)[i1]) as int != buddy_of(
            k,
            (#[trigger] ins.list_at(k)[i2]) as int,
        ) by {
            let newi = pre.list_at(kk as int).len() as int;
            lemma_pow2_pos(k as nat);
            if k == kk && i1 == newi && i2 == newi {
                // a block is never its own buddy
            } else if k == kk && (i1 == newi || i2 == newi) {
                // an older block of the same order would be smaller than
                // the remaining span, which the new block is not
                assert(pre.list_at(k)[if i1 == newi {
                    i2
                } else {
                    i1
                }] + pow2(k as nat) <= addr);
                assert(size@ < pow2(k as nat));
                assert(pow2(kk as nat) <= size@);
                assert(false);
            } else {
                assert(ins.list_at(k)[i1] == pre.list_at(k)[i1]);
                assert(ins.list_at(k)[i2] == pre.list_at(k)[i2]);
                assert(pre.list_at(k)[i1] as int != buddy_of(k, pre.list_at(k)[i2] as int));
            }
        }
        assert(ins.inv());
    }
}



/// Inserts a block whose range holds no free address and whose buddy is
/// not free as a block: the invariant, in particular coalescence, is
/// kept.
fn push_coalesced_block(b: &mut BuddyAllocator, k: usize, a: usize)
    requires
        old(b).inv(),
        k <= 30,
        a as int % pow2(k as nat) as int == 0,
        a + pow2(k as nat) <= old(b).capacity@,
        forall|x: int| a <= x < a + pow2(k as nat) ==> !(#[trigger] old(b).is_free_addr(x)),
        !old(b).has_block(k as int, buddy_of(k as int, a as int)),
    ensures
        final(b).inv(),
        final(b).capacity@ == old(b).capacity@,
        final(b).blocks@.len() == MAX_POW,
        forall|x: int|
            #[trigger] final(b).is_free_addr(x) <==> (old(b).is_free_addr(x) || a <= x < a + pow2(
                k as nat,
            )),
{
    proof {
        lemma_pow2_pos(k as nat);
    }
    b.push_block(k, a);
    proof {
        let pre = *old(b);
        let newi = pre.list_at(k as int).len() as int;
        assert forall|kq: int, i: int|
            0 <= kq < MAX_POW && 0 <= i < b.list_at(kq).len() implies (#[trigger] b.list_at(
            kq,
        )[i]) as int % pow2(kq as nat) as int == 0 && b.list_at(kq)[i] + pow2(kq as nat)
            <= b.capacity@ by {
            if kq == k && i == newi {
            } else {
                assert(b.list_at(kq)[i] == pre.list_at(kq)[i]);
            }
        }
        // a listed block overlapping the new range would put a free
        // address inside it
        assert forall|kq: int, i: int|
            0 <= kq < MAX_POW && 0 <= i < pre.list_at(kq).len() implies ((#[trigger] pre.list_at(
            kq,
        )[i]) + pow2(kq as nat) <= a || a + pow2(k as nat) <= pre.list_at(kq)[i]) by {
            let aq = pre.list_at(kq)[i] as int;
            let pq = pow2(kq as nat) as int;
            lemma_pow2_pos(kq as nat);
            if !(aq + pq <= a || a + pow2(k as nat) <= aq) {
                let x0: int = if aq >= a {
                    aq
                } else {
                    a as int
                };
                assert(pre.is_free_addr(x0)) by {
                    assert(pre.list_at(kq)[i] <= x0 < pre.list_at(kq)[i] + pow2(kq as nat));
                }
                assert(!(a <= x0 < a + pow2(k as nat)));
            }
        }
        assert forall|k1: int, i1: int, k2: int, i2: int|
            0 <= k1 < MAX_POW && 0 <= i1 < b.list_at(k1).len() && 0 <= k2 < MAX_POW && 0 <= i2
                < b.list_at(k2).len() && (k1 != k2 || i1 != i2) implies ((#[trigger] b.list_at(
            k1,
        )[i1]) + pow2(k1 as nat) <= (#[trigger] b.list_at(k2)[i2]) || b.list_at(k2)[i2] + pow2(
            k2 as nat,
        ) <= b.list_at(k1)[i1]) by {
            if k1 == k && i1 == newi {
                assert(b.list_at(k1)[i1] == a);
                assert(b.list_at(k2)[i2] == pre.list_at(k2)[i2]);
            } else if k2 == k && i2 == newi {
                assert(b.list_at(k2)[i2] == a);
                assert(b.list_at(k1)[i1] == pre.list_at(k1)[i1]);
            } else {
                assert(b.list_at(k1)[i1] == pre.list_at(k1)[i1]);
                assert(b.list_at(k2)[i2] == pre.list_at(k2)[i2]);
            }
        }
        // an equal-order block buddy to the new one would either be the
        // excluded buddy or place the new block as its buddy, which is
        // the same address by symmetry
        assert forall|kq: int, i1: int, i2: int|
            0 <= kq < MAX_POW && 0 <= i1 < b.list_at(kq).len() && 0 <= i2 < b.list_at(
                kq,
            ).len() implies (#[trigger] b.list_at(kq)[i1]) as int != buddy_of(
            kq,
            (#[trigger] b.list_at(kq)[i2]) as int,
        ) by {
            lemma_pow2_pos(kq as nat);
            if kq == k && i1 == newi && i2 == newi {
                // a block is never its own buddy
            } else if kq == k && i2 == newi {
                // b.list_at(kq)[i1] == buddy_of(k, a) is excluded
                if i1 != newi {
                    assert(b.list_at(kq)[i1] == pre.list_at(kq)[i1]);
                    if b.list_at(kq)[i1] as int == buddy_of(kq, a as int) {
                        assert(pre.has_block(k as int, buddy_of(k as int, a as int)));
                    }
                }
            } else if kq == k && i1 == newi {
                let aq = pre.list_at(kq)[i2] as int;
                if a as int == buddy_of(kq, aq) {
                    lemma_buddy_symm(kq, aq, a as int);
                    assert(pre.has_block(k as int, buddy_of(k as int, a as int)));
                }
            } else {
                assert(b.list_at(kq)[i1] == pre.list_at(kq)[i1]);
                assert(b.list_at(kq)[i2] == pre.list_at(kq)[i2]);
            }
        }
        assert(b.inv());
    }
}

/// The merging walk of `dealloc`: starting from the freed block, while
/// the buddy of the current block is itself free, absorb it and move one
/// order up, then reinsert the final block.
fn buddy_merge(b: &mut BuddyAllocator, start: usize, size: usize, k: usize)
    requires
        old(b).inv(),
        k <= 30,
        size == pow2(k as nat),
        start as int % size as int == 0,
        start + size <= old(b).capacity@,
        forall|x: int| start <= x < start + size ==> !(#[trigger] old(b).is_free_addr(x)),
    ensures
        final(b).inv(),
        final(b).capacity@ == old(b).capacity@,
        forall|x: int|
            #[trigger] final(b).is_free_addr(x) <==> (old(b).is_free_addr(x) || start <= x < start
                + size),
{
    let ghost pre = *old(b);
    let mut m = k;
    let mut a2 = start;
    let mut csize = size;
    while m < MAX_POW
        invariant_except_break
            b.inv(),
            b.capacity@ == pre.capacity@,
            b.blocks@.len() == MAX_POW,
            pre.inv(),
            k <= m <= 30,
            csize == pow2(m as nat),
            a2 as int % csize as int == 0,
            a2 + csize <= pre.capacity@,
            a2 <= start,
            start + size <= a2 + csize,
            forall|x: int|
                #[trigger] b.is_free_addr(x) <==> (pre.is_free_addr(x) && !(a2 <= x < a2 + csize)),
            forall|x: int|
                a2 <= x < a2 + csize && !(start <= x < start + size) ==> #[trigger] pre
                    .is_free_addr(x),
        ensures
            b.inv(),
            b.capacity@ == pre.capacity@,
            forall|x: int|
                #[trigger] b.is_free_addr(x) <==> (pre.is_free_addr(x) || start <= x < start
                    + size),
        decreases MAX_POW - m,
    {
        proof {
            lemma_pow2_pos(m as nat);
            lemma_pow2_unfold((m + 1) as nat);
            assert(csize * 2 == pow2((m + 1) as nat));
            if m == 30 {
                assert(pow2(30) == 0x40000000) by {
                    lemma2_to64();
                }
            } else {
                lemma_pow2_strictly_increases((m + 1) as nat, 31);
                assert(pow2(31) == 0x80000000) by {
                    lemma2_to64();
                }
            }
        }
        let budd: usize;
        if a2 % (csize * 2) == 0 {
            budd = a2 + csize;
        } else {
            proof {
                lemma_odd_multiple(a2 as int, csize as int);
            }
            budd = a2 - csize;
        }
        proof {
            assert(budd as int == buddy_of(m as int, a2 as int));
        }
        let found = self_find(b, m, budd);
        match found {
            Some(at) => {
                let ghost mid = *b;
                let ghost olda = a2 as int;
                let ghost oldc = csize as int;
                let removed = b.remove_block(m, at);
                proof {
                    assert(removed == budd);
                    // the absorbed buddy was free before the walk began
                    assert forall|x: int| budd <= x < budd + oldc implies #[trigger] pre
                        .is_free_addr(x) by {
                        assert(mid.is_free_addr(x)) by {
                            let i = at as int;
                            assert(mid.list_at(m as int)[i] <= x < mid.list_at(m as int)[i]
                                + pow2(m as nat));
                        }
                        assert(!(olda <= x < olda + oldc));
                    }
                    assert(budd + oldc <= pre.capacity@);
                }
                if a2 % (csize * 2) != 0 {
                    a2 = budd;
                }
                m = m + 1;
                csize = csize * 2;
                proof {
                    assert(csize == pow2(m as nat));
                    assert(a2 as int % csize as int == 0);
                    // the merged block is the union of the two buddies
                    assert(a2 as int + csize == olda + oldc + oldc || a2 as int + csize == olda
                        + oldc);
                    assert(a2 + csize <= pre.capacity@);
                    assert forall|x: int|
                        #[trigger] b.is_free_addr(x) <==> (pre.is_free_addr(x) && !(a2 <= x < a2
                            + csize)) by {
                        assert((a2 <= x < a2 + csize) == ((olda <= x < olda + oldc) || (budd <= x
                            < budd + oldc)));
                    }
                    assert forall|x: int|
                        a2 <= x < a2 + csize && !(start <= x < start + size) implies #[trigger] pre
                        .is_free_addr(x) by {
                        assert((a2 <= x < a2 + csize) == ((olda <= x < olda + oldc) || (budd <= x
                            < budd + oldc)));
                    }
                    // the merge cannot outgrow the capacity's order
                    assert(m <= 30) by {
                        if m > 30 {
                            lemma_pow2_strictly_increases(30, m as nat);
                            assert(pow2(30) == 0x40000000) by {
                                lemma2_to64();
                            }
                        }
                    }
                }
            },
            None => {
                proof {
                    assert(!b.has_block(m as int, buddy_of(m as int, a2 as int)));
                    assert forall|x: int| a2 <= x < a2 + csize implies !(#[trigger] b
                        .is_free_addr(x)) by {}
                }
                let ghost before_push = *b;
                push_coalesced_block(b, m, a2);
                proof {
                    assert forall|x: int|
                        #[trigger] b.is_free_addr(x) <==> (pre.is_free_addr(x) || start <= x
                            < start + size) by {
                        if a2 <= x < a2 + csize && !(start <= x < start + size) {
                            assert(pre.is_free_addr(x));
                        }
                    }
                }
                break ;
            },
        }
    }
}

/// Looks up a block address in the order-`m` free list.
fn self_find(b: &BuddyAllocator, m: usize, addr: usize) -> (r: Option<usize>)
    requires
        b.blocks@.len() == MAX_POW,
        m < MAX_POW,
    ensures
        match r {
            Some(i) => i < b.list_at(m as int).len() && b.list_at(m as int)[i as int] == addr,
            None => forall|i: int|
                0 <= i < b.list_at(m as int).len() ==> #[trigger] b.list_at(m as int)[i] != addr,
        },
{
    b.blocks[m].find(addr)
}


/// A block chosen by the scan is halved repeatedly down to the requested
/// order; at each halving the half not holding the target is put back as
/// free.
fn buddy_split(b: &mut BuddyAllocator, index: usize, k: usize, addr: usize, r: usize, bs: usize)
    requires
        old(b).inv(),
        k <= index <= 30,
        bs == pow2(k as nat),
        addr as int % pow2(index as nat) as int == 0,
        addr + pow2(index as nat) <= old(b).capacity@,
        addr <= r,
        r + bs <= addr + pow2(index as nat),
        r as int % bs as int == 0,
        forall|x: int|
            addr <= x < addr + pow2(index as nat) ==> !(#[trigger] old(b).is_free_addr(x)),
    ensures
        final(b).inv(),
        final(b).capacity@ == old(b).capacity@,
        forall|x: int|
            #[trigger] final(b).is_free_addr(x) <==> (old(b).is_free_addr(x) || (addr <= x < addr
                + pow2(index as nat) && !(r <= x < r + bs))),
{
    let ghost pre = *old(b);
    let mut csize = bs;
    let mut t = k;
    while t < index
        invariant
            k <= t <= index,
            index <= 30,
            csize == pow2(t as nat),
        decreases index - t,
    {
        proof {
            lemma_pow2_unfold((t + 1) as nat);
            if t + 1 < 30 {
                lemma_pow2_strictly_increases((t + 1) as nat, 30);
            }
            assert(pow2(30) == 0x40000000) by {
                lemma2_to64();
            }
        }
        csize = csize * 2;
        t = t + 1;
    }
    let mut j = index;
    let mut a2 = addr;
    while j > k
        invariant
            b.inv(),
            b.capacity@ == pre.capacity@,
            b.blocks@.len() == MAX_POW,
            k <= j <= index <= 30,
            csize == pow2(j as nat),
            a2 as int % csize as int == 0,
            addr <= a2,
            a2 + csize <= addr + pow2(index as nat),
            a2 <= r,
            r + bs <= a2 + csize,
            r as int % bs as int == 0,
            bs == pow2(k as nat),
            addr + pow2(index as nat) <= pre.capacity@,
            forall|x: int|
                #[trigger] b.is_free_addr(x) <==> (pre.is_free_addr(x) || (addr <= x < addr + pow2(
                    index as nat,
                ) && !(a2 <= x < a2 + csize))),
            forall|x: int|
                addr <= x < addr + pow2(index as nat) ==> !(#[trigger] pre.is_free_addr(x)),
        decreases j,
    {
        proof {
            lemma_pow2_unfold(j as nat);
            lemma_pow2_pos((j - 1) as nat);
        }
        let half = csize / 2;
        let ghost mid = *b;
        proof {
            // both halves of the current block are aligned to the lower
            // order
            lemma_pow2_div_down(a2 as int, (j - 1) as nat, j as nat);
            assert(half as int % half as int == 0) by (nonlinear_arith)
                requires
                    half > 0,
            ;
            lemma_mod_sum_zero(a2 as int, half as int, half as int);
        }
        let sib: usize;
        if r < a2 + half {
            sib = a2 + half;
            proof {
                // the target block fits inside the kept lower half
                lemma_pow2_pos(k as nat);
                vstd::arithmetic::div_mod::lemma_mod_self_0(pow2((j - 1) as nat) as int);
                lemma_pow2_div_down(a2 as int, k as nat, j as nat);
                lemma_pow2_div_down(half as int, k as nat, (j - 1) as nat);
                lemma_mod_sum_zero(a2 as int, half as int, bs as int);
                assert(r + bs <= a2 + half) by (nonlinear_arith)
                    requires
                        bs > 0,
                        r < a2 + half,
                        r as int % bs as int == 0,
                        (a2 + half) as int % bs as int == 0,
                ;
                // the kept half is the pushed half's buddy and lies in the
                // still-reserved range, so it is not listed
                assert(sib as int % (2 * pow2((j - 1) as nat) as int) != 0) by (nonlinear_arith)
                    requires
                        pow2((j - 1) as nat) > 0,
                        a2 as int % (2 * pow2((j - 1) as nat) as int) == 0,
                        sib == a2 + pow2((j - 1) as nat),
                ;
                assert(buddy_of(j as int - 1, sib as int) == a2 as int);
                assert(!b.has_block(j as int - 1, a2 as int)) by {
                    if b.has_block(j as int - 1, a2 as int) {
                        let i = choose|i: int|
                            0 <= i < b.list_at(j as int - 1).len() && #[trigger] b.list_at(
                                j as int - 1,
                            )[i] == a2;
                        assert(b.is_free_addr(a2 as int)) by {
                            assert(b.list_at(j as int - 1)[i] <= (a2 as int) && (a2 as int)
                                < b.list_at(j as int - 1)[i] + pow2((j - 1) as nat));
                        }
                    }
                }
                assert forall|x: int| sib <= x < sib + half implies !(#[trigger] b.is_free_addr(
                    x,
                )) by {}
            }
            push_coalesced_block(b, j - 1, sib);
        } else {
            sib = a2;
            proof {
                assert(buddy_of(j as int - 1, sib as int) == a2 + half) by {
                    assert(sib as int % (2 * pow2((j - 1) as nat) as int) == 0);
                }
                assert(!b.has_block(j as int - 1, a2 as int + half as int)) by {
                    if b.has_block(j as int - 1, a2 as int + half as int) {
                        let i = choose|i: int|
                            0 <= i < b.list_at(j as int - 1).len() && #[trigger] b.list_at(
                                j as int - 1,
                            )[i] == a2 as int + half as int;
                        assert(b.is_free_addr(a2 as int + half as int)) by {
                            assert(b.list_at(j as int - 1)[i] <= (a2 as int + half as int) && (
                            a2 as int + half as int) < b.list_at(j as int - 1)[i] + pow2(
                                (j - 1) as nat,
                            ));
                        }
                    }
                }
                assert forall|x: int| sib <= x < sib + half implies !(#[trigger] b.is_free_addr(
                    x,
                )) by {}
            }
            push_coalesced_block(b, j - 1, sib);
            a2 = a2 + half;
        }
        j = j - 1;
        csize = half;
        proof {
            assert forall|x: int|
                #[trigger] b.is_free_addr(x) <==> (pre.is_free_addr(x) || (addr <= x < addr
                    + pow2(index as nat) && !(a2 <= x < a2 + csize))) by {
                assert((mid.is_free_addr(x) || sib <= x < sib + half) == b.is_free_addr(x));
            }
        }
    }
    proof {
        lemma_pow2_pos(k as nat);
        assert(a2 == r) by (nonlinear_arith)
            requires
                bs > 0,
                a2 as int % bs as int == 0,
                r as int % bs as int == 0,
                a2 <= r,
                r + bs <= a2 + bs,
        ;
    }
}

/// `dealloc` hands the block to the merging walk after recovering its
/// order from the power-of-two size.
fn buddy_dealloc(b: &mut BuddyAllocator, start: usize, size: usize, align: usize)
    requires
        old(b).inv(),
        <BuddyAllocator as VectorAllocator>::dealloc_ok(
            *old(b),
            start as nat,
            size as nat,
            align as nat,
        ),
    ensures
        final(b).inv(),
        <BuddyAllocator as VectorAllocator>::dealloc_rel(
            *old(b),
            *final(b),
            start as nat,
            size as nat,
            align as nat,
        ),
{
    proof {
        let kk = choose|kk: int| 0 <= kk <= 30 && size == #[trigger] pow2(kk as nat);
        lemma_pow2_pos(kk as nat);
        if kk < 30 {
            lemma_pow2_strictly_increases(kk as nat, 30);
        }
        assert(pow2(30) == 0x40000000) by {
            lemma2_to64();
        }
    }
    let (k, bs) = uper_bound_power(size);
    proof {
        let kk = choose|kk: int| 0 <= kk <= 30 && size == #[trigger] pow2(kk as nat);
        // the least power of two reaching a power of two is itself
        lemma_min_pow_ge(size as int);
        if (k as int) < kk {
            lemma_pow2_strictly_increases(k as nat, kk as nat);
        }
        if (k as int) > kk {
            assert(pow2((k - 1) as nat) < size);
            if kk < k - 1 {
                lemma_pow2_strictly_increases(kk as nat, (k - 1) as nat);
            }
        }
        assert(k as int == kk);
        assert(bs == size);
    }
    buddy_merge(b, start, size, k);
}

proof fn lemma_small_lt_pow2(d: nat)
    ensures
        d < pow2(d),
    decreases d,
{
    if d == 0 {
        assert(pow2(0) == 1) by {
            lemma2_to64();
        }
    } else {
        lemma_small_lt_pow2((d - 1) as nat);
        lemma_pow2_unfold(d);
    }
}

/// The scan of `allocate`: from the requested order upward, find the
/// first free block from which an aligned sub-block can be carved, split
/// it, and return the sub-block's address.
#[verifier::rlimit(100)]
fn buddy_allocate(b: &mut BuddyAllocator, size: usize, align: usize) -> (r: Option<usize>)
    requires
        old(b).inv(),
        size <= MAX_CAPACITY,
        1 <= align <= MAX_CAPACITY,
    ensures
        final(b).inv(),
        <BuddyAllocator as VectorAllocator>::alloc_rel(
            *old(b),
            *final(b),
            size as nat,
            align as nat,
            r,
        ),
{
    let ghost pre = *old(b);
    let (k, bs) = uper_bound_power(size);
    let mut index = k;
    while index < MAX_POW
        invariant
            pre == *old(b),
            *b == pre,
            b.inv(),
            b.blocks@.len() == MAX_POW,
            k as int == min_pow_ge(size as int),
            bs == pow2(k as nat),
            k <= index,
            k <= 30,
            1 <= align <= MAX_CAPACITY,
            forall|j: int, i: int|
                k <= j < index && 0 <= i < b.list_at(j).len() ==> !can_fit(
                    j,
                    (#[trigger] b.list_at(j)[i]) as int,
                    k as int,
                    align as int,
                ),
        decreases MAX_POW - index,
    {
        let llen = b.blocks[index].len();
        let mut pcur = b.blocks[index].get_first_addr();
        let mut upos: usize = 0;
        while pcur != 0
            invariant
                pre == *old(b),
                *b == pre,
                b.inv(),
                b.blocks@.len() == MAX_POW,
                k as int == min_pow_ge(size as int),
                bs == pow2(k as nat),
                k <= index < MAX_POW,
                k <= 30,
                1 <= align <= MAX_CAPACITY,
                llen == b.list_at(index as int).len(),
                0 <= upos <= llen,
                pcur == if upos == llen {
                    0int
                } else {
                    upos + 1
                },
                forall|j: int, i: int|
                    k <= j < index && 0 <= i < b.list_at(j).len() ==> !can_fit(
                        j,
                        (#[trigger] b.list_at(j)[i]) as int,
                        k as int,
                        align as int,
                    ),
                forall|i: int|
                    0 <= i < upos ==> !can_fit(
                        index as int,
                        (#[trigger] b.list_at(index as int)[i]) as int,
                        k as int,
                        align as int,
                    ),
            decreases llen - upos,
        {
            let addr = b.blocks[index].next(&mut pcur);
            proof {
                assert(addr == b.list_at(index as int)[upos as int]);
                // the candidate's bounds, from the invariant
                assert(addr as int % pow2(index as nat) as int == 0 && addr + pow2(index as nat)
                    <= b.capacity@);
                // an existing block's order is bounded by the capacity's
                assert(index <= 30) by {
                    if index > 30 {
                        lemma_pow2_strictly_increases(30, index as nat);
                        assert(pow2(30) == 0x40000000) by {
                            lemma2_to64();
                        }
                    }
                }
                lemma_small_lt_pow2((index - k) as nat);
                vstd::arithmetic::power2::lemma_pow2_adds((index - k) as nat, k as nat);
                lemma_pow2_pos(k as nat);
            }
            let mut off: usize = 0;
            while off <= index - k && (addr % align + (off * bs) % align) % align != 0
                invariant
                    off <= index - k + 1,
                    k <= index <= 30,
                    1 <= align <= MAX_CAPACITY,
                    bs == pow2(k as nat),
                    bs >= 1,
                    addr + pow2(index as nat) <= MAX_CAPACITY,
                    forall|o: int|
                        0 <= o < off ==> !fit_at(addr as int, o, k as int, align as int),
                    index - k < pow2((index - k) as nat),
                    pow2((index - k) as nat) * pow2(k as nat) == pow2(index as nat),
                    off <= index - k ==> (off as int * bs as int) < pow2(index as nat),
                decreases index - k + 1 - off,
            {
                proof {
                    assert(off * bs < pow2(index as nat)) by (nonlinear_arith)
                        requires
                            off <= index - k,
                            index - k < pow2((index - k) as nat),
                            bs == pow2(k as nat),
                            bs >= 1,
                            pow2((index - k) as nat) * pow2(k as nat) == pow2(index as nat),
                    ;
                    vstd::arithmetic::div_mod::lemma_add_mod_noop(
                        addr as int,
                        off as int * bs as int,
                        align as int,
                    );
                    assert(!fit_at(addr as int, off as int, k as int, align as int));
                }
                off = off + 1;
                proof {
                    assert(off <= index - k ==> (off as int * bs as int) < pow2(index as nat))
                        by (nonlinear_arith)
                        requires
                            index - k < pow2((index - k) as nat),
                            bs == pow2(k as nat),
                            bs >= 1,
                            pow2((index - k) as nat) * pow2(k as nat) == pow2(index as nat),
                    ;
                }
            }
            proof {
                assert(off * bs < pow2(index as nat) || off > index - k) by (nonlinear_arith)
                    requires
                        off <= index - k + 1,
                        index - k < pow2((index - k) as nat),
                        bs == pow2(k as nat),
                        bs >= 1,
                        pow2((index - k) as nat) * pow2(k as nat) == pow2(index as nat),
                ;
            }
            if off <= index - k {
                let r = addr + off * bs;
                proof {
                    vstd::arithmetic::div_mod::lemma_add_mod_noop(
                        addr as int,
                        off as int * bs as int,
                        align as int,
                    );
                    assert(fit_at(addr as int, off as int, k as int, align as int));
                    assert(r as int % align as int == 0);
                    assert(off * bs + bs <= pow2(index as nat)) by (nonlinear_arith)
                        requires
                            off <= index - k,
                            index - k < pow2((index - k) as nat),
                            bs == pow2(k as nat),
                            bs >= 1,
                            pow2((index - k) as nat) * pow2(k as nat) == pow2(index as nat),
                    ;
                    // the sub-block's address is a multiple of the block
                    // size
                    lemma_pow2_div_down(addr as int, k as nat, index as nat);
                    assert((off * bs) as int % bs as int == 0) by (nonlinear_arith)
                        requires
                            bs >= 1,
                    ;
                    lemma_mod_sum_zero(addr as int, off as int * bs as int, bs as int);
                }
                let a0 = b.remove_block(index, upos);
                proof {
                    assert(a0 == addr);
                    // the removed block's range is now entirely non-free
                    assert forall|x: int| a0 <= x < a0 + pow2(index as nat) implies !(
                    #[trigger] b.is_free_addr(x)) by {}
                    // the whole candidate block was free beforehand
                    assert forall|x: int| a0 <= x < a0 + pow2(index as nat) implies #[trigger] pre
                        .is_free_addr(x) by {
                        assert(pre.list_at(index as int)[upos as int] <= x && x < pre.list_at(
                            index as int,
                        )[upos as int] + pow2(index as nat));
                    }
                    assert(forall|x: int| r <= x < r + bs ==> #[trigger] pre.is_free_addr(x));
                }
                let ghost after_remove = *b;
                buddy_split(b, index, k, a0, r, bs);
                proof {
                    assert forall|x: int|
                        #[trigger] b.is_free_addr(x) <==> (pre.is_free_addr(x) && !(r <= x < r
                            + bs)) by {
                        assert(after_remove.is_free_addr(x) == (pre.is_free_addr(x) && !(a0 <= x
                            < a0 + pow2(index as nat))));
                        if pre.is_free_addr(x) && !(a0 <= x < a0 + pow2(index as nat)) {
                        }
                    }
                }
                proof {
                    let kk = k as int;
                    assert(pre.has_block(index as int, addr as int)) by {
                        assert(pre.list_at(index as int)[upos as int] == addr);
                    }
                    assert forall|j2: int, a2: int|
                        kk <= j2 < index && #[trigger] pre.has_block(j2, a2) implies !can_fit(
                        j2,
                        a2,
                        kk,
                        align as int,
                    ) by {
                        let i2 = choose|i: int|
                            0 <= i < pre.list_at(j2).len() && #[trigger] pre.list_at(j2)[i] == a2;
                        assert(!can_fit(j2, pre.list_at(j2)[i2] as int, kk, align as int));
                    }
                    assert(fit_at(addr as int, off as int, kk, align as int));
                    assert(r as int == addr + off * pow2(k as nat));
                    assert(alloc_placement(pre, size as int, align as int, r as int));
                }
                return Some(r);
            }
            proof {
                assert(!can_fit(index as int, addr as int, k as int, align as int)) by {
                    if can_fit(index as int, addr as int, k as int, align as int) {
                        let o = choose|o: int|
                            0 <= o <= index - k && #[trigger] fit_at(
                                addr as int,
                                o,
                                k as int,
                                align as int,
                            );
                        assert(!fit_at(addr as int, o, k as int, align as int));
                    }
                }
            }
            upos = upos + 1;
        }
        index = index + 1;
    }
    proof {
        assert forall|j: int, a: int| #[trigger] pre.has_block(j, a) implies !can_fit(
            j,
            a,
            k as int,
            align as int,
        ) by {
            if can_fit(j, a, k as int, align as int) {
                let i = choose|i: int|
                    0 <= i < pre.list_at(j).len() && #[trigger] pre.list_at(j)[i] == a;
                assert(!can_fit(j, pre.list_at(j)[i] as int, k as int, align as int));
            }
        }
    }
    None
}


/// No two concurrently live allocations overlap, and each is aligned as
/// requested: the second allocation is carved from the free space the
/// first one already left.
pub proof fn lemma_buddy_live_allocations_disjoint(
    b0: BuddyAllocator,
    b1: BuddyAllocator,
    b2: BuddyAllocator,
    size1: nat,
    align1: nat,
    size2: nat,
    align2: nat,
    r1: usize,
    r2: usize,
)
    requires
        size1 <= MAX_CAPACITY,
        size2 <= MAX_CAPACITY,
        <BuddyAllocator as VectorAllocator>::alloc_rel(b0, b1, size1, align1, Some(r1)),
        <BuddyAllocator as VectorAllocator>::alloc_rel(b1, b2, size2, align2, Some(r2)),
    ensures
        r1 as int % align1 as int == 0,
        r2 as int % align2 as int == 0,
        r1 + pow2(min_pow_ge(size1 as int) as nat) <= r2 || r2 + pow2(
            min_pow_ge(size2 as int) as nat,
        ) <= r1,
{
    let k1 = min_pow_ge(size1 as int);
    let k2 = min_pow_ge(size2 as int);
    lemma_min_pow_ge(size1 as int);
    lemma_min_pow_ge(size2 as int);
    lemma_pow2_pos(k1 as nat);
    lemma_pow2_pos(k2 as nat);
    if !(r1 + pow2(k1 as nat) <= r2 || r2 + pow2(k2 as nat) <= r1) {
        // some address would be in both blocks, yet the second block's
        // addresses are still free after the first allocation
        let x: int = if r1 >= r2 {
            r1 as int
        } else {
            r2 as int
        };
        assert(b1.is_free_addr(x));
        assert(!(r1 <= x < r1 + pow2(k1 as nat)));
    }
}

/// Allocating and then immediately freeing the same block restores the
/// free address set exactly; together with the coalescence invariant the
/// allocator is back in a fully merged state.
pub proof fn lemma_buddy_round_trip(
    b0: BuddyAllocator,
    b1: BuddyAllocator,
    b2: BuddyAllocator,
    size: nat,
    align: nat,
    r: usize,
)
    requires
        size <= MAX_CAPACITY,
        <BuddyAllocator as VectorAllocator>::alloc_rel(b0, b1, size, align, Some(r)),
        <BuddyAllocator as VectorAllocator>::dealloc_rel(
            b1,
            b2,
            r as nat,
            pow2(min_pow_ge(size as int) as nat),
            align,
        ),
    ensures
        forall|x: int| #[trigger] b2.is_free_addr(x) <==> b0.is_free_addr(x),
{
    let k = min_pow_ge(size as int);
    assert forall|x: int| #[trigger] b2.is_free_addr(x) <==> b0.is_free_addr(x) by {
        assert(b2.is_free_addr(x) == (b1.is_free_addr(x) || r <= x < r + pow2(k as nat)));
        if r <= x < r + pow2(k as nat) {
            assert(b0.is_free_addr(x));
        }
    }
}


/// The bookkeeping a caller carries across any interleaving of
/// `allocate` and `dealloc`: the set of live allocations, as
/// `(start, length)` ranges. They are in bounds, pairwise disjoint, and
/// hold no free address — so no two concurrently live allocations ever
/// overlap.
pub open spec fn live_set_ok(b: BuddyAllocator, live: Set<(int, int)>) -> bool {
    &&& forall|r: (int, int)|
        #[trigger] live.contains(r) ==> 0 <= r.0 && 1 <= r.1 && r.0 + r.1 <= b.capacity_spec()
    &&& forall|r1: (int, int), r2: (int, int)|
        live.contains(r1) && live.contains(r2) && r1 != r2 ==> ((#[trigger] r1.0) + r1.1 <= (
        #[trigger] r2.0) || r2.0 + r2.1 <= r1.0)
    &&& forall|r: (int, int), x: int|
        #[trigger] live.contains(r) && r.0 <= x < r.0 + r.1 ==> !(#[trigger] b.is_free_addr(x))
}

/// A fresh allocator has no live allocations.
pub proof fn lemma_buddy_new_live(b: BuddyAllocator, capacity: nat)
    requires
        <BuddyAllocator as VectorAllocator>::new_rel(b, capacity),
    ensures
        live_set_ok(b, Set::empty()),
{
}

/// A successful allocation joins the live set without touching any
/// other live range: it was carved out of free space, which no live
/// range intersects.
pub proof fn lemma_buddy_alloc_live(
    pre: BuddyAllocator,
    post: BuddyAllocator,
    live: Set<(int, int)>,
    size: nat,
    align: nat,
    r: usize,
)
    requires
        size <= MAX_CAPACITY,
        live_set_ok(pre, live),
        <BuddyAllocator as VectorAllocator>::alloc_rel(pre, post, size, align, Some(r)),
    ensures
        live_set_ok(
            post,
            live.insert((r as int, pow2(min_pow_ge(size as int) as nat) as int)),
        ),
        r as int % align as int == 0,
        forall|r2: (int, int)|
            #[trigger] live.contains(r2) ==> r + pow2(min_pow_ge(size as int) as nat) <= r2.0
                || r2.0 + r2.1 <= r,
{
    let k = min_pow_ge(size as int);
    lemma_min_pow_ge(size as int);
    lemma_pow2_pos(k as nat);
    let nb = (r as int, pow2(k as nat) as int);
    let live2 = live.insert(nb);
    // the new block was free, so it avoids every live range
    assert forall|r2: (int, int)| #[trigger] live.contains(r2) implies nb.0 + nb.1 <= r2.0
        || r2.0 + r2.1 <= nb.0 by {
        if !(nb.0 + nb.1 <= r2.0 || r2.0 + r2.1 <= nb.0) {
            let x: int = if r2.0 >= nb.0 {
                r2.0
            } else {
                nb.0
            };
            assert(pre.is_free_addr(x)) by {
                assert(pre.free_addrs().contains(x));
            }
            assert(r2.0 <= x < r2.0 + r2.1);
        }
    }
    assert forall|r1: (int, int), r2: (int, int)|
        live2.contains(r1) && live2.contains(r2) && r1 != r2 implies ((#[trigger] r1.0) + r1.1
        <= (#[trigger] r2.0) || r2.0 + r2.1 <= r1.0) by {
        if r1 == nb {
            assert(live.contains(r2));
        } else if r2 == nb {
            assert(live.contains(r1));
        } else {
            assert(live.contains(r1) && live.contains(r2));
        }
    }
    assert forall|r2: (int, int), x: int|
        #[trigger] live2.contains(r2) && r2.0 <= x < r2.0 + r2.1 implies !(
    #[trigger] post.is_free_addr(x)) by {
        if r2 == nb {
            assert(!post.free_addrs().contains(x));
        } else {
            assert(live.contains(r2));
            assert(!pre.is_free_addr(x));
            if post.is_free_addr(x) {
                assert(post.free_addrs().contains(x));
                assert(pre.free_addrs().contains(x));
            }
        }
    }
}

/// Releasing a live allocation removes it from the live set and keeps
/// every other live range disjoint from the (now larger) free space.
pub proof fn lemma_buddy_dealloc_live(
    pre: BuddyAllocator,
    post: BuddyAllocator,
    live: Set<(int, int)>,
    start: nat,
    size: nat,
    align: nat,
)
    requires
        live_set_ok(pre, live),
        live.contains((start as int, size as int)),
        <BuddyAllocator as VectorAllocator>::dealloc_rel(pre, post, start, size, align),
    ensures
        live_set_ok(post, live.remove((start as int, size as int))),
{
    let fb = (start as int, size as int);
    let live2 = live.remove(fb);
    assert forall|r2: (int, int), x: int|
        #[trigger] live2.contains(r2) && r2.0 <= x < r2.0 + r2.1 implies !(
    #[trigger] post.is_free_addr(x)) by {
        assert(live.contains(r2));
        assert(!pre.is_free_addr(x));
        // the freed range is a different live range, so it misses x
        assert(r2.0 + r2.1 <= fb.0 || fb.0 + fb.1 <= r2.0);
        if post.is_free_addr(x) {
            assert(post.free_addrs().contains(x));
        }
    }
}


/// Every address of `[lo, lo + len)` is free.
pub open spec fn all_free(b: BuddyAllocator, lo: int, len: int) -> bool {
    forall|x: int| lo <= x < lo + len ==> #[trigger] b.is_free_addr(x)
}

/// Two power-of-two aligned ranges that intersect are nested: the
/// smaller lies inside the larger.
proof fn lemma_dyadic_nest(a1: int, k1: nat, a2: int, k2: nat)
    requires
        k1 <= k2,
        a1 >= 0,
        a2 >= 0,
        a1 % pow2(k1) as int == 0,
        a2 % pow2(k2) as int == 0,
        a1 < a2 + pow2(k2),
        a2 < a1 + pow2(k1),
    ensures
        a2 <= a1,
        a1 + pow2(k1) <= a2 + pow2(k2),
{
    lemma_pow2_pos(k1);
    lemma_pow2_pos(k2);
    vstd::arithmetic::power2::lemma_pow2_adds(k1, (k2 - k1) as nat);
    let p1 = pow2(k1) as int;
    let p2 = pow2(k2) as int;
    lemma_pow2_div_down(a2, k1, k2);
    assert(a2 <= a1) by (nonlinear_arith)
        requires
            p1 > 0,
            a1 >= 0,
            a2 >= 0,
            a1 % p1 == 0,
            a2 % p1 == 0,
            a2 < a1 + p1,
    ;
    let d = a1 - a2;
    assert(d % p1 == 0) by {
        vstd::arithmetic::div_mod::lemma_sub_mod_noop(a1, a2, p1);
        assert(0int % p1 == 0) by (nonlinear_arith)
            requires
                p1 > 0,
        ;
    }
    assert(d + p1 <= p2) by (nonlinear_arith)
        requires
            p1 > 0,
            p2 == p1 * pow2((k2 - k1) as nat),
            pow2((k2 - k1) as nat) >= 1,
            0 <= d < p2,
            d % p1 == 0,
    ;
}

/// A fully free, aligned power-of-two region lies inside one free
/// block: were it covered by smaller blocks, two of them would be free
/// buddies, which the invariant rules out. In particular a freed range
/// always sits inside a single free block of at least its own order.
pub proof fn lemma_free_region_in_block(b: BuddyAllocator, lo: int, k: nat) -> (blk: (int, int))
    requires
        b.inv(),
        lo >= 0,
        k <= 36,
        lo % pow2(k) as int == 0,
        all_free(b, lo, pow2(k) as int),
    ensures
        b.has_block(blk.0, blk.1),
        0 <= blk.0 < MAX_POW,
        blk.1 >= 0,
        blk.1 as int % pow2(blk.0 as nat) as int == 0,
        blk.1 <= lo,
        lo + pow2(k) <= blk.1 + pow2(blk.0 as nat),
    decreases k,
{
    lemma_pow2_pos(k);
    if k == 0 {
        assert(pow2(0) == 1) by {
            lemma2_to64();
        }
        assert(b.is_free_addr(lo));
        let (kw, iw) = choose|kw: int, iw: int|
            0 <= kw < MAX_POW && 0 <= iw < b.list_at(kw).len() && (#[trigger] b.list_at(kw)[
                iw
            ]) <= lo < b.list_at(kw)[iw] + pow2(kw as nat);
        let blk = (kw, b.list_at(kw)[iw] as int);
        assert(b.has_block(blk.0, blk.1));
        blk
    } else {
        lemma_pow2_unfold(k);
        lemma_pow2_pos((k - 1) as nat);
        let half = pow2((k - 1) as nat) as int;
        proof_decompose_region(b, lo, k);
        let b1 = lemma_free_region_in_block(b, lo, (k - 1) as nat);
        let b2 = lemma_free_region_in_block(b, lo + half, (k - 1) as nat);
        if pow2(b1.0 as nat) >= pow2(k) {
            // the left half's block is big enough to hold the region
            assert((b1.0 as nat) >= k) by {
                if (b1.0 as nat) < k {
                    lemma_pow2_strictly_increases(b1.0 as nat, k);
                }
            }
            lemma_dyadic_nest(lo, k, b1.1, b1.0 as nat);
            b1
        } else if pow2(b2.0 as nat) >= pow2(k) {
            assert((b2.0 as nat) >= k) by {
                if (b2.0 as nat) < k {
                    lemma_pow2_strictly_increases(b2.0 as nat, k);
                }
            }
            assert(b2.1 < lo + pow2(k) && lo < b2.1 + pow2(b2.0 as nat));
            lemma_dyadic_nest(lo, k, b2.1, b2.0 as nat);
            b2
        } else {
            // both halves are covered by blocks no larger than a half:
            // each must be exactly its half, and the two are free buddies
            assert((b1.0 as nat) <= (k - 1) as nat) by {
                if (b1.0 as nat) == k {
                } else if (b1.0 as nat) > k {
                    lemma_pow2_strictly_increases(k, b1.0 as nat);
                }
            }
            assert((b2.0 as nat) <= (k - 1) as nat) by {
                if (b2.0 as nat) == k {
                } else if (b2.0 as nat) > k {
                    lemma_pow2_strictly_increases(k, b2.0 as nat);
                }
            }
            assert(b1.0 as nat == (k - 1) as nat && b1.1 == lo) by {
                if (b1.0 as nat) < (k - 1) as nat {
                    lemma_pow2_strictly_increases(b1.0 as nat, (k - 1) as nat);
                }
                assert(pow2(b1.0 as nat) == pow2((k - 1) as nat)) by {
                    if pow2(b1.0 as nat) < pow2((k - 1) as nat) {
                    }
                }
            }
            assert(b2.0 as nat == (k - 1) as nat && b2.1 == lo + half) by {
                if (b2.0 as nat) < (k - 1) as nat {
                    lemma_pow2_strictly_increases(b2.0 as nat, (k - 1) as nat);
                }
            }
            // the buddy of the left half is the right half
            lemma_pow2_div_down(lo, (k - 1) as nat, k);
            assert(buddy_of((k - 1) as int, lo) == lo + half) by {
                assert(lo % (2 * pow2((k - 1) as nat) as int) == 0);
            }
            let i1 = choose|i: int|
                0 <= i < b.list_at(b1.0).len() && #[trigger] b.list_at(b1.0)[i] == b1.1;
            let i2 = choose|i: int|
                0 <= i < b.list_at(b2.0).len() && #[trigger] b.list_at(b2.0)[i] == b2.1;
            assert(b.list_at((k - 1) as int)[i2] as int == buddy_of(
                (k - 1) as int,
                b.list_at((k - 1) as int)[i1] as int,
            ));
            assert(false);
            b1
        }
    }
}

/// Both halves of a free aligned region are free aligned regions.
proof fn proof_decompose_region(b: BuddyAllocator, lo: int, k: nat)
    requires
        k >= 1,
        lo >= 0,
        lo % pow2(k) as int == 0,
        all_free(b, lo, pow2(k) as int),
    ensures
        lo % pow2((k - 1) as nat) as int == 0,
        (lo + pow2((k - 1) as nat)) % pow2((k - 1) as nat) as int == 0,
        all_free(b, lo, pow2((k - 1) as nat) as int),
        all_free(b, lo + pow2((k - 1) as nat), pow2((k - 1) as nat) as int),
{
    lemma_pow2_unfold(k);
    lemma_pow2_pos((k - 1) as nat);
    lemma_pow2_div_down(lo, (k - 1) as nat, k);
    vstd::arithmetic::div_mod::lemma_mod_self_0(pow2((k - 1) as nat) as int);
    lemma_mod_sum_zero(lo, pow2((k - 1) as nat) as int, pow2((k - 1) as nat) as int);
}

/// If one of two order-`k` buddies lies inside a larger aligned block,
/// their whole parent does, and with it the other buddy.
proof fn lemma_parent_in_block(a: int, bd: int, t: int, k: nat, kb: nat)
    requires
        k + 1 <= kb <= 36,
        a >= 0,
        bd >= 0,
        t >= 0,
        a % pow2(k) as int == 0,
        t % pow2(kb) as int == 0,
        bd == buddy_of(k as int, a),
        t <= bd,
        bd + pow2(k) <= t + pow2(kb),
    ensures
        t <= a,
        a + pow2(k) <= t + pow2(kb),
{
    lemma_pow2_pos(k);
    lemma_pow2_pos(kb);
    lemma_pow2_unfold((k + 1) as nat);
    let p = pow2(k) as int;
    let pa: int = if a % (2 * p) == 0 {
        a
    } else {
        a - p
    };
    assert(pa % pow2((k + 1) as nat) as int == 0 && pa >= 0) by {
        if a % (2 * p) == 0 {
        } else {
            lemma_odd_multiple(a, p);
        }
    }
    assert(t % pow2((k + 1) as nat) as int == 0) by {
        lemma_pow2_div_down(t, (k + 1) as nat, kb);
    }
    // the parent holds both buddies and intersects the block
    assert(pa <= a < pa + 2 * p && pa <= bd < pa + 2 * p);
    lemma_dyadic_nest(pa, (k + 1) as nat, t, kb);
}

/// In a well-formed allocator a block is exactly an aligned free range
/// whose buddy range is not entirely free: the blocks are determined by
/// the free addresses alone, so a caller can read the block layout off
/// the free set the other contracts give.
pub proof fn lemma_block_characterized(b: BuddyAllocator, k: int, a: int)
    requires
        b.inv(),
        0 <= k <= 30,
        a >= 0,
    ensures
        b.has_block(k, a) <==> (a % pow2(k as nat) as int == 0 && all_free(b, a, pow2(k as nat) as int)
            && !all_free(b, buddy_of(k, a), pow2(k as nat) as int)),
{
    lemma_pow2_pos(k as nat);
    lemma_pow2_unfold((k + 1) as nat);
    if b.has_block(k, a) {
        let i = choose|i: int| 0 <= i < b.list_at(k).len() && #[trigger] b.list_at(k)[i] == a;
        assert(a % pow2(k as nat) as int == 0);
        assert forall|x: int| a <= x < a + pow2(k as nat) implies #[trigger] b.is_free_addr(x) by {
            assert(b.list_at(k)[i] <= x < b.list_at(k)[i] + pow2(k as nat));
        }
        if all_free(b, buddy_of(k, a), pow2(k as nat) as int) {
            // the fully free buddy range lies in one block, which then
            // overlaps or pairs with the block at `a`
            let bd = buddy_of(k, a);
            assert(bd >= 0 && bd % pow2(k as nat) as int == 0) by {
                if a % (2 * pow2(k as nat) as int) == 0 {
                    vstd::arithmetic::div_mod::lemma_mod_self_0(pow2(k as nat) as int);
                    lemma_mod_sum_zero(a, pow2(k as nat) as int, pow2(k as nat) as int);
                } else {
                    lemma_odd_multiple(a, pow2(k as nat) as int);
                    lemma_pow2_div_down(bd, k as nat, (k + 1) as nat);
                }
            }
            let blk = lemma_free_region_in_block(b, bd, k as nat);
            let j = choose|j: int|
                0 <= j < b.list_at(blk.0).len() && #[trigger] b.list_at(blk.0)[j] == blk.1;
            if blk.0 == k && blk.1 == bd {
                // an exact free buddy: the coalescence invariant is broken
                assert(b.list_at(k)[j] as int == buddy_of(k, b.list_at(k)[i] as int)) by {
                    lemma_buddy_symm(k, a, bd);
                }
                assert(false);
            } else {
                // a strictly larger block holds the buddy range, hence the
                // whole parent, overlapping the block at `a`
                assert(blk.0 > k) by {
                    if blk.0 < k {
                        lemma_pow2_strictly_increases(blk.0 as nat, k as nat);
                        // a smaller block cannot cover the whole range
                        assert(bd + pow2(k as nat) <= blk.1 + pow2(blk.0 as nat));
                        assert(blk.1 <= bd);
                        assert(false);
                    }
                    if blk.0 == k {
                        // same order covering the range forces equality
                        assert(blk.1 <= bd && bd + pow2(k as nat) <= blk.1 + pow2(k as nat));
                        assert(blk.1 == bd);
                        assert(false);
                    }
                }
                lemma_pow2_strictly_increases(k as nat, blk.0 as nat);
                assert(a < blk.1 + pow2(blk.0 as nat) && blk.1 < a + pow2(k as nat)) by {
                    // the buddy's parent reaches back over `a`'s range
                    lemma_parent_in_block(a, bd, blk.1, k as nat, blk.0 as nat);
                }
                lemma_dyadic_nest(a, k as nat, blk.1, blk.0 as nat);
                // now the block at `a` and the larger block overlap
                assert(b.list_at(k)[i] + pow2(k as nat) <= b.list_at(blk.0)[j]
                    || b.list_at(blk.0)[j] + pow2(blk.0 as nat) <= b.list_at(k)[i]);
                assert(false);
            }
        }
    }
    if a % pow2(k as nat) as int == 0 && all_free(b, a, pow2(k as nat) as int) && !all_free(
        b,
        buddy_of(k, a),
        pow2(k as nat) as int,
    ) {
        let blk = lemma_free_region_in_block(b, a, k as nat);
        if blk.0 == k {
            lemma_dyadic_nest(a, k as nat, blk.1, blk.0 as nat);
            assert(blk.1 == a);
            assert(b.has_block(k, a));
        } else if blk.0 > k {
            // a strictly larger block would make the buddy range free too
            lemma_dyadic_nest(a, k as nat, blk.1, blk.0 as nat);
            lemma_pow2_strictly_increases(k as nat, blk.0 as nat);
            let bd = buddy_of(k, a);
            assert(bd >= 0 && bd % pow2(k as nat) as int == 0 && (bd + pow2(k as nat) <= a || a
                + pow2(k as nat) <= bd) && (if a % (2 * pow2(k as nat) as int) == 0 {
                bd == a + pow2(k as nat)
            } else {
                bd == a - pow2(k as nat)
            })) by {
                if a % (2 * pow2(k as nat) as int) == 0 {
                    vstd::arithmetic::div_mod::lemma_mod_self_0(pow2(k as nat) as int);
                    lemma_mod_sum_zero(a, pow2(k as nat) as int, pow2(k as nat) as int);
                } else {
                    lemma_odd_multiple(a, pow2(k as nat) as int);
                    lemma_pow2_div_down(a - pow2(k as nat), k as nat, (k + 1) as nat);
                }
            }
            // the parent of `a` lies inside the bigger block, so the buddy
            // range is inside it too
            assert(blk.1 <= a && a + pow2(k as nat) <= blk.1 + pow2(blk.0 as nat));
            assert(bd >= blk.1 && bd + pow2(k as nat) <= blk.1 + pow2(blk.0 as nat)) by {
                lemma_buddy_symm(k, a, bd);
                lemma_parent_in_block(bd, a, blk.1, k as nat, blk.0 as nat);
            }
            let i = choose|i: int|
                0 <= i < b.list_at(blk.0).len() && #[trigger] b.list_at(blk.0)[i] == blk.1;
            assert forall|x: int| bd <= x < bd + pow2(k as nat) implies #[trigger] b.is_free_addr(
                x,
            ) by {
                assert(b.list_at(blk.0)[i] <= x < b.list_at(blk.0)[i] + pow2(blk.0 as nat));
            }
            assert(false);
        } else {
            lemma_pow2_strictly_increases(blk.0 as nat, k as nat);
            lemma_dyadic_nest(blk.1, blk.0 as nat, a, k as nat);
            assert(false) by {
                assert(blk.1 <= a && a + pow2(k as nat) <= blk.1 + pow2(blk.0 as nat));
                assert(pow2(k as nat) <= pow2(blk.0 as nat));
            }
        }
    }
}


/// Well-formed, fully coalesced free lists are determined by the free
/// addresses alone: two allocators with the same free set hold exactly
/// the same blocks.
pub proof fn lemma_buddy_blocks_determined(b1: BuddyAllocator, b2: BuddyAllocator)
    requires
        b1.inv(),
        b2.inv(),
        forall|x: int| #[trigger] b1.is_free_addr(x) <==> b2.is_free_addr(x),
    ensures
        forall|k: int, a: int| #[trigger] b1.has_block(k, a) <==> #[trigger] b2.has_block(k, a),
{
    assert forall|k: int, a: int| #[trigger] b1.has_block(k, a) <==> #[trigger] b2.has_block(
        k,
        a,
    ) by {
        if 0 <= k <= 30 && a >= 0 {
            lemma_block_characterized(b1, k, a);
            lemma_block_characterized(b2, k, a);
            lemma_pow2_pos(k as nat);
            assert(all_free(b1, a, pow2(k as nat) as int) == all_free(
                b2,
                a,
                pow2(k as nat) as int,
            )) by {
                if all_free(b1, a, pow2(k as nat) as int) {
                    assert forall|x: int| a <= x < a + pow2(k as nat) implies #[trigger] b2
                        .is_free_addr(x) by {
                        assert(b1.is_free_addr(x));
                    }
                }
                if all_free(b2, a, pow2(k as nat) as int) {
                    assert forall|x: int| a <= x < a + pow2(k as nat) implies #[trigger] b1
                        .is_free_addr(x) by {
                        assert(b2.is_free_addr(x));
                    }
                }
            }
            let bd = buddy_of(k, a);
            assert(all_free(b1, bd, pow2(k as nat) as int) == all_free(
                b2,
                bd,
                pow2(k as nat) as int,
            )) by {
                if all_free(b1, bd, pow2(k as nat) as int) {
                    assert forall|x: int| bd <= x < bd + pow2(k as nat) implies #[trigger] b2
                        .is_free_addr(x) by {
                        assert(b1.is_free_addr(x));
                    }
                }
                if all_free(b2, bd, pow2(k as nat) as int) {
                    assert forall|x: int| bd <= x < bd + pow2(k as nat) implies #[trigger] b1
                        .is_free_addr(x) by {
                        assert(b2.is_free_addr(x));
                    }
                }
            }
        } else {
            // no block has a negative address or an order past the span
            assert(!b1.has_block(k, a)) by {
                if b1.has_block(k, a) {
                    let i = choose|i: int|
                        0 <= i < b1.list_at(k).len() && #[trigger] b1.list_at(k)[i] == a;
                    assert(a >= 0);
                    if k > 30 {
                        lemma_pow2_strictly_increases(30, k as nat);
                        assert(pow2(30) == 0x40000000) by {
                            lemma2_to64();
                        }
                    }
                }
            }
            assert(!b2.has_block(k, a)) by {
                if b2.has_block(k, a) {
                    let i = choose|i: int|
                        0 <= i < b2.list_at(k).len() && #[trigger] b2.list_at(k)[i] == a;
                    assert(a >= 0);
                    if k > 30 {
                        lemma_pow2_strictly_increases(30, k as nat);
                        assert(pow2(30) == 0x40000000) by {
                            lemma2_to64();
                        }
                    }
                }
            }
        }
    }
}

/// Full coalescence on a round trip: allocating a block and freeing it
/// again returns the allocator to exactly its previous free-list
/// partition, block for block.
pub proof fn lemma_buddy_round_trip_partition(
    b0: BuddyAllocator,
    b1: BuddyAllocator,
    b2: BuddyAllocator,
    size: nat,
    align: nat,
    r: usize,
)
    requires
        size <= MAX_CAPACITY,
        b0.inv(),
        b2.inv(),
        <BuddyAllocator as VectorAllocator>::alloc_rel(b0, b1, size, align, Some(r)),
        <BuddyAllocator as VectorAllocator>::dealloc_rel(
            b1,
            b2,
            r as nat,
            pow2(min_pow_ge(size as int) as nat),
            align,
        ),
    ensures
        forall|k: int, a: int| #[trigger] b2.has_block(k, a) <==> #[trigger] b0.has_block(k, a),
{
    lemma_buddy_round_trip(b0, b1, b2, size, align, r);
    lemma_buddy_blocks_determined(b2, b0);
}

} // verus!
