//! Fixed-capacity pool of cache blocks for one device.
//!
//! The pool is pure bookkeeping: it hands out block numbers and counts
//! references to them; it never touches tensor memory. A block with
//! reference count zero is free, and the free blocks are kept on a free
//! list so allocation pops in constant time.

use vstd::prelude::*;
use crate::error::EngineError;

verus! {

/// The device a block pool partitions: the accelerator cache or the
/// host swap space.
#[derive(Clone, Copy, PartialEq, Eq, Structural, Debug)]
pub enum Device {
    Gpu,
    Cpu,
}

/// Number of entries of `s` that are zero, that is, free blocks.
pub open spec fn count_free_blocks(s: Seq<u32>) -> int
    decreases s.len(),
{
    if s.len() == 0 {
        0
    } else {
        count_free_blocks(s.drop_last()) + if s.last() == 0u32 { 1int } else { 0int }
    }
}

/// Number of entries of `s` that are nonzero, that is, allocated blocks.
pub open spec fn count_allocated_blocks(s: Seq<u32>) -> int
    decreases s.len(),
{
    if s.len() == 0 {
        0
    } else {
        count_allocated_blocks(s.drop_last()) + if s.last() == 0u32 { 0int } else { 1int }
    }
}

/// Every block is either free or allocated, so the two counts partition
/// the capacity.
pub proof fn lemma_counts_partition(s: Seq<u32>)
    ensures
        count_free_blocks(s) + count_allocated_blocks(s) == s.len(),
        0 <= count_free_blocks(s),
        0 <= count_allocated_blocks(s),
    decreases s.len(),
{
    if s.len() > 0 {
        lemma_counts_partition(s.drop_last());
    }
}

/// How `count_free_blocks` changes when one entry is replaced.
pub proof fn lemma_count_free_update(s: Seq<u32>, i: int, v: u32)
    requires
        0 <= i < s.len(),
    ensures
        count_free_blocks(s.update(i, v)) == count_free_blocks(s)
            - (if s[i] == 0u32 { 1int } else { 0int })
            + (if v == 0u32 { 1int } else { 0int }),
    decreases s.len(),
{
    let t = s.update(i, v);
    if i == s.len() - 1 {
        assert(t.drop_last() =~= s.drop_last());
    } else {
        assert(t.drop_last() =~= s.drop_last().update(i, v));
        lemma_count_free_update(s.drop_last(), i, v);
    }
}

/// Reference-counted pool of `capacity` cache blocks.
///
/// `ref_counts[b]` is the number of logical positions, over all live
/// block tables, that reference block `b`. `free_list` holds exactly the
/// block numbers whose count is zero, each once.
pub struct BlockPool {
    ref_counts: Vec<u32>,
    free_list: Vec<usize>,
}

impl BlockPool {
    /// The reference counts, block number to count.
    pub closed spec fn rcs(self) -> Seq<u32> {
        self.ref_counts@
    }

    /// Total number of blocks in the pool, free or allocated.
    pub open spec fn capacity(self) -> int {
        self.rcs().len() as int
    }

    /// Reference count of block `b`.
    pub open spec fn rc(self, b: int) -> int {
        self.rcs()[b] as int
    }

    /// Number of free blocks.
    pub closed spec fn num_free_spec(self) -> int {
        self.free_list@.len() as int
    }

    /// The free list holds exactly the blocks with count zero, each once,
    /// so its length is the number of free blocks.
    pub closed spec fn wf(self) -> bool {
        &&& forall|i: int| 0 <= i < self.free_list@.len()
                ==> (#[trigger] self.free_list@[i]) < self.ref_counts@.len()
        &&& forall|i: int| 0 <= i < self.free_list@.len()
                ==> self.ref_counts@[#[trigger] self.free_list@[i] as int] == 0u32
        &&& forall|i: int, j: int| 0 <= i < j < self.free_list@.len()
                ==> #[trigger] self.free_list@[i] != #[trigger] self.free_list@[j]
        &&& forall|b: int| 0 <= b < self.ref_counts@.len() && self.ref_counts@[b] == 0u32
                ==> exists|i: int| 0 <= i < self.free_list@.len()
                        && #[trigger] self.free_list@[i] == b
        &&& self.free_list@.len() == count_free_blocks(self.ref_counts@)
    }

    /// A pool of `capacity` blocks, all free.
    pub fn new(capacity: usize) -> (p: Self)
        ensures
            p.wf(),
            p.capacity() == capacity,
            p.num_free_spec() == capacity,
            forall|b: int| 0 <= b < capacity ==> p.rc(b) == 0,
    {
        let mut ref_counts: Vec<u32> = Vec::new();
        let mut free_list: Vec<usize> = Vec::new();
        let mut i: usize = 0;
        while i < capacity
            invariant
                i <= capacity,
                ref_counts@.len() == i,
                free_list@.len() == i,
                forall|b: int| 0 <= b < i ==> ref_counts@[b] == 0u32,
                forall|j: int| 0 <= j < i ==> #[trigger] free_list@[j] == j,
                free_list@.len() == count_free_blocks(ref_counts@),
            decreases capacity - i,
        {
            let ghost old_rcs = ref_counts@;
            ref_counts.push(0);
            free_list.push(i);
            proof {
                assert(ref_counts@.drop_last() =~= old_rcs);
            }
            i = i + 1;
        }
        let ghost gf = free_list@;
        let p = BlockPool { ref_counts, free_list };
        proof {
            assert forall|b: int|
                0 <= b < p.ref_counts@.len() && p.ref_counts@[b] == 0u32
                implies exists|j: int|
                    0 <= j < p.free_list@.len() && #[trigger] p.free_list@[j] == b
            by {
                assert(p.free_list@ =~= gf);
                assert(p.free_list@[b] == b);
            }
        }
        p
    }

    /// Number of free blocks.
    pub fn num_free(&self) -> (n: usize)
        ensures
            n == self.num_free_spec(),
    {
        self.free_list.len()
    }

    /// Number of allocated blocks, that is, blocks with a nonzero count.
    pub fn num_allocated(&self) -> (n: usize)
        requires
            self.wf(),
        ensures
            n == count_allocated_blocks(self.rcs()),
            n == self.capacity() - self.num_free_spec(),
    {
        proof {
            lemma_counts_partition(self.ref_counts@);
        }
        self.ref_counts.len() - self.free_list.len()
    }

    /// Total number of blocks.
    pub fn capacity_blocks(&self) -> (n: usize)
        ensures
            n == self.capacity(),
    {
        self.ref_counts.len()
    }

    /// Reference count of block `b`.
    pub fn ref_count(&self, b: usize) -> (r: u32)
        requires
            0 <= b < self.capacity(),
        ensures
            r == self.rc(b as int),
    {
        self.ref_counts[b]
    }

    /// Pop a free block and give it reference count one, under the
    /// caller's proof that one is free.
    pub fn take_free_block(&mut self) -> (b: usize)
        requires
            old(self).wf(),
            old(self).num_free_spec() >= 1,
        ensures
            final(self).wf(),
            final(self).capacity() == old(self).capacity(),
            0 <= b < old(self).capacity(),
            old(self).rc(b as int) == 0,
            final(self).rcs() == old(self).rcs().update(b as int, 1u32),
            final(self).num_free_spec() == old(self).num_free_spec() - 1,
    {
        let ghost old_free = self.free_list@;
        let ghost old_rcs = self.ref_counts@;
        let b = self.free_list.pop().unwrap();
        self.ref_counts.set(b, 1);
        proof {
            assert(old_free[old_free.len() - 1] == b);
            assert(self.free_list@ =~= old_free.drop_last());
            lemma_count_free_update(old_rcs, b as int, 1u32);
            assert forall|c: int|
                0 <= c < self.ref_counts@.len() && self.ref_counts@[c] == 0u32
                implies exists|i: int|
                    0 <= i < self.free_list@.len() && #[trigger] self.free_list@[i] == c
            by {
                assert(c != b);
                assert(old_rcs[c] == 0u32);
                let i = choose|i: int| 0 <= i < old_free.len() && #[trigger] old_free[i] == c;
                assert(i != old_free.len() - 1);
                assert(self.free_list@[i] == c);
            }
        }
        b
    }

    /// Pop a free block and give it reference count one.
    ///
    /// Fails with `OutOfMemory`, leaving the pool unchanged, exactly when
    /// no block is free.
    pub fn allocate(&mut self) -> (r: Result<usize, EngineError>)
        requires
            old(self).wf(),
        ensures
            final(self).wf(),
            final(self).capacity() == old(self).capacity(),
            match r {
                Ok(b) => {
                    &&& old(self).num_free_spec() > 0
                    &&& 0 <= b < old(self).capacity()
                    &&& old(self).rc(b as int) == 0
                    &&& final(self).rcs() == old(self).rcs().update(b as int, 1u32)
                    &&& final(self).num_free_spec() == old(self).num_free_spec() - 1
                },
                Err(e) => {
                    &&& e == EngineError::OutOfMemory
                    &&& old(self).num_free_spec() == 0
                    &&& *final(self) == *old(self)
                },
            },
    {
        if self.free_list.len() == 0 {
            return Err(EngineError::OutOfMemory);
        }
        Ok(self.take_free_block())
    }

    /// Record one more reference to the allocated block `b`, as when a
    /// sibling sequence is spawned sharing prefix blocks.
    ///
    /// Fails with `PoolInvariantViolation`, leaving the pool unchanged,
    /// exactly when the count can no longer be represented.
    pub fn fork(&mut self, b: usize) -> (r: Result<(), EngineError>)
        requires
            old(self).wf(),
            0 <= b < old(self).capacity(),
            old(self).rc(b as int) >= 1,
        ensures
            final(self).wf(),
            final(self).capacity() == old(self).capacity(),
            match r {
                Ok(()) => {
                    &&& old(self).rc(b as int) < u32::MAX
                    &&& final(self).rcs() == old(self).rcs().update(
                        b as int,
                        (old(self).rc(b as int) + 1) as u32,
                    )
                    &&& final(self).num_free_spec() == old(self).num_free_spec()
                },
                Err(e) => {
                    &&& e == EngineError::PoolInvariantViolation
                    &&& old(self).rc(b as int) == u32::MAX
                    &&& *final(self) == *old(self)
                },
            },
    {
        let rc = self.ref_counts[b];
        if rc == u32::MAX {
            return Err(EngineError::PoolInvariantViolation);
        }
        let ghost old_rcs = self.ref_counts@;
        let ghost old_free = self.free_list@;
        self.ref_counts.set(b, rc + 1);
        proof {
            lemma_count_free_update(old_rcs, b as int, (rc + 1) as u32);
            assert forall|c: int|
                0 <= c < self.ref_counts@.len() && self.ref_counts@[c] == 0u32
                implies exists|i: int|
                    0 <= i < self.free_list@.len() && #[trigger] self.free_list@[i] == c
            by {
                assert(old_rcs[c] == 0u32);
                let i = choose|i: int| 0 <= i < old_free.len() && #[trigger] old_free[i] == c;
                assert(self.free_list@[i] == c);
            }
        }
        Ok(())
    }

    /// Drop one reference to the allocated block `b`; a block whose count
    /// reaches zero returns to the free list.
    pub fn release(&mut self, b: usize)
        requires
            old(self).wf(),
            0 <= b < old(self).capacity(),
            old(self).rc(b as int) >= 1,
        ensures
            final(self).wf(),
            final(self).capacity() == old(self).capacity(),
            final(self).rcs() == old(self).rcs().update(
                b as int,
                (old(self).rc(b as int) - 1) as u32,
            ),
            final(self).num_free_spec() == old(self).num_free_spec()
                + if old(self).rc(b as int) == 1 { 1int } else { 0int },
    {
        let rc = self.ref_counts[b];
        let ghost old_rcs = self.ref_counts@;
        let ghost old_free = self.free_list@;
        self.ref_counts.set(b, rc - 1);
        proof {
            lemma_count_free_update(old_rcs, b as int, (rc - 1) as u32);
        }
        if rc == 1 {
            self.free_list.push(b);
            proof {
                assert(self.free_list@ =~= old_free.push(b));
                // `b` had count one, so it was not on the free list, and
                // appending it keeps the entries distinct.
                assert forall|c: int|
                    0 <= c < self.ref_counts@.len() && self.ref_counts@[c] == 0u32
                    implies exists|i: int|
                        0 <= i < self.free_list@.len() && #[trigger] self.free_list@[i] == c
                by {
                    if c == b {
                        assert(self.free_list@[old_free.len() as int] == c);
                    } else {
                        let i = choose|i: int|
                            0 <= i < old_free.len() && #[trigger] old_free[i] == c;
                        assert(self.free_list@[i] == c);
                    }
                }
            }
        } else {
            proof {
                assert forall|c: int|
                    0 <= c < self.ref_counts@.len() && self.ref_counts@[c] == 0u32
                    implies exists|i: int|
                        0 <= i < self.free_list@.len() && #[trigger] self.free_list@[i] == c
                by {
                    assert(old_rcs[c] == 0u32);
                    let i = choose|i: int|
                        0 <= i < old_free.len() && #[trigger] old_free[i] == c;
                    assert(self.free_list@[i] == c);
                }
            }
        }
    }

    /// The reference counts determine the free count: two well-formed
    /// pools with the same counts have equally long free lists.
    pub proof fn lemma_rcs_determine_free(p1: Self, p2: Self)
        requires
            p1.wf(),
            p2.wf(),
            p1.rcs() == p2.rcs(),
        ensures
            p1.num_free_spec() == p2.num_free_spec(),
    {
    }

    /// The free count and the allocated count always partition the
    /// capacity: an allocated block has count at least one, a free block
    /// sits on the free list, and no block is both.
    pub proof fn lemma_free_allocated_conservation(self)
        requires
            self.wf(),
        ensures
            self.num_free_spec() + count_allocated_blocks(self.rcs()) == self.capacity(),
    {
        lemma_counts_partition(self.ref_counts@);
    }
}

} // verus!
