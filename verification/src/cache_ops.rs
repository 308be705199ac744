//! The cache engine's data movement, generic over the cell type: a
//! cache is a flat buffer of `block_elems` cells per block, and the
//! operations the scheduler emits move whole blocks, within one cache
//! or across two. No policy and no arithmetic live here; the functions
//! execute their lists in order, exactly as the model below states.

use vstd::prelude::*;
use crate::block_engine::{CopyOp, SwapOp};

verus! {

/// The buffer after one block copy: the destination region holds the
/// source region's cells, everything else is untouched.
pub open spec fn spec_copy_block<T>(s: Seq<T>, block_elems: int, src: int, dst: int) -> Seq<T> {
    Seq::new(s.len(), |k: int|
        if dst * block_elems <= k < (dst + 1) * block_elems {
            s[k - dst * block_elems + src * block_elems]
        } else {
            s[k]
        })
}

/// The buffer after a list's first `n` copies, applied in order.
pub open spec fn spec_apply_copies<T>(s: Seq<T>, block_elems: int, ops: Seq<CopyOp>, n: int) -> Seq<T>
    decreases n,
{
    if n <= 0 {
        s
    } else {
        spec_copy_block(
            spec_apply_copies(s, block_elems, ops, n - 1),
            block_elems,
            ops[n - 1].src as int,
            ops[n - 1].dst as int,
        )
    }
}

/// A block fits the buffer.
pub open spec fn block_in_cache<T>(s: Seq<T>, block_elems: int, b: int) -> bool {
    (b + 1) * block_elems <= s.len()
}

/// Copy one block within a cache.
pub fn copy_block<T: Copy>(cache: &mut Vec<T>, block_elems: usize, src: usize, dst: usize)
    requires
        block_in_cache(old(cache)@, block_elems as int, src as int),
        block_in_cache(old(cache)@, block_elems as int, dst as int),
    ensures
        final(cache)@ == spec_copy_block(old(cache)@, block_elems as int, src as int,
            dst as int),
{
    let n = cache.len();
    proof {
        assert((src + 1) * block_elems == src * block_elems + block_elems
            && (dst + 1) * block_elems == dst * block_elems + block_elems
            && src * block_elems >= 0 && dst * block_elems >= 0) by (nonlinear_arith)
            requires
                src >= 0,
                dst >= 0,
                block_elems >= 0;
    }
    let src_base = src * block_elems;
    let dst_base = dst * block_elems;
    let mut k: usize = 0;
    while k < block_elems
        invariant
            k <= block_elems,
            src_base == src * block_elems,
            dst_base == dst * block_elems,
            src_base + block_elems <= cache@.len(),
            dst_base + block_elems <= cache@.len(),
            cache@.len() <= usize::MAX,
            cache@.len() == old(cache)@.len(),
            forall|i: int| dst_base <= i < dst_base + k
                ==> #[trigger] cache@[i] == old(cache)@[i - dst_base + src_base],
            forall|i: int| 0 <= i < cache@.len() && !(dst_base <= i < dst_base + k)
                ==> #[trigger] cache@[i] == old(cache)@[i],
        decreases block_elems - k,
    {
        // distinct blocks never overlap, and copying a block onto
        // itself reads each cell before it is written
        proof {
            if src < dst {
                assert(src_base + block_elems <= dst_base) by (nonlinear_arith)
                    requires
                        src + 1 <= dst,
                        block_elems >= 0,
                        src_base == src * block_elems,
                        dst_base == dst * block_elems;
            } else if dst < src {
                assert(dst_base + block_elems <= src_base) by (nonlinear_arith)
                    requires
                        dst + 1 <= src,
                        block_elems >= 0,
                        src_base == src * block_elems,
                        dst_base == dst * block_elems;
            }
        }
        let v = cache[src_base + k];
        proof {
            assert(v == old(cache)@[src_base + k]);
        }
        cache.set(dst_base + k, v);
        k = k + 1;
    }
    proof {
        assert(cache@ =~= spec_copy_block(old(cache)@, block_elems as int, src as int,
            dst as int));
    }
}

/// Execute a copy list in order, as the scheduler emitted it.
pub fn apply_copies<T: Copy>(cache: &mut Vec<T>, block_elems: usize, ops: &Vec<CopyOp>)
    requires
        forall|n: int| 0 <= n < ops@.len() ==> {
            &&& block_in_cache(old(cache)@, block_elems as int,
                (#[trigger] ops@[n]).src as int)
            &&& block_in_cache(old(cache)@, block_elems as int, ops@[n].dst as int)
        },
    ensures
        final(cache)@ == spec_apply_copies(old(cache)@, block_elems as int, ops@,
            ops@.len() as int),
{
    let mut n: usize = 0;
    while n < ops.len()
        invariant
            n <= ops@.len(),
            forall|m: int| 0 <= m < ops@.len() ==> {
                &&& block_in_cache(old(cache)@, block_elems as int,
                    (#[trigger] ops@[m]).src as int)
                &&& block_in_cache(old(cache)@, block_elems as int, ops@[m].dst as int)
            },
            cache@.len() == old(cache)@.len(),
            cache@ == spec_apply_copies(old(cache)@, block_elems as int, ops@, n as int),
        decreases ops@.len() - n,
    {
        let op = ops[n];
        copy_block(cache, block_elems, op.src, op.dst);
        n = n + 1;
    }
}

/// The destination buffer after one cross-device block copy.
pub open spec fn spec_swap_block<T>(
    from: Seq<T>,
    to: Seq<T>,
    block_elems: int,
    src: int,
    dst: int,
) -> Seq<T> {
    Seq::new(to.len(), |k: int|
        if dst * block_elems <= k < (dst + 1) * block_elems {
            from[k - dst * block_elems + src * block_elems]
        } else {
            to[k]
        })
}

/// The destination buffer after a swap list's first `n` copies.
pub open spec fn spec_apply_swaps<T>(
    from: Seq<T>,
    to: Seq<T>,
    block_elems: int,
    ops: Seq<SwapOp>,
    n: int,
) -> Seq<T>
    decreases n,
{
    if n <= 0 {
        to
    } else {
        spec_swap_block(
            from,
            spec_apply_swaps(from, to, block_elems, ops, n - 1),
            block_elems,
            ops[n - 1].src as int,
            ops[n - 1].dst as int,
        )
    }
}

/// Copy one block from one device's cache into the other's.
pub fn swap_block<T: Copy>(
    from: &Vec<T>,
    to: &mut Vec<T>,
    block_elems: usize,
    src: usize,
    dst: usize,
)
    requires
        block_in_cache(from@, block_elems as int, src as int),
        block_in_cache(old(to)@, block_elems as int, dst as int),
    ensures
        final(to)@ == spec_swap_block(from@, old(to)@, block_elems as int, src as int,
            dst as int),
{
    let n_from = from.len();
    let n_to = to.len();
    proof {
        assert((src + 1) * block_elems == src * block_elems + block_elems
            && (dst + 1) * block_elems == dst * block_elems + block_elems
            && src * block_elems >= 0 && dst * block_elems >= 0) by (nonlinear_arith)
            requires
                src >= 0,
                dst >= 0,
                block_elems >= 0;
    }
    let src_base = src * block_elems;
    let dst_base = dst * block_elems;
    let mut k: usize = 0;
    while k < block_elems
        invariant
            k <= block_elems,
            src_base == src * block_elems,
            dst_base == dst * block_elems,
            src_base + block_elems <= from@.len(),
            dst_base + block_elems <= to@.len(),
            from@.len() <= usize::MAX,
            to@.len() <= usize::MAX,
            to@.len() == old(to)@.len(),
            forall|i: int| dst_base <= i < dst_base + k
                ==> #[trigger] to@[i] == from@[i - dst_base + src_base],
            forall|i: int| 0 <= i < to@.len() && !(dst_base <= i < dst_base + k)
                ==> #[trigger] to@[i] == old(to)@[i],
        decreases block_elems - k,
    {
        let v = from[src_base + k];
        to.set(dst_base + k, v);
        k = k + 1;
    }
    proof {
        assert(to@ =~= spec_swap_block(from@, old(to)@, block_elems as int, src as int,
            dst as int));
    }
}

/// Execute a swap list in order: swap-in reads the host cache into the
/// accelerator cache, swap-out the reverse.
pub fn apply_swaps<T: Copy>(
    from: &Vec<T>,
    to: &mut Vec<T>,
    block_elems: usize,
    ops: &Vec<SwapOp>,
)
    requires
        forall|n: int| 0 <= n < ops@.len() ==> {
            &&& block_in_cache(from@, block_elems as int, (#[trigger] ops@[n]).src as int)
            &&& block_in_cache(old(to)@, block_elems as int, ops@[n].dst as int)
        },
    ensures
        final(to)@ == spec_apply_swaps(from@, old(to)@, block_elems as int, ops@,
            ops@.len() as int),
{
    let mut n: usize = 0;
    while n < ops.len()
        invariant
            n <= ops@.len(),
            forall|m: int| 0 <= m < ops@.len() ==> {
                &&& block_in_cache(from@, block_elems as int,
                    (#[trigger] ops@[m]).src as int)
                &&& block_in_cache(old(to)@, block_elems as int, ops@[m].dst as int)
            },
            to@.len() == old(to)@.len(),
            to@ == spec_apply_swaps(from@, old(to)@, block_elems as int, ops@, n as int),
        decreases ops@.len() - n,
    {
        let op = ops[n];
        swap_block(from, to, block_elems, op.src, op.dst);
        n = n + 1;
    }
}

} // verus!
