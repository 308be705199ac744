//! Per-sequence block-table operations: building a table for a prompt,
//! forking it to a sibling, growing it by one token with copy-on-write,
//! freeing it, and moving it between devices.
//!
//! Every mutating operation states a conservation delta: for each block,
//! the pool's reference count moves exactly by the change in the number
//! of occurrences of that block in the touched sequence's table. The
//! scheduler keeps its global invariant (count equals references) by
//! composing these deltas.

use vstd::prelude::*;
use crate::block_pool::{BlockPool, Device};
use crate::counting::{
    count_in_table, lemma_count_in_table_at, lemma_count_in_table_nonneg,
    lemma_count_in_table_push, lemma_count_in_table_update,
};
use crate::error::EngineError;
use crate::sequence::{blocks_for_tokens, Sequence};

verus! {

/// A block-to-block copy within the accelerator cache, to be executed
/// before the next forward pass reads or writes `dst`.
#[derive(Clone, Copy, PartialEq, Eq, Structural, Debug)]
pub struct CopyOp {
    pub src: usize,
    pub dst: usize,
}

/// A cross-device block copy: `src` on the source device, `dst` on the
/// destination device.
#[derive(Clone, Copy, PartialEq, Eq, Structural, Debug)]
pub struct SwapOp {
    pub src: usize,
    pub dst: usize,
}

/// `blocks_for_tokens` written with division and remainder, which the
/// executable computation uses to avoid forming `num_tokens + block_size`.
pub proof fn lemma_blocks_for_tokens_div(nt: int, bs: int)
    requires
        bs >= 1,
        nt >= 0,
    ensures
        blocks_for_tokens(nt, bs) == nt / bs + if nt % bs == 0 { 0int } else { 1int },
{
    let q = nt / bs;
    let r = nt % bs;
    vstd::arithmetic::div_mod::lemma_fundamental_div_mod(nt, bs);
    vstd::arithmetic::div_mod::lemma_mod_bound(nt, bs);
    if r == 0 {
        assert(nt + bs - 1 == q * bs + (bs - 1)) by (nonlinear_arith)
            requires nt == bs * q + r && r == 0;
        vstd::arithmetic::div_mod::lemma_fundamental_div_mod_converse(
            nt + bs - 1, bs, q, bs - 1);
    } else {
        assert(nt + bs - 1 == (q + 1) * bs + (r - 1)) by (nonlinear_arith)
            requires nt == bs * q + r;
        vstd::arithmetic::div_mod::lemma_fundamental_div_mod_converse(
            nt + bs - 1, bs, q + 1, r - 1);
    }
}

/// How the block need grows when one token is appended: within a
/// partially filled last block it does not; at a block boundary it
/// grows by one.
pub proof fn lemma_blocks_for_next(nt: int, bs: int)
    requires
        bs >= 1,
        nt >= 0,
    ensures
        nt % bs != 0 ==> blocks_for_tokens(nt + 1, bs) == blocks_for_tokens(nt, bs),
        nt % bs == 0 ==> blocks_for_tokens(nt + 1, bs) == blocks_for_tokens(nt, bs) + 1,
{
    let q = nt / bs;
    let r = nt % bs;
    vstd::arithmetic::div_mod::lemma_fundamental_div_mod(nt, bs);
    vstd::arithmetic::div_mod::lemma_mod_bound(nt, bs);
    lemma_blocks_for_tokens_div(nt, bs);
    if r + 1 < bs {
        assert(nt + 1 == q * bs + (r + 1)) by (nonlinear_arith)
            requires nt == bs * q + r;
        vstd::arithmetic::div_mod::lemma_fundamental_div_mod_converse(nt + 1, bs, q, r + 1);
    } else {
        assert(nt + 1 == (q + 1) * bs + 0) by (nonlinear_arith)
            requires nt == bs * q + r && r + 1 == bs;
        vstd::arithmetic::div_mod::lemma_fundamental_div_mod_converse(nt + 1, bs, q + 1, 0);
    }
    lemma_blocks_for_tokens_div(nt + 1, bs);
}

/// An occurrence at position `k` is one more than the occurrences in
/// the prefix before `k`.
pub proof fn lemma_count_prefix_at(t: Seq<usize>, k: int, b: int)
    requires
        0 <= k < t.len(),
        t[k] == b,
    ensures
        count_in_table(t, b) >= count_in_table(t.subrange(0, k), b) + 1,
    decreases t.len(),
{
    if k == t.len() - 1 {
        assert(t.subrange(0, k) =~= t.drop_last());
    } else {
        assert(t.drop_last().subrange(0, k) =~= t.subrange(0, k));
        lemma_count_prefix_at(t.drop_last(), k, b);
    }
}

/// Number of blocks a sequence of `num_tokens` tokens needs.
pub fn blocks_needed(num_tokens: usize, block_size: usize) -> (n: usize)
    requires
        block_size >= 1,
    ensures
        n == blocks_for_tokens(num_tokens as int, block_size as int),
{
    let q = num_tokens / block_size;
    let r = num_tokens % block_size;
    proof {
        lemma_blocks_for_tokens_div(num_tokens as int, block_size as int);
        let nt = num_tokens as int;
        let bs = block_size as int;
        vstd::arithmetic::div_mod::lemma_fundamental_div_mod(nt, bs);
        vstd::arithmetic::div_mod::lemma_div_pos_is_pos(nt, bs);
        if r != 0 {
            assert(nt / bs < nt) by (nonlinear_arith)
                requires
                    nt == bs * (nt / bs) + nt % bs,
                    nt % bs >= 1,
                    bs >= 1,
                    nt / bs >= 0;
        }
    }
    if r == 0 {
        q
    } else {
        q + 1
    }
}

/// The table's entries lie in the pool and the pool counts at least the
/// table's own references: what releasing or sharing the table relies on.
pub open spec fn table_backed(seq: Sequence, pool: BlockPool) -> bool {
    &&& forall|k: int| 0 <= k < seq.block_table@.len()
            ==> (#[trigger] seq.block_table@[k]) < pool.capacity()
    &&& forall|b: int| 0 <= b < pool.capacity()
            ==> #[trigger] pool.rc(b) >= count_in_table(seq.block_table@, b)
}

/// The table is exactly as long as the token history requires.
pub open spec fn table_sized(seq: Sequence, block_size: int) -> bool {
    seq.block_table@.len() == blocks_for_tokens(seq.num_tokens_spec(), block_size)
}

/// The block-table manager: one accelerator pool, one host pool, and
/// the fixed block size. It changes bookkeeping only, never cache
/// memory; the copies it asks for are returned as operations.
pub struct BlockEngine {
    pub block_size: usize,
    pub gpu_pool: BlockPool,
    pub cpu_pool: BlockPool,
}

impl BlockEngine {
    pub open spec fn wf(self) -> bool {
        &&& self.block_size >= 1
        &&& self.gpu_pool.wf()
        &&& self.cpu_pool.wf()
    }

    /// Two fresh pools of the given sizes.
    pub fn new(block_size: usize, num_gpu_blocks: usize, num_cpu_blocks: usize) -> (e: Self)
        requires
            block_size >= 1,
        ensures
            e.wf(),
            e.block_size == block_size,
            e.gpu_pool.capacity() == num_gpu_blocks,
            e.cpu_pool.capacity() == num_cpu_blocks,
            e.gpu_pool.num_free_spec() == num_gpu_blocks,
            e.cpu_pool.num_free_spec() == num_cpu_blocks,
            forall|b: int| 0 <= b < num_gpu_blocks ==> e.gpu_pool.rc(b) == 0,
            forall|b: int| 0 <= b < num_cpu_blocks ==> e.cpu_pool.rc(b) == 0,
    {
        BlockEngine {
            block_size,
            gpu_pool: BlockPool::new(num_gpu_blocks),
            cpu_pool: BlockPool::new(num_cpu_blocks),
        }
    }

    /// Build the block table for a newly admitted sequence: exactly
    /// `ceil(num_tokens / block_size)` fresh accelerator blocks, each
    /// with reference count one.
    pub fn allocate(&mut self, seq: &mut Sequence)
        requires
            old(self).wf(),
            old(seq).block_table@.len() == 0,
            old(seq).num_tokens_spec() <= usize::MAX,
            old(self).gpu_pool.num_free_spec() >= blocks_for_tokens(
                old(seq).num_tokens_spec(), old(self).block_size as int),
        ensures
            final(self).wf(),
            final(self).block_size == old(self).block_size,
            final(self).cpu_pool == old(self).cpu_pool,
            final(self).gpu_pool.capacity() == old(self).gpu_pool.capacity(),
            table_sized(*final(seq), old(self).block_size as int),
            forall|k: int| 0 <= k < final(seq).block_table@.len()
                ==> (#[trigger] final(seq).block_table@[k]) < old(self).gpu_pool.capacity(),
            forall|b: int| 0 <= b < old(self).gpu_pool.capacity()
                ==> #[trigger] final(self).gpu_pool.rc(b) == old(self).gpu_pool.rc(b)
                    + count_in_table(final(seq).block_table@, b),
            final(self).gpu_pool.num_free_spec() == old(self).gpu_pool.num_free_spec()
                - blocks_for_tokens(old(seq).num_tokens_spec(), old(self).block_size as int),
            final(seq).id == old(seq).id,
            final(seq).prompt_token_ids == old(seq).prompt_token_ids,
            final(seq).output_token_ids == old(seq).output_token_ids,
            final(seq).status == old(seq).status,
    {
        let nt = seq.num_tokens();
        let needed = blocks_needed(nt, self.block_size);
        let mut k: usize = 0;
        while k < needed
            invariant
                k <= needed,
                needed == blocks_for_tokens(old(seq).num_tokens_spec(),
                    old(self).block_size as int),
                self.block_size == old(self).block_size,
                self.cpu_pool == old(self).cpu_pool,
                self.gpu_pool.wf(),
                self.gpu_pool.capacity() == old(self).gpu_pool.capacity(),
                old(self).gpu_pool.num_free_spec() >= needed,
                self.gpu_pool.num_free_spec() == old(self).gpu_pool.num_free_spec() - k,
                seq.block_table@.len() == k,
                forall|j: int| 0 <= j < k
                    ==> (#[trigger] seq.block_table@[j]) < old(self).gpu_pool.capacity(),
                forall|b: int| 0 <= b < old(self).gpu_pool.capacity()
                    ==> #[trigger] self.gpu_pool.rc(b) == old(self).gpu_pool.rc(b)
                        + count_in_table(seq.block_table@, b),
                seq.id == old(seq).id,
                seq.prompt_token_ids == old(seq).prompt_token_ids,
                seq.output_token_ids == old(seq).output_token_ids,
                seq.status == old(seq).status,
            decreases needed - k,
        {
            let ghost ppool = self.gpu_pool;
            let ghost pre_table = seq.block_table@;
            let nb = self.gpu_pool.take_free_block();
            seq.block_table.push(nb);
            proof {
                assert forall|b: int| 0 <= b < old(self).gpu_pool.capacity()
                    implies #[trigger] self.gpu_pool.rc(b) == old(self).gpu_pool.rc(b)
                        + count_in_table(seq.block_table@, b)
                by {
                    lemma_count_in_table_push(pre_table, nb, b);
                    lemma_count_in_table_nonneg(pre_table, b);
                    assert(ppool.rc(b) == old(self).gpu_pool.rc(b)
                        + count_in_table(pre_table, b));
                    assert(self.gpu_pool.rcs() == ppool.rcs().update(nb as int, 1u32));
                    if b == nb {
                        assert(ppool.rc(b) == 0);
                    }
                }
            }
            k = k + 1;
        }
    }

    /// Copy a parent's table to a fresh sibling: the child references
    /// the same blocks, and each of their counts rises by one.
    ///
    /// On a count that can no longer be represented the walk stops, the
    /// child keeps the prefix already forked, and the conservation delta
    /// still holds of that prefix, so the caller can free the child to
    /// roll back.
    pub fn fork(&mut self, parent: &Sequence, child: &mut Sequence) -> (r: Result<
        (),
        EngineError,
    >)
        requires
            old(self).wf(),
            old(child).block_table@.len() == 0,
            forall|k: int| 0 <= k < parent.block_table@.len()
                ==> (#[trigger] parent.block_table@[k]) < old(self).gpu_pool.capacity(),
            forall|k: int| 0 <= k < parent.block_table@.len()
                ==> old(self).gpu_pool.rc(#[trigger] parent.block_table@[k] as int) >= 1,
        ensures
            final(self).wf(),
            final(self).block_size == old(self).block_size,
            final(self).cpu_pool == old(self).cpu_pool,
            final(self).gpu_pool.capacity() == old(self).gpu_pool.capacity(),
            final(self).gpu_pool.num_free_spec() == old(self).gpu_pool.num_free_spec(),
            final(child).block_table@ == parent.block_table@.subrange(
                0, final(child).block_table@.len() as int),
            forall|b: int| 0 <= b < old(self).gpu_pool.capacity()
                ==> #[trigger] final(self).gpu_pool.rc(b) == old(self).gpu_pool.rc(b)
                    + count_in_table(final(child).block_table@, b),
            match r {
                Ok(()) => final(child).block_table@.len() == parent.block_table@.len(),
                Err(e) => {
                    &&& e == EngineError::PoolInvariantViolation
                    &&& final(child).block_table@.len() < parent.block_table@.len()
                },
            },
            final(child).id == old(child).id,
            final(child).prompt_token_ids == old(child).prompt_token_ids,
            final(child).output_token_ids == old(child).output_token_ids,
            final(child).status == old(child).status,
    {
        let len = parent.block_table.len();
        let mut k: usize = 0;
        while k < len
            invariant
                k <= len,
                len == parent.block_table@.len(),
                old(self).wf(),
                self.block_size == old(self).block_size,
                self.cpu_pool == old(self).cpu_pool,
                self.gpu_pool.wf(),
                self.gpu_pool.capacity() == old(self).gpu_pool.capacity(),
                self.gpu_pool.num_free_spec() == old(self).gpu_pool.num_free_spec(),
                forall|j: int| 0 <= j < len
                    ==> (#[trigger] parent.block_table@[j]) < old(self).gpu_pool.capacity(),
                forall|j: int| 0 <= j < len
                    ==> old(self).gpu_pool.rc(#[trigger] parent.block_table@[j] as int) >= 1,
                child.block_table@ =~= parent.block_table@.subrange(0, k as int),
                forall|b: int| 0 <= b < old(self).gpu_pool.capacity()
                    ==> #[trigger] self.gpu_pool.rc(b) == old(self).gpu_pool.rc(b)
                        + count_in_table(child.block_table@, b),
                child.id == old(child).id,
                child.prompt_token_ids == old(child).prompt_token_ids,
                child.output_token_ids == old(child).output_token_ids,
                child.status == old(child).status,
            decreases len - k,
        {
            let ghost ppool = self.gpu_pool;
            let ghost pre_table = child.block_table@;
            let e = parent.block_table[k];
            proof {
                lemma_count_in_table_nonneg(pre_table, e as int);
                assert(ppool.rc(e as int) == old(self).gpu_pool.rc(e as int)
                    + count_in_table(pre_table, e as int));
            }
            match self.gpu_pool.fork(e) {
                Ok(()) => {},
                Err(err) => {
                    return Err(err);
                },
            }
            child.block_table.push(e);
            proof {
                assert(child.block_table@ =~= parent.block_table@.subrange(0, k + 1));
                assert forall|b: int| 0 <= b < old(self).gpu_pool.capacity()
                    implies #[trigger] self.gpu_pool.rc(b) == old(self).gpu_pool.rc(b)
                        + count_in_table(child.block_table@, b)
                by {
                    lemma_count_in_table_push(pre_table, e, b);
                    assert(ppool.rc(b) == old(self).gpu_pool.rc(b)
                        + count_in_table(pre_table, b));
                    assert(self.gpu_pool.rcs()
                        == ppool.rcs().update(e as int, (ppool.rc(e as int) + 1) as u32));
                }
            }
            k = k + 1;
        }
        proof {
            assert(child.block_table@ =~= parent.block_table@.subrange(
                0, parent.block_table@.len() as int));
        }
        Ok(())
    }

    /// The pool that serves the given device.
    pub open spec fn pool_of(self, dev: Device) -> BlockPool {
        match dev {
            Device::Gpu => self.gpu_pool,
            Device::Cpu => self.cpu_pool,
        }
    }

    /// Append one sampled token to a running sequence.
    ///
    /// If the last block has a free slot and is unshared, the token
    /// lands there. At a block boundary a fresh block is allocated. A
    /// shared last block is first replaced by a fresh copy-on-write
    /// block, and the copy the cache engine must perform before the
    /// next forward pass is returned. After any success the sequence's
    /// last block has reference count one, so no write can touch a
    /// block another sequence observes.
    ///
    /// Fails with `OutOfMemory`, changing nothing, exactly when a fresh
    /// block is needed and none is free.
    pub fn append_token(&mut self, seq: &mut Sequence, t: u32) -> (r: Result<
        Option<CopyOp>,
        EngineError,
    >)
        requires
            old(self).wf(),
            table_sized(*old(seq), old(self).block_size as int),
            table_backed(*old(seq), old(self).gpu_pool),
        ensures
            final(self).wf(),
            final(self).block_size == old(self).block_size,
            final(self).cpu_pool == old(self).cpu_pool,
            final(self).gpu_pool.capacity() == old(self).gpu_pool.capacity(),
            match r {
                Ok(op) => {
                    &&& final(seq).output_token_ids@ == old(seq).output_token_ids@.push(t)
                    &&& final(seq).tokens() == old(seq).tokens().push(t)
                    &&& table_sized(*final(seq), old(self).block_size as int)
                    &&& forall|k: int| 0 <= k < final(seq).block_table@.len()
                            ==> (#[trigger] final(seq).block_table@[k])
                                < old(self).gpu_pool.capacity()
                    &&& forall|b: int| 0 <= b < old(self).gpu_pool.capacity()
                            ==> #[trigger] final(self).gpu_pool.rc(b)
                                == old(self).gpu_pool.rc(b)
                                    + count_in_table(final(seq).block_table@, b)
                                    - count_in_table(old(seq).block_table@, b)
                    &&& final(seq).block_table@.len() >= 1
                    &&& final(self).gpu_pool.rc(final(seq).block_table@.last() as int) == 1
                    &&& final(self).gpu_pool.num_free_spec()
                        == old(self).gpu_pool.num_free_spec()
                            - (if old(seq).num_tokens_spec()
                                    % (old(self).block_size as int) == 0 { 1int }
                                else if old(self).gpu_pool.rc(
                                    old(seq).block_table@.last() as int) > 1 { 1int }
                                else { 0int })
                    &&& (op is Some <==> (old(seq).num_tokens_spec()
                            % (old(self).block_size as int) != 0
                        && old(self).gpu_pool.rc(old(seq).block_table@.last() as int) > 1))
                    &&& match op {
                        Some(c) => {
                            &&& c.src == old(seq).block_table@.last()
                            &&& c.dst == final(seq).block_table@.last()
                            &&& c.src != c.dst
                            &&& c.src < old(self).gpu_pool.capacity()
                            &&& c.dst < old(self).gpu_pool.capacity()
                            &&& final(self).gpu_pool.rc(c.src as int) >= 1
                        },
                        None => true,
                    }
                    &&& final(seq).id == old(seq).id
                    &&& final(seq).prompt_token_ids == old(seq).prompt_token_ids
                    &&& final(seq).status == old(seq).status
                },
                Err(e) => {
                    &&& e == EngineError::OutOfMemory
                    &&& *final(seq) == *old(seq)
                    &&& *final(self) == *old(self)
                    &&& old(self).gpu_pool.num_free_spec() == 0
                    &&& (old(seq).num_tokens_spec() % (old(self).block_size as int) == 0
                        || old(self).gpu_pool.rc(old(seq).block_table@.last() as int) > 1)
                },
            },
    {
        let ghost bs = self.block_size as int;
        let ghost nt = old(seq).num_tokens_spec();
        let ghost old_table = seq.block_table@;
        let m = seq.num_tokens_mod(self.block_size);
        if m != 0 {
            proof {
                lemma_blocks_for_tokens_div(nt, bs);
                vstd::arithmetic::div_mod::lemma_div_pos_is_pos(nt, bs);
            }
            let last_idx = seq.block_table.len() - 1;
            let last = seq.block_table[last_idx];
            let rc = self.gpu_pool.ref_count(last);
            proof {
                lemma_count_in_table_at(old_table, last_idx as int, last as int);
            }
            if rc == 1 {
                seq.output_token_ids.push(t);
                proof {
                    lemma_blocks_for_next(nt, bs);
                    assert(seq.tokens() =~= old(seq).tokens().push(t));
                }
                Ok(None)
            } else {
                if self.gpu_pool.num_free() == 0 {
                    return Err(EngineError::OutOfMemory);
                }
                let ghost p0 = self.gpu_pool;
                let nb = self.gpu_pool.take_free_block();
                proof {
                    assert(nb != last);
                }
                self.gpu_pool.release(last);
                seq.block_table.set(last_idx, nb);
                seq.output_token_ids.push(t);
                proof {
                    lemma_blocks_for_next(nt, bs);
                    assert(seq.tokens() =~= old(seq).tokens().push(t));
                    assert(self.gpu_pool.rcs() == p0.rcs().update(nb as int, 1u32).update(
                        last as int, (p0.rc(last as int) - 1) as u32));
                    assert forall|b: int| 0 <= b < old(self).gpu_pool.capacity()
                        implies #[trigger] self.gpu_pool.rc(b)
                            == old(self).gpu_pool.rc(b)
                                + count_in_table(seq.block_table@, b)
                                - count_in_table(old_table, b)
                    by {
                        lemma_count_in_table_update(old_table, last_idx as int, nb, b);
                    }
                    assert(seq.block_table@.last() == nb);
                }
                Ok(Some(CopyOp { src: last, dst: nb }))
            }
        } else {
            if self.gpu_pool.num_free() == 0 {
                return Err(EngineError::OutOfMemory);
            }
            let ghost p0 = self.gpu_pool;
            let nb = self.gpu_pool.take_free_block();
            seq.block_table.push(nb);
            seq.output_token_ids.push(t);
            proof {
                lemma_blocks_for_next(nt, bs);
                assert(seq.tokens() =~= old(seq).tokens().push(t));
                assert forall|b: int| 0 <= b < old(self).gpu_pool.capacity()
                    implies #[trigger] self.gpu_pool.rc(b)
                        == old(self).gpu_pool.rc(b)
                            + count_in_table(seq.block_table@, b)
                            - count_in_table(old_table, b)
                by {
                    lemma_count_in_table_push(old_table, nb, b);
                }
                assert(seq.block_table@.last() == nb);
            }
            Ok(None)
        }
    }

    /// Whether the sequence can take one more token: either its last
    /// block still has a free slot, or a free block exists to grow into.
    pub fn can_append(&self, seq: &Sequence) -> (r: bool)
        requires
            self.wf(),
        ensures
            r == (seq.num_tokens_spec() % (self.block_size as int) != 0
                || self.gpu_pool.num_free_spec() >= 1),
    {
        let m = seq.num_tokens_mod(self.block_size);
        m != 0 || self.gpu_pool.num_free() >= 1
    }

    /// Release every block the sequence references on the given device
    /// and clear its table. Called exactly once per finished or
    /// recomputed sequence.
    pub fn free_seq(&mut self, seq: &mut Sequence, dev: Device)
        requires
            old(self).wf(),
            table_backed(*old(seq), old(self).pool_of(dev)),
        ensures
            final(self).wf(),
            final(self).block_size == old(self).block_size,
            final(self).pool_of(dev).capacity() == old(self).pool_of(dev).capacity(),
            dev == Device::Gpu ==> final(self).cpu_pool == old(self).cpu_pool,
            dev == Device::Cpu ==> final(self).gpu_pool == old(self).gpu_pool,
            forall|b: int| 0 <= b < old(self).pool_of(dev).capacity()
                ==> #[trigger] final(self).pool_of(dev).rc(b)
                    == old(self).pool_of(dev).rc(b)
                        - count_in_table(old(seq).block_table@, b),
            final(self).pool_of(dev).num_free_spec()
                >= old(self).pool_of(dev).num_free_spec(),
            final(seq).block_table@.len() == 0,
            final(seq).id == old(seq).id,
            final(seq).prompt_token_ids == old(seq).prompt_token_ids,
            final(seq).output_token_ids == old(seq).output_token_ids,
            final(seq).status == old(seq).status,
    {
        let ghost old_table = seq.block_table@;
        let len = seq.block_table.len();
        let mut k: usize = 0;
        while k < len
            invariant
                k <= len,
                old(self).wf(),
                len == old(seq).block_table@.len(),
                seq.block_table@ == old(seq).block_table@,
                table_backed(*old(seq), old(self).pool_of(dev)),
                self.block_size == old(self).block_size,
                dev == Device::Gpu ==> self.cpu_pool == old(self).cpu_pool,
                dev == Device::Cpu ==> self.gpu_pool == old(self).gpu_pool,
                self.pool_of(dev).wf(),
                self.pool_of(dev).capacity() == old(self).pool_of(dev).capacity(),
                self.pool_of(dev).num_free_spec() >= old(self).pool_of(dev).num_free_spec(),
                forall|b: int| 0 <= b < old(self).pool_of(dev).capacity()
                    ==> #[trigger] self.pool_of(dev).rc(b)
                        == old(self).pool_of(dev).rc(b)
                            - count_in_table(old(seq).block_table@.subrange(0, k as int), b),
                seq.id == old(seq).id,
                seq.prompt_token_ids == old(seq).prompt_token_ids,
                seq.output_token_ids == old(seq).output_token_ids,
                seq.status == old(seq).status,
            decreases len - k,
        {
            let ghost ppool = self.pool_of(dev);
            let ghost prefix = old(seq).block_table@.subrange(0, k as int);
            let e = seq.block_table[k];
            proof {
                lemma_count_prefix_at(old(seq).block_table@, k as int, e as int);
                lemma_count_in_table_nonneg(prefix, e as int);
                assert(ppool.rc(e as int) == old(self).pool_of(dev).rc(e as int)
                    - count_in_table(prefix, e as int));
                assert(old(self).pool_of(dev).rc(e as int)
                    >= count_in_table(old(seq).block_table@, e as int));
                assert(ppool.rc(e as int) >= 1);
            }
            match dev {
                Device::Gpu => self.gpu_pool.release(e),
                Device::Cpu => self.cpu_pool.release(e),
            }
            proof {
                assert(self.pool_of(dev).rcs() == ppool.rcs().update(
                    e as int, (ppool.rc(e as int) - 1) as u32));
                assert forall|b: int| 0 <= b < old(self).pool_of(dev).capacity()
                    implies #[trigger] self.pool_of(dev).rc(b)
                        == old(self).pool_of(dev).rc(b)
                            - count_in_table(old(seq).block_table@.subrange(0, k + 1), b)
                by {
                    assert(old(seq).block_table@.subrange(0, k + 1) =~= prefix.push(e));
                    lemma_count_in_table_push(prefix, e, b);
                    assert(ppool.rc(b) == old(self).pool_of(dev).rc(b)
                        - count_in_table(prefix, b));
                }
            }
            k = k + 1;
        }
        seq.block_table = Vec::new();
        proof {
            assert(old(seq).block_table@.subrange(0, len as int) =~= old(seq).block_table@);
        }
    }

    /// Move a sequence's blocks from one device to the other: a fresh
    /// mirror block is taken on `to` for each table entry, the `from`
    /// reference is dropped, and the table is rewritten in place. The
    /// returned pairs `(src, dst)` are the block copies the cache
    /// engine must perform.
    pub fn swap_seq(&mut self, seq: &mut Sequence, from: Device, to: Device) -> (ops: Vec<
        SwapOp,
    >)
        requires
            old(self).wf(),
            from != to,
            table_backed(*old(seq), old(self).pool_of(from)),
            old(self).pool_of(to).num_free_spec() >= old(seq).block_table@.len(),
        ensures
            final(self).wf(),
            final(self).block_size == old(self).block_size,
            final(self).pool_of(from).capacity() == old(self).pool_of(from).capacity(),
            final(self).pool_of(to).capacity() == old(self).pool_of(to).capacity(),
            final(seq).block_table@.len() == old(seq).block_table@.len(),
            forall|k: int| 0 <= k < final(seq).block_table@.len()
                ==> (#[trigger] final(seq).block_table@[k])
                    < old(self).pool_of(to).capacity(),
            forall|b: int| 0 <= b < old(self).pool_of(from).capacity()
                ==> #[trigger] final(self).pool_of(from).rc(b)
                    == old(self).pool_of(from).rc(b)
                        - count_in_table(old(seq).block_table@, b),
            forall|b: int| 0 <= b < old(self).pool_of(to).capacity()
                ==> #[trigger] final(self).pool_of(to).rc(b)
                    == old(self).pool_of(to).rc(b)
                        + count_in_table(final(seq).block_table@, b),
            final(self).pool_of(from).num_free_spec()
                >= old(self).pool_of(from).num_free_spec(),
            final(self).pool_of(to).num_free_spec()
                == old(self).pool_of(to).num_free_spec() - old(seq).block_table@.len(),
            ops@.len() == old(seq).block_table@.len(),
            forall|k: int| 0 <= k < ops@.len() ==> {
                &&& (#[trigger] ops@[k]).src == old(seq).block_table@[k]
                &&& ops@[k].dst == final(seq).block_table@[k]
            },
            final(seq).id == old(seq).id,
            final(seq).prompt_token_ids == old(seq).prompt_token_ids,
            final(seq).output_token_ids == old(seq).output_token_ids,
            final(seq).status == old(seq).status,
    {
        let ghost old_table = seq.block_table@;
        let len = seq.block_table.len();
        let mut ops: Vec<SwapOp> = Vec::new();
        let mut k: usize = 0;
        while k < len
            invariant
                k <= len,
                old(self).wf(),
                from != to,
                len == old(seq).block_table@.len(),
                table_backed(*old(seq), old(self).pool_of(from)),
                seq.block_table@.len() == len,
                seq.block_table@.subrange(k as int, len as int)
                    == old(seq).block_table@.subrange(k as int, len as int),
                forall|j: int| 0 <= j < k
                    ==> (#[trigger] seq.block_table@[j]) < old(self).pool_of(to).capacity(),
                self.block_size == old(self).block_size,
                self.pool_of(from).wf(),
                self.pool_of(to).wf(),
                self.pool_of(from).capacity() == old(self).pool_of(from).capacity(),
                self.pool_of(to).capacity() == old(self).pool_of(to).capacity(),
                self.pool_of(from).num_free_spec()
                    >= old(self).pool_of(from).num_free_spec(),
                self.pool_of(to).num_free_spec()
                    == old(self).pool_of(to).num_free_spec() - k,
                old(self).pool_of(to).num_free_spec() >= len,
                forall|b: int| 0 <= b < old(self).pool_of(from).capacity()
                    ==> #[trigger] self.pool_of(from).rc(b)
                        == old(self).pool_of(from).rc(b)
                            - count_in_table(old(seq).block_table@.subrange(0, k as int), b),
                forall|b: int| 0 <= b < old(self).pool_of(to).capacity()
                    ==> #[trigger] self.pool_of(to).rc(b)
                        == old(self).pool_of(to).rc(b)
                            + count_in_table(seq.block_table@.subrange(0, k as int), b),
                ops@.len() == k,
                forall|j: int| 0 <= j < k ==> {
                    &&& (#[trigger] ops@[j]).src == old(seq).block_table@[j]
                    &&& ops@[j].dst == seq.block_table@[j]
                },
                seq.id == old(seq).id,
                seq.prompt_token_ids == old(seq).prompt_token_ids,
                seq.output_token_ids == old(seq).output_token_ids,
                seq.status == old(seq).status,
            decreases len - k,
        {
            let ghost pfrom = self.pool_of(from);
            let ghost pto = self.pool_of(to);
            let ghost pre_tab = seq.block_table@;
            let ghost src_prefix = old(seq).block_table@.subrange(0, k as int);
            let ghost dst_prefix = seq.block_table@.subrange(0, k as int);
            let e = seq.block_table[k];
            proof {
                assert(pre_tab.subrange(k as int, len as int)[0] == pre_tab[k as int]);
                assert(old(seq).block_table@.subrange(k as int, len as int)[0]
                    == old(seq).block_table@[k as int]);
                assert(seq.block_table@[k as int] == old(seq).block_table@[k as int]);
                lemma_count_prefix_at(old(seq).block_table@, k as int, e as int);
                lemma_count_in_table_nonneg(src_prefix, e as int);
                assert(pfrom.rc(e as int) == old(self).pool_of(from).rc(e as int)
                    - count_in_table(src_prefix, e as int));
                assert(old(self).pool_of(from).rc(e as int)
                    >= count_in_table(old(seq).block_table@, e as int));
                assert(pfrom.rc(e as int) >= 1);
            }
            let nb = match to {
                Device::Gpu => self.gpu_pool.take_free_block(),
                Device::Cpu => self.cpu_pool.take_free_block(),
            };
            match from {
                Device::Gpu => self.gpu_pool.release(e),
                Device::Cpu => self.cpu_pool.release(e),
            }
            seq.block_table.set(k, nb);
            ops.push(SwapOp { src: e, dst: nb });
            proof {
                assert(self.pool_of(from).rcs() == pfrom.rcs().update(
                    e as int, (pfrom.rc(e as int) - 1) as u32));
                assert(self.pool_of(to).rcs() == pto.rcs().update(nb as int, 1u32));
                assert forall|b: int| 0 <= b < old(self).pool_of(from).capacity()
                    implies #[trigger] self.pool_of(from).rc(b)
                        == old(self).pool_of(from).rc(b)
                            - count_in_table(old(seq).block_table@.subrange(0, k + 1), b)
                by {
                    assert(old(seq).block_table@.subrange(0, k + 1) =~= src_prefix.push(e));
                    lemma_count_in_table_push(src_prefix, e, b);
                    assert(pfrom.rc(b) == old(self).pool_of(from).rc(b)
                        - count_in_table(src_prefix, b));
                }
                assert forall|b: int| 0 <= b < old(self).pool_of(to).capacity()
                    implies #[trigger] self.pool_of(to).rc(b)
                        == old(self).pool_of(to).rc(b)
                            + count_in_table(seq.block_table@.subrange(0, k + 1), b)
                by {
                    assert(seq.block_table@.subrange(0, k + 1) =~= dst_prefix.push(nb));
                    lemma_count_in_table_push(dst_prefix, nb, b);
                    lemma_count_in_table_nonneg(dst_prefix, b);
                    assert(pto.rc(b) == old(self).pool_of(to).rc(b)
                        + count_in_table(dst_prefix, b));
                    if b == nb {
                        assert(pto.rc(b) == 0);
                    }
                }
                assert forall|j: int| k + 1 <= j < len
                    implies seq.block_table@[j] == old(seq).block_table@[j]
                by {
                    assert(seq.block_table@[j] == pre_tab[j]);
                    assert(pre_tab.subrange(k as int, len as int)[j - k] == pre_tab[j]);
                    assert(old(seq).block_table@.subrange(k as int, len as int)[j - k]
                        == old(seq).block_table@[j]);
                }
                assert(seq.block_table@.subrange(k + 1, len as int)
                    =~= old(seq).block_table@.subrange(k + 1, len as int));
            }
            k = k + 1;
        }
        proof {
            assert(old(seq).block_table@.subrange(0, len as int) =~= old(seq).block_table@);
            assert(seq.block_table@.subrange(0, len as int) =~= seq.block_table@);
        }
        ops
    }
}

} // verus!
