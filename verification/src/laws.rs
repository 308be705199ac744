//! The conservation and sharing laws of the block manager, stated over
//! a well-formed scheduler and proved from its invariant.

use vstd::prelude::*;
use crate::block_pool::{count_allocated_blocks, BlockPool};
use crate::counting::{
    count_in_groups, count_in_seqs, count_in_table, lemma_count_in_groups_one,
    lemma_count_in_groups_two, lemma_count_in_seqs_one, lemma_count_in_seqs_two,
    lemma_count_in_table_at, total_blocks,
};
use crate::scheduler::Scheduler;
use crate::sequence::{blocks_for_tokens, SequenceGroup};

verus! {

/// Sum of the reference counts of the blocks below `cap`.
pub open spec fn sum_rc_upto(p: BlockPool, cap: int) -> int
    decreases cap,
{
    if cap <= 0 {
        0
    } else {
        sum_rc_upto(p, cap - 1) + p.rc(cap - 1)
    }
}

/// Sum over the blocks below `cap` of their occurrences in one table.
pub open spec fn sum_count_table_upto(t: Seq<usize>, cap: int) -> int
    decreases cap,
{
    if cap <= 0 {
        0
    } else {
        sum_count_table_upto(t, cap - 1) + count_in_table(t, cap - 1)
    }
}

/// Sum over the blocks below `cap` of their occurrences in a list of
/// sequences' tables.
pub open spec fn sum_count_seqs_upto(ss: Seq<crate::sequence::Sequence>, cap: int) -> int
    decreases cap,
{
    if cap <= 0 {
        0
    } else {
        sum_count_seqs_upto(ss, cap - 1) + count_in_seqs(ss, cap - 1)
    }
}

/// Sum over the blocks below `cap` of their occurrences in a queue.
pub open spec fn sum_count_groups_upto(gs: Seq<SequenceGroup>, cap: int) -> int
    decreases cap,
{
    if cap <= 0 {
        0
    } else {
        sum_count_groups_upto(gs, cap - 1) + count_in_groups(gs, cap - 1)
    }
}

/// Total number of block-table entries over a whole queue.
pub open spec fn total_blocks_groups(gs: Seq<SequenceGroup>) -> int
    decreases gs.len(),
{
    if gs.len() == 0 {
        0
    } else {
        total_blocks_groups(gs.drop_last()) + total_blocks(gs.last().seqs@)
    }
}

proof fn lemma_sum_table_split(t: Seq<usize>, cap: int)
    requires
        t.len() > 0,
    ensures
        sum_count_table_upto(t, cap) == sum_count_table_upto(t.drop_last(), cap)
            + if 0 <= t.last() < cap { 1int } else { 0int },
    decreases cap,
{
    if cap > 0 {
        lemma_sum_table_split(t, cap - 1);
    }
}

/// Each table entry below `cap` is counted exactly once over the blocks.
proof fn lemma_sum_table(t: Seq<usize>, cap: int)
    requires
        forall|k: int| 0 <= k < t.len() ==> 0 <= (#[trigger] t[k]) < cap,
    ensures
        sum_count_table_upto(t, cap) == t.len(),
    decreases t.len(),
{
    if t.len() == 0 {
        lemma_sum_table_empty(t, cap);
    } else {
        lemma_sum_table_split(t, cap);
        lemma_sum_table(t.drop_last(), cap);
    }
}

proof fn lemma_sum_table_empty(t: Seq<usize>, cap: int)
    requires
        t.len() == 0,
    ensures
        sum_count_table_upto(t, cap) == 0,
    decreases cap,
{
    if cap > 0 {
        lemma_sum_table_empty(t, cap - 1);
    }
}

proof fn lemma_sum_seqs_split(ss: Seq<crate::sequence::Sequence>, cap: int)
    requires
        ss.len() > 0,
    ensures
        sum_count_seqs_upto(ss, cap) == sum_count_seqs_upto(ss.drop_last(), cap)
            + sum_count_table_upto(ss.last().block_table@, cap),
    decreases cap,
{
    if cap > 0 {
        lemma_sum_seqs_split(ss, cap - 1);
    }
}

proof fn lemma_sum_seqs_empty(ss: Seq<crate::sequence::Sequence>, cap: int)
    requires
        ss.len() == 0,
    ensures
        sum_count_seqs_upto(ss, cap) == 0,
    decreases cap,
{
    if cap > 0 {
        lemma_sum_seqs_empty(ss, cap - 1);
    }
}

/// Summing the per-block occurrence counts over a list of sequences
/// counts every table entry once.
proof fn lemma_sum_seqs(ss: Seq<crate::sequence::Sequence>, cap: int)
    requires
        forall|j: int, k: int| 0 <= j < ss.len()
            && 0 <= k < ss[j].block_table@.len()
            ==> 0 <= (#[trigger] ss[j].block_table@[k]) < cap,
    ensures
        sum_count_seqs_upto(ss, cap) == total_blocks(ss),
    decreases ss.len(),
{
    if ss.len() == 0 {
        lemma_sum_seqs_empty(ss, cap);
    } else {
        lemma_sum_seqs_split(ss, cap);
        assert forall|j: int, k: int| 0 <= j < ss.drop_last().len()
            && 0 <= k < ss.drop_last()[j].block_table@.len()
            implies 0 <= (#[trigger] ss.drop_last()[j].block_table@[k]) < cap
        by {
            assert(ss.drop_last()[j] == ss[j]);
        }
        lemma_sum_seqs(ss.drop_last(), cap);
        lemma_sum_table(ss.last().block_table@, cap);
    }
}

proof fn lemma_sum_groups_split(gs: Seq<SequenceGroup>, cap: int)
    requires
        gs.len() > 0,
    ensures
        sum_count_groups_upto(gs, cap) == sum_count_groups_upto(gs.drop_last(), cap)
            + sum_count_seqs_upto(gs.last().seqs@, cap),
    decreases cap,
{
    if cap > 0 {
        lemma_sum_groups_split(gs, cap - 1);
    }
}

proof fn lemma_sum_groups_empty(gs: Seq<SequenceGroup>, cap: int)
    requires
        gs.len() == 0,
    ensures
        sum_count_groups_upto(gs, cap) == 0,
    decreases cap,
{
    if cap > 0 {
        lemma_sum_groups_empty(gs, cap - 1);
    }
}

/// Summing the per-block occurrence counts over a queue counts every
/// table entry of every sequence once.
proof fn lemma_sum_groups(gs: Seq<SequenceGroup>, cap: int)
    requires
        forall|i: int, j: int, k: int| 0 <= i < gs.len()
            && 0 <= j < gs[i].seqs@.len()
            && 0 <= k < gs[i].seqs@[j].block_table@.len()
            ==> 0 <= (#[trigger] gs[i].seqs@[j].block_table@[k]) < cap,
    ensures
        sum_count_groups_upto(gs, cap) == total_blocks_groups(gs),
    decreases gs.len(),
{
    if gs.len() == 0 {
        lemma_sum_groups_empty(gs, cap);
    } else {
        lemma_sum_groups_split(gs, cap);
        assert forall|i: int, j: int, k: int| 0 <= i < gs.drop_last().len()
            && 0 <= j < gs.drop_last()[i].seqs@.len()
            && 0 <= k < gs.drop_last()[i].seqs@[j].block_table@.len()
            implies 0 <= (#[trigger] gs.drop_last()[i].seqs@[j].block_table@[k]) < cap
        by {
            assert(gs.drop_last()[i] == gs[i]);
        }
        lemma_sum_groups(gs.drop_last(), cap);
        assert forall|j: int, k: int| 0 <= j < gs.last().seqs@.len()
            && 0 <= k < gs.last().seqs@[j].block_table@.len()
            implies 0 <= (#[trigger] gs.last().seqs@[j].block_table@[k]) < cap
        by {
            assert(gs.last() == gs[gs.len() - 1]);
        }
        lemma_sum_seqs(gs.last().seqs@, cap);
    }
}

proof fn lemma_sum_rc_matches(p: BlockPool, gs: Seq<SequenceGroup>, cap: int)
    requires
        cap <= p.capacity(),
        forall|b: int| 0 <= b < p.capacity()
            ==> #[trigger] p.rc(b) == count_in_groups(gs, b),
    ensures
        sum_rc_upto(p, cap) == sum_count_groups_upto(gs, cap),
    decreases cap,
{
    if cap > 0 {
        lemma_sum_rc_matches(p, gs, cap - 1);
    }
}

/// Conservation of references: over the accelerator pool, the sum of
/// all reference counts equals the total number of block-table entries
/// of the running queue, and over the host pool it equals that of the
/// swapped queue. Each logical block position holds exactly one
/// reference, however blocks are shared.
pub proof fn lemma_reference_conservation(s: Scheduler)
    requires
        s.wf(),
    ensures
        sum_rc_upto(s.block_engine.gpu_pool, s.block_engine.gpu_pool.capacity())
            == total_blocks_groups(s.running@),
        sum_rc_upto(s.block_engine.cpu_pool, s.block_engine.cpu_pool.capacity())
            == total_blocks_groups(s.swapped@),
{
    let gcap = s.block_engine.gpu_pool.capacity();
    let ccap = s.block_engine.cpu_pool.capacity();
    assert forall|i: int, j: int, k: int| 0 <= i < s.running@.len()
        && 0 <= j < s.running@[i].seqs@.len()
        && 0 <= k < s.running@[i].seqs@[j].block_table@.len()
        implies 0 <= (#[trigger] s.running@[i].seqs@[j].block_table@[k]) < gcap
    by {
        assert(crate::scheduler::group_running_wf(s.running@[i],
            s.block_engine.block_size as int, gcap));
    }
    lemma_sum_groups(s.running@, gcap);
    lemma_sum_rc_matches(s.block_engine.gpu_pool, s.running@, gcap);
    assert forall|i: int, j: int, k: int| 0 <= i < s.swapped@.len()
        && 0 <= j < s.swapped@[i].seqs@.len()
        && 0 <= k < s.swapped@[i].seqs@[j].block_table@.len()
        implies 0 <= (#[trigger] s.swapped@[i].seqs@[j].block_table@[k]) < ccap
    by {
        assert(crate::scheduler::group_swapped_wf(s.swapped@[i],
            s.block_engine.block_size as int, ccap));
    }
    lemma_sum_groups(s.swapped@, ccap);
    lemma_sum_rc_matches(s.block_engine.cpu_pool, s.swapped@, ccap);
}

/// Conservation of blocks: in each pool, the free blocks and the
/// allocated blocks (reference count at least one) partition the
/// capacity.
pub proof fn lemma_pool_conservation(s: Scheduler)
    requires
        s.wf(),
    ensures
        s.block_engine.gpu_pool.num_free_spec()
            + count_allocated_blocks(s.block_engine.gpu_pool.rcs())
            == s.block_engine.gpu_pool.capacity(),
        s.block_engine.cpu_pool.num_free_spec()
            + count_allocated_blocks(s.block_engine.cpu_pool.rcs())
            == s.block_engine.cpu_pool.capacity(),
{
    s.block_engine.gpu_pool.lemma_free_allocated_conservation();
    s.block_engine.cpu_pool.lemma_free_allocated_conservation();
}

/// No hidden sharing: when one accelerator block appears in the block
/// tables of two distinct running sequences, its reference count is at
/// least two.
pub proof fn lemma_shared_block_refcount(
    s: Scheduler,
    i1: int,
    j1: int,
    k1: int,
    i2: int,
    j2: int,
    k2: int,
)
    requires
        s.wf(),
        0 <= i1 < s.running@.len(),
        0 <= j1 < s.running@[i1].seqs@.len(),
        0 <= k1 < s.running@[i1].seqs@[j1].block_table@.len(),
        0 <= i2 < s.running@.len(),
        0 <= j2 < s.running@[i2].seqs@.len(),
        0 <= k2 < s.running@[i2].seqs@[j2].block_table@.len(),
        (i1, j1) != (i2, j2),
        s.running@[i1].seqs@[j1].block_table@[k1]
            == s.running@[i2].seqs@[j2].block_table@[k2],
    ensures
        s.block_engine.gpu_pool.rc(s.running@[i1].seqs@[j1].block_table@[k1] as int) >= 2,
{
    let b = s.running@[i1].seqs@[j1].block_table@[k1] as int;
    let t1 = s.running@[i1].seqs@[j1].block_table@;
    let t2 = s.running@[i2].seqs@[j2].block_table@;
    assert(crate::scheduler::group_running_wf(s.running@[i1],
        s.block_engine.block_size as int, s.block_engine.gpu_pool.capacity()));
    lemma_count_in_table_at(t1, k1, b);
    lemma_count_in_table_at(t2, k2, b);
    if i1 == i2 {
        let ss = s.running@[i1].seqs@;
        if j1 < j2 {
            lemma_count_in_seqs_two(ss, j1, j2, b);
        } else {
            lemma_count_in_seqs_two(ss, j2, j1, b);
        }
        lemma_count_in_groups_one(s.running@, i1, b);
    } else {
        lemma_count_in_seqs_one(s.running@[i1].seqs@, j1, b);
        lemma_count_in_seqs_one(s.running@[i2].seqs@, j2, b);
        if i1 < i2 {
            lemma_count_in_groups_two(s.running@, i1, i2, b);
        } else {
            lemma_count_in_groups_two(s.running@, i2, i1, b);
        }
    }
}

/// A live block is referenced: every block that some running sequence's
/// table names has a reference count of at least one, so it can never
/// sit on the free list.
pub proof fn lemma_live_block_referenced(s: Scheduler, i: int, j: int, k: int)
    requires
        s.wf(),
        0 <= i < s.running@.len(),
        0 <= j < s.running@[i].seqs@.len(),
        0 <= k < s.running@[i].seqs@[j].block_table@.len(),
    ensures
        s.block_engine.gpu_pool.rc(
            s.running@[i].seqs@[j].block_table@[k] as int) >= 1,
{
    let b = s.running@[i].seqs@[j].block_table@[k] as int;
    assert(crate::scheduler::group_running_wf(s.running@[i],
        s.block_engine.block_size as int, s.block_engine.gpu_pool.capacity()));
    lemma_count_in_table_at(s.running@[i].seqs@[j].block_table@, k, b);
    lemma_count_in_seqs_one(s.running@[i].seqs@, j, b);
    lemma_count_in_groups_one(s.running@, i, b);
}

/// Exactly sized tables: a running sequence that is not finished holds
/// exactly `ceil(num_tokens / block_size)` blocks, and a waiting
/// sequence holds none.
pub proof fn lemma_table_sizes(s: Scheduler, i: int, j: int)
    requires
        s.wf(),
    ensures
        0 <= i < s.running@.len() && 0 <= j < s.running@[i].seqs@.len()
            && !s.running@[i].seqs@[j].status.is_finished_spec()
            ==> s.running@[i].seqs@[j].block_table@.len() == blocks_for_tokens(
                s.running@[i].seqs@[j].num_tokens_spec(),
                s.block_engine.block_size as int),
        0 <= i < s.waiting@.len() && 0 <= j < s.waiting@[i].seqs@.len()
            ==> s.waiting@[i].seqs@[j].block_table@.len() == 0,
{
    if 0 <= i < s.running@.len() {
        assert(crate::scheduler::group_running_wf(s.running@[i],
            s.block_engine.block_size as int, s.block_engine.gpu_pool.capacity()));
    }
    if 0 <= i < s.waiting@.len() {
        assert(crate::scheduler::group_waiting_wf(s.waiting@[i]));
    }
}

} // verus!
