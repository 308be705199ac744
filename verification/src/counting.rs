//! Reference accounting: how often a physical block number occurs in
//! the block tables of the live sequences. The scheduler maintains, per
//! device, that each block's reference count in the pool equals its
//! occurrence count over the queues, and every sharing property follows
//! from that.

use vstd::prelude::*;
use crate::sequence::{count_unfinished, Sequence, SequenceGroup};

verus! {

/// Occurrences of block `b` in one block table.
pub open spec fn count_in_table(t: Seq<usize>, b: int) -> int
    decreases t.len(),
{
    if t.len() == 0 {
        0
    } else {
        count_in_table(t.drop_last(), b) + if t.last() == b { 1int } else { 0int }
    }
}

/// Occurrences of block `b` over the tables of a list of sequences.
pub open spec fn count_in_seqs(ss: Seq<Sequence>, b: int) -> int
    decreases ss.len(),
{
    if ss.len() == 0 {
        0
    } else {
        count_in_seqs(ss.drop_last(), b) + count_in_table(ss.last().block_table@, b)
    }
}

/// Occurrences of block `b` over every sequence of a queue of groups.
pub open spec fn count_in_groups(gs: Seq<SequenceGroup>, b: int) -> int
    decreases gs.len(),
{
    if gs.len() == 0 {
        0
    } else {
        count_in_groups(gs.drop_last(), b) + count_in_seqs(gs.last().seqs@, b)
    }
}

pub proof fn lemma_count_in_table_nonneg(t: Seq<usize>, b: int)
    ensures
        0 <= count_in_table(t, b) <= t.len(),
    decreases t.len(),
{
    if t.len() > 0 {
        lemma_count_in_table_nonneg(t.drop_last(), b);
    }
}

pub proof fn lemma_count_in_seqs_nonneg(ss: Seq<Sequence>, b: int)
    ensures
        0 <= count_in_seqs(ss, b),
    decreases ss.len(),
{
    if ss.len() > 0 {
        lemma_count_in_seqs_nonneg(ss.drop_last(), b);
        lemma_count_in_table_nonneg(ss.last().block_table@, b);
    }
}

pub proof fn lemma_count_in_groups_nonneg(gs: Seq<SequenceGroup>, b: int)
    ensures
        0 <= count_in_groups(gs, b),
    decreases gs.len(),
{
    if gs.len() > 0 {
        lemma_count_in_groups_nonneg(gs.drop_last(), b);
        lemma_count_in_seqs_nonneg(gs.last().seqs@, b);
    }
}

/// A table with an entry equal to `b` contributes at least one.
pub proof fn lemma_count_in_table_at(t: Seq<usize>, i: int, b: int)
    requires
        0 <= i < t.len(),
        t[i] == b,
    ensures
        count_in_table(t, b) >= 1,
    decreases t.len(),
{
    if i == t.len() - 1 {
        lemma_count_in_table_nonneg(t.drop_last(), b);
    } else {
        lemma_count_in_table_at(t.drop_last(), i, b);
    }
}

/// How the count changes when one table entry is replaced.
pub proof fn lemma_count_in_table_update(t: Seq<usize>, i: int, v: usize, b: int)
    requires
        0 <= i < t.len(),
    ensures
        count_in_table(t.update(i, v), b) == count_in_table(t, b)
            - (if t[i] == b { 1int } else { 0int })
            + (if v == b { 1int } else { 0int }),
    decreases t.len(),
{
    let u = t.update(i, v);
    if i == t.len() - 1 {
        assert(u.drop_last() =~= t.drop_last());
    } else {
        assert(u.drop_last() =~= t.drop_last().update(i, v));
        lemma_count_in_table_update(t.drop_last(), i, v, b);
    }
}

/// Appending a table entry raises the count of that block by one.
pub proof fn lemma_count_in_table_push(t: Seq<usize>, v: usize, b: int)
    ensures
        count_in_table(t.push(v), b) == count_in_table(t, b)
            + (if v == b { 1int } else { 0int }),
{
    assert(t.push(v).drop_last() =~= t);
}

/// A sequence's own table is part of the total over its list.
pub proof fn lemma_count_in_seqs_one(ss: Seq<Sequence>, j: int, b: int)
    requires
        0 <= j < ss.len(),
    ensures
        count_in_seqs(ss, b) >= count_in_table(ss[j].block_table@, b),
    decreases ss.len(),
{
    if j == ss.len() - 1 {
        lemma_count_in_seqs_nonneg(ss.drop_last(), b);
    } else {
        lemma_count_in_seqs_one(ss.drop_last(), j, b);
        lemma_count_in_table_nonneg(ss.last().block_table@, b);
    }
}

/// Two distinct sequences both contribute their full table counts.
pub proof fn lemma_count_in_seqs_two(ss: Seq<Sequence>, j1: int, j2: int, b: int)
    requires
        0 <= j1 < j2 < ss.len(),
    ensures
        count_in_seqs(ss, b) >= count_in_table(ss[j1].block_table@, b)
            + count_in_table(ss[j2].block_table@, b),
    decreases ss.len(),
{
    if j2 == ss.len() - 1 {
        lemma_count_in_seqs_one(ss.drop_last(), j1, b);
    } else {
        lemma_count_in_seqs_two(ss.drop_last(), j1, j2, b);
        lemma_count_in_table_nonneg(ss.last().block_table@, b);
    }
}

/// Removing a sequence removes exactly its table's contribution.
pub proof fn lemma_count_in_seqs_remove(ss: Seq<Sequence>, j: int, b: int)
    requires
        0 <= j < ss.len(),
    ensures
        count_in_seqs(ss.remove(j), b) == count_in_seqs(ss, b)
            - count_in_table(ss[j].block_table@, b),
    decreases ss.len(),
{
    let r = ss.remove(j);
    if j == ss.len() - 1 {
        assert(r =~= ss.drop_last());
    } else {
        assert(r.drop_last() =~= ss.drop_last().remove(j));
        assert(r.last() == ss.last());
        lemma_count_in_seqs_remove(ss.drop_last(), j, b);
    }
}

/// Inserting a sequence inserts exactly its table's contribution.
pub proof fn lemma_count_in_seqs_insert(ss: Seq<Sequence>, j: int, s: Sequence, b: int)
    requires
        0 <= j <= ss.len(),
    ensures
        count_in_seqs(ss.insert(j, s), b) == count_in_seqs(ss, b)
            + count_in_table(s.block_table@, b),
    decreases ss.len(),
{
    let u = ss.insert(j, s);
    if j == ss.len() {
        assert(u.drop_last() =~= ss);
        assert(u.last() == s);
    } else {
        assert(u.drop_last() =~= ss.drop_last().insert(j, s));
        assert(u.last() == ss.last());
        lemma_count_in_seqs_insert(ss.drop_last(), j, s, b);
    }
}

/// A group's own sequences are part of the total over a queue.
pub proof fn lemma_count_in_groups_one(gs: Seq<SequenceGroup>, i: int, b: int)
    requires
        0 <= i < gs.len(),
    ensures
        count_in_groups(gs, b) >= count_in_seqs(gs[i].seqs@, b),
    decreases gs.len(),
{
    if i == gs.len() - 1 {
        lemma_count_in_groups_nonneg(gs.drop_last(), b);
    } else {
        lemma_count_in_groups_one(gs.drop_last(), i, b);
        lemma_count_in_seqs_nonneg(gs.last().seqs@, b);
    }
}

/// Two distinct groups both contribute their full counts.
pub proof fn lemma_count_in_groups_two(gs: Seq<SequenceGroup>, i1: int, i2: int, b: int)
    requires
        0 <= i1 < i2 < gs.len(),
    ensures
        count_in_groups(gs, b) >= count_in_seqs(gs[i1].seqs@, b)
            + count_in_seqs(gs[i2].seqs@, b),
    decreases gs.len(),
{
    if i2 == gs.len() - 1 {
        lemma_count_in_groups_one(gs.drop_last(), i1, b);
    } else {
        lemma_count_in_groups_two(gs.drop_last(), i1, i2, b);
        lemma_count_in_seqs_nonneg(gs.last().seqs@, b);
    }
}

/// How the total over a list of sequences changes when one sequence is
/// replaced: only that sequence's table matters.
pub proof fn lemma_count_in_seqs_update(ss: Seq<Sequence>, j: int, s2: Sequence, b: int)
    requires
        0 <= j < ss.len(),
    ensures
        count_in_seqs(ss.update(j, s2), b) == count_in_seqs(ss, b)
            - count_in_table(ss[j].block_table@, b)
            + count_in_table(s2.block_table@, b),
    decreases ss.len(),
{
    let u = ss.update(j, s2);
    if j == ss.len() - 1 {
        assert(u.drop_last() =~= ss.drop_last());
    } else {
        assert(u.drop_last() =~= ss.drop_last().update(j, s2));
        lemma_count_in_seqs_update(ss.drop_last(), j, s2, b);
    }
}

/// How the total over a queue changes when one group is replaced.
pub proof fn lemma_count_in_groups_update(gs: Seq<SequenceGroup>, i: int, g2: SequenceGroup, b: int)
    requires
        0 <= i < gs.len(),
    ensures
        count_in_groups(gs.update(i, g2), b) == count_in_groups(gs, b)
            - count_in_seqs(gs[i].seqs@, b)
            + count_in_seqs(g2.seqs@, b),
    decreases gs.len(),
{
    let u = gs.update(i, g2);
    if i == gs.len() - 1 {
        assert(u.drop_last() =~= gs.drop_last());
    } else {
        assert(u.drop_last() =~= gs.drop_last().update(i, g2));
        lemma_count_in_groups_update(gs.drop_last(), i, g2, b);
    }
}

/// Removing a group removes exactly its contribution.
pub proof fn lemma_count_in_groups_remove(gs: Seq<SequenceGroup>, i: int, b: int)
    requires
        0 <= i < gs.len(),
    ensures
        count_in_groups(gs.remove(i), b) == count_in_groups(gs, b)
            - count_in_seqs(gs[i].seqs@, b),
    decreases gs.len(),
{
    let r = gs.remove(i);
    if i == gs.len() - 1 {
        assert(r =~= gs.drop_last());
    } else {
        assert(r.drop_last() =~= gs.drop_last().remove(i));
        assert(r.last() == gs.last());
        lemma_count_in_groups_remove(gs.drop_last(), i, b);
    }
}

/// Inserting a group inserts exactly its contribution.
pub proof fn lemma_count_in_groups_insert(gs: Seq<SequenceGroup>, i: int, g: SequenceGroup, b: int)
    requires
        0 <= i <= gs.len(),
    ensures
        count_in_groups(gs.insert(i, g), b) == count_in_groups(gs, b)
            + count_in_seqs(g.seqs@, b),
    decreases gs.len(),
{
    let u = gs.insert(i, g);
    if i == gs.len() {
        assert(u.drop_last() =~= gs);
        assert(u.last() == g);
    } else {
        assert(u.drop_last() =~= gs.drop_last().insert(i, g));
        assert(u.last() == gs.last());
        lemma_count_in_groups_insert(gs.drop_last(), i, g, b);
    }
}

/// Appending a group appends exactly its contribution.
pub proof fn lemma_count_in_groups_push(gs: Seq<SequenceGroup>, g: SequenceGroup, b: int)
    ensures
        count_in_groups(gs.push(g), b) == count_in_groups(gs, b)
            + count_in_seqs(g.seqs@, b),
{
    assert(gs.push(g).drop_last() =~= gs);
}

/// Total number of block-table entries over a list of sequences.
pub open spec fn total_blocks(ss: Seq<Sequence>) -> int
    decreases ss.len(),
{
    if ss.len() == 0 {
        0
    } else {
        total_blocks(ss.drop_last()) + ss.last().block_table@.len()
    }
}

pub proof fn lemma_total_blocks_nonneg(ss: Seq<Sequence>)
    ensures
        0 <= total_blocks(ss),
    decreases ss.len(),
{
    if ss.len() > 0 {
        lemma_total_blocks_nonneg(ss.drop_last());
    }
}

/// Removing a sequence removes exactly its table's length.
pub proof fn lemma_total_blocks_remove(ss: Seq<Sequence>, j: int)
    requires
        0 <= j < ss.len(),
    ensures
        total_blocks(ss.remove(j)) == total_blocks(ss) - ss[j].block_table@.len(),
    decreases ss.len(),
{
    let r = ss.remove(j);
    if j == ss.len() - 1 {
        assert(r =~= ss.drop_last());
    } else {
        assert(r.drop_last() =~= ss.drop_last().remove(j));
        assert(r.last() == ss.last());
        lemma_total_blocks_remove(ss.drop_last(), j);
    }
}

/// Inserting a sequence inserts exactly its table's length.
pub proof fn lemma_total_blocks_insert(ss: Seq<Sequence>, j: int, s: Sequence)
    requires
        0 <= j <= ss.len(),
    ensures
        total_blocks(ss.insert(j, s)) == total_blocks(ss) + s.block_table@.len(),
    decreases ss.len(),
{
    let u = ss.insert(j, s);
    if j == ss.len() {
        assert(u.drop_last() =~= ss);
        assert(u.last() == s);
    } else {
        assert(u.drop_last() =~= ss.drop_last().insert(j, s));
        assert(u.last() == ss.last());
        lemma_total_blocks_insert(ss.drop_last(), j, s);
    }
}

/// A prefix never counts more occurrences than the whole list.
pub proof fn lemma_count_in_seqs_prefix(ss: Seq<Sequence>, m: int, b: int)
    requires
        0 <= m <= ss.len(),
    ensures
        count_in_seqs(ss, b) >= count_in_seqs(ss.subrange(0, m), b),
    decreases ss.len(),
{
    if m == ss.len() {
        assert(ss.subrange(0, m) =~= ss);
    } else {
        assert(ss.drop_last().subrange(0, m) =~= ss.subrange(0, m));
        lemma_count_in_seqs_prefix(ss.drop_last(), m, b);
        lemma_count_in_table_nonneg(ss.last().block_table@, b);
    }
}

/// A prefix never holds more blocks than the whole list.
pub proof fn lemma_total_blocks_prefix(ss: Seq<Sequence>, m: int)
    requires
        0 <= m <= ss.len(),
    ensures
        total_blocks(ss) >= total_blocks(ss.subrange(0, m)),
    decreases ss.len(),
{
    if m == ss.len() {
        assert(ss.subrange(0, m) =~= ss);
    } else {
        assert(ss.drop_last().subrange(0, m) =~= ss.subrange(0, m));
        lemma_total_blocks_prefix(ss.drop_last(), m);
    }
}

/// Total number of unfinished sequences over a queue of groups: the
/// width the next batch would have.
pub open spec fn total_unfinished(gs: Seq<SequenceGroup>) -> int
    decreases gs.len(),
{
    if gs.len() == 0 {
        0
    } else {
        total_unfinished(gs.drop_last()) + count_unfinished(gs.last().seqs@)
    }
}

pub proof fn lemma_count_unfinished_bounds(ss: Seq<Sequence>)
    ensures
        0 <= count_unfinished(ss) <= ss.len(),
    decreases ss.len(),
{
    if ss.len() > 0 {
        lemma_count_unfinished_bounds(ss.drop_last());
    }
}

pub proof fn lemma_total_unfinished_nonneg(gs: Seq<SequenceGroup>)
    ensures
        0 <= total_unfinished(gs),
    decreases gs.len(),
{
    if gs.len() > 0 {
        lemma_total_unfinished_nonneg(gs.drop_last());
        lemma_count_unfinished_bounds(gs.last().seqs@);
    }
}

/// A prefix never counts more unfinished sequences than the whole queue.
pub proof fn lemma_total_unfinished_prefix(gs: Seq<SequenceGroup>, m: int)
    requires
        0 <= m <= gs.len(),
    ensures
        total_unfinished(gs) >= total_unfinished(gs.subrange(0, m)),
    decreases gs.len(),
{
    if m == gs.len() {
        assert(gs.subrange(0, m) =~= gs);
    } else {
        assert(gs.drop_last().subrange(0, m) =~= gs.subrange(0, m));
        lemma_total_unfinished_prefix(gs.drop_last(), m);
        lemma_count_unfinished_bounds(gs.last().seqs@);
    }
}

/// Total number of sequences, finished or not, over a queue of groups.
pub open spec fn total_seqs(gs: Seq<SequenceGroup>) -> int
    decreases gs.len(),
{
    if gs.len() == 0 {
        0
    } else {
        total_seqs(gs.drop_last()) + gs.last().seqs@.len()
    }
}

/// Removing a group removes exactly its sequence count.
pub proof fn lemma_total_seqs_remove(gs: Seq<SequenceGroup>, i: int)
    requires
        0 <= i < gs.len(),
    ensures
        total_seqs(gs.remove(i)) == total_seqs(gs) - gs[i].seqs@.len(),
    decreases gs.len(),
{
    let r = gs.remove(i);
    if i == gs.len() - 1 {
        assert(r =~= gs.drop_last());
    } else {
        assert(r.drop_last() =~= gs.drop_last().remove(i));
        assert(r.last() == gs.last());
        lemma_total_seqs_remove(gs.drop_last(), i);
    }
}

/// A queue of groups whose tables are all empty contributes nothing.
pub proof fn lemma_count_in_seqs_all_empty(ss: Seq<Sequence>, b: int)
    requires
        forall|j: int| 0 <= j < ss.len()
            ==> (#[trigger] ss[j]).block_table@.len() == 0,
    ensures
        count_in_seqs(ss, b) == 0,
    decreases ss.len(),
{
    if ss.len() > 0 {
        lemma_count_in_seqs_all_empty(ss.drop_last(), b);
    }
}

} // verus!
