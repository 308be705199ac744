//! The request scheduler: admission, batching and preemption over the
//! paged block pools.
//!
//! The scheduler owns three queues of sequence groups. `waiting` groups
//! hold no blocks; `running` groups hold accelerator blocks; `swapped`
//! groups hold host blocks. Its well-formedness ties the pools to the
//! queues: a block's reference count equals the number of occurrences
//! of that block over the corresponding queue's block tables. Every
//! sharing and conservation property of the pools follows from that.

use vstd::prelude::*;
use crate::block_engine::{
    blocks_needed, table_backed, table_sized, BlockEngine, CopyOp, SwapOp,
};
use crate::block_pool::{BlockPool, Device};
use crate::counting::{
    count_in_groups, count_in_seqs, count_in_table, lemma_count_in_groups_one,
    lemma_count_in_groups_push, lemma_count_in_groups_remove,
    lemma_count_in_seqs_all_empty, lemma_count_in_seqs_insert, lemma_count_in_seqs_nonneg,
    lemma_count_in_seqs_one, lemma_count_in_seqs_prefix, lemma_count_in_seqs_remove,
    lemma_count_in_table_at, lemma_total_blocks_prefix, total_blocks,
};
use crate::error::EngineError;
use crate::sequence::{blocks_for_tokens, count_unfinished, Sequence, SequenceGroup, SequenceStatus};

verus! {

/// Fixed limits the scheduler enforces each step.
pub struct SchedulerConfig {
    /// Cap on sequences batched into one forward pass.
    pub max_num_seqs: usize,
    /// Cap on new tokens committed to one prompt step.
    pub max_num_batched_tokens: usize,
    /// Longest admissible token history.
    pub max_model_len: usize,
    /// Free accelerator blocks the scheduler keeps in reserve.
    pub watermark: usize,
}

/// What one call to `schedule` decides: the groups to run, the cache
/// operations the cache engine must perform before the forward pass,
/// and the requests ignored for exceeding the model length.
pub struct ScheduleStep {
    /// Request ids of the groups in the batch.
    pub scheduled: Vec<String>,
    /// Accelerator-internal copies (from copy-on-write appends).
    pub blocks_to_copy: Vec<CopyOp>,
    /// Host-to-accelerator copies, `(cpu, gpu)`.
    pub blocks_to_swap_in: Vec<SwapOp>,
    /// Accelerator-to-host copies, `(gpu, cpu)`.
    pub blocks_to_swap_out: Vec<SwapOp>,
    /// Request ids rejected because their history exceeds the model length.
    pub ignored: Vec<String>,
    /// Whether this is a prompt (prefill) step or a decode step.
    pub is_prompt: bool,
}

/// Token bookkeeping that every live sequence satisfies: the generation
/// cap has not been passed, and prompt plus cap fit a machine word, so
/// token counts never overflow.
pub open spec fn seq_token_bounds(s: Sequence, max_tokens: int) -> bool {
    &&& s.prompt_token_ids@.len() + max_tokens <= usize::MAX
    &&& s.output_token_ids@.len() <= max_tokens
}

/// A waiting group holds no blocks, every sequence is Waiting, and the
/// siblings carry equally long histories (they share one prompt).
pub open spec fn group_waiting_wf(g: SequenceGroup) -> bool {
    &&& g.seqs@.len() >= 1
    &&& forall|j: int| 0 <= j < g.seqs@.len() ==> {
        &&& (#[trigger] g.seqs@[j]).status == SequenceStatus::Waiting
        &&& g.seqs@[j].block_table@.len() == 0
        &&& seq_token_bounds(g.seqs@[j], g.sampling_params.max_tokens as int)
        &&& g.seqs@[j].num_tokens_spec() == g.seqs@[0].num_tokens_spec()
    }
}

/// The shape of one sequence inside a running group: a live sequence is
/// Running with an exactly sized table of in-range accelerator blocks;
/// a finished sibling holds nothing.
pub open spec fn seq_running_shape(s: Sequence, max_tokens: int, bs: int, gcap: int) -> bool {
    &&& seq_token_bounds(s, max_tokens)
    &&& if s.status.is_finished_spec() {
        s.block_table@.len() == 0
    } else {
        &&& s.status == SequenceStatus::Running
        &&& table_sized(s, bs)
        &&& forall|k: int| 0 <= k < s.block_table@.len()
                ==> (#[trigger] s.block_table@[k]) < gcap
    }
}

/// A running group's live sequences are Running with exactly sized
/// tables of accelerator blocks; finished siblings hold nothing.
pub open spec fn group_running_wf(g: SequenceGroup, bs: int, gcap: int) -> bool {
    &&& g.seqs@.len() >= 1
    &&& forall|j: int| 0 <= j < g.seqs@.len()
            ==> seq_running_shape(#[trigger] g.seqs@[j],
                g.sampling_params.max_tokens as int, bs, gcap)
}

/// A swapped group's live sequences are Swapped with exactly sized
/// tables of host blocks; finished siblings hold nothing.
pub open spec fn group_swapped_wf(g: SequenceGroup, bs: int, ccap: int) -> bool {
    &&& g.seqs@.len() >= 1
    &&& forall|j: int| 0 <= j < g.seqs@.len() ==> {
        &&& seq_token_bounds(#[trigger] g.seqs@[j], g.sampling_params.max_tokens as int)
        &&& if g.seqs@[j].status.is_finished_spec() {
            g.seqs@[j].block_table@.len() == 0
        } else {
            &&& g.seqs@[j].status == SequenceStatus::Swapped
            &&& table_sized(g.seqs@[j], bs)
            &&& forall|k: int| 0 <= k < g.seqs@[j].block_table@.len()
                    ==> (#[trigger] g.seqs@[j].block_table@[k]) < ccap
        }
    }
}

/// A finalized group: every sequence finished, every block released.
pub open spec fn group_finished_wf(g: SequenceGroup) -> bool {
    forall|j: int| 0 <= j < g.seqs@.len() ==> {
        &&& (#[trigger] g.seqs@[j]).status.is_finished_spec()
        &&& g.seqs@[j].block_table@.len() == 0
    }
}

/// Some group of the queue serves this request with a history already
/// longer than the model length allows.
pub open spec fn over_length_in_queue(gs: Seq<SequenceGroup>, rid: Seq<char>, mml: int)
    -> bool
{
    exists|i: int| 0 <= i < gs.len()
        && (#[trigger] gs[i]).request_id@ == rid
        && gs[i].seqs@[0].num_tokens_spec() > mml
}

/// The finished list grew past its old prefix `fin0` by a group with
/// this request id, finalized as length-capped.
pub open spec fn finalized_length_capped(
    fin0: Seq<SequenceGroup>,
    fin: Seq<SequenceGroup>,
    rid: Seq<char>,
) -> bool {
    exists|i: int| fin0.len() <= i < fin.len()
        && (#[trigger] fin[i]).request_id@ == rid
        && fin[i].seqs@[0].status == SequenceStatus::FinishedLengthCapped
}

/// Appending another finished group never loses a finalization already
/// present.
proof fn lemma_finalized_length_capped_push(
    fin0: Seq<SequenceGroup>,
    fin: Seq<SequenceGroup>,
    g: SequenceGroup,
    rid: Seq<char>,
)
    requires
        finalized_length_capped(fin0, fin, rid),
    ensures
        finalized_length_capped(fin0, fin.push(g), rid),
{
    let i = choose|i: int| fin0.len() <= i < fin.len()
        && (#[trigger] fin[i]).request_id@ == rid
        && fin[i].seqs@[0].status == SequenceStatus::FinishedLengthCapped;
    assert(fin.push(g)[i] == fin[i]);
}

/// The id list holds this request.
pub open spec fn listed_in(ids: Seq<String>, rid: Seq<char>) -> bool {
    exists|k: int| 0 <= k < ids.len() && (#[trigger] ids[k])@ == rid
}

/// Appending another id never loses one already listed.
proof fn lemma_listed_in_push(ids: Seq<String>, s: String, rid: Seq<char>)
    requires
        listed_in(ids, rid),
    ensures
        listed_in(ids.push(s), rid),
{
    let k = choose|k: int| 0 <= k < ids.len() && (#[trigger] ids[k])@ == rid;
    assert(ids.push(s)[k] == ids[k]);
}

/// The scheduler: configuration, the block manager, and the queues.
///
/// `waiting` is ordered by arrival, `running` by admission age,
/// `swapped` by swap-out time, all front first. `finished` holds groups
/// the scheduler itself finalized (ignored or failed), for the engine
/// loop to report and drop.
pub struct Scheduler {
    pub config: SchedulerConfig,
    pub block_engine: BlockEngine,
    pub waiting: Vec<SequenceGroup>,
    pub running: Vec<SequenceGroup>,
    pub swapped: Vec<SequenceGroup>,
    pub finished: Vec<SequenceGroup>,
}

impl Scheduler {
    /// The global invariant: pools well formed, every queue's groups in
    /// the shape their queue demands, and each pool's reference counts
    /// equal to the occurrence counts over the queue it backs.
    pub open spec fn wf(self) -> bool {
        &&& self.block_engine.wf()
        &&& forall|i: int| 0 <= i < self.waiting@.len()
                ==> group_waiting_wf(#[trigger] self.waiting@[i])
        &&& forall|i: int| 0 <= i < self.running@.len()
                ==> group_running_wf(#[trigger] self.running@[i],
                    self.block_engine.block_size as int,
                    self.block_engine.gpu_pool.capacity())
        &&& forall|i: int| 0 <= i < self.swapped@.len()
                ==> group_swapped_wf(#[trigger] self.swapped@[i],
                    self.block_engine.block_size as int,
                    self.block_engine.cpu_pool.capacity())
        &&& forall|i: int| 0 <= i < self.finished@.len()
                ==> group_finished_wf(#[trigger] self.finished@[i])
        &&& forall|b: int| 0 <= b < self.block_engine.gpu_pool.capacity()
                ==> #[trigger] self.block_engine.gpu_pool.rc(b)
                    == count_in_groups(self.running@, b)
        &&& forall|b: int| 0 <= b < self.block_engine.cpu_pool.capacity()
                ==> #[trigger] self.block_engine.cpu_pool.rc(b)
                    == count_in_groups(self.swapped@, b)
    }

    /// An empty scheduler over fresh pools.
    pub fn new(config: SchedulerConfig, block_size: usize, num_gpu_blocks: usize,
        num_cpu_blocks: usize) -> (s: Self)
        requires
            block_size >= 1,
        ensures
            s.wf(),
            s.config == config,
            s.block_engine.block_size == block_size,
            s.block_engine.gpu_pool.capacity() == num_gpu_blocks,
            s.block_engine.cpu_pool.capacity() == num_cpu_blocks,
            s.block_engine.gpu_pool.num_free_spec() == num_gpu_blocks,
            s.waiting@.len() == 0,
            s.running@.len() == 0,
            s.swapped@.len() == 0,
            s.finished@.len() == 0,
    {
        let s = Scheduler {
            config,
            block_engine: BlockEngine::new(block_size, num_gpu_blocks, num_cpu_blocks),
            waiting: Vec::new(),
            running: Vec::new(),
            swapped: Vec::new(),
            finished: Vec::new(),
        };
        s
    }

    /// Whether the waiting queue's head passes every admission probe of
    /// a fresh prompt step: its history fits the model length and the
    /// step's token budget, the batch width cap has room for the
    /// already running sequences plus its siblings, and enough free
    /// blocks remain above the watermark.
    pub open spec fn head_admissible(self) -> bool {
        &&& self.waiting@.len() > 0
        &&& self.waiting@[0].seqs@[0].num_tokens_spec() <= self.config.max_model_len
        &&& self.waiting@[0].seqs@[0].num_tokens_spec()
            <= self.config.max_num_batched_tokens
        &&& crate::counting::total_unfinished(self.running@)
            + self.waiting@[0].seqs@.len() <= self.config.max_num_seqs
        &&& self.block_engine.gpu_pool.num_free_spec() >= blocks_for_tokens(
            self.waiting@[0].seqs@[0].num_tokens_spec(),
            self.block_engine.block_size as int) + self.config.watermark
    }

    /// Walk the waiting queue in arrival order and admit groups while
    /// the probes pass: the history fits the model length, the step's
    /// token and sequence budgets are not exhausted, the batch width cap
    /// has room beside the already running sequences, and enough free
    /// accelerator blocks remain above the watermark. A group whose
    /// history exceeds the model length is finalized as length-capped
    /// and reported in the second list. Admission stops at the first
    /// group that does not fit.
    fn schedule_prompt(&mut self) -> (r: (Vec<String>, Vec<String>))
        requires
            old(self).wf(),
        ensures
            final(self).wf(),
            final(self).config == old(self).config,
            final(self).swapped == old(self).swapped,
            final(self).block_engine.block_size == old(self).block_engine.block_size,
            final(self).block_engine.gpu_pool.capacity()
                == old(self).block_engine.gpu_pool.capacity(),
            final(self).block_engine.cpu_pool.capacity()
                == old(self).block_engine.cpu_pool.capacity(),
            r.0@.len() > 0 ==> final(self).block_engine.gpu_pool.num_free_spec()
                >= final(self).config.watermark,
            r.0@.len() == 0 ==> final(self).block_engine.gpu_pool.num_free_spec()
                >= old(self).block_engine.gpu_pool.num_free_spec(),
            final(self).finished@.len() >= old(self).finished@.len(),
            old(self).head_admissible() ==> r.0@.len() > 0
                || final(self).finished@.len() > old(self).finished@.len(),
            final(self).waiting@.len() <= old(self).waiting@.len(),
            final(self).waiting@ == old(self).waiting@.subrange(
                old(self).waiting@.len() - final(self).waiting@.len(),
                old(self).waiting@.len() as int),
            final(self).finished@.subrange(0, old(self).finished@.len() as int)
                == old(self).finished@,
            forall|k: int| #![trigger r.1@[k]] 0 <= k < r.1@.len()
                ==> over_length_in_queue(old(self).waiting@, r.1@[k]@,
                    old(self).config.max_model_len as int),
            forall|k: int| #![trigger r.1@[k]] 0 <= k < r.1@.len()
                ==> finalized_length_capped(old(self).finished@,
                    final(self).finished@, r.1@[k]@),
            forall|i: int| #![trigger old(self).waiting@[i]]
                0 <= i < old(self).waiting@.len() - final(self).waiting@.len()
                && old(self).waiting@[i].seqs@[0].num_tokens_spec()
                    > old(self).config.max_model_len
                ==> listed_in(r.1@, old(self).waiting@[i].request_id@),
    {
        let mut scheduled: Vec<String> = Vec::new();
        let mut ignored: Vec<String> = Vec::new();
        let mut batched: usize = 0;
        let mut admitted: usize = 0;
        // sequences already running also count against the batch width
        let base = match live_seqs_within(&self.running, self.config.max_num_seqs) {
            Some(t) => t,
            None => {
                proof {
                    if old(self).head_admissible() {
                        assert(group_waiting_wf(self.waiting@[0]));
                    }
                    assert(self.waiting@.subrange(0, self.waiting@.len() as int)
                        =~= self.waiting@);
                    assert(self.finished@.subrange(0, self.finished@.len() as int)
                        =~= self.finished@);
                }
                return (scheduled, ignored);
            },
        };
        proof {
            assert(self.waiting@.subrange(0, self.waiting@.len() as int)
                =~= self.waiting@);
            assert(self.finished@.subrange(0, self.finished@.len() as int)
                =~= self.finished@);
        }
        while self.waiting.len() > 0
            invariant
                self.wf(),
                self.config == old(self).config,
                self.swapped == old(self).swapped,
                self.block_engine.block_size == old(self).block_engine.block_size,
                self.block_engine.gpu_pool.capacity()
                    == old(self).block_engine.gpu_pool.capacity(),
                self.block_engine.cpu_pool.capacity()
                    == old(self).block_engine.cpu_pool.capacity(),
                batched <= self.config.max_num_batched_tokens,
                base + admitted <= self.config.max_num_seqs,
                base == crate::counting::total_unfinished(old(self).running@),
                scheduled@.len() > 0 ==> self.block_engine.gpu_pool.num_free_spec()
                    >= self.config.watermark,
                scheduled@.len() == 0 ==> self.block_engine.gpu_pool.num_free_spec()
                    >= old(self).block_engine.gpu_pool.num_free_spec(),
                self.finished@.len() >= old(self).finished@.len(),
                scheduled@.len() > 0
                    || self.finished@.len() > old(self).finished@.len()
                    || (self.waiting@ == old(self).waiting@
                        && self.block_engine == old(self).block_engine
                        && batched == 0
                        && admitted == 0),
                self.waiting@.len() <= old(self).waiting@.len(),
                self.waiting@ == old(self).waiting@.subrange(
                    old(self).waiting@.len() - self.waiting@.len(),
                    old(self).waiting@.len() as int),
                self.finished@.subrange(0, old(self).finished@.len() as int)
                    == old(self).finished@,
                forall|k: int| #![trigger ignored@[k]] 0 <= k < ignored@.len()
                    ==> over_length_in_queue(old(self).waiting@, ignored@[k]@,
                        old(self).config.max_model_len as int),
                forall|k: int| #![trigger ignored@[k]] 0 <= k < ignored@.len()
                    ==> finalized_length_capped(old(self).finished@,
                        self.finished@, ignored@[k]@),
                forall|i: int| #![trigger old(self).waiting@[i]]
                    0 <= i < old(self).waiting@.len() - self.waiting@.len()
                    && old(self).waiting@[i].seqs@[0].num_tokens_spec()
                        > old(self).config.max_model_len
                    ==> listed_in(ignored@, old(self).waiting@[i].request_id@),
            ensures
                old(self).head_admissible() ==> scheduled@.len() > 0
                    || self.finished@.len() > old(self).finished@.len(),
            decreases self.waiting@.len(),
        {
            proof {
                assert(group_waiting_wf(self.waiting@[0]));
            }
            let nt = self.waiting[0].seqs[0].num_tokens();
            if nt > self.config.max_model_len {
                // the history can never fit a forward pass: reject
                let ghost pre = *self;
                let ghost consumed = old(self).waiting@.len() - pre.waiting@.len();
                let grp = self.waiting.remove(0);
                let rid = grp.request_id.clone();
                proof {
                    assert(grp == old(self).waiting@[consumed]);
                    assert(self.waiting@ =~= old(self).waiting@.subrange(
                        consumed + 1, old(self).waiting@.len() as int));
                    assert forall|jj: int, k: int| 0 <= jj < grp.seqs@.len()
                        && 0 <= k < grp.seqs@[jj].block_table@.len()
                        implies (#[trigger] grp.seqs@[jj].block_table@[k])
                            < self.block_engine.gpu_pool.capacity()
                    by {
                    }
                    assert forall|b: int| 0 <= b < self.block_engine.gpu_pool.capacity()
                        implies #[trigger] self.block_engine.gpu_pool.rc(b)
                            >= count_in_seqs(grp.seqs@, b)
                    by {
                        lemma_count_in_seqs_all_empty(grp.seqs@, b);
                    }
                    assert forall|i: int| 0 <= i < self.waiting@.len()
                        implies group_waiting_wf(#[trigger] self.waiting@[i])
                    by {
                        assert(self.waiting@[i] == pre.waiting@[i + 1]);
                    }
                }
                let ghost pre_be = self.block_engine;
                let ghost pre_fin = self.finished@;
                let ghost pre_ign = ignored@;
                let g2 = finalize_group(&mut self.block_engine, grp, Device::Gpu,
                    SequenceStatus::FinishedLengthCapped);
                let ghost gg2 = g2;
                self.finished.push(g2);
                ignored.push(rid);
                proof {
                    assert forall|b: int| 0 <= b < self.block_engine.gpu_pool.capacity()
                        implies #[trigger] self.block_engine.gpu_pool.rc(b)
                            == count_in_groups(self.running@, b)
                    by {
                        lemma_count_in_seqs_all_empty(grp.seqs@, b);
                        assert(pre_be.gpu_pool.rc(b) == count_in_groups(self.running@, b));
                    }
                    let ghost mml = old(self).config.max_model_len as int;
                    assert(self.finished@[pre_fin.len() as int] == gg2);
                    assert(grp.seqs@[0].status == SequenceStatus::Waiting);
                    assert(gg2.seqs@[0].status == SequenceStatus::FinishedLengthCapped);
                    assert(self.finished@.subrange(0, old(self).finished@.len() as int)
                        =~= old(self).finished@);
                    assert(old(self).waiting@[consumed].seqs@[0].num_tokens_spec()
                        > mml);
                    assert forall|k: int| 0 <= k < ignored@.len()
                        implies over_length_in_queue(old(self).waiting@,
                            (#[trigger] ignored@[k])@, mml)
                    by {
                        if k < pre_ign.len() {
                            assert(ignored@[k] == pre_ign[k]);
                        } else {
                            assert(ignored@[k] == rid);
                            assert(old(self).waiting@[consumed].request_id@ == rid@);
                        }
                    }
                    assert forall|k: int| #![trigger ignored@[k]]
                        0 <= k < ignored@.len()
                        implies finalized_length_capped(old(self).finished@,
                            self.finished@, ignored@[k]@)
                    by {
                        if k < pre_ign.len() {
                            assert(ignored@[k] == pre_ign[k]);
                            lemma_finalized_length_capped_push(old(self).finished@,
                                pre_fin, gg2, pre_ign[k]@);
                            assert(self.finished@ == pre_fin.push(gg2));
                        } else {
                            assert(ignored@[k] == rid);
                            assert(self.finished@[pre_fin.len() as int].request_id@
                                == rid@);
                        }
                    }
                    assert forall|i: int| 0 <= i < consumed + 1
                        && (#[trigger] old(self).waiting@[i]).seqs@[0]
                            .num_tokens_spec() > mml
                        implies listed_in(ignored@,
                            old(self).waiting@[i].request_id@)
                    by {
                        if i < consumed {
                            lemma_listed_in_push(pre_ign, rid,
                                old(self).waiting@[i].request_id@);
                            assert(ignored@ == pre_ign.push(rid));
                        } else {
                            assert(ignored@[pre_ign.len() as int] == rid);
                            assert(rid@ == old(self).waiting@[i].request_id@);
                        }
                    }
                }
            } else {
                // probe the step budgets and the memory reserve
                let needed = blocks_needed(nt, self.block_engine.block_size);
                let live = self.waiting[0].seqs.len();
                if nt > self.config.max_num_batched_tokens - batched {
                    break;
                }
                if live > self.config.max_num_seqs - admitted - base {
                    break;
                }
                let free = self.block_engine.gpu_pool.num_free();
                if free < self.config.watermark || free - self.config.watermark < needed {
                    break;
                }
                let ghost pre = *self;
                let ghost consumed = old(self).waiting@.len() - pre.waiting@.len();
                let grp = self.waiting.remove(0);
                proof {
                    assert(grp == old(self).waiting@[consumed]);
                    assert(self.waiting@ =~= old(self).waiting@.subrange(
                        consumed + 1, old(self).waiting@.len() as int));
                    assert(old(self).waiting@[consumed].seqs@[0].num_tokens_spec()
                        <= old(self).config.max_model_len);
                    assert forall|i: int| 0 <= i < consumed + 1
                        && (#[trigger] old(self).waiting@[i]).seqs@[0]
                            .num_tokens_spec() > old(self).config.max_model_len
                        implies listed_in(ignored@,
                            old(self).waiting@[i].request_id@)
                    by {
                        assert(i < consumed);
                    }
                    assert forall|i: int| 0 <= i < self.waiting@.len()
                        implies group_waiting_wf(#[trigger] self.waiting@[i])
                    by {
                        assert(self.waiting@[i] == pre.waiting@[i + 1]);
                    }
                }
                let ghost pre_be = self.block_engine;
                let (g2, ok) = admit_group(&mut self.block_engine, grp);
                if ok {
                    scheduled.push(g2.request_id.clone());
                    batched = batched + nt;
                    admitted = admitted + live;
                    let ghost pre_running = self.running@;
                    self.running.push(g2);
                    proof {
                        assert forall|b: int|
                            0 <= b < self.block_engine.gpu_pool.capacity()
                            implies #[trigger] self.block_engine.gpu_pool.rc(b)
                                == count_in_groups(self.running@, b)
                        by {
                            lemma_count_in_groups_push(pre_running, g2, b);
                            assert(pre_be.gpu_pool.rc(b)
                                == count_in_groups(pre_running, b));
                        }
                        assert forall|i: int| 0 <= i < self.running@.len()
                            implies group_running_wf(#[trigger] self.running@[i],
                                self.block_engine.block_size as int,
                                self.block_engine.gpu_pool.capacity())
                        by {
                            if i < self.running@.len() - 1 {
                                assert(self.running@[i] == pre_running[i]);
                            }
                        }
                        assert(self.finished@ == pre.finished@);
                    }
                } else {
                    let ghost pre_fin = self.finished@;
                    let ghost gg2 = g2;
                    self.finished.push(g2);
                    proof {
                        assert forall|b: int|
                            0 <= b < self.block_engine.gpu_pool.capacity()
                            implies #[trigger] self.block_engine.gpu_pool.rc(b)
                                == count_in_groups(self.running@, b)
                        by {
                            lemma_count_in_seqs_all_empty(gg2.seqs@, b);
                            assert(pre_be.gpu_pool.rc(b)
                                == count_in_groups(self.running@, b));
                        }
                        assert(self.finished@.subrange(0,
                            old(self).finished@.len() as int)
                            =~= old(self).finished@);
                        assert(gg2.seqs@[0].status == SequenceStatus::FinishedAborted);
                        assert forall|k: int| #![trigger ignored@[k]]
                            0 <= k < ignored@.len()
                            implies finalized_length_capped(old(self).finished@,
                                self.finished@, ignored@[k]@)
                        by {
                            lemma_finalized_length_capped_push(old(self).finished@,
                                pre_fin, gg2, ignored@[k]@);
                            assert(self.finished@ == pre_fin.push(gg2));
                        }
                    }
                }
            }
        }
        (scheduled, ignored)
    }

    /// Whether the swapped queue's head passes every swap-in probe: the
    /// batch width has room for the running sequences plus its live
    /// siblings, and the free accelerator blocks cover its table
    /// blocks, one growth block per live sibling, and the watermark. A
    /// group holding no blocks needs no swap, so one block is demanded.
    pub open spec fn swap_head_admissible(self) -> bool {
        &&& self.swapped@.len() > 0
        &&& total_blocks(self.swapped@[0].seqs@) >= 1
        &&& crate::counting::total_unfinished(self.running@)
            + count_unfinished(self.swapped@[0].seqs@) <= self.config.max_num_seqs
        &&& total_blocks(self.swapped@[0].seqs@)
            + count_unfinished(self.swapped@[0].seqs@) + self.config.watermark
            <= self.block_engine.gpu_pool.num_free_spec()
    }

    /// Resume swapped-out groups, oldest first, while each whole group
    /// fits: its blocks, one growth block per live sequence, and the
    /// watermark must all be covered by free accelerator blocks.
    /// Returns the `(cpu, gpu)` copies for the cache engine.
    fn try_swap_in(&mut self) -> (ops: Vec<SwapOp>)
        requires
            old(self).wf(),
        ensures
            final(self).wf(),
            final(self).config == old(self).config,
            final(self).waiting == old(self).waiting,
            final(self).finished == old(self).finished,
            final(self).block_engine.block_size == old(self).block_engine.block_size,
            final(self).block_engine.gpu_pool.capacity()
                == old(self).block_engine.gpu_pool.capacity(),
            final(self).block_engine.cpu_pool.capacity()
                == old(self).block_engine.cpu_pool.capacity(),
            ops@.len() > 0 ==> final(self).block_engine.gpu_pool.num_free_spec()
                >= final(self).config.watermark,
            final(self).block_engine.gpu_pool.num_free_spec()
                == old(self).block_engine.gpu_pool.num_free_spec() - ops@.len(),
            old(self).swap_head_admissible() ==> ops@.len() > 0,
    {
        let mut ops: Vec<SwapOp> = Vec::new();
        while self.swapped.len() > 0
            invariant
                self.wf(),
                self.config == old(self).config,
                self.waiting == old(self).waiting,
                self.finished == old(self).finished,
                self.block_engine.block_size == old(self).block_engine.block_size,
                self.block_engine.gpu_pool.capacity()
                    == old(self).block_engine.gpu_pool.capacity(),
                self.block_engine.cpu_pool.capacity()
                    == old(self).block_engine.cpu_pool.capacity(),
                ops@.len() > 0 ==> self.block_engine.gpu_pool.num_free_spec()
                    >= self.config.watermark,
                self.block_engine.gpu_pool.num_free_spec()
                    == old(self).block_engine.gpu_pool.num_free_spec() - ops@.len(),
                old(self).swap_head_admissible() ==> ops@.len() > 0
                    || (self.swapped@ == old(self).swapped@
                        && self.running@ == old(self).running@
                        && self.block_engine == old(self).block_engine),
            ensures
                old(self).swap_head_admissible() ==> ops@.len() > 0,
            decreases self.swapped@.len(),
        {
            proof {
                assert(group_swapped_wf(self.swapped@[0],
                    self.block_engine.block_size as int,
                    self.block_engine.cpu_pool.capacity()));
                crate::counting::lemma_count_unfinished_bounds(
                    self.swapped@[0].seqs@);
                crate::counting::lemma_total_blocks_nonneg(self.swapped@[0].seqs@);
            }
            // the resumed group must also fit the batch width cap
            let base = match live_seqs_within(&self.running, self.config.max_num_seqs) {
                Some(t) => t,
                None => {
                    break;
                },
            };
            let live = self.swapped[0].num_unfinished_seqs();
            if live > self.config.max_num_seqs - base {
                break;
            }
            let free = self.block_engine.gpu_pool.num_free();
            let total = match group_blocks_within(&self.swapped[0], free) {
                Some(t) => t,
                None => {
                    break;
                },
            };
            if free - total < self.config.watermark {
                break;
            }
            if (free - total) - self.config.watermark < live {
                break;
            }

            let ghost pre = *self;
            let grp = self.swapped.remove(0);
            proof {
                assert forall|i: int| 0 <= i < self.swapped@.len()
                    implies group_swapped_wf(#[trigger] self.swapped@[i],
                        self.block_engine.block_size as int,
                        self.block_engine.cpu_pool.capacity())
                by {
                    assert(self.swapped@[i] == pre.swapped@[i + 1]);
                }
                assert forall|b: int| 0 <= b < self.block_engine.cpu_pool.capacity()
                    implies #[trigger] self.block_engine.cpu_pool.rc(b)
                        >= count_in_seqs(grp.seqs@, b)
                by {
                    lemma_count_in_groups_one(pre.swapped@, 0, b);
                }
            }
            let ghost pre_be = self.block_engine;
            let ghost pre_swapped = self.swapped@;
            let ghost pre_running = self.running@;
            let (g2, mut sops) = swap_group(&mut self.block_engine, grp, Device::Cpu,
                Device::Gpu, SequenceStatus::Running);
            ops.append(&mut sops);
            self.running.push(g2);
            proof {
                assert forall|b: int| 0 <= b < self.block_engine.cpu_pool.capacity()
                    implies #[trigger] self.block_engine.cpu_pool.rc(b)
                        == count_in_groups(self.swapped@, b)
                by {
                    lemma_count_in_groups_remove(pre.swapped@, 0, b);
                    assert(pre_be.cpu_pool.rc(b) == count_in_groups(pre.swapped@, b));
                }
                assert forall|b: int| 0 <= b < self.block_engine.gpu_pool.capacity()
                    implies #[trigger] self.block_engine.gpu_pool.rc(b)
                        == count_in_groups(self.running@, b)
                by {
                    lemma_count_in_groups_push(pre_running, g2, b);
                    assert(pre_be.gpu_pool.rc(b) == count_in_groups(pre_running, b));
                }
                assert(group_running_wf(g2, self.block_engine.block_size as int,
                    self.block_engine.gpu_pool.capacity())) by {
                    assert(group_swapped_wf(grp, self.block_engine.block_size as int,
                        self.block_engine.cpu_pool.capacity()));
                    assert forall|j: int| 0 <= j < g2.seqs@.len() implies {
                        &&& seq_token_bounds(#[trigger] g2.seqs@[j],
                            g2.sampling_params.max_tokens as int)
                        &&& if g2.seqs@[j].status.is_finished_spec() {
                            g2.seqs@[j].block_table@.len() == 0
                        } else {
                            &&& g2.seqs@[j].status == SequenceStatus::Running
                            &&& table_sized(g2.seqs@[j],
                                self.block_engine.block_size as int)
                            &&& forall|k: int| 0 <= k < g2.seqs@[j].block_table@.len()
                                    ==> (#[trigger] g2.seqs@[j].block_table@[k])
                                        < self.block_engine.gpu_pool.capacity()
                        }
                    } by {
                        assert(grp.seqs@[j].num_tokens_spec()
                            == g2.seqs@[j].num_tokens_spec());
                    }
                }
                assert forall|i: int| 0 <= i < self.running@.len()
                    implies group_running_wf(#[trigger] self.running@[i],
                        self.block_engine.block_size as int,
                        self.block_engine.gpu_pool.capacity())
                by {
                    if i < self.running@.len() - 1 {
                        assert(self.running@[i] == pre_running[i]);
                    }
                }
            }
        }
        ops
    }

    /// Upper bound on the fresh blocks the running sequences' next
    /// appends can take: one for each live sequence whose last block is
    /// full (the append must grow the table) or shared (the append must
    /// copy on write). Saturates at the word bound.
    fn count_growth_needs(&self) -> (n: u128)
        requires
            self.wf(),
        ensures
            n as int == growth_in_groups(self.running@,
                self.block_engine.block_size as int, self.block_engine.gpu_pool),
    {
        let ghost bs = self.block_engine.block_size as int;
        let ghost pool = self.block_engine.gpu_pool;
        let mut n: u128 = 0;
        let len = self.running.len();
        let mut i: usize = 0;
        while i < len
            invariant
                self.wf(),
                i <= len,
                len == self.running@.len(),
                bs == self.block_engine.block_size as int,
                pool == self.block_engine.gpu_pool,
                n as int == growth_in_groups(self.running@.subrange(0, i as int),
                    bs, pool),
                n as int <= i as int * (usize::MAX as int),
            decreases len - i,
        {
            let glen = self.running[i].seqs.len();
            let mut count: usize = 0;
            let mut j: usize = 0;
            while j < glen
                invariant
                    self.wf(),
                    i < len,
                    len == self.running@.len(),
                    bs == self.block_engine.block_size as int,
                    pool == self.block_engine.gpu_pool,
                    j <= glen,
                    glen == self.running@[i as int].seqs@.len(),
                    count <= j,
                    count as int == growth_in_seqs(
                        self.running@[i as int].seqs@.subrange(0, j as int), bs, pool),
                decreases glen - j,
            {
                proof {
                    assert(group_running_wf(self.running@[i as int], bs,
                        self.block_engine.gpu_pool.capacity()));
                    assert(seq_running_shape(self.running@[i as int].seqs@[j as int],
                        self.running@[i as int].sampling_params.max_tokens as int,
                        bs, self.block_engine.gpu_pool.capacity()));
                    assert(self.running@[i as int].seqs@.subrange(0, j + 1).drop_last()
                        =~= self.running@[i as int].seqs@.subrange(0, j as int));
                    assert(self.running@[i as int].seqs@.subrange(0, j + 1).last()
                        == self.running@[i as int].seqs@[j as int]);
                }
                let live = !self.running[i].seqs[j].status.is_finished();
                if live {
                    let m = self.running[i].seqs[j].num_tokens_mod(
                        self.block_engine.block_size);
                    let needs = if m == 0 {
                        true
                    } else {
                        let tlen = self.running[i].seqs[j].block_table.len();
                        if tlen == 0 {
                            false
                        } else {
                            let last = self.running[i].seqs[j].block_table[tlen - 1];
                            self.block_engine.gpu_pool.ref_count(last) > 1
                        }
                    };
                    if needs {
                        count = count + 1;
                    }
                }
                j = j + 1;
            }
            proof {
                assert(self.running@[i as int].seqs@.subrange(0, glen as int)
                    =~= self.running@[i as int].seqs@);
                assert(self.running@.subrange(0, i + 1).drop_last()
                    =~= self.running@.subrange(0, i as int));
                assert(self.running@.subrange(0, i + 1).last()
                    == self.running@[i as int]);
                assert(n as int + count as int <= (i as int + 1) * (usize::MAX as int)
                    && (i as int + 1) * (usize::MAX as int) < u128::MAX as int)
                    by (nonlinear_arith)
                    requires
                        n as int <= i as int * (usize::MAX as int),
                        count as int <= usize::MAX as int,
                        0 <= i as int,
                        i as int + 1 <= usize::MAX as int;
            }
            n = n + count as u128;
            i = i + 1;
        }
        proof {
            assert(self.running@.subrange(0, len as int) =~= self.running@);
        }
        n
    }

    /// Preempt latest-admitted groups until the running sequences can
    /// grow: as long as fewer accelerator blocks are free than the
    /// upcoming appends may take (a fresh block per live sequence at a
    /// block boundary or writing a shared block), the youngest running
    /// group is evicted. A lone sequence with a short prompt is
    /// recomputed (its table is discarded and it returns to the front
    /// of the waiting queue); any other victim is swapped out to host
    /// blocks; a victim the host pool cannot hold fails with resource
    /// exhaustion and is finalized as aborted. Returns the `(gpu, cpu)`
    /// copies.
    fn preempt_for_decode(&mut self) -> (ops: Vec<SwapOp>)
        requires
            old(self).wf(),
        ensures
            final(self).wf(),
            final(self).config == old(self).config,
            final(self).block_engine.block_size == old(self).block_engine.block_size,
            final(self).block_engine.gpu_pool.capacity()
                == old(self).block_engine.gpu_pool.capacity(),
            final(self).block_engine.cpu_pool.capacity()
                == old(self).block_engine.cpu_pool.capacity(),
            final(self).block_engine.gpu_pool.num_free_spec()
                >= old(self).block_engine.gpu_pool.num_free_spec(),
            final(self).finished@.len() >= old(self).finished@.len(),
            final(self).running@.len() == 0
                || final(self).block_engine.gpu_pool.num_free_spec()
                    >= growth_in_groups(final(self).running@,
                        final(self).block_engine.block_size as int,
                        final(self).block_engine.gpu_pool),
    {
        let mut ops: Vec<SwapOp> = Vec::new();
        while self.running.len() > 0
            invariant
                self.wf(),
                self.config == old(self).config,
                self.block_engine.block_size == old(self).block_engine.block_size,
                self.block_engine.gpu_pool.capacity()
                    == old(self).block_engine.gpu_pool.capacity(),
                self.block_engine.cpu_pool.capacity()
                    == old(self).block_engine.cpu_pool.capacity(),
                self.block_engine.gpu_pool.num_free_spec()
                    >= old(self).block_engine.gpu_pool.num_free_spec(),
                self.finished@.len() >= old(self).finished@.len(),
            ensures
                self.running@.len() == 0
                    || self.block_engine.gpu_pool.num_free_spec()
                        >= growth_in_groups(self.running@,
                            self.block_engine.block_size as int,
                            self.block_engine.gpu_pool),
            decreases self.running@.len(),
        {
            let needs = self.count_growth_needs();
            if self.block_engine.gpu_pool.num_free() as u128 >= needs {
                break;
            }
            let ghost pre = *self;
            let victim = self.running.pop().unwrap();
            proof {
                assert(victim == pre.running@.last());
                assert(self.running@ =~= pre.running@.drop_last());
                assert(group_running_wf(victim, self.block_engine.block_size as int,
                    self.block_engine.gpu_pool.capacity()));
                assert forall|b: int| 0 <= b < self.block_engine.gpu_pool.capacity()
                    implies #[trigger] self.block_engine.gpu_pool.rc(b)
                        == count_in_groups(self.running@, b)
                            + count_in_seqs(victim.seqs@, b)
                by {
                    assert(self.block_engine.gpu_pool.rc(b)
                        == count_in_groups(pre.running@, b));
                }
                assert forall|b: int| 0 <= b < self.block_engine.gpu_pool.capacity()
                    implies #[trigger] self.block_engine.gpu_pool.rc(b)
                        >= count_in_seqs(victim.seqs@, b)
                by {
                    crate::counting::lemma_count_in_groups_nonneg(self.running@, b);
                }
            }
            let ghost pre_be = self.block_engine;
            // a lone sequence with a short prompt is cheaper to prefill
            // again than to swap; anything else moves to host blocks
            let recompute = victim.seqs.len() == 1
                && (victim.seqs[0].prompt_token_ids.len() as u128)
                    <= 2u128 * (self.block_engine.block_size as u128);
            if recompute {
                // preemption by recomputation
                let g2 = finalize_group(&mut self.block_engine, victim, Device::Gpu,
                    SequenceStatus::Waiting);
                proof {
                    assert forall|b: int| 0 <= b < self.block_engine.gpu_pool.capacity()
                        implies #[trigger] self.block_engine.gpu_pool.rc(b)
                            == count_in_groups(self.running@, b)
                    by {
                        assert(pre_be.gpu_pool.rc(b) == count_in_groups(pre.running@, b));
                    }
                }
                if g2.is_finished() {
                    self.finished.push(g2);
                } else {
                    proof {
                        assert(group_waiting_wf(g2));
                    }
                    let _pos = self.add_group(g2);
                }
            } else {
                // preemption by swapping the whole group to host blocks
                let cpu_free = self.block_engine.cpu_pool.num_free();
                match group_blocks_within(&victim, cpu_free) {
                    Some(_) => {
                        let ghost pre_swapped = self.swapped@;
                        let (g2, mut vops) = swap_group(&mut self.block_engine, victim,
                            Device::Gpu, Device::Cpu, SequenceStatus::Swapped);
                        ops.append(&mut vops);
                        self.swapped.push(g2);
                        proof {
                            assert forall|b: int|
                                0 <= b < self.block_engine.gpu_pool.capacity()
                                implies #[trigger] self.block_engine.gpu_pool.rc(b)
                                    == count_in_groups(self.running@, b)
                            by {
                                assert(pre_be.gpu_pool.rc(b)
                                    == count_in_groups(pre.running@, b));
                            }
                            assert forall|b: int|
                                0 <= b < self.block_engine.cpu_pool.capacity()
                                implies #[trigger] self.block_engine.cpu_pool.rc(b)
                                    == count_in_groups(self.swapped@, b)
                            by {
                                lemma_count_in_groups_push(pre_swapped, g2, b);
                                assert(pre_be.cpu_pool.rc(b)
                                    == count_in_groups(pre_swapped, b));
                            }
                            assert(group_swapped_wf(g2,
                                self.block_engine.block_size as int,
                                self.block_engine.cpu_pool.capacity())) by {
                                assert forall|j: int| 0 <= j < g2.seqs@.len() implies {
                                    &&& seq_token_bounds(#[trigger] g2.seqs@[j],
                                        g2.sampling_params.max_tokens as int)
                                    &&& if g2.seqs@[j].status.is_finished_spec() {
                                        g2.seqs@[j].block_table@.len() == 0
                                    } else {
                                        &&& g2.seqs@[j].status == SequenceStatus::Swapped
                                        &&& table_sized(g2.seqs@[j],
                                            self.block_engine.block_size as int)
                                        &&& forall|k: int|
                                                0 <= k < g2.seqs@[j].block_table@.len()
                                                ==> (#[trigger] g2.seqs@[j]
                                                    .block_table@[k])
                                                    < self.block_engine.cpu_pool
                                                        .capacity()
                                    }
                                } by {
                                    assert(victim.seqs@[j].num_tokens_spec()
                                        == g2.seqs@[j].num_tokens_spec());
                                }
                            }
                            assert forall|i: int| 0 <= i < self.swapped@.len()
                                implies group_swapped_wf(#[trigger] self.swapped@[i],
                                    self.block_engine.block_size as int,
                                    self.block_engine.cpu_pool.capacity())
                            by {
                                if i < self.swapped@.len() - 1 {
                                    assert(self.swapped@[i] == pre_swapped[i]);
                                }
                            }
                        }
                    },
                    None => {
                        // neither pool can hold the victim: resource exhausted
                        let g2 = finalize_group(&mut self.block_engine, victim,
                            Device::Gpu, SequenceStatus::FinishedAborted);
                        self.finished.push(g2);
                        proof {
                            assert forall|b: int|
                                0 <= b < self.block_engine.gpu_pool.capacity()
                                implies #[trigger] self.block_engine.gpu_pool.rc(b)
                                    == count_in_groups(self.running@, b)
                            by {
                                assert(pre_be.gpu_pool.rc(b)
                                    == count_in_groups(pre.running@, b));
                            }
                        }
                    },
                }
            }
        }
        ops
    }

    /// The request ids of the running groups, front first.
    fn running_request_ids(&self) -> (r: Vec<String>)
        ensures
            r@.len() == self.running@.len(),
            forall|i: int| 0 <= i < r@.len()
                ==> (#[trigger] r@[i])@ == self.running@[i].request_id@,
    {
        let mut r: Vec<String> = Vec::new();
        let mut i: usize = 0;
        while i < self.running.len()
            invariant
                i <= self.running@.len(),
                r@.len() == i,
                forall|k: int| 0 <= k < i
                    ==> (#[trigger] r@[k])@ == self.running@[k].request_id@,
            decreases self.running@.len() - i,
        {
            r.push(self.running[i].request_id.clone());
            i = i + 1;
        }
        r
    }

    /// Decide one step: a prompt step while fresh requests fit, else a
    /// decode step with swap-ins while they fit and preemptions while
    /// the batch cannot grow. Never mixes the two modes.
    ///
    /// Free accelerator blocks stay at or above the watermark after any
    /// step that admitted a prompt or swapped a group in; a step that
    /// only preempts can leave fewer.
    ///
    /// `step.ignored` names the requests rejected in this call because
    /// their history already exceeds the model length; on a prompt step
    /// it lists exactly the groups of the consumed waiting prefix that
    /// were finalized as length-capped.
    pub fn schedule(&mut self) -> (step: ScheduleStep)
        requires
            old(self).wf(),
        ensures
            final(self).wf(),
            final(self).config == old(self).config,
            final(self).block_engine.block_size == old(self).block_engine.block_size,
            final(self).block_engine.gpu_pool.capacity()
                == old(self).block_engine.gpu_pool.capacity(),
            final(self).block_engine.cpu_pool.capacity()
                == old(self).block_engine.cpu_pool.capacity(),
            step.is_prompt ==> {
                &&& step.scheduled@.len() > 0
                &&& step.blocks_to_copy@.len() == 0
                &&& step.blocks_to_swap_in@.len() == 0
                &&& step.blocks_to_swap_out@.len() == 0
            },
            step.is_prompt ==> final(self).block_engine.gpu_pool.num_free_spec()
                >= final(self).config.watermark,
            step.blocks_to_swap_in@.len() > 0
                ==> final(self).block_engine.gpu_pool.num_free_spec()
                    >= final(self).config.watermark,
            !step.is_prompt ==> step.scheduled@.len() == final(self).running@.len()
                && forall|i: int| 0 <= i < step.scheduled@.len()
                    ==> (#[trigger] step.scheduled@[i])@
                        == final(self).running@[i].request_id@,
            !step.is_prompt ==> (final(self).running@.len() == 0
                || final(self).block_engine.gpu_pool.num_free_spec()
                    >= growth_in_groups(final(self).running@,
                        final(self).block_engine.block_size as int,
                        final(self).block_engine.gpu_pool)),
            old(self).swapped@.len() == 0 && old(self).head_admissible()
                ==> step.is_prompt
                    || final(self).finished@.len() > old(self).finished@.len(),
            !step.is_prompt ==> final(self).block_engine.gpu_pool.num_free_spec()
                >= old(self).block_engine.gpu_pool.num_free_spec()
                    - step.blocks_to_swap_in@.len(),
            old(self).swap_head_admissible() ==> step.blocks_to_swap_in@.len() > 0,
            forall|k: int| #![trigger step.ignored@[k]] 0 <= k < step.ignored@.len()
                ==> over_length_in_queue(old(self).waiting@, step.ignored@[k]@,
                    old(self).config.max_model_len as int),
            step.is_prompt ==> (forall|k: int| #![trigger step.ignored@[k]]
                0 <= k < step.ignored@.len()
                ==> finalized_length_capped(old(self).finished@,
                    final(self).finished@, step.ignored@[k]@)),
            step.is_prompt ==> (forall|i: int| #![trigger old(self).waiting@[i]]
                0 <= i < old(self).waiting@.len() - final(self).waiting@.len()
                && old(self).waiting@[i].seqs@[0].num_tokens_spec()
                    > old(self).config.max_model_len
                ==> listed_in(step.ignored@,
                    old(self).waiting@[i].request_id@)),
    {
        let mut ignored_all: Vec<String> = Vec::new();
        if self.swapped.len() == 0 && self.waiting.len() > 0 {
            let (sched, mut ign) = self.schedule_prompt();
            if sched.len() > 0 {
                return ScheduleStep {
                    scheduled: sched,
                    blocks_to_copy: Vec::new(),
                    blocks_to_swap_in: Vec::new(),
                    blocks_to_swap_out: Vec::new(),
                    ignored: ign,
                    is_prompt: true,
                };
            }
            let ghost ign0 = ign@;
            ignored_all.append(&mut ign);
            proof {
                assert(ignored_all@ =~= ign0);
            }
        }
        let blocks_to_swap_in = self.try_swap_in();
        let blocks_to_swap_out = self.preempt_for_decode();
        let scheduled = self.running_request_ids();
        ScheduleStep {
            scheduled,
            blocks_to_copy: Vec::new(),
            blocks_to_swap_in,
            blocks_to_swap_out,
            ignored: ignored_all,
            is_prompt: false,
        }
    }

    /// Whether some group in the queue serves the request.
    pub open spec fn queue_holds_request(gs: Seq<SequenceGroup>, rid: Seq<char>) -> bool {
        exists|i: int| 0 <= i < gs.len() && (#[trigger] gs[i]).request_id@ == rid
    }

    /// Abort a request wherever it sits: its sequences are finished as
    /// aborted, its blocks are released, and its group moves to the
    /// finished list. Aborting a request that no queue holds — unknown,
    /// or already finished — changes nothing, so a second abort of the
    /// same request is a no-op.
    pub fn abort(&mut self, request_id: &String) -> (found: bool)
        requires
            old(self).wf(),
        ensures
            final(self).wf(),
            final(self).config == old(self).config,
            final(self).block_engine.block_size == old(self).block_engine.block_size,
            final(self).block_engine.gpu_pool.capacity()
                == old(self).block_engine.gpu_pool.capacity(),
            final(self).block_engine.cpu_pool.capacity()
                == old(self).block_engine.cpu_pool.capacity(),
            found == {
                ||| Self::queue_holds_request(old(self).waiting@, request_id@)
                ||| Self::queue_holds_request(old(self).running@, request_id@)
                ||| Self::queue_holds_request(old(self).swapped@, request_id@)
            },
            !found ==> *final(self) == *old(self),
            found ==> final(self).finished@.len() == old(self).finished@.len() + 1
                && final(self).finished@.drop_last() == old(self).finished@
                && final(self).finished@.last().request_id@ == request_id@,
            found ==> final(self).waiting@.len() + final(self).running@.len()
                + final(self).swapped@.len()
                == old(self).waiting@.len() + old(self).running@.len()
                    + old(self).swapped@.len() - 1,
            found ==> final(self).finished@.last().seqs@.len() >= 1,
            found ==> {
                ||| exists|i: int| 0 <= i < old(self).waiting@.len()
                        && aborted_image(#[trigger] old(self).waiting@[i],
                            final(self).finished@.last())
                ||| exists|i: int| 0 <= i < old(self).running@.len()
                        && aborted_image(#[trigger] old(self).running@[i],
                            final(self).finished@.last())
                ||| exists|i: int| 0 <= i < old(self).swapped@.len()
                        && aborted_image(#[trigger] old(self).swapped@[i],
                            final(self).finished@.last())
            },
    {
        let mut i: usize = 0;
        while i < self.waiting.len()
            invariant
                old(self).wf(),
                *self == *old(self),
                i <= self.waiting@.len(),
                forall|ii: int| 0 <= ii < i
                    ==> (#[trigger] self.waiting@[ii]).request_id@ != request_id@,
            decreases self.waiting@.len() - i,
        {
            if self.waiting[i].request_id == *request_id {
                let ghost pre = *self;
                let grp = self.waiting.remove(i);
                proof {
                    assert(group_waiting_wf(grp));
                    assert forall|ii: int| 0 <= ii < self.waiting@.len()
                        implies group_waiting_wf(#[trigger] self.waiting@[ii])
                    by {
                        if ii < i {
                            assert(self.waiting@[ii] == pre.waiting@[ii]);
                        } else {
                            assert(self.waiting@[ii] == pre.waiting@[ii + 1]);
                        }
                    }
                    assert forall|b: int| 0 <= b < self.block_engine.gpu_pool.capacity()
                        implies #[trigger] self.block_engine.gpu_pool.rc(b)
                            >= count_in_seqs(grp.seqs@, b)
                    by {
                        lemma_count_in_seqs_all_empty(grp.seqs@, b);
                    }
                }
                let ghost pre_be = self.block_engine;
                let g2 = finalize_group(&mut self.block_engine, grp, Device::Gpu,
                    SequenceStatus::FinishedAborted);
                self.finished.push(g2);
                proof {
                    assert(self.finished@.drop_last() =~= pre.finished@);
                    assert forall|b: int| 0 <= b < self.block_engine.gpu_pool.capacity()
                        implies #[trigger] self.block_engine.gpu_pool.rc(b)
                            == count_in_groups(self.running@, b)
                    by {
                        lemma_count_in_seqs_all_empty(grp.seqs@, b);
                        assert(pre_be.gpu_pool.rc(b) == count_in_groups(self.running@, b));
                    }
                }
                return true;
            }
            i = i + 1;
        }
        let mut i: usize = 0;
        while i < self.running.len()
            invariant
                old(self).wf(),
                *self == *old(self),
                i <= self.running@.len(),
                forall|ii: int| 0 <= ii < i
                    ==> (#[trigger] self.running@[ii]).request_id@ != request_id@,
            decreases self.running@.len() - i,
        {
            if self.running[i].request_id == *request_id {
                let ghost pre = *self;
                let grp = self.running.remove(i);
                proof {
                    assert(group_running_wf(grp, self.block_engine.block_size as int,
                        self.block_engine.gpu_pool.capacity()));
                    assert forall|ii: int| 0 <= ii < self.running@.len()
                        implies group_running_wf(#[trigger] self.running@[ii],
                            self.block_engine.block_size as int,
                            self.block_engine.gpu_pool.capacity())
                    by {
                        if ii < i {
                            assert(self.running@[ii] == pre.running@[ii]);
                        } else {
                            assert(self.running@[ii] == pre.running@[ii + 1]);
                        }
                    }
                    assert forall|b: int| 0 <= b < self.block_engine.gpu_pool.capacity()
                        implies #[trigger] self.block_engine.gpu_pool.rc(b)
                            == count_in_groups(self.running@, b)
                                + count_in_seqs(grp.seqs@, b)
                    by {
                        lemma_count_in_groups_remove(pre.running@, i as int, b);
                        assert(self.block_engine.gpu_pool.rc(b)
                            == count_in_groups(pre.running@, b));
                    }
                    assert forall|b: int| 0 <= b < self.block_engine.gpu_pool.capacity()
                        implies #[trigger] self.block_engine.gpu_pool.rc(b)
                            >= count_in_seqs(grp.seqs@, b)
                    by {
                        crate::counting::lemma_count_in_groups_nonneg(self.running@, b);
                    }
                }
                let ghost pre_be = self.block_engine;
                let g2 = finalize_group(&mut self.block_engine, grp, Device::Gpu,
                    SequenceStatus::FinishedAborted);
                self.finished.push(g2);
                proof {
                    assert(self.finished@.drop_last() =~= pre.finished@);
                    assert forall|b: int| 0 <= b < self.block_engine.gpu_pool.capacity()
                        implies #[trigger] self.block_engine.gpu_pool.rc(b)
                            == count_in_groups(self.running@, b)
                    by {
                        assert(pre_be.gpu_pool.rc(b) == count_in_groups(self.running@, b)
                            + count_in_seqs(grp.seqs@, b));
                    }
                }
                return true;
            }
            i = i + 1;
        }
        let mut i: usize = 0;
        while i < self.swapped.len()
            invariant
                old(self).wf(),
                *self == *old(self),
                i <= self.swapped@.len(),
                forall|ii: int| 0 <= ii < i
                    ==> (#[trigger] self.swapped@[ii]).request_id@ != request_id@,
            decreases self.swapped@.len() - i,
        {
            if self.swapped[i].request_id == *request_id {
                let ghost pre = *self;
                let grp = self.swapped.remove(i);
                proof {
                    assert(group_swapped_wf(grp, self.block_engine.block_size as int,
                        self.block_engine.cpu_pool.capacity()));
                    assert forall|ii: int| 0 <= ii < self.swapped@.len()
                        implies group_swapped_wf(#[trigger] self.swapped@[ii],
                            self.block_engine.block_size as int,
                            self.block_engine.cpu_pool.capacity())
                    by {
                        if ii < i {
                            assert(self.swapped@[ii] == pre.swapped@[ii]);
                        } else {
                            assert(self.swapped@[ii] == pre.swapped@[ii + 1]);
                        }
                    }
                    assert forall|b: int| 0 <= b < self.block_engine.cpu_pool.capacity()
                        implies #[trigger] self.block_engine.cpu_pool.rc(b)
                            == count_in_groups(self.swapped@, b)
                                + count_in_seqs(grp.seqs@, b)
                    by {
                        lemma_count_in_groups_remove(pre.swapped@, i as int, b);
                        assert(self.block_engine.cpu_pool.rc(b)
                            == count_in_groups(pre.swapped@, b));
                    }
                    assert forall|b: int| 0 <= b < self.block_engine.cpu_pool.capacity()
                        implies #[trigger] self.block_engine.cpu_pool.rc(b)
                            >= count_in_seqs(grp.seqs@, b)
                    by {
                        crate::counting::lemma_count_in_groups_nonneg(self.swapped@, b);
                    }
                }
                let ghost pre_be = self.block_engine;
                let g2 = finalize_group(&mut self.block_engine, grp, Device::Cpu,
                    SequenceStatus::FinishedAborted);
                self.finished.push(g2);
                proof {
                    assert(self.finished@.drop_last() =~= pre.finished@);
                    assert forall|b: int| 0 <= b < self.block_engine.cpu_pool.capacity()
                        implies #[trigger] self.block_engine.cpu_pool.rc(b)
                            == count_in_groups(self.swapped@, b)
                    by {
                        assert(pre_be.cpu_pool.rc(b) == count_in_groups(self.swapped@, b)
                            + count_in_seqs(grp.seqs@, b));
                    }
                }
                return true;
            }
            i = i + 1;
        }
        false
    }

    /// Whether `a` comes no later than `b` in the waiting order: by
    /// arrival time, ties resolved in favor of the lower first sequence
    /// id.
    pub open spec fn arrives_no_later(a: SequenceGroup, b: SequenceGroup) -> bool {
        ||| a.arrival_time < b.arrival_time
        ||| (a.arrival_time == b.arrival_time && a.seqs@[0].id <= b.seqs@[0].id)
    }

    /// Enqueue a request group in the waiting queue, keeping the queue
    /// ordered by arrival time with ties resolved by the lower first
    /// sequence id: the group goes behind every group that comes no
    /// later, and in front of the first that comes strictly later.
    pub fn add_group(&mut self, g: SequenceGroup) -> (pos: usize)
        requires
            old(self).wf(),
            group_waiting_wf(g),
        ensures
            final(self).wf(),
            0 <= pos <= old(self).waiting@.len(),
            final(self).waiting@ == old(self).waiting@.insert(pos as int, g),
            forall|k: int| 0 <= k < pos
                ==> Self::arrives_no_later(#[trigger] old(self).waiting@[k], g),
            pos < old(self).waiting@.len()
                ==> !Self::arrives_no_later(old(self).waiting@[pos as int], g),
            final(self).running == old(self).running,
            final(self).swapped == old(self).swapped,
            final(self).finished == old(self).finished,
            final(self).block_engine == old(self).block_engine,
            final(self).config == old(self).config,
    {
        let glen = self.waiting.len();
        let mut pos: usize = 0;
        while pos < glen
            invariant
                pos <= glen,
                *self == *old(self),
                old(self).wf(),
                group_waiting_wf(g),
                glen == self.waiting@.len(),
                forall|k: int| 0 <= k < pos
                    ==> Self::arrives_no_later(#[trigger] self.waiting@[k], g),
            ensures
                pos <= glen,
                forall|k: int| 0 <= k < pos
                    ==> Self::arrives_no_later(#[trigger] self.waiting@[k], g),
                pos < glen ==> !Self::arrives_no_later(self.waiting@[pos as int], g),
            decreases glen - pos,
        {
            proof {
                assert(group_waiting_wf(self.waiting@[pos as int]));
            }
            let later = self.waiting[pos].arrival_time > g.arrival_time
                || (self.waiting[pos].arrival_time == g.arrival_time
                    && self.waiting[pos].seqs[0].id > g.seqs[0].id);
            if later {
                break;
            }
            pos = pos + 1;
        }
        let ghost pre = *self;
        self.waiting.insert(pos, g);
        proof {
            assert forall|i: int| 0 <= i < self.waiting@.len()
                implies group_waiting_wf(#[trigger] self.waiting@[i])
            by {
                if i < pos {
                    assert(self.waiting@[i] == pre.waiting@[i]);
                } else if i > pos {
                    assert(self.waiting@[i] == pre.waiting@[i - 1]);
                }
            }
        }
        pos
    }
}

/// Release every block a group still holds on the given device and move
/// its live sequences to the given status: finished with a reason, or
/// back to Waiting for preemption by recomputation. Finished siblings
/// keep their own status; token histories and ids are untouched.
pub fn finalize_group(
    be: &mut BlockEngine,
    g: SequenceGroup,
    dev: Device,
    st: SequenceStatus,
) -> (g2: SequenceGroup)
    requires
        old(be).wf(),
        forall|j: int, k: int| 0 <= j < g.seqs@.len()
            && 0 <= k < g.seqs@[j].block_table@.len()
            ==> (#[trigger] g.seqs@[j].block_table@[k]) < old(be).pool_of(dev).capacity(),
        forall|b: int| 0 <= b < old(be).pool_of(dev).capacity()
            ==> #[trigger] old(be).pool_of(dev).rc(b) >= count_in_seqs(g.seqs@, b),
    ensures
        final(be).wf(),
        final(be).block_size == old(be).block_size,
        dev == Device::Gpu ==> final(be).cpu_pool == old(be).cpu_pool,
        dev == Device::Cpu ==> final(be).gpu_pool == old(be).gpu_pool,
        final(be).pool_of(dev).capacity() == old(be).pool_of(dev).capacity(),
        forall|b: int| 0 <= b < old(be).pool_of(dev).capacity()
            ==> #[trigger] final(be).pool_of(dev).rc(b)
                == old(be).pool_of(dev).rc(b) - count_in_seqs(g.seqs@, b),
        final(be).pool_of(dev).num_free_spec() >= old(be).pool_of(dev).num_free_spec(),
        st.is_finished_spec() ==> group_finished_wf(g2),
        forall|j: int| 0 <= j < g2.seqs@.len()
            ==> (#[trigger] g2.seqs@[j]).block_table@.len() == 0,
        g2.request_id == g.request_id,
        g2.arrival_time == g.arrival_time,
        g2.sampling_params == g.sampling_params,
        g2.seqs@.len() == g.seqs@.len(),
        forall|j: int| 0 <= j < g.seqs@.len() ==> {
            &&& (#[trigger] g2.seqs@[j]).id == g.seqs@[j].id
            &&& g2.seqs@[j].prompt_token_ids == g.seqs@[j].prompt_token_ids
            &&& g2.seqs@[j].output_token_ids == g.seqs@[j].output_token_ids
            &&& g2.seqs@[j].status == (if g.seqs@[j].status.is_finished_spec() {
                g.seqs@[j].status
            } else {
                st
            })
        },
{
    let mut g = g;
    let ghost g0 = g;
    let len = g.seqs.len();
    let mut j: usize = 0;
    while j < len
        invariant
            j <= len,
            old(be).wf(),
            len == g0.seqs@.len(),
            g.seqs@.len() == len,
            g.request_id == g0.request_id,
            g.arrival_time == g0.arrival_time,
            g.sampling_params == g0.sampling_params,
            forall|i: int| j <= i < len ==> g.seqs@[i] == g0.seqs@[i],
            forall|i: int| 0 <= i < j ==> {
                &&& (#[trigger] g.seqs@[i]).block_table@.len() == 0
                &&& g.seqs@[i].id == g0.seqs@[i].id
                &&& g.seqs@[i].prompt_token_ids == g0.seqs@[i].prompt_token_ids
                &&& g.seqs@[i].output_token_ids == g0.seqs@[i].output_token_ids
                &&& g.seqs@[i].status == (if g0.seqs@[i].status.is_finished_spec() {
                    g0.seqs@[i].status
                } else {
                    st
                })
                &&& st.is_finished_spec() ==> g.seqs@[i].status.is_finished_spec()
            },
            forall|jj: int, k: int| 0 <= jj < g0.seqs@.len()
                && 0 <= k < g0.seqs@[jj].block_table@.len()
                ==> (#[trigger] g0.seqs@[jj].block_table@[k])
                    < old(be).pool_of(dev).capacity(),
            forall|b: int| 0 <= b < old(be).pool_of(dev).capacity()
                ==> #[trigger] old(be).pool_of(dev).rc(b) >= count_in_seqs(g0.seqs@, b),
            be.block_size == old(be).block_size,
            dev == Device::Gpu ==> be.cpu_pool == old(be).cpu_pool,
            dev == Device::Cpu ==> be.gpu_pool == old(be).gpu_pool,
            be.pool_of(dev).wf(),
            be.pool_of(dev).capacity() == old(be).pool_of(dev).capacity(),
            be.pool_of(dev).num_free_spec() >= old(be).pool_of(dev).num_free_spec(),
            forall|b: int| 0 <= b < old(be).pool_of(dev).capacity()
                ==> #[trigger] be.pool_of(dev).rc(b) == old(be).pool_of(dev).rc(b)
                    - count_in_seqs(g0.seqs@, b) + count_in_seqs(g.seqs@, b),
        decreases len - j,
    {
        let ghost pre_seqs = g.seqs@;
        let ghost ppool = be.pool_of(dev);
        let mut s = g.seqs.remove(j);
        proof {
            assert(s == g0.seqs@[j as int]);
            assert forall|b: int| 0 <= b < ppool.capacity()
                implies #[trigger] ppool.rc(b) >= count_in_table(s.block_table@, b)
            by {
                lemma_count_in_seqs_remove(pre_seqs, j as int, b);
                lemma_count_in_seqs_nonneg(pre_seqs.remove(j as int), b);
            }
        }
        be.free_seq(&mut s, dev);
        if !s.status.is_finished() {
            s.status = st;
        }
        g.seqs.insert(j, s);
        proof {
            let ghost snew = g.seqs@[j as int];
            assert(g.seqs@ == pre_seqs.remove(j as int).insert(j as int, snew));
            assert forall|b: int| 0 <= b < old(be).pool_of(dev).capacity()
                implies #[trigger] be.pool_of(dev).rc(b) == old(be).pool_of(dev).rc(b)
                    - count_in_seqs(g0.seqs@, b) + count_in_seqs(g.seqs@, b)
            by {
                lemma_count_in_seqs_remove(pre_seqs, j as int, b);
                lemma_count_in_seqs_insert(pre_seqs.remove(j as int), j as int, snew, b);
                assert(ppool.rc(b) == old(be).pool_of(dev).rc(b)
                    - count_in_seqs(g0.seqs@, b) + count_in_seqs(pre_seqs, b));
            }
        }
        j = j + 1;
    }
    proof {
        assert forall|b: int| 0 <= b < old(be).pool_of(dev).capacity()
            implies #[trigger] be.pool_of(dev).rc(b)
                == old(be).pool_of(dev).rc(b) - count_in_seqs(g0.seqs@, b)
        by {
            lemma_count_in_seqs_all_empty(g.seqs@, b);
        }
    }
    g
}

/// Give a waiting group its accelerator blocks and mark it Running: the
/// first sibling gets a fresh table, and each later sibling forks it,
/// sharing the prompt blocks under copy-on-write protection.
///
/// Returns `true` on success. On the practically unreachable failure to
/// record one more shared reference, the group is rolled back: every
/// block released, every sequence finished as aborted, and the pool as
/// it was.
pub fn admit_group(be: &mut BlockEngine, g: SequenceGroup) -> (r: (SequenceGroup, bool))
    requires
        old(be).wf(),
        group_waiting_wf(g),
        old(be).gpu_pool.num_free_spec() >= blocks_for_tokens(
            g.seqs@[0].num_tokens_spec(), old(be).block_size as int),
    ensures
        final(be).wf(),
        final(be).block_size == old(be).block_size,
        final(be).cpu_pool == old(be).cpu_pool,
        final(be).gpu_pool.capacity() == old(be).gpu_pool.capacity(),
        forall|b: int| 0 <= b < old(be).gpu_pool.capacity()
            ==> #[trigger] final(be).gpu_pool.rc(b) == old(be).gpu_pool.rc(b)
                + count_in_seqs(r.0.seqs@, b),
        r.0.request_id == g.request_id,
        r.0.arrival_time == g.arrival_time,
        r.0.sampling_params == g.sampling_params,
        r.0.seqs@.len() == g.seqs@.len(),
        forall|j: int| 0 <= j < g.seqs@.len() ==> {
            &&& (#[trigger] r.0.seqs@[j]).id == g.seqs@[j].id
            &&& r.0.seqs@[j].prompt_token_ids == g.seqs@[j].prompt_token_ids
            &&& r.0.seqs@[j].output_token_ids == g.seqs@[j].output_token_ids
        },
        r.1 ==> group_running_wf(r.0, old(be).block_size as int,
            old(be).gpu_pool.capacity()),
        r.1 ==> final(be).gpu_pool.num_free_spec() == old(be).gpu_pool.num_free_spec()
            - blocks_for_tokens(g.seqs@[0].num_tokens_spec(), old(be).block_size as int),
        !r.1 ==> group_finished_wf(r.0),
        !r.1 ==> final(be).gpu_pool.num_free_spec() == old(be).gpu_pool.num_free_spec(),
        !r.1 ==> r.0.seqs@[0].status == SequenceStatus::FinishedAborted,
    {
        let ghost gcap = old(be).gpu_pool.capacity();
        let ghost bs = old(be).block_size as int;
        let ghost needed = blocks_for_tokens(g.seqs@[0].num_tokens_spec(), bs);
        let mut cur = g;
        let ghost g0 = cur;
        let mut s0 = cur.seqs.remove(0);
        be.allocate(&mut s0);
        s0.status = SequenceStatus::Running;
        cur.seqs.insert(0, s0);
        proof {
            assert forall|b: int| 0 <= b < gcap
                implies #[trigger] be.gpu_pool.rc(b) == old(be).gpu_pool.rc(b)
                    + count_in_seqs(cur.seqs@, b)
            by {
                assert forall|i: int| 0 <= i < g0.seqs@.remove(0).len()
                    implies (#[trigger] g0.seqs@.remove(0)[i]).block_table@.len() == 0
                by {
                    assert(g0.seqs@.remove(0)[i] == g0.seqs@[i + 1]);
                }
                lemma_count_in_seqs_all_empty(g0.seqs@.remove(0), b);
                lemma_count_in_seqs_insert(g0.seqs@.remove(0), 0,
                    cur.seqs@[0], b);
                assert(cur.seqs@ == g0.seqs@.remove(0).insert(0, cur.seqs@[0]));
            }
        }
        let n = cur.seqs.len();
        let mut j: usize = 1;
        while j < n
            invariant
                1 <= j <= n,
                g0 == g,
                n == cur.seqs@.len(),
                n == g0.seqs@.len(),
                old(be).wf(),
                group_waiting_wf(g0),
                gcap == old(be).gpu_pool.capacity(),
                bs == old(be).block_size as int,
                needed == blocks_for_tokens(g0.seqs@[0].num_tokens_spec(), bs),
                be.block_size == old(be).block_size,
                be.cpu_pool == old(be).cpu_pool,
                be.gpu_pool.wf(),
                be.gpu_pool.capacity() == gcap,
                be.gpu_pool.num_free_spec() == old(be).gpu_pool.num_free_spec() - needed,
                forall|b: int| 0 <= b < gcap
                    ==> #[trigger] be.gpu_pool.rc(b) == old(be).gpu_pool.rc(b)
                        + count_in_seqs(cur.seqs@, b),
                cur.request_id == g0.request_id,
                cur.arrival_time == g0.arrival_time,
                cur.sampling_params == g0.sampling_params,
                forall|i: int| j <= i < n ==> cur.seqs@[i] == g0.seqs@[i],
                forall|i: int| 0 <= i < j ==> {
                    &&& (#[trigger] cur.seqs@[i]).status == SequenceStatus::Running
                    &&& table_sized(cur.seqs@[i], bs)
                    &&& forall|k: int| 0 <= k < cur.seqs@[i].block_table@.len()
                            ==> (#[trigger] cur.seqs@[i].block_table@[k]) < gcap
                    &&& cur.seqs@[i].id == g0.seqs@[i].id
                    &&& cur.seqs@[i].prompt_token_ids == g0.seqs@[i].prompt_token_ids
                    &&& cur.seqs@[i].output_token_ids == g0.seqs@[i].output_token_ids
                },
            decreases n - j,
        {
            let ghost pre_seqs = cur.seqs@;
            let mut c = cur.seqs.remove(j);
            proof {
                assert(c == g0.seqs@[j as int]);
                assert forall|k: int| 0 <= k < cur.seqs@[0].block_table@.len()
                    implies be.gpu_pool.rc(
                        #[trigger] cur.seqs@[0].block_table@[k] as int) >= 1
                by {
                    let e = cur.seqs@[0].block_table@[k] as int;
                    lemma_count_in_seqs_remove(pre_seqs, j as int, e);
                    assert(cur.seqs@ == pre_seqs.remove(j as int));
                    lemma_count_in_seqs_one(cur.seqs@, 0, e);
                    lemma_count_in_table_at(cur.seqs@[0].block_table@, k, e);
                }
            }
            let fr = be.fork(&cur.seqs[0], &mut c);
            match fr {
                Ok(()) => {
                    c.status = SequenceStatus::Running;
                    cur.seqs.insert(j, c);
                    proof {
                        let ghost cnew = cur.seqs@[j as int];
                        assert(cnew.block_table@ == cur.seqs@[0].block_table@.subrange(
                            0, cnew.block_table@.len() as int));
                        assert(cnew.block_table@ =~= cur.seqs@[0].block_table@);
                        assert forall|b: int| 0 <= b < gcap
                            implies #[trigger] be.gpu_pool.rc(b)
                                == old(be).gpu_pool.rc(b) + count_in_seqs(cur.seqs@, b)
                        by {
                            lemma_count_in_seqs_remove(pre_seqs, j as int, b);
                            lemma_count_in_seqs_insert(pre_seqs.remove(j as int),
                                j as int, cnew, b);
                        }
                    }
                    j = j + 1;
                },
                Err(_) => {
                    cur.seqs.insert(j, c);
                    proof {
                        let ghost cnew = cur.seqs@[j as int];
                        assert forall|b: int| 0 <= b < gcap
                            implies #[trigger] be.gpu_pool.rc(b)
                                == old(be).gpu_pool.rc(b) + count_in_seqs(cur.seqs@, b)
                        by {
                            lemma_count_in_seqs_remove(pre_seqs, j as int, b);
                            lemma_count_in_seqs_insert(pre_seqs.remove(j as int),
                                j as int, cnew, b);
                        }
                        assert forall|jj: int, k: int| 0 <= jj < cur.seqs@.len()
                            && 0 <= k < cur.seqs@[jj].block_table@.len()
                            implies (#[trigger] cur.seqs@[jj].block_table@[k]) < gcap
                        by {
                            if jj == j {
                                assert(cur.seqs@[jj].block_table@[k]
                                    == cur.seqs@[0].block_table@[k]);
                            }
                        }
                        assert forall|b: int| 0 <= b < gcap
                            implies #[trigger] be.gpu_pool.rc(b)
                                >= count_in_seqs(cur.seqs@, b)
                        by {
                            lemma_count_in_seqs_nonneg(cur.seqs@, b);
                        }
                    }
                    let ghost pre_be = *be;
                    let ghost pre_g = cur;
                    proof {
                        assert(cur.seqs@[0].status == SequenceStatus::Running);
                    }
                    let g2 = finalize_group(be, cur, Device::Gpu,
                        SequenceStatus::FinishedAborted);
                    proof {
                        assert forall|b: int| 0 <= b < gcap
                            implies #[trigger] be.gpu_pool.rc(b)
                                == old(be).gpu_pool.rc(b) + count_in_seqs(g2.seqs@, b)
                        by {
                            lemma_count_in_seqs_all_empty(g2.seqs@, b);
                        }
                        assert forall|b: int| 0 <= b < gcap
                            implies be.gpu_pool.rcs()[b] == old(be).gpu_pool.rcs()[b]
                        by {
                            assert(be.gpu_pool.rc(b) == old(be).gpu_pool.rc(b));
                        }
                        assert(be.gpu_pool.rcs() =~= old(be).gpu_pool.rcs());
                        BlockPool::lemma_rcs_determine_free(be.gpu_pool,
                            old(be).gpu_pool);
                    }
                    return (g2, false);
                },
            }
        }
        (cur, true)
    }

/// The total number of blocks a group's tables hold, if it is within
/// `budget`; `None` when it exceeds the budget.
pub fn group_blocks_within(g: &SequenceGroup, budget: usize) -> (r: Option<usize>)
    ensures
        match r {
            Some(t) => t == total_blocks(g.seqs@) && t <= budget,
            None => total_blocks(g.seqs@) > budget,
        },
{
    let mut acc: usize = 0;
    let mut j: usize = 0;
    let len = g.seqs.len();
    while j < len
        invariant
            j <= len,
            len == g.seqs@.len(),
            acc == total_blocks(g.seqs@.subrange(0, j as int)),
            acc <= budget,
        decreases len - j,
    {
        let l = g.seqs[j].block_table.len();
        proof {
            assert(g.seqs@.subrange(0, j + 1).drop_last() =~= g.seqs@.subrange(0, j as int));
            assert(g.seqs@.subrange(0, j + 1).last() == g.seqs@[j as int]);
        }
        if l > budget - acc {
            proof {
                lemma_total_blocks_prefix(g.seqs@, j + 1);
            }
            return None;
        }
        acc = acc + l;
        j = j + 1;
    }
    proof {
        assert(g.seqs@.subrange(0, len as int) =~= g.seqs@);
    }
    Some(acc)
}

/// Move every block a group holds from one device to the other, set
/// its live sequences to the given status, and return the block copies
/// the cache engine must perform. Used whole-group, for preemption by
/// swap-out and for resumption by swap-in.
pub fn swap_group(
    be: &mut BlockEngine,
    g: SequenceGroup,
    from: Device,
    to: Device,
    st: SequenceStatus,
) -> (r: (SequenceGroup, Vec<SwapOp>))
    requires
        old(be).wf(),
        from != to,
        forall|j: int, k: int| 0 <= j < g.seqs@.len()
            && 0 <= k < g.seqs@[j].block_table@.len()
            ==> (#[trigger] g.seqs@[j].block_table@[k]) < old(be).pool_of(from).capacity(),
        forall|b: int| 0 <= b < old(be).pool_of(from).capacity()
            ==> #[trigger] old(be).pool_of(from).rc(b) >= count_in_seqs(g.seqs@, b),
        old(be).pool_of(to).num_free_spec() >= total_blocks(g.seqs@),
    ensures
        final(be).wf(),
        final(be).block_size == old(be).block_size,
        final(be).pool_of(from).capacity() == old(be).pool_of(from).capacity(),
        final(be).pool_of(to).capacity() == old(be).pool_of(to).capacity(),
        forall|b: int| 0 <= b < old(be).pool_of(from).capacity()
            ==> #[trigger] final(be).pool_of(from).rc(b)
                == old(be).pool_of(from).rc(b) - count_in_seqs(g.seqs@, b),
        forall|b: int| 0 <= b < old(be).pool_of(to).capacity()
            ==> #[trigger] final(be).pool_of(to).rc(b)
                == old(be).pool_of(to).rc(b) + count_in_seqs(r.0.seqs@, b),
        final(be).pool_of(to).num_free_spec()
            == old(be).pool_of(to).num_free_spec() - total_blocks(g.seqs@),
        final(be).pool_of(from).num_free_spec()
            >= old(be).pool_of(from).num_free_spec(),
        r.0.request_id == g.request_id,
        r.0.arrival_time == g.arrival_time,
        r.0.sampling_params == g.sampling_params,
        r.0.seqs@.len() == g.seqs@.len(),
        forall|j: int| 0 <= j < g.seqs@.len() ==> {
            &&& (#[trigger] r.0.seqs@[j]).id == g.seqs@[j].id
            &&& r.0.seqs@[j].prompt_token_ids == g.seqs@[j].prompt_token_ids
            &&& r.0.seqs@[j].output_token_ids == g.seqs@[j].output_token_ids
            &&& r.0.seqs@[j].block_table@.len() == g.seqs@[j].block_table@.len()
            &&& (forall|k: int| 0 <= k < r.0.seqs@[j].block_table@.len()
                    ==> (#[trigger] r.0.seqs@[j].block_table@[k])
                        < old(be).pool_of(to).capacity())
            &&& r.0.seqs@[j].status == (if g.seqs@[j].status.is_finished_spec() {
                g.seqs@[j].status
            } else {
                st
            })
        },
        r.1@.len() == total_blocks(g.seqs@),
    {
        let mut cur = g;
        let ghost g0 = cur;
        let len = cur.seqs.len();
        let mut ops: Vec<SwapOp> = Vec::new();
        let mut j: usize = 0;
        while j < len
            invariant
                j <= len,
                g0 == g,
                from != to,
                old(be).wf(),
                len == g0.seqs@.len(),
                cur.seqs@.len() == len,
                cur.request_id == g0.request_id,
                cur.arrival_time == g0.arrival_time,
                cur.sampling_params == g0.sampling_params,
                forall|i: int| j <= i < len ==> cur.seqs@[i] == g0.seqs@[i],
                forall|i: int| 0 <= i < j ==> {
                    &&& (#[trigger] cur.seqs@[i]).id == g0.seqs@[i].id
                    &&& cur.seqs@[i].prompt_token_ids == g0.seqs@[i].prompt_token_ids
                    &&& cur.seqs@[i].output_token_ids == g0.seqs@[i].output_token_ids
                    &&& cur.seqs@[i].block_table@.len() == g0.seqs@[i].block_table@.len()
                    &&& (forall|k: int| 0 <= k < cur.seqs@[i].block_table@.len()
                            ==> (#[trigger] cur.seqs@[i].block_table@[k])
                                < old(be).pool_of(to).capacity())
                    &&& cur.seqs@[i].status == (if g0.seqs@[i].status.is_finished_spec() {
                        g0.seqs@[i].status
                    } else {
                        st
                    })
                },
                forall|jj: int, k: int| 0 <= jj < g0.seqs@.len()
                    && 0 <= k < g0.seqs@[jj].block_table@.len()
                    ==> (#[trigger] g0.seqs@[jj].block_table@[k])
                        < old(be).pool_of(from).capacity(),
                forall|b: int| 0 <= b < old(be).pool_of(from).capacity()
                    ==> #[trigger] old(be).pool_of(from).rc(b)
                        >= count_in_seqs(g0.seqs@, b),
                old(be).pool_of(to).num_free_spec() >= total_blocks(g0.seqs@),
                be.block_size == old(be).block_size,
                be.pool_of(from).wf(),
                be.pool_of(to).wf(),
                be.pool_of(from).capacity() == old(be).pool_of(from).capacity(),
                be.pool_of(to).capacity() == old(be).pool_of(to).capacity(),
                be.pool_of(from).num_free_spec()
                    >= old(be).pool_of(from).num_free_spec(),
                be.pool_of(to).num_free_spec() == old(be).pool_of(to).num_free_spec()
                    - total_blocks(g0.seqs@.subrange(0, j as int)),
                forall|b: int| 0 <= b < old(be).pool_of(from).capacity()
                    ==> #[trigger] be.pool_of(from).rc(b)
                        == old(be).pool_of(from).rc(b)
                            - count_in_seqs(g0.seqs@.subrange(0, j as int), b),
                forall|b: int| 0 <= b < old(be).pool_of(to).capacity()
                    ==> #[trigger] be.pool_of(to).rc(b)
                        == old(be).pool_of(to).rc(b)
                            + count_in_seqs(cur.seqs@.subrange(0, j as int), b),
                ops@.len() == total_blocks(g0.seqs@.subrange(0, j as int)),
            decreases len - j,
        {
            let ghost pfrom = be.pool_of(from);
            let ghost pto = be.pool_of(to);
            let ghost pre_seqs = cur.seqs@;
            let mut s = cur.seqs.remove(j);
            proof {
                assert(s == g0.seqs@[j as int]);
                assert(g0.seqs@.subrange(0, j + 1).drop_last()
                    =~= g0.seqs@.subrange(0, j as int));
                assert(g0.seqs@.subrange(0, j + 1).last() == s);
                assert forall|b: int| 0 <= b < pfrom.capacity()
                    implies #[trigger] pfrom.rc(b) >= count_in_table(s.block_table@, b)
                by {
                    lemma_count_in_seqs_prefix(g0.seqs@, j + 1, b);
                }
                lemma_total_blocks_prefix(g0.seqs@, j + 1);
            }
            let mut seq_ops = be.swap_seq(&mut s, from, to);
            if !s.status.is_finished() {
                s.status = st;
            }
            ops.append(&mut seq_ops);
            cur.seqs.insert(j, s);
            proof {
                let ghost snew = cur.seqs@[j as int];
                assert(cur.seqs@ == pre_seqs.remove(j as int).insert(j as int, snew));
                assert forall|i: int| j + 1 <= i < len
                    implies cur.seqs@[i] == g0.seqs@[i]
                by {
                    assert(cur.seqs@[i] == pre_seqs[i]);
                }
                assert forall|b: int| 0 <= b < old(be).pool_of(from).capacity()
                    implies #[trigger] be.pool_of(from).rc(b)
                        == old(be).pool_of(from).rc(b)
                            - count_in_seqs(g0.seqs@.subrange(0, j + 1), b)
                by {
                    assert(pfrom.rc(b) == old(be).pool_of(from).rc(b)
                        - count_in_seqs(g0.seqs@.subrange(0, j as int), b));
                }
                assert forall|b: int| 0 <= b < old(be).pool_of(to).capacity()
                    implies #[trigger] be.pool_of(to).rc(b)
                        == old(be).pool_of(to).rc(b)
                            + count_in_seqs(cur.seqs@.subrange(0, j + 1), b)
                by {
                    assert(cur.seqs@.subrange(0, j + 1).drop_last()
                        =~= cur.seqs@.subrange(0, j as int));
                    assert(cur.seqs@.subrange(0, j + 1).last() == snew);
                    assert(cur.seqs@.subrange(0, j as int)
                        =~= pre_seqs.subrange(0, j as int));
                    assert(pto.rc(b) == old(be).pool_of(to).rc(b)
                        + count_in_seqs(pre_seqs.subrange(0, j as int), b));
                }
            }
            j = j + 1;
        }
        proof {
            assert(g0.seqs@.subrange(0, len as int) =~= g0.seqs@);
            assert(cur.seqs@.subrange(0, len as int) =~= cur.seqs@);
        }
        (cur, ops)
    }

/// One fresh block the sequence's next append may take: at a block
/// boundary the append must grow the table, and on a shared last block
/// it must copy on write.
pub open spec fn seq_growth_need(s: Sequence, bs: int, pool: BlockPool) -> int {
    if s.status.is_finished_spec() {
        0
    } else if s.num_tokens_spec() % bs == 0 {
        1
    } else if s.block_table@.len() > 0 && pool.rc(s.block_table@.last() as int) > 1 {
        1
    } else {
        0
    }
}

/// Fresh blocks the next appends of a list of sequences may take.
pub open spec fn growth_in_seqs(ss: Seq<Sequence>, bs: int, pool: BlockPool) -> int
    decreases ss.len(),
{
    if ss.len() == 0 {
        0
    } else {
        growth_in_seqs(ss.drop_last(), bs, pool) + seq_growth_need(ss.last(), bs, pool)
    }
}

/// Fresh blocks the next appends of a whole queue may take.
pub open spec fn growth_in_groups(gs: Seq<SequenceGroup>, bs: int, pool: BlockPool) -> int
    decreases gs.len(),
{
    if gs.len() == 0 {
        0
    } else {
        growth_in_groups(gs.drop_last(), bs, pool)
            + growth_in_seqs(gs.last().seqs@, bs, pool)
    }
}

/// Number of unfinished sequences over a queue, when it is within
/// `cap`; `None` when it exceeds the cap.
fn live_seqs_within(gs: &Vec<SequenceGroup>, cap: usize) -> (r: Option<usize>)
    ensures
        match r {
            Some(t) => t == crate::counting::total_unfinished(gs@) && t <= cap,
            None => crate::counting::total_unfinished(gs@) > cap,
        },
{
    let mut acc: usize = 0;
    let len = gs.len();
    let mut i: usize = 0;
    while i < len
        invariant
            i <= len,
            len == gs@.len(),
            acc == crate::counting::total_unfinished(gs@.subrange(0, i as int)),
            acc <= cap,
        decreases len - i,
    {
        let l = gs[i].num_unfinished_seqs();
        proof {
            assert(gs@.subrange(0, i + 1).drop_last() =~= gs@.subrange(0, i as int));
            assert(gs@.subrange(0, i + 1).last() == gs@[i as int]);
        }
        if l > cap - acc {
            proof {
                crate::counting::lemma_total_unfinished_prefix(gs@, i + 1);
            }
            return None;
        }
        acc = acc + l;
        i = i + 1;
    }
    proof {
        assert(gs@.subrange(0, len as int) =~= gs@);
    }
    Some(acc)
}

/// The finalized image of an aborted group: same identity and token
/// histories, every block released, live sequences finished as aborted,
/// already finished siblings keeping their own status.
pub open spec fn aborted_image(g: SequenceGroup, g2: SequenceGroup) -> bool {
    &&& g2.request_id == g.request_id
    &&& g2.arrival_time == g.arrival_time
    &&& g2.seqs@.len() == g.seqs@.len()
    &&& forall|j: int| 0 <= j < g.seqs@.len() ==> {
        &&& (#[trigger] g2.seqs@[j]).id == g.seqs@[j].id
        &&& g2.seqs@[j].prompt_token_ids == g.seqs@[j].prompt_token_ids
        &&& g2.seqs@[j].output_token_ids == g.seqs@[j].output_token_ids
        &&& g2.seqs@[j].block_table@.len() == 0
        &&& g2.seqs@[j].status == (if g.seqs@[j].status.is_finished_spec() {
            g.seqs@[j].status
        } else {
            SequenceStatus::FinishedAborted
        })
    }
}

/// Inside a well-formed queue, each live sequence's table is backed by
/// the pool: the occurrence counts below the pool's reference counts.
pub proof fn lemma_table_backed_in_queue(
    gs: Seq<SequenceGroup>,
    i: int,
    j: int,
    pool: BlockPool,
    cap_bound: int,
)
    requires
        0 <= i < gs.len(),
        0 <= j < gs[i].seqs@.len(),
        forall|b: int| 0 <= b < pool.capacity()
            ==> #[trigger] pool.rc(b) == count_in_groups(gs, b),
        forall|k: int| 0 <= k < gs[i].seqs@[j].block_table@.len()
            ==> (#[trigger] gs[i].seqs@[j].block_table@[k]) < pool.capacity(),
    ensures
        table_backed(gs[i].seqs@[j], pool),
{
    assert forall|b: int| 0 <= b < pool.capacity()
        implies #[trigger] pool.rc(b) >= count_in_table(gs[i].seqs@[j].block_table@, b)
    by {
        lemma_count_in_groups_one(gs, i, b);
        lemma_count_in_seqs_one(gs[i].seqs@, j, b);
    }
}

} // verus!
