//! The engine step cycle: accept requests, schedule, hand the batch to
//! the model, apply the sampled outcomes, and publish events.
//!
//! The engine is a value: the surrounding server owns it and drives one
//! iteration per forward pass. Everything that needs an accelerator, a
//! model or a channel stays outside; the engine only decides.

use vstd::prelude::*;
use crate::block_engine::{BlockEngine, CopyOp};
use crate::counting::{
    count_in_groups, count_in_seqs, count_in_table, lemma_count_in_groups_insert,
    lemma_count_in_groups_remove, lemma_count_in_seqs_all_empty, lemma_count_in_seqs_insert,
    lemma_count_in_seqs_nonneg, lemma_count_in_seqs_remove,
};
use crate::error::EngineError;
use crate::scheduler::{
    group_running_wf, group_waiting_wf, seq_running_shape, ScheduleStep, Scheduler,
    SchedulerConfig,
};
use crate::sequence::{
    count_unfinished, FinishReason, SamplingParams, Sequence, SequenceGroup, SequenceStatus,
};

verus! {

/// Declares std::path::PathBuf, an owned filesystem path the loaders
/// around the engine hand through; the core never looks inside one.
#[verifier::external_type_specification]
#[verifier::external_body]
pub struct ExPathBuf(std::path::PathBuf);

/// Where a loaded model's files live. Implemented by the loaders that
/// surround the engine; the core only passes the paths through.
pub trait ModelPaths {
    fn get_weight_filenames(&self) -> &Vec<std::path::PathBuf>;

    fn get_config_filename(&self) -> &std::path::PathBuf;

    fn get_tokenizer_filename(&self) -> &std::path::PathBuf;
}

/// Whether the event list holds the final event of the `j`-th sequence
/// of the finalized group `g`: its request id, sequence id, no token,
/// and the finish reason its status reports.
pub open spec fn event_for(events: Seq<Event>, g: SequenceGroup, j: int) -> bool {
    exists|k: int| 0 <= k < events.len()
        && (#[trigger] events[k]).request_id@ == g.request_id@
        && events[k].seq_id == g.seqs@[j].id
        && events[k].token_id is None
        && events[k].finish_reason == g.seqs@[j].status.finish_reason_spec()
}

/// Appending further events never loses one already present.
proof fn lemma_event_for_push(events: Seq<Event>, e: Event, g: SequenceGroup, j: int)
    requires
        event_for(events, g, j),
    ensures
        event_for(events.push(e), g, j),
{
    let k = choose|k: int| 0 <= k < events.len()
        && (#[trigger] events[k]).request_id@ == g.request_id@
        && events[k].seq_id == g.seqs@[j].id
        && events[k].token_id is None
        && events[k].finish_reason == g.seqs@[j].status.finish_reason_spec();
    assert(events.push(e)[k] == events[k]);
}

/// What the external sampler reports for one running sequence: the next
/// token, or the reason the sequence is done.
#[derive(Clone, Copy, PartialEq, Eq, Structural, Debug)]
pub enum TokenOrFinish {
    Token(u32),
    Finish(FinishReason),
}

/// Whether the event list holds an event with exactly these fields.
pub open spec fn step_event_for(
    events: Seq<Event>,
    rid: Seq<char>,
    sid: usize,
    token: Option<u32>,
    reason: Option<FinishReason>,
) -> bool {
    exists|k: int| 0 <= k < events.len()
        && (#[trigger] events[k]).request_id@ == rid
        && events[k].seq_id == sid
        && events[k].token_id == token
        && events[k].finish_reason == reason
}

/// Appending further events never loses one already present.
proof fn lemma_step_event_for_push(
    events: Seq<Event>,
    e: Event,
    rid: Seq<char>,
    sid: usize,
    token: Option<u32>,
    reason: Option<FinishReason>,
)
    requires
        step_event_for(events, rid, sid, token, reason),
    ensures
        step_event_for(events.push(e), rid, sid, token, reason),
{
    let k = choose|k: int| 0 <= k < events.len()
        && (#[trigger] events[k]).request_id@ == rid
        && events[k].seq_id == sid
        && events[k].token_id == token
        && events[k].finish_reason == reason;
    assert(events.push(e)[k] == events[k]);
}

/// What applying one sampled outcome does to one live sequence, and the
/// event it publishes. A finish outcome finishes the sequence with the
/// matching status, its history untouched. A token is refused when the
/// generation cap already leaves no room; otherwise it is appended, and
/// the sequence then either keeps running or finishes right away on a
/// stop token, the generation cap or the model length; a token whose
/// append finds no free block finishes the sequence as aborted, its
/// history untouched.
pub open spec fn outcome_applied(
    s0: Sequence,
    s1: Sequence,
    outcome: TokenOrFinish,
    events: Seq<Event>,
    rid: Seq<char>,
    params: SamplingParams,
    max_model_len: int,
) -> bool {
    match outcome {
        TokenOrFinish::Finish(reason) => {
            &&& s1.output_token_ids == s0.output_token_ids
            &&& s1.status == (match reason {
                FinishReason::Stop => SequenceStatus::FinishedStopped,
                FinishReason::Length => SequenceStatus::FinishedLengthCapped,
                FinishReason::Aborted => SequenceStatus::FinishedAborted,
            })
            &&& step_event_for(events, rid, s0.id, None::<u32>, Some(reason))
        },
        TokenOrFinish::Token(t) => {
            ||| {
                // the generation cap already leaves no room
                &&& s0.output_token_ids@.len() >= params.max_tokens
                &&& s1.output_token_ids == s0.output_token_ids
                &&& s1.status == SequenceStatus::FinishedLengthCapped
                &&& step_event_for(events, rid, s0.id, None::<u32>,
                    Some(FinishReason::Length))
            }
            ||| {
                // appended; the stop and length conditions then decide
                &&& s1.output_token_ids@ == s0.output_token_ids@.push(t)
                &&& (params.stop_token_ids@.contains(t)
                    ==> s1.status == SequenceStatus::FinishedStopped
                        && step_event_for(events, rid, s0.id, Some(t),
                            Some(FinishReason::Stop)))
                &&& (!params.stop_token_ids@.contains(t)
                    && (s1.output_token_ids@.len() >= params.max_tokens
                        || s1.num_tokens_spec() >= max_model_len)
                    ==> s1.status == SequenceStatus::FinishedLengthCapped
                        && step_event_for(events, rid, s0.id, Some(t),
                            Some(FinishReason::Length)))
                &&& (!params.stop_token_ids@.contains(t)
                    && s1.output_token_ids@.len() < params.max_tokens
                    && s1.num_tokens_spec() < max_model_len
                    ==> s1.status == SequenceStatus::Running
                        && step_event_for(events, rid, s0.id, Some(t),
                            None::<FinishReason>))
            }
            ||| {
                // no free block for the append
                &&& s1.output_token_ids == s0.output_token_ids
                &&& s1.status == SequenceStatus::FinishedAborted
                &&& step_event_for(events, rid, s0.id, None::<u32>,
                    Some(FinishReason::Aborted))
            }
        },
    }
}

/// Appending further events never invalidates an applied outcome.
proof fn lemma_outcome_applied_push(
    s0: Sequence,
    s1: Sequence,
    outcome: TokenOrFinish,
    events: Seq<Event>,
    e: Event,
    rid: Seq<char>,
    params: SamplingParams,
    max_model_len: int,
)
    requires
        outcome_applied(s0, s1, outcome, events, rid, params, max_model_len),
    ensures
        outcome_applied(s0, s1, outcome, events.push(e), rid, params, max_model_len),
{
    match outcome {
        TokenOrFinish::Finish(reason) => {
            lemma_step_event_for_push(events, e, rid, s0.id, None::<u32>, Some(reason));
        },
        TokenOrFinish::Token(t) => {
            if step_event_for(events, rid, s0.id, None::<u32>,
                Some(FinishReason::Length)) {
                lemma_step_event_for_push(events, e, rid, s0.id, None::<u32>,
                    Some(FinishReason::Length));
            }
            if step_event_for(events, rid, s0.id, Some(t), Some(FinishReason::Stop)) {
                lemma_step_event_for_push(events, e, rid, s0.id, Some(t),
                    Some(FinishReason::Stop));
            }
            if step_event_for(events, rid, s0.id, Some(t), Some(FinishReason::Length)) {
                lemma_step_event_for_push(events, e, rid, s0.id, Some(t),
                    Some(FinishReason::Length));
            }
            if step_event_for(events, rid, s0.id, Some(t), None::<FinishReason>) {
                lemma_step_event_for_push(events, e, rid, s0.id, Some(t),
                    None::<FinishReason>);
            }
            if step_event_for(events, rid, s0.id, None::<u32>,
                Some(FinishReason::Aborted)) {
                lemma_step_event_for_push(events, e, rid, s0.id, None::<u32>,
                    Some(FinishReason::Aborted));
            }
        },
    }
}

/// One event of a request's outbound stream. The final event of a
/// sequence carries a finish reason; every earlier one carries a token.
pub struct Event {
    pub request_id: String,
    pub seq_id: usize,
    pub token_id: Option<u32>,
    pub finish_reason: Option<FinishReason>,
}

/// Apply the sampled outcomes to one running group, consuming one
/// outcome per live sequence starting at `start`: append the token
/// (which may allocate or copy-on-write a block), or finish the
/// sequence and release its blocks. Stop tokens, the generation cap and
/// the model length cap finish a sequence right after its last token.
/// A sequence whose append finds no free block is finished as aborted.
fn process_group(
    be: &mut BlockEngine,
    g: SequenceGroup,
    outcomes: &Vec<TokenOrFinish>,
    start: usize,
    events: &mut Vec<Event>,
    pending: &mut Vec<CopyOp>,
    max_model_len: usize,
) -> (r: (SequenceGroup, usize))
    requires
        old(be).wf(),
        group_running_wf(g, old(be).block_size as int, old(be).gpu_pool.capacity()),
        start <= outcomes@.len(),
        forall|b: int| 0 <= b < old(be).gpu_pool.capacity()
            ==> #[trigger] old(be).gpu_pool.rc(b) >= count_in_seqs(g.seqs@, b),
    ensures
        final(be).wf(),
        final(be).block_size == old(be).block_size,
        final(be).cpu_pool == old(be).cpu_pool,
        final(be).gpu_pool.capacity() == old(be).gpu_pool.capacity(),
        forall|b: int| 0 <= b < old(be).gpu_pool.capacity()
            ==> #[trigger] final(be).gpu_pool.rc(b) == old(be).gpu_pool.rc(b)
                + count_in_seqs(r.0.seqs@, b) - count_in_seqs(g.seqs@, b),
        group_running_wf(r.0, old(be).block_size as int, old(be).gpu_pool.capacity()),
        start <= r.1 <= outcomes@.len(),
        r.1 - start == (if count_unfinished(g.seqs@) <= outcomes@.len() - start {
            count_unfinished(g.seqs@)
        } else {
            outcomes@.len() - start
        }),
        final(events)@.len() == old(events)@.len() + (r.1 - start),
        final(events)@.subrange(0, old(events)@.len() as int) == old(events)@,
        r.0.request_id == g.request_id,
        r.0.arrival_time == g.arrival_time,
        r.0.sampling_params == g.sampling_params,
        r.0.seqs@.len() == g.seqs@.len(),
        forall|j: int| 0 <= j < g.seqs@.len() ==> {
            &&& (#[trigger] r.0.seqs@[j]).id == g.seqs@[j].id
            &&& r.0.seqs@[j].prompt_token_ids == g.seqs@[j].prompt_token_ids
        },
        forall|j: int| #![trigger r.0.seqs@[j]] 0 <= j < g.seqs@.len() ==> {
            if g.seqs@[j].status.is_finished_spec() {
                r.0.seqs@[j] == g.seqs@[j]
            } else if start + count_unfinished(g.seqs@.subrange(0, j))
                    < outcomes@.len() {
                outcome_applied(g.seqs@[j], r.0.seqs@[j],
                    outcomes@[start + count_unfinished(g.seqs@.subrange(0, j))],
                    final(events)@, g.request_id@, g.sampling_params,
                    max_model_len as int)
            } else {
                r.0.seqs@[j] == g.seqs@[j]
            }
        },
{
    let ghost gcap = old(be).gpu_pool.capacity();
    let ghost bs = old(be).block_size as int;
    let mut cur = g;
    let ghost g0 = cur;
    let mut oi: usize = start;
    let len = cur.seqs.len();
    let mut j: usize = 0;
    while j < len
        invariant
            j <= len,
            g0 == g,
            start <= oi <= outcomes@.len(),
            oi - start == (if count_unfinished(g0.seqs@.subrange(0, j as int))
                    <= outcomes@.len() - start {
                count_unfinished(g0.seqs@.subrange(0, j as int))
            } else {
                outcomes@.len() - start
            }),
            events@.len() == old(events)@.len() + (oi - start),
            events@.subrange(0, old(events)@.len() as int) == old(events)@,
            old(be).wf(),
            gcap == old(be).gpu_pool.capacity(),
            bs == old(be).block_size as int,
            group_running_wf(g0, bs, gcap),
            forall|b: int| 0 <= b < gcap
                ==> #[trigger] old(be).gpu_pool.rc(b) >= count_in_seqs(g0.seqs@, b),
            len == g0.seqs@.len(),
            cur.seqs@.len() == len,
            cur.request_id == g0.request_id,
            cur.arrival_time == g0.arrival_time,
            cur.sampling_params == g0.sampling_params,
            be.block_size == old(be).block_size,
            be.cpu_pool == old(be).cpu_pool,
            be.gpu_pool.wf(),
            be.gpu_pool.capacity() == gcap,
            forall|b: int| 0 <= b < gcap
                ==> #[trigger] be.gpu_pool.rc(b) == old(be).gpu_pool.rc(b)
                    + count_in_seqs(cur.seqs@, b) - count_in_seqs(g0.seqs@, b),
            forall|i: int| j <= i < len ==> cur.seqs@[i] == g0.seqs@[i],
            forall|i: int| 0 <= i < j ==> {
                &&& seq_running_shape(#[trigger] cur.seqs@[i],
                    g0.sampling_params.max_tokens as int, bs, gcap)
                &&& cur.seqs@[i].id == g0.seqs@[i].id
                &&& cur.seqs@[i].prompt_token_ids == g0.seqs@[i].prompt_token_ids
            },
            forall|i: int| #![trigger cur.seqs@[i]] 0 <= i < j ==> {
                if g0.seqs@[i].status.is_finished_spec() {
                    cur.seqs@[i] == g0.seqs@[i]
                } else if start + count_unfinished(g0.seqs@.subrange(0, i))
                        < outcomes@.len() {
                    outcome_applied(g0.seqs@[i], cur.seqs@[i],
                        outcomes@[start + count_unfinished(g0.seqs@.subrange(0, i))],
                        events@, g0.request_id@, g0.sampling_params,
                        max_model_len as int)
                } else {
                    cur.seqs@[i] == g0.seqs@[i]
                }
            },
        decreases len - j,
    {
        proof {
            assert(seq_running_shape(cur.seqs@[j as int],
                g0.sampling_params.max_tokens as int, bs, gcap));
            assert(g0.seqs@.subrange(0, j + 1).drop_last()
                =~= g0.seqs@.subrange(0, j as int));
            assert(g0.seqs@.subrange(0, j + 1).last() == g0.seqs@[j as int]);
            crate::counting::lemma_count_unfinished_bounds(
                g0.seqs@.subrange(0, j as int));
        }
        let live = !cur.seqs[j].status.is_finished();
        if live && oi < outcomes.len() {
            let outcome = outcomes[oi];
            proof {
                // not exhausted, so the consumed index is the live rank
                assert(oi - start
                    == count_unfinished(g0.seqs@.subrange(0, j as int)));
            }
            let ghost oidx = oi as int;
            oi = oi + 1;
            let ghost pre_seqs = cur.seqs@;
            let ghost pre_ev = events@;
            let ghost ppool = be.gpu_pool;
            let mut s = cur.seqs.remove(j);
            proof {
                assert(s == g0.seqs@[j as int]);
                assert forall|b: int| 0 <= b < gcap
                    implies #[trigger] ppool.rc(b) >= count_in_table(s.block_table@, b)
                by {
                    lemma_count_in_seqs_remove(pre_seqs, j as int, b);
                    lemma_count_in_seqs_nonneg(pre_seqs.remove(j as int), b);
                    lemma_count_in_seqs_nonneg(g0.seqs@, b);
                }
            }
            match outcome {
                TokenOrFinish::Finish(reason) => {
                    be.free_seq(&mut s, crate::block_pool::Device::Gpu);
                    s.status = match reason {
                        FinishReason::Stop => SequenceStatus::FinishedStopped,
                        FinishReason::Length => SequenceStatus::FinishedLengthCapped,
                        FinishReason::Aborted => SequenceStatus::FinishedAborted,
                    };
                    let ev = Event {
                        request_id: cur.request_id.clone(),
                        seq_id: s.id,
                        token_id: None,
                        finish_reason: Some(reason),
                    };
                    let ghost gev = ev;
                    events.push(ev);
                    proof {
                        assert(events@[pre_ev.len() as int] == gev);
                        assert(outcome_applied(g0.seqs@[j as int], s, outcome,
                            events@, g0.request_id@, g0.sampling_params,
                            max_model_len as int));
                    }
                },
                TokenOrFinish::Token(t) => {
                    if s.output_token_ids.len() >= cur.sampling_params.max_tokens {
                        // the generation cap leaves no room for this token
                        be.free_seq(&mut s, crate::block_pool::Device::Gpu);
                        s.status = SequenceStatus::FinishedLengthCapped;
                        let ev = Event {
                            request_id: cur.request_id.clone(),
                            seq_id: s.id,
                            token_id: None,
                            finish_reason: Some(FinishReason::Length),
                        };
                        let ghost gev = ev;
                        events.push(ev);
                        proof {
                            assert(events@[pre_ev.len() as int] == gev);
                            assert(outcome_applied(g0.seqs@[j as int], s, outcome,
                                events@, g0.request_id@, g0.sampling_params,
                                max_model_len as int));
                        }
                    } else {
                        match be.append_token(&mut s, t) {
                            Err(_) => {
                                // no block left for the append: the
                                // sequence cannot be kept
                                be.free_seq(&mut s,
                                    crate::block_pool::Device::Gpu);
                                s.status = SequenceStatus::FinishedAborted;
                                let ev = Event {
                                    request_id: cur.request_id.clone(),
                                    seq_id: s.id,
                                    token_id: None,
                                    finish_reason: Some(FinishReason::Aborted),
                                };
                                let ghost gev = ev;
                                events.push(ev);
                                proof {
                                    assert(events@[pre_ev.len() as int] == gev);
                                    assert(outcome_applied(g0.seqs@[j as int], s,
                                        outcome, events@, g0.request_id@,
                                        g0.sampling_params, max_model_len as int));
                                }
                            },
                            Ok(op) => {
                                if let Some(c) = op {
                                    pending.push(c);
                                }
                                let stopped = cur.sampling_params.is_stop_token(t);
                                let capped = s.output_token_ids.len()
                                    >= cur.sampling_params.max_tokens;
                                let nt = s.num_tokens();
                                let too_long = nt >= max_model_len;
                                if stopped || capped || too_long {
                                    be.free_seq(&mut s,
                                        crate::block_pool::Device::Gpu);
                                    s.status = if stopped {
                                        SequenceStatus::FinishedStopped
                                    } else {
                                        SequenceStatus::FinishedLengthCapped
                                    };
                                    let ev = Event {
                                        request_id: cur.request_id.clone(),
                                        seq_id: s.id,
                                        token_id: Some(t),
                                        finish_reason: Some(if stopped {
                                            FinishReason::Stop
                                        } else {
                                            FinishReason::Length
                                        }),
                                    };
                                    let ghost gev = ev;
                                    events.push(ev);
                                    proof {
                                        assert(events@[pre_ev.len() as int] == gev);
                                        assert(outcome_applied(g0.seqs@[j as int], s,
                                            outcome, events@, g0.request_id@,
                                            g0.sampling_params,
                                            max_model_len as int));
                                    }
                                } else {
                                    let ev = Event {
                                        request_id: cur.request_id.clone(),
                                        seq_id: s.id,
                                        token_id: Some(t),
                                        finish_reason: None,
                                    };
                                    let ghost gev = ev;
                                    events.push(ev);
                                    proof {
                                        assert(events@[pre_ev.len() as int] == gev);
                                        assert(outcome_applied(g0.seqs@[j as int], s,
                                            outcome, events@, g0.request_id@,
                                            g0.sampling_params,
                                            max_model_len as int));
                                    }
                                }
                            },
                        }
                    }
                },
            }
            cur.seqs.insert(j, s);
            proof {
                let ghost snew = cur.seqs@[j as int];
                assert(cur.seqs@ == pre_seqs.remove(j as int).insert(j as int, snew));
                assert forall|b: int| 0 <= b < gcap
                    implies #[trigger] be.gpu_pool.rc(b) == old(be).gpu_pool.rc(b)
                        + count_in_seqs(cur.seqs@, b) - count_in_seqs(g0.seqs@, b)
                by {
                    lemma_count_in_seqs_remove(pre_seqs, j as int, b);
                    lemma_count_in_seqs_insert(pre_seqs.remove(j as int), j as int,
                        snew, b);
                }
                assert forall|i: int| j + 1 <= i < len
                    implies cur.seqs@[i] == g0.seqs@[i]
                by {
                    assert(cur.seqs@[i] == pre_seqs[i]);
                }
                assert(seq_running_shape(snew,
                    g0.sampling_params.max_tokens as int, bs, gcap));
                // one event was appended; earlier outcomes stay applied
                let ghost pushed = events@.last();
                assert(events@ =~= pre_ev.push(pushed));
                assert forall|i: int| #![trigger cur.seqs@[i]] 0 <= i < j + 1
                    implies {
                        if g0.seqs@[i].status.is_finished_spec() {
                            cur.seqs@[i] == g0.seqs@[i]
                        } else if start + count_unfinished(g0.seqs@.subrange(0, i))
                                < outcomes@.len() {
                            outcome_applied(g0.seqs@[i], cur.seqs@[i],
                                outcomes@[start
                                    + count_unfinished(g0.seqs@.subrange(0, i))],
                                events@, g0.request_id@, g0.sampling_params,
                                max_model_len as int)
                        } else {
                            cur.seqs@[i] == g0.seqs@[i]
                        }
                    }
                by {
                    if i < j {
                        assert(cur.seqs@[i] == pre_seqs[i]);
                        if !g0.seqs@[i].status.is_finished_spec()
                            && start + count_unfinished(g0.seqs@.subrange(0, i))
                                < outcomes@.len() {
                            lemma_outcome_applied_push(g0.seqs@[i], cur.seqs@[i],
                                outcomes@[start
                                    + count_unfinished(g0.seqs@.subrange(0, i))],
                                pre_ev, pushed, g0.request_id@,
                                g0.sampling_params, max_model_len as int);
                        }
                    } else {
                        assert(cur.seqs@[i] == snew);
                        assert(oidx == start
                            + count_unfinished(g0.seqs@.subrange(0, i)));
                    }
                }
            }
        }
        j = j + 1;
    }
    proof {
        assert(g0.seqs@.subrange(0, len as int) =~= g0.seqs@);
    }
    (cur, oi)
}

/// The engine: the scheduler plus the step-cycle bookkeeping — the next
/// fresh sequence id and the copy-on-write copies deferred to the next
/// step's copy list.
pub struct LlmEngine {
    pub scheduler: Scheduler,
    pub next_seq_id: usize,
    pub pending_copies: Vec<CopyOp>,
}

impl LlmEngine {
    pub open spec fn wf(self) -> bool {
        self.scheduler.wf()
    }

    /// A fresh engine over empty queues and fresh pools.
    pub fn new(config: SchedulerConfig, block_size: usize, num_gpu_blocks: usize,
        num_cpu_blocks: usize) -> (e: Self)
        requires
            block_size >= 1,
        ensures
            e.wf(),
            e.scheduler.config == config,
            e.scheduler.block_engine.block_size == block_size,
            e.scheduler.block_engine.gpu_pool.capacity() == num_gpu_blocks,
            e.scheduler.block_engine.cpu_pool.capacity() == num_cpu_blocks,
            e.scheduler.waiting@.len() == 0,
            e.scheduler.running@.len() == 0,
            e.scheduler.swapped@.len() == 0,
            e.scheduler.finished@.len() == 0,
            e.pending_copies@.len() == 0,
    {
        LlmEngine {
            scheduler: Scheduler::new(config, block_size, num_gpu_blocks,
                num_cpu_blocks),
            next_seq_id: 0,
            pending_copies: Vec::new(),
        }
    }

    /// Accept one request: build its group of sibling sequences and
    /// queue it for admission. The sibling count is at least one, and
    /// the generation cap is clamped so that the token count always
    /// fits a machine word (the clamp is unreachable for any real
    /// request). Fails only when the sequence-id space is exhausted.
    pub fn add_request(
        &mut self,
        request_id: String,
        prompt_token_ids: Vec<u32>,
        params: SamplingParams,
        arrival_time: u64,
    ) -> (r: Result<(), EngineError>)
        requires
            old(self).wf(),
        ensures
            final(self).wf(),
            final(self).scheduler.config == old(self).scheduler.config,
            match r {
                Ok(()) => {
                    &&& final(self).scheduler.waiting@.len()
                        == old(self).scheduler.waiting@.len() + 1
                    &&& exists|i: int| {
                        let g = #[trigger] final(self).scheduler.waiting@[i];
                        &&& 0 <= i < final(self).scheduler.waiting@.len()
                        &&& g.request_id@ == request_id@
                        &&& g.arrival_time == arrival_time
                        &&& g.seqs@.len()
                            == if params.n == 0 { 1int } else { params.n as int }
                        &&& forall|j: int| 0 <= j < g.seqs@.len()
                                ==> (#[trigger] g.seqs@[j]).prompt_token_ids@
                                    == prompt_token_ids@
                    }
                },
                Err(e) => {
                    &&& e == EngineError::ResourceExhausted
                    &&& *final(self) == *old(self)
                },
            },
            r is Err <==> (if params.n == 0 { 1int } else { params.n as int })
                > usize::MAX - old(self).next_seq_id,
    {
        let n: usize = if params.n == 0 {
            1
        } else {
            params.n
        };
        if n > usize::MAX - self.next_seq_id {
            return Err(EngineError::ResourceExhausted);
        }
        // clamp the cap so prompt length plus cap fits a machine word
        let max_tokens: usize = if params.max_tokens
            > usize::MAX - prompt_token_ids.len() {
            usize::MAX - prompt_token_ids.len()
        } else {
            params.max_tokens
        };
        let clamped = SamplingParams {
            n,
            max_tokens,
            stop_token_ids: params.stop_token_ids,
        };
        let group = SequenceGroup::new(request_id, arrival_time, prompt_token_ids,
            clamped, self.next_seq_id);
        self.next_seq_id = self.next_seq_id + n;
        proof {
            assert(group_waiting_wf(group));
        }
        let ghost gg = group;
        let pos = self.scheduler.add_group(group);
        proof {
            assert(self.scheduler.waiting@[pos as int] == gg);
        }
        Ok(())
    }

    /// Decide the next step and attach the copy-on-write copies deferred
    /// from the previous step's appends.
    pub fn schedule_step(&mut self) -> (step: ScheduleStep)
        requires
            old(self).wf(),
        ensures
            final(self).wf(),
            final(self).scheduler.config == old(self).scheduler.config,
            final(self).pending_copies@.len() == 0,
            step.blocks_to_copy@ == old(self).pending_copies@,
            step.is_prompt ==> step.scheduled@.len() > 0,
            step.is_prompt
                ==> final(self).scheduler.block_engine.gpu_pool.num_free_spec()
                    >= final(self).scheduler.config.watermark,
            step.blocks_to_swap_in@.len() > 0
                ==> final(self).scheduler.block_engine.gpu_pool.num_free_spec()
                    >= final(self).scheduler.config.watermark,
            !step.is_prompt ==> step.scheduled@.len()
                == final(self).scheduler.running@.len()
                && forall|i: int| 0 <= i < step.scheduled@.len()
                    ==> (#[trigger] step.scheduled@[i])@
                        == final(self).scheduler.running@[i].request_id@,
            !step.is_prompt ==> (final(self).scheduler.running@.len() == 0
                || final(self).scheduler.block_engine.gpu_pool.num_free_spec()
                    >= crate::scheduler::growth_in_groups(
                        final(self).scheduler.running@,
                        final(self).scheduler.block_engine.block_size as int,
                        final(self).scheduler.block_engine.gpu_pool)),
            old(self).scheduler.swapped@.len() == 0
                && old(self).scheduler.head_admissible()
                ==> step.is_prompt || final(self).scheduler.finished@.len()
                    > old(self).scheduler.finished@.len(),
    {
        let mut step = self.scheduler.schedule();
        let mut copies: Vec<CopyOp> = Vec::new();
        core::mem::swap(&mut copies, &mut self.pending_copies);
        step.blocks_to_copy = copies;
        step
    }

    /// Apply the sampler's outcomes to the running batch, walking the
    /// groups in schedule order and their live sequences in order, one
    /// outcome each. Tokens are appended (possibly allocating or
    /// copying blocks; the copies join the next step's copy list);
    /// finish outcomes, stop tokens, the generation cap and the model
    /// length cap finalize sequences and release their blocks exactly
    /// once. Groups whose sequences are all finished leave the running
    /// queue. Returns one event per outcome consumed.
    pub fn process_outputs(&mut self, outcomes: &Vec<TokenOrFinish>) -> (events: Vec<
        Event,
    >)
        requires
            old(self).wf(),
        ensures
            final(self).wf(),
            final(self).scheduler.config == old(self).scheduler.config,
            final(self).scheduler.waiting == old(self).scheduler.waiting,
            final(self).scheduler.swapped == old(self).scheduler.swapped,
            events@.len() == (if crate::counting::total_unfinished(
                    old(self).scheduler.running@) <= outcomes@.len() {
                crate::counting::total_unfinished(old(self).scheduler.running@)
            } else {
                outcomes@.len() as int
            }),
            forall|i: int| 0 <= i < final(self).scheduler.running@.len()
                ==> !(#[trigger] final(self).scheduler.running@[i]).is_finished_spec(),
    {
        let ghost r0 = self.scheduler.running@;
        let mut events: Vec<Event> = Vec::new();
        let mut oi: usize = 0;
        let mut i: usize = 0;
        let ghost mut done: int = 0;
        let max_model_len = self.scheduler.config.max_model_len;
        while i < self.scheduler.running.len()
            invariant
                old(self).wf(),
                self.wf(),
                i <= self.scheduler.running@.len(),
                oi <= outcomes@.len(),
                0 <= done <= r0.len(),
                r0 == old(self).scheduler.running@,
                i <= done,
                self.scheduler.running@.len() - i == r0.len() - done,
                forall|k: int| i <= k < self.scheduler.running@.len()
                    ==> #[trigger] self.scheduler.running@[k] == r0[k - i + done],
                forall|k: int| 0 <= k < i
                    ==> !(#[trigger] self.scheduler.running@[k]).is_finished_spec(),
                oi as int == (if crate::counting::total_unfinished(r0.subrange(0, done))
                        <= outcomes@.len() {
                    crate::counting::total_unfinished(r0.subrange(0, done))
                } else {
                    outcomes@.len() as int
                }),
                events@.len() == oi,
                max_model_len == self.scheduler.config.max_model_len,
                self.scheduler.config == old(self).scheduler.config,
                self.scheduler.waiting == old(self).scheduler.waiting,
                self.scheduler.swapped == old(self).scheduler.swapped,
            decreases self.scheduler.running@.len() - i,
        {
            proof {
                assert(self.scheduler.running@[i as int] == r0[done]);
                assert(r0.subrange(0, done + 1).drop_last() =~= r0.subrange(0, done));
                assert(r0.subrange(0, done + 1).last() == r0[done]);
                crate::counting::lemma_total_unfinished_nonneg(r0.subrange(0, done));
                crate::counting::lemma_count_unfinished_bounds(r0[done].seqs@);
            }
            let ghost pre = self.scheduler;
            let grp = self.scheduler.running.remove(i);
            proof {
                assert(group_running_wf(grp,
                    self.scheduler.block_engine.block_size as int,
                    self.scheduler.block_engine.gpu_pool.capacity()));
                assert forall|ii: int| 0 <= ii < self.scheduler.running@.len()
                    implies group_running_wf(#[trigger] self.scheduler.running@[ii],
                        self.scheduler.block_engine.block_size as int,
                        self.scheduler.block_engine.gpu_pool.capacity())
                by {
                    if ii < i {
                        assert(self.scheduler.running@[ii] == pre.running@[ii]);
                    } else {
                        assert(self.scheduler.running@[ii] == pre.running@[ii + 1]);
                    }
                }
                assert forall|b: int|
                    0 <= b < self.scheduler.block_engine.gpu_pool.capacity()
                    implies #[trigger] self.scheduler.block_engine.gpu_pool.rc(b)
                        == count_in_groups(self.scheduler.running@, b)
                            + count_in_seqs(grp.seqs@, b)
                by {
                    lemma_count_in_groups_remove(pre.running@, i as int, b);
                    assert(self.scheduler.block_engine.gpu_pool.rc(b)
                        == count_in_groups(pre.running@, b));
                }
                assert forall|b: int|
                    0 <= b < self.scheduler.block_engine.gpu_pool.capacity()
                    implies #[trigger] self.scheduler.block_engine.gpu_pool.rc(b)
                        >= count_in_seqs(grp.seqs@, b)
                by {
                    crate::counting::lemma_count_in_groups_nonneg(
                        self.scheduler.running@, b);
                }
            }
            let ghost pre_be = self.scheduler.block_engine;
            let ghost pre_running = self.scheduler.running@;
            let ghost pre_events = events@;
            let (g2, oi2) = process_group(&mut self.scheduler.block_engine, grp,
                outcomes, oi, &mut events, &mut self.pending_copies, max_model_len);
            proof {
                done = done + 1;
            }
            oi = oi2;
            if g2.is_finished() {
                // every sibling got its final event above; the group's
                // blocks are already released, so it simply leaves
                proof {
                    assert forall|b: int|
                        0 <= b < self.scheduler.block_engine.gpu_pool.capacity()
                        implies #[trigger] self.scheduler.block_engine.gpu_pool.rc(b)
                            == count_in_groups(self.scheduler.running@, b)
                    by {
                        assert(group_running_wf(g2,
                            self.scheduler.block_engine.block_size as int,
                            self.scheduler.block_engine.gpu_pool.capacity()));
                        assert forall|jj: int| 0 <= jj < g2.seqs@.len()
                            implies (#[trigger] g2.seqs@[jj]).block_table@.len() == 0
                        by {
                            assert(seq_running_shape(g2.seqs@[jj],
                                g2.sampling_params.max_tokens as int,
                                self.scheduler.block_engine.block_size as int,
                                self.scheduler.block_engine.gpu_pool.capacity()));
                        }
                        lemma_count_in_seqs_all_empty(g2.seqs@, b);
                        assert(pre_be.gpu_pool.rc(b)
                            == count_in_groups(pre_running, b)
                                + count_in_seqs(grp.seqs@, b));
                    }
                    assert forall|k: int| i <= k < self.scheduler.running@.len()
                        implies #[trigger] self.scheduler.running@[k]
                            == r0[k - i + done]
                    by {
                        assert(self.scheduler.running@[k] == pre.running@[k + 1]);
                    }
                }
            } else {
                let ghost pre_running2 = self.scheduler.running@;
                self.scheduler.running.insert(i, g2);
                proof {
                    assert forall|b: int|
                        0 <= b < self.scheduler.block_engine.gpu_pool.capacity()
                        implies #[trigger] self.scheduler.block_engine.gpu_pool.rc(b)
                            == count_in_groups(self.scheduler.running@, b)
                    by {
                        lemma_count_in_groups_insert(pre_running2, i as int, g2, b);
                        assert(pre_be.gpu_pool.rc(b)
                            == count_in_groups(pre_running2, b)
                                + count_in_seqs(grp.seqs@, b));
                    }
                    assert forall|ii: int| 0 <= ii < self.scheduler.running@.len()
                        implies group_running_wf(
                            #[trigger] self.scheduler.running@[ii],
                            self.scheduler.block_engine.block_size as int,
                            self.scheduler.block_engine.gpu_pool.capacity())
                    by {
                        if ii < i {
                            assert(self.scheduler.running@[ii] == pre_running2[ii]);
                        } else if ii > i {
                            assert(self.scheduler.running@[ii]
                                == pre_running2[ii - 1]);
                        }
                    }
                    assert forall|k: int| i + 1 <= k < self.scheduler.running@.len()
                        implies #[trigger] self.scheduler.running@[k]
                            == r0[k - (i + 1) + done]
                    by {
                        assert(self.scheduler.running@[k] == pre_running2[k - 1]);
                        assert(pre_running2[k - 1] == pre.running@[k]);
                    }
                    assert forall|k: int| 0 <= k < i + 1
                        implies !(#[trigger] self.scheduler.running@[k])
                            .is_finished_spec()
                    by {
                        if k < i {
                            assert(self.scheduler.running@[k] == pre_running2[k]);
                            assert(pre_running2[k] == pre.running@[k]);
                        }
                    }
                }
                i = i + 1;
            }
        }
        proof {
            assert(r0.subrange(0, done) =~= r0);
        }
        events
    }

    /// When the forward pass or the sampler fails, the step cannot be
    /// applied: every sequence of the running batch is finalized as
    /// aborted and its blocks are released, with one abort event per
    /// live sequence under its own request and sequence id. The waiting
    /// and swapped queues are untouched, so the engine keeps serving
    /// them.
    pub fn fail_step(&mut self) -> (events: Vec<Event>)
        requires
            old(self).wf(),
        ensures
            final(self).wf(),
            final(self).scheduler.config == old(self).scheduler.config,
            final(self).scheduler.running@.len() == 0,
            final(self).scheduler.waiting == old(self).scheduler.waiting,
            final(self).scheduler.swapped == old(self).scheduler.swapped,
            events@.len() == crate::counting::total_unfinished(
                old(self).scheduler.running@),
            forall|k: int| 0 <= k < events@.len() ==> {
                &&& (#[trigger] events@[k]).finish_reason == Some(FinishReason::Aborted)
                &&& events@[k].token_id is None
            },
            forall|i: int, j: int|
                #![trigger old(self).scheduler.running@[i].seqs@[j]]
                0 <= i < old(self).scheduler.running@.len()
                && 0 <= j < old(self).scheduler.running@[i].seqs@.len()
                && !old(self).scheduler.running@[i].seqs@[j].status.is_finished_spec()
                ==> step_event_for(events@,
                    old(self).scheduler.running@[i].request_id@,
                    old(self).scheduler.running@[i].seqs@[j].id,
                    None::<u32>, Some(FinishReason::Aborted)),
    {
        let ghost r0 = self.scheduler.running@;
        let mut events: Vec<Event> = Vec::new();
        proof {
            assert(r0.subrange(0, r0.len() as int) =~= r0);
        }
        while self.scheduler.running.len() > 0
            invariant
                old(self).wf(),
                self.wf(),
                self.scheduler.config == old(self).scheduler.config,
                self.scheduler.waiting == old(self).scheduler.waiting,
                self.scheduler.swapped == old(self).scheduler.swapped,
                r0 == old(self).scheduler.running@,
                self.scheduler.running@.len() <= r0.len(),
                self.scheduler.running@
                    == r0.subrange(0, self.scheduler.running@.len() as int),
                events@.len() == crate::counting::total_unfinished(r0)
                    - crate::counting::total_unfinished(r0.subrange(0,
                        self.scheduler.running@.len() as int)),
                forall|k: int| 0 <= k < events@.len() ==> {
                    &&& (#[trigger] events@[k]).finish_reason
                        == Some(FinishReason::Aborted)
                    &&& events@[k].token_id is None
                },
                forall|i: int, j: int| #![trigger r0[i].seqs@[j]]
                    self.scheduler.running@.len() <= i < r0.len()
                    && 0 <= j < r0[i].seqs@.len()
                    && !r0[i].seqs@[j].status.is_finished_spec()
                    ==> step_event_for(events@, r0[i].request_id@,
                        r0[i].seqs@[j].id, None::<u32>,
                        Some(FinishReason::Aborted)),
            decreases self.scheduler.running@.len(),
        {
            let ghost pre = self.scheduler;
            let ghost plen = self.scheduler.running@.len() as int;
            let victim = self.scheduler.running.pop().unwrap();
            proof {
                assert(r0.subrange(0, plen).drop_last() =~= r0.subrange(0, plen - 1));
                assert(r0.subrange(0, plen).last() == r0[plen - 1]);
                assert(self.scheduler.running@ =~= r0.subrange(0, plen - 1));
                crate::counting::lemma_count_unfinished_bounds(victim.seqs@);
            }
            proof {
                assert(victim == pre.running@.last());
                assert(self.scheduler.running@ =~= pre.running@.drop_last());
                assert(group_running_wf(victim,
                    self.scheduler.block_engine.block_size as int,
                    self.scheduler.block_engine.gpu_pool.capacity()));
                assert forall|b: int|
                    0 <= b < self.scheduler.block_engine.gpu_pool.capacity()
                    implies #[trigger] self.scheduler.block_engine.gpu_pool.rc(b)
                        == count_in_groups(self.scheduler.running@, b)
                            + count_in_seqs(victim.seqs@, b)
                by {
                    assert(self.scheduler.block_engine.gpu_pool.rc(b)
                        == count_in_groups(pre.running@, b));
                }
                assert forall|b: int|
                    0 <= b < self.scheduler.block_engine.gpu_pool.capacity()
                    implies #[trigger] self.scheduler.block_engine.gpu_pool.rc(b)
                        >= count_in_seqs(victim.seqs@, b)
                by {
                    crate::counting::lemma_count_in_groups_nonneg(
                        self.scheduler.running@, b);
                }
            }
            // the sequences that were still live get their final event
            let ghost base = events@.len();
            let mut j: usize = 0;
            while j < victim.seqs.len()
                invariant
                    j <= victim.seqs@.len(),
                    1 <= plen <= r0.len(),
                    victim == r0[plen - 1],
                    events@.len() == base
                        + count_unfinished(victim.seqs@.subrange(0, j as int)),
                    forall|k: int| 0 <= k < events@.len() ==> {
                        &&& (#[trigger] events@[k]).finish_reason
                            == Some(FinishReason::Aborted)
                        &&& events@[k].token_id is None
                    },
                    forall|i: int, jj: int| #![trigger r0[i].seqs@[jj]]
                        plen <= i < r0.len() && 0 <= jj < r0[i].seqs@.len()
                        && !r0[i].seqs@[jj].status.is_finished_spec()
                        ==> step_event_for(events@, r0[i].request_id@,
                            r0[i].seqs@[jj].id, None::<u32>,
                            Some(FinishReason::Aborted)),
                    forall|jj: int| #![trigger victim.seqs@[jj]]
                        0 <= jj < j
                        && !victim.seqs@[jj].status.is_finished_spec()
                        ==> step_event_for(events@, victim.request_id@,
                            victim.seqs@[jj].id, None::<u32>,
                            Some(FinishReason::Aborted)),
                decreases victim.seqs@.len() - j,
            {
                proof {
                    assert(victim.seqs@.subrange(0, j + 1).drop_last()
                        =~= victim.seqs@.subrange(0, j as int));
                    assert(victim.seqs@.subrange(0, j + 1).last()
                        == victim.seqs@[j as int]);
                }
                if !victim.seqs[j].status.is_finished() {
                    let ghost pre_ev = events@;
                    let ev = Event {
                        request_id: victim.request_id.clone(),
                        seq_id: victim.seqs[j].id,
                        token_id: None,
                        finish_reason: Some(FinishReason::Aborted),
                    };
                    let ghost gev = ev;
                    events.push(ev);
                    proof {
                        assert(events@[pre_ev.len() as int] == gev);
                        assert(step_event_for(events@, victim.request_id@,
                            victim.seqs@[j as int].id, None::<u32>,
                            Some(FinishReason::Aborted)));
                        assert forall|i: int, jj: int| #![trigger r0[i].seqs@[jj]]
                            plen <= i < r0.len() && 0 <= jj < r0[i].seqs@.len()
                            && !r0[i].seqs@[jj].status.is_finished_spec()
                            implies step_event_for(events@, r0[i].request_id@,
                                r0[i].seqs@[jj].id, None::<u32>,
                                Some(FinishReason::Aborted))
                        by {
                            lemma_step_event_for_push(pre_ev, gev,
                                r0[i].request_id@, r0[i].seqs@[jj].id,
                                None::<u32>, Some(FinishReason::Aborted));
                        }
                        assert forall|jj: int| #![trigger victim.seqs@[jj]]
                            0 <= jj < j
                            && !victim.seqs@[jj].status.is_finished_spec()
                            implies step_event_for(events@, victim.request_id@,
                                victim.seqs@[jj].id, None::<u32>,
                                Some(FinishReason::Aborted))
                        by {
                            lemma_step_event_for_push(pre_ev, gev,
                                victim.request_id@, victim.seqs@[jj].id,
                                None::<u32>, Some(FinishReason::Aborted));
                        }
                    }
                }
                j = j + 1;
            }
            proof {
                assert(victim.seqs@.subrange(0, victim.seqs@.len() as int)
                    =~= victim.seqs@);
                assert forall|i: int, jj: int| #![trigger r0[i].seqs@[jj]]
                    plen - 1 <= i < r0.len() && 0 <= jj < r0[i].seqs@.len()
                    && !r0[i].seqs@[jj].status.is_finished_spec()
                    implies step_event_for(events@, r0[i].request_id@,
                        r0[i].seqs@[jj].id, None::<u32>,
                        Some(FinishReason::Aborted))
                by {
                    if i == plen - 1 {
                        assert(r0[i] == victim);
                        assert(victim.seqs@[jj] == r0[i].seqs@[jj]);
                    }
                }
            }
            let ghost pre_be = self.scheduler.block_engine;
            // the finalized group is dropped: its events were emitted
            // above and it holds no blocks any more
            let _finalized = crate::scheduler::finalize_group(
                &mut self.scheduler.block_engine, victim,
                crate::block_pool::Device::Gpu, SequenceStatus::FinishedAborted);
            proof {
                assert forall|b: int|
                    0 <= b < self.scheduler.block_engine.gpu_pool.capacity()
                    implies #[trigger] self.scheduler.block_engine.gpu_pool.rc(b)
                        == count_in_groups(self.scheduler.running@, b)
                by {
                    assert(pre_be.gpu_pool.rc(b)
                        == count_in_groups(self.scheduler.running@, b)
                            + count_in_seqs(victim.seqs@, b));
                }
            }
        }
        events
    }

    /// Hand out and clear the groups the scheduler finalized itself
    /// (ignored or failed requests), as one final event per sequence.
    pub fn drain_finished_events(&mut self) -> (events: Vec<Event>)
        requires
            old(self).wf(),
        ensures
            final(self).wf(),
            final(self).scheduler.config == old(self).scheduler.config,
            final(self).scheduler.finished@.len() == 0,
            final(self).scheduler.waiting == old(self).scheduler.waiting,
            final(self).scheduler.running == old(self).scheduler.running,
            final(self).scheduler.swapped == old(self).scheduler.swapped,
            events@.len() == crate::counting::total_seqs(old(self).scheduler.finished@),
            forall|i: int, j: int|
                #![trigger old(self).scheduler.finished@[i].seqs@[j]]
                0 <= i < old(self).scheduler.finished@.len()
                && 0 <= j < old(self).scheduler.finished@[i].seqs@.len()
                ==> event_for(events@, old(self).scheduler.finished@[i], j),
    {
        let ghost f0 = self.scheduler.finished@;
        let f0_len = self.scheduler.finished.len();
        let mut events: Vec<Event> = Vec::new();
        let mut i_done: usize = 0;
        while self.scheduler.finished.len() > 0
            invariant
                old(self).wf(),
                self.wf(),
                f0.len() == f0_len,
                self.scheduler.config == old(self).scheduler.config,
                self.scheduler.waiting == old(self).scheduler.waiting,
                self.scheduler.running == old(self).scheduler.running,
                self.scheduler.swapped == old(self).scheduler.swapped,
                self.scheduler.block_engine == old(self).scheduler.block_engine,
                f0 == old(self).scheduler.finished@,
                i_done <= f0.len(),
                self.scheduler.finished@
                    == f0.subrange(i_done as int, f0.len() as int),
                events@.len() == crate::counting::total_seqs(
                    f0.subrange(0, i_done as int)),
                forall|i: int, j: int| #![trigger f0[i].seqs@[j]]
                    0 <= i < i_done && 0 <= j < f0[i].seqs@.len()
                    ==> event_for(events@, f0[i], j),
            decreases self.scheduler.finished@.len(),
        {
            let ghost pre_fin = self.scheduler.finished@;
            let g = self.scheduler.finished.remove(0);
            proof {
                assert(g == f0[i_done as int]);
                assert(self.scheduler.finished@
                    =~= f0.subrange(i_done + 1, f0.len() as int));
                assert(f0.subrange(0, i_done + 1).drop_last()
                    =~= f0.subrange(0, i_done as int));
                assert(f0.subrange(0, i_done + 1).last() == f0[i_done as int]);
            }
            let ghost base = events@.len() as int;
            let mut j: usize = 0;
            while j < g.seqs.len()
                invariant
                    j <= g.seqs@.len(),
                    events@.len() == base + j,
                    base == crate::counting::total_seqs(f0.subrange(0, i_done as int)),
                    i_done < f0.len(),
                    g == f0[i_done as int],
                    f0 == old(self).scheduler.finished@,
                    forall|jj: int| #![trigger g.seqs@[jj]] 0 <= jj < j
                        ==> event_for(events@, g, jj),
                    forall|i: int, jj: int| #![trigger f0[i].seqs@[jj]]
                        0 <= i < i_done && 0 <= jj < f0[i].seqs@.len()
                        ==> event_for(events@, f0[i], jj),
                decreases g.seqs@.len() - j,
            {
                let ghost pre_ev = events@;
                let reason = g.seqs[j].status.finish_reason();
                let ev = Event {
                    request_id: g.request_id.clone(),
                    seq_id: g.seqs[j].id,
                    token_id: None,
                    finish_reason: reason,
                };
                let ghost gev = ev;
                events.push(ev);
                proof {
                    assert(events@ == pre_ev.push(gev));
                    assert(events@[pre_ev.len() as int] == gev);
                    assert(event_for(events@, g, j as int));
                    assert forall|jj: int| #![trigger g.seqs@[jj]] 0 <= jj < j + 1
                        implies event_for(events@, g, jj)
                    by {
                        if jj < j {
                            lemma_event_for_push(pre_ev, gev, g, jj);
                        }
                    }
                    assert forall|i: int, jj: int| #![trigger f0[i].seqs@[jj]]
                        0 <= i < i_done && 0 <= jj < f0[i].seqs@.len()
                        implies event_for(events@, f0[i], jj)
                    by {
                        lemma_event_for_push(pre_ev, gev, f0[i], jj);
                    }
                }
                j = j + 1;
            }
            proof {
                assert(f0.subrange(0, i_done + 1).drop_last()
                    =~= f0.subrange(0, i_done as int));
                assert(f0.subrange(0, i_done + 1).last() == f0[i_done as int]);
                assert(events@.len()
                    == crate::counting::total_seqs(f0.subrange(0, i_done + 1)));
            }
            i_done = i_done + 1;
        }
        proof {
            assert(f0.subrange(0, i_done as int) =~= f0);
        }
        events
    }

    /// Abort a request: its group is finalized and removed wherever it
    /// sits; aborting an unknown or already finished request is a
    /// no-op. Returns the final events to publish.
    pub fn abort_request(&mut self, request_id: &String) -> (events: Vec<Event>)
        requires
            old(self).wf(),
        ensures
            final(self).wf(),
            final(self).scheduler.config == old(self).scheduler.config,
            !({
                ||| Scheduler::queue_holds_request(old(self).scheduler.waiting@,
                    request_id@)
                ||| Scheduler::queue_holds_request(old(self).scheduler.running@,
                    request_id@)
                ||| Scheduler::queue_holds_request(old(self).scheduler.swapped@,
                    request_id@)
            }) ==> *final(self) == *old(self) && events@.len() == 0,
            ({
                ||| Scheduler::queue_holds_request(old(self).scheduler.waiting@,
                    request_id@)
                ||| Scheduler::queue_holds_request(old(self).scheduler.running@,
                    request_id@)
                ||| Scheduler::queue_holds_request(old(self).scheduler.swapped@,
                    request_id@)
            }) ==> {
                &&& final(self).scheduler.finished@.len() == 0
                &&& events@.len() > crate::counting::total_seqs(
                    old(self).scheduler.finished@)
                &&& exists|k: int| 0 <= k < events@.len()
                        && (#[trigger] events@[k]).request_id@ == request_id@
                        && events@[k].finish_reason is Some
                        && events@[k].token_id is None
            },
    {
        let found = self.scheduler.abort(request_id);
        if found {
            let ghost fin = self.scheduler.finished@;
            let ghost last_idx = fin.len() - 1;
            proof {
                assert(fin.drop_last() =~= old(self).scheduler.finished@);
                assert(crate::counting::total_seqs(fin)
                    == crate::counting::total_seqs(old(self).scheduler.finished@)
                        + fin.last().seqs@.len());
            }
            let events = self.drain_finished_events();
            proof {
                assert(fin[last_idx].seqs@[0] == fin.last().seqs@[0]);
                assert(event_for(events@, fin[last_idx], 0));
                let k = choose|k: int| 0 <= k < events@.len()
                    && (#[trigger] events@[k]).request_id@ == fin[last_idx].request_id@
                    && events@[k].seq_id == fin[last_idx].seqs@[0].id
                    && events@[k].token_id is None
                    && events@[k].finish_reason
                        == fin[last_idx].seqs@[0].status.finish_reason_spec();
                assert(fin[last_idx].seqs@[0].status.is_finished_spec());
                assert(events@[k].finish_reason is Some);
            }
            events
        } else {
            Vec::new()
        }
    }
}

} // verus!
