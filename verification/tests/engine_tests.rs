//! End-to-end scenarios of the scheduler and the engine step cycle,
//! block size four throughout.

use candle_vllm::engine::{Event, LlmEngine, TokenOrFinish};
use candle_vllm::scheduler::SchedulerConfig;
use candle_vllm::sequence::{FinishReason, SamplingParams, SequenceStatus};

fn config(max_model_len: usize) -> SchedulerConfig {
    SchedulerConfig {
        max_num_seqs: 256,
        max_num_batched_tokens: 4096,
        max_model_len,
        watermark: 1,
    }
}

fn engine(num_gpu_blocks: usize, num_cpu_blocks: usize, max_model_len: usize) -> LlmEngine {
    LlmEngine::new(config(max_model_len), 4, num_gpu_blocks, num_cpu_blocks)
}

fn gpu_free(eng: &LlmEngine) -> usize {
    eng.scheduler.block_engine.gpu_pool.num_free()
}

fn decode_once(eng: &mut LlmEngine, outcomes: Vec<TokenOrFinish>) -> Vec<Event> {
    let step = eng.schedule_step();
    assert!(!step.is_prompt);
    eng.process_outputs(&outcomes)
}

#[test]
fn single_short_prompt_runs_to_length_cap() {
    // one request with ten prompt tokens and a cap of three
    let mut eng = engine(8, 8, 100);
    let prompt: Vec<u32> = vec![1, 2, 3, 4, 5, 6, 7, 8, 9, 10];
    eng.add_request("r1".to_string(), prompt, SamplingParams::new(1, 3, vec![]), 0)
        .unwrap();
    let step = eng.schedule_step();
    assert!(step.is_prompt);
    assert_eq!(step.scheduled, vec!["r1".to_string()]);
    assert!(step.blocks_to_copy.is_empty());
    assert!(step.blocks_to_swap_in.is_empty());
    assert!(step.blocks_to_swap_out.is_empty());
    // the prompt fills three blocks: slots 4, 4 and 2
    assert_eq!(gpu_free(&eng), 5);

    let ev1 = decode_once(&mut eng, vec![TokenOrFinish::Token(100)]);
    assert_eq!(ev1.len(), 1);
    assert_eq!(ev1[0].token_id, Some(100));
    assert_eq!(ev1[0].finish_reason, None);

    let ev2 = decode_once(&mut eng, vec![TokenOrFinish::Token(101)]);
    assert_eq!(ev2[0].finish_reason, None);

    // the third output token hits the cap
    let ev3 = decode_once(&mut eng, vec![TokenOrFinish::Token(102)]);
    assert_eq!(ev3.len(), 1);
    assert_eq!(ev3[0].token_id, Some(102));
    assert_eq!(ev3[0].finish_reason, Some(FinishReason::Length));
    assert_eq!(ev3[0].request_id, "r1".to_string());

    // every block returned to the pool, nothing left in the queues
    assert_eq!(gpu_free(&eng), 8);
    assert_eq!(eng.scheduler.running.len(), 0);
    assert_eq!(eng.scheduler.waiting.len(), 0);
}

#[test]
fn beam_expansion_copies_on_write() {
    // prompt [1..5] with two siblings: both share blocks B0 and B1
    let mut eng = engine(8, 8, 100);
    eng.add_request(
        "r1".to_string(),
        vec![1, 2, 3, 4, 5],
        SamplingParams::new(2, 10, vec![]),
        0,
    )
    .unwrap();
    let step = eng.schedule_step();
    assert!(step.is_prompt);
    let table0 = eng.scheduler.running[0].seqs[0].block_table.clone();
    let table1 = eng.scheduler.running[0].seqs[1].block_table.clone();
    assert_eq!(table0, table1);
    assert_eq!(table0.len(), 2);
    let b0 = table0[0];
    let b1 = table0[1];
    let rc = |eng: &LlmEngine, b: usize| eng.scheduler.block_engine.gpu_pool.ref_count(b);
    assert_eq!(rc(&eng, b0), 2);
    assert_eq!(rc(&eng, b1), 2);
    assert_eq!(eng.scheduler.block_engine.gpu_pool.num_allocated(), 2);

    // first decode: both siblings write into the shared tail block, so
    // exactly one fresh copy-on-write block is taken
    let evs = decode_once(
        &mut eng,
        vec![TokenOrFinish::Token(7), TokenOrFinish::Token(8)],
    );
    assert_eq!(evs.len(), 2);
    let next = eng.schedule_step();
    assert_eq!(next.blocks_to_copy.len(), 1);
    assert_eq!(next.blocks_to_copy[0].src, b1);
    let b2 = next.blocks_to_copy[0].dst;
    assert_ne!(b2, b1);
    assert_eq!(rc(&eng, b0), 2);
    assert_eq!(rc(&eng, b1), 1);
    assert_eq!(rc(&eng, b2), 1);
    assert_eq!(eng.scheduler.block_engine.gpu_pool.num_allocated(), 3);
    // each sibling's tail is now uniquely owned
    let t0 = eng.scheduler.running[0].seqs[0].block_table.clone();
    let t1 = eng.scheduler.running[0].seqs[1].block_table.clone();
    assert_eq!(rc(&eng, *t0.last().unwrap()), 1);
    assert_eq!(rc(&eng, *t1.last().unwrap()), 1);
}

#[test]
fn preemption_by_recompute_returns_group_to_waiting() {
    // two short-prompt groups; memory runs out at a block boundary and
    // the younger group is recomputed
    let mut eng = engine(6, 8, 100);
    eng.add_request("g1".to_string(), vec![1; 8], SamplingParams::new(1, 64, vec![]), 0)
        .unwrap();
    eng.add_request("g2".to_string(), vec![2; 8], SamplingParams::new(1, 64, vec![]), 1)
        .unwrap();
    let step = eng.schedule_step();
    assert!(step.is_prompt);
    assert_eq!(step.scheduled.len(), 2);
    assert_eq!(gpu_free(&eng), 2);

    // both sequences grow from 8 to 12 tokens; crossing 8 takes a block
    // each (free drops to zero), the next boundary at 12 cannot be met
    for t in 0..4u32 {
        let evs = decode_once(
            &mut eng,
            vec![TokenOrFinish::Token(t), TokenOrFinish::Token(t)],
        );
        assert_eq!(evs.len(), 2);
    }
    assert_eq!(gpu_free(&eng), 0);
    // the schedule preempts the latest-admitted group: one lone short
    // prompt, so it is recomputed, not swapped
    let step = eng.schedule_step();
    assert!(!step.is_prompt);
    assert!(step.blocks_to_swap_out.is_empty());
    assert_eq!(eng.scheduler.running.len(), 1);
    assert_eq!(eng.scheduler.running[0].request_id, "g1".to_string());
    assert_eq!(eng.scheduler.waiting.len(), 1);
    assert_eq!(eng.scheduler.waiting[0].request_id, "g2".to_string());
    assert_eq!(eng.scheduler.waiting[0].seqs[0].status, SequenceStatus::Waiting);
    assert!(eng.scheduler.waiting[0].seqs[0].block_table.is_empty());
    // its twelve tokens survive for the re-prefill
    assert_eq!(eng.scheduler.waiting[0].seqs[0].num_tokens(), 12);
    assert_eq!(gpu_free(&eng), 3);

    // g1 continues without a gap and finishes; g2 is then re-admitted
    // as a prompt under the same request id
    let evs = eng.process_outputs(&vec![TokenOrFinish::Token(9)]);
    assert_eq!(evs.len(), 1);
    assert_eq!(evs[0].request_id, "g1".to_string());
    let evs = decode_once(&mut eng, vec![TokenOrFinish::Finish(FinishReason::Stop)]);
    assert_eq!(evs[0].finish_reason, Some(FinishReason::Stop));
    assert_eq!(eng.scheduler.running.len(), 0);
    let step = eng.schedule_step();
    assert!(step.is_prompt);
    assert_eq!(step.scheduled, vec!["g2".to_string()]);
}

#[test]
fn preemption_by_swap_and_resumption() {
    // a long-prompt group is swapped out whole at a memory squeeze and
    // swapped back in once memory frees up, history intact
    let mut eng = engine(8, 8, 100);
    eng.add_request("g1".to_string(), vec![1, 2, 3, 4], SamplingParams::new(2, 64, vec![]), 0)
        .unwrap();
    eng.add_request("g2".to_string(), vec![9; 9], SamplingParams::new(1, 64, vec![]), 1)
        .unwrap();
    let step = eng.schedule_step();
    assert!(step.is_prompt);
    assert_eq!(step.scheduled.len(), 2);
    // g1: one shared block; g2: three blocks
    assert_eq!(gpu_free(&eng), 4);

    // grow everything until the pool squeezes at the next boundaries
    for t in 0..4u32 {
        decode_once(
            &mut eng,
            vec![
                TokenOrFinish::Token(t),
                TokenOrFinish::Token(t),
                TokenOrFinish::Token(t),
            ],
        );
    }
    // g1 siblings: 8 tokens each (2 blocks each, prefix shared block
    // was copied); g2: 13 tokens (4 blocks)
    let g2_tokens_before: Vec<u32> = {
        let g2 = &eng.scheduler.running[1];
        let mut v = g2.seqs[0].prompt_token_ids.clone();
        v.extend(g2.seqs[0].output_token_ids.iter().copied());
        v
    };

    // the next schedule cannot give every sequence its boundary block:
    // the youngest group g2 has a long prompt, so it is swapped out
    let step = eng.schedule_step();
    assert!(!step.is_prompt);
    assert_eq!(step.blocks_to_swap_out.len(), 4);
    assert_eq!(eng.scheduler.swapped.len(), 1);
    assert_eq!(eng.scheduler.swapped[0].request_id, "g2".to_string());
    assert_eq!(
        eng.scheduler.swapped[0].seqs[0].status,
        SequenceStatus::Swapped
    );

    // finish g1 so its blocks return
    eng.process_outputs(&vec![
        TokenOrFinish::Finish(FinishReason::Stop),
        TokenOrFinish::Finish(FinishReason::Stop),
    ]);
    assert_eq!(eng.scheduler.running.len(), 0);

    // the next schedule swaps g2 back in: same number of blocks, the
    // whole token history unchanged
    let step = eng.schedule_step();
    assert!(!step.is_prompt);
    assert_eq!(step.blocks_to_swap_in.len(), 4);
    assert_eq!(eng.scheduler.running.len(), 1);
    let g2 = &eng.scheduler.running[0];
    assert_eq!(g2.request_id, "g2".to_string());
    assert_eq!(g2.seqs[0].status, SequenceStatus::Running);
    assert_eq!(g2.seqs[0].block_table.len(), 4);
    let mut after = g2.seqs[0].prompt_token_ids.clone();
    after.extend(g2.seqs[0].output_token_ids.iter().copied());
    assert_eq!(after, g2_tokens_before);
    // and generation continues
    let evs = decode_once(&mut eng, vec![TokenOrFinish::Token(77)]);
    assert_eq!(evs.len(), 1);
    assert_eq!(evs[0].token_id, Some(77));
}

#[test]
fn abort_frees_blocks_and_is_idempotent() {
    let mut eng = engine(8, 8, 100);
    eng.add_request("r1".to_string(), vec![1; 6], SamplingParams::new(1, 64, vec![]), 0)
        .unwrap();
    let step = eng.schedule_step();
    assert!(step.is_prompt);
    assert_eq!(gpu_free(&eng), 6);

    // the abort lands at the next step boundary: the group leaves the
    // running queue with exactly one final event and no token
    let evs = eng.abort_request(&"r1".to_string());
    assert_eq!(evs.len(), 1);
    assert_eq!(evs[0].token_id, None);
    assert_eq!(evs[0].finish_reason, Some(FinishReason::Aborted));
    assert_eq!(gpu_free(&eng), 8);
    assert_eq!(eng.scheduler.running.len(), 0);

    // aborting an already-finished request is a no-op
    let evs2 = eng.abort_request(&"r1".to_string());
    assert!(evs2.is_empty());
    let evs3 = eng.abort_request(&"never-seen".to_string());
    assert!(evs3.is_empty());
}

#[test]
fn over_long_prompt_is_ignored_with_length_event() {
    // model length 32; a prompt twice the total pool capacity in tokens
    let mut eng = engine(8, 8, 32);
    eng.add_request("big".to_string(), vec![5; 64], SamplingParams::new(1, 4, vec![]), 0)
        .unwrap();
    let step = eng.schedule_step();
    assert_eq!(step.ignored, vec!["big".to_string()]);
    assert!(step.scheduled.is_empty());
    let evs = eng.drain_finished_events();
    assert_eq!(evs.len(), 1);
    assert_eq!(evs[0].finish_reason, Some(FinishReason::Length));
    assert_eq!(evs[0].token_id, None);
    // it never ran and never held a block
    assert_eq!(gpu_free(&eng), 8);
    assert_eq!(eng.scheduler.waiting.len(), 0);
}

#[test]
fn stop_token_finishes_sequence() {
    let mut eng = engine(8, 8, 100);
    eng.add_request(
        "r1".to_string(),
        vec![1, 2, 3],
        SamplingParams::new(1, 64, vec![42]),
        0,
    )
    .unwrap();
    let step = eng.schedule_step();
    assert!(step.is_prompt);
    let evs = decode_once(&mut eng, vec![TokenOrFinish::Token(7)]);
    assert_eq!(evs[0].finish_reason, None);
    let evs = decode_once(&mut eng, vec![TokenOrFinish::Token(42)]);
    assert_eq!(evs[0].token_id, Some(42));
    assert_eq!(evs[0].finish_reason, Some(FinishReason::Stop));
    assert_eq!(gpu_free(&eng), 8);
}

#[test]
fn model_length_cap_finishes_sequence() {
    let mut eng = engine(8, 8, 6);
    eng.add_request("r1".to_string(), vec![1; 5], SamplingParams::new(1, 64, vec![]), 0)
        .unwrap();
    let step = eng.schedule_step();
    assert!(step.is_prompt);
    // the sixth token reaches the model length
    let evs = decode_once(&mut eng, vec![TokenOrFinish::Token(9)]);
    assert_eq!(evs[0].token_id, Some(9));
    assert_eq!(evs[0].finish_reason, Some(FinishReason::Length));
}

#[test]
fn sampler_finish_reason_is_forwarded() {
    let mut eng = engine(8, 8, 100);
    eng.add_request("r1".to_string(), vec![1; 5], SamplingParams::new(1, 64, vec![]), 0)
        .unwrap();
    eng.schedule_step();
    let evs = decode_once(&mut eng, vec![TokenOrFinish::Finish(FinishReason::Stop)]);
    assert_eq!(evs.len(), 1);
    assert_eq!(evs[0].token_id, None);
    assert_eq!(evs[0].finish_reason, Some(FinishReason::Stop));
    assert_eq!(gpu_free(&eng), 8);
}

#[test]
fn admission_respects_watermark() {
    // four blocks with a watermark of one: a three-block prompt fits,
    // a second one must wait
    let mut eng = LlmEngine::new(
        SchedulerConfig {
            max_num_seqs: 256,
            max_num_batched_tokens: 4096,
            max_model_len: 100,
            watermark: 1,
        },
        4,
        4,
        4,
    );
    eng.add_request("a".to_string(), vec![1; 9], SamplingParams::new(1, 8, vec![]), 0)
        .unwrap();
    eng.add_request("b".to_string(), vec![2; 9], SamplingParams::new(1, 8, vec![]), 1)
        .unwrap();
    let step = eng.schedule_step();
    assert!(step.is_prompt);
    assert_eq!(step.scheduled, vec!["a".to_string()]);
    assert_eq!(eng.scheduler.waiting.len(), 1);
    // free blocks stay at or above the watermark after the prompt step
    assert!(gpu_free(&eng) >= 1);
}

#[test]
fn batched_token_budget_limits_admission() {
    let mut eng = LlmEngine::new(
        SchedulerConfig {
            max_num_seqs: 256,
            max_num_batched_tokens: 10,
            max_model_len: 100,
            watermark: 1,
        },
        4,
        16,
        4,
    );
    eng.add_request("a".to_string(), vec![1; 6], SamplingParams::new(1, 8, vec![]), 0)
        .unwrap();
    eng.add_request("b".to_string(), vec![2; 6], SamplingParams::new(1, 8, vec![]), 1)
        .unwrap();
    let step = eng.schedule_step();
    assert!(step.is_prompt);
    // six plus six exceeds the ten-token budget: only the first enters
    assert_eq!(step.scheduled, vec!["a".to_string()]);
}

#[test]
fn sequence_id_space_exhaustion_is_reported() {
    let mut eng = engine(8, 8, 100);
    eng.add_request("a".to_string(), vec![1], SamplingParams::new(1, 4, vec![]), 0)
        .unwrap();
    let r = eng.add_request(
        "b".to_string(),
        vec![1],
        SamplingParams::new(usize::MAX, 4, vec![]),
        1,
    );
    assert_eq!(r, Err(candle_vllm::error::EngineError::ResourceExhausted));
}

/// Walk a live engine state and check the conservation laws on concrete
/// values: free plus allocated blocks partition each pool, and the sum
/// of all reference counts equals the total number of block-table
/// entries over the backing queue.
fn check_conservation(eng: &LlmEngine) {
    let gpu = &eng.scheduler.block_engine.gpu_pool;
    assert_eq!(gpu.num_free() + gpu.num_allocated(), gpu.capacity_blocks());
    let cpu = &eng.scheduler.block_engine.cpu_pool;
    assert_eq!(cpu.num_free() + cpu.num_allocated(), cpu.capacity_blocks());

    let mut gpu_rc_sum: usize = 0;
    for b in 0..gpu.capacity_blocks() {
        gpu_rc_sum += gpu.ref_count(b) as usize;
    }
    let mut entries: usize = 0;
    for g in eng.scheduler.running.iter() {
        for s in g.seqs.iter() {
            entries += s.block_table.len();
        }
    }
    assert_eq!(gpu_rc_sum, entries);

    let mut cpu_rc_sum: usize = 0;
    for b in 0..cpu.capacity_blocks() {
        cpu_rc_sum += cpu.ref_count(b) as usize;
    }
    let mut swapped_entries: usize = 0;
    for g in eng.scheduler.swapped.iter() {
        for s in g.seqs.iter() {
            swapped_entries += s.block_table.len();
        }
    }
    assert_eq!(cpu_rc_sum, swapped_entries);
}

#[test]
fn conservation_holds_at_every_step_boundary() {
    let mut eng = engine(8, 8, 100);
    check_conservation(&eng);
    eng.add_request(
        "a".to_string(),
        vec![1, 2, 3, 4, 5],
        SamplingParams::new(2, 8, vec![]),
        0,
    )
    .unwrap();
    eng.add_request("b".to_string(), vec![9; 9], SamplingParams::new(1, 8, vec![]), 1)
        .unwrap();
    let step = eng.schedule_step();
    assert!(step.is_prompt);
    check_conservation(&eng);
    for t in 0..8u32 {
        eng.schedule_step();
        check_conservation(&eng);
        eng.process_outputs(&vec![
            TokenOrFinish::Token(t),
            TokenOrFinish::Token(t),
            TokenOrFinish::Token(t),
        ]);
        check_conservation(&eng);
    }
    eng.abort_request(&"a".to_string());
    check_conservation(&eng);
}

#[test]
fn failed_step_aborts_the_batch_and_keeps_serving() {
    let mut eng = engine(8, 8, 100);
    eng.add_request("r1".to_string(), vec![1; 5], SamplingParams::new(1, 8, vec![]), 0)
        .unwrap();
    eng.add_request("r2".to_string(), vec![2; 5], SamplingParams::new(1, 8, vec![]), 1)
        .unwrap();
    let step = eng.schedule_step();
    assert!(step.is_prompt);
    assert_eq!(step.scheduled.len(), 2);

    // the forward pass fails: every sequence of the step is aborted,
    // each under its own request id
    let evs = eng.fail_step();
    assert_eq!(evs.len(), 2);
    assert!(evs.iter().all(|e| e.finish_reason == Some(FinishReason::Aborted)));
    let mut ids: Vec<String> = evs.iter().map(|e| e.request_id.clone()).collect();
    ids.sort();
    assert_eq!(ids, vec!["r1".to_string(), "r2".to_string()]);
    assert_eq!(eng.scheduler.running.len(), 0);
    assert_eq!(gpu_free(&eng), 8);

    // the engine keeps serving: a later request still runs
    eng.add_request("r3".to_string(), vec![3; 5], SamplingParams::new(1, 8, vec![]), 2)
        .unwrap();
    let step = eng.schedule_step();
    assert!(step.is_prompt);
    assert_eq!(step.scheduled, vec!["r3".to_string()]);
}

#[test]
fn waiting_queue_keeps_arrival_order_with_id_tie_break() {
    let mut eng = engine(16, 8, 100);
    eng.add_request("late".to_string(), vec![1; 4], SamplingParams::new(1, 4, vec![]), 10)
        .unwrap();
    eng.add_request("early".to_string(), vec![2; 4], SamplingParams::new(1, 4, vec![]), 5)
        .unwrap();
    // same arrival as "late": the lower sequence id was created first
    // and stays in front
    eng.add_request("tie".to_string(), vec![3; 4], SamplingParams::new(1, 4, vec![]), 10)
        .unwrap();
    assert_eq!(eng.scheduler.waiting[0].request_id, "early".to_string());
    assert_eq!(eng.scheduler.waiting[1].request_id, "late".to_string());
    assert_eq!(eng.scheduler.waiting[2].request_id, "tie".to_string());
}
