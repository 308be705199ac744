//! Unit tests of the block pool, the block-table operations and the
//! arithmetic helpers.

use candle_vllm::block_engine::{blocks_needed, BlockEngine, CopyOp, SwapOp};
use candle_vllm::cache_ops::{apply_copies, apply_swaps, copy_block, swap_block};
use candle_vllm::block_pool::{BlockPool, Device};
use candle_vllm::error::EngineError;
use candle_vllm::sequence::{SamplingParams, Sequence, SequenceGroup, SequenceStatus};
use candle_vllm::{num_cache_blocks, watermark};

#[test]
fn pool_allocate_release_cycle() {
    let mut p = BlockPool::new(3);
    assert_eq!(p.num_free(), 3);
    assert_eq!(p.num_allocated(), 0);
    assert_eq!(p.capacity_blocks(), 3);
    let a = p.allocate().unwrap();
    let b = p.allocate().unwrap();
    let c = p.allocate().unwrap();
    assert_ne!(a, b);
    assert_ne!(b, c);
    assert_ne!(a, c);
    assert_eq!(p.num_free(), 0);
    assert_eq!(p.num_allocated(), 3);
    assert_eq!(p.allocate(), Err(EngineError::OutOfMemory));
    p.release(b);
    assert_eq!(p.num_free(), 1);
    let b2 = p.allocate().unwrap();
    assert_eq!(b2, b);
    assert_eq!(p.ref_count(b2), 1);
}

#[test]
fn pool_fork_counts_references() {
    let mut p = BlockPool::new(2);
    let a = p.allocate().unwrap();
    p.fork(a).unwrap();
    p.fork(a).unwrap();
    assert_eq!(p.ref_count(a), 3);
    // the block stays allocated until the last reference is gone
    p.release(a);
    p.release(a);
    assert_eq!(p.num_free(), 1);
    assert_eq!(p.ref_count(a), 1);
    p.release(a);
    assert_eq!(p.num_free(), 2);
    assert_eq!(p.ref_count(a), 0);
}

#[test]
fn pool_empty_capacity() {
    let mut p = BlockPool::new(0);
    assert_eq!(p.num_free(), 0);
    assert_eq!(p.allocate(), Err(EngineError::OutOfMemory));
}

#[test]
fn blocks_needed_rounds_up() {
    assert_eq!(blocks_needed(0, 4), 0);
    assert_eq!(blocks_needed(1, 4), 1);
    assert_eq!(blocks_needed(4, 4), 1);
    assert_eq!(blocks_needed(5, 4), 2);
    assert_eq!(blocks_needed(10, 4), 3);
    assert_eq!(blocks_needed(12, 4), 3);
    assert_eq!(blocks_needed(13, 4), 4);
    assert_eq!(blocks_needed(7, 1), 7);
}

#[test]
fn watermark_is_one_percent_at_least_one() {
    assert_eq!(watermark(0), 1);
    assert_eq!(watermark(64), 1);
    assert_eq!(watermark(100), 1);
    assert_eq!(watermark(250), 2);
    assert_eq!(watermark(10_000), 100);
}

#[test]
fn cache_block_budget_formula() {
    // 4096 MB, 2-byte dtype, block size 32, 8 kv heads, head dim 128,
    // 24 layers: 4096 * 2^20 / (2 * 32 * 8 * 128 * 24 * 2) = 1365
    let n = num_cache_blocks(4096, 2, 32, 8, 128, 24).unwrap();
    assert_eq!(n, 1365);
    // one-byte everything: the budget is the byte count over two
    let m = num_cache_blocks(1, 1, 1, 1, 1, 1).unwrap();
    assert_eq!(m, 1024 * 1024 / 2);
}

fn fresh_seq(id: usize, prompt: Vec<u32>) -> Sequence {
    Sequence::new(id, prompt)
}

#[test]
fn allocate_builds_exactly_sized_table() {
    let mut be = BlockEngine::new(4, 8, 8);
    let mut s = fresh_seq(0, vec![1, 2, 3, 4, 5, 6, 7, 8, 9, 10]);
    be.allocate(&mut s);
    assert_eq!(s.block_table.len(), 3);
    assert_eq!(be.gpu_pool.num_free(), 5);
    for &b in s.block_table.iter() {
        assert_eq!(be.gpu_pool.ref_count(b), 1);
    }
}

#[test]
fn fork_shares_every_block() {
    let mut be = BlockEngine::new(4, 8, 8);
    let mut parent = fresh_seq(0, vec![1, 2, 3, 4, 5]);
    be.allocate(&mut parent);
    let mut child = fresh_seq(1, vec![1, 2, 3, 4, 5]);
    be.fork(&parent, &mut child).unwrap();
    assert_eq!(child.block_table, parent.block_table);
    assert_eq!(be.gpu_pool.num_free(), 6);
    for &b in parent.block_table.iter() {
        assert_eq!(be.gpu_pool.ref_count(b), 2);
    }
}

#[test]
fn append_within_block_needs_no_copy() {
    let mut be = BlockEngine::new(4, 8, 8);
    let mut s = fresh_seq(0, vec![1, 2, 3]);
    be.allocate(&mut s);
    let op = be.append_token(&mut s, 9).unwrap();
    assert!(op.is_none());
    assert_eq!(s.block_table.len(), 1);
    assert_eq!(s.output_token_ids, vec![9]);
    assert_eq!(be.gpu_pool.num_free(), 7);
}

#[test]
fn append_at_boundary_grows_table_with_fresh_block() {
    let mut be = BlockEngine::new(4, 8, 8);
    let mut s = fresh_seq(0, vec![1, 2, 3, 4]);
    be.allocate(&mut s);
    let op = be.append_token(&mut s, 9).unwrap();
    assert!(op.is_none());
    assert_eq!(s.block_table.len(), 2);
    // the last block of the appended sequence is never shared
    assert_eq!(be.gpu_pool.ref_count(*s.block_table.last().unwrap()), 1);
}

#[test]
fn append_into_shared_block_copies_on_write() {
    let mut be = BlockEngine::new(4, 8, 8);
    let mut a = fresh_seq(0, vec![1, 2, 3]);
    be.allocate(&mut a);
    let mut b = fresh_seq(1, vec![1, 2, 3]);
    be.fork(&a, &mut b).unwrap();
    let shared = a.block_table[0];
    assert_eq!(be.gpu_pool.ref_count(shared), 2);
    let op = be.append_token(&mut a, 9).unwrap().expect("a copy is required");
    assert_eq!(op.src, shared);
    assert_eq!(op.dst, a.block_table[0]);
    assert_ne!(op.src, op.dst);
    // the writer got a fresh block, the reader keeps the old one
    assert_eq!(be.gpu_pool.ref_count(op.dst), 1);
    assert_eq!(be.gpu_pool.ref_count(shared), 1);
    assert_eq!(b.block_table[0], shared);
    // the second sibling now owns its block and appends in place
    let op2 = be.append_token(&mut b, 10).unwrap();
    assert!(op2.is_none());
}

#[test]
fn append_without_free_block_reports_out_of_memory() {
    let mut be = BlockEngine::new(4, 1, 1);
    let mut s = fresh_seq(0, vec![1, 2, 3, 4]);
    be.allocate(&mut s);
    assert_eq!(be.gpu_pool.num_free(), 0);
    let r = be.append_token(&mut s, 9);
    assert_eq!(r, Err(EngineError::OutOfMemory));
    assert_eq!(s.output_token_ids.len(), 0);
    assert_eq!(s.block_table.len(), 1);
}

#[test]
fn can_append_tracks_room_and_free_blocks() {
    let mut be = BlockEngine::new(4, 1, 1);
    let mut s = fresh_seq(0, vec![1, 2, 3, 4]);
    be.allocate(&mut s);
    // full block, no free block left
    assert!(!be.can_append(&s));
    // room in the last block even without free blocks
    let t = fresh_seq(1, vec![1, 2]);
    assert!(be.can_append(&t));
    // a free block suffices even at a block boundary
    let mut be2 = BlockEngine::new(4, 2, 1);
    let mut s2 = fresh_seq(2, vec![1, 2, 3, 4]);
    be2.allocate(&mut s2);
    assert!(be2.can_append(&s2));
}

#[test]
fn free_seq_returns_every_block() {
    let mut be = BlockEngine::new(4, 8, 8);
    let mut s = fresh_seq(0, vec![1, 2, 3, 4, 5, 6, 7, 8, 9]);
    be.allocate(&mut s);
    assert_eq!(be.gpu_pool.num_free(), 5);
    be.free_seq(&mut s, Device::Gpu);
    assert_eq!(be.gpu_pool.num_free(), 8);
    assert!(s.block_table.is_empty());
}

#[test]
fn swap_moves_blocks_between_devices() {
    let mut be = BlockEngine::new(4, 8, 6);
    let mut s = fresh_seq(0, vec![1, 2, 3, 4, 5, 6]);
    be.allocate(&mut s);
    let gpu_blocks = s.block_table.clone();
    let ops = be.swap_seq(&mut s, Device::Gpu, Device::Cpu);
    assert_eq!(ops.len(), 2);
    assert_eq!(ops[0].src, gpu_blocks[0]);
    assert_eq!(ops[1].src, gpu_blocks[1]);
    assert_eq!(ops[0].dst, s.block_table[0]);
    assert_eq!(ops[1].dst, s.block_table[1]);
    assert_eq!(be.gpu_pool.num_free(), 8);
    assert_eq!(be.cpu_pool.num_free(), 4);
    // and back again: the token history never moved
    let back = be.swap_seq(&mut s, Device::Cpu, Device::Gpu);
    assert_eq!(back.len(), 2);
    assert_eq!(be.cpu_pool.num_free(), 6);
    assert_eq!(be.gpu_pool.num_free(), 6);
    assert_eq!(s.prompt_token_ids, vec![1, 2, 3, 4, 5, 6]);
}

#[test]
fn sequence_views_and_stop_tokens() {
    let s = Sequence::new(7, vec![1, 2, 3]);
    assert_eq!(s.id, 7);
    assert_eq!(s.num_tokens(), 3);
    assert_eq!(s.num_tokens_mod(4), 3);
    assert_eq!(s.status, SequenceStatus::Waiting);
    let mut s2 = s;
    s2.output_token_ids.push(4);
    s2.output_token_ids.push(5);
    assert_eq!(s2.num_tokens(), 5);
    assert_eq!(s2.num_tokens_mod(4), 1);
    assert_eq!(s2.last_tokens(3), vec![3, 4, 5]);
    assert_eq!(s2.last_tokens(99), vec![1, 2, 3, 4, 5]);
    assert_eq!(s2.last_tokens(0), Vec::<u32>::new());
    let params = SamplingParams::new(1, 16, vec![5, 9]);
    assert!(params.is_stop_token(5));
    assert!(!params.is_stop_token(6));
}

#[test]
fn group_counts_statuses() {
    let params = SamplingParams::new(3, 16, vec![]);
    let g = SequenceGroup::new("req".to_string(), 11, vec![1, 2], params, 40);
    assert_eq!(g.seqs.len(), 3);
    assert_eq!(g.seqs[0].id, 40);
    assert_eq!(g.seqs[2].id, 42);
    assert_eq!(g.num_seqs_with_status(SequenceStatus::Waiting), 3);
    assert_eq!(g.num_seqs_with_status(SequenceStatus::Running), 0);
    assert_eq!(g.num_unfinished_seqs(), 3);
    assert!(!g.is_finished());
    let mut g2 = g;
    g2.seqs[1].status = SequenceStatus::FinishedStopped;
    assert_eq!(g2.num_unfinished_seqs(), 2);
}

#[test]
fn error_kinds_have_names() {
    assert_eq!(EngineError::PromptTooLong.as_str(), "prompt too long");
    assert_eq!(EngineError::OutOfMemory.as_str(), "out of memory");
    assert_eq!(EngineError::ResourceExhausted.as_str(), "resource exhausted");
    assert_eq!(EngineError::Aborted.as_str(), "aborted");
    assert_eq!(EngineError::ModelError.as_str(), "model error");
    assert_eq!(
        EngineError::PoolInvariantViolation.as_str(),
        "pool invariant violation"
    );
}

#[test]
fn cache_block_movement_matches_the_model() {
    // three blocks of two cells each
    let mut cache: Vec<u32> = vec![10, 11, 20, 21, 30, 31];
    copy_block(&mut cache, 2, 0, 2);
    assert_eq!(cache, vec![10, 11, 20, 21, 10, 11]);
    // a chain of copies is applied in list order
    let ops = vec![CopyOp { src: 1, dst: 0 }, CopyOp { src: 0, dst: 2 }];
    apply_copies(&mut cache, 2, &ops);
    assert_eq!(cache, vec![20, 21, 20, 21, 20, 21]);
    // copying a block onto itself changes nothing
    copy_block(&mut cache, 2, 1, 1);
    assert_eq!(cache, vec![20, 21, 20, 21, 20, 21]);

    // cross-device copies read the source buffer
    let host: Vec<u32> = vec![7, 8, 9, 10];
    let mut dev: Vec<u32> = vec![0; 6];
    swap_block(&host, &mut dev, 2, 1, 0);
    assert_eq!(dev, vec![9, 10, 0, 0, 0, 0]);
    let pairs = vec![SwapOp { src: 0, dst: 1 }, SwapOp { src: 1, dst: 2 }];
    apply_swaps(&host, &mut dev, 2, &pairs);
    assert_eq!(dev, vec![9, 10, 7, 8, 9, 10]);
}

#[test]
fn rows_are_padded_to_a_rectangle() {
    let rows: Vec<Vec<u32>> = vec![vec![1, 2, 3], vec![], vec![4]];
    let padded = candle_vllm::pad_rows(&rows, 4, 0);
    assert_eq!(padded, vec![vec![1, 2, 3, 0], vec![0, 0, 0, 0], vec![4, 0, 0, 0]]);
    let exact = candle_vllm::pad_rows(&vec![vec![7u32, 8]], 2, 9);
    assert_eq!(exact, vec![vec![7, 8]]);
}

#[test]
fn token_source_is_chosen_from_the_flags() {
    match candle_vllm::token_source(Some("VAR".to_string()), None) {
        Some(candle_vllm::TokenSource::EnvVar(v)) => assert_eq!(v, "VAR".to_string()),
        _ => panic!("expected the environment source"),
    }
    match candle_vllm::token_source(None, Some("/tmp/t".to_string())) {
        Some(candle_vllm::TokenSource::TokenFile(p)) => {
            assert_eq!(p, "/tmp/t".to_string())
        },
        _ => panic!("expected the file source"),
    }
    assert!(matches!(
        candle_vllm::token_source(None, None),
        Some(candle_vllm::TokenSource::CacheFile)
    ));
    assert!(candle_vllm::token_source(Some("a".to_string()), Some("b".to_string()))
        .is_none());
}
