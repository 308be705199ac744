//! Core of a paged-attention inference server: a reference-counted block
//! pool for the key-value cache, per-sequence block tables with
//! copy-on-write, the request scheduler that batches sequences into
//! prompt and decode steps, and the engine step cycle that drives them.

pub mod attention;
pub mod block_engine;
pub mod cache_ops;
pub mod block_pool;
pub mod conversation;
pub mod counting;
pub mod engine;
pub mod error;
pub mod laws;
pub mod scheduler;
pub mod sequence;
pub mod stream;
pub mod tokenization;

use vstd::prelude::*;
use vstd::string::StringExecFns;

verus! {

/// Minimum number of free accelerator blocks the scheduler holds in
/// reserve for running sequences to grow into: one percent of the pool,
/// and at least one block.
pub fn watermark(num_gpu_blocks: usize) -> (w: usize)
    ensures
        w == if num_gpu_blocks / 100 > 1 { num_gpu_blocks / 100 } else { 1usize },
        w >= 1,
{
    let hundredth: usize = num_gpu_blocks / 100;
    if hundredth > 1 {
        hundredth
    } else {
        1
    }
}

/// How many cache blocks a memory budget of `mem_mb` megabytes buys.
///
/// One block stores keys and values (factor two) for `block_size` token
/// positions, each position holding `num_kv_heads * head_dim` values of
/// `dtype_size` bytes per layer, over `num_layers` layers.
pub open spec fn spec_num_cache_blocks(
    mem_mb: int,
    dtype_size: int,
    block_size: int,
    num_kv_heads: int,
    head_dim: int,
    num_layers: int,
) -> int {
    (mem_mb * 0x100000) / (dtype_size * block_size * num_kv_heads * head_dim
        * num_layers * 2)
}

/// The block budget, or `None` when it exceeds the machine word.
pub fn num_cache_blocks(
    mem_mb: usize,
    dtype_size: usize,
    block_size: usize,
    num_kv_heads: usize,
    head_dim: usize,
    num_layers: usize,
) -> (n: Option<usize>)
    requires
        dtype_size >= 1,
        block_size >= 1,
        num_kv_heads >= 1,
        head_dim >= 1,
        num_layers >= 1,
        dtype_size * block_size * num_kv_heads * head_dim * num_layers * 2
            <= u128::MAX,
    ensures
        match n {
            Some(v) => v == spec_num_cache_blocks(mem_mb as int, dtype_size as int,
                block_size as int, num_kv_heads as int, head_dim as int,
                num_layers as int),
            None => spec_num_cache_blocks(mem_mb as int, dtype_size as int,
                block_size as int, num_kv_heads as int, head_dim as int,
                num_layers as int) > usize::MAX,
        },
{
    let numerator: u128 = (mem_mb as u128) * 0x100000u128;
    let ghost ds = dtype_size as int;
    let ghost bs = block_size as int;
    let ghost kv = num_kv_heads as int;
    let ghost hd = head_dim as int;
    let ghost nl = num_layers as int;
    proof {
        assert(1 <= ds * bs * kv * hd * nl * 2
            && ds * bs <= ds * bs * kv * hd * nl * 2
            && ds * bs * kv <= ds * bs * kv * hd * nl * 2
            && ds * bs * kv * hd <= ds * bs * kv * hd * nl * 2
            && ds * bs * kv * hd * nl <= ds * bs * kv * hd * nl * 2) by (nonlinear_arith)
            requires
                ds >= 1,
                bs >= 1,
                kv >= 1,
                hd >= 1,
                nl >= 1;
    }
    let d1 = (dtype_size as u128).checked_mul(block_size as u128).unwrap();
    let d2 = d1.checked_mul(num_kv_heads as u128).unwrap();
    let d3 = d2.checked_mul(head_dim as u128).unwrap();
    let d4 = d3.checked_mul(num_layers as u128).unwrap();
    let divisor = d4.checked_mul(2u128).unwrap();
    let blocks = numerator / divisor;
    if blocks > usize::MAX as u128 {
        None
    } else {
        Some(blocks as usize)
    }
}

/// Pad each row to `max_len` with the padding cell: the rectangular
/// shape a batched model input expects.
pub fn pad_rows<T: Copy>(x: &Vec<Vec<T>>, max_len: usize, pad: T) -> (r: Vec<Vec<T>>)
    requires
        forall|i: int| 0 <= i < x@.len() ==> (#[trigger] x@[i])@.len() <= max_len,
    ensures
        r@.len() == x@.len(),
        forall|i: int| 0 <= i < r@.len() ==> {
            &&& (#[trigger] r@[i])@.len() == max_len
            &&& r@[i]@.subrange(0, x@[i]@.len() as int) == x@[i]@
            &&& forall|k: int| x@[i]@.len() <= k < max_len
                    ==> r@[i]@[k] == pad
        },
{
    let mut r: Vec<Vec<T>> = Vec::new();
    let mut i: usize = 0;
    let n = x.len();
    while i < n
        invariant
            i <= n,
            n == x@.len(),
            forall|ii: int| 0 <= ii < n ==> (#[trigger] x@[ii])@.len() <= max_len,
            r@.len() == i,
            forall|ii: int| 0 <= ii < i ==> {
                &&& (#[trigger] r@[ii])@.len() == max_len
                &&& r@[ii]@.subrange(0, x@[ii]@.len() as int) == x@[ii]@
                &&& forall|k: int| x@[ii]@.len() <= k < max_len
                        ==> r@[ii]@[k] == pad
            },
        decreases n - i,
    {
        let rlen = x[i].len();
        let mut row: Vec<T> = Vec::new();
        let mut k: usize = 0;
        while k < rlen
            invariant
                k <= rlen,
                i < n,
                n == x@.len(),
                rlen == x@[i as int]@.len(),
                row@ == x@[i as int]@.subrange(0, k as int),
            decreases rlen - k,
        {
            row.push(x[i][k]);
            proof {
                assert(row@ =~= x@[i as int]@.subrange(0, k + 1));
            }
            k = k + 1;
        }
        proof {
            assert(x@[i as int]@.subrange(0, rlen as int) =~= x@[i as int]@);
        }
        while k < max_len
            invariant
                rlen <= k <= max_len,
                i < n,
                n == x@.len(),
                rlen == x@[i as int]@.len(),
                row@.len() == k,
                row@.subrange(0, rlen as int) == x@[i as int]@,
                forall|kk: int| rlen <= kk < k ==> row@[kk] == pad,
            decreases max_len - k,
        {
            let ghost pre = row@;
            row.push(pad);
            proof {
                assert(row@.subrange(0, rlen as int) =~= pre.subrange(0, rlen as int));
            }
            k = k + 1;
        }
        r.push(row);
        i = i + 1;
    }
    r
}

/// Where the access token comes from, given the two optional flags: a
/// named environment variable, a token file, or the default cache file.
pub enum TokenSource {
    EnvVar(String),
    TokenFile(String),
    CacheFile,
}

/// Pick the token source; naming both flags at once names no source.
pub fn token_source(hf_token: Option<String>, hf_token_path: Option<String>)
    -> (r: Option<TokenSource>)
    ensures
        match (hf_token, hf_token_path) {
            (Some(v), None) => r matches Some(s)
                && s matches TokenSource::EnvVar(e) && e@ == v@,
            (None, Some(p)) => r matches Some(s)
                && s matches TokenSource::TokenFile(f) && f@ == p@,
            (None, None) => r matches Some(s) && s is CacheFile,
            (Some(_), Some(_)) => r is None,
        },
{
    match (hf_token, hf_token_path) {
        (Some(v), None) => Some(TokenSource::EnvVar(v)),
        (None, Some(p)) => Some(TokenSource::TokenFile(p)),
        (None, None) => Some(TokenSource::CacheFile),
        (Some(_), Some(_)) => None,
    }
}

/// Prefix every weight file name with the model directory, newest file
/// first, mirroring how an index file's entries are folded into load
/// paths.
pub fn prefix_weight_files(path: &String, files: &Vec<String>) -> (r: Vec<String>)
    ensures
        r@.len() == files@.len(),
        forall|k: int| 0 <= k < r@.len()
            ==> (#[trigger] r@[k])@ == path@ + files@[files@.len() - 1 - k]@,
{
    let mut r: Vec<String> = Vec::new();
    let mut i: usize = 0;
    while i < files.len()
        invariant
            i <= files@.len(),
            r@.len() == i,
            forall|k: int| 0 <= k < i
                ==> (#[trigger] r@[k])@ == path@ + files@[i - 1 - k]@,
        decreases files@.len() - i,
    {
        let ghost pre = r@;
        let joined = path.clone().concat(files[i].as_str());
        r.insert(0, joined);
        proof {
            assert forall|k: int| 0 <= k < i + 1
                implies (#[trigger] r@[k])@ == path@ + files@[i + 1 - 1 - k]@
            by {
                if k > 0 {
                    assert(r@[k] == pre[k - 1]);
                }
            }
        }
        i = i + 1;
    }
    r
}

} // verus!
