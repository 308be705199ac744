//! Request state: one generated sequence, and the group of sibling
//! sequences that serve one client request.

use vstd::prelude::*;

verus! {

/// Lifecycle of a sequence.
///
/// `Waiting` sequences sit in the admission queue with an empty block
/// table. `Running` sequences hold accelerator blocks. `Swapped`
/// sequences were preempted and hold host blocks. The three finished
/// states release their blocks exactly once, on finalization.
#[derive(Clone, Copy, PartialEq, Eq, Structural, Debug)]
pub enum SequenceStatus {
    Waiting,
    Running,
    Swapped,
    FinishedStopped,
    FinishedLengthCapped,
    FinishedAborted,
}

/// Why a sequence stopped, as reported in its final event.
#[derive(Clone, Copy, PartialEq, Eq, Structural, Debug)]
pub enum FinishReason {
    /// A stop token was sampled.
    Stop,
    /// The generation cap or the model length cap was hit.
    Length,
    /// The client aborted the request, or it could not be kept.
    Aborted,
}

impl SequenceStatus {
    /// Whether this status is one of the finished states.
    pub open spec fn is_finished_spec(self) -> bool {
        match self {
            SequenceStatus::FinishedStopped => true,
            SequenceStatus::FinishedLengthCapped => true,
            SequenceStatus::FinishedAborted => true,
            _ => false,
        }
    }

    /// Whether this status is one of the finished states.
    pub fn is_finished(&self) -> (r: bool)
        ensures
            r == self.is_finished_spec(),
    {
        match self {
            SequenceStatus::FinishedStopped => true,
            SequenceStatus::FinishedLengthCapped => true,
            SequenceStatus::FinishedAborted => true,
            _ => false,
        }
    }

    /// The finish reason a finished status reports; `None` while live.
    pub open spec fn finish_reason_spec(self) -> Option<FinishReason> {
        match self {
            SequenceStatus::FinishedStopped => Some(FinishReason::Stop),
            SequenceStatus::FinishedLengthCapped => Some(FinishReason::Length),
            SequenceStatus::FinishedAborted => Some(FinishReason::Aborted),
            _ => None,
        }
    }

    /// The finish reason a finished status reports; `None` while live.
    pub fn finish_reason(&self) -> (r: Option<FinishReason>)
        ensures
            r == self.finish_reason_spec(),
    {
        match self {
            SequenceStatus::FinishedStopped => Some(FinishReason::Stop),
            SequenceStatus::FinishedLengthCapped => Some(FinishReason::Length),
            SequenceStatus::FinishedAborted => Some(FinishReason::Aborted),
            _ => None,
        }
    }
}

/// The sampling controls the core reads. The numeric sampling knobs
/// (temperature and friends) belong to the external sampler and are
/// carried outside the core.
pub struct SamplingParams {
    /// Number of sibling sequences the request asks for (beam width).
    pub n: usize,
    /// Cap on generated tokens per sequence.
    pub max_tokens: usize,
    /// Sampled tokens that stop the sequence.
    pub stop_token_ids: Vec<u32>,
}

impl SamplingParams {
    pub fn new(n: usize, max_tokens: usize, stop_token_ids: Vec<u32>) -> (p: Self)
        ensures
            p.n == n,
            p.max_tokens == max_tokens,
            p.stop_token_ids == stop_token_ids,
    {
        SamplingParams { n, max_tokens, stop_token_ids }
    }

    /// Whether `t` is one of the stop tokens.
    pub fn is_stop_token(&self, t: u32) -> (r: bool)
        ensures
            r == self.stop_token_ids@.contains(t),
    {
        let mut i: usize = 0;
        while i < self.stop_token_ids.len()
            invariant
                i <= self.stop_token_ids@.len(),
                forall|j: int| 0 <= j < i ==> self.stop_token_ids@[j] != t,
            decreases self.stop_token_ids@.len() - i,
        {
            if self.stop_token_ids[i] == t {
                return true;
            }
            i = i + 1;
        }
        false
    }
}

/// Number of blocks a sequence of `num_tokens` tokens needs: the number
/// of `block_size` chunks, the last one possibly partial.
pub open spec fn blocks_for_tokens(num_tokens: int, block_size: int) -> int
    recommends
        block_size >= 1,
        num_tokens >= 0,
{
    (num_tokens + block_size - 1) / block_size
}

/// One generated sequence: its token history, status, and the block
/// table mapping its logical block index to a physical block number in
/// the pool of the device its status implies.
pub struct Sequence {
    pub id: usize,
    pub prompt_token_ids: Vec<u32>,
    pub output_token_ids: Vec<u32>,
    pub status: SequenceStatus,
    pub block_table: Vec<usize>,
}

impl Sequence {
    /// All tokens, prompt first.
    pub open spec fn tokens(self) -> Seq<u32> {
        self.prompt_token_ids@ + self.output_token_ids@
    }

    /// Prompt length plus generated length.
    pub open spec fn num_tokens_spec(self) -> int {
        self.prompt_token_ids@.len() + self.output_token_ids@.len() as int
    }

    /// A fresh waiting sequence over `prompt`: no output, no blocks.
    pub fn new(id: usize, prompt_token_ids: Vec<u32>) -> (s: Self)
        ensures
            s.id == id,
            s.prompt_token_ids == prompt_token_ids,
            s.output_token_ids@ == Seq::<u32>::empty(),
            s.status == SequenceStatus::Waiting,
            s.block_table@ == Seq::<usize>::empty(),
    {
        Sequence {
            id,
            prompt_token_ids,
            output_token_ids: Vec::new(),
            status: SequenceStatus::Waiting,
            block_table: Vec::new(),
        }
    }

    /// Prompt length plus generated length.
    pub fn num_tokens(&self) -> (n: usize)
        requires
            self.num_tokens_spec() <= usize::MAX,
        ensures
            n == self.num_tokens_spec(),
    {
        self.prompt_token_ids.len() + self.output_token_ids.len()
    }

    /// `num_tokens` modulo `block_size`, computed without forming the
    /// possibly overflowing sum. Zero means every block is exactly full.
    pub fn num_tokens_mod(&self, block_size: usize) -> (m: usize)
        requires
            block_size >= 1,
        ensures
            m == self.num_tokens_spec() % (block_size as int),
    {
        let p = self.prompt_token_ids.len() % block_size;
        let o = self.output_token_ids.len() % block_size;
        let m = ((p as u128 + o as u128) % (block_size as u128)) as usize;
        proof {
            let bs = block_size as int;
            let pl = self.prompt_token_ids@.len() as int;
            let ol = self.output_token_ids@.len() as int;
            vstd::arithmetic::div_mod::lemma_add_mod_noop(pl, ol, bs);
        }
        m
    }

    /// The last `n` tokens of the history, or all of them if fewer.
    pub fn last_tokens(&self, n: usize) -> (r: Vec<u32>)
        requires
            self.num_tokens_spec() <= usize::MAX,
        ensures
            r@ == self.tokens().subrange(
                if self.num_tokens_spec() >= n { self.num_tokens_spec() - n } else { 0int },
                self.num_tokens_spec(),
            ),
    {
        let total = self.prompt_token_ids.len() + self.output_token_ids.len();
        let start: usize = if total >= n { total - n } else { 0 };
        let mut r: Vec<u32> = Vec::new();
        let mut i: usize = start;
        let plen = self.prompt_token_ids.len();
        while i < total
            invariant
                start <= i <= total,
                plen == self.prompt_token_ids@.len(),
                total == self.num_tokens_spec(),
                r@ == self.tokens().subrange(start as int, i as int),
            decreases total - i,
        {
            let t = if i < plen {
                self.prompt_token_ids[i]
            } else {
                self.output_token_ids[i - plen]
            };
            r.push(t);
            proof {
                assert(self.tokens()[i as int] == t);
                assert(r@ =~= self.tokens().subrange(start as int, i + 1));
            }
            i = i + 1;
        }
        r
    }
}

/// An element-by-element copy of a token vector.
pub fn copy_tokens(v: &Vec<u32>) -> (r: Vec<u32>)
    ensures
        r@ == v@,
{
    let mut r: Vec<u32> = Vec::new();
    let mut i: usize = 0;
    while i < v.len()
        invariant
            i <= v@.len(),
            r@ == v@.subrange(0, i as int),
        decreases v@.len() - i,
    {
        r.push(v[i]);
        proof {
            assert(r@ =~= v@.subrange(0, i + 1));
        }
        i = i + 1;
    }
    proof {
        assert(v@.subrange(0, v@.len() as int) =~= v@);
    }
    r
}

/// Sibling sequences that share one prompt and serve one client request.
pub struct SequenceGroup {
    pub request_id: String,
    pub arrival_time: u64,
    pub sampling_params: SamplingParams,
    pub seqs: Vec<Sequence>,
}

/// Number of sequences among `ss` with status `st`.
pub open spec fn count_with_status(ss: Seq<Sequence>, st: SequenceStatus) -> int
    decreases ss.len(),
{
    if ss.len() == 0 {
        0
    } else {
        count_with_status(ss.drop_last(), st) + if ss.last().status == st { 1int } else { 0int }
    }
}

/// Number of sequences among `ss` that are not finished.
pub open spec fn count_unfinished(ss: Seq<Sequence>) -> int
    decreases ss.len(),
{
    if ss.len() == 0 {
        0
    } else {
        count_unfinished(ss.drop_last())
            + if ss.last().status.is_finished_spec() { 0int } else { 1int }
    }
}

impl SequenceGroup {
    /// A fresh group: `params.n` sibling waiting sequences over copies of
    /// the same prompt, with ids `first_seq_id`, `first_seq_id + 1`, ...
    pub fn new(
        request_id: String,
        arrival_time: u64,
        prompt_token_ids: Vec<u32>,
        params: SamplingParams,
        first_seq_id: usize,
    ) -> (g: Self)
        requires
            first_seq_id + params.n <= usize::MAX,
        ensures
            g.request_id == request_id,
            g.arrival_time == arrival_time,
            g.sampling_params == params,
            g.seqs@.len() == params.n,
            forall|j: int| 0 <= j < g.seqs@.len() ==> {
                &&& (#[trigger] g.seqs@[j]).status == SequenceStatus::Waiting
                &&& g.seqs@[j].block_table@ == Seq::<usize>::empty()
                &&& g.seqs@[j].prompt_token_ids@ == prompt_token_ids@
                &&& g.seqs@[j].output_token_ids@ == Seq::<u32>::empty()
                &&& g.seqs@[j].id == first_seq_id + j
            },
    {
        let n = params.n;
        let mut seqs: Vec<Sequence> = Vec::new();
        let mut j: usize = 0;
        while j < n
            invariant
                j <= n,
                first_seq_id + n <= usize::MAX,
                seqs@.len() == j,
                forall|k: int| 0 <= k < j ==> {
                    &&& (#[trigger] seqs@[k]).status == SequenceStatus::Waiting
                    &&& seqs@[k].block_table@ == Seq::<usize>::empty()
                    &&& seqs@[k].prompt_token_ids@ == prompt_token_ids@
                    &&& seqs@[k].output_token_ids@ == Seq::<u32>::empty()
                    &&& seqs@[k].id == first_seq_id + k
                },
            decreases n - j,
        {
            let prompt_copy = copy_tokens(&prompt_token_ids);
            seqs.push(Sequence::new(first_seq_id + j, prompt_copy));
            j = j + 1;
        }
        SequenceGroup { request_id, arrival_time, sampling_params: params, seqs }
    }

    /// Number of sibling sequences with the given status.
    pub fn num_seqs_with_status(&self, st: SequenceStatus) -> (n: usize)
        ensures
            n == count_with_status(self.seqs@, st),
    {
        let mut n: usize = 0;
        let mut j: usize = 0;
        while j < self.seqs.len()
            invariant
                j <= self.seqs@.len(),
                n == count_with_status(self.seqs@.subrange(0, j as int), st),
                n <= j,
            decreases self.seqs@.len() - j,
        {
            let ghost pre = self.seqs@.subrange(0, j as int);
            if self.seqs[j].status == st {
                n = n + 1;
            }
            proof {
                assert(self.seqs@.subrange(0, j + 1).drop_last() =~= pre);
                assert(self.seqs@.subrange(0, j + 1).last() == self.seqs@[j as int]);
            }
            j = j + 1;
        }
        proof {
            assert(self.seqs@.subrange(0, self.seqs@.len() as int) =~= self.seqs@);
        }
        n
    }

    /// Number of sibling sequences that are not finished.
    pub fn num_unfinished_seqs(&self) -> (n: usize)
        ensures
            n == count_unfinished(self.seqs@),
    {
        let mut n: usize = 0;
        let mut j: usize = 0;
        while j < self.seqs.len()
            invariant
                j <= self.seqs@.len(),
                n == count_unfinished(self.seqs@.subrange(0, j as int)),
                n <= j,
            decreases self.seqs@.len() - j,
        {
            let ghost pre = self.seqs@.subrange(0, j as int);
            if !self.seqs[j].status.is_finished() {
                n = n + 1;
            }
            proof {
                assert(self.seqs@.subrange(0, j + 1).drop_last() =~= pre);
                assert(self.seqs@.subrange(0, j + 1).last() == self.seqs@[j as int]);
            }
            j = j + 1;
        }
        proof {
            assert(self.seqs@.subrange(0, self.seqs@.len() as int) =~= self.seqs@);
        }
        n
    }

    /// A group is finished when every sibling is finished.
    pub open spec fn is_finished_spec(self) -> bool {
        forall|j: int| 0 <= j < self.seqs@.len()
            ==> (#[trigger] self.seqs@[j]).status.is_finished_spec()
    }

    /// A group is finished when every sibling is finished.
    pub fn is_finished(&self) -> (r: bool)
        ensures
            r == self.is_finished_spec(),
    {
        let mut j: usize = 0;
        while j < self.seqs.len()
            invariant
                j <= self.seqs@.len(),
                forall|k: int| 0 <= k < j
                    ==> (#[trigger] self.seqs@[k]).status.is_finished_spec(),
            decreases self.seqs@.len() - j,
        {
            if !self.seqs[j].status.is_finished() {
                return false;
            }
            j = j + 1;
        }
        true
    }
}

} // verus!
