//! Index logic of the attention masks: which positions a causal,
//! block-diagonal attention may read. The tensors that realize these
//! patterns live outside; here the patterns themselves are computed and
//! proved.

use vstd::prelude::*;

verus! {

/// Sum of the first `i` lengths.
pub open spec fn prefix_sum(s: Seq<u32>, i: int) -> int
    decreases i,
{
    if i <= 0 {
        0
    } else {
        prefix_sum(s, i - 1) + s[i - 1]
    }
}

/// Per-sequence boundaries of a packed batch: `seqstart[k]` is where
/// sequence `k` begins in the concatenation, plus the extreme lengths.
pub struct SeqLenInfo {
    pub seqstart: Vec<u32>,
    pub max_seqlen: u32,
    pub min_seqlen: u32,
}

impl SeqLenInfo {
    /// Build the boundaries from the per-sequence lengths.
    pub fn from_seqlens(seqlens: &Vec<u32>) -> (r: SeqLenInfo)
        requires
            seqlens@.len() >= 1,
            prefix_sum(seqlens@, seqlens@.len() as int) <= u32::MAX,
        ensures
            r.seqstart@.len() == seqlens@.len() + 1,
            forall|i: int| 0 <= i <= seqlens@.len()
                ==> #[trigger] r.seqstart@[i] == prefix_sum(seqlens@, i),
            forall|i: int| 0 <= i < seqlens@.len()
                ==> #[trigger] seqlens@[i] <= r.max_seqlen,
            forall|i: int| 0 <= i < seqlens@.len()
                ==> #[trigger] seqlens@[i] >= r.min_seqlen,
            exists|i: int| 0 <= i < seqlens@.len() && seqlens@[i] == r.max_seqlen,
            exists|i: int| 0 <= i < seqlens@.len() && seqlens@[i] == r.min_seqlen,
    {
        let mut seqstart: Vec<u32> = Vec::new();
        seqstart.push(0);
        let mut max_seqlen: u32 = seqlens[0];
        let mut min_seqlen: u32 = seqlens[0];
        let mut i: usize = 0;
        while i < seqlens.len()
            invariant
                i <= seqlens@.len(),
                seqlens@.len() >= 1,
                prefix_sum(seqlens@, seqlens@.len() as int) <= u32::MAX,
                seqstart@.len() == i + 1,
                forall|k: int| 0 <= k <= i
                    ==> #[trigger] seqstart@[k] == prefix_sum(seqlens@, k),
                forall|k: int| 0 <= k < i ==> #[trigger] seqlens@[k] <= max_seqlen,
                forall|k: int| 0 <= k < i ==> #[trigger] seqlens@[k] >= min_seqlen,
                exists|k: int| 0 <= k < seqlens@.len() && seqlens@[k] == max_seqlen,
                exists|k: int| 0 <= k < seqlens@.len() && seqlens@[k] == min_seqlen,
            decreases seqlens@.len() - i,
        {
            let l = seqlens[i];
            if l > max_seqlen {
                max_seqlen = l;
            }
            if l < min_seqlen {
                min_seqlen = l;
            }
            let prev = seqstart[i];
            proof {
                lemma_prefix_sum_bound(seqlens@, i + 1, seqlens@.len() as int);
            }
            seqstart.push(prev + l);
            i = i + 1;
        }
        SeqLenInfo { seqstart, max_seqlen, min_seqlen }
    }

    /// The half-open interval the `k`-th sequence occupies.
    pub fn interval(&self, k: usize) -> (r: (u32, u32))
        requires
            k + 1 < self.seqstart@.len(),
        ensures
            r.0 == self.seqstart@[k as int],
            r.1 == self.seqstart@[k + 1],
    {
        let n = self.seqstart.len();
        (self.seqstart[k], self.seqstart[k + 1])
    }
}

/// A prefix sum never exceeds a later one.
proof fn lemma_prefix_sum_bound(s: Seq<u32>, i: int, j: int)
    requires
        0 <= i <= j <= s.len(),
    ensures
        prefix_sum(s, i) <= prefix_sum(s, j),
    decreases j - i,
{
    if i < j {
        lemma_prefix_sum_bound(s, i, j - 1);
    }
}

/// The keep-or-zero pattern of a triangular mask over a `rows` by
/// `cols` grid: position `(i, j)` is zeroed exactly when it lies
/// beyond the shifted diagonal — above it for an upper mask, below it
/// for a lower one.
pub fn triangular_pattern(rows: usize, cols: usize, diagonal: i128, upper: bool)
    -> (m: Vec<Vec<u8>>)
    requires
        rows as int + diagonal <= i128::MAX,
    ensures
        m@.len() == rows,
        forall|i: int| 0 <= i < rows ==> (#[trigger] m@[i])@.len() == cols,
        forall|i: int, j: int| 0 <= i < rows && 0 <= j < cols
            ==> (#[trigger] m@[i]@[j]) == (if (if upper {
                i + diagonal > j
            } else {
                i + diagonal < j
            }) { 0u8 } else { 1u8 }),
{
    let mut m: Vec<Vec<u8>> = Vec::new();
    let mut i: usize = 0;
    while i < rows
        invariant
            i <= rows,
            rows as int + diagonal <= i128::MAX,
            m@.len() == i,
            forall|ii: int| 0 <= ii < i ==> (#[trigger] m@[ii])@.len() == cols,
            forall|ii: int, j: int| 0 <= ii < i && 0 <= j < cols
                ==> (#[trigger] m@[ii]@[j]) == (if (if upper {
                    ii + diagonal > j
                } else {
                    ii + diagonal < j
                }) { 0u8 } else { 1u8 }),
        decreases rows - i,
    {
        let mut row: Vec<u8> = Vec::new();
        let mut j: usize = 0;
        while j < cols
            invariant
                j <= cols,
                i < rows,
                i as int + diagonal <= i128::MAX,
                row@.len() == j,
                forall|jj: int| 0 <= jj < j
                    ==> (#[trigger] row@[jj]) == (if (if upper {
                        i + diagonal > jj
                    } else {
                        i + diagonal < jj
                    }) { 0u8 } else { 1u8 }),
            decreases cols - j,
        {
            let shifted: i128 = i as i128 + diagonal;
            let beyond = if upper {
                shifted > j as i128
            } else {
                shifted < j as i128
            };
            row.push(if beyond { 0 } else { 1 });
            j = j + 1;
        }
        m.push(row);
        i = i + 1;
    }
    m
}

/// The pattern of a causal mask: row `i` may read columns up to
/// `i + shift`, where `shift` aligns the last query with the last key.
/// A window bound additionally hides keys older than `window_size`.
pub fn causal_mask_pattern(num_queries: usize, num_keys: usize,
    window_size: Option<usize>) -> (mask: Vec<Vec<u8>>)
    requires
        num_keys >= num_queries,
    ensures
        mask@.len() == num_queries,
        forall|i: int| 0 <= i < num_queries
            ==> (#[trigger] mask@[i])@.len() == num_keys,
        forall|i: int, j: int| 0 <= i < num_queries && 0 <= j < num_keys
            ==> ((#[trigger] mask@[i]@[j]) == 1u8 <==> (
                j <= i + num_keys - num_queries
                && (match window_size {
                    Some(w) => i + num_keys - num_queries < j + w,
                    None => true,
                })
            )),
{
    let shift: usize = num_keys - num_queries;
    let base = triangular_pattern(num_queries, num_keys, shift as i128, false);
    match window_size {
        Some(w) => {
            let upper_diag: i128 = shift as i128 - (w as i128) + 1;
            let upper = triangular_pattern(num_queries, num_keys, upper_diag, true);
            let mut m: Vec<Vec<u8>> = Vec::new();
            let mut i: usize = 0;
            while i < num_queries
                invariant
                    i <= num_queries,
                    num_keys >= num_queries,
                    shift == num_keys - num_queries,
                    base@.len() == num_queries,
                    upper@.len() == num_queries,
                    forall|ii: int| 0 <= ii < num_queries
                        ==> (#[trigger] base@[ii])@.len() == num_keys,
                    forall|ii: int| 0 <= ii < num_queries
                        ==> (#[trigger] upper@[ii])@.len() == num_keys,
                    forall|ii: int, j: int| 0 <= ii < num_queries && 0 <= j < num_keys
                        ==> (#[trigger] base@[ii]@[j])
                            == (if ii + shift < j { 0u8 } else { 1u8 }),
                    forall|ii: int, j: int| 0 <= ii < num_queries && 0 <= j < num_keys
                        ==> (#[trigger] upper@[ii]@[j])
                            == (if ii + shift - (w as int) + 1 > j { 0u8 }
                                else { 1u8 }),
                    m@.len() == i,
                    forall|ii: int| 0 <= ii < i ==> (#[trigger] m@[ii])@.len()
                        == num_keys,
                    forall|ii: int, j: int| 0 <= ii < i && 0 <= j < num_keys
                        ==> ((#[trigger] m@[ii]@[j]) == 1u8 <==> (
                            j <= ii + shift && ii + shift < j + w
                        )),
                decreases num_queries - i,
            {
                let mut row: Vec<u8> = Vec::new();
                let mut j: usize = 0;
                while j < num_keys
                    invariant
                        j <= num_keys,
                        i < num_queries,
                        shift == num_keys - num_queries,
                        base@.len() == num_queries,
                        upper@.len() == num_queries,
                        (base@[i as int])@.len() == num_keys,
                        (upper@[i as int])@.len() == num_keys,
                        forall|jj: int| 0 <= jj < num_keys
                            ==> (#[trigger] base@[i as int]@[jj])
                                == (if i + shift < jj { 0u8 } else { 1u8 }),
                        forall|jj: int| 0 <= jj < num_keys
                            ==> (#[trigger] upper@[i as int]@[jj])
                                == (if i + shift - (w as int) + 1 > jj { 0u8 }
                                    else { 1u8 }),
                        row@.len() == j,
                        forall|jj: int| 0 <= jj < j
                            ==> ((#[trigger] row@[jj]) == 1u8 <==> (
                                jj <= i + shift && i + shift < jj + w
                            )),
                        forall|jj: int| 0 <= jj < j
                            ==> (#[trigger] row@[jj]) == 1u8 || row@[jj] == 0u8,
                    decreases num_keys - j,
                {
                    let keep = if base[i][j] == 1 && upper[i][j] == 1 {
                        1u8
                    } else {
                        0u8
                    };
                    row.push(keep);
                    j = j + 1;
                }
                m.push(row);
                i = i + 1;
            }
            m
        },
        None => {
            proof {
                assert forall|i: int, j: int| 0 <= i < num_queries && 0 <= j < num_keys
                    implies ((#[trigger] base@[i]@[j]) == 1u8 <==> j <= i + shift)
                by {
                }
            }
            base
        },
    }
}

} // verus!
