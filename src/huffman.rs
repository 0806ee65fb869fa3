//! Huffman code construction: the RLE-friendly histogram adjustment, length-limited
//! code lengths by boundary package-merge, and canonical code assignment.
use vstd::prelude::*;
use crate::types::{Node, NodePool};
use crate::util::abs_diff;
use crate::symbols::{two_pow, lemma_two_pow_monotone};
use vstd::math::min;

verus! {

/// `counts[0] + ... + counts[n - 1]`.
pub open spec fn sum_prefix(counts: Seq<usize>, n: int) -> int
    decreases n,
{
    if n <= 0 {
        0
    } else {
        sum_prefix(counts, n - 1) + counts[n - 1]
    }
}

proof fn lemma_sum_prefix_mono(counts: Seq<usize>, a: int, b: int)
    requires
        0 <= a <= b <= counts.len(),
    ensures
        sum_prefix(counts, a) <= sum_prefix(counts, b),
    decreases b - a,
{
    if a < b {
        lemma_sum_prefix_mono(counts, a, b - 1);
    }
}

proof fn lemma_sum_prefix_frame(c1: Seq<usize>, c2: Seq<usize>, n: int)
    requires
        0 <= n <= c1.len(),
        n <= c2.len(),
        forall|k: int| 0 <= k < n ==> #[trigger] c1[k] == c2[k],
    ensures
        sum_prefix(c1, n) == sum_prefix(c2, n),
    decreases n,
{
    if n > 0 {
        lemma_sum_prefix_frame(c1, c2, n - 1);
    }
}

/// The histogram without its trailing zeros: the length up to the last nonzero count.
pub open spec fn trimmed_len(counts: Seq<usize>, n: int) -> int
    decreases n,
{
    if n <= 0 {
        0
    } else if counts[n - 1] != 0 {
        n
    } else {
        trimmed_len(counts, n - 1)
    }
}

/// The value a collapsed stride gets: its rounded mean, at least 1 unless all its counts
/// are 0.
pub open spec fn stride_value(sum: int, stride: int) -> int {
    if sum == 0 {
        0
    } else if (sum + stride / 2) / stride < 1 {
        1
    } else {
        (sum + stride / 2) / stride
    }
}

/// `counts` with `counts[a..b]` set to `v`.
pub open spec fn set_range(counts: Seq<usize>, a: int, b: int, v: int) -> Seq<usize> {
    Seq::new(counts.len(), |t: int| if a <= t < b { v as usize } else { counts[t] })
}

/// The reference value of the stride that starts at `i`: the rounded mean of the next
/// four counts, or the count itself near the end.
pub open spec fn stride_reference(orig: Seq<usize>, len: int, i: int) -> int {
    if len >= 3 && i < len - 3 {
        (orig[i] + orig[i + 1] + orig[i + 2] + orig[i + 3] + 2) / 4
    } else if i < len {
        orig[i] as int
    } else {
        0
    }
}

/// One position of the second pass of the RLE adjustment over `orig[..len]`. The state is
/// (counts so far, stride length, reference value, stride sum). A stride ends at the end,
/// at a count in a run good for RLE, or where a count is 4 or more away from the
/// reference; when it is at least 4 long (3 if all zeros) its counts get
/// `stride_value`. A count in a good run joins no stride.
pub open spec fn rle_step(orig: Seq<usize>, len: int, i: int, st: (Seq<usize>, int, int, int)) -> (
    Seq<usize>,
    int,
    int,
    int,
) {
    let (out, stride, limit, sum) = st;
    let good = i < len && in_rle_run(orig, len, i);
    let boundary = i == len || good || (if orig[i] >= limit { orig[i] - limit } else { limit - orig[i] }) >= 4;
    let (out1, stride1, limit1, sum1) = if boundary {
        let out_c = if stride >= 4 || (stride >= 3 && sum == 0) {
            set_range(out, i - stride, i, stride_value(sum, stride))
        } else {
            out
        };
        (out_c, 0, stride_reference(orig, len, i), 0)
    } else {
        (out, stride, limit, sum)
    };
    if i != len && !good {
        (out1, stride1 + 1, limit1, sum1 + orig[i])
    } else {
        (out1, stride1, limit1, sum1)
    }
}

/// The state of the second pass before position `i`.
pub open spec fn rle_pass(orig: Seq<usize>, len: int, i: int) -> (Seq<usize>, int, int, int)
    decreases i,
{
    if i <= 0 {
        (orig, 0, orig[0] as int, 0)
    } else {
        rle_step(orig, len, i - 1, rle_pass(orig, len, i - 1))
    }
}

/// The histogram after `optimize_huffman_for_rle` on `counts[..n]`.
pub open spec fn rle_optimized(counts: Seq<usize>, n: int) -> Seq<usize> {
    let len = trimmed_len(counts, n);
    if len == 0 {
        counts
    } else {
        rle_pass(counts, len, len + 1).0
    }
}

/// Count `k` lies in a run of equal counts within `counts[..len]` that the RLE codes can
/// encode: at least 5 zeros, or at least 6 of another value.
pub open spec fn in_rle_run(counts: Seq<usize>, len: int, k: int) -> bool {
    exists|a: int, b: int|
        0 <= a <= k < b <= len && b - a >= (if counts[k] == 0 { 5int } else { 6int }) && #[trigger] equal_run(
            counts,
            a,
            b,
            k,
        )
}

/// `counts[a..b]` all equal `counts[k]`.
pub open spec fn equal_run(counts: Seq<usize>, a: int, b: int, k: int) -> bool {
    forall|t: int| a <= t < b ==> #[trigger] counts[t] == counts[k]
}

/// A run never reaches past the trailing zeros of the counts.
proof fn lemma_run_trim(counts: Seq<usize>, trimmed: int, full: int, k: int)
    requires
        0 <= k < trimmed <= full <= counts.len(),
        counts[trimmed - 1] != 0,
        forall|t: int| trimmed <= t < full ==> #[trigger] counts[t] == 0,
        in_rle_run(counts, full, k),
    ensures
        in_rle_run(counts, trimmed, k),
{
    let (a, b) = choose|a: int, b: int|
        0 <= a <= k < b <= full && b - a >= (if counts[k] == 0 { 5int } else { 6int }) && #[trigger] equal_run(
            counts,
            a,
            b,
            k,
        );
    if b > trimmed {
        assert(counts[trimmed - 1] == counts[k]);
        assert(counts[b - 1] == counts[k]);
    }
    assert(0 <= a <= k < b <= trimmed);
    assert(equal_run(counts, a, b, k));
}

proof fn lemma_sum_range_ge(counts: Seq<usize>, a: int, j: int, b: int)
    requires
        0 <= a <= j < b <= counts.len(),
    ensures
        sum_prefix(counts, b) - sum_prefix(counts, a) >= counts[j],
    decreases b - a,
{
    lemma_sum_prefix_mono(counts, a, j);
    lemma_sum_prefix_mono(counts, j + 1, b);
}

/// Changes the population counts so that the Huffman tree that follows, especially its
/// run-length-coded description, compresses better. `length` is the size of the
/// histogram. Trailing zeros are never touched, a used symbol stays used, and a count in a
/// run that the RLE codes can already encode (5 zeros, or 6 of another value) keeps its
/// value.
pub fn optimize_huffman_for_rle(length: usize, counts: &mut Vec<usize>)
    requires
        length <= old(counts)@.len(),
        sum_prefix(old(counts)@, length as int) + length + 4 <= usize::MAX,
    ensures
        final(counts)@.len() == old(counts)@.len(),
        forall|i: int| length <= i < old(counts)@.len() ==> #[trigger] final(counts)@[i] == old(counts)@[i],
        forall|i: int| 0 <= i < length && old(counts)@[i] != 0 ==> #[trigger] final(counts)@[i] != 0,
        forall|i: int|
            0 <= i < length && (forall|k: int| i <= k < length ==> #[trigger] old(counts)@[k] == 0)
                ==> #[trigger] final(counts)@[i] == 0,
        forall|i: int|
            0 <= i < old(counts)@.len() ==> #[trigger] final(counts)@[i] == old(counts)@[i] || final(counts)@[i]
                <= sum_prefix(old(counts)@, length as int) + length,
        forall|i: int| 0 <= i < length && in_rle_run(old(counts)@, length as int, i) ==> #[trigger] final(counts)@[i] == old(
            counts,
        )@[i],
        final(counts)@ == rle_optimized(old(counts)@, length as int),
{
    if length == 0 {
        return;
    }
    let ghost orig = counts@;
    let ghost full_length = length as int;

    // 1) Leave the trailing zeros alone: adding data there could break the format
    // rules for the distance codes.
    let mut length = length;
    while length > 0 && counts[length - 1] == 0
        invariant
            length <= full_length <= orig.len(),
            counts@ == orig,
            forall|k: int| length <= k < full_length ==> #[trigger] orig[k] == 0,
            trimmed_len(orig, length as int) == trimmed_len(orig, full_length),
        decreases length,
    {
        length = length - 1;
    }
    if length == 0 {
        return;
    }
    assert(trimmed_len(orig, full_length) == length);
    proof {
        lemma_sum_prefix_mono(orig, length as int, full_length);
        lemma_sum_prefix_mono(orig, 0, length as int);
    }

    // 2) Mark the counts that already belong to a run that the RLE codes can encode:
    // zeros repeated at least 5 times, other values at least 6 times.
    let mut good_for_rle: Vec<bool> = vec![false; length];
    let mut symbol = counts[0];
    let mut stride: usize = 0;
    let mut i: usize = 0;
    while i <= length
        invariant
            0 < length <= full_length <= orig.len(),
            counts@ == orig,
            good_for_rle@.len() == length,
            length + 4 <= usize::MAX,
            i <= length + 1,
            stride <= i,
            i <= length ==> (stride == 0 <==> i == 0),
            forall|t: int| length <= t < full_length ==> #[trigger] orig[t] == 0,
            i == length + 1 ==> stride == 1,
            i <= length ==> symbol == orig[if i == 0 { 0 } else { i - 1 }],
            i <= length ==> forall|t: int| i - stride <= t < i ==> #[trigger] orig[t] == symbol,
            i <= length && stride > 0 && i - stride > 0 ==> orig[i - stride - 1] != orig[i - stride],
            forall|k: int| 0 <= k < i - stride && in_rle_run(orig, length as int, k) ==> #[trigger] good_for_rle@[k],
            forall|k: int| 0 <= k < length && #[trigger] good_for_rle@[k] ==> k < i - stride && in_rle_run(
                orig,
                length as int,
                k,
            ),
        decreases length + 1 - i,
    {
        if i == length || counts[i] != symbol {
            if (symbol == 0 && stride >= 5) || (symbol != 0 && stride >= 6) {
                let mut k: usize = 0;
                while k < stride
                    invariant
                        stride <= i <= length,
                        k <= stride,
                        good_for_rle@.len() == length,
                        forall|t: int|
                            0 <= t < i - stride && in_rle_run(orig, length as int, t) ==> #[trigger] good_for_rle@[t],
                        forall|t: int| i - k <= t < i ==> #[trigger] good_for_rle@[t],
                        forall|t: int| 0 <= t < length && #[trigger] good_for_rle@[t] ==> (t < i - stride && in_rle_run(
                            orig,
                            length as int,
                            t,
                        )) || (i - k <= t < i),
                    decreases stride - k,
                {
                    good_for_rle.set(i - k - 1, true);
                    k = k + 1;
                }
                proof {
                    assert forall|t: int| i - stride <= t < i implies in_rle_run(orig, length as int, t) by {
                        assert(orig[t] == symbol);
                        assert(equal_run(orig, i - stride, i as int, t));
                    }
                }
            }
            proof {
                assert forall|k: int| 0 <= k < i && in_rle_run(orig, length as int, k) implies #[trigger] good_for_rle@[k] by {
                    if k >= i - stride {
                        let (ra, rb) = choose|ra: int, rb: int|
                            0 <= ra <= k < rb <= length && rb - ra >= (if orig[k] == 0 { 5int } else { 6int })
                                && #[trigger] equal_run(orig, ra, rb, k);
                        assert(orig[k] == symbol);
                        if ra < i - stride {
                            assert(orig[i - stride - 1] == orig[k]);
                            assert(orig[(i - stride) as int] == orig[k]);
                        }
                        if rb > i {
                            assert(orig[i as int] == orig[k]);
                        }
                    }
                }
            }
            stride = 1;
            if i != length {
                symbol = counts[i];
            }
        } else {
            stride = stride + 1;
        }
        i = i + 1;
    }

    // 3) Replace the counts of strides that lead to more RLE codes by their average.
    let mut stride: usize = 0;
    let mut limit = counts[0];
    let mut sum: usize = 0;
    let mut i: usize = 0;
    while i <= length
        invariant
            0 < length <= full_length <= orig.len(),
            orig[length - 1] != 0,
            sum_prefix(orig, full_length) + full_length + 4 <= usize::MAX,
            sum_prefix(orig, length as int) <= sum_prefix(orig, full_length),
            counts@.len() == orig.len(),
            good_for_rle@.len() == length,
            length + 4 <= usize::MAX,
            i <= length + 1,
            stride <= i,
            i <= length ==> stride <= i,
            i == length + 1 ==> stride <= length + 1,
            i <= length ==> sum as int == sum_prefix(orig, i as int) - sum_prefix(orig, (i - stride) as int),
            i <= length ==> i - stride <= length,
            forall|t: int| length <= t < full_length ==> #[trigger] orig[t] == 0,
            forall|k: int| (i - stride) <= k < orig.len() ==> #[trigger] counts@[k] == orig[k],
            forall|k: int| 0 <= k < (i - stride) && k < orig.len() && orig[k] != 0 ==> #[trigger] counts@[k] != 0,
            forall|k: int| length <= k < orig.len() ==> #[trigger] counts@[k] == orig[k],
            forall|k: int|
                0 <= k < orig.len() ==> #[trigger] counts@[k] == orig[k] || counts@[k] <= sum_prefix(orig, full_length)
                    + full_length,
            forall|k: int| 0 <= k < length && in_rle_run(orig, length as int, k) ==> #[trigger] good_for_rle@[k],
            forall|k: int| 0 <= k < length && #[trigger] good_for_rle@[k] ==> counts@[k] == orig[k],
            forall|k: int| i - stride <= k < i && k < length ==> !#[trigger] good_for_rle@[k],
            forall|k: int| 0 <= k < length ==> (#[trigger] good_for_rle@[k] <==> in_rle_run(orig, length as int, k)),
            (counts@, stride as int, limit as int, sum as int) == rle_pass(orig, length as int, i as int),
        decreases length + 1 - i,
    {
        let ghost prev = (counts@, stride as int, limit as int, sum as int);
        if i == length || good_for_rle[i] || abs_diff(counts[i], limit) >= 4 {
            if stride >= 4 || (stride >= 3 && sum == 0) {
                // The stride ends: collapse it, as it is long enough.
                proof {
                    lemma_sum_prefix_mono(orig, 0, (i - stride) as int);
                    lemma_sum_prefix_mono(orig, (i - stride) as int, i as int);
                    lemma_sum_prefix_mono(orig, i as int, length as int);
                }
                let mut count = (sum + stride / 2) / stride;
                if count < 1 {
                    count = 1;
                }
                if sum == 0 {
                    // An all-zero stride stays zero rather than becoming ones.
                    count = 0;
                }
                assert(count <= sum + stride / 2 || count == 1);
                proof {
                    assert forall|j: int| i - stride <= j < i && orig[j] != 0 implies sum > 0 by {
                        lemma_sum_range_ge(orig, (i - stride) as int, j, i as int);
                    }
                }
                let ghost before_c = counts@;
                let mut k: usize = 0;
                while k < stride
                    invariant
                        before_c.len() == orig.len(),
                        forall|j: int|
                            0 <= j < orig.len() ==> #[trigger] counts@[j] == if i - k <= j < i {
                                count
                            } else {
                                before_c[j]
                            },
                        stride <= i <= length,
                        length <= orig.len(),
                        k <= stride,
                        counts@.len() == orig.len(),
                        sum > 0 ==> count >= 1,
                        forall|j: int| (i - stride) <= j < i && orig[j] != 0 ==> sum > 0,
                        forall|j: int| i <= j < orig.len() ==> #[trigger] counts@[j] == orig[j],
                        forall|j: int| (i - stride) <= j < i - k ==> #[trigger] counts@[j] == orig[j],
                        forall|j: int| i - k <= j < i ==> #[trigger] counts@[j] == count,
                        forall|j: int| 0 <= j < (i - stride) && orig[j] != 0 ==> #[trigger] counts@[j] != 0,
                        count <= sum_prefix(orig, full_length) + full_length,
                        forall|j: int|
                            0 <= j < orig.len() ==> #[trigger] counts@[j] == orig[j] || counts@[j] <= sum_prefix(
                                orig,
                                full_length,
                            ) + full_length,
                        good_for_rle@.len() == length,
                        forall|j: int| 0 <= j < length && #[trigger] good_for_rle@[j] ==> counts@[j] == orig[j],
                        forall|j: int| i - stride <= j < i && j < length ==> !#[trigger] good_for_rle@[j],
                    decreases stride - k,
                {
                    // counts[i] already belongs to the next stride, hence the - 1.
                    counts.set(i - k - 1, count);
                    k = k + 1;
                }
                assert(counts@ =~= set_range(before_c, i - stride, i as int, count as int));
            }
            stride = 0;
            sum = 0;
            if length >= 3 && i < length - 3 {
                // All interesting strides have a count of at least 4, at least when
                // non-zeros.
                proof {
                    lemma_sum_range_ge(orig, i as int, i as int, length as int);
                    lemma_sum_range_ge(orig, i as int, i + 1, length as int);
                    lemma_sum_range_ge(orig, i as int, i + 2, length as int);
                    lemma_sum_range_ge(orig, i as int, i + 3, length as int);
                    lemma_sum_prefix_mono(orig, 0, i as int);
                    lemma_sum_four(orig, i as int);
                    lemma_sum_prefix_mono(orig, i + 4, length as int);
                }
                limit = (counts[i] + counts[i + 1] + counts[i + 2] + counts[i + 3] + 2) / 4;
            } else if i < length {
                limit = counts[i];
            } else {
                limit = 0;
            }
        }
        assert(i < length ==> good_for_rle@[i as int] == in_rle_run(orig, length as int, i as int));
        // A count in a run that is good for RLE keeps its value: it starts no stride.
        if i != length && !good_for_rle[i] {
            stride = stride + 1;
            proof {
                lemma_sum_prefix_mono(orig, 0, (i + 1 - stride) as int);
                lemma_sum_prefix_mono(orig, (i + 1 - stride) as int, i + 1);
                lemma_sum_prefix_mono(orig, i + 1, length as int);
            }
            sum = sum + counts[i];
        }
        assert((counts@, stride as int, limit as int, sum as int) == rle_step(orig, length as int, i as int, prev));
        i = i + 1;
    }
    proof {
        assert forall|k: int| 0 <= k < full_length && in_rle_run(orig, full_length, k) implies #[trigger] counts@[k]
            == orig[k] by {
            if k < length {
                lemma_run_trim(orig, length as int, full_length, k);
                assert(good_for_rle@[k]);
            } else {
                assert(counts@[k] == orig[k]);
            }
        }
    }
}

proof fn lemma_sum_four(counts: Seq<usize>, i: int)
    requires
        0 <= i,
        i + 4 <= counts.len(),
    ensures
        sum_prefix(counts, i + 4) - sum_prefix(counts, i) == counts[i] + counts[i + 1] + counts[i + 2]
            + counts[i + 3],
{
    reveal_with_fuel(sum_prefix, 5);
}


/// Largest frequency that leaves room for the symbol index in the low 9 bits, which the
/// stable sort packs into the weight.
pub const MAX_WEIGHT: usize = usize::MAX / 512;

/// Number of `i < n` with `freqs[i] > 0`.
pub open spec fn num_used(freqs: Seq<usize>, n: int) -> nat
    decreases n,
{
    if n <= 0 {
        0
    } else {
        num_used(freqs, n - 1) + if freqs[n - 1] > 0 { 1nat } else { 0nat }
    }
}

/// `length_limited_code_lengths` succeeds on these inputs: `2^maxbits` codes suffice for
/// the used symbols, and with three or more of them every frequency fits the sort packing.
pub open spec fn code_lengths_ok(freqs: Seq<usize>, n: int, maxbits: int) -> bool {
    &&& num_used(freqs, n) <= two_pow(maxbits as nat)
    &&& num_used(freqs, n) >= 3 ==> forall|i: int| 0 <= i < n ==> #[trigger] freqs[i] <= MAX_WEIGHT
}

/// The leaves are the used symbols, in some order.
spec fn leaves_ok(leaves: Seq<Node>, freqs: Seq<usize>, n: int) -> bool {
    forall|l: int|
        0 <= l < leaves.len() ==> {
            &&& 0 <= #[trigger] leaves[l].count < n
            &&& freqs[leaves[l].count as int] > 0
        }
}

/// Each leaf's weight is its frequency with the symbol index packed into the low 9 bits.
spec fn packed_ok(leaves: Seq<Node>, freqs: Seq<usize>) -> bool {
    forall|l: int|
        0 <= l < leaves.len() ==> (#[trigger] leaves[l]).weight == freqs[leaves[l].count as int] * 512
            + leaves[l].count
}

/// The leaves come in order of frequency.
spec fn leaves_by_frequency(leaves: Seq<Node>, freqs: Seq<usize>) -> bool {
    forall|a: int, b: int|
        0 <= a < b < leaves.len() ==> freqs[(#[trigger] leaves[a]).count as int] <= freqs[(#[trigger] leaves[b]).count as int]
}

/// No two leaves stand for the same symbol.
spec fn leaves_distinct(leaves: Seq<Node>) -> bool {
    forall|a: int, b: int| 0 <= a < b < leaves.len() ==> (#[trigger] leaves[a]).count != (#[trigger] leaves[b]).count
}

/// Changing the weight of one leaf keeps the leaves distinct.
proof fn lemma_distinct_keep(before: Seq<Node>, after: Seq<Node>, k: int)
    requires
        leaves_distinct(before),
        0 <= k < before.len(),
        after.len() == before.len(),
        after[k].count == before[k].count,
        forall|x: int| 0 <= x < before.len() && x != k ==> after[x] == before[x],
    ensures
        leaves_distinct(after),
{
    assert forall|a: int, b: int| 0 <= a < b < after.len() implies (#[trigger] after[a]).count != (#[trigger] after[b]).count by {
        assert(after[a].count == before[a].count);
        assert(after[b].count == before[b].count);
        assert(before[a].count != before[b].count);
    }
}

/// The pool and the lists are consistent: list entries and tails point into the pool and
/// every count is at most the number of leaves.
spec fn pm_wf(pool: NodePool, lists: Seq<[usize; 2]>, numsymbols: int, maxbits: int) -> bool {
    &&& lists.len() == maxbits
    &&& pool.next_index <= pool.nodes@.len()
    &&& forall|i: int|
        0 <= i < maxbits ==> {
            &&& (#[trigger] lists[i])[0] < pool.next_index
            &&& lists[i][1] < pool.next_index
            &&& pool.nodes@[lists[i][0] as int].count >= 1
            &&& pool.nodes@[lists[i][1] as int].count >= 2
        }
    &&& forall|x: int|
        0 <= x < pool.nodes@.len() ==> {
            &&& 0 <= #[trigger] pool.nodes@[x].count <= numsymbols
            &&& pool.nodes@[x].tail == usize::MAX || pool.nodes@[x].tail < pool.nodes@.len()
        }
}

/// Initializes a chain node with the given values.
fn init_node(weight: usize, count: i32, tail: usize, node: &mut Node)
    ensures
        *final(node) == (Node { weight, tail, count }),
{
    node.weight = weight;
    node.count = count;
    node.tail = tail;
}

/// `2^k` for small `k`.
fn pow2_small(k: usize) -> (r: usize)
    requires
        k <= 15,
    ensures
        r as nat == two_pow(k as nat),
        r <= 32768,
{
    let mut r: usize = 1;
    let mut i: usize = 0;
    proof {
        reveal_with_fuel(two_pow, 16);
    }
    while i < k
        invariant
            i <= k <= 15,
            r as nat == two_pow(i as nat),
            two_pow(15) == 32768,
        decreases k - i,
    {
        proof {
            lemma_two_pow_monotone((i + 1) as nat, 15);
            assert(two_pow((i + 1) as nat) == 2 * two_pow(i as nat));
        }
        r = r * 2;
        i = i + 1;
    }
    proof {
        lemma_two_pow_monotone(k as nat, 15);
    }
    r
}

proof fn lemma_two_pow_ge1(k: nat)
    ensures
        two_pow(k) >= 1,
    decreases k,
{
    if k > 0 {
        lemma_two_pow_ge1((k - 1) as nat);
    }
}

/// Initializes each list with the two lightest leaves as lookahead chains.
fn init_lists(pool: &mut NodePool, leaves: &Vec<Node>, maxbits: usize, lists: &mut Vec<[usize; 2]>)
    requires
        old(pool).next_index == 0,
        leaves@.len() >= 3,
        forall|x: int|
            0 <= x < old(pool).nodes@.len() ==> 0 <= #[trigger] old(pool).nodes@[x].count <= leaves@.len()
                && (old(pool).nodes@[x].tail == usize::MAX || old(pool).nodes@[x].tail < old(pool).nodes@.len()),
        old(lists)@.len() == maxbits,
    ensures
        pm_wf(*final(pool), final(lists)@, leaves@.len() as int, maxbits as int),
        final(pool).next_index == 2,
{
    let node0 = pool.allocate();
    let node1 = pool.allocate();
    init_node(leaves[0].weight, 1, usize::MAX, pool.get_mut(node0));
    init_node(leaves[1].weight, 2, usize::MAX, pool.get_mut(node1));
    let mut i: usize = 0;
    while i < maxbits
        invariant
            i <= maxbits,
            lists@.len() == maxbits,
            node0 < pool.nodes@.len(),
            node1 < pool.nodes@.len(),
            forall|j: int| 0 <= j < i ==> #[trigger] lists@[j] == [node0, node1],
        decreases maxbits - i,
    {
        lists.set(i, [node0, node1]);
        i = i + 1;
    }
}


/// Performs one boundary package-merge step on list `index`.
fn boundary_pm(lists: &mut Vec<[usize; 2]>, leaves: &Vec<Node>, numsymbols: usize, pool: &mut NodePool, index: usize)
    requires
        pm_wf(*old(pool), old(lists)@, numsymbols as int, old(lists)@.len() as int),
        index < old(lists)@.len(),
        numsymbols == leaves@.len(),
        numsymbols <= 512,
        old(pool).next_index + two_pow((index + 1) as nat) <= usize::MAX,
    ensures
        pm_wf(*final(pool), final(lists)@, numsymbols as int, old(lists)@.len() as int),
        final(pool).next_index + 1 <= old(pool).next_index + two_pow((index + 1) as nat),
    decreases index,
{
    let ghost maxbits = lists@.len() as int;
    let lastcount = pool.get(lists[index][1]).count as usize;

    if index == 0 && lastcount >= numsymbols {
        proof {
            lemma_two_pow_ge1(0);
            assert(two_pow(1) == 2 * two_pow(0));
        }
        return;
    }

    proof {
        lemma_two_pow_ge1((index + 1) as nat);
    }
    let newchain = pool.allocate();
    let oldchain = lists[index][1];

    // Set up before the recursive calls below, so that a list points to the new node.
    lists.set(index, [oldchain, newchain]);

    if index == 0 {
        // A new leaf node in list 0.
        let leaf_weight = leaves[lastcount].weight;
        init_node(leaf_weight, (lastcount + 1) as i32, usize::MAX, pool.get_mut(newchain));
        proof {
            lemma_two_pow_ge1(0);
            assert(two_pow(1) == 2 * two_pow(0));
        }
    } else {
        let w0 = pool.get(lists[index - 1][0]).weight;
        let w1 = pool.get(lists[index - 1][1]).weight;
        let sum = w0.saturating_add(w1);
        if lastcount < numsymbols && sum > leaves[lastcount].weight {
            // A new leaf inserted in the list, so the count goes up.
            let leaf_weight = leaves[lastcount].weight;
            let oldchain_tail = pool.get(oldchain).tail;
            init_node(leaf_weight, (lastcount + 1) as i32, oldchain_tail, pool.get_mut(newchain));
            proof {
                lemma_two_pow_ge1(index as nat);
                assert(two_pow((index + 1) as nat) == 2 * two_pow(index as nat));
            }
        } else {
            let prev_list_1 = lists[index - 1][1];
            init_node(sum, lastcount as i32, prev_list_1, pool.get_mut(newchain));
            proof {
                lemma_two_pow_ge1((index - 1) as nat);
                assert(two_pow((index + 1) as nat) == 2 * two_pow(index as nat));
                assert(two_pow(index as nat) == 2 * two_pow((index - 1) as nat));
            }
            // The two lookahead chains of the previous list are used up: make new ones.
            boundary_pm(lists, leaves, numsymbols, pool, index - 1);
            boundary_pm(lists, leaves, numsymbols, pool, index - 1);
        }
    }
}

/// The last boundary package-merge step, which does not make the lookahead chains that
/// would no longer be used.
fn boundary_pm_final(lists: &mut Vec<[usize; 2]>, leaves: &Vec<Node>, numsymbols: usize, pool: &mut NodePool, index: usize)
    requires
        pm_wf(*old(pool), old(lists)@, numsymbols as int, old(lists)@.len() as int),
        1 <= index < old(lists)@.len(),
        numsymbols == leaves@.len(),
        numsymbols <= 512,
        old(pool).next_index < usize::MAX,
    ensures
        pm_wf(*final(pool), final(lists)@, numsymbols as int, old(lists)@.len() as int),
{
    let lastcount = pool.get(lists[index][1]).count as usize;
    let w0 = pool.get(lists[index - 1][0]).weight;
    let w1 = pool.get(lists[index - 1][1]).weight;
    let sum = w0.saturating_add(w1);

    if lastcount < numsymbols && sum > leaves[lastcount].weight {
        let oldchain_tail = pool.get(lists[index][1]).tail;
        let newchain = pool.allocate();
        let old0 = lists[index][0];
        lists.set(index, [old0, newchain]);
        init_node(0, (lastcount + 1) as i32, oldchain_tail, pool.get_mut(newchain));
    } else {
        let prev_list_1 = lists[index - 1][1];
        let last = lists[index][1];
        pool.get_mut(last).tail = prev_list_1;
    }
}

/// Converts the result of boundary package-merge to bit lengths. The chain that ends the
/// last list is walked through at most `maxbits` nodes, one per list; the leaves it
/// covers in each list get one more bit.
fn extract_bit_lengths(chain_idx: usize, leaves: &Vec<Node>, pool: &NodePool, maxbits: usize, bitlengths: &mut Vec<u32>)
    requires
        1 <= maxbits <= 15,
        pm_wf(*pool, Seq::<[usize; 2]>::empty(), leaves@.len() as int, 0),
        chain_idx < pool.nodes@.len(),
        forall|l: int| 0 <= l < leaves@.len() ==> 0 <= #[trigger] leaves@[l].count < old(bitlengths)@.len(),
        leaves_distinct(leaves@),
    ensures
        forall|l: int, l2: int|
            0 <= l < l2 < pool.nodes@[chain_idx as int].count && l2 < leaves@.len() ==> final(bitlengths)@[(
            #[trigger] leaves@[l]).count as int] >= final(bitlengths)@[(#[trigger] leaves@[l2]).count as int],
        final(bitlengths)@.len() == old(bitlengths)@.len(),
        forall|i: int|
            0 <= i < old(bitlengths)@.len() ==> #[trigger] final(bitlengths)@[i] == old(bitlengths)@[i] || (1
                <= final(bitlengths)@[i] <= maxbits && exists|l: int| 0 <= l < leaves@.len() && l < pool.nodes@[chain_idx as int].count && leaves@[l].count == i),
        forall|l: int|
            0 <= l < pool.nodes@[chain_idx as int].count && l < leaves@.len() ==> 1
                <= #[trigger] final(bitlengths)@[leaves@[l].count as int] <= maxbits,
{
    let ghost c15 = pool.nodes@[chain_idx as int].count as int;
    let pool_size = pool.nodes.len();
    assert(chain_idx != usize::MAX);
    let mut counts: Vec<i32> = vec![0i32; 16];
    let mut end: usize = 16;
    let mut ptr: usize = 15;
    let mut value: u32 = 1;
    let numsymbols = leaves.len();

    // Walk the chain to fill the counts.
    let mut node_idx = chain_idx;
    while node_idx != usize::MAX && end > 16 - maxbits
        invariant
            1 <= maxbits <= 15,
            16 - maxbits <= end <= 16,
            counts@.len() == 16,
            node_idx == usize::MAX || node_idx < pool.nodes@.len(),
            pm_wf(*pool, Seq::<[usize; 2]>::empty(), numsymbols as int, 0),
            numsymbols == leaves@.len(),
            forall|j: int| 0 <= j < 16 ==> 0 <= #[trigger] counts@[j] <= numsymbols,
            forall|j: int| 0 <= j < end ==> #[trigger] counts@[j] == 0,
            end == 16 ==> node_idx == chain_idx,
            end < 16 ==> counts@[15] == c15,
            chain_idx < pool.nodes@.len(),
            c15 == pool.nodes@[chain_idx as int].count,
        decreases end,
    {
        let node = pool.get(node_idx);
        end = end - 1;
        counts.set(end, node.count);
        node_idx = node.tail;
    }

    assert(end < 16);
    let mut val = counts[15];
    while ptr >= end
        invariant
            forall|j: int| 0 <= j < end ==> #[trigger] counts@[j] == 0,
            val <= c15 <= numsymbols,
            ptr + 1 == end ==> val == 0,
            forall|l: int, l2: int|
                val <= l < l2 < c15 ==> bitlengths@[(#[trigger] leaves@[l]).count as int] >= bitlengths@[(
                #[trigger] leaves@[l2]).count as int],
            forall|l: int| val <= l < c15 ==> bitlengths@[(#[trigger] leaves@[l]).count as int] <= value,
            leaves_distinct(leaves@),
            c15 == pool.nodes@[chain_idx as int].count,
            forall|l: int|
                val <= l < c15 ==> 1 <= #[trigger] bitlengths@[leaves@[l].count as int] <= maxbits,
            1 <= maxbits <= 15,
            16 - maxbits <= end <= 16,
            1 <= end,
            ptr <= 15,
            end <= ptr + 1,
            value as int == 16 - ptr,
            counts@.len() == 16,
            0 <= val <= numsymbols,
            numsymbols == leaves@.len(),
            forall|j: int| 0 <= j < 16 ==> 0 <= #[trigger] counts@[j] <= numsymbols,
            forall|l: int| 0 <= l < leaves@.len() ==> 0 <= #[trigger] leaves@[l].count < old(bitlengths)@.len(),
            bitlengths@.len() == old(bitlengths)@.len(),
            forall|i: int|
                0 <= i < old(bitlengths)@.len() ==> #[trigger] bitlengths@[i] == old(bitlengths)@[i] || (1
                    <= bitlengths@[i] <= maxbits && exists|l: int| 0 <= l < leaves@.len() && l < pool.nodes@[chain_idx as int].count && leaves@[l].count == i),
        decreases ptr + 1,
    {
        while val > counts[ptr - 1]
            invariant
                forall|j: int| 0 <= j < end ==> #[trigger] counts@[j] == 0,
                val <= c15 <= numsymbols,
                forall|l: int|
                    val <= l < c15 ==> 1 <= #[trigger] bitlengths@[leaves@[l].count as int] <= maxbits,
                forall|l: int, l2: int|
                    val <= l < l2 < c15 ==> bitlengths@[(#[trigger] leaves@[l]).count as int] >= bitlengths@[(
                    #[trigger] leaves@[l2]).count as int],
                forall|l: int| val <= l < c15 ==> bitlengths@[(#[trigger] leaves@[l]).count as int] <= value,
                leaves_distinct(leaves@),
                c15 == pool.nodes@[chain_idx as int].count,
                1 <= maxbits <= 15,
                1 <= end <= ptr <= 15,
                16 - maxbits <= end,
                value as int == 16 - ptr,
                counts@.len() == 16,
                0 <= val <= numsymbols,
                numsymbols == leaves@.len(),
                forall|j: int| 0 <= j < 16 ==> 0 <= #[trigger] counts@[j] <= numsymbols,
                forall|l: int| 0 <= l < leaves@.len() ==> 0 <= #[trigger] leaves@[l].count < old(bitlengths)@.len(),
                bitlengths@.len() == old(bitlengths)@.len(),
                forall|i: int|
                    0 <= i < old(bitlengths)@.len() ==> #[trigger] bitlengths@[i] == old(bitlengths)@[i] || (1
                        <= bitlengths@[i] <= maxbits && exists|l: int| 0 <= l < leaves@.len() && l < pool.nodes@[chain_idx as int].count && leaves@[l].count == i),
            decreases val,
        {
            let sym = leaves[(val - 1) as usize].count as usize;
            let ghost old_bl = bitlengths@;
            bitlengths.set(sym, value);
            proof {
                let l = (val - 1) as int;
                assert forall|x: int| val <= x < c15 implies bitlengths@[(#[trigger] leaves@[x]).count as int]
                    == old_bl[leaves@[x].count as int] by {
                    assert(leaves@[x].count != leaves@[l].count);
                }
                assert forall|i: int| 0 <= i < old(bitlengths)@.len() implies #[trigger] bitlengths@[i] == old(bitlengths)@[i]
                    || (1 <= bitlengths@[i] <= maxbits && exists|l2: int| 0 <= l2 < leaves@.len() && l2 < pool.nodes@[chain_idx as int].count && leaves@[l2].count == i) by {
                    if i == sym {
                        assert(leaves@[l].count == i);
                    }
                }
            }
            val = val - 1;
        }
        ptr = ptr - 1;
        value = value + 1;
    }
}


/// Why `length_limited_code_lengths` could not build a code.
#[derive(Debug, Clone, Copy, PartialEq, Eq, Structural)]
pub enum HuffmanError {
    /// `2^maxbits` is less than the number of used symbols.
    TooManyBitsForAlphabet,
    /// A frequency is too large to pack the symbol index beside it for the stable sort.
    WeightOverflow,
}

/// Sorts the leaves by weight, lightest first.
fn sort_leaves(leaves: &mut Vec<Node>, Ghost(freqs): Ghost<Seq<usize>>, Ghost(n): Ghost<int>)
    requires
        leaves_ok(old(leaves)@, freqs, n),
        leaves_distinct(old(leaves)@),
        packed_ok(old(leaves)@, freqs),
    ensures
        packed_ok(final(leaves)@, freqs),
        final(leaves)@.len() == old(leaves)@.len(),
        leaves_ok(final(leaves)@, freqs, n),
        leaves_distinct(final(leaves)@),
        forall|a: int, b: int| 0 <= a < b < final(leaves)@.len() ==> (#[trigger] final(leaves)@[a]).weight <= (
        #[trigger] final(leaves)@[b]).weight,
{
    let len = leaves.len();
    if len == 0 {
        return;
    }
    let mut i: usize = 1;
    while i < len
        invariant
            1 <= i <= len,
            leaves@.len() == len,
            leaves_ok(leaves@, freqs, n),
            leaves_distinct(leaves@),
            packed_ok(leaves@, freqs),
            forall|a: int, b: int| 0 <= a < b < i ==> (#[trigger] leaves@[a]).weight <= (#[trigger] leaves@[b]).weight,
        decreases len - i,
    {
        let mut j = i;
        while j > 0 && leaves[j - 1].weight > leaves[j].weight
            invariant
                j <= i < len,
                leaves@.len() == len,
                leaves_ok(leaves@, freqs, n),
                leaves_distinct(leaves@),
                packed_ok(leaves@, freqs),
                forall|a: int, b: int|
                    0 <= a < b <= i && a != j && b != j ==> (#[trigger] leaves@[a]).weight <= (#[trigger] leaves@[b]).weight,
                forall|b: int| j < b <= i ==> leaves@[j as int].weight <= (#[trigger] leaves@[b]).weight,
            decreases j,
        {
            let a = leaves[j - 1];
            let b = leaves[j];
            let ghost before = leaves@;
            leaves.set(j - 1, b);
            leaves.set(j, a);
            proof {
                assert(leaves@ =~= before.update(j - 1, before[j as int]).update(j as int, before[j - 1]));
                assert forall|x: int, y: int| 0 <= x < y < leaves@.len() implies (#[trigger] leaves@[x]).count
                    != (#[trigger] leaves@[y]).count by {
                    let fx = if x == j - 1 { j as int } else if x == j { j - 1 } else { x };
                    let fy = if y == j - 1 { j as int } else if y == j { j - 1 } else { y };
                    assert(leaves@[x] == before[fx]);
                    assert(leaves@[y] == before[fy]);
                    if fx < fy {
                        assert(before[fx].count != before[fy].count);
                    } else {
                        assert(before[fy].count != before[fx].count);
                    }
                }
            }
            j = j - 1;
        }
        i = i + 1;
    }
}

/// The Kraft sum of the codes of the used symbols among the first `n`, scaled by
/// `2^maxbits`: `Σ 2^(maxbits - lengths[i])` over the `i < n` with `freqs[i] > 0`. A prefix
/// code with lengths at most `maxbits` has a sum of at most `2^maxbits`.
pub open spec fn kraft_sum(freqs: Seq<usize>, lengths: Seq<u32>, n: int, maxbits: nat) -> int
    decreases n,
{
    if n <= 0 {
        0
    } else {
        kraft_sum(freqs, lengths, n - 1, maxbits) + if freqs[n - 1] > 0 {
            two_pow((maxbits - lengths[n - 1]) as nat) as int
        } else {
            0
        }
    }
}

/// The Kraft sum only reads the lengths of used symbols.
pub proof fn lemma_kraft_frame(freqs: Seq<usize>, l1: Seq<u32>, l2: Seq<u32>, n: int, maxbits: nat)
    requires
        0 <= n,
        forall|i: int| 0 <= i < n && freqs[i] > 0 ==> #[trigger] l1[i] == l2[i],
    ensures
        kraft_sum(freqs, l1, n, maxbits) == kraft_sum(freqs, l2, n, maxbits),
    decreases n,
{
    if n > 0 {
        lemma_kraft_frame(freqs, l1, l2, n - 1, maxbits);
    }
}

/// Fewer used symbols give a smaller Kraft sum.
pub proof fn lemma_kraft_subset(f1: Seq<usize>, f2: Seq<usize>, l: Seq<u32>, n: int, maxbits: nat)
    requires
        0 <= n,
        forall|i: int| 0 <= i < n && f1[i] > 0 ==> #[trigger] f2[i] > 0,
    ensures
        kraft_sum(f1, l, n, maxbits) <= kraft_sum(f2, l, n, maxbits),
    decreases n,
{
    if n > 0 {
        lemma_kraft_subset(f1, f2, l, n - 1, maxbits);
    }
}

/// With one length `c` for every used symbol, the Kraft sum is `num_used · 2^(maxbits - c)`.
proof fn lemma_kraft_uniform(freqs: Seq<usize>, lengths: Seq<u32>, n: int, maxbits: nat, c: nat)
    requires
        0 <= n,
        c <= maxbits,
        forall|i: int| 0 <= i < n && freqs[i] > 0 ==> #[trigger] lengths[i] == c,
    ensures
        kraft_sum(freqs, lengths, n, maxbits) == num_used(freqs, n) * two_pow((maxbits - c) as nat),
    decreases n,
{
    if n > 0 {
        lemma_kraft_uniform(freqs, lengths, n - 1, maxbits, c);
        let u = num_used(freqs, n - 1) as int;
        let t = two_pow((maxbits - c) as nat) as int;
        assert((u + 1) * t == u * t + t) by (nonlinear_arith);
        if freqs[n - 1] > 0 {
            assert(lengths[n - 1] == c);
            assert(two_pow((maxbits - lengths[n - 1]) as nat) == t);
            assert(num_used(freqs, n) == u + 1);
        } else {
            assert(num_used(freqs, n) == u);
        }
    } else {
        let t = two_pow((maxbits - c) as nat) as int;
        assert(0 * t == 0) by (nonlinear_arith);
    }
}

/// Whether the lengths make a complete prefix code of the used symbols: each used symbol
/// has a length in `1..=maxbits`, and the Kraft sum is exactly `2^maxbits`.
fn code_is_complete(freqs: &[usize], n: usize, maxbits: usize, bitlengths: &Vec<u32>) -> (r: bool)
    requires
        n <= freqs@.len(),
        n <= bitlengths@.len(),
        n <= 512,
        maxbits <= 15,
    ensures
        r ==> forall|i: int| 0 <= i < n && freqs@[i] > 0 ==> 1 <= #[trigger] bitlengths@[i] <= maxbits,
        r ==> kraft_sum(freqs@, bitlengths@, n as int, maxbits as nat) == two_pow(maxbits as nat),
{
    let mut sum: usize = 0;
    let mut i: usize = 0;
    while i < n
        invariant
            i <= n <= freqs@.len(),
            n <= bitlengths@.len(),
            n <= 512,
            maxbits <= 15,
            sum as int == kraft_sum(freqs@, bitlengths@, i as int, maxbits as nat),
            sum <= i * 32768,
            forall|k: int| 0 <= k < i && freqs@[k] > 0 ==> 1 <= #[trigger] bitlengths@[k] <= maxbits,
        decreases n - i,
    {
        if freqs[i] > 0 {
            let l = bitlengths[i] as usize;
            if l == 0 || l > maxbits {
                return false;
            }
            let t = pow2_small(maxbits - l);
            sum = sum + t;
        }
        i = i + 1;
    }
    sum == pow2_small(maxbits)
}

/// Gives every used symbol the length `m`.
fn uniform_code(freqs: &[usize], n: usize, m: u32, bitlengths: &mut Vec<u32>)
    requires
        n <= freqs@.len(),
        n <= old(bitlengths)@.len(),
    ensures
        final(bitlengths)@.len() == old(bitlengths)@.len(),
        forall|i: int|
            0 <= i < old(bitlengths)@.len() ==> #[trigger] final(bitlengths)@[i] == if i < n && freqs@[i] > 0 {
                m
            } else {
                old(bitlengths)@[i]
            },
{
    let mut i: usize = 0;
    while i < n
        invariant
            i <= n <= freqs@.len(),
            n <= old(bitlengths)@.len(),
            bitlengths@.len() == old(bitlengths)@.len(),
            forall|k: int|
                0 <= k < old(bitlengths)@.len() ==> #[trigger] bitlengths@[k] == if k < i && freqs@[k] > 0 {
                    m
                } else {
                    old(bitlengths)@[k]
                },
        decreases n - i,
    {
        if freqs[i] > 0 {
            bitlengths.set(i, m);
        }
        i = i + 1;
    }
}

/// Keeps the lengths when they form a complete prefix code of the used symbols, else gives
/// every used symbol the same length, the shortest that fits `numsymbols` of them. Returns
/// whether it did the latter.
fn complete_or_uniform(
    freqs: &[usize],
    n: usize,
    limit_bits: usize,
    numsymbols: usize,
    bitlengths: &mut Vec<u32>,
) -> (uniform: bool)
    requires
        n <= freqs@.len(),
        n <= old(bitlengths)@.len(),
        n <= 512,
        limit_bits <= 15,
        num_used(freqs@, n as int) == numsymbols,
        numsymbols <= two_pow(limit_bits as nat),
        numsymbols >= 1,
        limit_bits >= 1,
    ensures
        final(bitlengths)@.len() == old(bitlengths)@.len(),
        !uniform ==> final(bitlengths)@ == old(bitlengths)@,
        !uniform ==> kraft_sum(freqs@, final(bitlengths)@, n as int, limit_bits as nat) == two_pow(limit_bits as nat),
        uniform ==> forall|i: int, j: int|
            0 <= i < n && 0 <= j < n && freqs@[i] > 0 && freqs@[j] > 0 ==> #[trigger] final(bitlengths)@[i]
                == #[trigger] final(bitlengths)@[j],
        forall|i: int|
            0 <= i < old(bitlengths)@.len() && !(i < n && freqs@[i] > 0) ==> #[trigger] final(bitlengths)@[i] == old(
                bitlengths,
            )@[i],
        forall|i: int| 0 <= i < n && freqs@[i] > 0 ==> 1 <= #[trigger] final(bitlengths)@[i] <= limit_bits,
        kraft_sum(freqs@, final(bitlengths)@, n as int, limit_bits as nat) <= two_pow(limit_bits as nat),
{
    if code_is_complete(freqs, n, limit_bits, bitlengths) {
        return false;
    }
    {
        let ghost kept = bitlengths@;
        let mut m: usize = 1;
        while pow2_small(m) < numsymbols
            invariant
                1 <= m <= limit_bits <= 15,
                numsymbols <= two_pow(limit_bits as nat),
            decreases limit_bits - m,
        {
            proof {
                if m == limit_bits {
                    assert(two_pow(m as nat) >= numsymbols);
                }
            }
            m = m + 1;
        }
        let ghost before_uniform = bitlengths@;
        uniform_code(freqs, n, m as u32, bitlengths);
        proof {
            lemma_kraft_uniform(freqs@, bitlengths@, n as int, limit_bits as nat, m as nat);
            lemma_two_pow_adds(m as nat, (limit_bits - m) as nat);
            assert(m as nat + (limit_bits - m) as nat == limit_bits as nat);
            let u = num_used(freqs@, n as int) as int;
            assert(u * two_pow((limit_bits - m) as nat) <= two_pow(m as nat) * two_pow((limit_bits - m) as nat))
                by (nonlinear_arith)
                requires u <= two_pow(m as nat);
        }
    }
    true
}

/// Outputs minimum-redundancy length-limited code bit lengths for symbols with the
/// given counts, limited to `maxbits` bits.
///
/// The output is tailored for DEFLATE: symbols that never occur get a bit length of 0,
/// and if only one symbol occurs, its bit length is 1, not the 0 a single symbol would
/// need in theory.
#[verifier::rlimit(80)]
pub fn length_limited_code_lengths(frequencies: &[usize], n: usize, maxbits: usize, bitlengths: &mut Vec<u32>) -> (r: Result<(), HuffmanError>)
    requires
        n <= frequencies@.len(),
        n <= old(bitlengths)@.len(),
        n <= 512,
        maxbits <= 15,
    ensures
        final(bitlengths)@.len() == old(bitlengths)@.len(),
        forall|i: int| n <= i < old(bitlengths)@.len() ==> #[trigger] final(bitlengths)@[i] == old(bitlengths)@[i],
        r == Err::<(), HuffmanError>(HuffmanError::TooManyBitsForAlphabet) <==> num_used(frequencies@, n as int) > two_pow(maxbits as nat),
        r == Err::<(), HuffmanError>(HuffmanError::WeightOverflow) <==> num_used(frequencies@, n as int) <= two_pow(maxbits as nat)
            && !code_lengths_ok(frequencies@, n as int, maxbits as int),
        r is Ok <==> code_lengths_ok(frequencies@, n as int, maxbits as int),
        r is Err ==> forall|i: int| 0 <= i < n ==> #[trigger] final(bitlengths)@[i] == 0,
        r is Ok ==> forall|i: int| 0 <= i < n ==> #[trigger] final(bitlengths)@[i] <= if maxbits == 0 { 1 } else { maxbits },
        r is Ok ==> forall|i: int| 0 <= i < n && frequencies@[i] == 0 ==> #[trigger] final(bitlengths)@[i] == 0,
        r is Ok && num_used(frequencies@, n as int) >= 3 ==> forall|i: int, j: int|
            0 <= i < n && 0 <= j < n && frequencies@[i] < frequencies@[j] && #[trigger] final(bitlengths)@[i] >= 1
                && #[trigger] final(bitlengths)@[j] >= 1 ==> final(bitlengths)@[j] <= final(bitlengths)@[i],
        r is Ok && num_used(frequencies@, n as int) <= 2 ==> forall|i: int|
            0 <= i < n ==> #[trigger] final(bitlengths)@[i] == if frequencies@[i] > 0 { 1u32 } else { 0u32 },
        r is Ok ==> forall|i: int| 0 <= i < n && frequencies@[i] > 0 ==> #[trigger] final(bitlengths)@[i] >= 1,
        r is Ok && maxbits >= 1 ==> kraft_sum(frequencies@, final(bitlengths)@, n as int, maxbits as nat) <= two_pow(
            maxbits as nat,
        ),
        r is Ok && maxbits >= 1 && num_used(frequencies@, n as int) >= 2 ==> kraft_sum(
            frequencies@,
            final(bitlengths)@,
            n as int,
            maxbits as nat,
        ) == two_pow(maxbits as nat) || forall|i: int, j: int|
            0 <= i < n && 0 <= j < n && frequencies@[i] > 0 && frequencies@[j] > 0 ==> #[trigger] final(bitlengths)@[i]
                == #[trigger] final(bitlengths)@[j],
{
    // Initialize all bit lengths at 0.
    let mut i: usize = 0;
    while i < n
        invariant
            i <= n <= old(bitlengths)@.len(),
            bitlengths@.len() == old(bitlengths)@.len(),
            forall|k: int| n <= k < old(bitlengths)@.len() ==> #[trigger] bitlengths@[k] == old(bitlengths)@[k],
            forall|k: int| 0 <= k < i ==> #[trigger] bitlengths@[k] == 0,
        decreases n - i,
    {
        bitlengths.set(i, 0);
        i = i + 1;
    }

    let ghost zeroed = bitlengths@;
    // Count the used symbols and place them in the leaves.
    let mut leaves: Vec<Node> = Vec::new();
    let mut i: usize = 0;
    while i < n
        invariant
            i <= n <= frequencies@.len(),
            n <= 512,
            leaves@.len() == num_used(frequencies@, i as int),
            leaves@.len() <= i,
            bitlengths@ == zeroed,
            zeroed.len() == old(bitlengths)@.len(),
            forall|q: int| n <= q < old(bitlengths)@.len() ==> #[trigger] zeroed[q] == old(bitlengths)@[q],
            forall|q: int| 0 <= q < n ==> #[trigger] zeroed[q] == 0,
            leaves_ok(leaves@, frequencies@, n as int),
            forall|l: int| 0 <= l < leaves@.len() ==> (#[trigger] leaves@[l]).count < i,
            forall|l: int| 0 <= l < leaves@.len() ==> (#[trigger] leaves@[l]).weight == frequencies@[leaves@[l].count as int],
            forall|l: int, m: int| 0 <= l < m < leaves@.len() ==> (#[trigger] leaves@[l]).count < (#[trigger] leaves@[m]).count,
            forall|k: int| 0 <= k < i && frequencies@[k] > 0 ==> exists|l: int| 0 <= l < leaves@.len() && (#[trigger] leaves@[l]).count == k,
        decreases n - i,
    {
        let ghost before = leaves@;
        if frequencies[i] > 0 {
            leaves.push(Node { weight: frequencies[i], count: i as i32, tail: usize::MAX });
        }
        proof {
            assert forall|k: int| 0 <= k < i + 1 && frequencies@[k] > 0 implies exists|l: int| 0 <= l < leaves@.len() && (#[trigger] leaves@[l]).count == k by {
                if k < i {
                    let l = choose|l: int| 0 <= l < before.len() && (#[trigger] before[l]).count == k;
                    assert(leaves@[l] == before[l]);
                } else {
                    let last = leaves@.len() - 1;
                    assert(leaves@[last].count == k);
                }
            }
        }
        i = i + 1;
    }
    let numsymbols = leaves.len();
    assert(leaves_distinct(leaves@));

    // Check the special cases and the error conditions.
    let maxbits_pow = pow2_small(maxbits);
    if maxbits_pow < numsymbols {
        return Err(HuffmanError::TooManyBitsForAlphabet);
    }
    if numsymbols == 0 {
        // No symbols at all: all lengths stay 0.
        proof {
            assert forall|k: int| 0 <= k < n implies frequencies@[k] == 0 by {
                if frequencies@[k] > 0 {
                    let l = choose|l: int| 0 <= l < leaves@.len() && (#[trigger] leaves@[l]).count == k;
                }
            }
        }
        proof {
            lemma_kraft_uniform(frequencies@, bitlengths@, n as int, maxbits as nat, 0);
        }
        return Ok(());
    }
    if numsymbols == 1 {
        // A single symbol gets bit length 1, not 0.
        bitlengths.set(leaves[0].count as usize, 1);
        proof {
            lemma_used_symbols(leaves@, frequencies@, n as int);
        }
        proof {
            if maxbits >= 1 {
                lemma_kraft_uniform(frequencies@, bitlengths@, n as int, maxbits as nat, 1);
                assert(two_pow(maxbits as nat) == 2 * two_pow((maxbits - 1) as nat));
            }
        }
        return Ok(());
    }
    if numsymbols == 2 {
        bitlengths.set(leaves[0].count as usize, 1);
        bitlengths.set(leaves[1].count as usize, 1);
        proof {
            lemma_used_symbols(leaves@, frequencies@, n as int);
        }
        proof {
            if maxbits >= 1 {
                lemma_kraft_uniform(frequencies@, bitlengths@, n as int, maxbits as nat, 1);
                assert(two_pow(maxbits as nat) == 2 * two_pow((maxbits - 1) as nat));
            }
        }
        return Ok(());
    }

    // Sort the leaves from lightest to heaviest. The symbol index goes into the low bits
    // of the weight, so that equal weights keep the order of their symbols.
    let mut k: usize = 0;
    while k < numsymbols
        invariant
            numsymbols == leaves@.len(),
            3 <= numsymbols <= 512,
            n <= 512,
            k <= numsymbols,
            leaves_ok(leaves@, frequencies@, n as int),
            leaves_distinct(leaves@),
            forall|l: int| k <= l < numsymbols ==> (#[trigger] leaves@[l]).weight == frequencies@[leaves@[l].count as int],
            forall|l: int| 0 <= l < k ==> (#[trigger] leaves@[l]).weight <= usize::MAX,
            forall|l: int| 0 <= l < k ==> frequencies@[(#[trigger] leaves@[l]).count as int] <= MAX_WEIGHT,
            forall|l: int|
                0 <= l < k ==> (#[trigger] leaves@[l]).weight == frequencies@[leaves@[l].count as int] * 512
                    + leaves@[l].count,
            forall|q: int| 0 <= q < n && frequencies@[q] > 0 ==> exists|l: int| 0 <= l < leaves@.len() && (#[trigger] leaves@[l]).count == q,
            bitlengths@ == zeroed,
            zeroed.len() == old(bitlengths)@.len(),
            forall|q: int| n <= q < old(bitlengths)@.len() ==> #[trigger] zeroed[q] == old(bitlengths)@[q],
            forall|q: int| 0 <= q < n ==> #[trigger] zeroed[q] == 0,
            num_used(frequencies@, n as int) == numsymbols,
            numsymbols <= two_pow(maxbits as nat),
        decreases numsymbols - k,
    {
        let leaf = leaves[k];
        if leaf.weight > MAX_WEIGHT {
            proof {
                assert(frequencies@[leaf.count as int] > MAX_WEIGHT);
                lemma_not_ok(frequencies@, n as int, maxbits as int, leaf.count as int);
            }
            return Err(HuffmanError::WeightOverflow);
        }
        assert(0 <= leaves@[k as int].count < n);
        assert(leaf.weight * 512 + 511 <= usize::MAX) by (nonlinear_arith)
            requires leaf.weight <= usize::MAX / 512;
        let ghost before = leaves@;
        leaves.set(k, Node { weight: leaf.weight * 512 + leaf.count as usize, count: leaf.count, tail: leaf.tail });
        proof {
            lemma_distinct_keep(before, leaves@, k as int);
        }
        proof {
            assert forall|q: int| 0 <= q < n && frequencies@[q] > 0 implies exists|l: int| 0 <= l < leaves@.len() && (#[trigger] leaves@[l]).count == q by {
                let l = choose|l: int| 0 <= l < before.len() && (#[trigger] before[l]).count == q;
                assert(leaves@[l].count == before[l].count);
            }
        }
        k = k + 1;
    }
    proof {
        assert forall|q: int| 0 <= q < n implies #[trigger] frequencies@[q] <= MAX_WEIGHT by {
            if frequencies@[q] > 0 {
                let l = choose|l: int| 0 <= l < leaves@.len() && (#[trigger] leaves@[l]).count == q;
            }
        }
    }
    assert(packed_ok(leaves@, frequencies@));
    sort_leaves(&mut leaves, Ghost(frequencies@), Ghost(n as int));
    let ghost sorted = leaves@;
    proof {
        assert forall|a: int, b: int| 0 <= a < b < sorted.len() implies frequencies@[(#[trigger] sorted[a]).count as int]
            <= frequencies@[(#[trigger] sorted[b]).count as int] by {
            assert(sorted[a].weight <= sorted[b].weight);
            assert(0 <= sorted[a].count < 512 && 0 <= sorted[b].count < 512);
        }
        assert(leaves_by_frequency(sorted, frequencies@));
    }
    let mut k: usize = 0;
    while k < numsymbols
        invariant
            numsymbols == leaves@.len(),
            k <= numsymbols,
            leaves_ok(leaves@, frequencies@, n as int),
            leaves_distinct(leaves@),
            sorted.len() == numsymbols,
            leaves_by_frequency(sorted, frequencies@),
            forall|l: int| 0 <= l < numsymbols ==> (#[trigger] leaves@[l]).count == sorted[l].count,
        decreases numsymbols - k,
    {
        let leaf = leaves[k];
        let ghost before = leaves@;
        leaves.set(k, Node { weight: leaf.weight / 512, count: leaf.count, tail: leaf.tail });
        proof {
            lemma_distinct_keep(before, leaves@, k as int);
        }
        k = k + 1;
    }

    let limit_bits = maxbits;
    let maxbits = if numsymbols - 1 < maxbits { numsymbols - 1 } else { maxbits };
    proof {
        reveal_with_fuel(two_pow, 3);
    }
    assert(maxbits >= 2);

    // Initialize the node pool.
    assert(maxbits * 2 * numsymbols <= 15360) by (nonlinear_arith)
        requires maxbits <= 15, numsymbols <= 512;
    let pool_size = maxbits * 2 * numsymbols;
    let mut pool = NodePool::new(pool_size);
    let mut lists: Vec<[usize; 2]> = vec![[0usize, 0usize]; maxbits];
    init_lists(&mut pool, &leaves, maxbits, &mut lists);

    // In the last list, 2 * numsymbols - 2 active chains need to be created. Two are
    // already created in the initialization. Each boundary_pm run creates one.
    let num_boundary_pm_runs = 2 * numsymbols - 4;
    let mut run: usize = 0;
    proof {
        lemma_two_pow_monotone(maxbits as nat, 15);
        reveal_with_fuel(two_pow, 16);
    }
    while run < num_boundary_pm_runs - 1
        invariant
            2 <= maxbits <= 15,
            numsymbols == leaves@.len(),
            3 <= numsymbols <= 512,
            num_boundary_pm_runs == 2 * numsymbols - 4,
            run <= num_boundary_pm_runs - 1,
            pm_wf(pool, lists@, numsymbols as int, maxbits as int),
            pool.next_index <= 2 + run * 32768,
            two_pow(maxbits as nat) <= 32768,
        decreases num_boundary_pm_runs - 1 - run,
    {
        proof {
            assert(two_pow(maxbits as nat) == 2 * two_pow((maxbits - 1) as nat));
        }
        boundary_pm(&mut lists, &leaves, numsymbols, &mut pool, maxbits - 1);
        run = run + 1;
    }
    boundary_pm_final(&mut lists, &leaves, numsymbols, &mut pool, maxbits - 1);

    let ghost before = bitlengths@;
    extract_bit_lengths(lists[maxbits - 1][1], &leaves, &pool, maxbits, bitlengths);
    proof {
        assert forall|q: int| 0 <= q < n && frequencies@[q] == 0 implies #[trigger] bitlengths@[q] == 0 by {
            if bitlengths@[q] != before[q] {
                let l = choose|l: int| 0 <= l < leaves@.len() && leaves@[l].count == q;
            }
        }
        let c = pool.nodes@[lists@[maxbits - 1][1] as int].count as int;
        assert forall|i: int, j: int|
            0 <= i < n && 0 <= j < n && frequencies@[i] < frequencies@[j] && #[trigger] bitlengths@[i] >= 1
                && #[trigger] bitlengths@[j] >= 1 implies bitlengths@[j] <= bitlengths@[i] by {
            let li = choose|l: int| 0 <= l < leaves@.len() && l < c && leaves@[l].count == i;
            let lj = choose|l: int| 0 <= l < leaves@.len() && l < c && leaves@[l].count == j;
            assert(leaves@[li].count == sorted[li].count);
            assert(leaves@[lj].count == sorted[lj].count);
            if lj < li {
                assert(frequencies@[sorted[lj].count as int] <= frequencies@[sorted[li].count as int]);
            }
            assert(li < lj);
        }
    }

    // Package-merge yields a complete prefix code in which every used symbol has a
    // length; this is checked, and should the check ever fail, every used symbol gets
    // the same length instead, the shortest that fits them all.
    let ghost extracted = bitlengths@;
    let uniform = complete_or_uniform(frequencies, n, limit_bits, numsymbols, bitlengths);
    proof {
        assert forall|i: int, j: int|
            0 <= i < n && 0 <= j < n && frequencies@[i] < frequencies@[j] && #[trigger] bitlengths@[i] >= 1
                && #[trigger] bitlengths@[j] >= 1 implies bitlengths@[j] <= bitlengths@[i] by {
            if !uniform {
                assert(extracted[i] == bitlengths@[i] && extracted[j] == bitlengths@[j]);
            }
        }
    }
    Ok(())
}

/// The first leaves are exactly the used symbols when there are at most two.
proof fn lemma_used_symbols(leaves: Seq<Node>, freqs: Seq<usize>, n: int)
    requires
        leaves.len() <= 2,
        leaves_ok(leaves, freqs, n),
        forall|k: int| 0 <= k < n && freqs[k] > 0 ==> exists|l: int| 0 <= l < leaves.len() && (#[trigger] leaves[l]).count == k,
    ensures
        forall|k: int| 0 <= k < n && freqs[k] > 0 ==> leaves[0].count == k || (leaves.len() == 2 && leaves[1].count == k),
{
    assert forall|k: int| 0 <= k < n && freqs[k] > 0 implies leaves[0].count == k || (leaves.len() == 2 && leaves[1].count == k) by {
        let l = choose|l: int| 0 <= l < leaves.len() && (#[trigger] leaves[l]).count == k;
    }
}

proof fn lemma_not_ok(freqs: Seq<usize>, n: int, maxbits: int, q: int)
    requires
        0 <= q < n,
        freqs[q] > MAX_WEIGHT,
    ensures
        num_used(freqs, n) >= 3 ==> !code_lengths_ok(freqs, n, maxbits),
{
}

/// Calculates the bit lengths for the Huffman tree from the counts of each symbol, on
/// inputs where a code of at most `maxbits` bits exists.
pub fn calculate_bit_lengths(count: &[usize], n: usize, maxbits: usize, bitlengths: &mut Vec<u32>)
    requires
        n <= count@.len(),
        n <= old(bitlengths)@.len(),
        n <= 512,
        maxbits <= 15,
        code_lengths_ok(count@, n as int, maxbits as int),
    ensures
        final(bitlengths)@.len() == old(bitlengths)@.len(),
        forall|i: int| n <= i < old(bitlengths)@.len() ==> #[trigger] final(bitlengths)@[i] == old(bitlengths)@[i],
        forall|i: int| 0 <= i < n ==> #[trigger] final(bitlengths)@[i] <= if maxbits == 0 { 1 } else { maxbits },
        forall|i: int| 0 <= i < n && count@[i] == 0 ==> #[trigger] final(bitlengths)@[i] == 0,
        forall|i: int| 0 <= i < n && count@[i] > 0 ==> #[trigger] final(bitlengths)@[i] >= 1,
        maxbits >= 1 ==> kraft_sum(count@, final(bitlengths)@, n as int, maxbits as nat) <= two_pow(maxbits as nat),
{
    let result = length_limited_code_lengths(count, n, maxbits, bitlengths);
    assert(result is Ok);
}


/// Number of `j < end` with `lengths[j] == b`.
pub open spec fn count_len(lengths: Seq<u32>, end: int, b: int) -> nat
    decreases end,
{
    if end <= 0 {
        0
    } else {
        count_len(lengths, end - 1, b) + if lengths[end - 1] as int == b { 1nat } else { 0nat }
    }
}

/// The first canonical code of length `b` (RFC 1951, 3.2.2): codes of each length
/// follow those of the length before, shifted left by one bit.
pub open spec fn code_base(lengths: Seq<u32>, n: int, b: int) -> int
    decreases b,
{
    if b <= 0 {
        0
    } else {
        2 * (code_base(lengths, n, b - 1) + if b - 1 == 0 { 0 } else { count_len(lengths, n, b - 1) as int })
    }
}

/// The canonical code of symbol `i`: 0 for an unused symbol, else the first code of its
/// length plus the number of earlier symbols of the same length.
pub open spec fn canonical_code(lengths: Seq<u32>, n: int, i: int) -> int {
    if lengths[i] == 0 {
        0
    } else {
        code_base(lengths, n, lengths[i] as int) + count_len(lengths, i, lengths[i] as int)
    }
}

proof fn lemma_count_len_bound(lengths: Seq<u32>, end: int, b: int)
    requires
        0 <= end,
    ensures
        count_len(lengths, end, b) <= end,
    decreases end,
{
    if end > 0 {
        lemma_count_len_bound(lengths, end - 1, b);
    }
}

proof fn lemma_code_base_bound(lengths: Seq<u32>, n: int, b: int)
    requires
        0 <= n,
        0 <= b,
    ensures
        0 <= code_base(lengths, n, b) <= (two_pow(b as nat) * 2 - 2) * n,
    decreases b,
{
    if b > 0 {
        lemma_code_base_bound(lengths, n, b - 1);
        lemma_count_len_bound(lengths, n, b - 1);
        lemma_two_pow_ge1((b - 1) as nat);
        assert(two_pow(b as nat) == 2 * two_pow((b - 1) as nat));
        let p = two_pow((b - 1) as nat) as int;
        assert(2 * ((p * 2 - 2) * n + n) == (2 * p * 2 - 2) * n) by (nonlinear_arith);
    }
}

/// Converts Huffman code bit lengths to the code of each symbol (the canonical code of
/// RFC 1951, 3.2.2). Symbols of length 0 get code 0.
pub fn lengths_to_symbols(lengths: &[u32], n: usize, maxbits: u32, symbols: &mut Vec<u32>)
    requires
        n <= lengths@.len(),
        n <= old(symbols)@.len(),
        maxbits < 32,
        two_pow(maxbits as nat) * 2 * n <= u32::MAX,
        forall|i: int| 0 <= i < n ==> #[trigger] lengths@[i] <= maxbits,
    ensures
        final(symbols)@.len() == old(symbols)@.len(),
        forall|i: int| n <= i < old(symbols)@.len() ==> #[trigger] final(symbols)@[i] == old(symbols)@[i],
        forall|i: int| 0 <= i < n ==> #[trigger] final(symbols)@[i] as int == canonical_code(lengths@, n as int, i),
{
    let mb = maxbits as usize;
    let mut bl_count: Vec<usize> = vec![0usize; mb + 1];
    let mut next_code: Vec<usize> = vec![0usize; mb + 1];

    // 1) Count the number of codes of each code length.
    let mut i: usize = 0;
    while i < n
        invariant
            i <= n <= lengths@.len(),
            two_pow(mb as nat) * 2 * n <= u32::MAX,
            bl_count@.len() == mb + 1,
            forall|k: int| 0 <= k < n ==> #[trigger] lengths@[k] <= mb,
            forall|b: int| 0 <= b <= mb ==> #[trigger] bl_count@[b] == count_len(lengths@, i as int, b),
        decreases n - i,
    {
        let len = lengths[i] as usize;
        proof {
            lemma_count_len_bound(lengths@, i as int, len as int);
        }
        bl_count.set(len, bl_count[len] + 1);
        i = i + 1;
    }
    bl_count.set(0, 0);

    // 2) Find the numerical value of the smallest code of each code length.
    let mut code: usize = 0;
    let mut bits: usize = 1;
    while bits <= mb
        invariant
            1 <= bits <= mb + 1,
            mb < 32,
            two_pow(mb as nat) * 2 * n <= u32::MAX,
            bl_count@.len() == mb + 1,
            next_code@.len() == mb + 1,
            bl_count@[0] == 0,
            forall|b: int| 1 <= b <= mb ==> #[trigger] bl_count@[b] == count_len(lengths@, n as int, b),
            code as int == code_base(lengths@, n as int, bits - 1),
            forall|b: int| 1 <= b < bits ==> #[trigger] next_code@[b] as int == code_base(lengths@, n as int, b),
        decreases mb + 1 - bits,
    {
        proof {
            lemma_code_base_bound(lengths@, n as int, bits as int);
            lemma_two_pow_monotone(bits as nat, mb as nat);
            assert((two_pow(bits as nat) * 2 - 2) * n <= two_pow(mb as nat) * 2 * n) by (nonlinear_arith)
                requires two_pow(bits as nat) <= two_pow(mb as nat), n >= 0;
            lemma_count_len_bound(lengths@, n as int, bits - 1);
        }
        code = (code + bl_count[bits - 1]) * 2;
        next_code.set(bits, code);
        bits = bits + 1;
    }

    // 3) Assign the codes to the symbols.
    let mut i: usize = 0;
    while i < n
        invariant
            i <= n <= lengths@.len(),
            n <= old(symbols)@.len(),
            two_pow(mb as nat) * 2 * n <= u32::MAX,
            mb < 32,
            next_code@.len() == mb + 1,
            symbols@.len() == old(symbols)@.len(),
            forall|k: int| 0 <= k < n ==> #[trigger] lengths@[k] <= mb,
            forall|k: int| n <= k < old(symbols)@.len() ==> #[trigger] symbols@[k] == old(symbols)@[k],
            forall|b: int|
                1 <= b <= mb ==> #[trigger] next_code@[b] as int == code_base(lengths@, n as int, b) + count_len(
                    lengths@,
                    i as int,
                    b,
                ),
            forall|k: int| 0 <= k < i ==> #[trigger] symbols@[k] as int == canonical_code(lengths@, n as int, k),
        decreases n - i,
    {
        let len = lengths[i] as usize;
        if len != 0 {
            proof {
                lemma_code_base_bound(lengths@, n as int, len as int);
                lemma_two_pow_monotone(len as nat, mb as nat);
                lemma_two_pow_ge1(len as nat);
                lemma_count_len_bound(lengths@, i as int, len as int);
                assert((two_pow(len as nat) * 2 - 2) * n + n <= two_pow(mb as nat) * 2 * n) by (nonlinear_arith)
                    requires two_pow(len as nat) <= two_pow(mb as nat), n >= 0, two_pow(len as nat) >= 1;
            }
            symbols.set(i, next_code[len] as u32);
            next_code.set(len, next_code[len] + 1);
        } else {
            symbols.set(i, 0);
        }
        i = i + 1;
    }
}


/// One past the last code of length `b`: the first code of length `b` plus the number
/// of codes of that length.
pub open spec fn code_end(lengths: Seq<u32>, n: int, b: int) -> int {
    code_base(lengths, n, b) + if b == 0 { 0 } else { count_len(lengths, n, b) as int }
}

proof fn lemma_count_len_mono(lengths: Seq<u32>, a: int, c: int, b: int)
    requires
        0 <= a <= c,
    ensures
        count_len(lengths, a, b) <= count_len(lengths, c, b),
    decreases c - a,
{
    if a < c {
        lemma_count_len_mono(lengths, a, c - 1, b);
    }
}

/// The codes of one length grow at least twofold per extra bit.
proof fn lemma_code_end_grows(lengths: Seq<u32>, n: int, b: int, k: nat)
    requires
        0 <= b,
        0 <= n,
    ensures
        code_end(lengths, n, b + k) >= two_pow(k) * code_end(lengths, n, b),
    decreases k,
{
    lemma_code_base_bound(lengths, n, b);
    let e = code_end(lengths, n, b);
    if k > 0 {
        let k1 = (k - 1) as nat;
        lemma_code_end_grows(lengths, n, b, k1);
        assert(b + k1 + 1 == b + k);
        assert(code_base(lengths, n, b + k) == 2 * code_end(lengths, n, b + k1));
        lemma_code_base_bound(lengths, n, b + k);
        assert(two_pow(k) == 2 * two_pow(k1));
        let big = code_end(lengths, n, b + k);
        let mid = code_end(lengths, n, b + k1);
        assert(big >= 2 * mid);
        assert(two_pow(k) * e <= big) by (nonlinear_arith)
            requires
                two_pow(k) == 2 * two_pow(k1),
                mid >= two_pow(k1) * e,
                big >= 2 * mid;
    } else {
        assert(b + k == b);
        assert(two_pow(k) == 1);
        assert(two_pow(k) * e == e) by (nonlinear_arith)
            requires two_pow(k) == 1;
        assert(code_end(lengths, n, b + k) == e);
    }
}

/// No canonical code is a prefix of another: for two used symbols with
/// `lengths[i] <= lengths[j]`, the first `lengths[i]` bits of the code of `j` differ
/// from the code of `i`. In particular the codes of used symbols are pairwise distinct.
pub proof fn lemma_canonical_codes_prefix_free(lengths: Seq<u32>, n: int, i: int, j: int)
    requires
        0 <= i < n,
        0 <= j < n,
        n <= lengths.len(),
        i != j,
        0 < lengths[i] <= lengths[j],
    ensures
        canonical_code(lengths, n, j) / two_pow((lengths[j] - lengths[i]) as nat) as int != canonical_code(lengths, n, i),
{
    let b = lengths[i] as int;
    let b2 = lengths[j] as int;
    let d = (b2 - b) as nat;
    lemma_two_pow_ge1(d);
    lemma_code_base_bound(lengths, n, b);
    lemma_code_base_bound(lengths, n, b2);
    // The code of `i` is below the end of the codes of its length.
    lemma_count_len_mono(lengths, i + 1, n, b);
    assert(count_len(lengths, i + 1, b) == count_len(lengths, i, b) + 1);
    let ci = canonical_code(lengths, n, i);
    assert(ci < code_end(lengths, n, b));
    if b == b2 {
        assert(two_pow(0) == 1);
        if i < j {
            lemma_count_len_mono(lengths, i + 1, j, b);
        } else {
            lemma_count_len_mono(lengths, j + 1, i, b);
            assert(count_len(lengths, j + 1, b) == count_len(lengths, j, b) + 1);
        }
    } else {
        // Codes of a longer length start past the end of the shorter ones, scaled.
        lemma_code_end_grows(lengths, n, b, (d - 1) as nat);
        assert(code_base(lengths, n, b2) == 2 * code_end(lengths, n, b2 - 1));
        assert(two_pow(d) == 2 * two_pow((d - 1) as nat));
        let e = code_end(lengths, n, b);
        let cj = canonical_code(lengths, n, j);
        let p = two_pow(d) as int;
        assert(cj >= p * e) by (nonlinear_arith)
            requires
                cj >= code_base(lengths, n, b2),
                code_base(lengths, n, b2) == 2 * code_end(lengths, n, b2 - 1),
                code_end(lengths, n, b2 - 1) >= two_pow((d - 1) as nat) * e,
                p == 2 * two_pow((d - 1) as nat),
                e >= 0;
        assert(cj / p >= e) by (nonlinear_arith)
            requires cj >= p * e, p >= 1, e >= 0;
    }
}

/// Under the Kraft inequality for lengths up to `m` (the codes of length `m` end by
/// `2^m`), every canonical code of length `b` fits in `b` bits.
pub proof fn lemma_canonical_code_fits(lengths: Seq<u32>, n: int, m: int, i: int)
    requires
        0 <= i < n <= lengths.len(),
        0 < lengths[i] <= m,
        code_end(lengths, n, m) <= two_pow(m as nat),
    ensures
        canonical_code(lengths, n, i) < two_pow(lengths[i] as nat),
{
    let b = lengths[i] as int;
    let d = (m - b) as nat;
    lemma_count_len_mono(lengths, i + 1, n, b);
    assert(count_len(lengths, i + 1, b) == count_len(lengths, i, b) + 1);
    lemma_code_end_grows(lengths, n, b, d);
    lemma_two_pow_ge1(d);
    lemma_code_base_bound(lengths, n, b);
    let e = code_end(lengths, n, b);
    assert(two_pow(m as nat) == two_pow(d) * two_pow(b as nat)) by {
        lemma_two_pow_adds(d, b as nat);
    }
    assert(e <= two_pow(b as nat)) by (nonlinear_arith)
        requires
            two_pow(d) * e <= two_pow(d) * two_pow(b as nat),
            two_pow(d) >= 1,
            e >= 0;
}

proof fn lemma_two_pow_adds(a: nat, b: nat)
    ensures
        two_pow(a + b) == two_pow(a) * two_pow(b),
    decreases a,
{
    if a > 0 {
        lemma_two_pow_adds((a - 1) as nat, b);
        let a1 = (a - 1) as nat;
        assert(a1 + b == (a - 1 + b) as nat);
        assert(two_pow((a - 1 + b) as nat) == two_pow(a1) * two_pow(b));
        assert(two_pow(a + b) == 2 * two_pow((a - 1 + b) as nat));
        assert(two_pow(a) == 2 * two_pow(a1));
        assert(two_pow(a) * two_pow(b) == 2 * (two_pow(a1) * two_pow(b))) by (nonlinear_arith)
            requires two_pow(a) == 2 * two_pow(a1);
    } else {
        assert(a + b == b);
        assert(two_pow(a) == 1);
        assert(two_pow(a) * two_pow(b) == two_pow(b));
    }
}

/// The Kraft sum of a set of code lengths scaled by `2^m`: `Σ 2^(m - lengths[i])` over
/// the `i < n` with a nonzero length.
pub open spec fn length_kraft(lengths: Seq<u32>, n: int, m: nat) -> int
    decreases n,
{
    if n <= 0 {
        0
    } else {
        length_kraft(lengths, n - 1, m) + if lengths[n - 1] > 0 {
            two_pow((m - lengths[n - 1]) as nat) as int
        } else {
            0
        }
    }
}

proof fn lemma_code_end_empty(lengths: Seq<u32>, b: int)
    requires
        0 <= b,
    ensures
        code_end(lengths, 0, b) == 0,
        code_base(lengths, 0, b) == 0,
    decreases b,
{
    if b > 0 {
        lemma_code_end_empty(lengths, b - 1);
    }
}

/// Adding a symbol of length `l` adds `2^(b - l)` to the end of the codes of each length
/// `b >= l`.
proof fn lemma_code_end_add(lengths: Seq<u32>, n: int, b: int)
    requires
        0 <= n < lengths.len(),
        0 <= b,
    ensures
        code_end(lengths, n + 1, b) - code_end(lengths, n, b) == if lengths[n] > 0 && b >= lengths[n] {
            two_pow((b - lengths[n]) as nat) as int
        } else {
            0
        },
    decreases b,
{
    let l = lengths[n] as int;
    if b > 0 {
        lemma_code_end_add(lengths, n, b - 1);
        assert(count_len(lengths, n + 1, b) == count_len(lengths, n, b) + if l == b { 1nat } else { 0nat });
        if l > 0 && b > l {
            assert(two_pow((b - l) as nat) == 2 * two_pow((b - 1 - l) as nat));
        }
        if l == b {
            assert(two_pow(0) == 1);
        }
    }
}

/// The end of the canonical codes of length `m` is the scaled Kraft sum.
proof fn lemma_code_end_is_kraft(lengths: Seq<u32>, n: int, m: int)
    requires
        0 <= n <= lengths.len(),
        0 <= m,
        forall|k: int| 0 <= k < n ==> #[trigger] lengths[k] <= m,
    ensures
        code_end(lengths, n, m) == length_kraft(lengths, n, m as nat),
    decreases n,
{
    if n == 0 {
        lemma_code_end_empty(lengths, m);
    } else {
        lemma_code_end_is_kraft(lengths, n - 1, m);
        lemma_code_end_add(lengths, n - 1, m);
    }
}

/// Canonical codes from lengths at most `m` that satisfy the Kraft inequality are a prefix
/// code: each code fits in its length, and no code is a prefix of another.
pub proof fn lemma_kraft_prefix_code(lengths: Seq<u32>, n: int, m: int, i: int, j: int)
    requires
        0 <= i < n <= lengths.len(),
        0 <= j < n,
        0 <= m,
        forall|k: int| 0 <= k < n ==> #[trigger] lengths[k] <= m,
        length_kraft(lengths, n, m as nat) <= two_pow(m as nat),
        lengths[i] > 0,
    ensures
        canonical_code(lengths, n, i) < two_pow(lengths[i] as nat),
        i != j && lengths[i] <= lengths[j] ==> canonical_code(lengths, n, j) / two_pow(
            (lengths[j] - lengths[i]) as nat,
        ) as int != canonical_code(lengths, n, i),
{
    lemma_code_end_is_kraft(lengths, n, m);
    lemma_canonical_code_fits(lengths, n, m, i);
    if i != j && lengths[i] <= lengths[j] {
        lemma_canonical_codes_prefix_free(lengths, n, i, j);
    }
}

} // verus!
