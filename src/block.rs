//! Range histograms over the token store and the size of a block under the stored,
//! fixed and dynamic encodings.
use vstd::prelude::*;
use vstd::math::min;
use crate::types::{LZ77Store, NUM_LL, NUM_D, count_sym, count_dist_sym, token_ok};
use crate::symbols::{lemma_symbol_ranges, length_symbol, dist_symbol, length_symbol_extra_bits, dist_symbol_extra_bits, get_length_symbol, get_dist_symbol, get_length_symbol_extra_bits, get_dist_symbol_extra_bits};
use crate::lz77::{token_len, lemma_count_sym_bound, lemma_count_dist_sym_bound};
use crate::huffman::{sum_prefix, num_used, optimize_huffman_for_rle, calculate_bit_lengths, MAX_WEIGHT, kraft_sum, lemma_kraft_frame, lemma_kraft_subset};
use crate::symbols::two_pow;

verus! {

/// Counts only grow along the tokens.
pub proof fn lemma_count_sym_mono(syms: Seq<u16>, a: int, b: int, s: int)
    requires
        0 <= a <= b,
    ensures
        count_sym(syms, a, s) <= count_sym(syms, b, s),
    decreases b - a,
{
    if a < b {
        lemma_count_sym_mono(syms, a, b - 1, s);
    }
}

/// A token with symbol `s` in `a..b` adds one to the count.
proof fn lemma_count_sym_hit(syms: Seq<u16>, a: int, j: int, b: int, s: int)
    requires
        0 <= a <= j < b,
        syms[j] as int == s,
    ensures
        count_sym(syms, a, s) + 1 <= count_sym(syms, b, s),
{
    lemma_count_sym_mono(syms, a, j, s);
    lemma_count_sym_mono(syms, j + 1, b, s);
}

/// Counts only grow along the tokens.
pub proof fn lemma_count_dist_sym_mono(syms: Seq<u16>, dists: Seq<u16>, a: int, b: int, s: int)
    requires
        0 <= a <= b,
    ensures
        count_dist_sym(syms, dists, a, s) <= count_dist_sym(syms, dists, b, s),
    decreases b - a,
{
    if a < b {
        lemma_count_dist_sym_mono(syms, dists, a, b - 1, s);
    }
}

proof fn lemma_count_dist_sym_hit(syms: Seq<u16>, dists: Seq<u16>, a: int, j: int, b: int, s: int)
    requires
        0 <= a <= j < b,
        syms[j] as int == s,
        dists[j] != 0,
    ensures
        count_dist_sym(syms, dists, a, s) + 1 <= count_dist_sym(syms, dists, b, s),
{
    lemma_count_dist_sym_mono(syms, dists, a, j, s);
    lemma_count_dist_sym_mono(syms, dists, j + 1, b, s);
}

/// The symbols of a token of a well-formed store index the histograms.
pub proof fn lemma_token_symbols(lz77: LZ77Store, i: int)
    requires
        lz77.tokens_wf(),
        0 <= i < lz77.len(),
    ensures
        lz77.ll_symbol@[i] < 286,
        lz77.ll_symbol@[i] != 256,
        lz77.d_symbol@[i] < 30,
{
    assert(token_ok(lz77.litlens@[i], lz77.dists@[i]));
    if lz77.dists@[i] != 0 {
        lemma_symbol_ranges(lz77.litlens@[i] as int, lz77.dists@[i] as int);
    }
}

/// Gets the histogram of lit/len and dist symbols of the tokens `0..=lpos`, from the
/// cumulative chunk that holds `lpos` minus the tokens of that chunk after `lpos`.
fn lz77_get_histogram_at(lz77: &LZ77Store, lpos: usize, ll_counts: &mut Vec<usize>, d_counts: &mut Vec<usize>)
    requires
        lz77.wf(),
        lpos < lz77.len(),
        old(ll_counts)@.len() == NUM_LL,
        old(d_counts)@.len() == NUM_D,
    ensures
        final(ll_counts)@.len() == NUM_LL,
        final(d_counts)@.len() == NUM_D,
        forall|s: int| 0 <= s < NUM_LL ==> #[trigger] final(ll_counts)@[s] == count_sym(lz77.ll_symbol@, lpos + 1, s),
        forall|s: int|
            0 <= s < NUM_D ==> #[trigger] final(d_counts)@[s] == count_dist_sym(lz77.d_symbol@, lz77.dists@, lpos + 1, s),
{
    let llpos = NUM_LL * (lpos / NUM_LL);
    let dpos = NUM_D * (lpos / NUM_D);
    let size = lz77.size();
    let ghost n = size as int;
    let ghost ll = lz77.ll_symbol@;
    let ghost ds = lz77.d_symbol@;
    let ghost dd = lz77.dists@;
    let ll_end = if size - llpos > NUM_LL { llpos + NUM_LL } else { size };
    let d_end = if size - dpos > NUM_D { dpos + NUM_D } else { size };
    assert(ll_end as int == min(n, (lpos as int / 288 + 1) * 288));
    assert(d_end as int == min(n, (lpos as int / 32 + 1) * 32));

    let mut i: usize = 0;
    while i < NUM_LL
        invariant
            lz77.wf(),
            i <= NUM_LL,
            llpos == 288 * (lpos / 288),
            lpos < lz77.len(),
            ll_counts@.len() == NUM_LL,
            forall|s: int| 0 <= s < i ==> #[trigger] ll_counts@[s] == count_sym(ll, ll_end as int, s),
            ll == lz77.ll_symbol@,
            ll_end as int == min(lz77.len(), (lpos as int / 288 + 1) * 288),
        decreases NUM_LL - i,
    {
        let total = lz77.ll_counts.len();
        assert(llpos + i < lz77.ll_counts@.len());
        assert((llpos + i) / 288 == lpos / 288);
        assert((llpos + i) % 288 == i);
        ll_counts.set(i, lz77.ll_counts[llpos + i]);
        i = i + 1;
    }
    let mut i = lpos + 1;
    while i < ll_end
        invariant
            lz77.wf(),
            lpos < i <= ll_end || i == lpos + 1,
            ll_end <= lz77.len(),
            lpos < ll_end,
            ll == lz77.ll_symbol@,
            ll_counts@.len() == NUM_LL,
            forall|s: int|
                0 <= s < NUM_LL ==> #[trigger] ll_counts@[s] + count_sym(ll, i as int, s) == count_sym(ll, ll_end as int, s)
                    + count_sym(ll, lpos + 1, s),
        decreases ll_end - i,
    {
        let sym = lz77.ll_symbol[i] as usize;
        proof {
            lemma_token_symbols(*lz77, i as int);
            lemma_count_sym_hit(ll, i as int, i as int, ll_end as int, sym as int);
            lemma_count_sym_mono(ll, lpos + 1, i as int, sym as int);
        }
        ll_counts.set(sym, ll_counts[sym].saturating_sub(1));
        i = i + 1;
    }

    let mut i: usize = 0;
    while i < NUM_D
        invariant
            lz77.wf(),
            i <= NUM_D,
            dpos == 32 * (lpos / 32),
            lpos < lz77.len(),
            d_counts@.len() == NUM_D,
            forall|s: int| 0 <= s < i ==> #[trigger] d_counts@[s] == count_dist_sym(ds, dd, d_end as int, s),
            ds == lz77.d_symbol@,
            dd == lz77.dists@,
            d_end as int == min(lz77.len(), (lpos as int / 32 + 1) * 32),
        decreases NUM_D - i,
    {
        let total = lz77.d_counts.len();
        assert(dpos + i < lz77.d_counts@.len());
        assert((dpos + i) / 32 == lpos / 32);
        assert((dpos + i) % 32 == i);
        d_counts.set(i, lz77.d_counts[dpos + i]);
        i = i + 1;
    }
    let mut i = lpos + 1;
    while i < d_end
        invariant
            lz77.wf(),
            lpos < i <= d_end || i == lpos + 1,
            d_end <= lz77.len(),
            lpos < d_end,
            ds == lz77.d_symbol@,
            dd == lz77.dists@,
            d_counts@.len() == NUM_D,
            forall|s: int|
                0 <= s < NUM_D ==> #[trigger] d_counts@[s] + count_dist_sym(ds, dd, i as int, s) == count_dist_sym(
                    ds,
                    dd,
                    d_end as int,
                    s,
                ) + count_dist_sym(ds, dd, lpos + 1, s),
        decreases d_end - i,
    {
        if lz77.dists[i] != 0 {
            let sym = lz77.d_symbol[i] as usize;
            proof {
                lemma_token_symbols(*lz77, i as int);
                lemma_count_dist_sym_hit(ds, dd, i as int, i as int, d_end as int, sym as int);
                lemma_count_dist_sym_mono(ds, dd, lpos + 1, i as int, sym as int);
            }
            d_counts.set(sym, d_counts[sym].saturating_sub(1));
        }
        i = i + 1;
    }
}


/// Gets the histogram of lit/len and dist symbols of the tokens `lstart..lend`. Short
/// ranges are counted directly; long ones come from the cumulative histograms. The end
/// symbol 256 is not added. Either way the result is the count over the range.
pub fn lz77_get_histogram(
    lz77: &LZ77Store,
    lstart: usize,
    lend: usize,
    ll_counts: &mut Vec<usize>,
    d_counts: &mut Vec<usize>,
)
    requires
        lz77.wf(),
        lstart <= lend <= lz77.len(),
        old(ll_counts)@.len() == NUM_LL,
        old(d_counts)@.len() == NUM_D,
    ensures
        final(ll_counts)@.len() == NUM_LL,
        final(d_counts)@.len() == NUM_D,
        forall|s: int|
            0 <= s < NUM_LL ==> #[trigger] final(ll_counts)@[s] == count_sym(lz77.ll_symbol@, lend as int, s) - count_sym(
                lz77.ll_symbol@,
                lstart as int,
                s,
            ),
        forall|s: int|
            0 <= s < NUM_D ==> #[trigger] final(d_counts)@[s] == count_dist_sym(lz77.d_symbol@, lz77.dists@, lend as int, s)
                - count_dist_sym(lz77.d_symbol@, lz77.dists@, lstart as int, s),
{
    let ghost ll = lz77.ll_symbol@;
    let ghost ds = lz77.d_symbol@;
    let ghost dd = lz77.dists@;
    if lend - lstart < NUM_LL * 3 {
        // Small range: count directly.
        let mut s: usize = 0;
        while s < NUM_LL
            invariant
                s <= NUM_LL,
                ll_counts@.len() == NUM_LL,
                forall|t: int| 0 <= t < s ==> #[trigger] ll_counts@[t] == 0,
            decreases NUM_LL - s,
        {
            ll_counts.set(s, 0);
            s = s + 1;
        }
        let mut s: usize = 0;
        while s < NUM_D
            invariant
                s <= NUM_D,
                d_counts@.len() == NUM_D,
                forall|t: int| 0 <= t < s ==> #[trigger] d_counts@[t] == 0,
            decreases NUM_D - s,
        {
            d_counts.set(s, 0);
            s = s + 1;
        }
        let mut i = lstart;
        while i < lend
            invariant
                lz77.wf(),
                lstart <= i <= lend <= lz77.len(),
                ll == lz77.ll_symbol@,
                ds == lz77.d_symbol@,
                dd == lz77.dists@,
                ll_counts@.len() == NUM_LL,
                d_counts@.len() == NUM_D,
                forall|t: int|
                    0 <= t < NUM_LL ==> #[trigger] ll_counts@[t] == count_sym(ll, i as int, t) - count_sym(ll, lstart as int, t),
                forall|t: int|
                    0 <= t < NUM_D ==> #[trigger] d_counts@[t] == count_dist_sym(ds, dd, i as int, t) - count_dist_sym(
                        ds,
                        dd,
                        lstart as int,
                        t,
                    ),
            decreases lend - i,
        {
            let sym = lz77.ll_symbol[i] as usize;
            proof {
                lemma_token_symbols(*lz77, i as int);
                lemma_count_sym_mono(ll, lstart as int, i as int, sym as int);
                lemma_count_sym_bound(ll, i as int, sym as int);
            }
            ll_counts.set(sym, ll_counts[sym] + 1);
            if lz77.dists[i] != 0 {
                let dsym = lz77.d_symbol[i] as usize;
                proof {
                    lemma_count_dist_sym_mono(ds, dd, lstart as int, i as int, dsym as int);
                    lemma_count_dist_sym_bound(ds, dd, i as int, dsym as int);
                }
                d_counts.set(dsym, d_counts[dsym] + 1);
            }
            i = i + 1;
        }
    } else {
        // Subtract the cumulative histograms at the start from those at the end.
        lz77_get_histogram_at(lz77, lend - 1, ll_counts, d_counts);
        if lstart > 0 {
            let mut ll_counts2: Vec<usize> = vec![0usize; NUM_LL];
            let mut d_counts2: Vec<usize> = vec![0usize; NUM_D];
            lz77_get_histogram_at(lz77, lstart - 1, &mut ll_counts2, &mut d_counts2);
            let mut s: usize = 0;
            while s < NUM_LL
                invariant
                    s <= NUM_LL,
                    lstart <= lend,
                    ll_counts@.len() == NUM_LL,
                    ll_counts2@.len() == NUM_LL,
                    forall|t: int| 0 <= t < NUM_LL ==> #[trigger] ll_counts2@[t] == count_sym(ll, lstart as int, t),
                    forall|t: int|
                        s <= t < NUM_LL ==> #[trigger] ll_counts@[t] == count_sym(ll, lend as int, t),
                    forall|t: int|
                        0 <= t < s ==> #[trigger] ll_counts@[t] == count_sym(ll, lend as int, t) - count_sym(
                            ll,
                            lstart as int,
                            t,
                        ),
                decreases NUM_LL - s,
            {
                proof {
                    lemma_count_sym_mono(ll, lstart as int, lend as int, s as int);
                }
                ll_counts.set(s, ll_counts[s].saturating_sub(ll_counts2[s]));
                s = s + 1;
            }
            let mut s: usize = 0;
            while s < NUM_D
                invariant
                    s <= NUM_D,
                    lstart <= lend,
                    d_counts@.len() == NUM_D,
                    d_counts2@.len() == NUM_D,
                    forall|t: int| 0 <= t < NUM_D ==> #[trigger] d_counts2@[t] == count_dist_sym(ds, dd, lstart as int, t),
                    forall|t: int|
                        s <= t < NUM_D ==> #[trigger] d_counts@[t] == count_dist_sym(ds, dd, lend as int, t),
                    forall|t: int|
                        0 <= t < s ==> #[trigger] d_counts@[t] == count_dist_sym(ds, dd, lend as int, t) - count_dist_sym(
                            ds,
                            dd,
                            lstart as int,
                            t,
                        ),
                decreases NUM_D - s,
            {
                proof {
                    lemma_count_dist_sym_mono(ds, dd, lstart as int, lend as int, s as int);
                }
                d_counts.set(s, d_counts[s].saturating_sub(d_counts2[s]));
                s = s + 1;
            }
        }
    }
}

/// The range histogram equals the direct count over the range, whichever way
/// `lz77_get_histogram` computes it: a count over `lstart..lend` is the difference of
/// the counts over the two prefixes.
pub proof fn lemma_histogram_is_range_count(syms: Seq<u16>, lstart: int, lend: int, s: int)
    requires
        0 <= lstart <= lend <= syms.len(),
    ensures
        count_sym(syms, lend, s) - count_sym(syms, lstart, s) == range_count(syms, lstart, lend, s),
    decreases lend - lstart,
{
    if lend > lstart {
        lemma_histogram_is_range_count(syms, lstart, lend - 1, s);
    }
}

/// Number of `i` in `a..b` with `syms[i] == s`, counted one token at a time.
pub open spec fn range_count(syms: Seq<u16>, a: int, b: int, s: int) -> int
    decreases b - a,
{
    if b <= a {
        0
    } else {
        range_count(syms, a, b - 1, s) + if syms[b - 1] as int == s { 1int } else { 0int }
    }
}

/// Gets the number of input bytes that the tokens `lstart..lend` stand for.
pub fn lz77_get_byte_range(lz77: &LZ77Store, lstart: usize, lend: usize) -> (r: usize)
    requires
        lstart <= lend <= lz77.litlens@.len(),
        lend <= lz77.dists@.len(),
        lend <= lz77.pos@.len(),
        lstart < lend ==> lz77.pos@[lend - 1] + token_len(lz77.litlens@[lend - 1], lz77.dists@[lend - 1]) <= usize::MAX,
        lstart < lend ==> lz77.pos@[lstart as int] <= lz77.pos@[lend - 1] + token_len(
            lz77.litlens@[lend - 1],
            lz77.dists@[lend - 1],
        ),
    ensures
        r as int == if lstart == lend {
            0
        } else {
            lz77.pos@[lend - 1] + token_len(lz77.litlens@[lend - 1], lz77.dists@[lend - 1]) - lz77.pos@[lstart as int]
        },
{
    if lstart == lend {
        return 0;
    }
    let l = lend - 1;
    let end_pos = lz77.pos[l] + if lz77.dists[l] == 0 {
        1
    } else {
        lz77.litlens[l] as usize
    };
    end_pos - lz77.pos[lstart]
}

/// Length of a literal/length code in the fixed Huffman code (RFC 1951, 3.2.6).
pub open spec fn fixed_ll_length(i: int) -> u32 {
    if i < 144 {
        8
    } else if i < 256 {
        9
    } else if i < 280 {
        7
    } else {
        8
    }
}

/// Gets the code lengths of the fixed Huffman code of DEFLATE.
pub fn get_fixed_tree(ll_lengths: &mut Vec<u32>, d_lengths: &mut Vec<u32>)
    requires
        old(ll_lengths)@.len() >= NUM_LL,
        old(d_lengths)@.len() >= NUM_D,
    ensures
        final(ll_lengths)@.len() == old(ll_lengths)@.len(),
        final(d_lengths)@.len() == old(d_lengths)@.len(),
        forall|i: int| 0 <= i < NUM_LL ==> #[trigger] final(ll_lengths)@[i] == fixed_ll_length(i),
        forall|i: int| NUM_LL <= i < old(ll_lengths)@.len() ==> #[trigger] final(ll_lengths)@[i] == old(ll_lengths)@[i],
        forall|i: int| 0 <= i < NUM_D ==> #[trigger] final(d_lengths)@[i] == 5,
        forall|i: int| NUM_D <= i < old(d_lengths)@.len() ==> #[trigger] final(d_lengths)@[i] == old(d_lengths)@[i],
{
    let mut i: usize = 0;
    while i < NUM_LL
        invariant
            i <= NUM_LL,
            old(ll_lengths)@.len() >= NUM_LL,
            ll_lengths@.len() == old(ll_lengths)@.len(),
            forall|k: int| 0 <= k < i ==> #[trigger] ll_lengths@[k] == fixed_ll_length(k),
            forall|k: int| NUM_LL <= k < old(ll_lengths)@.len() ==> #[trigger] ll_lengths@[k] == old(ll_lengths)@[k],
        decreases NUM_LL - i,
    {
        let v: u32 = if i < 144 {
            8
        } else if i < 256 {
            9
        } else if i < 280 {
            7
        } else {
            8
        };
        ll_lengths.set(i, v);
        i = i + 1;
    }
    let mut i: usize = 0;
    while i < NUM_D
        invariant
            i <= NUM_D,
            old(d_lengths)@.len() >= NUM_D,
            d_lengths@.len() == old(d_lengths)@.len(),
            forall|k: int| 0 <= k < i ==> #[trigger] d_lengths@[k] == 5,
            forall|k: int| NUM_D <= k < old(d_lengths)@.len() ==> #[trigger] d_lengths@[k] == old(d_lengths)@[k],
        decreases NUM_D - i,
    {
        d_lengths.set(i, 5);
        i = i + 1;
    }
}

/// Number of `i < end` with `lengths[i] > 0`.
pub open spec fn count_nonzero(lengths: Seq<u32>, end: int) -> int
    decreases end,
{
    if end <= 0 {
        0
    } else {
        count_nonzero(lengths, end - 1) + if lengths[end - 1] > 0 { 1int } else { 0int }
    }
}

/// Ensures there are at least two distance codes, for decoders that need them: with
/// none, codes 0 and 1 get length 1; with one, the other of codes 0 and 1 gets length 1.
pub fn patch_distance_codes_for_buggy_decoders(d_lengths: &mut Vec<u32>)
    requires
        old(d_lengths)@.len() >= 30,
    ensures
        final(d_lengths)@.len() == old(d_lengths)@.len(),
        count_nonzero(old(d_lengths)@, 30) >= 2 ==> final(d_lengths)@ == old(d_lengths)@,
        count_nonzero(old(d_lengths)@, 30) == 0 ==> final(d_lengths)@ == old(d_lengths)@.update(0, 1).update(1, 1),
        count_nonzero(old(d_lengths)@, 30) == 1 ==> final(d_lengths)@ == if old(d_lengths)@[0] > 0 {
            old(d_lengths)@.update(1, 1)
        } else {
            old(d_lengths)@.update(0, 1)
        },
        count_nonzero(final(d_lengths)@, 30) >= 2,
        forall|i: int| 0 <= i < old(d_lengths)@.len() ==> #[trigger] final(d_lengths)@[i] == old(d_lengths)@[i] || old(
            d_lengths,
        )@[i] == 0,
{
    let mut num_dist_codes: usize = 0;
    let mut i: usize = 0;
    let ghost d = d_lengths@;
    while i < 30 && num_dist_codes < 2
        invariant
            i <= 30,
            d_lengths@ == d,
            d.len() >= 30,
            num_dist_codes as int == count_nonzero(d, i as int),
            num_dist_codes <= 2,
        decreases 30 - i,
    {
        if d_lengths[i] > 0 {
            num_dist_codes = num_dist_codes + 1;
        }
        i = i + 1;
    }
    proof {
        lemma_count_nonzero_mono(d, i as int, 30);
        if num_dist_codes < 2 {
            assert(i == 30);
        }
    }
    if num_dist_codes >= 2 {
        return;
    }
    if num_dist_codes == 0 {
        proof {
            lemma_count_nonzero_mono(d, 2, 30);
            lemma_count_nonzero_mono(d, 0, 1);
            reveal_with_fuel(count_nonzero, 3);
        }
        d_lengths.set(0, 1);
        proof {
            lemma_count_nonzero_set(d, 0, 30);
        }
        let ghost d1 = d_lengths@;
        d_lengths.set(1, 1);
        proof {
            lemma_count_nonzero_set(d1, 1, 30);
        }
    } else if num_dist_codes == 1 {
        if d_lengths[0] > 0 {
            if d_lengths[1] > 0 {
                proof {
                    lemma_count_nonzero_two(d, 30);
                }
            }
            d_lengths.set(1, 1);
            proof {
                lemma_count_nonzero_set(d, 1, 30);
            }
        } else {
            d_lengths.set(0, 1);
            proof {
                lemma_count_nonzero_set(d, 0, 30);
            }
        }
    }
}

proof fn lemma_count_nonzero_mono(d: Seq<u32>, a: int, b: int)
    requires
        0 <= a <= b,
    ensures
        count_nonzero(d, a) <= count_nonzero(d, b),
    decreases b - a,
{
    if a < b {
        lemma_count_nonzero_mono(d, a, b - 1);
    }
}

proof fn lemma_count_nonzero_set(d: Seq<u32>, j: int, e: int)
    requires
        0 <= j < e <= d.len(),
        d[j] == 0,
    ensures
        count_nonzero(d.update(j, 1), e) == count_nonzero(d, e) + 1,
    decreases e,
{
    if e - 1 > j {
        lemma_count_nonzero_set(d, j, e - 1);
    } else {
        lemma_count_nonzero_frame(d, d.update(j, 1), j);
    }
}

proof fn lemma_count_nonzero_frame(d1: Seq<u32>, d2: Seq<u32>, e: int)
    requires
        0 <= e <= d1.len(),
        e <= d2.len(),
        forall|k: int| 0 <= k < e ==> #[trigger] d1[k] == d2[k],
    ensures
        count_nonzero(d1, e) == count_nonzero(d2, e),
    decreases e,
{
    if e > 0 {
        lemma_count_nonzero_frame(d1, d2, e - 1);
    }
}

proof fn lemma_count_nonzero_two(d: Seq<u32>, e: int)
    requires
        2 <= e <= d.len(),
        d[0] > 0,
        d[1] > 0,
    ensures
        count_nonzero(d, e) >= 2,
    decreases e,
{
    if e > 2 {
        lemma_count_nonzero_two(d, e - 1);
    } else {
        reveal_with_fuel(count_nonzero, 3);
    }
}


/// Bound on the number of tokens for the size estimates, so that bit counts fit.
pub const MAX_TOKENS: usize = usize::MAX / 1048576;

/// The lengths give every symbol used in `counts[..n]` a code, within the Kraft inequality
/// for 15-bit codes.
pub open spec fn code_ok_for(counts: Seq<usize>, lengths: Seq<u32>, n: int) -> bool {
    &&& forall|i: int| 0 <= i < n && counts[i] > 0 ==> #[trigger] lengths[i] >= 1
    &&& kraft_sum(counts, lengths, n, 15) <= two_pow(15)
}

/// Code lengths usable for size estimates: every DEFLATE code length is at most 15.
pub open spec fn lengths_ok(ll_lengths: Seq<u32>, d_lengths: Seq<u32>) -> bool {
    &&& ll_lengths.len() >= NUM_LL
    &&& d_lengths.len() >= NUM_D
    &&& forall|i: int| 0 <= i < NUM_LL ==> #[trigger] ll_lengths[i] <= 15
    &&& forall|i: int| 0 <= i < NUM_D ==> #[trigger] d_lengths[i] <= 15
}

/// Bits of one token under the given code lengths, extra bits included.
pub open spec fn token_cost(ll_lengths: Seq<u32>, d_lengths: Seq<u32>, litlen: u16, dist: u16) -> int {
    if dist == 0 {
        ll_lengths[litlen as int] as int
    } else {
        let ls = length_symbol(litlen as int);
        let ds = dist_symbol(dist as int);
        ll_lengths[ls] + d_lengths[ds] + length_symbol_extra_bits(ls) + dist_symbol_extra_bits(ds)
    }
}

/// Bits of the tokens `a..b`.
pub open spec fn tokens_cost(ll_lengths: Seq<u32>, d_lengths: Seq<u32>, lz77: LZ77Store, a: int, b: int) -> int
    decreases b - a,
{
    if b <= a {
        0
    } else {
        tokens_cost(ll_lengths, d_lengths, lz77, a, b - 1) + token_cost(
            ll_lengths,
            d_lengths,
            lz77.litlens@[b - 1],
            lz77.dists@[b - 1],
        )
    }
}

/// `Σ lengths[i] * counts[i]` over the literal symbols `0..k`.
pub open spec fn literal_bits(ll_lengths: Seq<u32>, counts: Seq<usize>, k: int) -> int
    decreases k,
{
    if k <= 0 {
        0
    } else {
        literal_bits(ll_lengths, counts, k - 1) + ll_lengths[k - 1] * counts[k - 1]
    }
}

/// `Σ (lengths[i] + extra bits) * counts[i]` over the length symbols `257..k`.
pub open spec fn length_bits(ll_lengths: Seq<u32>, counts: Seq<usize>, k: int) -> int
    decreases k,
{
    if k <= 257 {
        0
    } else {
        length_bits(ll_lengths, counts, k - 1) + (ll_lengths[k - 1] + length_symbol_extra_bits(k - 1)) * counts[k - 1]
    }
}

/// `Σ (lengths[i] + extra bits) * counts[i]` over the distance symbols `0..k`.
pub open spec fn distance_bits(d_lengths: Seq<u32>, counts: Seq<usize>, k: int) -> int
    decreases k,
{
    if k <= 0 {
        0
    } else {
        distance_bits(d_lengths, counts, k - 1) + (d_lengths[k - 1] + dist_symbol_extra_bits(k - 1)) * counts[k - 1]
    }
}

/// Bits of the data of a block from its symbol histograms, end symbol included.
pub open spec fn counts_cost(ll_lengths: Seq<u32>, d_lengths: Seq<u32>, ll_counts: Seq<usize>, d_counts: Seq<usize>) -> int {
    literal_bits(ll_lengths, ll_counts, 256) + length_bits(ll_lengths, ll_counts, 286) + distance_bits(
        d_lengths,
        d_counts,
        30,
    ) + ll_lengths[256]
}

/// A range of at least this many tokens is sized from its histogram.
pub open spec fn sized_by_counts(lstart: int, lend: int) -> bool {
    lend - lstart >= 3 * NUM_LL
}

proof fn lemma_token_cost_bound(ll: Seq<u32>, d: Seq<u32>, lz77: LZ77Store, k: int)
    requires
        lengths_ok(ll, d),
        lz77.tokens_wf(),
        0 <= k < lz77.len(),
    ensures
        0 <= token_cost(ll, d, lz77.litlens@[k], lz77.dists@[k]) <= 48,
{
    assert(token_ok(lz77.litlens@[k], lz77.dists@[k]));
    if lz77.dists@[k] != 0 {
        lemma_symbol_ranges(lz77.litlens@[k] as int, lz77.dists@[k] as int);
    }
}

/// Calculates the size of the data of a block (after header and trees) in bits, one
/// token at a time.
fn calculate_block_symbol_size_small(
    ll_lengths: &Vec<u32>,
    d_lengths: &Vec<u32>,
    lz77: &LZ77Store,
    lstart: usize,
    lend: usize,
) -> (r: usize)
    requires
        lz77.wf(),
        lstart <= lend <= lz77.len(),
        lz77.len() <= MAX_TOKENS,
        lengths_ok(ll_lengths@, d_lengths@),
    ensures
        r == tokens_cost(ll_lengths@, d_lengths@, *lz77, lstart as int, lend as int) + ll_lengths@[256],
        r <= 48 * MAX_TOKENS + 15,
{
    let mut result: usize = 0;
    let mut i = lstart;
    proof {
        lemma_budget();
    }
    while i < lend
        invariant
            lz77.wf(),
            lstart <= i <= lend <= lz77.len(),
            lz77.len() <= MAX_TOKENS,
            48 * MAX_TOKENS + 1024 <= usize::MAX,
            lengths_ok(ll_lengths@, d_lengths@),
            result == tokens_cost(ll_lengths@, d_lengths@, *lz77, lstart as int, i as int),
            result <= 48 * (i - lstart),
        decreases lend - i,
    {
        proof {
            lemma_token_cost_bound(ll_lengths@, d_lengths@, *lz77, i as int);
            lemma_token_symbols(*lz77, i as int);
        }
        if lz77.dists[i] == 0 {
            result = result + ll_lengths[lz77.litlens[i] as usize] as usize;
        } else {
            let ll_symbol = get_length_symbol(lz77.litlens[i] as usize);
            let d_symbol = get_dist_symbol(lz77.dists[i] as usize);
            result = result + ll_lengths[ll_symbol] as usize;
            result = result + d_lengths[d_symbol] as usize;
            result = result + get_length_symbol_extra_bits(ll_symbol);
            result = result + get_dist_symbol_extra_bits(d_symbol);
        }
        i = i + 1;
    }
    // The end symbol.
    result + ll_lengths[256] as usize
}


/// Histogram counts usable for size estimates.
pub open spec fn counts_ok(ll_counts: Seq<usize>, d_counts: Seq<usize>) -> bool {
    &&& ll_counts.len() == NUM_LL
    &&& d_counts.len() == NUM_D
    &&& forall|i: int| 0 <= i < NUM_LL ==> #[trigger] ll_counts[i] <= MAX_TOKENS + 1
    &&& forall|i: int| 0 <= i < NUM_D ==> #[trigger] d_counts[i] <= MAX_TOKENS + 1
}

proof fn lemma_budget()
    ensures
        316 * (28 * (MAX_TOKENS + 1)) + 1024 <= usize::MAX,
        48 * MAX_TOKENS + 1024 <= usize::MAX,
        288 * (MAX_TOKENS + 1) + 288 <= usize::MAX / 512,
{
    assert(usize::MAX == 0xffff_ffff || usize::MAX == 0xffff_ffff_ffff_ffff);
}

proof fn lemma_step(i: int, t: int)
    ensures
        i * t + t == (i + 1) * t,
{
    assert(i * t + t == (i + 1) * t) by (nonlinear_arith);
}

proof fn lemma_mono_mul(a: int, b: int, t: int)
    requires
        0 <= a <= b,
        0 <= t,
    ensures
        a * t <= b * t,
{
    assert(a * t <= b * t) by (nonlinear_arith)
        requires 0 <= a <= b, 0 <= t;
}

proof fn lemma_distrib(a: int, b: int, c: int)
    ensures
        (a + b) * c == a * c + b * c,
        0 <= a && 0 <= b && 0 <= c ==> 0 <= b * c && 0 <= a * c,
{
    assert((a + b) * c == a * c + b * c) by (nonlinear_arith);
    assert(0 <= a && 0 <= b && 0 <= c ==> 0 <= b * c && 0 <= a * c) by (nonlinear_arith);
}

proof fn lemma_term_bound(len: int, extra: int, count: int)
    requires
        0 <= len <= 15,
        0 <= extra <= 13,
        0 <= count <= MAX_TOKENS + 1,
    ensures
        0 <= (len + extra) * count <= 28 * (MAX_TOKENS + 1),
{
    assert(0 <= (len + extra) * count <= 28 * (MAX_TOKENS + 1)) by (nonlinear_arith)
        requires 0 <= len <= 15, 0 <= extra <= 13, 0 <= count <= MAX_TOKENS + 1;
}

/// Calculates the size of the data of a block in bits from its histograms; short ranges
/// are sized one token at a time instead.
fn calculate_block_symbol_size_given_counts(
    ll_counts: &Vec<usize>,
    d_counts: &Vec<usize>,
    ll_lengths: &Vec<u32>,
    d_lengths: &Vec<u32>,
    lz77: &LZ77Store,
    lstart: usize,
    lend: usize,
) -> (r: usize)
    requires
        lz77.wf(),
        lstart <= lend <= lz77.len(),
        lz77.len() <= MAX_TOKENS,
        lengths_ok(ll_lengths@, d_lengths@),
        counts_ok(ll_counts@, d_counts@),
    ensures
        r == if sized_by_counts(lstart as int, lend as int) {
            counts_cost(ll_lengths@, d_lengths@, ll_counts@, d_counts@)
        } else {
            tokens_cost(ll_lengths@, d_lengths@, *lz77, lstart as int, lend as int) + ll_lengths@[256]
        },
        r <= 316 * (28 * (MAX_TOKENS + 1)) + 15,
{
    if lend - lstart < NUM_LL * 3 {
        return calculate_block_symbol_size_small(ll_lengths, d_lengths, lz77, lstart, lend);
    }
    let mut result: usize = 0;
    let mut i: usize = 0;
    while i < 256
        invariant
            i <= 256,
            lengths_ok(ll_lengths@, d_lengths@),
            counts_ok(ll_counts@, d_counts@),
            result == literal_bits(ll_lengths@, ll_counts@, i as int),
            result <= i * (28 * (MAX_TOKENS + 1)),
        decreases 256 - i,
    {
        proof {
            lemma_term_bound(ll_lengths@[i as int] as int, 0, ll_counts@[i as int] as int);
            lemma_step(i as int, 28 * (MAX_TOKENS + 1));
            lemma_mono_mul(i + 1, 316, 28 * (MAX_TOKENS + 1));
            lemma_budget();
        }
        result = result + ll_lengths[i] as usize * ll_counts[i];
        i = i + 1;
    }
    let ghost lit = result as int;
    proof {
        lemma_mono_mul(256, 256, 28 * (MAX_TOKENS + 1));
    }
    let mut i: usize = 257;
    while i < 286
        invariant
            257 <= i <= 286,
            lengths_ok(ll_lengths@, d_lengths@),
            counts_ok(ll_counts@, d_counts@),
            result == lit + length_bits(ll_lengths@, ll_counts@, i as int),
            result <= (i - 1) * (28 * (MAX_TOKENS + 1)),
        decreases 286 - i,
    {
        let extra = get_length_symbol_extra_bits(i);
        proof {
            lemma_term_bound(ll_lengths@[i as int] as int, extra as int, ll_counts@[i as int] as int);
            lemma_term_bound(ll_lengths@[i as int] as int, 0, ll_counts@[i as int] as int);
            lemma_distrib(ll_lengths@[i as int] as int, extra as int, ll_counts@[i as int] as int);
            lemma_step(i - 1, 28 * (MAX_TOKENS + 1));
            lemma_mono_mul(i as int, 316, 28 * (MAX_TOKENS + 1));
            lemma_budget();
        }
        result = result + ll_lengths[i] as usize * ll_counts[i];
        result = result + extra * ll_counts[i];
        i = i + 1;
    }
    let ghost lens = result as int;
    let mut i: usize = 0;
    while i < 30
        invariant
            i <= 30,
            lengths_ok(ll_lengths@, d_lengths@),
            counts_ok(ll_counts@, d_counts@),
            result == lens + distance_bits(d_lengths@, d_counts@, i as int),
            result <= (285 + i) * (28 * (MAX_TOKENS + 1)),
        decreases 30 - i,
    {
        let extra = get_dist_symbol_extra_bits(i);
        proof {
            lemma_term_bound(d_lengths@[i as int] as int, extra as int, d_counts@[i as int] as int);
            lemma_term_bound(d_lengths@[i as int] as int, 0, d_counts@[i as int] as int);
            lemma_distrib(d_lengths@[i as int] as int, extra as int, d_counts@[i as int] as int);
            lemma_step(285 + i, 28 * (MAX_TOKENS + 1));
            lemma_mono_mul(286 + i, 316, 28 * (MAX_TOKENS + 1));
            lemma_budget();
        }
        result = result + d_lengths[i] as usize * d_counts[i];
        result = result + extra * d_counts[i];
        i = i + 1;
    }
    proof {
        lemma_mono_mul(315, 316, 28 * (MAX_TOKENS + 1));
        lemma_budget();
    }
    // The end symbol.
    result + ll_lengths[256] as usize
}

/// The histograms of the tokens `lstart..lend`.
pub open spec fn range_ll_counts(lz77: LZ77Store, lstart: int, lend: int) -> Seq<usize> {
    Seq::new(NUM_LL as nat, |s: int| (count_sym(lz77.ll_symbol@, lend, s) - count_sym(lz77.ll_symbol@, lstart, s)) as usize)
}

/// The distance histogram of the tokens `lstart..lend`.
pub open spec fn range_d_counts(lz77: LZ77Store, lstart: int, lend: int) -> Seq<usize> {
    Seq::new(
        NUM_D as nat,
        |s: int|
            (count_dist_sym(lz77.d_symbol@, lz77.dists@, lend, s) - count_dist_sym(lz77.d_symbol@, lz77.dists@, lstart, s)) as usize,
    )
}

/// Bits of the data of the block `lstart..lend` under the given code lengths.
pub open spec fn block_data_bits(ll_lengths: Seq<u32>, d_lengths: Seq<u32>, lz77: LZ77Store, lstart: int, lend: int) -> int {
    tokens_cost(ll_lengths, d_lengths, lz77, lstart, lend) + ll_lengths[256]
}

proof fn lemma_literal_bits_add(l: Seq<u32>, c: Seq<usize>, s: int, k: int)
    requires
        0 <= s < c.len(),
        k <= c.len(),
        c[s] < usize::MAX,
    ensures
        literal_bits(l, c.update(s, (c[s] + 1) as usize), k) == literal_bits(l, c, k) + if 0 <= s < k {
            l[s] as int
        } else {
            0
        },
    decreases k,
{
    if k > 0 {
        lemma_literal_bits_add(l, c, s, k - 1);
        let v = l[k - 1] as int;
        if k - 1 == s {
            assert(v * (c[s] + 1) == v * c[s] + v) by (nonlinear_arith);
        }
    }
}

proof fn lemma_length_bits_add(l: Seq<u32>, c: Seq<usize>, s: int, k: int)
    requires
        0 <= s < c.len(),
        k <= c.len(),
        c[s] < usize::MAX,
    ensures
        length_bits(l, c.update(s, (c[s] + 1) as usize), k) == length_bits(l, c, k) + if 257 <= s < k {
            l[s] + length_symbol_extra_bits(s)
        } else {
            0
        },
    decreases k,
{
    if k > 257 {
        lemma_length_bits_add(l, c, s, k - 1);
        let v = l[k - 1] + length_symbol_extra_bits(k - 1);
        if k - 1 == s {
            assert(v * (c[s] + 1) == v * c[s] + v) by (nonlinear_arith);
        }
    }
}

proof fn lemma_distance_bits_add(l: Seq<u32>, c: Seq<usize>, s: int, k: int)
    requires
        0 <= s < c.len(),
        k <= c.len(),
        c[s] < usize::MAX,
    ensures
        distance_bits(l, c.update(s, (c[s] + 1) as usize), k) == distance_bits(l, c, k) + if 0 <= s < k {
            l[s] + dist_symbol_extra_bits(s)
        } else {
            0
        },
    decreases k,
{
    if k > 0 {
        lemma_distance_bits_add(l, c, s, k - 1);
        let v = l[k - 1] + dist_symbol_extra_bits(k - 1);
        if k - 1 == s {
            assert(v * (c[s] + 1) == v * c[s] + v) by (nonlinear_arith);
        }
    }
}

proof fn lemma_bits_of_zero(l: Seq<u32>, d: Seq<u32>, c: Seq<usize>, e: Seq<usize>, k: int)
    requires
        k <= c.len(),
        forall|i: int| 0 <= i < c.len() ==> #[trigger] c[i] == 0,
        forall|i: int| 0 <= i < e.len() ==> #[trigger] e[i] == 0,
    ensures
        literal_bits(l, c, k) == 0,
        length_bits(l, c, k) == 0,
        k <= e.len() ==> distance_bits(d, e, k) == 0,
    decreases k,
{
    if k > 0 {
        lemma_bits_of_zero(l, d, c, e, k - 1);
    }
}

/// Sizing a block from its histograms gives the per-token sum: the histogram path of
/// `calculate_block_symbol_size` computes `block_data_bits`.
pub proof fn lemma_counts_cost_is_tokens_cost(ll: Seq<u32>, d: Seq<u32>, lz77: LZ77Store, lstart: int, lend: int)
    requires
        lz77.tokens_wf(),
        0 <= lstart <= lend <= lz77.len(),
        lz77.len() <= MAX_TOKENS,
        ll.len() >= NUM_LL,
        d.len() >= NUM_D,
    ensures
        counts_cost(ll, d, range_ll_counts(lz77, lstart, lend), range_d_counts(lz77, lstart, lend)) == block_data_bits(
            ll,
            d,
            lz77,
            lstart,
            lend,
        ),
    decreases lend - lstart,
{
    let syms = lz77.ll_symbol@;
    let ds = lz77.d_symbol@;
    let dd = lz77.dists@;
    if lend == lstart {
        lemma_bits_of_zero(ll, d, range_ll_counts(lz77, lstart, lend), range_d_counts(lz77, lstart, lend), 286);
        lemma_bits_of_zero(ll, d, range_ll_counts(lz77, lstart, lend), range_d_counts(lz77, lstart, lend), 256);
        lemma_bits_of_zero(ll, d, range_ll_counts(lz77, lstart, lend), range_d_counts(lz77, lstart, lend), 30);
    } else {
        let b = lend - 1;
        lemma_counts_cost_is_tokens_cost(ll, d, lz77, lstart, b);
        lemma_token_symbols(lz77, b);
        let c0 = range_ll_counts(lz77, lstart, b);
        let e0 = range_d_counts(lz77, lstart, b);
        let s = syms[b] as int;
        lemma_count_sym_mono(syms, lstart, b, s);
        lemma_count_sym_bound(syms, b, s);
        assert(c0[s] < usize::MAX);
        assert(range_ll_counts(lz77, lstart, lend) =~= c0.update(s, (c0[s] + 1) as usize)) by {
            assert forall|t: int| 0 <= t < NUM_LL implies range_ll_counts(lz77, lstart, lend)[t] == c0.update(
                s,
                (c0[s] + 1) as usize,
            )[t] by {
                lemma_count_sym_mono(syms, lstart, b, t);
            }
        }
        lemma_literal_bits_add(ll, c0, s, 256);
        lemma_length_bits_add(ll, c0, s, 286);
        assert(token_ok(lz77.litlens@[b], dd[b]));
        if dd[b] == 0 {
            assert(range_d_counts(lz77, lstart, lend) =~= e0) by {
                assert forall|t: int| 0 <= t < NUM_D implies range_d_counts(lz77, lstart, lend)[t] == e0[t] by {
                    lemma_count_dist_sym_mono(ds, dd, lstart, b, t);
                }
            }
        } else {
            let t0 = ds[b] as int;
            lemma_count_dist_sym_mono(ds, dd, lstart, b, t0);
            lemma_count_dist_sym_bound(ds, dd, b, t0);
            assert(range_d_counts(lz77, lstart, lend) =~= e0.update(t0, (e0[t0] + 1) as usize)) by {
                assert forall|t: int| 0 <= t < NUM_D implies range_d_counts(lz77, lstart, lend)[t] == e0.update(
                    t0,
                    (e0[t0] + 1) as usize,
                )[t] by {
                    lemma_count_dist_sym_mono(ds, dd, lstart, b, t);
                }
            }
            lemma_distance_bits_add(d, e0, t0, 30);
            lemma_symbol_ranges(lz77.litlens@[b] as int, dd[b] as int);
        }
    }
}

proof fn lemma_range_counts_ok(lz77: LZ77Store, lstart: int, lend: int, ll: Seq<usize>, d: Seq<usize>)
    requires
        lz77.wf(),
        0 <= lstart <= lend <= lz77.len(),
        lz77.len() <= MAX_TOKENS,
        ll.len() == NUM_LL,
        d.len() == NUM_D,
        forall|s: int| 0 <= s < NUM_LL ==> #[trigger] ll[s] == count_sym(lz77.ll_symbol@, lend, s) - count_sym(lz77.ll_symbol@, lstart, s),
        forall|s: int|
            0 <= s < NUM_D ==> #[trigger] d[s] == count_dist_sym(lz77.d_symbol@, lz77.dists@, lend, s) - count_dist_sym(
                lz77.d_symbol@,
                lz77.dists@,
                lstart,
                s,
            ),
    ensures
        counts_ok(ll, d),
        ll == range_ll_counts(lz77, lstart, lend),
        d == range_d_counts(lz77, lstart, lend),
{
    assert forall|s: int| 0 <= s < NUM_LL implies #[trigger] ll[s] <= MAX_TOKENS + 1 by {
        lemma_count_sym_bound(lz77.ll_symbol@, lend, s);
        lemma_count_sym_mono(lz77.ll_symbol@, 0, lstart, s);
    }
    assert forall|s: int| 0 <= s < NUM_D implies #[trigger] d[s] <= MAX_TOKENS + 1 by {
        lemma_count_dist_sym_bound(lz77.d_symbol@, lz77.dists@, lend, s);
        lemma_count_dist_sym_mono(lz77.d_symbol@, lz77.dists@, 0, lstart, s);
    }
    assert(ll =~= range_ll_counts(lz77, lstart, lend));
    assert(d =~= range_d_counts(lz77, lstart, lend));
}

/// Calculates the size of the data of a block (after header and trees) in bits.
fn calculate_block_symbol_size(
    ll_lengths: &Vec<u32>,
    d_lengths: &Vec<u32>,
    lz77: &LZ77Store,
    lstart: usize,
    lend: usize,
) -> (r: usize)
    requires
        lz77.wf(),
        lstart <= lend <= lz77.len(),
        lz77.len() <= MAX_TOKENS,
        lengths_ok(ll_lengths@, d_lengths@),
    ensures
        r == block_data_bits(ll_lengths@, d_lengths@, *lz77, lstart as int, lend as int),
        r <= 316 * (28 * (MAX_TOKENS + 1)) + 15,
{
    if lend - lstart < NUM_LL * 3 {
        calculate_block_symbol_size_small(ll_lengths, d_lengths, lz77, lstart, lend)
    } else {
        let mut ll_counts: Vec<usize> = vec![0usize; NUM_LL];
        let mut d_counts: Vec<usize> = vec![0usize; NUM_D];
        lz77_get_histogram(lz77, lstart, lend, &mut ll_counts, &mut d_counts);
        proof {
            lemma_range_counts_ok(*lz77, lstart as int, lend as int, ll_counts@, d_counts@);
            lemma_counts_cost_is_tokens_cost(ll_lengths@, d_lengths@, *lz77, lstart as int, lend as int);
        }
        calculate_block_symbol_size_given_counts(&ll_counts, &d_counts, ll_lengths, d_lengths, lz77, lstart, lend)
    }
}

/// Bits assumed for the description of the dynamic trees on the greedy path.
pub const TREE_SIZE_ESTIMATE: usize = 500;

/// Size of the tree description of a dynamic block, approximated by a constant.
fn calculate_tree_size(_ll_lengths: &Vec<u32>, _d_lengths: &Vec<u32>) -> (r: usize)
    ensures
        r == TREE_SIZE_ESTIMATE,
{
    TREE_SIZE_ESTIMATE
}


/// Bits of the data of a block as `calculate_block_symbol_size_given_counts` counts them.
pub open spec fn given_counts_bits(
    ll_lengths: Seq<u32>,
    d_lengths: Seq<u32>,
    ll_counts: Seq<usize>,
    d_counts: Seq<usize>,
    lz77: LZ77Store,
    lstart: int,
    lend: int,
) -> int {
    if sized_by_counts(lstart, lend) {
        counts_cost(ll_lengths, d_lengths, ll_counts, d_counts)
    } else {
        tokens_cost(ll_lengths, d_lengths, lz77, lstart, lend) + ll_lengths[256]
    }
}

proof fn lemma_sum_prefix_bound(counts: Seq<usize>, k: int, b: int)
    requires
        0 <= k <= counts.len(),
        forall|i: int| 0 <= i < k ==> #[trigger] counts[i] <= b,
    ensures
        sum_prefix(counts, k) <= k * b,
        0 <= sum_prefix(counts, k),
    decreases k,
{
    if k > 0 {
        lemma_sum_prefix_bound(counts, k - 1, b);
        lemma_step(k - 1, b);
    }
}

proof fn lemma_num_used_bound(freqs: Seq<usize>, n: int)
    requires
        0 <= n,
    ensures
        num_used(freqs, n) <= n,
    decreases n,
{
    if n > 0 {
        lemma_num_used_bound(freqs, n - 1);
    }
}

/// Copies code lengths into `dst`.
fn copy_lengths(src: &Vec<u32>, dst: &mut Vec<u32>)
    requires
        src@.len() == old(dst)@.len(),
    ensures
        final(dst)@ == src@,
{
    let mut i: usize = 0;
    while i < src.len()
        invariant
            i <= src@.len(),
            dst@.len() == src@.len(),
            forall|k: int| 0 <= k < i ==> #[trigger] dst@[k] == src@[k],
        decreases src@.len() - i,
    {
        dst.set(i, src[i]);
        i = i + 1;
    }
    assert(dst@ =~= src@);
}

/// Builds a second code from the histogram made RLE-friendly, and keeps it in
/// `ll_lengths` and `d_lengths` when it makes the block smaller. Returns the bits of
/// trees and data under the code kept.
fn try_optimize_huffman_for_rle(
    lz77: &LZ77Store,
    lstart: usize,
    lend: usize,
    ll_counts: &Vec<usize>,
    d_counts: &Vec<usize>,
    ll_lengths: &mut Vec<u32>,
    d_lengths: &mut Vec<u32>,
) -> (r: usize)
    requires
        lz77.wf(),
        lstart <= lend <= lz77.len(),
        lz77.len() <= MAX_TOKENS,
        counts_ok(ll_counts@, d_counts@),
        lengths_ok(old(ll_lengths)@, old(d_lengths)@),
        old(ll_lengths)@.len() == NUM_LL,
        old(d_lengths)@.len() == NUM_D,
        count_nonzero(old(d_lengths)@, 30) >= 2,
        code_ok_for(ll_counts@, old(ll_lengths)@, NUM_LL as int),
        code_ok_for(d_counts@, old(d_lengths)@, NUM_D as int),
    ensures
        lengths_ok(final(ll_lengths)@, final(d_lengths)@),
        final(ll_lengths)@.len() == NUM_LL,
        final(d_lengths)@.len() == NUM_D,
        count_nonzero(final(d_lengths)@, 30) >= 2,
        code_ok_for(ll_counts@, final(ll_lengths)@, NUM_LL as int),
        code_ok_for(d_counts@, final(d_lengths)@, NUM_D as int),
        r == TREE_SIZE_ESTIMATE + given_counts_bits(
            final(ll_lengths)@,
            final(d_lengths)@,
            ll_counts@,
            d_counts@,
            *lz77,
            lstart as int,
            lend as int,
        ),
        r <= TREE_SIZE_ESTIMATE + given_counts_bits(
            old(ll_lengths)@,
            old(d_lengths)@,
            ll_counts@,
            d_counts@,
            *lz77,
            lstart as int,
            lend as int,
        ),
        r <= 316 * (28 * (MAX_TOKENS + 1)) + 515,
{
    let mut ll_counts2: Vec<usize> = ll_counts.clone();
    let mut d_counts2: Vec<usize> = d_counts.clone();
    assert(ll_counts2@ == ll_counts@);
    assert(d_counts2@ == d_counts@);
    let mut ll_lengths2: Vec<u32> = vec![0u32; NUM_LL];
    let mut d_lengths2: Vec<u32> = vec![0u32; NUM_D];

    let treesize = calculate_tree_size(ll_lengths, d_lengths);
    let datasize = calculate_block_symbol_size_given_counts(ll_counts, d_counts, ll_lengths, d_lengths, lz77, lstart, lend);

    proof {
        lemma_budget();
        lemma_sum_prefix_bound(ll_counts2@, NUM_LL as int, MAX_TOKENS + 1);
        lemma_sum_prefix_bound(d_counts2@, NUM_D as int, MAX_TOKENS + 1);
    }
    optimize_huffman_for_rle(NUM_LL, &mut ll_counts2);
    optimize_huffman_for_rle(NUM_D, &mut d_counts2);
    proof {
        reveal_with_fuel(two_pow, 16);
        lemma_num_used_bound(ll_counts2@, NUM_LL as int);
        lemma_num_used_bound(d_counts2@, NUM_D as int);
        assert forall|i: int| 0 <= i < NUM_LL implies #[trigger] ll_counts2@[i] <= MAX_WEIGHT by {}
        assert forall|i: int| 0 <= i < NUM_D implies #[trigger] d_counts2@[i] <= MAX_WEIGHT by {}
    }
    calculate_bit_lengths(&ll_counts2, NUM_LL, 15, &mut ll_lengths2);
    calculate_bit_lengths(&d_counts2, NUM_D, 15, &mut d_lengths2);
    proof {
        lemma_count_nonzero_mono(d_lengths2@, 0, 30);
    }
    let ghost d_before_patch = d_lengths2@;
    patch_distance_codes_for_buggy_decoders(&mut d_lengths2);
    assert(lengths_ok(ll_lengths2@, d_lengths2@));
    proof {
        lemma_kraft_frame(d_counts2@, d_before_patch, d_lengths2@, NUM_D as int, 15);
        lemma_kraft_subset(ll_counts@, ll_counts2@, ll_lengths2@, NUM_LL as int, 15);
        lemma_kraft_subset(d_counts@, d_counts2@, d_lengths2@, NUM_D as int, 15);
        assert(code_ok_for(ll_counts@, ll_lengths2@, NUM_LL as int));
        assert(code_ok_for(d_counts@, d_lengths2@, NUM_D as int));
    }

    let treesize2 = calculate_tree_size(&ll_lengths2, &d_lengths2);
    let datasize2 = calculate_block_symbol_size_given_counts(ll_counts, d_counts, &ll_lengths2, &d_lengths2, lz77, lstart, lend);

    if treesize2 + datasize2 < treesize + datasize {
        copy_lengths(&ll_lengths2, ll_lengths);
        copy_lengths(&d_lengths2, d_lengths);
        return treesize2 + datasize2;
    }
    treesize + datasize
}

/// The literal/length histogram of a dynamic block: the range's, with one end symbol.
pub open spec fn dynamic_ll_counts(lz77: LZ77Store, lstart: int, lend: int) -> Seq<usize> {
    range_ll_counts(lz77, lstart, lend).update(256, 1)
}

/// Calculates the code lengths of a dynamic block for the tokens `lstart..lend`, and
/// returns the bits of its trees and data.
fn get_dynamic_lengths(
    lz77: &LZ77Store,
    lstart: usize,
    lend: usize,
    ll_lengths: &mut Vec<u32>,
    d_lengths: &mut Vec<u32>,
) -> (r: usize)
    requires
        lz77.wf(),
        lstart <= lend <= lz77.len(),
        lz77.len() <= MAX_TOKENS,
        old(ll_lengths)@.len() == NUM_LL,
        old(d_lengths)@.len() == NUM_D,
    ensures
        lengths_ok(final(ll_lengths)@, final(d_lengths)@),
        final(ll_lengths)@.len() == NUM_LL,
        final(d_lengths)@.len() == NUM_D,
        count_nonzero(final(d_lengths)@, 30) >= 2,
        code_ok_for(dynamic_ll_counts(*lz77, lstart as int, lend as int), final(ll_lengths)@, NUM_LL as int),
        code_ok_for(range_d_counts(*lz77, lstart as int, lend as int), final(d_lengths)@, NUM_D as int),
        r == TREE_SIZE_ESTIMATE + given_counts_bits(
            final(ll_lengths)@,
            final(d_lengths)@,
            dynamic_ll_counts(*lz77, lstart as int, lend as int),
            range_d_counts(*lz77, lstart as int, lend as int),
            *lz77,
            lstart as int,
            lend as int,
        ),
        r <= 316 * (28 * (MAX_TOKENS + 1)) + 515,
{
    let mut ll_counts: Vec<usize> = vec![0usize; NUM_LL];
    let mut d_counts: Vec<usize> = vec![0usize; NUM_D];

    lz77_get_histogram(lz77, lstart, lend, &mut ll_counts, &mut d_counts);
    proof {
        lemma_range_counts_ok(*lz77, lstart as int, lend as int, ll_counts@, d_counts@);
    }
    // The end symbol.
    ll_counts.set(256, 1);
    assert(counts_ok(ll_counts@, d_counts@));
    assert(ll_counts@ == dynamic_ll_counts(*lz77, lstart as int, lend as int));

    proof {
        lemma_budget();
        reveal_with_fuel(two_pow, 16);
        lemma_num_used_bound(ll_counts@, NUM_LL as int);
        lemma_num_used_bound(d_counts@, NUM_D as int);
    }
    calculate_bit_lengths(&ll_counts, NUM_LL, 15, ll_lengths);
    calculate_bit_lengths(&d_counts, NUM_D, 15, d_lengths);
    proof {
        lemma_count_nonzero_mono(d_lengths@, 0, 30);
    }
    let ghost d_before_patch = d_lengths@;
    patch_distance_codes_for_buggy_decoders(d_lengths);
    assert(lengths_ok(ll_lengths@, d_lengths@));
    proof {
        lemma_kraft_frame(d_counts@, d_before_patch, d_lengths@, NUM_D as int, 15);
    }

    try_optimize_huffman_for_rle(lz77, lstart, lend, &ll_counts, &d_counts, ll_lengths, d_lengths)
}

/// Bits of a stored block of `length` bytes: five header bytes per 65535-byte piece,
/// then the bytes.
pub open spec fn stored_bits(length: int) -> int {
    (length / 65535 + if length % 65535 > 0 { 1int } else { 0int }) * 40 + length * 8
}

/// The bytes the tokens `lstart..lend` stand for, when their positions are consistent.
pub open spec fn range_bytes(lz77: LZ77Store, lstart: int, lend: int) -> int {
    if lstart >= lend {
        0
    } else {
        lz77.pos@[lend - 1] + token_len(lz77.litlens@[lend - 1], lz77.dists@[lend - 1]) - lz77.pos@[lstart]
    }
}

/// The token range is one that a block can be sized for: valid tokens, positions in order,
/// and bounded sizes.
pub open spec fn block_range_ok(lz77: LZ77Store, lstart: int, lend: int) -> bool {
    &&& lz77.wf()
    &&& 0 <= lstart <= lend <= lz77.len()
    &&& lz77.len() <= MAX_TOKENS
    &&& lstart < lend ==> lz77.pos@[lend - 1] + token_len(lz77.litlens@[lend - 1], lz77.dists@[lend - 1]) <= usize::MAX
    &&& lstart < lend ==> lz77.pos@[lstart] <= lz77.pos@[lend - 1] + token_len(
        lz77.litlens@[lend - 1],
        lz77.dists@[lend - 1],
    )
    &&& range_bytes(lz77, lstart, lend) <= usize::MAX / 16
}

/// The fixed literal/length code lengths.
pub open spec fn fixed_ll_lengths() -> Seq<u32> {
    Seq::new(NUM_LL as nat, |i: int| fixed_ll_length(i))
}

/// The fixed distance code lengths.
pub open spec fn fixed_d_lengths() -> Seq<u32> {
    Seq::new(NUM_D as nat, |i: int| 5u32)
}

/// Calculates the size of a block in bits: `btype` 0 is stored, 1 fixed Huffman, any
/// other dynamic Huffman. The stored size counts no header bits; the others count 3.
pub fn calculate_block_size(lz77: &LZ77Store, lstart: usize, lend: usize, btype: i32) -> (r: usize)
    requires
        block_range_ok(*lz77, lstart as int, lend as int),
    ensures
        btype == 0 ==> r == stored_bits(range_bytes(*lz77, lstart as int, lend as int)),
        btype == 1 ==> r == 3 + block_data_bits(fixed_ll_lengths(), fixed_d_lengths(), *lz77, lstart as int, lend as int),
        btype != 0 && btype != 1 ==> exists|ll: Seq<u32>, d: Seq<u32>|
            #[trigger] lengths_ok(ll, d) && count_nonzero(d, 30) >= 2 && code_ok_for(
                dynamic_ll_counts(*lz77, lstart as int, lend as int),
                ll,
                NUM_LL as int,
            ) && code_ok_for(range_d_counts(*lz77, lstart as int, lend as int), d, NUM_D as int) && r == 3 + TREE_SIZE_ESTIMATE + given_counts_bits(
                ll,
                d,
                dynamic_ll_counts(*lz77, lstart as int, lend as int),
                range_d_counts(*lz77, lstart as int, lend as int),
                *lz77,
                lstart as int,
                lend as int,
            ),
{
    let mut ll_lengths: Vec<u32> = vec![0u32; NUM_LL];
    let mut d_lengths: Vec<u32> = vec![0u32; NUM_D];
    proof {
        lemma_budget();
    }

    if btype == 0 {
        // Uncompressed.
        let length = lz77_get_byte_range(lz77, lstart, lend);
        let rem = length % 65535;
        let blocks = length / 65535 + if rem > 0 { 1 } else { 0 };
        return blocks * 5 * 8 + length * 8;
    }
    let result: usize = 3; // The bfinal and btype bits.
    if btype == 1 {
        // Fixed tree.
        get_fixed_tree(&mut ll_lengths, &mut d_lengths);
        assert(ll_lengths@ =~= fixed_ll_lengths());
        assert(d_lengths@ =~= fixed_d_lengths());
        result + calculate_block_symbol_size(&ll_lengths, &d_lengths, lz77, lstart, lend)
    } else {
        // Dynamic tree.
        let r = result + get_dynamic_lengths(lz77, lstart, lend, &mut ll_lengths, &mut d_lengths);
        assert(lengths_ok(ll_lengths@, d_lengths@) && count_nonzero(d_lengths@, 30) >= 2 && code_ok_for(
            dynamic_ll_counts(*lz77, lstart as int, lend as int),
            ll_lengths@,
            NUM_LL as int,
        ) && code_ok_for(range_d_counts(*lz77, lstart as int, lend as int), d_lengths@, NUM_D as int));
        r
    }
}

/// Calculates the size of a block in bits under its best encoding. For more than 1000
/// tokens the fixed code is not tried, as it is unlikely to win there.
pub fn calculate_block_size_auto_type(lz77: &LZ77Store, lstart: usize, lend: usize) -> (r: usize)
    requires
        block_range_ok(*lz77, lstart as int, lend as int),
    ensures
        r <= stored_bits(range_bytes(*lz77, lstart as int, lend as int)),
        lz77.len() <= 1000 ==> r <= 3 + block_data_bits(fixed_ll_lengths(), fixed_d_lengths(), *lz77, lstart as int, lend as int),
        exists|ll: Seq<u32>, d: Seq<u32>|
            #[trigger] lengths_ok(ll, d) && count_nonzero(d, 30) >= 2 && code_ok_for(
                dynamic_ll_counts(*lz77, lstart as int, lend as int),
                ll,
                NUM_LL as int,
            ) && code_ok_for(range_d_counts(*lz77, lstart as int, lend as int), d, NUM_D as int) && ({
                let dynamic = 3 + TREE_SIZE_ESTIMATE + given_counts_bits(
                    ll,
                    d,
                    dynamic_ll_counts(*lz77, lstart as int, lend as int),
                    range_d_counts(*lz77, lstart as int, lend as int),
                    *lz77,
                    lstart as int,
                    lend as int,
                );
                &&& r <= dynamic
                &&& r == stored_bits(range_bytes(*lz77, lstart as int, lend as int)) || (lz77.len() <= 1000 && r == 3
                    + block_data_bits(fixed_ll_lengths(), fixed_d_lengths(), *lz77, lstart as int, lend as int))
                    || r == dynamic
            }),
{
    let uncompressedcost = calculate_block_size(lz77, lstart, lend, 0);
    // The fixed cost is not worth computing for larger blocks, which rarely use it.
    let fixedcost = if lz77.size() > 1000 {
        uncompressedcost
    } else {
        calculate_block_size(lz77, lstart, lend, 1)
    };
    let dyncost = calculate_block_size(lz77, lstart, lend, 2);
    let ghost dyn_lengths = choose|ll: Seq<u32>, d: Seq<u32>|
        #[trigger] lengths_ok(ll, d) && count_nonzero(d, 30) >= 2 && code_ok_for(
            dynamic_ll_counts(*lz77, lstart as int, lend as int),
            ll,
            NUM_LL as int,
        ) && code_ok_for(range_d_counts(*lz77, lstart as int, lend as int), d, NUM_D as int) && dyncost == 3 + TREE_SIZE_ESTIMATE + given_counts_bits(
            ll,
            d,
            dynamic_ll_counts(*lz77, lstart as int, lend as int),
            range_d_counts(*lz77, lstart as int, lend as int),
            *lz77,
            lstart as int,
            lend as int,
        );

    let r = if uncompressedcost < fixedcost && uncompressedcost < dyncost {
        uncompressedcost
    } else if fixedcost < dyncost {
        fixedcost
    } else {
        dyncost
    };
    assert(lengths_ok(dyn_lengths.0, dyn_lengths.1));
    r
}

} // verus!
