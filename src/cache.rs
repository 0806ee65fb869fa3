//! The per-block cache of longest-match results.
use vstd::prelude::*;
use crate::types::{LongestMatchCache, BlockState, CACHE_LENGTH, MIN_MATCH, MAX_MATCH, WINDOW_SIZE};
use crate::lz77::match_valid;

verus! {

/// Length byte of record `j` at cache position `pos`, plus 3.
pub open spec fn rec_len(c: Seq<u8>, pos: int, j: int) -> int {
    c[24 * pos + 3 * j] + 3
}

/// Distance of record `j` at cache position `pos`.
pub open spec fn rec_dist(c: Seq<u8>, pos: int, j: int) -> int {
    c[24 * pos + 3 * j + 1] + 256 * c[24 * pos + 3 * j + 2]
}

/// The length up to which sublens are cached at `pos`: 0 when the first record's
/// distance is 0, else the length of the last record.
pub open spec fn max_cached(c: Seq<u8>, pos: int) -> int {
    if c[24 * pos + 1] == 0 && c[24 * pos + 2] == 0 {
        0
    } else {
        rec_len(c, pos, 7)
    }
}

/// The distance cached for length `i`: that of the first record from `j` on whose
/// length is at least `i` (0 if none).
pub open spec fn cached_dist_from(c: Seq<u8>, pos: int, i: int, j: int) -> int
    decreases 8 - j,
{
    if j >= 8 {
        0
    } else if rec_len(c, pos, j) >= i {
        rec_dist(c, pos, j)
    } else {
        cached_dist_from(c, pos, i, j + 1)
    }
}

/// The distance cached for length `i` at `pos`.
pub open spec fn cached_dist(c: Seq<u8>, pos: int, i: int) -> int {
    cached_dist_from(c, pos, i, 0)
}

/// From record `j` on, record lengths increase until one equals `m`.
pub open spec fn records_sorted_from(c: Seq<u8>, pos: int, j: int, m: int) -> bool
    decreases 8 - j,
{
    if j >= 8 {
        false
    } else if rec_len(c, pos, j) == m {
        true
    } else {
        &&& rec_len(c, pos, j) < m
        &&& j + 1 < 8
        &&& rec_len(c, pos, j) < rec_len(c, pos, j + 1)
        &&& records_sorted_from(c, pos, j + 1, m)
    }
}

/// The records at `pos` are as `sublen_to_cache` writes them: increasing lengths up
/// to the cached maximum.
pub open spec fn records_sorted(c: Seq<u8>, pos: int) -> bool {
    max_cached(c, pos) >= 3 ==> records_sorted_from(c, pos, 0, max_cached(c, pos))
}

/// The sublen table `sublen[3..=m]` is what the cache at `pos` gives back.
pub open spec fn cache_holds(c: Seq<u8>, pos: int, sublen: Seq<u16>, m: int) -> bool {
    forall|i: int| 3 <= i <= m ==> cached_dist(c, pos, i) == #[trigger] sublen[i] as int
}

/// Index of the first record byte of cache position `pos`.
fn record_base(lmc: &LongestMatchCache, pos: usize) -> (r: usize)
    requires
        lmc.wf(),
        pos < lmc.length@.len(),
    ensures
        r == 24 * pos,
        r + 24 <= lmc.sublen@.len(),
        r + 24 <= usize::MAX,
{
    let total = lmc.sublen.len();
    assert(24 * pos + 24 <= 24 * lmc.length@.len()) by (nonlinear_arith)
        requires pos < lmc.length@.len();
    CACHE_LENGTH * 3 * pos
}

/// Returns the length up to which could be stored in the cache.
pub fn max_cached_sublen(lmc: &LongestMatchCache, pos: usize, _length: usize) -> (r: usize)
    requires
        lmc.wf(),
        pos < lmc.length@.len(),
    ensures
        r as int == max_cached(lmc.sublen@, pos as int),
{
    let cache_start = record_base(lmc, pos);
    if lmc.sublen[cache_start + 1] == 0 && lmc.sublen[cache_start + 2] == 0 {
        return 0;
    }
    lmc.sublen[(CACHE_LENGTH - 1) * 3 + cache_start] as usize + 3
}

/// Whether `try_get_from_longest_match_cache` can use position `p` at all: it is filled and
/// its length respects `limit`, or the sublens reach `limit`.
pub open spec fn cache_usable(c: LongestMatchCache, p: int, limit: int, want_sublen: bool) -> bool {
    &&& c.filled(p)
    &&& (limit == MAX_MATCH || c.length@[p] <= limit || (want_sublen && max_cached(c.sublen@, p) >= limit))
}

/// Whether `try_get_from_longest_match_cache` answers from position `p`.
pub open spec fn cache_hit(c: LongestMatchCache, p: int, limit: int, want_sublen: bool) -> bool {
    &&& cache_usable(c, p, limit, want_sublen)
    &&& (!want_sublen || c.length@[p] <= max_cached(c.sublen@, p))
}

/// Stores the found sublen, distance and length in the longest match cache, when the
/// search was unrestricted (`limit == MAX_MATCH`), sublens were asked for, and the
/// position is not filled yet. A length under `MIN_MATCH` is stored as "no match" (0, 0).
pub fn store_in_longest_match_cache(
    s: &mut BlockState,
    pos: usize,
    limit: usize,
    sublen: Option<&[u16]>,
    distance: u16,
    length: u16,
)
    requires
        old(s).wf(),
        old(s).lmc is Some ==> old(s).blockstart <= pos < old(s).blockend,
        length <= MAX_MATCH,
        sublen matches Some(v) ==> v@.len() > length,
    ensures
        final(s).wf(),
        final(s).options == old(s).options,
        final(s).blockstart == old(s).blockstart,
        final(s).blockend == old(s).blockend,
        final(s).lmc is Some == old(s).lmc is Some,
        ({
            let p = pos - old(s).blockstart;
            match (old(s).lmc, final(s).lmc) {
                (Some(c0), Some(c1)) => if limit == MAX_MATCH && sublen is Some && !c0.filled(p) {
                    &&& c1.dist@ == c0.dist@.update(p, if length < 3 { 0u16 } else { distance })
                    &&& c1.length@ == c0.length@.update(p, if length < 3 { 0u16 } else { length })
                    &&& length >= 3 ==> records_sorted(c1.sublen@, p)
                    &&& length >= 3 ==> max_cached(c1.sublen@, p) <= length
                    &&& length >= 3 ==> cache_holds(c1.sublen@, p, sublen.unwrap()@, max_cached(c1.sublen@, p))
                    &&& length >= 3 && sublen_nonzero(sublen.unwrap()@, length as int) ==> kept_length(
                        sublen.unwrap()@,
                        length as int,
                        max_cached(c1.sublen@, p),
                    )
                    &&& forall|x: int|
                        0 <= x < c1.sublen@.len() && !(24 * p <= x < 24 * p + 24) ==> #[trigger] c1.sublen@[x]
                            == c0.sublen@[x]
                } else {
                    c1 == c0
                },
                _ => true,
            }
        }),
{
    let blockstart = s.blockstart;
    match &mut s.lmc {
        Some(lmc) => {
            // The cache starts at the beginning of the block rather than of the input.
            let lmcpos = pos - blockstart;
            // A length above 0 with distance 0 marks a position that is not filled yet.
            let cache_available = lmc.length[lmcpos] == 0 || lmc.dist[lmcpos] != 0;
            match sublen {
                Some(sublen_arr) => {
                    if limit == MAX_MATCH && !cache_available {
                        let d = if length < MIN_MATCH as u16 { 0 } else { distance };
                        let l = if length < MIN_MATCH as u16 { 0 } else { length };
                        lmc.dist.set(lmcpos, d);
                        lmc.length.set(lmcpos, l);
                        sublen_to_cache(sublen_arr, lmcpos, length as usize, lmc);
                    }
                }
                None => {}
            }
        }
        None => {}
    }
}

/// Gets distance, length and sublen values from the cache if possible. Returns true
/// if it got the values from the cache. When the cache holds a result that cannot be
/// used but bounds the match length, lowers `limit` to it.
pub fn try_get_from_longest_match_cache(
    s: &BlockState,
    pos: usize,
    limit: &mut usize,
    sublen: Option<&mut Vec<u16>>,
    distance: &mut u16,
    length: &mut u16,
) -> (r: bool)
    requires
        s.wf(),
        s.lmc is Some ==> s.blockstart <= pos < s.blockend,
        sublen matches Some(v) ==> v@.len() > MAX_MATCH,
    ensures
        ({
            let p = pos - s.blockstart;
            let want = sublen is Some;
            match s.lmc {
                None => !r && *final(limit) == *old(limit) && *final(length) == *old(length)
                    && *final(distance) == *old(distance),
                Some(c) => {
                    &&& r == cache_hit(c, p, *old(limit) as int, want)
                    &&& r ==> *final(limit) == *old(limit)
                    &&& r ==> *final(length) as int == if c.length@[p] > *old(limit) {
                        *old(limit) as int
                    } else {
                        c.length@[p] as int
                    }
                    &&& r && !want ==> *final(distance) == c.dist@[p]
                    &&& !r ==> *final(length) == *old(length) && *final(distance) == *old(distance)
                    &&& !r ==> *final(limit) == if cache_usable(c, p, *old(limit) as int, want) && c.length@[p]
                        < *old(limit) {
                        c.length@[p] as usize
                    } else {
                        *old(limit)
                    }
                },
            }
        }),
        sublen matches Some(v) ==> final(v)@.len() == v@.len(),
        sublen matches Some(v) ==> (r ==> *final(distance) == final(v)@[*final(length) as int]),
        sublen matches Some(v) ==> (r && *final(length) >= 3 && records_sorted(s.lmc.unwrap().sublen@, pos - s.blockstart)
            ==> cache_holds(s.lmc.unwrap().sublen@, pos - s.blockstart, final(v)@, max_cached(s.lmc.unwrap().sublen@, pos - s.blockstart))),
        sublen matches Some(v) ==> (!r ==> final(v)@ == v@),
{
    match &s.lmc {
        Some(lmc) => {
            // The cache starts at the beginning of the block rather than of the input.
            let lmcpos = pos - s.blockstart;
            // A length above 0 with distance 0 marks a position that is not filled yet.
            let cache_available = lmc.length[lmcpos] == 0 || lmc.dist[lmcpos] != 0;
            let want_sublen = sublen.is_some();
            let cached_length = lmc.length[lmcpos];
            let limit_ok_for_cache = cache_available && (*limit == MAX_MATCH || cached_length as usize <= *limit
                || (want_sublen && max_cached_sublen(lmc, lmcpos, cached_length as usize) >= *limit));
            if limit_ok_for_cache {
                if !want_sublen || cached_length as usize <= max_cached_sublen(lmc, lmcpos, cached_length as usize) {
                    *length = cached_length;
                    if *length as usize > *limit {
                        *length = *limit as u16;
                    }
                    match sublen {
                        Some(sublen_arr) => {
                            cache_to_sublen(lmc, lmcpos, *length as usize, sublen_arr);
                            *distance = sublen_arr[*length as usize];
                        }
                        None => {
                            *distance = lmc.dist[lmcpos];
                        }
                    }
                    return true;
                }
                // The sublens would have to be computed, but at least the search need not
                // go past the cached length.
                if (cached_length as usize) < *limit {
                    *limit = cached_length as usize;
                }
            }
            false
        }
        None => false,
    }
}

/// Storing a sublen table with `sublen_to_cache` and reading it back with
/// `cache_to_sublen` gives the table again, for every length from 3 up to the cached
/// maximum: both contracts pin the table on those lengths to `cached_dist`.
pub proof fn lemma_sublen_cache_round_trip(c: Seq<u8>, pos: int, stored: Seq<u16>, read_back: Seq<u16>)
    requires
        cache_holds(c, pos, stored, max_cached(c, pos)),
        cache_holds(c, pos, read_back, max_cached(c, pos)),
    ensures
        forall|i: int| 3 <= i <= max_cached(c, pos) ==> #[trigger] read_back[i] == stored[i],
{
    assert forall|i: int| 3 <= i <= max_cached(c, pos) implies #[trigger] read_back[i] == stored[i] by {
        assert(cached_dist(c, pos, i) == stored[i] as int);
        assert(cached_dist(c, pos, i) == read_back[i] as int);
    }
}

/// Before the first record whose length reaches `t`, nothing counts.
proof fn lemma_cached_dist_skip(c: Seq<u8>, pos: int, t: int, k: int)
    requires
        0 <= k <= 8,
        forall|m: int| 0 <= m < k ==> #[trigger] rec_len(c, pos, m) < t,
    ensures
        cached_dist(c, pos, t) == cached_dist_from(c, pos, t, k),
    decreases k,
{
    if k > 0 {
        assert(rec_len(c, pos, k - 1) < t);
        lemma_cached_dist_skip(c, pos, t, k - 1);
    }
}

/// Strictly increasing record lengths are increasing between any two records.
proof fn lemma_rec_len_increasing(c: Seq<u8>, pos: int, m: int, q: int, j: int)
    requires
        0 <= m <= q < j,
        forall|k: int| 0 <= k && k + 1 < j ==> #[trigger] rec_len(c, pos, k) < rec_len(c, pos, k + 1),
    ensures
        rec_len(c, pos, m) <= rec_len(c, pos, q),
        m < q ==> rec_len(c, pos, m) < rec_len(c, pos, q),
    decreases q - m,
{
    if m < q {
        lemma_rec_len_increasing(c, pos, m, q - 1, j);
        assert(rec_len(c, pos, q - 1) < rec_len(c, pos, q));
    }
}

/// The distance cached for `t` depends only on the records up to one that reaches `t`.
proof fn lemma_cached_dist_frame(c1: Seq<u8>, c2: Seq<u8>, pos: int, t: int, m: int, k: int)
    requires
        0 <= m <= k < 8,
        rec_len(c1, pos, k) >= t,
        forall|x: int| 24 * pos + 3 * m <= x < 24 * pos + 3 * k + 3 ==> #[trigger] c1[x] == c2[x],
    ensures
        cached_dist_from(c1, pos, t, m) == cached_dist_from(c2, pos, t, m),
    decreases k - m,
{
    assert(c1[24 * pos + 3 * m] == c2[24 * pos + 3 * m]);
    assert(c1[24 * pos + 3 * m + 1] == c2[24 * pos + 3 * m + 1]);
    assert(c1[24 * pos + 3 * m + 2] == c2[24 * pos + 3 * m + 2]);
    if rec_len(c1, pos, m) < t {
        lemma_cached_dist_frame(c1, c2, pos, t, m + 1, k);
    }
}

/// `i` ends a run of equal distances in `sublen[3..=length]`: the table changes after it,
/// or it is the last length.
pub open spec fn is_boundary(sublen: Seq<u16>, length: int, i: int) -> bool {
    3 <= i <= length && (i == length || sublen[i] != sublen[i + 1])
}

/// Number of boundaries below `i`.
pub open spec fn count_boundaries(sublen: Seq<u16>, length: int, i: int) -> nat
    decreases i,
{
    if i <= 3 {
        0
    } else {
        count_boundaries(sublen, length, i - 1) + if is_boundary(sublen, length, i - 1) { 1nat } else { 0nat }
    }
}

proof fn lemma_count_boundaries_mono(sublen: Seq<u16>, length: int, a: int, b: int)
    requires
        a <= b,
    ensures
        count_boundaries(sublen, length, a) <= count_boundaries(sublen, length, b),
        a <= length < b && a >= 3 ==> count_boundaries(sublen, length, a) + 1 <= count_boundaries(sublen, length, b),
    decreases b - a,
{
    if a < b {
        lemma_count_boundaries_mono(sublen, length, a, b - 1);
    }
}

/// All distances of `sublen[3..=length]` are nonzero.
pub open spec fn sublen_nonzero(sublen: Seq<u16>, length: int) -> bool {
    forall|k: int| 3 <= k <= length ==> #[trigger] sublen[k] != 0
}

/// The length up to which `sublen_to_cache` keeps the table: all of it when it has at most
/// `CACHE_LENGTH` boundaries, else up to the last boundary that fits.
pub open spec fn kept_length(sublen: Seq<u16>, length: int, m: int) -> bool {
    &&& count_boundaries(sublen, length, length + 1) <= 8 ==> m == length
    &&& count_boundaries(sublen, length, length + 1) > 8 ==> is_boundary(sublen, length, m)
        && count_boundaries(sublen, length, m + 1) == 8
}

/// Stores the sublen table `sublen[3..=length]` in the cache at `pos`: one record per
/// length where the distance changes, at most `CACHE_LENGTH` of them.
pub fn sublen_to_cache(sublen: &[u16], pos: usize, length: usize, lmc: &mut LongestMatchCache)
    requires
        old(lmc).wf(),
        pos < old(lmc).length@.len(),
        length <= MAX_MATCH,
        length < sublen@.len(),
    ensures
        final(lmc).wf(),
        final(lmc).length == old(lmc).length,
        final(lmc).dist == old(lmc).dist,
        final(lmc).sublen@.len() == old(lmc).sublen@.len(),
        forall|x: int|
            0 <= x < final(lmc).sublen@.len() && !(24 * pos <= x < 24 * pos + 24)
                ==> #[trigger] final(lmc).sublen@[x] == old(lmc).sublen@[x],
        length < 3 ==> final(lmc).sublen == old(lmc).sublen,
        length >= 3 ==> records_sorted(final(lmc).sublen@, pos as int),
        length >= 3 ==> max_cached(final(lmc).sublen@, pos as int) <= length,
        length >= 3 ==> cache_holds(
            final(lmc).sublen@,
            pos as int,
            sublen@,
            max_cached(final(lmc).sublen@, pos as int),
        ),
        length >= 3 && sublen_nonzero(sublen@, length as int) ==> kept_length(
            sublen@,
            length as int,
            max_cached(final(lmc).sublen@, pos as int),
        ),
{
    let mut j: usize = 0;
    let mut bestlength: usize = 0;
    let cache_start = record_base(lmc, pos);
    let ghost p = pos as int;

    if length < 3 {
        return;
    }

    let mut i: usize = 3;
    while i <= length && j < CACHE_LENGTH
        invariant
            3 <= i <= length + 1,
            length <= MAX_MATCH,
            length < sublen@.len(),
            j <= 8,
            j <= i - 3,
            j < 8 ==> i <= length + 1,
            cache_start == 24 * pos,
            p == pos as int,
            cache_start + 24 <= lmc.sublen@.len(),
            cache_start + 24 <= usize::MAX,
            lmc.wf(),
            pos < lmc.length@.len(),
            i == length + 1 ==> j > 0 && bestlength == length,
            lmc.length == old(lmc).length,
            lmc.dist == old(lmc).dist,
            lmc.sublen@.len() == old(lmc).sublen@.len(),
            forall|x: int|
                0 <= x < lmc.sublen@.len() && !(24 * pos <= x < 24 * pos + 24)
                    ==> #[trigger] lmc.sublen@[x] == old(lmc).sublen@[x],
            j == 0 ==> bestlength == 0,
            j > 0 ==> bestlength == rec_len(lmc.sublen@, p, j - 1),
            bestlength < i,
            forall|k: int| 0 <= k < j ==> 3 <= #[trigger] rec_len(lmc.sublen@, p, k) < i,
            forall|k: int|
                0 <= k < j ==> #[trigger] rec_dist(lmc.sublen@, p, k) == sublen@[rec_len(lmc.sublen@, p, k)] as int,
            forall|k: int|
                0 <= k && k + 1 < j ==> #[trigger] rec_len(lmc.sublen@, p, k) < rec_len(lmc.sublen@, p, k + 1),
            forall|t: int| 3 <= t < i && bestlength < t ==> #[trigger] sublen@[t] == sublen@[i as int],
            forall|t: int| 3 <= t <= bestlength ==> #[trigger] cached_dist(lmc.sublen@, p, t) == sublen@[t] as int,
            j == count_boundaries(sublen@, length as int, i as int),
            j > 0 ==> is_boundary(sublen@, length as int, bestlength as int) && count_boundaries(
                sublen@,
                length as int,
                bestlength + 1,
            ) == j,
        decreases length + 1 - i,
    {
        if i == length || sublen[i] != sublen[i + 1] {
            let ghost before = lmc.sublen@;
            let d = sublen[i];
            lmc.sublen.set(cache_start + j * 3, (i - 3) as u8);
            lmc.sublen.set(cache_start + j * 3 + 1, (d % 256) as u8);
            lmc.sublen.set(cache_start + j * 3 + 2, (d / 256) as u8);
            proof {
                let c = lmc.sublen@;
                assert(cache_start == 24 * p);
                let a = cache_start + j * 3;
                assert(a == 24 * p + 3 * j);
                assert(c[a as int] == (i - 3) as u8);
                assert(c[a + 1] == (d % 256) as u8);
                assert(c[a + 2] == (d / 256) as u8);
                assert(((i - 3) as u8) as int == i - 3);
                assert(rec_len(c, p, j as int) == i);
                assert(rec_dist(c, p, j as int) == d as int);
                assert forall|k: int| 0 <= k < j implies #[trigger] rec_len(c, p, k) == rec_len(before, p, k)
                    && rec_dist(c, p, k) == rec_dist(before, p, k) by {
                    assert(c[24 * p + 3 * k] == before[24 * p + 3 * k]);
                    assert(c[24 * p + 3 * k + 1] == before[24 * p + 3 * k + 1]);
                    assert(c[24 * p + 3 * k + 2] == before[24 * p + 3 * k + 2]);
                }
                assert forall|x: int| 24 * p <= x < 24 * p + 3 * j implies #[trigger] before[x] == c[x] by {}
                assert forall|t: int| 3 <= t <= i implies #[trigger] cached_dist(c, p, t) == sublen@[t] as int by {
                    if t <= bestlength {
                        assert(j > 0);
                        lemma_cached_dist_frame(before, c, p, t, 0, j - 1);
                        assert(cached_dist(before, p, t) == sublen@[t] as int);
                    } else {
                        assert forall|m: int| 0 <= m < j implies #[trigger] rec_len(c, p, m) < t by {
                            lemma_rec_len_increasing(before, p, m, j - 1, j as int);
                            assert(rec_len(c, p, m) == rec_len(before, p, m));
                        }
                        lemma_cached_dist_skip(c, p, t, j as int);
                        assert(cached_dist_from(c, p, t, j as int) == rec_dist(c, p, j as int));
                        if t < i {
                            assert(sublen@[t] == sublen@[i as int]);
                        }
                    }
                }
            }
            bestlength = i;
            j = j + 1;
        }
        assert(count_boundaries(sublen@, length as int, i + 1) == count_boundaries(sublen@, length as int, i as int)
            + if is_boundary(sublen@, length as int, i as int) { 1nat } else { 0nat });
        i = i + 1;
    }

    if j < CACHE_LENGTH {
        let ghost before = lmc.sublen@;
        lmc.sublen.set(cache_start + (CACHE_LENGTH - 1) * 3, (bestlength - 3) as u8);
        proof {
            let c = lmc.sublen@;
            assert(j >= 1 && rec_len(before, p, j - 1) == bestlength);
            assert forall|x: int| 24 * p <= x < 24 * p + 3 * (j - 1) + 3 implies #[trigger] before[x] == c[x] by {}
            assert forall|t: int| 3 <= t <= bestlength implies #[trigger] cached_dist(c, p, t) == sublen@[t] as int by {
                assert(cached_dist(before, p, t) == sublen@[t] as int);
                lemma_cached_dist_frame(before, c, p, t, 0, j - 1);
            }
            assert forall|k: int| 0 <= k < j implies #[trigger] rec_len(c, p, k) == rec_len(before, p, k) by {
                assert(c[24 * p + 3 * k] == before[24 * p + 3 * k]);
            }
            assert(c[24 * p + 1] == before[24 * p + 1]);
            assert(c[24 * p + 2] == before[24 * p + 2]);
            lemma_sorted_prefix(c, p, 0, j as int, bestlength as int);
            assert(rec_dist(c, p, 0) == rec_dist(before, p, 0));
            assert(c[24 * p + 21] == (bestlength - 3) as u8);
            if sublen_nonzero(sublen@, length as int) {
                assert(rec_dist(c, p, 0) != 0);
                assert(max_cached(c, p) == bestlength);
            }
        }
    } else {
        proof {
            let c = lmc.sublen@;
            lemma_sorted_prefix(c, p, 0, 8, bestlength as int);
            if sublen_nonzero(sublen@, length as int) {
                assert(rec_dist(c, p, 0) != 0);
                assert(max_cached(c, p) == bestlength);
                if bestlength < length {
                    lemma_count_boundaries_mono(sublen@, length as int, bestlength + 1, length + 1);
                }
            }
        }
    }
}

/// Extracts the sublen table from the cache at `pos`, up to the cached maximum.
pub fn cache_to_sublen(lmc: &LongestMatchCache, pos: usize, length: usize, sublen: &mut Vec<u16>)
    requires
        lmc.wf(),
        pos < lmc.length@.len(),
        old(sublen)@.len() > MAX_MATCH,
    ensures
        final(sublen)@.len() == old(sublen)@.len(),
        length < 3 ==> final(sublen)@ == old(sublen)@,
        length >= 3 && records_sorted(lmc.sublen@, pos as int) ==> cache_holds(
            lmc.sublen@,
            pos as int,
            final(sublen)@,
            max_cached(lmc.sublen@, pos as int),
        ),
{
    let maxlength = max_cached_sublen(lmc, pos, length);
    let mut prevlength: usize = 0;
    let cache_start = record_base(lmc, pos);
    let ghost c = lmc.sublen@;
    let ghost p = pos as int;

    if length < 3 {
        return;
    }

    let mut j: usize = 0;
    let mut done = false;
    while j < CACHE_LENGTH && !done
        invariant
            j <= 8,
            p == pos as int,
            c == lmc.sublen@,
            cache_start == 24 * pos,
            cache_start + 24 <= c.len(),
            cache_start + 24 <= usize::MAX,
            maxlength as int == max_cached(c, p),
            sublen@.len() == old(sublen)@.len(),
            sublen@.len() > MAX_MATCH,
            j == 0 ==> prevlength == 0,
            j > 0 ==> prevlength == rec_len(c, p, j - 1) + 1,
            prevlength <= MAX_MATCH + 1,
            records_sorted(c, p) && maxlength >= 3 ==> {
                &&& (done || records_sorted_from(c, p, j as int, maxlength as int))
                &&& (done || j >= 8 || prevlength <= rec_len(c, p, j as int))
                &&& forall|k: int| 0 <= k < j ==> #[trigger] rec_len(c, p, k) < prevlength
                &&& forall|t: int| 3 <= t < prevlength ==> #[trigger] sublen@[t] as int == cached_dist(c, p, t)
            },
            done ==> records_sorted(c, p) && maxlength >= 3 ==> prevlength > maxlength,
        decreases 8 - j,
    {
        let len = lmc.sublen[cache_start + j * 3] as usize + 3;
        let dist = lmc.sublen[cache_start + j * 3 + 1] as u16 + 256 * lmc.sublen[cache_start + j * 3 + 2] as u16;
        assert(len as int == rec_len(c, p, j as int));
        assert(dist as int == rec_dist(c, p, j as int));
        let ghost before = sublen@;
        let mut i = prevlength;
        while i <= len
            invariant
                prevlength <= i,
                i <= len + 1 || i == prevlength,
                len <= MAX_MATCH,
                sublen@.len() == before.len(),
                sublen@.len() > MAX_MATCH,
                forall|t: int| 0 <= t < prevlength ==> #[trigger] sublen@[t] == before[t],
                forall|t: int| prevlength <= t < i ==> #[trigger] sublen@[t] == dist,
            decreases len + 1 - i,
        {
            sublen.set(i, dist);
            i = i + 1;
        }
        proof {
            if records_sorted(c, p) && maxlength >= 3 {
                assert forall|t: int| 3 <= t <= len implies #[trigger] sublen@[t] as int == cached_dist(c, p, t) by {
                    if t >= prevlength {
                        assert forall|m: int| 0 <= m < j implies #[trigger] rec_len(c, p, m) < t by {}
                        lemma_cached_dist_skip(c, p, t, j as int);
                    } else {
                        assert(sublen@[t] == before[t]);
                    }
                }
                assert forall|k: int| 0 <= k <= j implies #[trigger] rec_len(c, p, k) < len + 1 by {
                    if k < j {
                        assert(rec_len(c, p, k) < prevlength);
                    }
                }
                assert(records_sorted_from(c, p, j as int, maxlength as int));
            }
        }
        if len == maxlength {
            done = true;
        }
        prevlength = len + 1;
        j = j + 1;
    }
}

proof fn lemma_sorted_prefix(c: Seq<u8>, pos: int, m: int, j: int, best: int)
    requires
        0 <= m < j <= 8,
        rec_len(c, pos, j - 1) == best,
        forall|k: int| 0 <= k && k + 1 < j ==> #[trigger] rec_len(c, pos, k) < rec_len(c, pos, k + 1),
    ensures
        records_sorted_from(c, pos, m, best),
    decreases j - m,
{
    if m + 1 < j {
        lemma_sorted_prefix(c, pos, m + 1, j, best);
        lemma_rec_len_increasing(c, pos, m, j - 1, j);
    }
}


/// `d` is a distance in the window at which the `l` bytes at `pos` repeat.
pub open spec fn dist_ok(array: Seq<u8>, size: int, pos: int, d: int, l: int) -> bool {
    1 <= d <= WINDOW_SIZE && match_valid(array, size, pos, d, l)
}

/// The cached result at block position `p`, and each cached sublen distance, is a real
/// match of `array[..size]` at `bs + p`.
pub open spec fn entry_valid(c: LongestMatchCache, array: Seq<u8>, size: int, bs: int, p: int) -> bool {
    &&& dist_ok(array, size, bs + p, c.dist@[p] as int, c.length@[p] as int)
    &&& records_sorted(c.sublen@, p)
    &&& forall|i: int|
        3 <= i <= max_cached(c.sublen@, p) ==> #[trigger] dist_ok(array, size, bs + p, cached_dist(c.sublen@, p, i), i)
    &&& forall|i: int, i2: int|
        3 <= i <= i2 <= max_cached(c.sublen@, p) ==> #[trigger] cached_dist(c.sublen@, p, i) <= #[trigger] cached_dist(
            c.sublen@,
            p,
            i2,
        )
}

/// `sublen[3..=length]` does not decrease: longer matches are found no nearer.
pub open spec fn sublen_sorted(sublen: Seq<u16>, length: int) -> bool {
    forall|k: int, k2: int| 3 <= k <= k2 <= length ==> #[trigger] sublen[k] <= #[trigger] sublen[k2]
}

/// Every filled position with a match holds real matches of `array[..size]`, for a cache
/// of the block that starts at `bs`.
pub open spec fn cache_entries_valid(c: LongestMatchCache, array: Seq<u8>, size: int, bs: int) -> bool {
    &&& forall|p: int|
        0 <= p < c.length@.len() && c.filled(p) && c.length@[p] >= 3 ==> #[trigger] entry_valid(c, array, size, bs, p)
    &&& forall|p: int| 0 <= p < c.length@.len() && c.filled(p) ==> #[trigger] c.length@[p] == 0 || c.length@[p] >= 3
}

/// The cache of the block state, if any, holds real matches of `array[..size]`.
pub open spec fn block_cache_valid(s: BlockState, array: Seq<u8>, size: int) -> bool {
    s.lmc matches Some(c) ==> cache_entries_valid(c, array, size, s.blockstart as int)
}

/// A shorter prefix of a match is a match.
pub proof fn lemma_match_prefix(array: Seq<u8>, size: int, pos: int, d: int, l: int, l2: int)
    requires
        dist_ok(array, size, pos, d, l),
        0 <= l2 <= l,
    ensures
        dist_ok(array, size, pos, d, l2),
{
}

proof fn lemma_records_frame_from(c1: Seq<u8>, c2: Seq<u8>, p: int, j: int, i: int, m: int)
    requires
        0 <= j <= 8,
        forall|x: int| 24 * p <= x < 24 * p + 24 ==> #[trigger] c1[x] == c2[x],
    ensures
        cached_dist_from(c1, p, i, j) == cached_dist_from(c2, p, i, j),
        records_sorted_from(c1, p, j, m) == records_sorted_from(c2, p, j, m),
    decreases 8 - j,
{
    if j < 8 {
        assert(c1[24 * p + 3 * j] == c2[24 * p + 3 * j]);
        assert(c1[24 * p + 3 * j + 1] == c2[24 * p + 3 * j + 1]);
        assert(c1[24 * p + 3 * j + 2] == c2[24 * p + 3 * j + 2]);
        if j + 1 < 8 {
            assert(c1[24 * p + 3 * (j + 1)] == c2[24 * p + 3 * (j + 1)]);
        }
        lemma_records_frame_from(c1, c2, p, j + 1, i, m);
    }
}

/// The records of a position depend only on its own bytes.
proof fn lemma_records_frame(c1: Seq<u8>, c2: Seq<u8>, p: int)
    requires
        forall|x: int| 24 * p <= x < 24 * p + 24 ==> #[trigger] c1[x] == c2[x],
    ensures
        max_cached(c1, p) == max_cached(c2, p),
        records_sorted(c1, p) == records_sorted(c2, p),
        forall|i: int| #[trigger] cached_dist(c1, p, i) == cached_dist(c2, p, i),
{
    assert(c1[24 * p + 1] == c2[24 * p + 1]);
    assert(c1[24 * p + 2] == c2[24 * p + 2]);
    assert(c1[24 * p + 21] == c2[24 * p + 21]);
    lemma_records_frame_from(c1, c2, p, 0, 0, max_cached(c1, p));
    assert forall|i: int| #[trigger] cached_dist(c1, p, i) == cached_dist(c2, p, i) by {
        lemma_records_frame_from(c1, c2, p, 0, i, 0);
    }
}

/// Storing a real match with real sublens keeps the cache valid.
pub proof fn lemma_store_keeps_valid(
    c0: LongestMatchCache,
    c1: LongestMatchCache,
    array: Seq<u8>,
    size: int,
    bs: int,
    p: int,
    distance: u16,
    length: u16,
    sublen: Seq<u16>,
)
    requires
        cache_entries_valid(c0, array, size, bs),
        c0.wf(),
        c1.wf(),
        c1.length@.len() == c0.length@.len(),
        0 <= p < c0.length@.len(),
        !c0.filled(p),
        c1.dist@ == c0.dist@.update(p, if length < 3 { 0u16 } else { distance }),
        c1.length@ == c0.length@.update(p, if length < 3 { 0u16 } else { length }),
        length >= 3 ==> records_sorted(c1.sublen@, p),
        length >= 3 ==> max_cached(c1.sublen@, p) <= length,
        length >= 3 ==> cache_holds(c1.sublen@, p, sublen, max_cached(c1.sublen@, p)),
        forall|x: int| 0 <= x < c1.sublen@.len() && !(24 * p <= x < 24 * p + 24) ==> #[trigger] c1.sublen@[x] == c0.sublen@[x],
        length >= 3 ==> dist_ok(array, size, bs + p, distance as int, length as int),
        forall|k: int| 3 <= k <= length ==> #[trigger] dist_ok(array, size, bs + p, sublen[k] as int, k),
        sublen_sorted(sublen, length as int),
    ensures
        cache_entries_valid(c1, array, size, bs),
{
    assert forall|q: int| 0 <= q < c1.length@.len() && c1.filled(q) && c1.length@[q] >= 3 implies #[trigger] entry_valid(
        c1,
        array,
        size,
        bs,
        q,
    ) by {
        if q == p {
            assert forall|i: int| 3 <= i <= max_cached(c1.sublen@, p) implies #[trigger] dist_ok(
                array,
                size,
                bs + p,
                cached_dist(c1.sublen@, p, i),
                i,
            ) by {
                assert(cached_dist(c1.sublen@, p, i) == sublen[i] as int);
            }
            assert forall|i: int, i2: int| 3 <= i <= i2 <= max_cached(c1.sublen@, p) implies #[trigger] cached_dist(
                c1.sublen@,
                p,
                i,
            ) <= #[trigger] cached_dist(c1.sublen@, p, i2) by {
                assert(cached_dist(c1.sublen@, p, i) == sublen[i] as int);
                assert(cached_dist(c1.sublen@, p, i2) == sublen[i2] as int);
                assert(sublen[i] <= sublen[i2]);
            }
        } else {
            assert(c0.filled(q) && c0.length@[q] >= 3);
            assert(entry_valid(c0, array, size, bs, q));
            assert(24 * q + 24 <= c1.sublen@.len()) by (nonlinear_arith)
                requires q < c1.length@.len(), c1.sublen@.len() == 24 * c1.length@.len();
            assert forall|x: int| 24 * q <= x < 24 * q + 24 implies #[trigger] c0.sublen@[x] == c1.sublen@[x] by {
                if p < q {
                    assert(24 * p + 24 <= 24 * q);
                } else {
                    assert(24 * q + 24 <= 24 * p);
                }
            }
            lemma_records_frame(c0.sublen@, c1.sublen@, q);
            assert forall|i: int| 3 <= i <= max_cached(c1.sublen@, q) implies #[trigger] dist_ok(
                array,
                size,
                bs + q,
                cached_dist(c1.sublen@, q, i),
                i,
            ) by {
                assert(cached_dist(c0.sublen@, q, i) == cached_dist(c1.sublen@, q, i));
            }
            assert forall|i: int, i2: int| 3 <= i <= i2 <= max_cached(c1.sublen@, q) implies #[trigger] cached_dist(
                c1.sublen@,
                q,
                i,
            ) <= #[trigger] cached_dist(c1.sublen@, q, i2) by {
                assert(cached_dist(c0.sublen@, q, i) == cached_dist(c1.sublen@, q, i));
                assert(cached_dist(c0.sublen@, q, i2) == cached_dist(c1.sublen@, q, i2));
            }
        }
    }
    assert forall|q: int| 0 <= q < c1.length@.len() && c1.filled(q) implies #[trigger] c1.length@[q] == 0 || c1.length@[q] >= 3 by {
        if q != p {
            assert(c0.filled(q));
        }
    }
}

} // verus!
