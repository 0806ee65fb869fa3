//! LZ77 tokens: match checking, the token store, the longest-match search and the
//! greedy tokenizer with lazy matching.
use vstd::prelude::*;
use crate::types::{round_up, LZ77Store, BlockState, NUM_LL, NUM_D, MIN_MATCH, MAX_MATCH, WINDOW_SIZE, WINDOW_MASK, MAX_CHAIN_HITS, token_ok, count_sym, count_dist_sym};
use crate::cache::{try_get_from_longest_match_cache, store_in_longest_match_cache, block_cache_valid, dist_ok, entry_valid, cached_dist, lemma_match_prefix, lemma_store_keeps_valid, sublen_sorted};
use crate::hash::{slot_same_ok, slot_position, chain_link_ok, lemma_slot_of_recent, lemma_chain_step, lemma_slot_position_self, lemma_slot_position_mod};
use crate::hash::{update_hash, warmup_hash, reset_hash};
use vstd::math::min;
use crate::symbols::{get_length_symbol, get_dist_symbol, length_symbol, dist_symbol};

verus! {

/// `data[pos - dist .. pos - dist + length] == data[pos .. pos + length]`, with the
/// match inside `data[..datasize]` and starting at or after 0.
pub open spec fn match_valid(data: Seq<u8>, datasize: int, pos: int, dist: int, length: int) -> bool {
    &&& datasize <= data.len()
    &&& pos + length <= datasize
    &&& dist <= pos
    &&& forall|k: int| 0 <= k < length ==> data[pos - dist + k] == #[trigger] data[pos + k]
}

/// Checks a match: true exactly when `match_valid` holds.
pub fn verify_len_dist(data: &[u8], datasize: usize, pos: usize, dist: u16, length: u16) -> (r: bool)
    ensures
        r == match_valid(data@, datasize as int, pos as int, dist as int, length as int),
{
    if datasize > data.len() || pos > datasize || length as usize > datasize - pos || dist as usize > pos {
        return false;
    }
    let start = pos - dist as usize;
    let mut i: usize = 0;
    while i < length as usize
        invariant
            i <= length,
            datasize <= data@.len(),
            pos + length <= datasize,
            dist <= pos,
            start == pos - dist,
            forall|k: int| 0 <= k < i ==> data@[pos - dist + k] == #[trigger] data@[pos + k],
        decreases length - i,
    {
        if data[start + i] != data[pos + i] {
            return false;
        }
        i = i + 1;
    }
    true
}

/// Finds how long the match of the bytes at `pos` and at `match_pos` is, up to `end`.
pub fn get_match(array: &[u8], pos: usize, match_pos: usize, end: usize) -> (r: usize)
    requires
        match_pos <= pos <= end <= array@.len(),
    ensures
        pos + r <= end,
        forall|k: int| 0 <= k < r ==> array@[match_pos + k] == #[trigger] array@[pos + k],
        pos + r < end ==> array@[match_pos + r] != array@[pos + r],
{
    let mut scan_pos = pos;
    let mut match_idx = match_pos;
    while scan_pos < end && array[scan_pos] == array[match_idx]
        invariant
            match_pos <= pos <= scan_pos <= end <= array@.len(),
            match_idx == match_pos + (scan_pos - pos),
            forall|k: int| 0 <= k < scan_pos - pos ==> array@[match_pos + k] == #[trigger] array@[pos + k],
        decreases end - scan_pos,
    {
        scan_pos = scan_pos + 1;
        match_idx = match_idx + 1;
    }
    scan_pos - pos
}

proof fn lemma_count_sym_prefix(s: Seq<u16>, x: u16, e: int, sym: int)
    requires
        e <= s.len(),
    ensures
        count_sym(s.push(x), e, sym) == count_sym(s, e, sym),
    decreases e,
{
    if e > 0 {
        lemma_count_sym_prefix(s, x, e - 1, sym);
    }
}

proof fn lemma_count_dist_sym_prefix(s: Seq<u16>, d: Seq<u16>, x: u16, y: u16, e: int, sym: int)
    requires
        e <= s.len(),
        e <= d.len(),
    ensures
        count_dist_sym(s.push(x), d.push(y), e, sym) == count_dist_sym(s, d, e, sym),
    decreases e,
{
    if e > 0 {
        lemma_count_dist_sym_prefix(s, d, x, y, e - 1, sym);
    }
}

/// A count over a prefix is at most the prefix length.
pub proof fn lemma_count_sym_bound(s: Seq<u16>, e: int, sym: int)
    requires
        0 <= e,
    ensures
        count_sym(s, e, sym) <= e,
    decreases e,
{
    if e > 0 {
        lemma_count_sym_bound(s, e - 1, sym);
    }
}

/// A count over a prefix is at most the prefix length.
pub proof fn lemma_count_dist_sym_bound(s: Seq<u16>, d: Seq<u16>, e: int, sym: int)
    requires
        0 <= e,
    ensures
        count_dist_sym(s, d, e, sym) <= e,
    decreases e,
{
    if e > 0 {
        lemma_count_dist_sym_bound(s, d, e - 1, sym);
    }
}

/// Starts a new chunk of `width` cumulative counts: a copy of the last chunk, or zeros
/// for the first one.
fn push_chunk(counts: &mut Vec<usize>, width: usize)
    requires
        width > 0,
        old(counts)@.len() % (width as nat) == 0,
        old(counts)@.len() + width <= usize::MAX,
    ensures
        final(counts)@.len() == old(counts)@.len() + width,
        forall|j: int| 0 <= j < old(counts)@.len() ==> #[trigger] final(counts)@[j] == old(counts)@[j],
        forall|j: int|
            old(counts)@.len() <= j < final(counts)@.len() ==> #[trigger] final(counts)@[j] == if old(
                counts,
            )@.len() == 0 {
                0
            } else {
                old(counts)@[j - width]
            },
{
    let origsize = counts.len();
    let mut i: usize = 0;
    while i < width
        invariant
            i <= width,
            origsize == old(counts)@.len(),
            origsize % width == 0,
            origsize + width <= usize::MAX,
            counts@.len() == origsize + i,
            forall|j: int| 0 <= j < origsize ==> #[trigger] counts@[j] == old(counts)@[j],
            forall|j: int|
                origsize <= j < origsize + i ==> #[trigger] counts@[j] == if origsize == 0 {
                    0
                } else {
                    old(counts)@[j - width]
                },
        decreases width - i,
    {
        let val = if origsize == 0 {
            0
        } else {
            assert(origsize >= width) by (nonlinear_arith)
                requires origsize % width == 0, origsize > 0, width > 0;
            counts[origsize - width + i]
        };
        counts.push(val);
        i = i + 1;
    }
}

/// Makes sure the cumulative histograms have a chunk for token number `len()`: a new
/// chunk starts as a copy of the previous one.
#[verifier::rlimit(40)]
fn open_chunks(store: &mut LZ77Store)
    requires
        old(store).wf(),
        old(store).len() + NUM_LL < usize::MAX,
    ensures
        final(store).tokens_wf(),
        final(store).litlens == old(store).litlens,
        final(store).dists == old(store).dists,
        final(store).pos == old(store).pos,
        final(store).data == old(store).data,
        final(store).ll_symbol == old(store).ll_symbol,
        final(store).d_symbol == old(store).d_symbol,
        final(store).ll_counts@.len() == 288 * (old(store).len() / 288) + 288,
        final(store).d_counts@.len() == 32 * (old(store).len() / 32) + 32,
        forall|j: int|
            0 <= j < final(store).ll_counts@.len() ==> #[trigger] final(store).ll_counts@[j] == count_sym(
                old(store).ll_symbol@,
                min(old(store).len(), (j / 288 + 1) * 288),
                j % 288,
            ),
        forall|j: int|
            0 <= j < final(store).d_counts@.len() ==> #[trigger] final(store).d_counts@[j] == count_dist_sym(
                old(store).d_symbol@,
                old(store).dists@,
                min(old(store).len(), (j / 32 + 1) * 32),
                j % 32,
            ),
{
    let origsize = store.size();
    let ghost n = origsize as int;
    let ghost old_ll = store.ll_symbol@;
    let ghost old_d = store.d_symbol@;
    let ghost old_dists = store.dists@;
    let ghost old_llcounts = store.ll_counts@;
    let ghost old_dcounts = store.d_counts@;
    // Every time the index wraps around, a new cumulative histogram is made.
    if origsize % NUM_LL == 0 {
        push_chunk(&mut store.ll_counts, NUM_LL);
    }
    if origsize % NUM_D == 0 {
        push_chunk(&mut store.d_counts, NUM_D);
    }
    proof {
        lemma_ll_chunk(old_llcounts, store.ll_counts@, old_ll, n);
        lemma_d_chunk(old_dcounts, store.d_counts@, old_d, old_dists, n);
    }
}

proof fn lemma_ll_chunk(oldc: Seq<usize>, newc: Seq<usize>, syms: Seq<u16>, n: int)
    requires
        n >= 0,
        oldc.len() == round_up(n, 288),
        forall|j: int| 0 <= j < oldc.len() ==> #[trigger] oldc[j] == count_sym(syms, min(n, (j / 288 + 1) * 288), j % 288),
        n % 288 != 0 ==> newc == oldc,
        n % 288 == 0 ==> newc.len() == oldc.len() + 288,
        n % 288 == 0 ==> forall|j: int| 0 <= j < oldc.len() ==> #[trigger] newc[j] == oldc[j],
        n % 288 == 0 ==> forall|j: int|
            oldc.len() <= j < newc.len() ==> #[trigger] newc[j] == if oldc.len() == 0 { 0 } else { oldc[j - 288] },
    ensures
        newc.len() == 288 * (n / 288) + 288,
        forall|j: int| 0 <= j < newc.len() ==> #[trigger] newc[j] == count_sym(syms, min(n, (j / 288 + 1) * 288), j % 288),
{
    assert forall|j: int| 0 <= j < newc.len() implies #[trigger] newc[j] == count_sym(syms, min(n, (j / 288 + 1) * 288), j % 288) by {
        if j >= oldc.len() {
            assert(min(n, (j / 288 + 1) * 288) == n);
            if n > 0 {
                let i = j - 288;
                assert(i / 288 + 1 == n / 288);
                assert(i % 288 == j % 288);
                assert(oldc[i] == count_sym(syms, min(n, (i / 288 + 1) * 288), i % 288));
            }
        }
    }
}

proof fn lemma_d_chunk(oldc: Seq<usize>, newc: Seq<usize>, syms: Seq<u16>, dists: Seq<u16>, n: int)
    requires
        n >= 0,
        oldc.len() == round_up(n, 32),
        forall|j: int|
            0 <= j < oldc.len() ==> #[trigger] oldc[j] == count_dist_sym(syms, dists, min(n, (j / 32 + 1) * 32), j % 32),
        n % 32 != 0 ==> newc == oldc,
        n % 32 == 0 ==> newc.len() == oldc.len() + 32,
        n % 32 == 0 ==> forall|j: int| 0 <= j < oldc.len() ==> #[trigger] newc[j] == oldc[j],
        n % 32 == 0 ==> forall|j: int|
            oldc.len() <= j < newc.len() ==> #[trigger] newc[j] == if oldc.len() == 0 { 0 } else { oldc[j - 32] },
    ensures
        newc.len() == 32 * (n / 32) + 32,
        forall|j: int|
            0 <= j < newc.len() ==> #[trigger] newc[j] == count_dist_sym(syms, dists, min(n, (j / 32 + 1) * 32), j % 32),
{
    assert forall|j: int| 0 <= j < newc.len() implies #[trigger] newc[j] == count_dist_sym(syms, dists, min(n, (j / 32 + 1) * 32), j % 32) by {
        if j >= oldc.len() {
            assert(min(n, (j / 32 + 1) * 32) == n);
            if n > 0 {
                let i = j - 32;
                assert(i / 32 + 1 == n / 32);
                assert(i % 32 == j % 32);
                assert(oldc[i] == count_dist_sym(syms, dists, min(n, (i / 32 + 1) * 32), i % 32));
            }
        }
    }
}

proof fn lemma_tokens_push(o: LZ77Store, n: LZ77Store, length: u16, dist: u16, ll_sym: u16, d_sym: u16)
    requires
        o.tokens_wf(),
        n.litlens@ == o.litlens@.push(length),
        n.dists@ == o.dists@.push(dist),
        n.pos@.len() == o.pos@.len() + 1,
        n.ll_symbol@ == o.ll_symbol@.push(ll_sym),
        n.d_symbol@ == o.d_symbol@.push(d_sym),
        token_ok(length, dist),
        ll_sym as int == if dist == 0 { length as int } else { length_symbol(length as int) },
        d_sym as int == if dist == 0 { 0 } else { dist_symbol(dist as int) },
    ensures
        n.tokens_wf(),
{
    let len = o.len();
    assert forall|i: int| 0 <= i < len + 1 implies {
        &&& token_ok(#[trigger] n.litlens@[i], n.dists@[i])
        &&& n.ll_symbol@[i] as int == if n.dists@[i] == 0 {
            n.litlens@[i] as int
        } else {
            length_symbol(n.litlens@[i] as int)
        }
        &&& n.d_symbol@[i] as int == if n.dists@[i] == 0 {
            0
        } else {
            dist_symbol(n.dists@[i] as int)
        }
    } by {
        if i < len {
            assert(n.litlens@[i] == o.litlens@[i]);
            assert(n.dists@[i] == o.dists@[i]);
            assert(n.ll_symbol@[i] == o.ll_symbol@[i]);
            assert(n.d_symbol@[i] == o.d_symbol@[i]);
            assert(token_ok(o.litlens@[i], o.dists@[i]));
        }
    }
}

/// Appends the length and distance to the LZ77 arrays of the store.
#[verifier::rlimit(40)]
pub fn store_lit_len_dist(length: u16, dist: u16, pos: usize, store: &mut LZ77Store)
    requires
        old(store).wf(),
        token_ok(length, dist),
        old(store).len() + NUM_LL < usize::MAX,
    ensures
        final(store).wf(),
        final(store).litlens@ == old(store).litlens@.push(length),
        final(store).dists@ == old(store).dists@.push(dist),
        final(store).pos@ == old(store).pos@.push(pos),
        final(store).data@ == old(store).data@,
{
    let origsize = store.size();
    let llstart = NUM_LL * (origsize / NUM_LL);
    let dstart = NUM_D * (origsize / NUM_D);
    let ghost n = origsize as int;
    let ghost old_ll = store.ll_symbol@;
    let ghost old_d = store.d_symbol@;
    let ghost old_dists = store.dists@;
    let ghost old_dcounts = store.d_counts@;
    let ghost old_store = *store;

    open_chunks(store);
    assert(store.ll_counts@.len() == llstart + 288);
    assert(store.d_counts@.len() == dstart + 32);

    store.litlens.push(length);
    store.dists.push(dist);
    store.pos.push(pos);

    let ll_sym: u16;
    let d_sym: u16;
    if dist == 0 {
        ll_sym = length;
        d_sym = 0;
    } else {
        ll_sym = get_length_symbol(length as usize) as u16;
        d_sym = get_dist_symbol(dist as usize) as u16;
    }
    store.ll_symbol.push(ll_sym);
    store.d_symbol.push(d_sym);
    proof {
        lemma_count_sym_bound(old_ll, n, ll_sym as int);
        lemma_count_dist_sym_bound(old_d, old_dists, n, d_sym as int);
        assert(store.ll_counts@[llstart + ll_sym as int] == count_sym(old_ll, n, ll_sym as int));
    }
    store.ll_counts.set(llstart + ll_sym as usize, store.ll_counts[llstart + ll_sym as usize] + 1);
    if dist != 0 {
        assert(store.d_counts@[dstart + d_sym as int] == count_dist_sym(old_d, old_dists, n, d_sym as int));
        store.d_counts.set(dstart + d_sym as usize, store.d_counts[dstart + d_sym as usize] + 1);
    }
    proof {
        let new_ll = store.ll_symbol@;
        let new_d = store.d_symbol@;
        let new_dists = store.dists@;
        assert(new_ll == old_ll.push(ll_sym));
        assert(new_d == old_d.push(d_sym));
        assert(new_dists == old_dists.push(dist));
        assert forall|j: int| 0 <= j < store.ll_counts@.len() implies #[trigger] store.ll_counts@[j]
            == count_sym(new_ll, min(n + 1, (j / 288 + 1) * 288), j % 288) by {
            if j < llstart {
                assert((j / 288 + 1) * 288 <= llstart) by (nonlinear_arith)
                    requires j < llstart, llstart % 288 == 0, j >= 0;
                lemma_count_sym_prefix(old_ll, ll_sym, min(n, (j / 288 + 1) * 288), j % 288);
            } else {
                assert(j / 288 == n / 288);
                assert(min(n + 1, (j / 288 + 1) * 288) == n + 1);
                lemma_count_sym_prefix(old_ll, ll_sym, n, j % 288);
            }
        }
        assert forall|j: int| 0 <= j < store.d_counts@.len() implies #[trigger] store.d_counts@[j]
            == count_dist_sym(new_d, new_dists, min(n + 1, (j / 32 + 1) * 32), j % 32) by {
            if j < dstart {
                assert((j / 32 + 1) * 32 <= dstart) by (nonlinear_arith)
                    requires j < dstart, dstart % 32 == 0, j >= 0;
                lemma_count_dist_sym_prefix(old_d, old_dists, d_sym, dist, min(n, (j / 32 + 1) * 32), j % 32);
            } else {
                assert(j / 32 == n / 32);
                assert(min(n + 1, (j / 32 + 1) * 32) == n + 1);
                lemma_count_dist_sym_prefix(old_d, old_dists, d_sym, dist, n, j % 32);
            }
        }
        lemma_tokens_push(old_store, *store, length, dist, ll_sym, d_sym);
        assert(store.tokens_wf());
    }
}


/// Finds the longest match (length and distance) at `pos` among the earlier positions on
/// the hash chains, looking at the cache first. A match is at most `limit` long and ends
/// by `size`; a length below `MIN_MATCH` means no match. When `sublen` is given, entry `k`
/// receives a distance at which a match of length `k` was seen.
pub fn find_longest_match(
    s: &mut BlockState,
    h: &crate::types::Hash,
    array: &[u8],
    pos: usize,
    size: usize,
    limit: usize,
    sublen: Option<&mut Vec<u16>>,
    distance: &mut u16,
    length: &mut u16,
)
    requires
        old(s).wf(),
        old(s).lmc is Some ==> old(s).blockstart <= pos < old(s).blockend,
        h.wf(),
        MIN_MATCH <= limit <= MAX_MATCH,
        pos < size <= array@.len(),
        sublen matches Some(v) ==> v@.len() > MAX_MATCH,
        h.last_update@ == Some((array@, size as int, pos as int)),
        block_cache_valid(*old(s), array@, size as int),
    ensures
        final(s).wf(),
        final(s).options == old(s).options,
        final(s).blockstart == old(s).blockstart,
        final(s).blockend == old(s).blockend,
        final(s).lmc is Some == old(s).lmc is Some,
        *final(length) <= MAX_MATCH,
        sublen matches Some(v) ==> final(v)@.len() == v@.len(),
        block_cache_valid(*final(s), array@, size as int),
        *final(length) >= 3 ==> dist_ok(array@, size as int, pos as int, *final(distance) as int, *final(length) as int),
        sublen matches Some(v) ==> forall|k: int|
            3 <= k <= *final(length) ==> #[trigger] dist_ok(array@, size as int, pos as int, final(v)@[k] as int, k),
        *final(length) <= limit,
        pos + *final(length) <= size,
        size - pos < MIN_MATCH ==> *final(length) == 0,
        sublen matches Some(v) ==> (*final(length) >= 3 ==> final(v)@[*final(length) as int] == *final(distance)),
        sublen matches Some(v) ==> sublen_sorted(final(v)@, *final(length) as int),
        (old(s).lmc matches Some(c) ==> !c.filled(pos - old(s).blockstart)) && size - pos >= MIN_MATCH && h.prev@[pos as int % 32768] as int != pos as int % 32768
            && common_prefix(
            array@,
            pos - first_candidate_distance(*h, pos as int),
            pos as int,
            vstd::math::min(limit as int, size - pos),
        ) >= MIN_MATCH ==> *final(length) >= common_prefix(
            array@,
            pos - first_candidate_distance(*h, pos as int),
            pos as int,
            vstd::math::min(limit as int, size - pos),
        ),
        *final(length) < MIN_MATCH ==> *final(length) == 0 && *final(distance) == 0,
        (old(s).lmc matches Some(c) ==> !c.filled(pos - old(s).blockstart)) && size - pos >= MIN_MATCH ==> forall|k: nat|
            walk_active(#[trigger] walk(*h, array@, pos as int, vstd::math::min(limit as int, size - pos), k))
                && common_prefix(
                array@,
                pos - walk(*h, array@, pos as int, vstd::math::min(limit as int, size - pos), k).1,
                pos as int,
                vstd::math::min(limit as int, size - pos),
            ) >= MIN_MATCH ==> *final(length) >= common_prefix(
                array@,
                pos - walk(*h, array@, pos as int, vstd::math::min(limit as int, size - pos), k).1,
                pos as int,
                vstd::math::min(limit as int, size - pos),
            ),
{
    match sublen {
        Some(v) => longest_match_search(s, h, array, pos, size, limit, true, v, distance, length),
        None => {
            let mut unused: Vec<u16> = Vec::new();
            longest_match_search(s, h, array, pos, size, limit, false, &mut unused, distance, length)
        }
    }
}

/// The length of the match at distance `dist` from `pos`, up to `limit`; 0 when the byte
/// at `bestlength` already differs, as no improvement is possible then.
fn candidate_length(
    h: &crate::types::Hash,
    array: &[u8],
    pos: usize,
    size: usize,
    dist: u16,
    limit: usize,
    bestlength: u16,
) -> (r: usize)
    requires
        h.wf(),
        h.last_update@ == Some((array@, size as int, pos as int)),
        1 <= dist < WINDOW_SIZE,
        pos - dist >= h.first_update@,
        pos < size <= array@.len(),
        size - pos >= MIN_MATCH,
        pos + limit <= size,
        limit <= MAX_MATCH,
        1 <= bestlength <= limit,
    ensures
        r <= limit,
        r > 0 ==> match_valid(array@, size as int, pos as int, dist as int, r as int),
        bestlength == 1 ==> r >= common_prefix(array@, pos - dist, pos as int, limit as int) || common_prefix(
            array@,
            pos - dist,
            pos as int,
            limit as int,
        ) <= 1,
        r == common_prefix(array@, pos - dist, pos as int, limit as int) || (r == 0 && common_prefix(
            array@,
            pos - dist,
            pos as int,
            limit as int,
        ) <= bestlength),
{
    assert(h.first_update@ >= 0);
    let scan_pos = pos;
    let match_pos = pos - dist as usize;
    // Testing the byte at position bestlength first goes slightly faster.
    let mut currentlength: usize = 0;
    if bestlength as usize >= size - pos || array[scan_pos + bestlength as usize]
        == array[match_pos + bestlength as usize] {
        proof {
            lemma_window_slot(pos);
            lemma_window_slot(match_pos);
        }
        let same0 = h.same[pos & WINDOW_MASK];
        if same0 > 2 && array[scan_pos] == array[match_pos] {
            let same1 = h.same[match_pos & WINDOW_MASK];
            let same = if same0 < same1 { same0 } else { same1 };
            let same = if same as usize > limit { limit as u16 } else { same };
            currentlength = same as usize;
            proof {
                lemma_shortcut(*h, array@, size as int, pos as int, dist as int, same0 as int, same1 as int, currentlength as int);
            }
        }
        let remaining = get_match(array, scan_pos + currentlength, match_pos + currentlength, scan_pos + limit);
        proof {
            assert forall|k: int| 0 <= k < currentlength + remaining implies array@[pos - dist + k] == #[trigger] array@[pos + k] by {
                if k >= currentlength {
                    assert(array@[match_pos + currentlength + (k - currentlength)] == array@[scan_pos + currentlength + (k - currentlength)]);
                }
            }
        }
        proof {
            lemma_common_prefix_is(array@, pos - dist, pos as int, limit as int, currentlength + remaining);
        }
        currentlength = currentlength + remaining;
    } else {
        proof {
            lemma_common_prefix_upto(array@, pos - dist, pos as int, limit as int, bestlength as int);
            if bestlength == 1 {
                if limit >= 2 {
                    lemma_common_prefix_short(array@, pos - dist, pos as int, limit as int);
                } else {
                    assert(common_prefix(array@, pos - dist + 1, pos + 1, limit - 1) == 0);
                }
            }
        }
    }
    currentlength
}

/// `find_longest_match` with the sublen table passed as a flag and a vector.
#[verifier::rlimit(100)]
fn longest_match_search(
    s: &mut BlockState,
    h: &crate::types::Hash,
    array: &[u8],
    pos: usize,
    size: usize,
    limit: usize,
    want_sublen: bool,
    sublen: &mut Vec<u16>,
    distance: &mut u16,
    length: &mut u16,
)
    requires
        old(s).wf(),
        old(s).lmc is Some ==> old(s).blockstart <= pos < old(s).blockend,
        h.wf(),
        MIN_MATCH <= limit <= MAX_MATCH,
        pos < size <= array@.len(),
        want_sublen ==> old(sublen)@.len() > MAX_MATCH,
        h.last_update@ == Some((array@, size as int, pos as int)),
        block_cache_valid(*old(s), array@, size as int),
    ensures
        final(s).wf(),
        final(s).options == old(s).options,
        final(s).blockstart == old(s).blockstart,
        final(s).blockend == old(s).blockend,
        final(s).lmc is Some == old(s).lmc is Some,
        *final(length) <= MAX_MATCH,
        final(sublen)@.len() == old(sublen)@.len(),
        block_cache_valid(*final(s), array@, size as int),
        *final(length) >= 3 ==> dist_ok(array@, size as int, pos as int, *final(distance) as int, *final(length) as int),
        want_sublen ==> forall|k: int|
            3 <= k <= *final(length) ==> #[trigger] dist_ok(array@, size as int, pos as int, final(sublen)@[k] as int, k),
        *final(length) <= limit,
        pos + *final(length) <= size,
        size - pos < MIN_MATCH ==> *final(length) == 0,
        want_sublen && *final(length) >= 3 ==> final(sublen)@[*final(length) as int] == *final(distance),
        want_sublen ==> sublen_sorted(final(sublen)@, *final(length) as int),
        (old(s).lmc matches Some(c) ==> !c.filled(pos - old(s).blockstart)) && size - pos >= MIN_MATCH && h.prev@[pos as int % 32768] as int != pos as int % 32768
            && common_prefix(
            array@,
            pos - first_candidate_distance(*h, pos as int),
            pos as int,
            vstd::math::min(limit as int, size - pos),
        ) >= MIN_MATCH ==> *final(length) >= common_prefix(
            array@,
            pos - first_candidate_distance(*h, pos as int),
            pos as int,
            vstd::math::min(limit as int, size - pos),
        ),
        *final(length) < MIN_MATCH ==> *final(length) == 0 && *final(distance) == 0,
        (old(s).lmc matches Some(c) ==> !c.filled(pos - old(s).blockstart)) && size - pos >= MIN_MATCH ==> forall|k: nat|
            walk_active(#[trigger] walk(*h, array@, pos as int, vstd::math::min(limit as int, size - pos), k))
                && common_prefix(
                array@,
                pos - walk(*h, array@, pos as int, vstd::math::min(limit as int, size - pos), k).1,
                pos as int,
                vstd::math::min(limit as int, size - pos),
            ) >= MIN_MATCH ==> *final(length) >= common_prefix(
                array@,
                pos - walk(*h, array@, pos as int, vstd::math::min(limit as int, size - pos), k).1,
                pos as int,
                vstd::math::min(limit as int, size - pos),
            ),
{
    let ghost limit0 = limit;
    let mut limit = limit;
    // Try the cache first.
    let hit = if want_sublen {
        try_get_from_longest_match_cache(s, pos, &mut limit, Some(&mut *sublen), distance, length)
    } else {
        try_get_from_longest_match_cache(s, pos, &mut limit, None, distance, length)
    };
    if hit {
        if (*length as usize) < MIN_MATCH {
            *length = 0;
            *distance = 0;
        }
        proof {
            let c = s.lmc.unwrap();
            let p = pos - s.blockstart;
            if *length >= 3 {
                assert(c.filled(p) && c.length@[p] >= 3);
                assert(entry_valid(c, array@, size as int, s.blockstart as int, p));
                if want_sublen {
                    assert forall|k: int| 3 <= k <= *length implies #[trigger] dist_ok(array@, size as int, pos as int, sublen@[k] as int, k) by {
                        assert(cached_dist(c.sublen@, p, k) == sublen@[k] as int);
                    }
                    assert forall|k: int, k2: int| 3 <= k <= k2 <= *length implies #[trigger] sublen@[k] <= #[trigger] sublen@[k2] by {
                        assert(cached_dist(c.sublen@, p, k) == sublen@[k] as int);
                        assert(cached_dist(c.sublen@, p, k2) == sublen@[k2] as int);
                    }
                } else {
                    lemma_match_prefix(array@, size as int, pos as int, c.dist@[p] as int, c.length@[p] as int, *length as int);
                }
            } else {
                assert(c.filled(p));
                assert(c.length@[p] == 0 || c.length@[p] >= 3);
            }
        }
        return;
    }
    proof {
        if s.lmc is Some {
            let c = s.lmc.unwrap();
            let p = pos - s.blockstart;
            if limit != limit0 {
                assert(c.filled(p));
                assert(c.length@[p] == 0 || c.length@[p] >= 3);
            }
        }
    }
    assert(1 <= limit <= limit0);
    let ghost s_after = *s;

    if size - pos < MIN_MATCH {
        *length = 0;
        *distance = 0;
        return;
    }

    if limit > size - pos {
        limit = size - pos;
    }
    proof {
        lemma_window_slot(pos);
    }
    let hpos: u16 = (pos & WINDOW_MASK) as u16;
    let mut bestdist: u16 = 0;
    let mut bestlength: u16 = 1;
    let mut on_secondary = false;

    let pp0 = h.head[h.val as usize];
    if pp0 < 0 {
        *length = 0;
        *distance = 0;
        return;
    }
    let mut pp: usize = pp0 as usize;
    let mut p: u16 = h.prev[pp];
    let mut dist: u16 = if p < hpos {
        hpos - p
    } else {
        (WINDOW_SIZE as u16 - p) + hpos
    };
    proof {
        lemma_chain_start(*h, array@, size as int, pos as int, p as int, dist as int);
    }

    let mut chain_counter: usize = MAX_CHAIN_HITS;
    let mut going = true;
    let ghost d1 = dist as int;
    let ghost cap = limit as int;
    let ghost mut first = true;
    let ghost mut walked: nat = 0;

    // Go through all distances.
    while going && (dist as usize) < WINDOW_SIZE
        invariant
            s.wf(),
            h.wf(),
            pos < size <= array@.len(),
            limit <= MAX_MATCH,
            pos + limit <= size,
            1 <= bestlength <= MAX_MATCH,
            p < WINDOW_SIZE,
            chain_counter <= MAX_CHAIN_HITS,
            going ==> chain_counter > 0,
            hpos < WINDOW_SIZE,
            hpos == pos % 32768,
            want_sublen ==> sublen@.len() > MAX_MATCH,
            sublen@.len() == old(sublen)@.len(),
            h.last_update@ == Some((array@, size as int, pos as int)),
            *s == s_after,
            1 <= dist,
            dist < WINDOW_SIZE ==> pos - dist >= h.first_update@ && p as int == (pos - dist) % 32768,
            bestlength >= 3 ==> dist_ok(array@, size as int, pos as int, bestdist as int, bestlength as int),
            bestlength <= limit <= limit0,
            bestdist <= dist,
            want_sublen ==> sublen_sorted(sublen@, bestlength as int),
            want_sublen && bestlength >= 3 ==> sublen@[bestlength as int] == bestdist,
            want_sublen ==> forall|k: int|
                3 <= k <= bestlength ==> #[trigger] dist_ok(array@, size as int, pos as int, sublen@[k] as int, k),
            cap == limit,
            size - pos >= MIN_MATCH,
            first ==> dist == d1 && bestlength == 1 && going,
            (p as int, dist as int, on_secondary, bestlength as int, going, chain_counter as int) == walk(
                *h,
                array@,
                pos as int,
                cap,
                walked,
            ),
            forall|k: nat|
                k < walked && walk_active(#[trigger] walk(*h, array@, pos as int, cap, k)) ==> bestlength as int
                    >= common_prefix(array@, pos - walk(*h, array@, pos as int, cap, k).1, pos as int, cap),
            !first && d1 < WINDOW_SIZE ==> bestlength >= common_prefix(array@, pos - d1, pos as int, cap),
        decreases chain_counter + if going { 1int } else { 0int },
    {
        assert(h.first_update@ >= 0);
        let ghost st = walk(*h, array@, pos as int, cap, walked);
        if dist > 0 {
            let scan_pos = pos;
            let match_pos = pos - dist as usize;

            let currentlength = candidate_length(h, array, pos, size, dist, limit, bestlength);
            proof {
                if first {
                    assert(limit as int == cap);
                }
            }
            assert(currentlength > 0 ==> match_valid(array@, size as int, pos as int, dist as int, currentlength as int));

            if currentlength > bestlength as usize {
                if want_sublen {
                    let mut j = bestlength as usize + 1;
                    while j <= currentlength
                        invariant
                            currentlength <= MAX_MATCH,
                            sublen@.len() > MAX_MATCH,
                            sublen@.len() == old(sublen)@.len(),
                            bestlength + 1 <= j <= currentlength + 1,
                            1 <= dist < WINDOW_SIZE,
                            match_valid(array@, size as int, pos as int, dist as int, currentlength as int),
                            forall|k: int|
                                3 <= k < j ==> #[trigger] dist_ok(array@, size as int, pos as int, sublen@[k] as int, k),
                            bestdist <= dist,
                            forall|k: int, k2: int| 3 <= k <= k2 < j ==> #[trigger] sublen@[k] <= #[trigger] sublen@[k2],
                            forall|k: int| 3 <= k < j ==> #[trigger] sublen@[k] <= dist,
                            j > bestlength + 1 && j > 3 ==> sublen@[j - 1] == dist,
                        decreases currentlength + 1 - j,
                    {
                        sublen.set(j, dist);
                        proof {
                            assert forall|k: int| 3 <= k < j + 1 implies #[trigger] dist_ok(array@, size as int, pos as int, sublen@[k] as int, k) by {
                                if k == j {
                                    lemma_match_prefix(array@, size as int, pos as int, dist as int, currentlength as int, k);
                                }
                            }
                        }
                        j = j + 1;
                    }
                }
                bestdist = dist;
                bestlength = currentlength as u16;
                if currentlength >= limit {
                    going = false;
                }
            }
        }

        proof {
            first = false;
        }
        if going {
            // Switch to the other hash once this will be more efficient.
            if !on_secondary && bestlength >= h.same[hpos as usize] && h.val2 == h.hashval2[p as usize] {
                on_secondary = true;
            }

            pp = p as usize;
            let ghost q = pos - dist;
            proof {
                lemma_slot_of_recent(pos as int, q);
                lemma_chain_links(*h, array@, size as int, pos as int, q, pp as int);
            }
            p = if on_secondary { h.prev2[p as usize] } else { h.prev[p as usize] };
            if p as usize == pp {
                // An unset prev value ends the chain.
                going = false;
            } else {
                let new_dist: u16 = if (p as usize) < pp {
                    pp as u16 - p
                } else {
                    (WINDOW_SIZE as u16 - p) + pp as u16
                };
                proof {
                    lemma_chain_step(q, pp as int, p as int);
                    lemma_slot_position_mod(q - 1, p as int);
                }
                dist = dist + new_dist;
                chain_counter = chain_counter - 1;
                if chain_counter == 0 {
                    going = false;
                }
            }
        }
        proof {
            assert(walk(*h, array@, pos as int, cap, walked + 1) == walk_step(*h, array@, pos as int, cap, st));
            walked = walked + 1;
        }
    }
    proof {
        assert forall|k: nat|
            walk_active(#[trigger] walk(*h, array@, pos as int, cap, k)) implies bestlength as int >= common_prefix(
            array@,
            pos - walk(*h, array@, pos as int, cap, k).1,
            pos as int,
            cap,
        ) by {
            if k >= walked {
                lemma_walk_stays(*h, array@, pos as int, cap, walked, k);
            }
        }
    }

    let ghost s0 = *s;
    if want_sublen {
        store_in_longest_match_cache(s, pos, limit, Some(sublen.as_slice()), bestdist, bestlength);
    } else {
        store_in_longest_match_cache(s, pos, limit, None, bestdist, bestlength);
    }
    proof {
        if s0.lmc is Some {
            let c0 = s0.lmc.unwrap();
            let c1 = s.lmc.unwrap();
            let p = pos - s0.blockstart;
            if limit == MAX_MATCH && want_sublen && !c0.filled(p) {
                lemma_store_keeps_valid(c0, c1, array@, size as int, s0.blockstart as int, p, bestdist, bestlength, sublen@);
            }
        }
    }
    // A length below MIN_MATCH is no match.
    if (bestlength as usize) < MIN_MATCH {
        *distance = 0;
        *length = 0;
    } else {
        *distance = bestdist;
        *length = bestlength;
    }
}

/// Number of equal bytes at `a` and at `b`, counting from the start and stopping at `cap`.
pub open spec fn common_prefix(array: Seq<u8>, a: int, b: int, cap: int) -> int
    decreases cap,
{
    if cap <= 0 || array[a] != array[b] {
        0
    } else {
        1 + common_prefix(array, a + 1, b + 1, cap - 1)
    }
}

/// The distance to the first candidate on the hash chain of `pos`: the gap to the slot
/// that the slot of `pos` links to.
pub open spec fn first_candidate_distance(h: crate::types::Hash, pos: int) -> int {
    let hp = pos % 32768;
    let x = h.prev@[hp] as int;
    if x < hp {
        hp - x
    } else {
        32768 - x + hp
    }
}

proof fn lemma_common_prefix_is(array: Seq<u8>, a: int, b: int, cap: int, l: int)
    requires
        0 <= l <= cap,
        forall|k: int| 0 <= k < l ==> array[a + k] == #[trigger] array[b + k],
        l == cap || array[a + l] != array[b + l],
    ensures
        common_prefix(array, a, b, cap) == l,
    decreases l,
{
    if l > 0 {
        assert(array[a + 0] == array[b + 0]);
        assert forall|k: int| 0 <= k < l - 1 implies array[(a + 1) + k] == #[trigger] array[(b + 1) + k] by {
            assert(array[a + (k + 1)] == array[b + (k + 1)]);
        }
        lemma_common_prefix_is(array, a + 1, b + 1, cap - 1, l - 1);
    }
}

proof fn lemma_common_prefix_short(array: Seq<u8>, a: int, b: int, cap: int)
    requires
        cap >= 2,
        array[a + 1] != array[b + 1],
    ensures
        common_prefix(array, a, b, cap) <= 1,
{
    assert(common_prefix(array, a + 1, b + 1, cap - 1) == 0);
}

/// The state of the chain walk of the match search: (slot, distance, on the secondary
/// chain, best length, still going, chain budget left).
pub type WalkState = (int, int, bool, int, bool, int);

/// The wrapped gap from slot `x` back to slot `y`.
pub open spec fn slot_gap(x: int, y: int) -> int {
    if y < x {
        x - y
    } else {
        32768 - y + x
    }
}

/// A candidate is looked at: the walk is still going and within the window.
pub open spec fn walk_active(st: WalkState) -> bool {
    st.4 && st.1 < WINDOW_SIZE
}

/// The walk before its first candidate: the link of the slot of `pos`.
pub open spec fn walk_start(h: crate::types::Hash, pos: int) -> WalkState {
    let hp = pos % 32768;
    let p = h.prev@[hp] as int;
    (p, slot_gap(hp, p), false, 1, true, MAX_CHAIN_HITS as int)
}

/// One candidate of the search (spec 4.3 steps 2 to 6): the best length becomes the
/// longer of itself and the match at this distance; the walk stops when the limit is
/// reached, else moves to the secondary chain once the best length covers the run of
/// `pos` and the candidate's secondary hash matches, then follows the link. It ends at a
/// link to itself or when the budget runs out.
pub open spec fn walk_step(h: crate::types::Hash, array: Seq<u8>, pos: int, limit: int, st: WalkState) -> WalkState {
    let (p, dist, on2, best, going, counter) = st;
    if !walk_active(st) {
        st
    } else {
        let cp = common_prefix(array, pos - dist, pos, limit);
        let best1 = if cp > best { cp } else { best };
        if cp > best && cp >= limit {
            (p, dist, on2, best1, false, counter)
        } else {
            let on2b = on2 || (best1 >= h.same@[pos % 32768] && h.val2 == h.hashval2@[p]);
            let np = if on2b { h.prev2@[p] as int } else { h.prev@[p] as int };
            if np == p {
                (np, dist, on2b, best1, false, counter)
            } else {
                (np, dist + slot_gap(p, np), on2b, best1, counter - 1 != 0, counter - 1)
            }
        }
    }
}

/// The walk after `k` candidates.
pub open spec fn walk(h: crate::types::Hash, array: Seq<u8>, pos: int, limit: int, k: nat) -> WalkState
    decreases k,
{
    if k == 0 {
        walk_start(h, pos)
    } else {
        walk_step(h, array, pos, limit, walk(h, array, pos, limit, (k - 1) as nat))
    }
}

proof fn lemma_walk_stays(h: crate::types::Hash, array: Seq<u8>, pos: int, limit: int, j: nat, k: nat)
    requires
        j <= k,
        !walk_active(walk(h, array, pos, limit, j)),
    ensures
        walk(h, array, pos, limit, k) == walk(h, array, pos, limit, j),
    decreases k - j,
{
    if j < k {
        lemma_walk_stays(h, array, pos, limit, j, (k - 1) as nat);
    }
}

proof fn lemma_common_prefix_upto(array: Seq<u8>, a: int, b: int, cap: int, t: int)
    requires
        0 <= t,
        t < cap ==> array[a + t] != array[b + t],
    ensures
        common_prefix(array, a, b, cap) <= t,
    decreases t,
{
    if t > 0 && cap > 0 && array[a] == array[b] {
        lemma_common_prefix_upto(array, a + 1, b + 1, cap - 1, t - 1);
    }
}

/// The search starts from the slot of `pos`, which heads its chain; its link gives the
/// first candidate.
proof fn lemma_chain_start(h: crate::types::Hash, array: Seq<u8>, size: int, pos: int, p: int, dist: int)
    requires
        h.wf(),
        h.last_update@ == Some((array, size, pos)),
        p == h.prev@[pos % 32768] as int,
        dist == if p < pos % 32768 { pos % 32768 - p } else { 32768 - p + pos % 32768 },
    ensures
        1 <= dist,
        dist < WINDOW_SIZE ==> pos - dist >= h.first_update@ && p == (pos - dist) % 32768,
{
    let hp = pos % 32768;
    lemma_slot_position_self(pos);
    match h.last_update@ {
        Some((a, e, q)) => {
            assert(chain_link_ok(h.first_update@, slot_position(q, hp), hp, h.prev@[hp] as int));
        },
        None => {},
    }
    if p != hp {
        lemma_chain_step(pos, hp, p);
        lemma_slot_position_mod(pos - 1, p);
    }
}

/// From a slot that stands for a position added since the first update, both chains
/// link to the end or to another such position.
proof fn lemma_chain_links(h: crate::types::Hash, array: Seq<u8>, size: int, pos: int, q: int, pp: int)
    requires
        h.wf(),
        h.last_update@ == Some((array, size, pos)),
        h.first_update@ <= q <= pos,
        pp == q % 32768,
        slot_position(pos, pp) == q,
    ensures
        chain_link_ok(h.first_update@, q, pp, h.prev@[pp] as int),
        chain_link_ok(h.first_update@, q, pp, h.prev2@[pp] as int),
{
    match h.last_update@ {
        Some((a, e, p)) => {
            assert(chain_link_ok(h.first_update@, slot_position(p, pp), pp, h.prev@[pp] as int));
            assert(chain_link_ok(h.first_update@, slot_position(p, pp), pp, h.prev2@[pp] as int));
        },
        None => {},
    }
}

/// The run-of-same shortcut: when the runs of equal bytes at `pos` and at `pos - dist`
/// are both at least `cur` long and their first bytes agree, the first `cur` bytes match.
proof fn lemma_shortcut(h: crate::types::Hash, array: Seq<u8>, size: int, pos: int, dist: int, same0: int, same1: int, cur: int)
    requires
        h.wf(),
        h.last_update@ == Some((array, size, pos)),
        0 < dist < 32768,
        dist <= pos,
        h.same@[pos % 32768] as int == same0,
        h.same@[(pos - dist) % 32768] as int == same1,
        0 <= cur <= same0,
        cur <= same1,
        array[pos] == array[pos - dist],
    ensures
        forall|k: int| 0 <= k < cur ==> array[pos - dist + k] == #[trigger] array[pos + k],
{
    let start = h.first_update@;
    let mp = pos - dist;
    match h.last_update@ {
        Some((a, e, p)) => {
            assert(a == array && e == size && p == pos);
            assert(forall|k: int| 0 <= k < WINDOW_SIZE ==> #[trigger] slot_same_ok(a, e, start, p, k, h.same@[k] as int));
        },
        None => {},
    }
    assert(forall|k: int| 0 <= k < WINDOW_SIZE ==> #[trigger] slot_same_ok(array, size, start, pos, k, h.same@[k] as int));
    assert(0 <= pos % 32768 < WINDOW_SIZE);
    assert(0 <= mp % 32768 < WINDOW_SIZE);
    assert(slot_same_ok(array, size, start, pos, pos % 32768, h.same@[pos % 32768] as int));
    assert(slot_position(pos, pos % 32768) == pos) by {
        assert(pos - pos % 32768 == 32768 * (pos / 32768));
    }
    assert(slot_same_ok(array, size, start, pos, mp % 32768, h.same@[mp % 32768] as int));
    assert(slot_position(pos, mp % 32768) == mp) by {
        assert(mp - mp % 32768 == 32768 * (mp / 32768));
        assert(pos - mp % 32768 == dist + 32768 * (mp / 32768));
        assert((pos - mp % 32768) % 32768 == dist);
    }
    assert forall|k: int| 0 <= k < cur implies array[pos - dist + k] == #[trigger] array[pos + k] by {
        if k > 0 {
            assert(array[pos + k] == array[pos]);
            assert(same1 > 0);
            assert(array[mp + k] == array[mp]);
        }
    }
}

proof fn lemma_window_slot(p: usize)
    ensures
        p & 32767usize < 32768,
        (p & 32767usize) as int == p as int % 32768,
{
    assert(p & 32767usize < 32768) by (bit_vector);
    assert(p & 32767usize == p % 32768) by (bit_vector);
}


/// Number of input bytes a token stands for: 1 for a literal, else the match length.
pub open spec fn token_len(litlen: u16, dist: u16) -> int {
    if dist == 0 {
        1
    } else {
        litlen as int
    }
}

/// Total number of input bytes the tokens `a..b` stand for.
pub open spec fn token_span(litlens: Seq<u16>, dists: Seq<u16>, a: int, b: int) -> int
    decreases b - a,
{
    if b <= a {
        0
    } else {
        token_span(litlens, dists, a, b - 1) + token_len(litlens[b - 1], dists[b - 1])
    }
}

/// The token at `p` reproduces the input: a literal is the byte at `p`, a match copies
/// bytes that are equal, within `input[..end]`.
pub open spec fn token_matches(input: Seq<u8>, end: int, p: int, litlen: u16, dist: u16) -> bool {
    if dist == 0 {
        0 <= p < end && end <= input.len() && litlen as int == input[p] as int
    } else {
        0 <= p && match_valid(input, end, p, dist as int, litlen as int)
    }
}

/// The tokens `n0..` of the store stand for `input[start..cover]`, one after the other,
/// and each reproduces the bytes it stands for.
pub open spec fn tokens_cover(store: LZ77Store, n0: int, input: Seq<u8>, start: int, cover: int, end: int) -> bool {
    let n = store.len();
    &&& n0 <= n
    &&& token_span(store.litlens@, store.dists@, n0, n) == cover - start
    &&& forall|k: int|
        n0 <= k < n ==> #[trigger] store.pos@[k] as int == start + token_span(store.litlens@, store.dists@, n0, k)
    &&& forall|k: int|
        n0 <= k < n ==> token_matches(input, end, #[trigger] store.pos@[k] as int, store.litlens@[k], store.dists@[k])
}

proof fn lemma_token_span_push(l: Seq<u16>, d: Seq<u16>, x: u16, y: u16, a: int, b: int)
    requires
        0 <= a,
        b <= l.len(),
        b <= d.len(),
    ensures
        token_span(l.push(x), d.push(y), a, b) == token_span(l, d, a, b),
    decreases b - a,
{
    if b > a {
        lemma_token_span_push(l, d, x, y, a, b - 1);
        assert(l.push(x)[b - 1] == l[b - 1]);
        assert(d.push(y)[b - 1] == d[b - 1]);
    }
}

/// Lazy-matching score of a match: longer is better, very far is slightly worse.
fn get_length_score(length: u16, dist: u16) -> (r: i32)
    ensures
        r as int == if length < MIN_MATCH {
            0
        } else {
            length as int * 1024 - if dist > 1024 { (dist as int - 1024) / 32 } else { 0 }
        },
{
    if length < MIN_MATCH as u16 {
        return 0;
    }
    let length_score = length as i32 * 1024;
    let dist_penalty = if dist > 1024 {
        (dist as i32 - 1024) / 32
    } else {
        0
    };
    length_score - dist_penalty
}

/// Updates the hash for the positions `from..to`, in order.
fn update_hash_range(input: &[u8], from: usize, to: usize, end: usize, h: &mut crate::types::Hash)
    requires
        from <= to <= end <= input@.len(),
        old(h).wf(),
        old(h).follows(input@, end as int, from as int),
    ensures
        final(h).wf(),
        final(h).follows(input@, end as int, to as int),
{
    let mut i = from;
    while i < to
        invariant
            from <= i <= to <= end <= input@.len(),
            h.wf(),
            h.follows(input@, end as int, i as int),
        decreases to - i,
    {
        update_hash(input, i, end, h);
        i = i + 1;
    }
}

/// Appends a token at `pos` that reproduces the input, keeping the coverage of
/// `input[start..pos]` by the tokens from `n0` on.
fn push_token(
    input: &[u8],
    start: usize,
    end: usize,
    n0: usize,
    length: u16,
    dist: u16,
    pos: usize,
    store: &mut LZ77Store,
)
    requires
        old(store).wf(),
        token_ok(length, dist),
        token_matches(input@, end as int, pos as int, length, dist),
        tokens_cover(*old(store), n0 as int, input@, start as int, pos as int, end as int),
        old(store).len() + NUM_LL < usize::MAX,
    ensures
        final(store).wf(),
        final(store).len() == old(store).len() + 1,
        final(store).data@ == old(store).data@,
        forall|k: int| 0 <= k < old(store).len() ==> #[trigger] final(store).litlens@[k] == old(store).litlens@[k],
        forall|k: int| 0 <= k < old(store).len() ==> #[trigger] final(store).dists@[k] == old(store).dists@[k],
        forall|k: int| 0 <= k < old(store).len() ==> #[trigger] final(store).pos@[k] == old(store).pos@[k],
        tokens_cover(*final(store), n0 as int, input@, start as int, pos + token_len(length, dist), end as int),
{
    let ghost old_store = *store;
    store_lit_len_dist(length, dist, pos, store);
    proof {
        let n = old_store.len();
        lemma_token_span_push(old_store.litlens@, old_store.dists@, length, dist, n0 as int, n);
        assert forall|k: int| n0 <= k < n + 1 implies #[trigger] store.pos@[k] as int == start
            + token_span(store.litlens@, store.dists@, n0 as int, k) by {
            lemma_token_span_push(old_store.litlens@, old_store.dists@, length, dist, n0 as int, k);
        }
        assert forall|k: int| n0 <= k < n + 1 implies token_matches(input@, end as int, #[trigger] store.pos@[k] as int, store.litlens@[k], store.dists@[k]) by {
            if k < n {
                assert(store.pos@[k] == old_store.pos@[k]);
            }
        }
    }
}


/// Does LZ77 with lazy matching, in the manner of gzip: at each position the longest
/// match is found; a match is held back one position in case the next one is better.
/// The tokens appended to `store` stand for `input[instart..inend]` in order, and each
/// literal or match reproduces the bytes it stands for.
pub fn lz77_greedy(
    s: &mut BlockState,
    input: &[u8],
    instart: usize,
    inend: usize,
    store: &mut LZ77Store,
    h: &mut crate::types::Hash,
)
    requires
        old(s).wf(),
        old(s).lmc is Some ==> old(s).blockstart <= instart && inend <= old(s).blockend,
        instart <= inend <= input@.len(),
        old(store).wf(),
        old(store).len() + (inend - instart) + NUM_LL < usize::MAX,
        old(h).shaped(),
        block_cache_valid(*old(s), input@, inend as int),
    ensures
        final(s).wf(),
        final(s).blockstart == old(s).blockstart,
        final(s).blockend == old(s).blockend,
        final(store).wf(),
        final(store).data@ == old(store).data@,
        forall|k: int| 0 <= k < old(store).len() ==> #[trigger] final(store).litlens@[k] == old(store).litlens@[k],
        forall|k: int| 0 <= k < old(store).len() ==> #[trigger] final(store).dists@[k] == old(store).dists@[k],
        forall|k: int| 0 <= k < old(store).len() ==> #[trigger] final(store).pos@[k] == old(store).pos@[k],
        tokens_cover(*final(store), old(store).len(), input@, instart as int, inend as int, inend as int),
        instart < inend ==> final(h).wf(),
{
    let n0 = store.size();
    if instart == inend {
        return;
    }

    let windowstart = if instart > WINDOW_SIZE {
        instart - WINDOW_SIZE
    } else {
        0
    };

    let mut dummysublen: Vec<u16> = vec![0u16; 259];

    // Lazy matching state.
    let mut prev_length: u16 = 0;
    let mut prev_match: u16 = 0;
    let mut match_available = false;

    reset_hash(h);
    warmup_hash(input, windowstart, inend, h);
    update_hash_range(input, windowstart, instart, inend, h);

    let mut i = instart;
    while i < inend
        invariant
            instart <= i <= inend <= input@.len(),
            instart < inend,
            n0 == old(store).len(),
            s.wf(),
            s.blockstart == old(s).blockstart,
            s.blockend == old(s).blockend,
            s.lmc is Some == old(s).lmc is Some,
            old(s).lmc is Some ==> old(s).blockstart <= instart && inend <= old(s).blockend,
            block_cache_valid(*s, input@, inend as int),
            h.wf(),
            h.follows(input@, inend as int, i as int),
            dummysublen@.len() == 259,
            store.wf(),
            store.data@ == old(store).data@,
            forall|k: int| 0 <= k < n0 ==> #[trigger] store.litlens@[k] == old(store).litlens@[k],
            forall|k: int| 0 <= k < n0 ==> #[trigger] store.dists@[k] == old(store).dists@[k],
            forall|k: int| 0 <= k < n0 ==> #[trigger] store.pos@[k] == old(store).pos@[k],
            old(store).len() + (inend - instart) + NUM_LL < usize::MAX,
            match_available ==> instart < i,
            match_available ==> MIN_MATCH <= prev_length < MAX_MATCH && 1 <= prev_match <= WINDOW_SIZE
                && match_valid(input@, inend as int, i - 1, prev_match as int, prev_length as int),
            tokens_cover(*store, n0 as int, input@, instart as int, if match_available { i - 1 } else { i as int }, inend as int),
            store.len() - n0 <= (if match_available { i - 1 } else { i as int }) - instart,
        decreases inend - i,
    {
        update_hash(input, i, inend, h);

        let mut leng: u16 = 0;
        let mut dist: u16 = 0;
        find_longest_match(s, h, input, i, inend, MAX_MATCH, Some(&mut dummysublen), &mut dist, &mut leng);

        let lengthscore = get_length_score(leng, dist);
        let prevlengthscore = get_length_score(prev_length, prev_match);

        let mut emit_current = true;
        if match_available {
            match_available = false;
            if lengthscore > prevlengthscore + 1 {
                push_token(input, instart, inend, n0, input[i - 1] as u16, 0, i - 1, store);
                if lengthscore >= MIN_MATCH as i32 && (leng as usize) < MAX_MATCH {
                    match_available = true;
                    prev_length = leng;
                    prev_match = dist;
                    i = i + 1;
                    emit_current = false;
                }
            } else {
                // Add the previous match to the output.
                leng = prev_length;
                dist = prev_match;
                push_token(input, instart, inend, n0, leng, dist, i - 1, store);
                update_hash_range(input, i + 1, i - 1 + leng as usize, inend, h);
                i = i - 1 + leng as usize;
                emit_current = false;
            }
        } else if lengthscore >= MIN_MATCH as i32 && (leng as usize) < MAX_MATCH {
            match_available = true;
            prev_length = leng;
            prev_match = dist;
            i = i + 1;
            emit_current = false;
        }

        if emit_current {
            // Add the current position to the output.
            if lengthscore >= MIN_MATCH as i32 {
                push_token(input, instart, inend, n0, leng, dist, i, store);
            } else {
                leng = 1;
                push_token(input, instart, inend, n0, input[i] as u16, 0, i, store);
            }
            update_hash_range(input, i + 1, i + leng as usize, inend, h);
            i = i + leng as usize;
        }
    }
    assert(!match_available);
}

} // verus!
