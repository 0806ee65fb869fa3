//! The rolling hash over the sliding window and its two chains.
use vstd::prelude::*;
use crate::types::{HASH_HEADS, WINDOW_SIZE, WINDOW_MASK, MIN_MATCH};

verus! {

const HASH_SHIFT: i32 = 5;

const HASH_MASK: i32 = 32767;

/// One step of the rolling hash: shift in the byte `c` and keep 15 bits.
pub open spec fn hash_step(v: i32, c: u8) -> i32 {
    ((v << 5i32) ^ (c as i32)) & 32767i32
}

/// The secondary hash: the primary one with the low byte of `same - MIN_MATCH` mixed in.
pub open spec fn hash2_of(same: u16, v: i32) -> i32 {
    (((same as i32 - 3i32) as i32) & 255i32) ^ v
}

/// `array[p + 1 ..= p + k]` all equal `array[p]`, within `array[..end]`.
pub open spec fn run_of_same(array: Seq<u8>, p: int, k: int, end: int) -> bool {
    &&& p + k < end || k == 0
    &&& forall|j: int| 1 <= j <= k ==> #[trigger] array[p + j] == array[p]
}

/// The link that `update_hash` stores for slot `hpos` with hash value `v`: the slot of the
/// most recent position with the same hash, or `hpos` itself (the chain ends) when there is
/// none or that slot now holds another hash.
pub open spec fn chain_link(head: Seq<i32>, hashval: Seq<i32>, v: i32, hpos: int) -> u16 {
    let hd = head[v as int];
    if hd != -1 && hashval[hd as int] == v {
        hd as u16
    } else {
        hpos as u16
    }
}

/// The position that window slot `h` stands for when `p` is the last position added:
/// the latest position up to `p` that maps to `h`.
pub open spec fn slot_position(p: int, h: int) -> int {
    p - (p - h) % 32768
}

/// The run length `s` stored in slot `h` is right for the position the slot stands
/// for, if that position was added since `start`; otherwise it is 0.
pub open spec fn slot_same_ok(array: Seq<u8>, end: int, start: int, p: int, h: int, s: int) -> bool {
    if slot_position(p, h) >= start {
        run_of_same(array, slot_position(p, h), s, end)
    } else {
        s == 0
    }
}

/// The chain link from slot `h`, which stands for position `q`, to slot `x` ends the
/// chain (`x == h`) or leads to a position added since `start`.
pub open spec fn chain_link_ok(start: int, q: int, h: int, x: int) -> bool {
    x == h || slot_position(q - 1, x) >= start
}

/// A slot stands for the latest position that maps to it.
pub proof fn lemma_slot_of_recent(pos: int, q: int)
    requires
        0 <= q <= pos,
        pos - q < 32768,
    ensures
        slot_position(pos, q % 32768) == q,
{
    assert(q - q % 32768 == 32768 * (q / 32768));
    assert(pos - q % 32768 == (pos - q) + 32768 * (q / 32768));
    assert((pos - q % 32768) % 32768 == pos - q);
}

/// Following a chain link from the slot of position `q` moves back by the wrapped gap
/// between the two slots.
pub proof fn lemma_chain_step(q: int, pp: int, p: int)
    requires
        0 <= q,
        0 <= pp < 32768,
        0 <= p < 32768,
        pp == q % 32768,
        p != pp,
    ensures
        q - slot_position(q - 1, p) == if p < pp { pp - p } else { 32768 - p + pp },
{
    let k = q / 32768;
    assert(q == 32768 * k + pp);
    if p < pp {
        assert(q - 1 - p == 32768 * k + (pp - p - 1));
        assert((q - 1 - p) % 32768 == pp - p - 1);
    } else {
        assert(q - 1 - p == 32768 * (k - 1) + (32768 + pp - p - 1));
        assert((q - 1 - p) % 32768 == 32768 + pp - p - 1);
    }
}

/// The position a slot stands for maps to that slot.
pub proof fn lemma_slot_position_mod(p: int, h: int)
    requires
        0 <= h < 32768,
    ensures
        slot_position(p, h) % 32768 == h,
{
    let r = (p - h) % 32768;
    let k = (p - h) / 32768;
    assert(p - h == 32768 * k + r);
    assert(slot_position(p, h) == 32768 * k + h);
}

proof fn lemma_slot_position_step(pos: int, h: int)
    requires
        1 <= pos,
        0 <= h < 32768,
        h != pos % 32768,
    ensures
        slot_position(pos, h) == slot_position(pos - 1, h),
{
    let r = (pos - 1 - h) % 32768;
    let k = (pos - 1 - h) / 32768;
    assert(pos - 1 - h == 32768 * k + r);
    assert(0 <= r < 32768);
    if r + 1 == 32768 {
        assert(pos - h == 32768 * (k + 1));
        assert((pos - h) % 32768 == 0);
        assert(pos % 32768 == h) by {
            assert(pos == 32768 * (k + 1) + h);
        }
    }
    assert(pos - h == 32768 * k + (r + 1));
    assert((pos - h) % 32768 == r + 1);
}

/// The slot of a position maps back to itself.
pub proof fn lemma_slot_position_self(pos: int)
    requires
        0 <= pos,
    ensures
        slot_position(pos, pos % 32768) == pos,
{
    let h = pos % 32768;
    assert(pos - h == 32768 * (pos / 32768));
    assert((pos - h) % 32768 == 0);
}

proof fn lemma_hash_step_bound(v: i32, c: u8)
    ensures
        0 <= hash_step(v, c) < 32768,
{
    let r = hash_step(v, c);
    assert(0 <= (((v << 5i32) ^ (c as i32)) & 32767i32) < 32768) by (bit_vector);
}

proof fn lemma_hash2_bound(same: u16, v: i32)
    requires
        0 <= v < 32768,
    ensures
        0 <= hash2_of(same, v) < 32768,
{
    let s: i32 = (same as i32 - 3i32) as i32;
    assert(0 <= v < 32768 ==> 0 <= ((s & 255i32) ^ v) < 32768) by (bit_vector);
}

proof fn lemma_slot_bound(p: usize)
    ensures
        p & 32767usize < 32768,
        (p & 32767usize) as int == p as int % 32768,
{
    assert(p & 32767usize < 32768) by (bit_vector);
    assert(p & 32767usize == p % 32768) by (bit_vector);
}

/// Update the sliding hash value with the given byte. All calls to this function
/// must be made on consecutive input characters.
fn update_hash_value(h: &mut crate::types::Hash, c: u8)
    ensures
        final(h).val == hash_step(old(h).val, c),
        final(h).head == old(h).head,
        final(h).prev == old(h).prev,
        final(h).hashval == old(h).hashval,
        final(h).head2 == old(h).head2,
        final(h).prev2 == old(h).prev2,
        final(h).hashval2 == old(h).hashval2,
        final(h).val2 == old(h).val2,
        final(h).same == old(h).same,
        final(h).last_update == old(h).last_update,
        final(h).first_update == old(h).first_update,
{
    h.val = ((h.val << HASH_SHIFT) ^ (c as i32)) & HASH_MASK;
}

/// Fills in the initial value of the hash from the first two bytes, before
/// `update_hash` can be used.
pub fn warmup_hash(array: &[u8], pos: usize, end: usize, h: &mut crate::types::Hash)
    requires
        pos < end <= array@.len(),
        old(h).wf(),
        old(h).last_update@ is None,
    ensures
        final(h).wf(),
        final(h).val == if pos + 1 < end {
            hash_step(hash_step(old(h).val, array@[pos as int]), array@[pos + 1])
        } else {
            hash_step(old(h).val, array@[pos as int])
        },
        final(h).head == old(h).head,
        final(h).prev == old(h).prev,
        final(h).hashval == old(h).hashval,
        final(h).head2 == old(h).head2,
        final(h).prev2 == old(h).prev2,
        final(h).hashval2 == old(h).hashval2,
        final(h).same == old(h).same,
        final(h).val2 == old(h).val2,
        final(h).last_update == old(h).last_update,
        final(h).first_update == old(h).first_update,
{
    proof {
        lemma_hash_step_bound(h.val, array@[pos as int]);
    }
    update_hash_value(h, array[pos]);
    if pos + 1 < end {
        proof {
            lemma_hash_step_bound(h.val, array@[pos + 1]);
        }
        update_hash_value(h, array[pos + 1]);
    }
}

/// Updates the hash values for the position `pos`. All calls must be made for
/// consecutive positions.
pub fn update_hash(array: &[u8], pos: usize, end: usize, h: &mut crate::types::Hash)
    requires
        pos < end <= array@.len(),
        old(h).wf(),
        old(h).follows(array@, end as int, pos as int),
    ensures
        final(h).wf(),
        final(h).last_update@ == Some((array@, end as int, pos as int)),
        old(h).last_update@ is Some ==> final(h).first_update == old(h).first_update,
        final(h).val == hash_step(
            old(h).val,
            if pos + MIN_MATCH <= end { array@[pos + 2] } else { 0u8 },
        ),
        final(h).head@[final(h).val as int] == (pos & WINDOW_MASK) as i32,
        final(h).hashval@[(pos & WINDOW_MASK) as int] == final(h).val,
        final(h).val2 == hash2_of(final(h).same@[(pos & WINDOW_MASK) as int], final(h).val),
        final(h).head2@[final(h).val2 as int] == (pos & WINDOW_MASK) as i32,
        final(h).hashval2@[(pos & WINDOW_MASK) as int] == final(h).val2,
        run_of_same(array@, pos as int, final(h).same@[(pos & WINDOW_MASK) as int] as int, end as int),
        ({
            let s = final(h).same@[(pos & WINDOW_MASK) as int] as int;
            s == 65535 || pos + s + 1 >= end || array@[pos + s + 1] != array@[pos as int]
        }),
        final(h).same@ == old(h).same@.update((pos & WINDOW_MASK) as int, final(h).same@[(pos & WINDOW_MASK) as int]),
        final(h).hashval@ == old(h).hashval@.update((pos & WINDOW_MASK) as int, final(h).val),
        final(h).head@ == old(h).head@.update(final(h).val as int, (pos & WINDOW_MASK) as i32),
        final(h).prev@ == old(h).prev@.update(
            (pos & WINDOW_MASK) as int,
            chain_link(old(h).head@, final(h).hashval@, final(h).val, (pos & WINDOW_MASK) as int),
        ),
        final(h).hashval2@ == old(h).hashval2@.update((pos & WINDOW_MASK) as int, final(h).val2),
        final(h).head2@ == old(h).head2@.update(final(h).val2 as int, (pos & WINDOW_MASK) as i32),
        final(h).prev2@ == old(h).prev2@.update(
            (pos & WINDOW_MASK) as int,
            chain_link(old(h).head2@, final(h).hashval2@, final(h).val2, (pos & WINDOW_MASK) as int),
        ),
{
    proof {
        lemma_slot_bound(pos);
    }
    let ghost h0 = *h;
    let hpos = pos & WINDOW_MASK;
    let mut amount: usize = 0;

    let next_char = if end - pos >= MIN_MATCH {
        array[pos + MIN_MATCH - 1]
    } else {
        0
    };
    proof {
        lemma_hash_step_bound(h.val, next_char);
    }
    update_hash_value(h, next_char);

    let v = h.val as usize;
    h.hashval.set(hpos, h.val);
    let hd = h.head[v];
    let x: u16 = if hd != -1 && h.hashval[hd as usize] == h.val {
        hd as u16
    } else {
        hpos as u16
    };
    h.prev.set(hpos, x);
    h.head.set(v, hpos as i32);

    // Update "same".
    let prevslot = if pos == 0 {
        WINDOW_MASK
    } else {
        proof {
            lemma_slot_bound((pos - 1) as usize);
        }
        (pos - 1) & WINDOW_MASK
    };
    assert(h.same == h0.same);
    if h.same[prevslot] > 1 {
        amount = h.same[prevslot] as usize - 1;
    }
    proof {
        if amount > 0 {
            let q = (pos - 1) as int;
            assert(h0.last_update@ == Some((array@, end as int, q)));
            assert(prevslot as int == q % 32768);
            assert(h0.same@[prevslot as int] == amount + 1);
            lemma_slot_position_self(q);
            match h0.last_update@ {
                Some((a, e, p)) => {
                    assert(slot_same_ok(a, e, h0.first_update@, p, prevslot as int, h0.same@[prevslot as int] as int));
                },
                None => {},
            }
            assert(run_of_same(array@, q, amount + 1, end as int));
            assert forall|j: int| 1 <= j <= amount implies #[trigger] array@[pos + j] == array@[pos as int] by {
                assert(array@[q + (j + 1)] == array@[q]);
                assert(array@[q + 1] == array@[q]);
            }
        }
    }
    while pos + amount + 1 < end && array[pos] == array[pos + amount + 1] && amount < 65535
        invariant
            pos < end <= array@.len(),
            amount <= 65535,
            run_of_same(array@, pos as int, amount as int, end as int),
        decreases end - pos - amount,
    {
        amount = amount + 1;
    }
    h.same.set(hpos, amount as u16);

    let s = h.same[hpos];
    proof {
        lemma_hash2_bound(s, h.val);
    }
    h.val2 = ((s as i32 - MIN_MATCH as i32) & 255) ^ h.val;
    let v2 = h.val2 as usize;
    h.hashval2.set(hpos, h.val2);
    let hd2 = h.head2[v2];
    let x2: u16 = if hd2 != -1 && h.hashval2[hd2 as usize] == h.val2 {
        hd2 as u16
    } else {
        hpos as u16
    };
    h.prev2.set(hpos, x2);
    h.head2.set(v2, hpos as i32);
    let ghost start = match h0.last_update@ {
        None => pos as int,
        Some(_) => h0.first_update@,
    };
    h.last_update = Ghost(Some((array@, end as int, pos as int)));
    h.first_update = Ghost(start);
    proof {
        lemma_update_keeps_wf(h0, *h, array@, end as int, pos as int, v as int, v2 as int, x as int, x2 as int, amount as int);
    }
}

/// What `update_hash` changes keeps the hash well formed.
#[verifier::rlimit(60)]
proof fn lemma_update_keeps_wf(
    o: crate::types::Hash,
    n: crate::types::Hash,
    array: Seq<u8>,
    end: int,
    pos: int,
    v: int,
    v2: int,
    x: int,
    x2: int,
    amount: int,
)
    requires
        o.wf(),
        o.follows(array, end, pos),
        0 <= pos < end <= array.len(),
        n.shaped(),
        0 <= v < 32768,
        0 <= v2 < 32768,
        n.val == v,
        n.val2 == v2,
        n.head@ == o.head@.update(v, (pos % 32768) as i32),
        n.head2@ == o.head2@.update(v2, (pos % 32768) as i32),
        x == pos % 32768 || (o.head@[v] != -1 && x == o.head@[v]),
        x2 == pos % 32768 || (o.head2@[v2] != -1 && x2 == o.head2@[v2]),
        n.prev@ == o.prev@.update(pos % 32768, x as u16),
        n.prev2@ == o.prev2@.update(pos % 32768, x2 as u16),
        n.same@ == o.same@.update(pos % 32768, amount as u16),
        0 <= amount <= 65535,
        run_of_same(array, pos, amount, end),
        n.last_update@ == Some((array, end, pos)),
        n.first_update@ == match o.last_update@ {
            None => pos,
            Some(_) => o.first_update@,
        },
    ensures
        n.wf(),
{
    let hp = pos % 32768;
    let start = n.first_update@;
    lemma_slot_position_self(pos);
    assert forall|k: int| 0 <= k < WINDOW_SIZE implies #[trigger] slot_same_ok(array, end, start, pos, k, n.same@[k] as int) by {
        if k != hp {
            match o.last_update@ {
                None => {
                    assert(o.same@[k] == 0);
                    assert(slot_position(pos, k) < pos);
                },
                Some((a, e, p)) => {
                    lemma_slot_position_step(pos, k);
                    assert(slot_same_ok(a, e, start, p, k, o.same@[k] as int));
                },
            }
        }
    }
    assert forall|w: int| 0 <= w < HASH_HEADS implies #[trigger] n.head@[w] == -1 || slot_position(pos, n.head@[w] as int) >= start by {
        if w != v && n.head@[w] != -1 {
            let y = o.head@[w] as int;
            match o.last_update@ {
                None => {},
                Some((a, e, p)) => {
                    assert(o.head@[w] == -1 || slot_position(p, y) >= start);
                    if y != hp {
                        lemma_slot_position_step(pos, y);
                    }
                },
            }
        }
    }
    assert forall|w: int| 0 <= w < HASH_HEADS implies #[trigger] n.head2@[w] == -1 || slot_position(pos, n.head2@[w] as int) >= start by {
        if w != v2 && n.head2@[w] != -1 {
            let y = o.head2@[w] as int;
            match o.last_update@ {
                None => {},
                Some((a, e, p)) => {
                    assert(o.head2@[w] == -1 || slot_position(p, y) >= start);
                    if y != hp {
                        lemma_slot_position_step(pos, y);
                    }
                },
            }
        }
    }
    assert forall|k: int| 0 <= k < WINDOW_SIZE && slot_position(pos, k) >= start implies chain_link_ok(
        start,
        slot_position(pos, k),
        k,
        #[trigger] n.prev@[k] as int,
    ) by {
        if k == hp {
            match o.last_update@ {
                None => {},
                Some((a, e, p)) => {
                    if x != hp {
                        assert(o.head@[v] == -1 || slot_position(p, o.head@[v] as int) >= start);
                    }
                },
            }
        } else {
            match o.last_update@ {
                None => {
                    assert(slot_position(pos, k) < pos);
                },
                Some((a, e, p)) => {
                    lemma_slot_position_step(pos, k);
                    assert(chain_link_ok(start, slot_position(p, k), k, o.prev@[k] as int));
                },
            }
        }
    }
    assert forall|k: int| 0 <= k < WINDOW_SIZE && slot_position(pos, k) >= start implies chain_link_ok(
        start,
        slot_position(pos, k),
        k,
        #[trigger] n.prev2@[k] as int,
    ) by {
        if k == hp {
            match o.last_update@ {
                None => {},
                Some((a, e, p)) => {
                    if x2 != hp {
                        assert(o.head2@[v2] == -1 || slot_position(p, o.head2@[v2] as int) >= start);
                    }
                },
            }
        } else {
            match o.last_update@ {
                None => {
                    assert(slot_position(pos, k) < pos);
                },
                Some((a, e, p)) => {
                    lemma_slot_position_step(pos, k);
                    assert(chain_link_ok(start, slot_position(p, k), k, o.prev2@[k] as int));
                },
            }
        }
    }
}

/// Resets all fields of the hash.
pub fn reset_hash(h: &mut crate::types::Hash)
    requires
        old(h).shaped(),
    ensures
        final(h).wf(),
        final(h).val == 0,
        final(h).val2 == 0,
        final(h).last_update@ is None,
        forall|i: int| 0 <= i < HASH_HEADS ==> #[trigger] final(h).head@[i] == -1,
        forall|i: int| 0 <= i < HASH_HEADS ==> #[trigger] final(h).head2@[i] == -1,
        forall|i: int| 0 <= i < WINDOW_SIZE ==> #[trigger] final(h).prev@[i] == 0,
        forall|i: int| 0 <= i < WINDOW_SIZE ==> #[trigger] final(h).prev2@[i] == 0,
        forall|i: int| 0 <= i < WINDOW_SIZE ==> #[trigger] final(h).hashval@[i] == -1,
        forall|i: int| 0 <= i < WINDOW_SIZE ==> #[trigger] final(h).hashval2@[i] == -1,
        forall|i: int| 0 <= i < WINDOW_SIZE ==> #[trigger] final(h).same@[i] == 0,
{
    h.val = 0;
    h.val2 = 0;
    h.last_update = Ghost(None);
    let mut i: usize = 0;
    while i < HASH_HEADS
        invariant
            i <= HASH_HEADS,
            h.shaped(),
            h.val == 0,
            h.val2 == 0,
            h.prev == old(h).prev,
            h.prev2 == old(h).prev2,
            h.hashval == old(h).hashval,
            h.hashval2 == old(h).hashval2,
            h.same == old(h).same,
            h.last_update@ is None,
            forall|j: int| 0 <= j < i ==> #[trigger] h.head@[j] == -1,
            forall|j: int| 0 <= j < i ==> #[trigger] h.head2@[j] == -1,
        decreases HASH_HEADS - i,
    {
        h.head.set(i, -1);
        h.head2.set(i, -1);
        i = i + 1;
    }
    let n = h.prev.len();
    let mut i: usize = 0;
    while i < n
        invariant
            i <= n,
            n == WINDOW_SIZE,
            h.shaped(),
            h.last_update@ is None,
            h.val == 0,
            h.val2 == 0,
            forall|j: int| 0 <= j < HASH_HEADS ==> #[trigger] h.head@[j] == -1,
            forall|j: int| 0 <= j < HASH_HEADS ==> #[trigger] h.head2@[j] == -1,
            forall|j: int| 0 <= j < i ==> #[trigger] h.prev@[j] == 0,
            forall|j: int| 0 <= j < i ==> #[trigger] h.prev2@[j] == 0,
            forall|j: int| 0 <= j < i ==> #[trigger] h.hashval@[j] == -1,
            forall|j: int| 0 <= j < i ==> #[trigger] h.hashval2@[j] == -1,
            forall|j: int| 0 <= j < i ==> #[trigger] h.same@[j] == 0,
        decreases n - i,
    {
        h.prev.set(i, 0);
        h.hashval.set(i, -1);
        h.prev2.set(i, 0);
        h.hashval2.set(i, -1);
        h.same.set(i, 0);
        i = i + 1;
    }
}

} // verus!
