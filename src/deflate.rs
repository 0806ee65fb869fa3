//! The bit writer and the fixed-Huffman block emitter.
use vstd::prelude::*;
use crate::types::{LZ77Store, Options, BlockState, NUM_LL, NUM_D, WINDOW_SIZE, CACHE_LENGTH, token_ok};
use crate::block::{get_fixed_tree, fixed_ll_length, fixed_ll_lengths, fixed_d_lengths};
use crate::huffman::{lengths_to_symbols, canonical_code};
use crate::symbols::{
    get_length_symbol, get_dist_symbol, get_length_extra_bits, get_length_extra_bits_value, get_dist_extra_bits,
    get_dist_extra_bits_value, length_symbol, dist_symbol, length_extra_bits, length_extra_value, dist_extra_bits,
    dist_extra_value, lemma_symbol_ranges,
};
use crate::lz77::{lz77_greedy, tokens_cover};
use crate::cache::entry_valid;

verus! {

/// Writes bits into bytes, least significant bit first.
pub struct BitWriter {
    /// The bytes written so far; the last one may be partly filled.
    pub out: Vec<u8>,
    /// Number of bits used in the last byte (0 when it is full or there is none).
    pub bp: u8,
}

/// The bytes and bit position after writing the bit `bit & 1`: a new byte starts when
/// the position is 0, and the bit goes to position `bp` of the last byte.
pub open spec fn bit_added(out: Seq<u8>, bp: u8, bit: u8) -> (Seq<u8>, u8) {
    let out1 = if bp == 0 { out.push(0u8) } else { out };
    let last = out1.len() - 1;
    (out1.update(last, out1[last] | (((bit & 1u8) << bp) as u8)), ((bp + 1) as u8 & 7u8) as u8)
}

/// After writing the `n` low bits of `bits`, least significant first.
pub open spec fn bits_le_added(s: (Seq<u8>, u8), bits: u32, n: nat) -> (Seq<u8>, u8)
    decreases n,
{
    if n == 0 {
        s
    } else {
        bits_le_added(bit_added(s.0, s.1, (bits & 1u32) as u8), bits >> 1u32, (n - 1) as nat)
    }
}

/// After writing `k` more bits of the `length`-bit code `sym`, most significant first.
pub open spec fn huff_added(s: (Seq<u8>, u8), sym: u32, length: u32, k: nat) -> (Seq<u8>, u8)
    decreases k,
{
    if k == 0 {
        s
    } else {
        huff_added(
            bit_added(s.0, s.1, (sym >> ((length - 1) as u32)) as u8),
            ((sym << 1u32) & (((1u32 << length) - 1) as u32)) as u32,
            length,
            (k - 1) as nat,
        )
    }
}

/// After writing the Huffman code `sym` of `length` bits.
pub open spec fn code_added(s: (Seq<u8>, u8), sym: u32, length: u32) -> (Seq<u8>, u8) {
    huff_added(s, sym, length, length as nat)
}

proof fn lemma_shift_positive(length: u32)
    requires
        length < 32,
    ensures
        (1u32 << length) >= 1,
{
    assert(length < 32 ==> (1u32 << length) >= 1u32) by (bit_vector);
}

impl BitWriter {
    /// The bit position is in `0..8`, and a partly filled byte exists.
    pub open spec fn wf(&self) -> bool {
        &&& self.bp < 8
        &&& self.bp != 0 ==> self.out@.len() > 0
    }

    /// The bytes and bit position.
    pub open spec fn state(&self) -> (Seq<u8>, u8) {
        (self.out@, self.bp)
    }

    /// An empty writer.
    pub fn new() -> (r: Self)
        ensures
            r.wf(),
            r.out@.len() == 0,
            r.bp == 0,
    {
        BitWriter { out: Vec::new(), bp: 0 }
    }

    /// Writes one bit, `bit & 1`.
    pub fn add_bit(&mut self, bit: u8)
        requires
            old(self).wf(),
        ensures
            final(self).wf(),
            final(self).state() == bit_added(old(self).out@, old(self).bp, bit),
    {
        let p = self.bp;
        proof {
            assert(p < 8 ==> ((p + 1) as u8 & 7u8) < 8) by (bit_vector);
        }
        if self.bp == 0 {
            self.out.push(0);
        }
        let last = self.out.len() - 1;
        let cur = self.out[last];
        self.out.set(last, cur | ((bit & 1) << self.bp));
        self.bp = (self.bp + 1) & 7;

    }

    /// Writes the `n` low bits of `bits`, least significant first.
    pub fn add_bits_le(&mut self, bits: u32, n: u8)
        requires
            old(self).wf(),
        ensures
            final(self).wf(),
            final(self).state() == bits_le_added(old(self).state(), bits, n as nat),
    {
        let ghost target = bits_le_added(self.state(), bits, n as nat);
        let mut bits = bits;
        let mut i: u8 = 0;
        while i < n
            invariant
                i <= n,
                self.wf(),
                bits_le_added(self.state(), bits, (n - i) as nat) == target,
            decreases n - i,
        {
            let b = (bits & 1) as u8;
            bits = bits >> 1;
            self.add_bit(b);
            i = i + 1;
        }
    }

    /// Writes the `length`-bit Huffman code `symbol`, most significant bit first.
    pub fn add_huff(&mut self, symbol: u32, length: u32)
        requires
            old(self).wf(),
            length < 32,
        ensures
            final(self).wf(),
            final(self).state() == code_added(old(self).state(), symbol, length),
    {
        let ghost target = code_added(self.state(), symbol, length);
        let mut sym = symbol;
        let mut i: u32 = 0;
        while i < length
            invariant
                i <= length < 32,
                self.wf(),
                huff_added(self.state(), sym, length, (length - i) as nat) == target,
            decreases length - i,
        {
            proof {
                lemma_shift_positive(length);
            }
            self.add_bit((sym >> (length - 1)) as u8);
            sym = (sym << 1) & ((1u32 << length) - 1);
            i = i + 1;
        }
    }
}


/// After writing one token with the given codes: a literal's code; or the length code,
/// its extra bits, the distance code and its extra bits.
pub open spec fn token_added(
    s: (Seq<u8>, u8),
    ll_symbols: Seq<u32>,
    ll_lengths: Seq<u32>,
    d_symbols: Seq<u32>,
    d_lengths: Seq<u32>,
    litlen: u16,
    dist: u16,
) -> (Seq<u8>, u8) {
    if dist == 0 {
        code_added(s, ll_symbols[litlen as int], ll_lengths[litlen as int])
    } else {
        let ls = length_symbol(litlen as int);
        let s1 = code_added(s, ll_symbols[ls], ll_lengths[ls]);
        let lbits = length_extra_bits(litlen as int);
        let s2 = if lbits > 0 {
            bits_le_added(s1, length_extra_value(litlen as int) as u32, lbits as nat)
        } else {
            s1
        };
        let ds = dist_symbol(dist as int);
        let s3 = code_added(s2, d_symbols[ds], d_lengths[ds]);
        let dbits = dist_extra_bits(dist as int);
        if dbits > 0 {
            bits_le_added(s3, dist_extra_value(dist as int) as u32, dbits as nat)
        } else {
            s3
        }
    }
}

/// After writing the tokens `a..b` of the store.
pub open spec fn tokens_added(
    s: (Seq<u8>, u8),
    ll_symbols: Seq<u32>,
    ll_lengths: Seq<u32>,
    d_symbols: Seq<u32>,
    d_lengths: Seq<u32>,
    lz77: LZ77Store,
    a: int,
    b: int,
) -> (Seq<u8>, u8)
    decreases b - a,
{
    if b <= a {
        s
    } else {
        token_added(
            tokens_added(s, ll_symbols, ll_lengths, d_symbols, d_lengths, lz77, a, b - 1),
            ll_symbols,
            ll_lengths,
            d_symbols,
            d_lengths,
            lz77.litlens@[b - 1],
            lz77.dists@[b - 1],
        )
    }
}

/// Code tables that the writer can emit: enough entries, lengths below 32.
pub open spec fn tables_ok(ll_symbols: Seq<u32>, ll_lengths: Seq<u32>, d_symbols: Seq<u32>, d_lengths: Seq<u32>) -> bool {
    &&& ll_symbols.len() >= NUM_LL
    &&& ll_lengths.len() >= NUM_LL
    &&& d_symbols.len() >= NUM_D
    &&& d_lengths.len() >= NUM_D
    &&& forall|i: int| 0 <= i < NUM_LL ==> #[trigger] ll_lengths[i] < 32
    &&& forall|i: int| 0 <= i < NUM_D ==> #[trigger] d_lengths[i] < 32
}

/// Writes the tokens `lstart..lend` and the end-of-block symbol with the given codes.
fn add_lz77_data(
    lz77: &LZ77Store,
    lstart: usize,
    lend: usize,
    ll_symbols: &Vec<u32>,
    ll_lengths: &Vec<u32>,
    d_symbols: &Vec<u32>,
    d_lengths: &Vec<u32>,
    bw: &mut BitWriter,
)
    requires
        lz77.tokens_wf(),
        lstart <= lend <= lz77.len(),
        tables_ok(ll_symbols@, ll_lengths@, d_symbols@, d_lengths@),
        old(bw).wf(),
    ensures
        final(bw).wf(),
        final(bw).state() == code_added(
            tokens_added(old(bw).state(), ll_symbols@, ll_lengths@, d_symbols@, d_lengths@, *lz77, lstart as int, lend as int),
            ll_symbols@[256],
            ll_lengths@[256],
        ),
{
    let mut i = lstart;
    while i < lend
        invariant
            lz77.tokens_wf(),
            lstart <= i <= lend <= lz77.len(),
            tables_ok(ll_symbols@, ll_lengths@, d_symbols@, d_lengths@),
            bw.wf(),
            bw.state() == tokens_added(old(bw).state(), ll_symbols@, ll_lengths@, d_symbols@, d_lengths@, *lz77, lstart as int, i as int),
        decreases lend - i,
    {
        let dist = lz77.dists[i] as usize;
        let litlen = lz77.litlens[i] as usize;
        proof {
            assert(token_ok(lz77.litlens@[i as int], lz77.dists@[i as int]));
            if dist != 0 {
                lemma_symbol_ranges(litlen as int, dist as int);
            }
        }
        if dist == 0 {
            // A literal.
            bw.add_huff(ll_symbols[litlen], ll_lengths[litlen]);
        } else {
            // A match.
            let ls = get_length_symbol(litlen);
            bw.add_huff(ll_symbols[ls], ll_lengths[ls]);
            let lbits = get_length_extra_bits(litlen) as u8;
            let lval = get_length_extra_bits_value(litlen) as u32;
            if lbits > 0 {
                bw.add_bits_le(lval, lbits);
            }
            let ds = get_dist_symbol(dist);
            bw.add_huff(d_symbols[ds], d_lengths[ds]);
            let dbits = get_dist_extra_bits(dist) as u8;
            let dval = get_dist_extra_bits_value(dist) as u32;
            if dbits > 0 {
                bw.add_bits_le(dval, dbits);
            }
        }
        i = i + 1;
    }
    // The end symbol 256.
    bw.add_huff(ll_symbols[256], ll_lengths[256]);
}

/// The codes of the fixed literal/length code.
pub open spec fn fixed_ll_codes() -> Seq<u32> {
    Seq::new(NUM_LL as nat, |i: int| canonical_code(fixed_ll_lengths(), NUM_LL as int, i) as u32)
}

/// The codes of the fixed distance code.
pub open spec fn fixed_d_codes() -> Seq<u32> {
    Seq::new(NUM_D as nat, |i: int| canonical_code(fixed_d_lengths(), NUM_D as int, i) as u32)
}

/// The bytes of a fixed-Huffman block for the tokens `lstart..lend`: the BFINAL bit,
/// BTYPE 01, the tokens, and the end-of-block code, padded with zero bits.
pub open spec fn fixed_block_bytes(lz77: LZ77Store, lstart: int, lend: int, final_block: bool) -> Seq<u8> {
    let s0 = bit_added(Seq::<u8>::empty(), 0u8, if final_block { 1u8 } else { 0u8 });
    let s1 = bit_added(s0.0, s0.1, 1u8);
    let s2 = bit_added(s1.0, s1.1, 0u8);
    code_added(
        tokens_added(s2, fixed_ll_codes(), fixed_ll_lengths(), fixed_d_codes(), fixed_d_lengths(), lz77, lstart, lend),
        fixed_ll_codes()[256],
        fixed_ll_lengths()[256],
    ).0
}

/// Encodes the tokens `lstart..lend` as one block with the fixed Huffman code.
pub fn deflate_fixed_block(lz77: &LZ77Store, lstart: usize, lend: usize, final_block: bool) -> (r: Vec<u8>)
    requires
        lz77.tokens_wf(),
        lstart <= lend <= lz77.len(),
    ensures
        r@ == fixed_block_bytes(*lz77, lstart as int, lend as int, final_block),
{
    let mut bw = BitWriter::new();
    assert(bw.out@ =~= Seq::<u8>::empty());

    // The BFINAL bit.
    bw.add_bit(if final_block { 1 } else { 0 });

    // BTYPE 01: fixed Huffman codes.
    bw.add_bit(1);
    bw.add_bit(0);

    let mut ll_lengths: Vec<u32> = vec![0u32; NUM_LL];
    let mut d_lengths: Vec<u32> = vec![0u32; NUM_D];
    get_fixed_tree(&mut ll_lengths, &mut d_lengths);
    assert(ll_lengths@ =~= fixed_ll_lengths());
    assert(d_lengths@ =~= fixed_d_lengths());

    let mut ll_syms: Vec<u32> = vec![0u32; NUM_LL];
    let mut d_syms: Vec<u32> = vec![0u32; NUM_D];
    proof {
        reveal_with_fuel(crate::symbols::two_pow, 16);
    }
    lengths_to_symbols(&ll_lengths, NUM_LL, 15, &mut ll_syms);
    lengths_to_symbols(&d_lengths, NUM_D, 15, &mut d_syms);
    assert(ll_syms@ =~= fixed_ll_codes());
    assert(d_syms@ =~= fixed_d_codes());

    add_lz77_data(lz77, lstart, lend, &ll_syms, &ll_lengths, &d_syms, &d_lengths, &mut bw);
    bw.out
}

/// Compresses `input` as a single final fixed-Huffman block over the tokens of the
/// greedy tokenizer. The block encodes tokens that stand for the whole input in order,
/// each reproducing its bytes.
pub fn deflate_greedy_fixed(input: &[u8]) -> (r: Vec<u8>)
    requires
        input@.len() <= usize::MAX / 32,
    ensures
        exists|store: LZ77Store|
            {
                &&& #[trigger] store.wf()
                &&& tokens_cover(store, 0, input@, 0, input@.len() as int, input@.len() as int)
                &&& r@ == fixed_block_bytes(store, 0, store.len(), true)
            },
{
    let opts = Options::default();
    let mut state = BlockState::new(&opts, 0, input.len(), true);
    let mut store = LZ77Store::new(input);
    let mut hash = crate::types::Hash::new(WINDOW_SIZE);
    proof {
        let c = state.lmc.unwrap();
        assert forall|p: int| 0 <= p < c.length@.len() && c.filled(p) && c.length@[p] >= 3 implies #[trigger] entry_valid(
            c,
            input@,
            input@.len() as int,
            0,
            p,
        ) by {
            assert(c.length@[p] == 1 && c.dist@[p] == 0);
        }
    }

    lz77_greedy(&mut state, input, 0, input.len(), &mut store, &mut hash);
    let r = deflate_fixed_block(&store, 0, store.size(), true);
    assert(store.wf());
    r
}

} // verus!
