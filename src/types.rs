//! Constants and the data types shared by the encoder's stages.
use vstd::prelude::*;
use crate::symbols::{length_symbol, dist_symbol};
use vstd::math::min;
use crate::hash::{slot_same_ok, slot_position, chain_link_ok};

verus! {

/// Number of distinct literal/length symbols in DEFLATE.
pub const NUM_LL: usize = 288;

/// Number of distinct distance symbols in DEFLATE.
pub const NUM_D: usize = 32;

/// Minimum match length.
pub const MIN_MATCH: usize = 3;

/// Maximum match length.
pub const MAX_MATCH: usize = 258;

/// Window size for DEFLATE (a power of two).
pub const WINDOW_SIZE: usize = 32768;

/// Mask that maps a position to its window slot.
pub const WINDOW_MASK: usize = WINDOW_SIZE - 1;

/// Maximum number of hash chain entries visited by one match search.
pub const MAX_CHAIN_HITS: usize = 8192;

/// Number of (length, distance) records kept per position in the match cache.
pub const CACHE_LENGTH: usize = 8;

/// Size of a master block for huge inputs.
pub const MASTER_BLOCK_SIZE: usize = 1000000;

/// Number of slots of the hash heads (one per 16-bit hash value).
pub const HASH_HEADS: usize = 65536;

/// Options used throughout the encoder.
#[derive(Debug, Clone)]
pub struct Options {
    /// Whether to print output.
    pub verbose: bool,
    /// Whether to print more detailed output.
    pub verbose_more: bool,
    /// Maximum number of reruns of the forward and backward pass of the iterative path.
    pub numiterations: i32,
    /// Whether to split the data into multiple deflate blocks.
    pub blocksplitting: bool,
    /// No longer used, kept for compatibility.
    pub blocksplittinglast: bool,
    /// Maximum number of blocks to split into (0 for unlimited).
    pub blocksplittingmax: usize,
}

impl Default for Options {
    fn default() -> (r: Self)
        ensures
            !r.verbose,
            !r.verbose_more,
            r.numiterations == 15,
            r.blocksplitting,
            !r.blocksplittinglast,
            r.blocksplittingmax == 15,
    {
        Options {
            verbose: false,
            verbose_more: false,
            numiterations: 15,
            blocksplitting: true,
            blocksplittinglast: false,
            blocksplittingmax: 15,
        }
    }
}

/// Stores lit/length and dist pairs for LZ77, with cumulative symbol histograms.
#[derive(Debug, Clone)]
pub struct LZ77Store {
    /// Literal byte (when the distance is 0) or match length.
    pub litlens: Vec<u16>,
    /// 0 for a literal; otherwise the match distance.
    pub dists: Vec<u16>,
    /// The input the tokens were made from.
    pub data: Vec<u8>,
    /// Position in the input where each token begins.
    pub pos: Vec<usize>,
    /// Literal/length symbol of each token.
    pub ll_symbol: Vec<u16>,
    /// Distance symbol of each token (0 for a literal).
    pub d_symbol: Vec<u16>,
    /// Cumulative literal/length histograms, one chunk of `NUM_LL` per `NUM_LL` tokens.
    pub ll_counts: Vec<usize>,
    /// Cumulative distance histograms, one chunk of `NUM_D` per `NUM_D` tokens.
    pub d_counts: Vec<usize>,
}

/// Number of `i < end` with `syms[i] == s`.
pub open spec fn count_sym(syms: Seq<u16>, end: int, s: int) -> nat
    decreases end,
{
    if end <= 0 {
        0
    } else {
        count_sym(syms, end - 1, s) + if syms[end - 1] as int == s { 1nat } else { 0nat }
    }
}

/// Number of `i < end` with `dists[i] != 0` and `syms[i] == s`.
pub open spec fn count_dist_sym(syms: Seq<u16>, dists: Seq<u16>, end: int, s: int) -> nat
    decreases end,
{
    if end <= 0 {
        0
    } else {
        count_dist_sym(syms, dists, end - 1, s) + if dists[end - 1] != 0 && syms[end - 1] as int
            == s {
            1nat
        } else {
            0nat
        }
    }
}

/// A literal is a byte; a match has a length in `3..=258` and a distance in `1..=32768`.
pub open spec fn token_ok(litlen: u16, dist: u16) -> bool {
    if dist == 0 {
        litlen < 256
    } else {
        3 <= litlen <= 258 && dist <= 32768
    }
}

/// `n` rounded up to a multiple of `m`.
pub open spec fn round_up(n: int, m: int) -> int {
    m * ((n + m - 1) / m)
}

impl LZ77Store {
    /// Number of tokens.
    pub open spec fn len(&self) -> int {
        self.litlens@.len() as int
    }

    /// The parallel arrays agree in length, each token is valid and its symbols are the
    /// DEFLATE symbols of its length and distance.
    pub open spec fn tokens_wf(&self) -> bool {
        let n = self.len();
        &&& self.dists@.len() == n
        &&& self.pos@.len() == n
        &&& self.ll_symbol@.len() == n
        &&& self.d_symbol@.len() == n
        &&& forall|i: int|
            0 <= i < n ==> {
                &&& token_ok(#[trigger] self.litlens@[i], self.dists@[i])
                &&& self.ll_symbol@[i] as int == if self.dists@[i] == 0 {
                    self.litlens@[i] as int
                } else {
                    length_symbol(self.litlens@[i] as int)
                }
                &&& self.d_symbol@[i] as int == if self.dists@[i] == 0 {
                    0
                } else {
                    dist_symbol(self.dists@[i] as int)
                }
            }
    }

    /// Entry `j` of the cumulative histograms counts the symbol `j mod NUM_LL` (resp.
    /// `NUM_D`) among the tokens up to the end of the chunk `j / NUM_LL` (resp. `NUM_D`).
    pub open spec fn counts_wf(&self) -> bool {
        let n = self.len();
        &&& self.ll_counts@.len() == round_up(n, NUM_LL as int)
        &&& self.d_counts@.len() == round_up(n, NUM_D as int)
        &&& forall|j: int|
            0 <= j < self.ll_counts@.len() ==> #[trigger] self.ll_counts@[j] == count_sym(
                self.ll_symbol@,
                min(n, (j / NUM_LL as int + 1) * NUM_LL as int),
                j % NUM_LL as int,
            )
        &&& forall|j: int|
            0 <= j < self.d_counts@.len() ==> #[trigger] self.d_counts@[j] == count_dist_sym(
                self.d_symbol@,
                self.dists@,
                min(n, (j / NUM_D as int + 1) * NUM_D as int),
                j % NUM_D as int,
            )
    }

    /// A store as `store_lit_len_dist` builds it.
    pub open spec fn wf(&self) -> bool {
        self.tokens_wf() && self.counts_wf()
    }

    /// An empty store over the given input.
    pub fn new(data: &[u8]) -> (r: Self)
        ensures
            r.data@ == data@,
            r.litlens@.len() == 0,
            r.wf(),
    {
        LZ77Store {
            litlens: Vec::new(),
            dists: Vec::new(),
            data: vstd::slice::slice_to_vec(data),
            pos: Vec::new(),
            ll_symbol: Vec::new(),
            d_symbol: Vec::new(),
            ll_counts: Vec::new(),
            d_counts: Vec::new(),
        }
    }

    /// Number of tokens.
    pub fn size(&self) -> (r: usize)
        ensures
            r == self.litlens@.len(),
    {
        self.litlens.len()
    }
}

/// Random state for optimization randomization.
#[derive(Debug, Clone, Copy)]
pub struct RanState {
    pub m_w: u32,
    pub m_z: u32,
}

impl Default for RanState {
    fn default() -> (r: Self)
        ensures
            r.m_w == 1,
            r.m_z == 2,
    {
        RanState { m_w: 1, m_z: 2 }
    }
}

/// Hash index over the sliding window.
pub struct Hash {
    /// Hash value to the window slot of its most recent occurrence, or -1.
    pub head: Vec<i32>,
    /// Window slot to the slot of the previous occurrence of the same hash.
    pub prev: Vec<u16>,
    /// Window slot to the hash value stored there.
    pub hashval: Vec<i32>,
    /// Current hash value.
    pub val: i32,
    /// Heads of the secondary hash.
    pub head2: Vec<i32>,
    /// Chains of the secondary hash.
    pub prev2: Vec<u16>,
    /// Secondary hash value stored at each slot.
    pub hashval2: Vec<i32>,
    /// Current secondary hash value.
    pub val2: i32,
    /// Number of repetitions of the same byte after each position.
    pub same: Vec<u16>,
    /// The input, end and position of the last `update_hash`, if any since the reset.
    pub last_update: Ghost<Option<(Seq<u8>, int, int)>>,
    /// The position of the first `update_hash` since the reset.
    pub first_update: Ghost<int>,
}

impl Hash {
    /// The arrays have the sizes the window needs.
    pub open spec fn shaped(&self) -> bool {
        &&& self.head@.len() == HASH_HEADS
        &&& self.head2@.len() == HASH_HEADS
        &&& self.prev@.len() == WINDOW_SIZE
        &&& self.hashval@.len() == WINDOW_SIZE
        &&& self.prev2@.len() == WINDOW_SIZE
        &&& self.hashval2@.len() == WINDOW_SIZE
        &&& self.same@.len() == WINDOW_SIZE
    }

    /// Every stored index points inside its array and both hash values are 15-bit.
    pub open spec fn wf(&self) -> bool {
        &&& self.shaped()
        &&& 0 <= self.val < 32768
        &&& 0 <= self.val2 < 32768
        &&& forall|i: int| 0 <= i < HASH_HEADS ==> -1 <= #[trigger] self.head@[i] < WINDOW_SIZE
        &&& forall|i: int| 0 <= i < HASH_HEADS ==> -1 <= #[trigger] self.head2@[i] < WINDOW_SIZE
        &&& forall|i: int| 0 <= i < WINDOW_SIZE ==> #[trigger] self.prev@[i] < WINDOW_SIZE
        &&& forall|i: int| 0 <= i < WINDOW_SIZE ==> #[trigger] self.prev2@[i] < WINDOW_SIZE
        &&& match self.last_update@ {
            None => {
                &&& forall|i: int| 0 <= i < WINDOW_SIZE ==> #[trigger] self.same@[i] == 0
                &&& forall|v: int| 0 <= v < HASH_HEADS ==> #[trigger] self.head@[v] == -1
                &&& forall|v: int| 0 <= v < HASH_HEADS ==> #[trigger] self.head2@[v] == -1
            },
            Some((a, e, p)) => {
                let start = self.first_update@;
                &&& 0 <= start <= p
                &&& forall|h: int|
                    0 <= h < WINDOW_SIZE ==> #[trigger] slot_same_ok(a, e, start, p, h, self.same@[h] as int)
                &&& self.head@[self.val as int] as int == p % WINDOW_SIZE as int
                &&& self.head2@[self.val2 as int] as int == p % WINDOW_SIZE as int
                &&& forall|v: int|
                    0 <= v < HASH_HEADS ==> #[trigger] self.head@[v] == -1 || slot_position(p, self.head@[v] as int) >= start
                &&& forall|v: int|
                    0 <= v < HASH_HEADS ==> #[trigger] self.head2@[v] == -1 || slot_position(p, self.head2@[v] as int) >= start
                &&& forall|h: int|
                    0 <= h < WINDOW_SIZE && slot_position(p, h) >= start ==> chain_link_ok(
                        start,
                        slot_position(p, h),
                        h,
                        #[trigger] self.prev@[h] as int,
                    )
                &&& forall|h: int|
                    0 <= h < WINDOW_SIZE && slot_position(p, h) >= start ==> chain_link_ok(
                        start,
                        slot_position(p, h),
                        h,
                        #[trigger] self.prev2@[h] as int,
                    )
            },
        }
    }

    /// `update_hash` may next be called for `pos` of `array[..end]`: nothing was added since
    /// the reset, or the last update was for `pos - 1` of the same input.
    pub open spec fn follows(&self, array: Seq<u8>, end: int, pos: int) -> bool {
        match self.last_update@ {
            None => true,
            Some((a, e, p)) => a == array && e == end && p == pos - 1,
        }
    }

    /// A hash whose per-slot arrays have `window_size` entries.
    pub fn new(window_size: usize) -> (r: Self)
        ensures
            r.head@.len() == HASH_HEADS,
            r.head2@.len() == HASH_HEADS,
            r.prev@.len() == window_size,
            r.hashval@.len() == window_size,
            r.prev2@.len() == window_size,
            r.hashval2@.len() == window_size,
            r.same@.len() == window_size,
            r.val == 0,
            r.val2 == 0,
            r.last_update@ is None,
            forall|i: int| 0 <= i < HASH_HEADS ==> #[trigger] r.head@[i] == -1 && r.head2@[i] == -1,
            forall|i: int|
                0 <= i < window_size ==> #[trigger] r.prev@[i] == 0 && r.prev2@[i] == 0 && r.hashval@[i] == -1
                    && r.hashval2@[i] == -1 && r.same@[i] == 0,
            window_size == WINDOW_SIZE ==> r.wf(),
    {
        Hash {
            head: vec![-1; HASH_HEADS],
            prev: vec![0; window_size],
            hashval: vec![-1; window_size],
            val: 0,
            head2: vec![-1; HASH_HEADS],
            prev2: vec![0; window_size],
            hashval2: vec![-1; window_size],
            val2: 0,
            same: vec![0; window_size],
            last_update: Ghost(None),
            first_update: Ghost(0),
        }
    }
}

/// Node of a package-merge chain.
#[derive(Debug, Clone, Copy)]
pub struct Node {
    /// Total weight (symbol count) of this chain.
    pub weight: usize,
    /// Index of the tail node, or `usize::MAX` if none.
    pub tail: usize,
    /// Leaf symbol index, or number of leaves before this chain.
    pub count: i32,
}

impl Default for Node {
    fn default() -> (r: Self)
        ensures
            r.weight == 0,
            r.tail == usize::MAX,
            r.count == 0,
    {
        Node { weight: 0, tail: usize::MAX, count: 0 }
    }
}

/// Arena of nodes, addressed by index.
#[derive(Debug)]
pub struct NodePool {
    /// All nodes in the pool.
    pub nodes: Vec<Node>,
    /// Next free index.
    pub next_index: usize,
}

impl NodePool {
    /// A pool of `capacity` default nodes.
    pub fn new(capacity: usize) -> (r: Self)
        ensures
            r.nodes@.len() == capacity,
            r.next_index == 0,
            forall|i: int| 0 <= i < capacity ==> #[trigger] r.nodes@[i] == (Node { weight: 0, tail: usize::MAX, count: 0 }),
    {
        let mut nodes: Vec<Node> = Vec::new();
        let mut i: usize = 0;
        while i < capacity
            invariant
                i <= capacity,
                nodes@.len() == i,
                forall|j: int| 0 <= j < i ==> #[trigger] nodes@[j] == (Node { weight: 0, tail: usize::MAX, count: 0 }),
            decreases capacity - i,
        {
            nodes.push(Node::default());
            i = i + 1;
        }
        NodePool { nodes, next_index: 0 }
    }

    /// Hands out the next free index, adding a default node when the pool is full.
    pub fn allocate(&mut self) -> (r: usize)
        requires
            old(self).next_index <= old(self).nodes@.len(),
            old(self).next_index < usize::MAX,
        ensures
            r == old(self).next_index,
            r < final(self).nodes@.len(),
            final(self).next_index == old(self).next_index + 1,
            final(self).nodes@.len() >= old(self).nodes@.len(),
            forall|i: int| 0 <= i < old(self).nodes@.len() ==> #[trigger] final(self).nodes@[i] == old(self).nodes@[i],
            forall|i: int|
                old(self).nodes@.len() <= i < final(self).nodes@.len() ==> #[trigger] final(self).nodes@[i] == (Node {
                    weight: 0,
                    tail: usize::MAX,
                    count: 0,
                }),
    {
        let index = self.next_index;
        if index == self.nodes.len() {
            self.nodes.push(Node::default());
        }
        self.next_index = self.next_index + 1;
        index
    }

    /// The node at `index`.
    pub fn get(&self, index: usize) -> (r: &Node)
        requires
            index < self.nodes@.len(),
        ensures
            *r == self.nodes@[index as int],
    {
        &self.nodes[index]
    }

    /// The node at `index`, for writing.
    pub fn get_mut(&mut self, index: usize) -> (r: &mut Node)
        requires
            index < old(self).nodes@.len(),
        ensures
            *r == old(self).nodes@[index as int],
            final(self).nodes@ == old(self).nodes@.update(index as int, *final(r)),
            final(self).next_index == old(self).next_index,
    {
        &mut self.nodes[index]
    }
}

/// Cache of the longest match found at each position of a block.
#[derive(Debug)]
pub struct LongestMatchCache {
    /// Length for each position (1 with distance 0 means "not filled").
    pub length: Vec<u16>,
    /// Distance for each position.
    pub dist: Vec<u16>,
    /// `CACHE_LENGTH` (length - 3, distance low byte, distance high byte) records per position.
    pub sublen: Vec<u8>,
}

impl LongestMatchCache {
    /// The three arrays agree on the number of positions.
    pub open spec fn wf(&self) -> bool {
        &&& self.dist@.len() == self.length@.len()
        &&& self.sublen@.len() == CACHE_LENGTH * 3 * self.length@.len()
        &&& forall|i: int| 0 <= i < self.length@.len() ==> #[trigger] self.length@[i] <= MAX_MATCH
    }

    /// Position `p` holds a result: a length of 0, or a nonzero distance.
    pub open spec fn filled(&self, p: int) -> bool {
        self.length@[p] == 0 || self.dist@[p] != 0
    }

    /// An unfilled cache for `blocksize` positions.
    pub fn new(blocksize: usize) -> (r: Self)
        requires
            CACHE_LENGTH * 3 * blocksize <= usize::MAX,
        ensures
            r.wf(),
            r.length@.len() == blocksize,
            forall|i: int| 0 <= i < blocksize ==> #[trigger] r.length@[i] == 1 && r.dist@[i] == 0,
            forall|i: int| 0 <= i < r.sublen@.len() ==> #[trigger] r.sublen@[i] == 0,
    {
        LongestMatchCache {
            length: vec![1; blocksize],
            dist: vec![0; blocksize],
            sublen: vec![0; CACHE_LENGTH * 3 * blocksize],
        }
    }
}

/// State for compressing one block.
#[derive(Debug)]
pub struct BlockState<'a> {
    /// The options in force.
    pub options: &'a Options,
    /// Cache of the matches found so far, if enabled.
    pub lmc: Option<LongestMatchCache>,
    /// Start of the block in the input (inclusive).
    pub blockstart: usize,
    /// End of the block in the input (exclusive).
    pub blockend: usize,
}

impl<'a> BlockState<'a> {
    /// The cache, when present, has one entry per position of the block.
    pub open spec fn wf(&self) -> bool {
        &&& self.blockstart <= self.blockend
        &&& self.lmc matches Some(c) ==> c.wf() && c.length@.len() == self.blockend - self.blockstart
    }

    /// State for the block `[blockstart, blockend)`, with a cache when `add_lmc`.
    pub fn new(options: &'a Options, blockstart: usize, blockend: usize, add_lmc: bool) -> (r: Self)
        requires
            blockstart <= blockend,
            CACHE_LENGTH * 3 * (blockend - blockstart) <= usize::MAX,
        ensures
            r.wf(),
            r.options == options,
            r.blockstart == blockstart,
            r.blockend == blockend,
            r.lmc is Some <==> add_lmc,
            r.lmc matches Some(c) ==> forall|i: int| 0 <= i < c.length@.len() ==> #[trigger] c.length@[i] == 1 && c.dist@[i] == 0,
            r.lmc matches Some(c) ==> forall|i: int| 0 <= i < c.sublen@.len() ==> #[trigger] c.sublen@[i] == 0,
    {
        let blocksize = blockend - blockstart;
        BlockState {
            options,
            lmc: if add_lmc {
                Some(LongestMatchCache::new(blocksize))
            } else {
                None
            },
            blockstart,
            blockend,
        }
    }
}

/// A range of tokens whose cost is being estimated.
#[derive(Debug)]
pub struct SplitCostContext<'a> {
    pub lz77: &'a LZ77Store,
    pub start: usize,
    pub end: usize,
}

} // verus!
