use zopfli_rs::block::{get_fixed_tree, lz77_get_byte_range, patch_distance_codes_for_buggy_decoders};
use zopfli_rs::cache::{
    cache_to_sublen, max_cached_sublen, store_in_longest_match_cache, sublen_to_cache,
    try_get_from_longest_match_cache,
};
use zopfli_rs::deflate::{deflate_greedy_fixed, BitWriter};
use zopfli_rs::hash::{reset_hash, update_hash, warmup_hash};
use zopfli_rs::huffman::{length_limited_code_lengths, lengths_to_symbols, optimize_huffman_for_rle};
use zopfli_rs::lz77::{get_match, lz77_greedy, store_lit_len_dist};
use zopfli_rs::symbols::{
    get_dist_extra_bits, get_dist_extra_bits_value, get_dist_symbol, get_length_extra_bits,
    get_length_extra_bits_value, get_length_symbol,
};
use zopfli_rs::types::{
    LongestMatchCache, NodePool, CACHE_LENGTH, MAX_MATCH, MIN_MATCH, NUM_D, NUM_LL, WINDOW_MASK, WINDOW_SIZE,
};
use zopfli_rs::util::{abs_diff, ceil_div, zopfli_min};
use zopfli_rs::{BlockState, LZ77Store, Options};

#[test]
fn test_get_fixed_tree() {
    let mut ll_lengths = vec![0u32; NUM_LL];
    let mut d_lengths = vec![0u32; NUM_D];

    get_fixed_tree(&mut ll_lengths, &mut d_lengths);

    assert_eq!(ll_lengths[0], 8);
    assert_eq!(ll_lengths[143], 8);
    assert_eq!(ll_lengths[144], 9);
    assert_eq!(ll_lengths[255], 9);
    assert_eq!(ll_lengths[256], 7);
    assert_eq!(ll_lengths[279], 7);
    assert_eq!(ll_lengths[280], 8);
    assert_eq!(ll_lengths[287], 8);

    for i in 0..32 {
        assert_eq!(d_lengths[i], 5);
    }
}

#[test]
fn test_patch_distance_codes() {
    let mut d_lengths = vec![0u32; 32];
    patch_distance_codes_for_buggy_decoders(&mut d_lengths);

    // At least 2 codes.
    let count = d_lengths.iter().filter(|&&x| x > 0).count();
    assert!(count >= 2);
}

#[test]
fn test_lz77_get_byte_range() {
    let data = b"hello world";
    let mut store = LZ77Store::new(data);

    // Add some literal symbols.
    for i in 0..data.len() {
        store.litlens.push(data[i] as u16);
        store.dists.push(0);
        store.pos.push(i);
        store.ll_symbol.push(data[i] as u16);
        store.d_symbol.push(0);
    }

    let range = lz77_get_byte_range(&store, 0, data.len());
    assert_eq!(range, data.len());
}

#[test]
fn test_cache_creation() {
    let cache = LongestMatchCache::new(1000);
    assert_eq!(cache.length.len(), 1000);
    assert_eq!(cache.dist.len(), 1000);
    assert_eq!(cache.sublen.len(), CACHE_LENGTH * 1000 * 3);
}

#[test]
fn test_max_cached_sublen_empty() {
    let cache = LongestMatchCache::new(100);
    let max_len = max_cached_sublen(&cache, 0, 10);
    assert_eq!(max_len, 0);
}

#[test]
fn test_sublen_to_cache_and_back() {
    let mut cache = LongestMatchCache::new(100);
    let mut sublen = vec![0u16; 259];

    for i in 3..=10 {
        sublen[i] = (i * 10) as u16;
    }

    sublen_to_cache(&sublen, 5, 10, &mut cache);

    let mut retrieved = vec![0u16; 259];
    cache_to_sublen(&cache, 5, 10, &mut retrieved);

    for i in 3..=10 {
        assert_eq!(retrieved[i], sublen[i]);
    }
}

#[test]
fn test_cache_with_block_state() {
    let opts = Options::default();
    let mut state = BlockState::new(&opts, 0, 100, true);

    let sublen = vec![5u16; 259];
    store_in_longest_match_cache(&mut state, 10, MAX_MATCH, Some(&sublen), 42, 15);

    if let Some(lmc) = &state.lmc {
        assert_eq!(lmc.dist[10], 42);
        assert_eq!(lmc.length[10], 15);
    }
}

#[test]
fn test_try_get_from_cache() {
    let opts = Options::default();
    let mut state = BlockState::new(&opts, 0, 100, true);

    let sublen = vec![10u16; 259];
    store_in_longest_match_cache(&mut state, 10, MAX_MATCH, Some(&sublen), 42, 15);

    let mut limit = MAX_MATCH;
    let mut distance = 0;
    let mut length = 0;

    let found = try_get_from_longest_match_cache(&state, 10, &mut limit, None, &mut distance, &mut length);

    assert!(found);
    assert_eq!(distance, 42);
    assert_eq!(length, 15);
}

#[test]
fn test_bit_writer() {
    let mut bw = BitWriter::new();
    bw.add_bit(1);
    bw.add_bit(0);
    bw.add_bit(1);

    assert_eq!(bw.out[0] & 0x07, 0b101);
}

#[test]
fn test_deflate_simple() {
    let data = b"aaaa";
    let output = deflate_greedy_fixed(data);

    assert!(output.len() > 0);
    println!("Compressed {} bytes to {} bytes", data.len(), output.len());
}

#[test]
fn test_hash_creation() {
    let hash = zopfli_rs::types::Hash::new(WINDOW_SIZE);
    assert_eq!(hash.head.len(), 65536);
    assert_eq!(hash.prev.len(), WINDOW_SIZE);
    assert_eq!(hash.same.len(), WINDOW_SIZE);
    assert_eq!(hash.val, 0);
    assert_eq!(hash.val2, 0);
}

#[test]
fn test_reset_hash() {
    let mut hash = zopfli_rs::types::Hash::new(WINDOW_SIZE);
    hash.val = 123;
    hash.val2 = 456;
    hash.head[0] = 100;
    hash.head2[0] = 200;

    reset_hash(&mut hash);

    assert_eq!(hash.val, 0);
    assert_eq!(hash.val2, 0);
    assert_eq!(hash.head[0], -1);
    assert_eq!(hash.head2[0], -1);
}

#[test]
fn test_warmup_hash() {
    let data = b"hello world";
    let mut hash = zopfli_rs::types::Hash::new(WINDOW_SIZE);
    reset_hash(&mut hash);

    warmup_hash(data, 0, data.len(), &mut hash);

    assert_ne!(hash.val, 0);
}

#[test]
fn test_update_hash() {
    let data = b"abcdefghijklmnopqrstuvwxyz";
    let mut hash = zopfli_rs::types::Hash::new(WINDOW_SIZE);
    reset_hash(&mut hash);

    warmup_hash(data, 0, data.len(), &mut hash);

    for i in 0..data.len() - MIN_MATCH {
        update_hash(data, i, data.len(), &mut hash);
    }

    assert!(hash.head[hash.val as usize] >= 0);
}

#[test]
fn test_hash_with_repeated_pattern() {
    let data = b"aaaaaaaaaa";
    let mut hash = zopfli_rs::types::Hash::new(WINDOW_SIZE);
    reset_hash(&mut hash);

    warmup_hash(data, 0, data.len(), &mut hash);

    for i in 0..data.len() - MIN_MATCH {
        update_hash(data, i, data.len(), &mut hash);
        let hpos = (i & WINDOW_MASK) as usize;
        if i > 0 {
            assert!(hash.same[hpos] > 0);
        }
    }
}

#[test]
fn test_optimize_huffman_for_rle_empty() {
    let mut counts = vec![0; 10];
    optimize_huffman_for_rle(0, &mut counts);
}

#[test]
fn test_optimize_huffman_for_rle() {
    let mut counts = vec![5, 5, 5, 5, 0, 0, 0, 0, 0, 0, 3, 3, 3];
    let n = counts.len();
    optimize_huffman_for_rle(n, &mut counts);
}

#[test]
fn test_length_limited_code_lengths_simple() {
    let frequencies = vec![5, 7, 10, 15];
    let mut bitlengths = vec![0; 4];

    let result = length_limited_code_lengths(&frequencies, 4, 15, &mut bitlengths);
    assert!(result.is_ok());

    for &bl in &bitlengths {
        assert!(bl > 0);
    }

    assert!(bitlengths[3] <= bitlengths[2]);
    assert!(bitlengths[2] <= bitlengths[1]);
}

#[test]
fn test_length_limited_code_lengths_single_symbol() {
    let frequencies = vec![10, 0, 0, 0];
    let mut bitlengths = vec![0; 4];

    let result = length_limited_code_lengths(&frequencies, 4, 15, &mut bitlengths);
    assert!(result.is_ok());
    assert_eq!(bitlengths[0], 1);
    assert_eq!(bitlengths[1], 0);
    assert_eq!(bitlengths[2], 0);
    assert_eq!(bitlengths[3], 0);
}

#[test]
fn test_length_limited_code_lengths_two_symbols() {
    let frequencies = vec![10, 5, 0, 0];
    let mut bitlengths = vec![0; 4];

    let result = length_limited_code_lengths(&frequencies, 4, 15, &mut bitlengths);
    assert!(result.is_ok());
    assert_eq!(bitlengths[0], 1);
    assert_eq!(bitlengths[1], 1);
    assert_eq!(bitlengths[2], 0);
    assert_eq!(bitlengths[3], 0);
}

#[test]
fn test_lengths_to_symbols() {
    let lengths = vec![3, 3, 3, 3, 2, 4];
    let mut symbols = vec![0; 6];

    lengths_to_symbols(&lengths, 6, 15, &mut symbols);

    let mut seen = std::collections::HashSet::new();
    for i in 0..6 {
        if lengths[i] > 0 {
            assert!(seen.insert(symbols[i]));
        }
    }
}

#[test]
fn test_basic_import() {
    let _ = Options::default();
}

#[test]
fn test_get_match() {
    let data = b"hello world hello";
    let pos = 12;
    let match_pos = 0;
    let end = 17;

    let len = get_match(data, pos, match_pos, end);
    assert_eq!(len, 5);
}

#[test]
fn test_store_lit_len_dist_literal() {
    let data = b"test";
    let mut store = LZ77Store::new(data);

    store_lit_len_dist(b't' as u16, 0, 0, &mut store);

    assert_eq!(store.size(), 1);
    assert_eq!(store.litlens[0], b't' as u16);
    assert_eq!(store.dists[0], 0);
}

#[test]
fn test_store_lit_len_dist_match() {
    let data = b"test";
    let mut store = LZ77Store::new(data);

    store_lit_len_dist(4, 10, 0, &mut store);

    assert_eq!(store.size(), 1);
    assert_eq!(store.litlens[0], 4);
    assert_eq!(store.dists[0], 10);
}

#[test]
fn test_lz77_greedy_simple() {
    let data = b"aaaaaa";
    let opts = Options::default();
    let mut state = BlockState::new(&opts, 0, data.len(), true);
    let mut store = LZ77Store::new(data);
    let mut hash = zopfli_rs::types::Hash::new(WINDOW_SIZE);

    lz77_greedy(&mut state, data, 0, data.len(), &mut store, &mut hash);

    assert!(store.size() > 0);
    assert!(store.size() < data.len());
}

#[test]
fn test_lz77_greedy_with_pattern() {
    let data = b"hello worldhello";
    let opts = Options::default();
    let mut state = BlockState::new(&opts, 0, data.len(), true);
    let mut store = LZ77Store::new(data);
    let mut hash = zopfli_rs::types::Hash::new(WINDOW_SIZE);

    lz77_greedy(&mut state, data, 0, data.len(), &mut store, &mut hash);

    assert!(store.size() > 0);

    let has_backreference = store.dists.iter().any(|&d| d > 0);
    assert!(has_backreference, "Should find repeated 'hello'");
}

#[test]
fn test_length_symbol() {
    assert_eq!(get_length_symbol(3), 257);
    assert_eq!(get_length_symbol(4), 258);
    assert_eq!(get_length_symbol(5), 259);
    assert_eq!(get_length_symbol(10), 264);
    assert_eq!(get_length_symbol(258), 285);

    assert_eq!(get_length_symbol(11), 265);
    assert_eq!(get_length_symbol(12), 265);
    assert_eq!(get_length_symbol(18), 268);
}

#[test]
fn test_dist_symbol() {
    assert_eq!(get_dist_symbol(1), 0);
    assert_eq!(get_dist_symbol(2), 1);
    assert_eq!(get_dist_symbol(3), 2);
    assert_eq!(get_dist_symbol(4), 3);
    assert_eq!(get_dist_symbol(5), 4);
    assert_eq!(get_dist_symbol(6), 4);
    assert_eq!(get_dist_symbol(7), 5);
    assert_eq!(get_dist_symbol(8), 5);
    assert_eq!(get_dist_symbol(9), 6);
    assert_eq!(get_dist_symbol(10), 6);
}

#[test]
fn test_length_extra_bits() {
    assert_eq!(get_length_extra_bits(3), 0);
    assert_eq!(get_length_extra_bits(10), 0);
    assert_eq!(get_length_extra_bits(11), 1);
    assert_eq!(get_length_extra_bits(18), 1);
    assert_eq!(get_length_extra_bits(19), 2);
    assert_eq!(get_length_extra_bits(258), 0);
}

#[test]
fn test_dist_extra_bits() {
    assert_eq!(get_dist_extra_bits(1), 0);
    assert_eq!(get_dist_extra_bits(4), 0);
    assert_eq!(get_dist_extra_bits(5), 1);
    assert_eq!(get_dist_extra_bits(6), 1);
    assert_eq!(get_dist_extra_bits(7), 1);
    assert_eq!(get_dist_extra_bits(8), 1);
    assert_eq!(get_dist_extra_bits(9), 2);
    assert_eq!(get_dist_extra_bits(12), 2);
    assert_eq!(get_dist_extra_bits(17), 3);
}

#[test]
fn test_length_extra_bits_value() {
    assert_eq!(get_length_extra_bits_value(3), 0);
    assert_eq!(get_length_extra_bits_value(11), 0);
    assert_eq!(get_length_extra_bits_value(12), 1);
    assert_eq!(get_length_extra_bits_value(13), 0);
    assert_eq!(get_length_extra_bits_value(14), 1);
}

#[test]
fn test_dist_extra_bits_value() {
    assert_eq!(get_dist_extra_bits_value(1), 0);
    assert_eq!(get_dist_extra_bits_value(4), 0);
    assert_eq!(get_dist_extra_bits_value(5), 0);
    assert_eq!(get_dist_extra_bits_value(6), 1);
    assert_eq!(get_dist_extra_bits_value(7), 0);
    assert_eq!(get_dist_extra_bits_value(8), 1);
    assert_eq!(get_dist_extra_bits_value(9), 0);
    assert_eq!(get_dist_extra_bits_value(10), 1);
    assert_eq!(get_dist_extra_bits_value(11), 2);
    assert_eq!(get_dist_extra_bits_value(12), 3);
}

#[test]
fn test_symbol_roundtrip() {
    for len in MIN_MATCH..=MAX_MATCH {
        let symbol = get_length_symbol(len);
        assert!(symbol >= 257 && symbol <= 285);

        let extra_bits = get_length_extra_bits(len);
        let extra_value = get_length_extra_bits_value(len);

        if extra_bits > 0 {
            assert!(extra_value < (1 << extra_bits));
        } else {
            assert_eq!(extra_value, 0);
        }
    }
}

#[test]
fn test_dist_symbol_range() {
    for dist in 1..=1024 {
        let symbol = get_dist_symbol(dist);
        assert!(symbol < 30);

        let extra_bits = get_dist_extra_bits(dist);
        let extra_value = get_dist_extra_bits_value(dist);

        if extra_bits > 0 {
            assert!(extra_value < (1 << extra_bits));
        } else {
            assert_eq!(extra_value, 0);
        }
    }
}

#[test]
fn test_constants() {
    assert_eq!(NUM_LL, 288);
    assert_eq!(NUM_D, 32);
    assert_eq!(MIN_MATCH, 3);
    assert_eq!(MAX_MATCH, 258);
    assert_eq!(WINDOW_SIZE, 32768);
    assert_eq!(WINDOW_MASK, 32767);
    assert!(WINDOW_SIZE.is_power_of_two());
}

#[test]
fn test_options_default() {
    let opts = Options::default();
    assert_eq!(opts.numiterations, 15);
    assert!(opts.blocksplitting);
    assert_eq!(opts.blocksplittingmax, 15);
}

#[test]
fn test_lz77_store_new() {
    let data = vec![1, 2, 3, 4, 5];
    let store = LZ77Store::new(&data);
    assert_eq!(store.size(), 0);
    assert_eq!(store.data.len(), 5);
}

#[test]
fn test_hash_new() {
    let hash = zopfli_rs::types::Hash::new(WINDOW_SIZE);
    assert_eq!(hash.head.len(), 65536);
    assert_eq!(hash.prev.len(), WINDOW_SIZE);
    assert_eq!(hash.same.len(), WINDOW_SIZE);
}

#[test]
fn test_node_pool() {
    let mut pool = NodePool::new(100);
    let idx1 = pool.allocate();
    let idx2 = pool.allocate();
    assert_eq!(idx1, 0);
    assert_eq!(idx2, 1);

    pool.get_mut(idx1).weight = 42;
    assert_eq!(pool.get(idx1).weight, 42);
}

#[test]
fn test_longest_match_cache() {
    let cache = LongestMatchCache::new(100);
    assert_eq!(cache.length.len(), 100);
    assert_eq!(cache.dist.len(), 100);
    assert_eq!(cache.sublen.len(), CACHE_LENGTH * 100 * 3);
}

#[test]
fn test_block_state() {
    let opts = Options::default();
    let state = BlockState::new(&opts, 0, 100, true);
    assert_eq!(state.blockstart, 0);
    assert_eq!(state.blockend, 100);
    assert!(state.lmc.is_some());

    let state2 = BlockState::new(&opts, 0, 100, false);
    assert!(state2.lmc.is_none());
}

#[test]
fn test_abs_diff() {
    assert_eq!(abs_diff(5, 3), 2);
    assert_eq!(abs_diff(3, 5), 2);
    assert_eq!(abs_diff(5, 5), 0);
    assert_eq!(abs_diff(0, 10), 10);
    assert_eq!(abs_diff(10, 0), 10);
}

#[test]
fn test_zopfli_min() {
    assert_eq!(zopfli_min(5, 3), 3);
    assert_eq!(zopfli_min(3, 5), 3);
    assert_eq!(zopfli_min(5, 5), 5);
    assert_eq!(zopfli_min(0, 10), 0);
}

#[test]
fn test_ceil_div() {
    assert_eq!(ceil_div(10, 3), 4);
    assert_eq!(ceil_div(9, 3), 3);
    assert_eq!(ceil_div(1, 1), 1);
    assert_eq!(ceil_div(0, 1), 0);
    assert_eq!(ceil_div(7, 2), 4);
    assert_eq!(ceil_div(8, 2), 4);
}
