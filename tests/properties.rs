use zopfli_rs::block::{
    calculate_block_size, calculate_block_size_auto_type, lz77_get_byte_range, lz77_get_histogram,
    patch_distance_codes_for_buggy_decoders,
};
use zopfli_rs::cache::{cache_to_sublen, max_cached_sublen, sublen_to_cache};
use zopfli_rs::deflate::{deflate_fixed_block, deflate_greedy_fixed, BitWriter};
use zopfli_rs::huffman::{length_limited_code_lengths, lengths_to_symbols, optimize_huffman_for_rle, HuffmanError};
use zopfli_rs::lz77::{find_longest_match, lz77_greedy, verify_len_dist};
use zopfli_rs::hash::{reset_hash, update_hash, warmup_hash};
use zopfli_rs::types::{LongestMatchCache, NUM_D, NUM_LL, WINDOW_SIZE};
use zopfli_rs::{BlockState, LZ77Store, Options};

fn tokenize(data: &[u8]) -> LZ77Store {
    let opts = Options::default();
    let mut state = BlockState::new(&opts, 0, data.len(), true);
    let mut store = LZ77Store::new(data);
    let mut hash = zopfli_rs::types::Hash::new(WINDOW_SIZE);
    lz77_greedy(&mut state, data, 0, data.len(), &mut store, &mut hash);
    store
}

fn pseudo_random_bytes(seed: u64, len: usize, alphabet: u8) -> Vec<u8> {
    let mut state = seed;
    let mut out = Vec::with_capacity(len);
    for _ in 0..len {
        state = state.wrapping_mul(6364136223846793005).wrapping_add(1442695040888963407);
        out.push(((state >> 33) % alphabet as u64) as u8);
    }
    out
}

/// Every byte is covered by exactly one token, in order, and every match repeats bytes
/// within the window.
fn check_tokens(data: &[u8], store: &LZ77Store) {
    let mut covered = 0usize;
    for i in 0..store.size() {
        assert_eq!(store.pos[i], covered);
        let dist = store.dists[i] as usize;
        let len = store.litlens[i] as usize;
        if dist == 0 {
            assert_eq!(len, data[covered] as usize);
            covered += 1;
        } else {
            assert!(dist >= 1 && dist <= covered && dist <= WINDOW_SIZE);
            assert!(len >= 3 && len <= 258);
            assert_eq!(&data[covered..covered + len], &data[covered - dist..covered - dist + len]);
            covered += len;
        }
    }
    assert_eq!(covered, data.len());
}

#[test]
fn empty_input_is_one_empty_fixed_block() {
    assert_eq!(deflate_greedy_fixed(b""), vec![0x03, 0x00]);
}

#[test]
fn single_literal_block() {
    assert_eq!(deflate_greedy_fixed(b"a"), vec![0x4B, 0x04, 0x00]);
}

#[test]
fn ten_as_give_a_literal_and_one_match() {
    let store = tokenize(b"aaaaaaaaaa");
    assert_eq!(store.size(), 2);
    assert_eq!((store.litlens[0], store.dists[0]), (b'a' as u16, 0));
    assert_eq!((store.litlens[1], store.dists[1]), (9, 1));
}

#[test]
fn hello_world_is_eleven_literals() {
    let store = tokenize(b"hello world");
    assert_eq!(store.size(), 11);
    assert!(store.dists.iter().all(|&d| d == 0));
}

#[test]
fn hello_worldhello_repeats_hello() {
    let store = tokenize(b"hello worldhello");
    let last = store.size() - 1;
    assert_eq!((store.litlens[last], store.dists[last], store.pos[last]), (5, 11, 11));
}

#[test]
fn tokens_cover_input_and_matches_repeat() {
    for seed in 0..40u64 {
        let data = pseudo_random_bytes(seed, 50 + (seed as usize * 37) % 2000, [2u8, 3, 16, 255][(seed % 4) as usize]);
        let store = tokenize(&data);
        check_tokens(&data, &store);
    }
    let runs = vec![b'x'; 3000];
    check_tokens(&runs, &tokenize(&runs));
}

#[test]
fn histogram_over_long_range_equals_direct_count() {
    let data = pseudo_random_bytes(11, 4000, 255);
    let store = tokenize(&data);
    assert!(store.size() > 3 * NUM_LL + 10);
    for &(lstart, lend) in &[(0usize, store.size()), (5, store.size() - 3), (300, 300 + 3 * NUM_LL), (0, 10), (7, 7)] {
        let mut ll_counts = vec![0usize; NUM_LL];
        let mut d_counts = vec![0usize; NUM_D];
        lz77_get_histogram(&store, lstart, lend, &mut ll_counts, &mut d_counts);
        let mut ll_direct = vec![0usize; NUM_LL];
        let mut d_direct = vec![0usize; NUM_D];
        for i in lstart..lend {
            ll_direct[store.ll_symbol[i] as usize] += 1;
            if store.dists[i] != 0 {
                d_direct[store.d_symbol[i] as usize] += 1;
            }
        }
        assert_eq!(ll_counts, ll_direct);
        assert_eq!(d_counts, d_direct);
    }
}

fn kraft_ok(lengths: &[u32]) -> bool {
    let total: u64 = lengths.iter().filter(|&&l| l > 0).map(|&l| 1u64 << (15 - l)).sum();
    total <= 1u64 << 15
}

#[test]
fn code_lengths_for_four_frequencies() {
    let frequencies = vec![5, 7, 10, 15];
    let mut bitlengths = vec![0u32; 4];
    assert_eq!(length_limited_code_lengths(&frequencies, 4, 15, &mut bitlengths), Ok(()));
    assert!(bitlengths.iter().all(|&l| l > 0 && l <= 15));
    assert!(bitlengths[3] <= bitlengths[2] && bitlengths[2] <= bitlengths[1] && bitlengths[1] <= bitlengths[0]);
    assert!(kraft_ok(&bitlengths));
}

#[test]
fn code_lengths_respect_the_limit() {
    // Fibonacci-like weights want deep trees; the limit cuts them.
    let mut frequencies = vec![1usize, 1];
    while frequencies.len() < 30 {
        let n = frequencies.len();
        frequencies.push(frequencies[n - 1] + frequencies[n - 2]);
    }
    for maxbits in [5usize, 7, 9, 15] {
        let mut bitlengths = vec![0u32; 30];
        assert_eq!(length_limited_code_lengths(&frequencies, 30, maxbits, &mut bitlengths), Ok(()));
        assert!(bitlengths.iter().all(|&l| l >= 1 && l as usize <= maxbits));
        assert!(kraft_ok(&bitlengths));
    }
}

#[test]
fn code_lengths_errors() {
    let mut bitlengths = vec![7u32; 5];
    assert_eq!(
        length_limited_code_lengths(&[1, 1, 1, 1, 1], 5, 2, &mut bitlengths),
        Err(HuffmanError::TooManyBitsForAlphabet)
    );
    assert_eq!(bitlengths, vec![0u32; 5]);
    let big = usize::MAX / 512 + 1;
    let mut bitlengths = vec![0u32; 3];
    assert_eq!(
        length_limited_code_lengths(&[big, 1, 1], 3, 15, &mut bitlengths),
        Err(HuffmanError::WeightOverflow)
    );
    // With two symbols the weight is never packed.
    let mut bitlengths = vec![0u32; 3];
    assert_eq!(length_limited_code_lengths(&[big, 0, 1], 3, 15, &mut bitlengths), Ok(()));
    assert_eq!(bitlengths, vec![1, 0, 1]);
}

#[test]
fn canonical_codes_exact_and_prefix_free() {
    let lengths = vec![3u32, 3, 3, 3, 2, 4];
    let mut symbols = vec![0u32; 6];
    lengths_to_symbols(&lengths, 6, 15, &mut symbols);
    assert_eq!(symbols, vec![2, 3, 4, 5, 0, 12]);
    for i in 0..6 {
        for j in 0..6 {
            if i != j && lengths[i] <= lengths[j] {
                let shift = lengths[j] - lengths[i];
                assert_ne!(symbols[j] >> shift, symbols[i], "code {} is a prefix of code {}", i, j);
            }
        }
    }
}

#[test]
fn rle_optimization_keeps_used_symbols_and_trailing_zeros() {
    let mut counts = vec![5usize, 6, 5, 6, 5, 1, 0, 0, 0, 0, 0, 0, 9, 9, 0, 0];
    let n = counts.len();
    optimize_huffman_for_rle(n, &mut counts);
    assert_eq!(counts, vec![5, 5, 5, 5, 5, 1, 0, 0, 0, 0, 0, 0, 9, 9, 0, 0]);
}

#[test]
fn cache_round_trip_with_several_distances() {
    let mut cache = LongestMatchCache::new(4);
    let mut sublen = vec![0u16; 259];
    for i in 3..=40 {
        sublen[i] = if i <= 5 { 1 } else if i <= 20 { 300 } else { 4000 };
    }
    sublen_to_cache(&sublen, 2, 40, &mut cache);
    assert_eq!(max_cached_sublen(&cache, 2, 40), 40);
    let mut back = vec![0u16; 259];
    cache_to_sublen(&cache, 2, 40, &mut back);
    assert_eq!(&back[3..=40], &sublen[3..=40]);
    // The other positions are untouched.
    assert_eq!(max_cached_sublen(&cache, 1, 40), 0);
}

#[test]
fn auto_type_is_no_larger_than_each_type() {
    for input in [&b"hello world"[..], b"aaaaaaaaaaaaaaaaaaaaaaaaaaaaaaaaaaaaaa", b"abcabcabcabcxyzxyz"] {
        let store = tokenize(input);
        let n = store.size();
        let auto = calculate_block_size_auto_type(&store, 0, n);
        for btype in 0..3 {
            assert!(auto <= calculate_block_size(&store, 0, n, btype));
        }
    }
}

#[test]
fn stored_and_fixed_sizes() {
    let store = tokenize(b"hello world");
    // One stored piece: 5 header bytes and the 11 bytes.
    assert_eq!(calculate_block_size(&store, 0, 11, 0), 40 + 88);
    // 3 header bits, 11 literals of 8 bits, the 7-bit end code.
    assert_eq!(calculate_block_size(&store, 0, 11, 1), 3 + 88 + 7);
    assert_eq!(lz77_get_byte_range(&store, 2, 5), 3);
}

#[test]
fn distance_code_patching() {
    let mut one = vec![0u32; 32];
    one[7] = 4;
    patch_distance_codes_for_buggy_decoders(&mut one);
    assert_eq!((one[0], one[1], one[7]), (1, 0, 4));
    let mut first = vec![0u32; 32];
    first[0] = 2;
    patch_distance_codes_for_buggy_decoders(&mut first);
    assert_eq!((first[0], first[1]), (2, 1));
    let mut two = vec![0u32; 32];
    two[3] = 1;
    two[9] = 1;
    let before = two.clone();
    patch_distance_codes_for_buggy_decoders(&mut two);
    assert_eq!(two, before);
}

#[test]
fn bit_writer_orders() {
    let mut bw = BitWriter::new();
    bw.add_bits_le(0b101, 3);
    bw.add_huff(0b110, 3);
    assert_eq!(bw.out, vec![0b011_101]);
    assert_eq!(bw.bp, 6);
    bw.add_bits_le(0xFF, 4);
    assert_eq!(bw.out, vec![0b1101_1101, 0b11]);
}

#[test]
fn fixed_block_not_final() {
    let store = tokenize(b"");
    assert_eq!(deflate_fixed_block(&store, 0, 0, false), vec![0x02, 0x00]);
}

#[test]
fn match_check_and_search() {
    let data = b"abcabcabcx";
    assert!(verify_len_dist(data, data.len(), 3, 3, 6));
    assert!(!verify_len_dist(data, data.len(), 3, 3, 7));
    assert!(!verify_len_dist(data, data.len(), 2, 3, 1));

    let opts = Options::default();
    let mut state = BlockState::new(&opts, 0, data.len(), false);
    let mut hash = zopfli_rs::types::Hash::new(WINDOW_SIZE);
    reset_hash(&mut hash);
    warmup_hash(data, 0, data.len(), &mut hash);
    for i in 0..=3 {
        update_hash(data, i, data.len(), &mut hash);
    }
    let mut sublen = vec![0u16; 259];
    let mut dist = 0u16;
    let mut len = 0u16;
    find_longest_match(&mut state, &hash, data, 3, data.len(), 258, Some(&mut sublen), &mut dist, &mut len);
    assert_eq!((dist, len), (3, 6));
    assert_eq!(sublen[3], 3);
    assert_eq!(sublen[6], 3);
}

#[test]
fn cache_keeps_at_most_eight_records() {
    let mut cache = LongestMatchCache::new(1);
    let mut sublen = vec![0u16; 259];
    // Ten different distances over lengths 3..=22, two lengths each.
    for i in 3..=22 {
        sublen[i] = 100 + ((i - 3) / 2) as u16;
    }
    sublen_to_cache(&sublen, 0, 22, &mut cache);
    let max = max_cached_sublen(&cache, 0, 22);
    assert_eq!(max, 18);
    let mut back = vec![0u16; 259];
    cache_to_sublen(&cache, 0, 22, &mut back);
    assert_eq!(&back[3..=max], &sublen[3..=max]);
}

#[test]
fn search_answers_from_cache_the_second_time() {
    // Long enough that the search limit stays at the maximum match length, so the
    // result is cached.
    let mut data = b"xyz".repeat(100);
    data.push(b'q');
    let data = &data[..];
    let opts = Options::default();
    let mut state = BlockState::new(&opts, 0, data.len(), true);
    let mut hash = zopfli_rs::types::Hash::new(WINDOW_SIZE);
    reset_hash(&mut hash);
    warmup_hash(data, 0, data.len(), &mut hash);
    for i in 0..=3 {
        update_hash(data, i, data.len(), &mut hash);
    }
    let mut sublen = vec![0u16; 259];
    let (mut d1, mut l1) = (0u16, 0u16);
    find_longest_match(&mut state, &hash, data, 3, data.len(), 258, Some(&mut sublen), &mut d1, &mut l1);
    assert_eq!((d1, l1), (3, 258));
    assert_eq!(state.lmc.as_ref().unwrap().length[3], 258);
    let mut sublen2 = vec![0u16; 259];
    let (mut d2, mut l2) = (0u16, 0u16);
    find_longest_match(&mut state, &hash, data, 3, data.len(), 258, Some(&mut sublen2), &mut d2, &mut l2);
    assert_eq!((d2, l2), (d1, l1));
    assert_eq!(&sublen2[3..=258], &sublen[3..=258]);
}

#[test]
fn rle_optimization_keeps_runs_good_for_rle() {
    let mut counts = vec![5usize, 5, 5, 5, 0, 0, 0, 0, 0, 0, 3, 3, 3];
    let n = counts.len();
    optimize_huffman_for_rle(n, &mut counts);
    assert_eq!(counts, vec![5, 5, 5, 5, 0, 0, 0, 0, 0, 0, 3, 3, 3]);
    // A run of six equal nonzero counts is kept too.
    let mut counts = vec![7usize, 9, 9, 9, 9, 9, 9, 1, 2, 1, 2];
    let n = counts.len();
    optimize_huffman_for_rle(n, &mut counts);
    assert_eq!(&counts[1..7], &[9, 9, 9, 9, 9, 9]);
}

#[test]
fn cache_miss_never_raises_the_limit() {
    let mut cache = LongestMatchCache::new(1);
    cache.length[0] = 100;
    cache.dist[0] = 5;
    // One record: lengths up to 50 at distance 5; the cached maximum is 50.
    cache.sublen[0] = 47;
    cache.sublen[1] = 5;
    cache.sublen[21] = 47;
    let opts = Options::default();
    let mut state = BlockState::new(&opts, 0, 1, false);
    state.lmc = Some(cache);
    let mut limit = 40usize;
    let mut sublen = vec![0u16; 259];
    let (mut distance, mut length) = (0u16, 0u16);
    let found = zopfli_rs::cache::try_get_from_longest_match_cache(
        &state,
        0,
        &mut limit,
        Some(&mut sublen),
        &mut distance,
        &mut length,
    );
    assert!(!found);
    assert_eq!(limit, 40);
    let mut limit = 258usize;
    let found = zopfli_rs::cache::try_get_from_longest_match_cache(
        &state,
        0,
        &mut limit,
        Some(&mut sublen),
        &mut distance,
        &mut length,
    );
    assert!(!found);
    assert_eq!(limit, 100);
}

#[test]
fn search_without_match_gives_zero() {
    let data = b"abcdefgh";
    let opts = Options::default();
    let mut state = BlockState::new(&opts, 0, data.len(), false);
    let mut hash = zopfli_rs::types::Hash::new(WINDOW_SIZE);
    reset_hash(&mut hash);
    warmup_hash(data, 0, data.len(), &mut hash);
    for i in 0..=4 {
        update_hash(data, i, data.len(), &mut hash);
    }
    let (mut dist, mut len) = (7u16, 7u16);
    find_longest_match(&mut state, &hash, data, 4, data.len(), 258, None, &mut dist, &mut len);
    assert_eq!((dist, len), (0, 0));
}

#[test]
fn code_lengths_are_complete_for_many_symbols() {
    let frequencies: Vec<usize> = (1..=40).map(|i| (i * i) % 37 + 1).collect();
    let mut bitlengths = vec![0u32; 40];
    assert_eq!(length_limited_code_lengths(&frequencies, 40, 7, &mut bitlengths), Ok(()));
    let total: u64 = bitlengths.iter().map(|&l| 1u64 << (7 - l)).sum();
    assert_eq!(total, 1 << 7);
    assert!(bitlengths.iter().all(|&l| l >= 1 && l <= 7));
}
