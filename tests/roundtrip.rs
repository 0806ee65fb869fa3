use flate2::read::DeflateDecoder;
use std::io::Read;
use zopfli_rs::deflate::deflate_greedy_fixed;

fn decompress_deflate(compressed: &[u8]) -> Result<Vec<u8>, std::io::Error> {
    let mut decoder = DeflateDecoder::new(compressed);
    let mut decompressed = Vec::new();
    decoder.read_to_end(&mut decompressed)?;
    Ok(decompressed)
}

fn check_roundtrip(input: &[u8]) {
    let compressed = deflate_greedy_fixed(input);
    match decompress_deflate(&compressed) {
        Ok(decompressed) => assert_eq!(decompressed, input, "decompressed data differs from the input"),
        Err(e) => panic!("Failed to decompress: {}", e),
    }
}

#[test]
fn test_roundtrip_hello_world() {
    check_roundtrip(b"hello world");
}

#[test]
fn test_roundtrip_repeated_pattern() {
    check_roundtrip(b"aaaaaaaaaa");
}

#[test]
fn test_roundtrip_hhhheeeeellllloooooo() {
    check_roundtrip(b"hhhheeeeellllloooooo");
}

#[test]
fn test_roundtrip_hello_worldaaaaaaaaa() {
    check_roundtrip(b"hello worldaaaaaaaaa");
}

#[test]
fn test_roundtrip_empty() {
    check_roundtrip(b"");
}

#[test]
fn test_roundtrip_single_byte() {
    check_roundtrip(b"a");
}

/// A deterministic stand-in for random inputs: a linear congruential generator.
fn pseudo_random_bytes(seed: u64, len: usize, alphabet: u8) -> Vec<u8> {
    let mut state = seed;
    let mut out = Vec::with_capacity(len);
    for _ in 0..len {
        state = state.wrapping_mul(6364136223846793005).wrapping_add(1442695040888963407);
        out.push(((state >> 33) % alphabet as u64) as u8);
    }
    out
}

#[test]
fn test_roundtrip_many_small_inputs() {
    for seed in 0..200u64 {
        let len = (seed as usize * 7) % 100;
        let alphabet = [2u8, 4, 26, 255][(seed % 4) as usize];
        check_roundtrip(&pseudo_random_bytes(seed, len, alphabet));
    }
}

#[test]
fn test_roundtrip_larger_inputs() {
    check_roundtrip(&pseudo_random_bytes(7, 10000, 3));
    check_roundtrip(&pseudo_random_bytes(8, 10000, 255));
    check_roundtrip(&vec![b'z'; 10000]);
    let text = "the rain in spain stays mainly in the plain; ".repeat(200);
    check_roundtrip(text.as_bytes());
}

#[test]
fn test_roundtrip_long_distance() {
    // A repeat more than 1024 bytes back, where the lazy-matching score is penalized.
    let mut data = pseudo_random_bytes(3, 5000, 255);
    let head: Vec<u8> = data[..300].to_vec();
    data.extend_from_slice(&head);
    check_roundtrip(&data);
}
