use flate2::read::DeflateDecoder;
use std::io::Read;
use zopfli_rs::deflate::deflate_greedy_fixed;

fn decompress_deflate(compressed: &[u8]) -> Vec<u8> {
    let mut decoder = DeflateDecoder::new(compressed);
    let mut decompressed = Vec::new();
    decoder.read_to_end(&mut decompressed).expect("a valid DEFLATE stream");
    decompressed
}

/// Compresses `input`, checks the exact bytes of the block, and checks that a DEFLATE
/// decoder gives the input back.
fn compare_with_expected(input: &str, expected: &[u8]) {
    let output = deflate_greedy_fixed(input.as_bytes());
    assert_eq!(output, expected, "bytes for {:?}", input);
    assert_eq!(decompress_deflate(&output), input.as_bytes());
}

#[test]
fn equiv_hello_world() {
    compare_with_expected("hello world", &[0xCB, 0x48, 0xCD, 0xC9, 0xC9, 0x57, 0x28, 0xCF, 0x2F, 0xCA, 0x49, 0x01, 0x00]);
}

#[test]
fn equiv_aaaaaaaaaa() {
    compare_with_expected("aaaaaaaaaa", &[0x4B, 0x84, 0x03, 0x00]);
}

#[test]
fn equiv_hhhheeeeellllloooooo() {
    compare_with_expected("hhhheeeeellllloooooo", &[0xCB, 0x00, 0x82, 0x54, 0x10, 0xC8, 0x01, 0x81, 0x7C, 0x30, 0x00, 0x00]);
}

#[test]
fn equiv_hello_worldaaaaaaaaa() {
    compare_with_expected("hello worldaaaaaaaaa", &[0xCB, 0x48, 0xCD, 0xC9, 0xC9, 0x57, 0x28, 0xCF, 0x2F, 0xCA, 0x49, 0x49, 0x84, 0x01, 0x00]);
}

#[test]
fn equiv_helllloooo_world() {
    compare_with_expected("helllloooo world", &[0xCB, 0x48, 0xCD, 0x01, 0x82, 0x7C, 0x20, 0x50, 0x28, 0xCF, 0x2F, 0xCA, 0x49, 0x01, 0x00]);
}

#[test]
fn equiv_testaaaaaaaaaa() {
    compare_with_expected("testaaaaaaaaaa", &[0x2B, 0x49, 0x2D, 0x2E, 0x49, 0x84, 0x03, 0x00]);
}

#[test]
fn equiv_aaaaaaaaatest() {
    compare_with_expected("aaaaaaaaatest", &[0x4B, 0x84, 0x81, 0x92, 0xD4, 0xE2, 0x12, 0x00]);
}

#[test]
fn equiv_aaabbbcccddd() {
    compare_with_expected("aaabbbcccddd", &[0x4B, 0x4C, 0x4C, 0x4C, 0x4A, 0x4A, 0x4A, 0x4E, 0x4E, 0x4E, 0x49, 0x49, 0x01, 0x00]);
}

#[test]
fn equiv_long_repeat() {
    compare_with_expected("aaaaaaaaaaaaaaaaaaaabbbbbbbbbbbbbbbbbbbb", &[0x4B, 0xC4, 0x02, 0x92, 0xB0, 0x00, 0x00]);
}

#[test]
fn equiv_alphabet() {
    compare_with_expected("abcdefghijklmnopqrstuvwxyz", &[0x4B, 0x4C, 0x4A, 0x4E, 0x49, 0x4D, 0x4B, 0xCF, 0xC8, 0xCC, 0xCA, 0xCE, 0xC9, 0xCD, 0xCB, 0x2F, 0x28, 0x2C, 0x2A, 0x2E, 0x29, 0x2D, 0x2B, 0xAF, 0xA8, 0xAC, 0x02, 0x00]);
}

#[test]
fn equiv_numbers() {
    compare_with_expected("0123456789012345678901234567890123456789", &[0x33, 0x30, 0x34, 0x32, 0x36, 0x31, 0x35, 0x33, 0xB7, 0xB0, 0xC4, 0xCF, 0x02, 0x00]);
}

#[test]
fn equiv_punctuation() {
    compare_with_expected("!!!!!!......??????", &[0x53, 0x04, 0x03, 0x3D, 0x30, 0xB0, 0x07, 0x03, 0x00]);
}

#[test]
fn equiv_sentence() {
    compare_with_expected("The quick brown fox jumps over the lazy dog", &[0x0B, 0xC9, 0x48, 0x55, 0x28, 0x2C, 0xCD, 0x4C, 0xCE, 0x56, 0x48, 0x2A, 0xCA, 0x2F, 0xCF, 0x53, 0x48, 0xCB, 0xAF, 0x50, 0xC8, 0x2A, 0xCD, 0x2D, 0x28, 0x56, 0xC8, 0x2F, 0x4B, 0x2D, 0x52, 0x28, 0x01, 0x4A, 0xE7, 0x24, 0x56, 0x55, 0x2A, 0xA4, 0xE4, 0xA7, 0x03, 0x00]);
}

#[test]
fn equiv_repeated_words() {
    compare_with_expected("test test test test", &[0x2B, 0x49, 0x2D, 0x2E, 0x51, 0x40, 0x25, 0x00]);
}

#[test]
fn equiv_pattern_abc() {
    compare_with_expected("abcabcabcabcabcabcabc", &[0x4B, 0x4C, 0x4A, 0xC6, 0x44, 0x00]);
}

#[test]
fn equiv_pattern_xyz() {
    compare_with_expected("xyzxyzxyzxyzxyzxyzxyz", &[0xAB, 0xA8, 0xAC, 0xC2, 0x44, 0x00]);
}

#[test]
fn equiv_hello_variant1() {
    compare_with_expected("hhhheeeelllllllooooo", &[0xCB, 0x00, 0x82, 0x54, 0x20, 0xC8, 0x81, 0x80, 0x7C, 0x10, 0x00, 0x00]);
}

#[test]
fn equiv_hello_variant2() {
    compare_with_expected("hheelllloo", &[0xCB, 0xC8, 0x48, 0x4D, 0xCD, 0x01, 0x82, 0xFC, 0x7C, 0x00]);
}

#[test]
fn equiv_hello_variant3() {
    compare_with_expected("hhhhhheeeeeeelllllllloooooooo", &[0xCB, 0x00, 0x83, 0x54, 0x08, 0xC8, 0x81, 0x82, 0x7C, 0x28, 0x00, 0x00]);
}

#[test]
fn equiv_world_variant() {
    compare_with_expected("wwwwoooorrrrlllldddd", &[0x2B, 0x07, 0x82, 0x7C, 0x20, 0x28, 0x02, 0x82, 0x1C, 0x20, 0x48, 0x01, 0x02, 0x00]);
}

#[test]
fn equiv_alternating() {
    compare_with_expected("ababababababababab", &[0x4B, 0x4C, 0x42, 0x87, 0x00]);
}

#[test]
fn equiv_increasing() {
    compare_with_expected("abbcccddddeeeeeffffff", &[0x4B, 0x4C, 0x4A, 0x4A, 0x4E, 0x4E, 0x4E, 0x01, 0x82, 0x54, 0x10, 0x48, 0x03, 0x03, 0x00]);
}

#[test]
fn equiv_empty() {
    compare_with_expected("", &[0x03, 0x00]);
}

#[test]
fn equiv_single_char() {
    compare_with_expected("a", &[0x4B, 0x04, 0x00]);
}

#[test]
fn equiv_two_chars() {
    compare_with_expected("ab", &[0x4B, 0x4C, 0x02, 0x00]);
}

#[test]
fn equiv_three_chars() {
    compare_with_expected("abc", &[0x4B, 0x4C, 0x4A, 0x06, 0x00]);
}

#[test]
fn equiv_100_as() {
    compare_with_expected(&"a".repeat(100), &[0x4B, 0xA4, 0x03, 0x00, 0x00]);
}

#[test]
fn equiv_50_pattern() {
    compare_with_expected(&"ab".repeat(50), &[0x4B, 0x4C, 0xA2, 0x3D, 0x04, 0x00]);
}

#[test]
fn equiv_json_like() {
    compare_with_expected(r#"{"key":"value","key2":"value2"}"#, &[0xAB, 0x56, 0xCA, 0x4E, 0xAD, 0x54, 0xB2, 0x52, 0x2A, 0x4B, 0xCC, 0x29, 0x4D, 0x55, 0xD2, 0x01, 0xF1, 0x8C, 0x60, 0x5C, 0x23, 0xA5, 0x5A, 0x00]);
}

#[test]
fn equiv_html_like() {
    compare_with_expected("<html><body><p>test</p></body></html>", &[0xB3, 0xC9, 0x28, 0xC9, 0xCD, 0xB1, 0xB3, 0x49, 0xCA, 0x4F, 0xA9, 0xB4, 0xB3, 0x29, 0xB0, 0x2B, 0x49, 0x2D, 0x2E, 0xB1, 0xD1, 0x2F, 0xB0, 0xB3, 0xD1, 0x87, 0x88, 0xE8, 0x83, 0xA5, 0x01]);
}

#[test]
fn equiv_url_like() {
    compare_with_expected("https://example.com/path/to/resource?param=value", &[0xCB, 0x28, 0x29, 0x29, 0x28, 0xB6, 0xD2, 0xD7, 0x4F, 0xAD, 0x48, 0xCC, 0x2D, 0xC8, 0x49, 0xD5, 0x4B, 0xCE, 0xCF, 0xD5, 0x2F, 0x48, 0x2C, 0xC9, 0xD0, 0x2F, 0xC9, 0xD7, 0x2F, 0x4A, 0x2D, 0xCE, 0x2F, 0x2D, 0x4A, 0x4E, 0xB5, 0x2F, 0x48, 0x2C, 0x4A, 0xCC, 0xB5, 0x2D, 0x4B, 0xCC, 0x29, 0x4D, 0x05, 0x00]);
}
