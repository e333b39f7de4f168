use ocelli::whiten::whiten;

/// An all-0x00 buffer consists of equal bit pairs only, so whitening yields
/// an empty output; an all-0xFF buffer behaves the same.
#[test]
fn uniform_buffers_whiten_to_nothing() {
    assert!(whiten(&vec![0u8; 64]).is_empty());
    assert!(whiten(&vec![0xFFu8; 64]).is_empty());
    assert!(whiten(&[]).is_empty());
}

/// A buffer of 0x55 bytes is the bit stream 0101...: every pair is (0,1) and
/// emits output bit 0, consuming every pair, so 2n input bytes give n bytes
/// of 0x00.
#[test]
fn alternating_01_whitens_to_zero_bytes() {
    let out = whiten(&vec![0x55u8; 16]);
    assert_eq!(out, vec![0x00u8; 8]);
}

/// A buffer of 0xAA bytes is the bit stream 1010...: every pair is (1,0) and
/// emits output bit 1, consuming every pair, so 2n input bytes give n bytes
/// of 0xFF.
#[test]
fn alternating_10_whitens_to_ff_bytes() {
    let out = whiten(&vec![0xAAu8; 16]);
    assert_eq!(out, vec![0xFFu8; 8]);
}

/// Pairs are disjoint and cross byte boundaries transparently: one byte
/// holds four pairs, so an odd number of 0x55 bytes leaves a half-filled
/// output byte that is dropped.
#[test]
fn trailing_incomplete_output_byte_is_dropped() {
    assert_eq!(whiten(&vec![0x55u8; 3]), vec![0x00u8]);
    assert!(whiten(&vec![0x55u8; 1]).is_empty());
}

/// An exactly known mixed input: 0x4B is the bits 01001011, whose pairs
/// (0,1)(0,0)(1,0)(1,1) emit 0 then 1. Four such bytes emit the byte
/// 0b01010101 = 0x55.
#[test]
fn mixed_input_whitens_exactly() {
    assert_eq!(whiten(&vec![0x4Bu8; 4]), vec![0x55u8]);
}

/// Whitening never expands its input.
#[test]
fn output_no_longer_than_input() {
    let input: Vec<u8> = (0..=255u8).collect();
    assert!(whiten(&input).len() <= input.len());
}
