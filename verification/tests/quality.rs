use ocelli::quality::{byte_histogram, is_covered, shannon};

/// The Q32 scale of the Shannon score: bits per byte times 2^32.
const Q32: f64 = 4294967296.0;

/// An empty buffer scores zero.
#[test]
fn shannon_of_empty_is_zero() {
    assert_eq!(shannon(&[]), 0);
}

/// A buffer holding each of the 256 byte values exactly once scores exactly
/// 8 bits per byte, well within a 1e-9 tolerance of 8.0.
#[test]
fn shannon_of_all_distinct_is_eight() {
    let data: Vec<u8> = (0..=255u8).collect();
    let score = shannon(&data);
    assert_eq!(score, 8u64 << 32);
    let bits_per_byte = score as f64 / Q32;
    assert!((bits_per_byte - 8.0).abs() < 1e-9);
}

/// A buffer of one repeated byte value scores exactly zero.
#[test]
fn shannon_of_uniform_is_zero() {
    assert_eq!(shannon(&vec![0xA7u8; 1000]), 0);
    assert_eq!(shannon(&vec![0u8; 1]), 0);
}

/// Two equally frequent values score exactly one bit per byte.
#[test]
fn shannon_of_two_values_is_one() {
    let mut data = vec![0u8; 32];
    data.extend(vec![255u8; 32]);
    assert_eq!(shannon(&data), 1u64 << 32);
}

/// The score never exceeds eight bits per byte on a spread of buffers.
#[test]
fn shannon_stays_within_eight_bits() {
    let gradient: Vec<u8> = (0..10_000u32).map(|i| (i % 256) as u8).collect();
    let skewed: Vec<u8> = (0..10_000u32).map(|i| if i % 7 == 0 { 1 } else { 0 }).collect();
    for data in [gradient, skewed] {
        let score = shannon(&data) as f64 / Q32;
        assert!(score >= 0.0 && score <= 8.0);
    }
}

/// A frame with fewer distinct values than the threshold reports covered.
#[test]
fn few_distinct_values_report_covered() {
    let frame: Vec<u8> = (0..4096u32).map(|i| (i % 49) as u8).collect();
    assert!(is_covered(&frame, 50));
}

/// A full 0-255 gradient with threshold 50 reports uncovered.
#[test]
fn gradient_reports_uncovered() {
    let frame: Vec<u8> = (0..4096u32).map(|i| (i % 256) as u8).collect();
    assert!(!is_covered(&frame, 50));
}

/// The check sits exactly at the threshold: strictly fewer distinct values
/// than the threshold means covered.
#[test]
fn coverage_threshold_is_strict() {
    let frame: Vec<u8> = (0..50u8).collect();
    assert!(!is_covered(&frame, 50));
    assert!(is_covered(&frame, 51));
    assert!(is_covered(&[], 1));
    assert!(!is_covered(&[], 0));
}

/// The histogram counts every byte value exactly.
#[test]
fn histogram_counts_exactly() {
    let data = vec![3u8, 3, 3, 7, 7, 200];
    let counts = byte_histogram(&data);
    assert_eq!(counts.len(), 256);
    assert_eq!(counts[3], 3);
    assert_eq!(counts[7], 2);
    assert_eq!(counts[200], 1);
    assert_eq!(counts.iter().sum::<usize>(), data.len());
}
