use ocelli::extract::{chop_and_tack, pick_and_flip};

/// Identical inputs and parameters yield byte-identical chunks on repeated
/// calls: both strategies are pure functions.
#[test]
fn determinism_of_both_strategies() {
    let previous: Vec<u8> = (0..250u32 * 250).map(|i| (i % 251) as u8).collect();
    let mut current = previous.clone();
    for (i, p) in current.iter_mut().enumerate() {
        *p = p.wrapping_add((i % 3) as u8);
    }
    let a = chop_and_tack(&current, &previous, 250, 7);
    let b = chop_and_tack(&current, &previous, 250, 7);
    assert_eq!(a, b);
    assert!(a.is_some());

    let frame: Vec<u8> = (0..1000u32).map(|i| (i % 256) as u8).collect();
    let x = pick_and_flip(&frame, 10, 240, 5);
    let y = pick_and_flip(&frame, 10, 240, 5);
    assert_eq!(x, y);
    assert!(!x.is_empty());
}

/// A width of 150 is at most 200, so the grid yields no chunk regardless of
/// buffer contents, and never panics.
#[test]
fn geometry_width_too_small_yields_none() {
    let current = vec![7u8; 150 * 300];
    let previous = vec![3u8; 150 * 300];
    assert_eq!(chop_and_tack(&current, &previous, 150, 30), None);
}

/// A derived height of at most 200 also fails the geometry check.
#[test]
fn geometry_height_too_small_yields_none() {
    let current = vec![9u8; 300 * 200];
    let previous = vec![9u8; 300 * 200];
    assert_eq!(chop_and_tack(&current, &previous, 300, 30), None);
}

/// Buffers of unequal length fail the geometry check.
#[test]
fn geometry_length_mismatch_yields_none() {
    let current = vec![1u8; 300 * 300];
    let previous = vec![1u8; 300 * 300 - 1];
    assert_eq!(chop_and_tack(&current, &previous, 300, 30), None);
}

/// Two equal frames have no unequal sampled pairs, so the chunk is empty.
#[test]
fn equal_frames_give_empty_chunk() {
    let frame = vec![42u8; 250 * 250];
    let chunk = chop_and_tack(&frame, &frame, 250, 10).unwrap();
    assert!(chunk.is_empty());
}

/// Two synthetic 1920x1080 frames where the current pixel is one step
/// brighter at every index yield a chunk consisting entirely of 0xFF bytes.
#[test]
fn brighter_frames_give_all_ff() {
    let previous: Vec<u8> = (0..1920u32 * 1080).map(|i| (i % 200) as u8).collect();
    let current: Vec<u8> = previous.iter().map(|p| p + 1).collect();
    let chunk = chop_and_tack(&current, &previous, 1920, 30).unwrap();
    assert!(!chunk.is_empty());
    assert!(chunk.iter().all(|&b| b == 0xFF));
}

/// An exactly arranged pair of frames gives an exactly known chunk: two
/// samples per interior row, brighter then darker, pack to 0xAA bytes.
#[test]
fn alternating_comparisons_give_aa_bytes() {
    let width = 250usize;
    let height = 250usize;
    let mut previous = vec![100u8; width * height];
    let mut current = vec![100u8; width * height];
    for row in 100..height - 100 {
        // Sampled columns with stride 30 inside [100, 150): 100 and 130.
        current[row * width + 100] = 101; // brighter: bit 1
        previous[row * width + 130] = 101; // darker: bit 0
    }
    let chunk = chop_and_tack(&current, &previous, width, 30).unwrap();
    // 50 rows of the bit pattern (1, 0) make 100 bits; 12 whole bytes of
    // 10101010 remain, the trailing 4 bits are dropped.
    assert_eq!(chunk, vec![0xAAu8; 12]);
}

/// The single-frame strategy with an inverted range yields an empty chunk.
#[test]
fn inverted_range_gives_empty_chunk() {
    let frame: Vec<u8> = (0..4096u32).map(|i| (i % 256) as u8).collect();
    assert!(pick_and_flip(&frame, 200, 100, 1).is_empty());
    assert!(pick_and_flip(&frame, 77, 77, 1).is_empty());
}

/// Eight in-range pixels with known least-significant bits pack into one
/// exactly known byte, and out-of-range pixels contribute nothing.
#[test]
fn lsb_bits_pack_exactly() {
    // LSBs of the in-range pixels: 1,0,1,1,0,0,1,0 -> 0b10110010 = 0xB2.
    let frame = vec![11u8, 10, 21, 31, 40, 50, 61, 70, 255, 255, 0];
    let chunk = pick_and_flip(&frame, 10, 100, 1);
    assert_eq!(chunk, vec![0xB2]);
    // An even frame index flips every bit: 0b01001101 = 0x4D.
    let flipped = pick_and_flip(&frame, 10, 100, 2);
    assert_eq!(flipped, vec![0x4D]);
}

/// A trailing group shorter than eight bits is dropped, not carried over.
#[test]
fn trailing_bits_are_dropped() {
    // Seven in-range pixels give seven bits and no output byte.
    let frame = vec![11u8, 10, 21, 31, 40, 50, 61];
    assert!(pick_and_flip(&frame, 10, 100, 1).is_empty());
}
