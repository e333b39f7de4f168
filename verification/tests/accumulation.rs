use ocelli::accumulate::{
    Accumulator, AccumulatorConfig, CoveragePolicy, ExtractionMode, RoundOutcome,
};

fn single_frame_config(target: usize, warmup: usize, threshold_q32: u64) -> AccumulatorConfig {
    AccumulatorConfig {
        target_len: target,
        warmup_frames: warmup,
        mode: ExtractionMode::SingleFrame { low: 0, high: 254 },
        whiten_output: false,
        shannon_threshold_q32: threshold_q32,
        coverage_threshold: 50,
        coverage_policy: CoveragePolicy::Ignore,
    }
}

/// A mixed frame whose least-significant bits carry both values, scoring
/// above zero entropy once packed.
fn noisy_frame(len: usize, salt: u8) -> Vec<u8> {
    (0..len).map(|i| ((i * 37 + 11 + salt as usize) % 200) as u8).collect()
}

/// The pool never shrinks, equals the sum of accepted chunk lengths before
/// truncation, and the finished output is exactly the target length.
#[test]
fn pool_grows_monotonically_and_truncates_to_target() {
    let mut acc = Accumulator::new(single_frame_config(50, 2, 0));
    let mut last_len = 0usize;
    let mut accepted_sum = 0usize;
    let mut round = 0u8;
    while !acc.is_complete() {
        let frame = noisy_frame(512, round);
        round = round.wrapping_add(1);
        let outcome = acc.offer_frame(&frame);
        let len = acc.pool_len();
        assert!(len >= last_len);
        if let RoundOutcome::Accepted { added, .. } = outcome {
            accepted_sum += added;
        }
        assert_eq!(len, accepted_sum);
        last_len = len;
    }
    // Chunks arrive 64 bytes at a time, so the pool overshoots the target
    // and the excess is trimmed from the tail.
    assert!(acc.pool_len() > 50);
    let out = acc.finish();
    assert_eq!(out.len(), 50);
}

/// The configured number of warm-up frames is discarded unprocessed.
#[test]
fn warmup_frames_are_discarded() {
    let mut acc = Accumulator::new(single_frame_config(8, 3, 0));
    let frame = noisy_frame(256, 0);
    for _ in 0..3 {
        assert_eq!(acc.offer_frame(&frame), RoundOutcome::Warmup);
        assert_eq!(acc.pool_len(), 0);
    }
    assert!(!matches!(acc.offer_frame(&frame), RoundOutcome::Warmup));
}

/// A threshold above the chunk's score rejects the chunk and the pool keeps
/// its length; rejected chunks are discarded in full.
#[test]
fn low_quality_chunks_are_rejected() {
    // Frames of one repeated value yield constant bits: entropy 0.
    let mut acc = Accumulator::new(single_frame_config(8, 0, 8u64 << 32));
    let flat = vec![9u8; 256];
    match acc.offer_frame(&flat) {
        RoundOutcome::Rejected { score } => assert!(score < 8u64 << 32),
        other => panic!("expected a rejection, got {:?}", other),
    }
    assert_eq!(acc.pool_len(), 0);
}

/// Differential mode stores the first frame and extracts from each later
/// frame paired with its predecessor.
#[test]
fn differential_mode_pairs_frames() {
    let config = AccumulatorConfig {
        target_len: 4,
        warmup_frames: 0,
        mode: ExtractionMode::Differential { width: 250, stride: 10 },
        whiten_output: false,
        shannon_threshold_q32: 0,
        coverage_threshold: 50,
        coverage_policy: CoveragePolicy::Ignore,
    };
    let mut acc = Accumulator::new(config);
    let first = noisy_frame(250 * 250, 1);
    let second = noisy_frame(250 * 250, 2);
    assert_eq!(acc.offer_frame(&first), RoundOutcome::PairPending);
    assert!(matches!(acc.offer_frame(&second), RoundOutcome::Accepted { .. }));
    assert!(acc.pool_len() > 0);
}

/// Invalid differential geometry yields no chunk and the loop can continue.
#[test]
fn bad_geometry_yields_no_chunk() {
    let config = AccumulatorConfig {
        target_len: 4,
        warmup_frames: 0,
        mode: ExtractionMode::Differential { width: 150, stride: 10 },
        whiten_output: false,
        shannon_threshold_q32: 0,
        coverage_threshold: 50,
        coverage_policy: CoveragePolicy::Ignore,
    };
    let mut acc = Accumulator::new(config);
    let frame = noisy_frame(150 * 300, 0);
    assert_eq!(acc.offer_frame(&frame), RoundOutcome::PairPending);
    assert_eq!(acc.offer_frame(&frame), RoundOutcome::NoChunk);
    assert_eq!(acc.pool_len(), 0);
}

/// A coverage mismatch rejects the round without advancing the frame
/// counter: warm-up style discards do not resume.
#[test]
fn coverage_policy_blocks_rounds() {
    let config = AccumulatorConfig {
        target_len: 8,
        warmup_frames: 0,
        mode: ExtractionMode::SingleFrame { low: 0, high: 254 },
        whiten_output: false,
        shannon_threshold_q32: 0,
        coverage_threshold: 50,
        coverage_policy: CoveragePolicy::RequireCovered,
    };
    let mut acc = Accumulator::new(config);
    // A full-gradient frame is far from uniform: not covered.
    let open_lens: Vec<u8> = (0..4096u32).map(|i| (i % 256) as u8).collect();
    assert_eq!(acc.offer_frame(&open_lens), RoundOutcome::CoverageMismatch);
    assert_eq!(acc.pool_len(), 0);
    // A near-uniform frame passes the RequireCovered policy.
    let covered_lens: Vec<u8> = (0..4096u32).map(|i| (i % 7) as u8).collect();
    assert!(matches!(acc.offer_frame(&covered_lens), RoundOutcome::Accepted { .. }));
}

/// With whitening configured, the accepted bytes are the whitened chunk.
#[test]
fn whitening_applies_before_the_gate() {
    let mut config = single_frame_config(4, 0, 0);
    config.whiten_output = true;
    let mut acc = Accumulator::new(config);
    // All pixels share one LSB: the raw chunk is constant bytes, which
    // whiten to nothing, so the round accepts zero bytes.
    let flat = vec![8u8; 256];
    match acc.offer_frame(&flat) {
        RoundOutcome::Accepted { added, .. } => assert_eq!(added, 0),
        other => panic!("expected an accepted empty chunk, got {:?}", other),
    }
    assert_eq!(acc.pool_len(), 0);
}
